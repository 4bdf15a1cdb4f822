use ib_matcher::pinyin::notation::{ASCII, ASCII_FIRST_LETTER, ASCII_TONE, NOTATION_COUNT, UNICODE};
use ib_matcher::pinyin::{PinyinData, PinyinNotation};

fn text(v: Option<&Vec<char>>) -> Option<String> {
    v.map(|v| v.iter().collect())
}

#[test]
fn notation_sets() {
    let none = PinyinNotation::empty();
    assert!(none.is_empty());
    for k in 0..NOTATION_COUNT {
        assert!(!none.contains_index(k));
        let one = PinyinNotation::single(k);
        assert!(!one.is_empty());
        for j in 0..NOTATION_COUNT {
            assert_eq!(one.contains_index(j), j == k);
        }
    }
    assert!(PinyinNotation::ascii_first_letter().contains_index(ASCII_FIRST_LETTER));
    assert!(PinyinNotation::ascii().contains_index(ASCII));
    assert!(PinyinNotation::ascii_tone().contains_index(ASCII_TONE));
    assert!(!PinyinNotation::ascii_tone().contains_index(ASCII));

    let both = PinyinNotation::ascii().union(PinyinNotation::ascii_tone());
    assert!(both.contains(PinyinNotation::ascii()));
    assert!(both.contains(PinyinNotation::ascii_tone()));
    assert!(both.contains(both));
    assert!(both.contains(none));
    assert!(!both.contains(PinyinNotation::ascii_first_letter()));
    assert!(!PinyinNotation::ascii().contains(both));
    // An index that names no notation is in no set.
    assert!(!both.contains_index(NOTATION_COUNT));
    assert!(PinyinNotation::single(NOTATION_COUNT).is_empty());
}

#[test]
fn readings_in_their_notations() {
    let all = PinyinNotation::ascii()
        .union(PinyinNotation::ascii_first_letter())
        .union(PinyinNotation::ascii_tone());
    let mut data = PinyinData::new(all);
    assert!(data.inited_notations().contains(all));
    assert!(data.add_reading('拼', "pin", 1));
    assert!(data.add_reading('行', "xing", 2));
    assert!(data.add_reading('行', "hang", 2));
    assert!(data.add_reading('音', "yin", 1));

    let e = data.get_pinyins('拼').unwrap();
    assert_eq!(e.len(), 1);
    assert_eq!(text(Some(e[0].ascii())), Some("pin".to_string()));
    assert_eq!(e[0].tone(), 1);
    assert_eq!(text(e[0].notation(ASCII_FIRST_LETTER)), Some("p".to_string()));
    assert_eq!(text(e[0].notation(ASCII)), Some("pin".to_string()));
    assert_eq!(text(e[0].notation(ASCII_TONE)), Some("pin1".to_string()));
    assert_eq!(text(e[0].notation(UNICODE)), None);
    assert_eq!(text(e[0].notation(NOTATION_COUNT)), None);

    // The readings of a character stay in the order in which they came.
    let e = data.get_pinyins('行').unwrap();
    assert_eq!(e.len(), 2);
    assert_eq!(text(e[0].notation(ASCII_TONE)), Some("xing2".to_string()));
    assert_eq!(text(e[1].notation(ASCII_TONE)), Some("hang2".to_string()));

    assert!(data.get_pinyins('科').is_none());
    assert!(data.get_pinyins('a').is_none());
}

#[test]
fn a_notation_that_is_not_initialised_has_no_text() {
    let mut data = PinyinData::new(PinyinNotation::ascii());
    assert!(data.add_reading('拼', "pin", 1));
    let e = data.get_pinyins('拼').unwrap();
    assert_eq!(text(e[0].notation(ASCII)), Some("pin".to_string()));
    assert_eq!(text(e[0].notation(ASCII_FIRST_LETTER)), None);
    assert_eq!(text(e[0].notation(ASCII_TONE)), None);
    assert!(!data.inited_notations().contains_index(ASCII_TONE));
}

#[test]
fn initialising_twice_changes_nothing() {
    let mut data = PinyinData::new(PinyinNotation::ascii());
    assert!(data.add_reading('拼', "pin", 1));
    assert!(data.add_reading('音', "yin", 1));

    data.init_notations(PinyinNotation::ascii_tone());
    let once: Vec<Vec<Option<String>>> = ['拼', '音']
        .iter()
        .map(|c| (0..NOTATION_COUNT).map(|k| text(data.get_pinyins(*c).unwrap()[0].notation(k))).collect())
        .collect();
    assert_eq!(once[0][ASCII], Some("pin".to_string()));
    assert_eq!(once[0][ASCII_TONE], Some("pin1".to_string()));
    assert_eq!(once[0][ASCII_FIRST_LETTER], None);
    let inited = data.inited_notations();
    assert!(inited.contains(PinyinNotation::ascii().union(PinyinNotation::ascii_tone())));

    data.init_notations(PinyinNotation::ascii_tone());
    let twice: Vec<Vec<Option<String>>> = ['拼', '音']
        .iter()
        .map(|c| (0..NOTATION_COUNT).map(|k| text(data.get_pinyins(*c).unwrap()[0].notation(k))).collect())
        .collect();
    assert_eq!(once, twice);
    assert!(data.inited_notations().contains(inited));
    assert!(inited.contains(data.inited_notations()));

    // Initialising what is there already loses nothing either.
    data.init_notations(PinyinNotation::ascii());
    assert_eq!(text(data.get_pinyins('拼').unwrap()[0].notation(ASCII_TONE)), Some("pin1".to_string()));
}

#[test]
fn every_form_of_the_dictionary() {
    let mut data =
        PinyinData::new(PinyinNotation::ascii().union(PinyinNotation::ascii_first_letter()));
    assert!(data.add_reading('拼', "pin", 1));
    assert!(data.add_reading('音', "yin", 1));
    let mut forms: Vec<String> =
        data.all_forms(&vec![ASCII_FIRST_LETTER, ASCII]).iter().map(|v| v.iter().collect()).collect();
    forms.sort();
    assert_eq!(forms, vec!["p", "pin", "y", "yin"]);
    let forms = data.all_forms(&vec![ASCII_TONE, UNICODE]);
    assert!(forms.is_empty());
}

#[test]
fn add_reading_rejects_what_is_no_reading() {
    let mut data = PinyinData::new(PinyinNotation::ascii());
    assert!(!data.add_reading('拼', "", 1));
    assert!(!data.add_reading('拼', "pin", 10));
    assert!(data.get_pinyins('拼').is_none());
    assert!(data.add_reading('拼', "pin", 0));
    assert!(data.add_reading('拼', "pin", 9));
    assert_eq!(data.get_pinyins('拼').unwrap().len(), 2);
}

#[test]
fn try_for_each_reading() {
    let mut data = PinyinData::new(PinyinNotation::ascii());
    assert!(data.add_reading('行', "xing", 2));
    assert!(data.add_reading('行', "hang", 2));
    assert!(data.add_reading('行', "heng", 2));

    let seen = std::cell::RefCell::new(Vec::new());
    let r = data.get_pinyins_and_try_for_each('行', |e| {
        seen.borrow_mut().push(text(Some(e.ascii())).unwrap());
        None::<()>
    });
    assert_eq!(r, None);
    assert_eq!(*seen.borrow(), vec!["xing", "hang", "heng"]);

    let calls = std::cell::Cell::new(0);
    let r = data.get_pinyins_and_try_for_each('行', |e| {
        calls.set(calls.get() + 1);
        if e.ascii().first() == Some(&'h') {
            text(e.notation(ASCII))
        } else {
            None
        }
    });
    assert_eq!(r, Some("hang".to_string()));
    assert_eq!(calls.get(), 2);

    let r = data.get_pinyins_and_try_for_each('拼', |_| Some(1));
    assert_eq!(r, None);
}

#[test]
fn texts_handed_in_for_the_other_notations() {
    let diletter = ib_matcher::pinyin::notation::DILETTER_XIAOHE;
    let all = PinyinNotation::ascii()
        .union(PinyinNotation::single(UNICODE))
        .union(PinyinNotation::single(diletter));
    let mut data = PinyinData::new(all);
    let mut given: Vec<Option<String>> = vec![None; NOTATION_COUNT];
    // What stands below the index 3 is not looked at.
    given[ASCII] = Some("never".to_string());
    given[UNICODE] = Some("pīn".to_string());
    given[diletter] = Some("pb".to_string());
    assert!(data.add_reading_with('拼', "pin", 1, &given));
    assert!(data.add_reading_with('音', "yin", 1, &vec![None, None, None, Some("yīn".to_string())]));
    assert!(data.add_reading('搜', "sou", 1));
    assert!(!data.add_reading_with('搜', "", 1, &given));

    let e = data.get_pinyins('拼').unwrap();
    assert_eq!(text(e[0].notation(ASCII)), Some("pin".to_string()));
    assert_eq!(text(e[0].notation(UNICODE)), Some("pīn".to_string()));
    assert_eq!(text(e[0].notation(diletter)), Some("pb".to_string()));
    let e = data.get_pinyins('音').unwrap();
    assert_eq!(text(e[0].notation(UNICODE)), Some("yīn".to_string()));
    assert_eq!(text(e[0].notation(diletter)), None);
    let e = data.get_pinyins('搜').unwrap();
    assert_eq!(text(e[0].notation(UNICODE)), None);

    // A notation that is initialised later finds the text that was handed in.
    let mut late = PinyinData::new(PinyinNotation::ascii());
    assert!(late.add_reading_with('拼', "pin", 1, &given));
    assert_eq!(text(late.get_pinyins('拼').unwrap()[0].notation(UNICODE)), None);
    late.init_notations(PinyinNotation::single(UNICODE));
    assert_eq!(text(late.get_pinyins('拼').unwrap()[0].notation(UNICODE)), Some("pīn".to_string()));

    // The matcher reads them as it reads the derived ones.
    use_in_matcher(&data, diletter);
}

fn use_in_matcher(data: &PinyinData, diletter: usize) {
    let unicode = ib_matcher::matcher::IbMatcher::builder("pīnyīn")
        .pinyin(ib_matcher::matcher::PinyinMatchConfig::notations(
            data,
            PinyinNotation::single(UNICODE),
        ))
        .build();
    let m = unicode.find("x拼音").unwrap();
    assert_eq!((m.start(), m.end()), (1, 7));
    assert!(unicode.find("x拼搜").is_none());
    let both = ib_matcher::matcher::IbMatcher::builder("pbyin")
        .pinyin(ib_matcher::matcher::PinyinMatchConfig::notations(
            data,
            PinyinNotation::ascii().union(PinyinNotation::single(diletter)),
        ))
        .build();
    let m = both.find("拼音").unwrap();
    assert_eq!((m.start(), m.end()), (0, 6));
}
