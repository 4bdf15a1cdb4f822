use ib_matcher::matcher::pattern::{LangOnly, Pattern};
use ib_matcher::matcher::{IbMatcher, Match, MatchConfig, PinyinMatchConfig};
use ib_matcher::pinyin::{PinyinData, PinyinNotation};

fn pinyin_data(notations: PinyinNotation) -> PinyinData {
    let mut data = PinyinData::new(notations);
    for (c, ascii, tone) in [
        ('拼', "pin", 1),
        ('音', "yin", 1),
        ('搜', "sou", 1),
        ('索', "suo", 3),
        ('行', "hang", 2),
        ('行', "xing", 2),
        ('行', "heng", 2),
        ('科', "ke", 1),
        ('鹅', "e", 2),
        ('凯', "kai", 3),
        ('尔', "er", 3),
        ('柯', "ke", 1),
        ('不', "bu", 4),
        ('双', "shuang", 1),
    ] {
        assert!(data.add_reading(c, ascii, tone));
    }
    data
}

fn ascii() -> PinyinNotation {
    PinyinNotation::ascii()
}

fn ascii_and_first_letter() -> PinyinNotation {
    PinyinNotation::ascii().union(PinyinNotation::ascii_first_letter())
}

fn assert_match(m: Option<Match>, expected: Option<(usize, usize)>) {
    assert_eq!(m.map(|m| (m.start(), m.len())), expected);
}

#[test]
fn test() {
    let data = pinyin_data(ascii_and_first_letter());

    let matcher = IbMatcher::builder("xing")
        .pinyin(PinyinMatchConfig::notations(&data, ascii()))
        .build();
    assert_match(matcher.test(""), None);
    assert_match(matcher.test("xing"), Some((0, 4)));
    assert_match(matcher.test("XiNG"), Some((0, 4)));
    assert_match(matcher.test("行"), Some((0, 3)));

    let matcher = IbMatcher::builder("ke")
        .pinyin(PinyinMatchConfig::notations(&data, ascii()))
        .build();
    assert_match(matcher.test("ke"), Some((0, 2)));
    assert_match(matcher.test("科"), Some((0, 3)));
    assert_match(matcher.test("k鹅"), Some((0, 4)));
    assert_match(matcher.test("凯尔"), None);

    let matcher = IbMatcher::builder("")
        .pinyin(PinyinMatchConfig::notations(&data, ascii()))
        .build();
    assert_match(matcher.test(""), Some((0, 0)));
    assert_match(matcher.test("abc"), Some((0, 0)));

    let matcher = IbMatcher::builder("ke")
        .pinyin(PinyinMatchConfig::notations(&data, ascii_and_first_letter()))
        .build();
    assert_match(matcher.test("ke"), Some((0, 2)));
    assert_match(matcher.test("科"), Some((0, 3)));
    assert_match(matcher.test("k鹅"), Some((0, 4)));
    assert_match(matcher.test("凯尔"), Some((0, 6)));
    // AsciiFirstLetter is preferred
    assert_match(matcher.test("柯尔"), Some((0, 6)));
}

#[test]
fn test_case_insensitive() {
    let data = pinyin_data(ascii());

    let matcher = IbMatcher::builder("xing")
        .case_insensitive(false)
        .pinyin(PinyinMatchConfig::notations(&data, ascii()).case_insensitive(false))
        .build();
    assert_match(matcher.test("xing"), Some((0, 4)));
    assert_match(matcher.test("XiNG"), None);
    assert_match(matcher.test("行"), Some((0, 3)));

    let matcher = IbMatcher::builder("XING")
        .case_insensitive(true)
        .pinyin(PinyinMatchConfig::notations(&data, ascii()).case_insensitive(false))
        .build();
    assert_match(matcher.test("xing"), Some((0, 4)));
    assert_match(matcher.test("XiNG"), Some((0, 4)));
    assert_match(matcher.test("行"), None);

    let matcher = IbMatcher::builder("XING")
        .case_insensitive(true)
        .pinyin(PinyinMatchConfig::notations(&data, ascii()).case_insensitive(true))
        .build();
    assert_match(matcher.test("xing"), Some((0, 4)));
    assert_match(matcher.test("XiNG"), Some((0, 4)));
    assert_match(matcher.test("行"), Some((0, 3)));

    let matcher = IbMatcher::builder("XiNG")
        .case_insensitive(false)
        .pinyin(PinyinMatchConfig::notations(&data, ascii()).case_insensitive(true))
        .build();
    assert_match(matcher.test("xing"), None);
    assert_match(matcher.test("XiNG"), Some((0, 4)));
    assert_match(matcher.test("行"), Some((0, 3)));
}

#[test]
fn find() {
    let data = pinyin_data(ascii());

    let matcher = IbMatcher::builder("xing")
        .pinyin(PinyinMatchConfig::notations(&data, ascii()))
        .build();
    assert_match(matcher.find(""), None);
    assert_match(matcher.find("buxing"), Some((2, 4)));
    assert_match(matcher.find("BuXiNG"), Some((2, 4)));
    assert_match(matcher.find("不行"), Some((3, 3)));

    let matcher = IbMatcher::builder("")
        .pinyin(PinyinMatchConfig::notations(&data, ascii()))
        .build();
    assert_match(matcher.find(""), Some((0, 0)));
    assert_match(matcher.find("abc"), Some((0, 0)));
}

#[test]
fn pinyin_search_over_mixed_text() {
    let data = pinyin_data(ascii_and_first_letter());
    let matcher = IbMatcher::builder("pysousuoeve")
        .pinyin(PinyinMatchConfig::notations(&data, ascii_and_first_letter()))
        .build();
    assert!(matcher.is_match("拼音搜索Everything"));
    assert_match(matcher.find("拼音搜索Everything"), Some((0, 15)));
    assert!(!matcher.is_match("拼音搜Everything"));
}

#[test]
fn is_match_agrees_with_find() {
    let data = pinyin_data(ascii_and_first_letter());
    let matcher = IbMatcher::builder("xing")
        .pinyin(PinyinMatchConfig::notations(&data, ascii_and_first_letter()))
        .build();
    for h in ["", "x", "xing", "axing", "行", "不行", "b行x", "XING", "xin", "行行"] {
        assert_eq!(matcher.is_match(h), matcher.find(h).is_some(), "{h}");
    }
}

#[test]
fn partial_pattern_ends_inside_a_pinyin() {
    let data = pinyin_data(ascii());
    let matcher = IbMatcher::builder("pinyi")
        .pinyin(PinyinMatchConfig::notations(&data, ascii()))
        .is_pattern_partial(true)
        .build();
    let m = matcher.find("拼音").unwrap();
    assert_eq!((m.start(), m.end(), m.is_pattern_partial()), (0, 6, true));

    let matcher = IbMatcher::builder("pinyi")
        .pinyin(PinyinMatchConfig::notations(&data, ascii()))
        .build();
    assert!(matcher.find("拼音").is_none());

    let matcher = IbMatcher::builder("pinyin")
        .pinyin(PinyinMatchConfig::notations(&data, ascii()))
        .is_pattern_partial(true)
        .build();
    let m = matcher.find("拼音").unwrap();
    assert_eq!((m.start(), m.end(), m.is_pattern_partial()), (0, 6, false));
}

#[test]
fn long_pinyin_fits_a_short_haystack() {
    let data = pinyin_data(ascii());
    let matcher = IbMatcher::builder("shuangshuang")
        .pinyin(PinyinMatchConfig::notations(&data, ascii()))
        .build();
    assert!(!matcher.is_haystack_too_short("双双"));
    assert_match(matcher.find("双双"), Some((0, 6)));
    assert!(matcher.is_haystack_too_short(""));
}

#[test]
fn plain_matcher_bounds_the_haystack_by_the_pattern() {
    let matcher = IbMatcher::builder("abc").build();
    assert!(matcher.is_haystack_too_short("ab"));
    assert!(!matcher.is_haystack_too_short("abc"));
    assert_match(matcher.find("ab"), None);
    assert_match(matcher.find("xxABCxx"), Some((2, 3)));
    assert_match(matcher.find("拼abc"), Some((3, 3)));
    assert_match(matcher.test("拼abc"), None);
    assert_match(matcher.test("Abc拼"), Some((0, 3)));
}

#[test]
fn ascii_path_agrees_with_general_path() {
    // With a non-ASCII character in front the general algorithm runs; the
    // offsets differ by exactly that character.
    for (p, h) in [("abc", "xxABCxx"), ("a", "bbb"), ("ab", "aab"), ("b-c", "a b-c d")] {
        for ci in [true, false] {
            let matcher = IbMatcher::builder(p).case_insensitive(ci).build();
            let fast = matcher.find(h).map(|m| (m.start(), m.end()));
            let general = matcher
                .find(&format!("é{h}"))
                .map(|m| (m.start() - 2, m.end() - 2));
            assert_eq!(fast, general, "{p} {h} {ci}");
        }
    }
}

#[test]
fn starts_with_anchors_find() {
    let data = pinyin_data(ascii());
    let config = MatchConfig::new()
        .pinyin(PinyinMatchConfig::notations(&data, ascii()))
        .starts_with(true);
    let m = IbMatcher::with_config(Pattern::new("xing"), config);
    assert_match(m.find("xing"), Some((0, 4)));
    assert_match(m.find("axing"), None);
    assert_match(m.find("行x"), Some((0, 3)));
    assert_match(m.find("不行"), None);
}

#[test]
fn lang_only_restricts_matching() {
    let data = pinyin_data(ascii());
    let config = MatchConfig::new().pinyin(PinyinMatchConfig::notations(&data, ascii()));

    let p = Pattern { pattern: "pinyin", lang_only: Some(LangOnly::Pinyin) };
    let m = IbMatcher::with_config(p, config);
    assert!(m.is_match("拼音搜索"));
    assert!(!m.is_match("pinyin"));

    let p = Pattern { pattern: "pinyin", lang_only: Some(LangOnly::English) };
    let m = IbMatcher::with_config(p, config);
    assert!(!m.is_match("拼音搜索"));
    assert!(m.is_match("pinyin"));

    let p = Pattern { pattern: "pinyin", lang_only: Some(LangOnly::Romaji) };
    let m = IbMatcher::with_config(p, config);
    assert!(!m.is_match("拼音搜索"));
    assert!(!m.is_match("pinyin"));
}

#[test]
fn match_accessors() {
    let matcher = IbMatcher::builder("bc").build();
    let m = matcher.find("abcd").unwrap();
    assert_eq!(m.start(), 1);
    assert_eq!(m.end(), 3);
    assert_eq!(m.range(), 1..3);
    assert_eq!(m.len(), 2);
    assert!(!m.is_empty());
    assert!(!m.is_pattern_partial());
    let o = m.offset(10);
    assert_eq!((o.start(), o.end()), (11, 13));
    let d = o.div(2);
    assert_eq!((d.start(), d.end()), (5, 6));
    let e = IbMatcher::builder("").build().find("abc").unwrap();
    assert!(e.is_empty());
    assert_eq!((e.start(), e.end(), e.is_pattern_partial()), (0, 0, false));
}

#[test]
fn is_haystack_too_short() {
    let data = pinyin_data(ascii());
    let matcher = IbMatcher::builder("pysseve")
        .pinyin(PinyinMatchConfig::notations(&data, ascii()))
        .analyze(true)
        .build();
    assert!(matcher.is_haystack_too_short(""));
    assert!(matcher.is_haystack_too_short("a"));
    assert!(matcher.is_haystack_too_short("pyss"));
    assert!(matcher.is_haystack_too_short("pyssEverything") == false);
    assert!(matcher.is_haystack_too_short("拼"));
    assert!(matcher.is_haystack_too_short("拼音"));
    assert!(matcher.is_haystack_too_short("拼音搜") == false);
}

/// The least haystack length that the matcher accepts, found by probing.
fn min_len_of(matcher: &IbMatcher) -> usize {
    let mut h = String::new();
    while matcher.is_haystack_too_short(&h) {
        h.push('x');
        assert!(h.len() < 100);
    }
    h.len()
}

#[test]
fn analysis_counts_two_bytes_for_a_pinyin() {
    let data = pinyin_data(ascii_and_first_letter());

    // Without analysis one byte is all that is asked for.
    let matcher = IbMatcher::builder("shuangshuang")
        .pinyin(PinyinMatchConfig::notations(&data, ascii()))
        .build();
    assert_eq!(min_len_of(&matcher), 1);

    // Two pinyins: two characters of two bytes at least.
    let matcher = IbMatcher::builder("shuangshuang")
        .pinyin(PinyinMatchConfig::notations(&data, ascii()))
        .analyze(true)
        .build();
    assert_eq!(min_len_of(&matcher), 4);
    assert_match(matcher.find("双双"), Some((0, 6)));

    // No pinyin in it: a byte for each character.
    let matcher = IbMatcher::builder("pysseve")
        .pinyin(PinyinMatchConfig::notations(&data, ascii()))
        .analyze(true)
        .build();
    assert_eq!(min_len_of(&matcher), 7);

    // "ke" is one pinyin, "x" stands for itself.
    let matcher = IbMatcher::builder("kex")
        .pinyin(PinyinMatchConfig::notations(&data, ascii()))
        .analyze(true)
        .build();
    assert_eq!(min_len_of(&matcher), 3);
    assert_match(matcher.find("科x"), Some((0, 4)));

    // With first letters each letter may stand for a character, which is
    // never cheaper than the letter itself.
    let matcher = IbMatcher::builder("pys")
        .pinyin(PinyinMatchConfig::notations(&data, ascii_and_first_letter()))
        .analyze(true)
        .build();
    assert_eq!(min_len_of(&matcher), 3);
    assert_match(matcher.find("拼音搜"), Some((0, 9)));

    // A partial pattern may end inside one pinyin.
    let matcher = IbMatcher::builder("shuangshu")
        .pinyin(PinyinMatchConfig::notations(&data, ascii()))
        .is_pattern_partial(true)
        .analyze(true)
        .build();
    assert_eq!(min_len_of(&matcher), 4);
    let m = matcher.find("双双").unwrap();
    assert_eq!((m.start(), m.end(), m.is_pattern_partial()), (0, 6, true));

    // The empty pattern needs nothing.
    let matcher = IbMatcher::builder("")
        .pinyin(PinyinMatchConfig::notations(&data, ascii()))
        .analyze(true)
        .build();
    assert_eq!(min_len_of(&matcher), 0);
}

#[test]
fn ev_lang_only() {
    let data = pinyin_data(ascii());

    let p = Pattern::parse_ev("pinyin");
    assert!(p.lang_only.is_none());

    let p = Pattern::parse_ev("pinyin;en");
    assert_eq!(p.lang_only, Some(LangOnly::English));

    let p = Pattern::parse_ev("pinyin;py");
    assert_eq!(p.lang_only, Some(LangOnly::Pinyin));

    let p = Pattern::parse_ev("pinyin;rm");
    assert_eq!(p.lang_only, Some(LangOnly::Romaji));

    let p = Pattern::parse_ev("pinyin;en;py");
    assert_eq!(p.pattern, "pinyin;en");
    assert_eq!(p.lang_only, Some(LangOnly::Pinyin));

    let matcher = IbMatcher::builder(Pattern::parse_ev("pinyin;py"))
        .pinyin(PinyinMatchConfig::notations(&data, ascii()))
        .build();
    assert!(matcher.is_match("拼音搜索"));
    assert!(matcher.is_match("pinyin") == false);
}

#[test]
fn mod_lang_only() {
    let data = pinyin_data(ascii());

    let p = Pattern::parse_ev("pinyin");
    assert!(p.lang_only.is_none());

    let p = Pattern::parse_ev("pinyin;en");
    assert_eq!(p.lang_only, Some(LangOnly::English));

    let p = Pattern::parse_ev("pinyin;py");
    assert_eq!(p.lang_only, Some(LangOnly::Pinyin));

    let p = Pattern::parse_ev("pinyin;rm");
    assert_eq!(p.lang_only, Some(LangOnly::Romaji));

    let p = Pattern::parse_ev("pinyin;en;py");
    assert_eq!(p.pattern, "pinyin;en");
    assert_eq!(p.lang_only, Some(LangOnly::Pinyin));

    let matcher = IbMatcher::builder(Pattern::parse_ev("pinyin;py"))
        .pinyin(PinyinMatchConfig::notations(&data, ascii()))
        .build();
    assert!(matcher.is_match("拼音搜索"));
    assert!(matcher.is_match("pinyin") == false);
}

#[test]
fn parse_ev_with_switches() {
    let p = Pattern::parse_ev_with("pinyin;py", true, false, true);
    assert_eq!(p.pattern, "pinyin;py");
    assert!(p.lang_only.is_none());
    let p = Pattern::parse_ev_with("pinyin;rm", false, false, true);
    assert_eq!((p.pattern, p.lang_only), ("pinyin", Some(LangOnly::Romaji)));
    let p = Pattern::parse_ev_with(";en", true, true, true);
    assert_eq!((p.pattern, p.lang_only), ("", Some(LangOnly::English)));
    let p = Pattern::parse_ev("en");
    assert_eq!((p.pattern, p.lang_only), ("en", None));
    let p = Pattern::parse_ev("拼音;xx");
    assert_eq!((p.pattern, p.lang_only), ("拼音;xx", None));
}

#[test]
fn a_configuration_is_ready_where_its_notations_are_initialised() {
    let data = pinyin_data(ascii());
    assert!(MatchConfig::new().is_ready());
    assert!(MatchConfig::new().pinyin(PinyinMatchConfig::notations(&data, ascii())).is_ready());
    assert!(!MatchConfig::new()
        .pinyin(PinyinMatchConfig::notations(&data, ascii_and_first_letter()))
        .is_ready());
    assert!(MatchConfig::new()
        .pinyin(PinyinMatchConfig::notations(&data, PinyinNotation::empty()))
        .is_ready());
    let mut late = pinyin_data(ascii());
    late.init_notations(PinyinNotation::ascii_first_letter());
    assert!(MatchConfig::new()
        .pinyin(PinyinMatchConfig::notations(&late, ascii_and_first_letter()))
        .is_ready());
}
