use ib_matcher::matcher::pattern::Pattern;
use ib_matcher::matcher::{IbMatcher, Match, MatchConfig, RomajiMatchConfig};
use ib_matcher::romaji::cache::{read_cache_header, usable_cache, write_cache};
use ib_matcher::romaji::convert::{
    eq_ignore_hepburn_ime_equisized, hepburn_ime_map, romaji_starts_with_ignore_hepburn_ime,
    starts_with_ignore_hepburn_ime,
};
use ib_matcher::romaji::kana::KANA_ROMAJIS;
use ib_matcher::romaji::{HepburnRomanizer, Input, RomajiBuildError};

const NOMA_ROMAJI: &str = "noma";

fn kanas() -> Vec<(String, String)> {
    [
        ("あ", "a"),
        ("い", "i"),
        ("う", "u"),
        ("お", "o"),
        ("か", "ka"),
        ("こ", "ko"),
        ("し", "shi"),
        ("て", "te"),
        ("に", "ni"),
        ("の", "no"),
        ("は", "ha"),
        ("よ", "yo"),
        ("ら", "ra"),
        ("を", "wo"),
        ("ん", "n"),
        ("って", "tte"),
        ("キャ", "kya"),
        ("ジョ", "jo"),
        ("タ", "ta"),
        ("ッチ", "tchi"),
        ("ニョ", "nyo"),
        ("ハ", "ha"),
        ("パ", "pa"),
        ("ボ", "bo"),
        ("ン", "n"),
        ("ヰ", "i"),
        ("ﾆｮ", "nyo"),
    ]
    .into_iter()
    .map(|(k, r)| (k.to_string(), r.to_string()))
    .collect()
}

fn kanjis() -> Vec<(char, Vec<String>)> {
    let mut table: Vec<(char, Vec<String>)> = [
        ('世', vec!["se", "yo"]),
        ('丵', vec!["kusanomuragari", "saku"]),
        ('今', vec!["ima", "kin", "kon", "na"]),
        ('奈', vec!["dai", "ikan", "karanashi", "na", "nai"]),
        ('娍', vec!["sei", "suraritoshitemimeyoi"]),
        ('式', vec!["nori", "shiki"]),
        (
            '日',
            vec![
                "a", "aki", "bi", "chi", "he", "hi", "iru", "jitsu", "ka", "kou", "ku", "kusa",
                "nchi", "ni", "nichi", "nitsu", "su", "tachi",
            ],
        ),
        ('時', vec!["aki", "doki", "ji", "to", "togi", "toki"]),
        ('樹', vec!["ki", "ju"]),
        ('水', vec!["mizu", "sui"]),
        ('界', vec!["kai"]),
        ('雪', vec!["setsu", "yuki"]),
        ('馬', vec!["ba", "ban", "ma", "me", "mo", "ta", "uma"]),
    ]
    .into_iter()
    .map(|(c, r)| (c, r.into_iter().map(|s| s.to_string()).collect()))
    .collect();
    table.sort_by_key(|(c, _)| *c);
    table
}

fn words() -> Vec<(String, Vec<String>)> {
    [
        ("今日", vec!["kyou"]),
        ("日本語", vec!["nippongo"]),
        ("素晴らしい", vec!["subarashii"]),
        ("世界", vec!["sekai"]),
        ("修正", vec!["shuusei"]),
        ("集成", vec!["shuusei"]),
        ("終生", vec!["shuusei"]),
        (
            "身体髪膚これを父母に受くあえて毀傷せざるは孝の始めなり",
            vec!["shintaihappukorewofuboniukuaetekishousezaruhakounohajimenari"],
        ),
        ("馬鹿々々しい", vec!["bakabakashii"]),
    ]
    .into_iter()
    .map(|(k, r)| (k.to_string(), r.into_iter().map(|s| s.to_string()).collect()))
    .collect()
}

fn romanizer(kana: bool, kanji: bool, word: bool) -> HepburnRomanizer {
    let kanas = if kana { kanas() } else { Vec::new() };
    let words = if word { words() } else { Vec::new() };
    HepburnRomanizer::new(&kanas, &kanjis(), &words, kanji).unwrap()
}

fn default_romanizer() -> HepburnRomanizer {
    romanizer(true, true, true)
}

fn vec_of(r: &HepburnRomanizer, s: &str) -> Vec<(usize, String)> {
    r.romanize_vec(Input::new(s, 0))
}

fn expect(list: &[(usize, &str)]) -> Vec<(usize, String)> {
    list.iter().map(|(n, s)| (*n, s.to_string())).collect()
}

fn assert_match(m: Option<Match>, expected: Option<(usize, usize)>) {
    assert_eq!(m.map(|m| (m.start(), m.len())), expected);
}

fn assert_partial(m: Option<Match>, expected: (usize, usize)) {
    let m = m.unwrap();
    assert_eq!((m.start(), m.len()), expected);
    assert!(m.is_pattern_partial());
}

#[test]
fn kana() {
    let data = romanizer(true, false, false);
    assert_eq!(data.romanize_kana("は"), Some((3, "ha".to_string())));
    assert_eq!(data.romanize_kana("ハハハ"), Some((3, "ha".to_string())));
    assert_eq!(data.romanize_kana("ジョジョ"), Some((6, "jo".to_string())));
    assert_eq!(data.romanize_kana("って"), Some((6, "tte".to_string())));
    assert_eq!(data.romanize_kana("日は"), None);
}

#[test]
fn kana_str() {
    let data = romanizer(true, false, false);
    assert_eq!(data.romanize_kana_str("は"), Some((3, "ha".into())));
    assert_eq!(data.romanize_kana_str("ハハハ"), Some((9, "hahaha".into())));
    assert_eq!(data.romanize_kana_str("ジョジョ"), Some((12, "jojo".into())));
    assert_eq!(data.romanize_kana_str("って"), Some((6, "tte".into())));
    assert_eq!(data.romanize_kana_str("日は"), None);
    assert_eq!(data.romanize_kana_str("は、は日"), Some((9, "ha、ha".into())));
    assert_eq!(data.romanize_kana_str_all("はは"), Some("haha".into()));
    assert_eq!(data.romanize_kana_str_all("は日"), None);
    assert_eq!(data.romanize_kana_str_all(""), None);
}

#[test]
fn is_romanizable_to() {
    let data = romanizer(true, true, false);
    assert!(data.is_romanizable_to(Input::new("は", 0), "ha"));
    assert!(data.is_romanizable_to(Input::new("ハハハ", 0), "hahaha"));
    assert!(data.is_romanizable_to(Input::new("ジョジョ", 0), "jojo"));
    assert!(data.is_romanizable_to(Input::new("って", 0), "tte"));
    assert!(data.is_romanizable_to(Input::new("日は", 0), "hiha"));
    assert!(data.is_romanizable_to(Input::new("日は", 0), "kusaha"));
    assert!(!data.is_romanizable_to(Input::new("今日", 0), "kyou"));
    assert!(data.is_romanizable_to(Input::new("今日", 0), "imakusa"));
    assert!(data.is_romanizable(Input::new("今日は", 0)));
    assert!(!data.is_romanizable(Input::new("今日x", 0)));
    assert!(data.is_romanizable(Input::new("", 0)));
    // Offset 1 is inside the first character.
    assert!(!data.is_romanizable(Input::new("は", 1)));
}

#[test]
fn kanji() {
    let readings = [
        "a", "aki", "bi", "chi", "he", "hi", "iru", "jitsu", "ka", "kou", "ku", "kusa", "nchi",
        "ni", "nichi", "nitsu", "su", "tachi",
    ];
    let data = romanizer(true, true, false);
    assert_eq!(
        data.kanji_romajis('日').unwrap().iter().map(|r| r.iter().collect::<String>()).collect::<Vec<_>>(),
        readings
    );
    assert_eq!(vec_of(&data, "は"), expect(&[(3, "ha")]));
    assert_eq!(vec_of(&data, "ハハハ"), expect(&[(3, "ha")]));
    assert_eq!(vec_of(&data, "ジョジョ"), expect(&[(6, "jo")]));
    assert_eq!(vec_of(&data, "って"), expect(&[(6, "tte")]));
    assert_eq!(
        vec_of(&data, "日は"),
        readings.iter().map(|r| (3, r.to_string())).collect::<Vec<_>>()
    );
    assert_eq!(
        vec_of(&data, "今日"),
        expect(&[(3, "ima"), (3, "kin"), (3, "kon"), (3, "na")])
    );
}

#[test]
fn word() {
    let data = romanizer(true, false, true);
    assert_eq!(vec_of(&data, "は"), expect(&[(3, "ha")]));
    assert_eq!(vec_of(&data, "ハハハ"), expect(&[(3, "ha")]));
    assert_eq!(vec_of(&data, "ジョジョ"), expect(&[(6, "jo")]));
    assert_eq!(vec_of(&data, "って"), expect(&[(6, "tte")]));
    assert_eq!(vec_of(&data, "日は"), expect(&[]));
    assert_eq!(vec_of(&data, "今日"), expect(&[(6, "kyou")]));

    let data = default_romanizer();
    assert_eq!(
        vec_of(&data, "今日"),
        expect(&[(6, "kyou"), (3, "ima"), (3, "kin"), (3, "kon"), (3, "na")])
    );
    assert_eq!(vec_of(&data, "日本語")[0], (9, "nippongo".to_string()));
    assert_eq!(vec_of(&data, "日本語").len(), 19);
}

#[test]
fn noma() {
    let data = romanizer(true, true, false);
    assert_eq!(vec_of(&data, "々"), expect(&[(3, NOMA_ROMAJI)]));

    assert_eq!(
        vec_of(&data, "奈々"),
        expect(&[(3, "dai"), (3, "ikan"), (3, "karanashi"), (3, "na"), (3, "nai")])
    );
    assert_eq!(
        data.romanize_vec(Input::new("奈々", 3)),
        expect(&[
            (3, "dai"),
            (3, "ikan"),
            (3, "karanashi"),
            (3, "na"),
            (3, "nai"),
            (3, NOMA_ROMAJI)
        ])
    );
    assert_eq!(
        data.romanize_vec(Input::new("時々", 3)),
        expect(&[
            (3, "aki"),
            (3, "doki"),
            (3, "ji"),
            (3, "to"),
            (3, "togi"),
            (3, "toki"),
            (3, NOMA_ROMAJI)
        ])
    );
    assert_eq!(
        data.romanize_vec(Input::new("結婚式々場", 9)),
        expect(&[(3, "nori"), (3, "shiki"), (3, NOMA_ROMAJI)])
    );
    // An offset inside a character gives nothing.
    assert_eq!(data.romanize_vec(Input::new("奈々", 2)), expect(&[]));
}

#[test]
fn noma_word() {
    let data = default_romanizer();
    assert_eq!(
        vec_of(&data, "馬鹿々々しい"),
        expect(&[
            (18, "bakabakashii"),
            (3, "ba"),
            (3, "ban"),
            (3, "ma"),
            (3, "me"),
            (3, "mo"),
            (3, "ta"),
            (3, "uma")
        ])
    );
}

#[test]
fn romaji_build_errors() {
    let mut unsorted = kanjis();
    unsorted.swap(0, 1);
    assert!(matches!(
        HepburnRomanizer::new(&kanas(), &unsorted, &words(), true),
        Err(RomajiBuildError::KanjiOrder)
    ));
    let mut twice = kanas();
    twice.push(("あ".to_string(), "a".to_string()));
    assert!(matches!(
        HepburnRomanizer::new(&twice, &kanjis(), &words(), true),
        Err(RomajiBuildError::Automaton)
    ));
    // Without keys no automaton is built, and only kanji are read.
    let r = HepburnRomanizer::new(&Vec::new(), &kanjis(), &Vec::new(), true).unwrap();
    assert_eq!(vec_of(&r, "は"), expect(&[]));
    assert_eq!(vec_of(&r, "界"), expect(&[(3, "kai")]));
}

#[test]
fn starts_with() {
    assert!(starts_with_ignore_hepburn_ime("kotchidayo", "kotchi"));
    assert!(starts_with_ignore_hepburn_ime("kocchidayo", "kotchi"));
    assert!(starts_with_ignore_hepburn_ime("ta", "ta"));
    assert!(starts_with_ignore_hepburn_ime("ca", "ta") == false);
    assert!(starts_with_ignore_hepburn_ime("ca", "t") == false);

    assert!(starts_with_ignore_hepburn_ime("n'isekaijoucho", "n'isekai"));
    assert!(starts_with_ignore_hepburn_ime("nnisekaijoucho", "n'isekai"));
}

#[test]
fn romaji_starts_with() {
    assert!(romaji_starts_with_ignore_hepburn_ime("kotchidayo", "kotchi",));
    assert!(romaji_starts_with_ignore_hepburn_ime("kotchidayo", "kocchi",));
    assert!(romaji_starts_with_ignore_hepburn_ime("ta", "ta"));
    assert!(romaji_starts_with_ignore_hepburn_ime("ta", "ca") == false);
    assert!(romaji_starts_with_ignore_hepburn_ime("t", "ca") == false);

    assert!(romaji_starts_with_ignore_hepburn_ime("n'isekaijoucho", "n'isekai",));
    assert!(romaji_starts_with_ignore_hepburn_ime("n'isekaijoucho", "nnisekai",));
}

#[test]
fn hepburn_ime_table() {
    let map = hepburn_ime_map();
    for (i, alt) in map.iter().enumerate() {
        let expected = match i as u8 {
            b'\'' => b'n',
            b't' => b'c',
            _ => 0,
        };
        assert_eq!(*alt, expected);
    }
    assert!(eq_ignore_hepburn_ime_equisized(b"cchi", b"tchi"));
    assert!(!eq_ignore_hepburn_ime_equisized(b"ccha", b"tchi"));
    assert!(!eq_ignore_hepburn_ime_equisized(b"ca", b"ta"));
}

#[test]
fn hepburn_prefix() {
    let mut romajis: Vec<&str> = KANA_ROMAJIS.split('|').collect();
    romajis.sort();
    romajis.dedup();
    // No romaji but `n` is a prefix of another one.
    for i in 0..romajis.len() {
        for j in (i + 1)..romajis.len() {
            if romajis[i] == "n" {
                continue;
            }
            assert!(
                !romajis[j].starts_with(romajis[i]),
                "Romaji '{}' is a prefix of '{}'",
                romajis[i],
                romajis[j]
            );
        }
    }
}

#[test]
fn is_romaji_n_boundary() {
    let boundary_cases = vec![
        "n", "n'a", "n'e", "n'i", "n'o", "n'u", "nja", "nfu", "n!", "n1", "nba",
    ];
    for case in boundary_cases {
        assert!(
            HepburnRomanizer::is_romaji_n_boundary(case, 0),
            "Failed for boundary case: {case}",
        );
    }

    let non_boundary_cases = vec!["na", "ne", "ni", "no", "nu", "nya", "nyo", "nyu"];
    for case in non_boundary_cases {
        assert!(
            !HepburnRomanizer::is_romaji_n_boundary(case, 0),
            "Failed for non-boundary case: {case}",
        );
    }

    let middle_cases = vec![
        ("kana", 2),
        ("kane", 2),
        ("kani", 2),
        ("kano", 2),
        ("kanu", 2),
        ("kany", 2),
        ("kanya", 1),
        ("kanyo", 1),
        ("kanyu", 1),
    ];

    for (string, index) in middle_cases {
        let s = string.as_bytes();
        if s[index] == b'n' {
            if matches!(s[index + 1], b'a' | b'e' | b'i' | b'o' | b'u' | b'y') {
                assert!(
                    !HepburnRomanizer::is_romaji_n_boundary(string, index),
                    "Failed for middle case: {string} at index {index}"
                );
            } else {
                assert!(
                    HepburnRomanizer::is_romaji_n_boundary(string, index),
                    "Failed for middle case: {string} at index {index}"
                );
            }
        }
    }
}

#[test]
fn is_romaji_kana_boundary() {
    for (s, i, r) in vec![
        // ka nya
        ("kanya", 0, true),
        ("kanya", 1, false),
        ("kanya", 2, true),
        ("kanya", 3, false),
        ("kanya", 4, false),
        // ka n ni
        ("kanni", 3, true),
        ("kanni", 4, false),
        // ka n n i
        ("kann'i", 4, true),
        ("kann'i", 5, true),
        // su ba ra shi i
        ("subarashii", 4, true),
        ("subarashii", 3, false),
        // `x` starts no kana
        ("kaxa", 2, false),
        ("kaxa", 3, false),
        ("ka-ra", 2, true),
        ("ka", 2, false),
    ] {
        assert_eq!(
            HepburnRomanizer::is_romaji_kana_boundary(s.as_bytes(), i),
            r,
            "{s}, {i}"
        );
    }
    assert!(HepburnRomanizer::need_apostrophe("kan", "i"));
    assert!(HepburnRomanizer::need_apostrophe("n", "yuki"));
    assert!(!HepburnRomanizer::need_apostrophe("ka", "i"));
    assert!(!HepburnRomanizer::need_apostrophe("n", "ni"));
    assert!(!HepburnRomanizer::need_apostrophe("", "i"));
    assert!(HepburnRomanizer::need_apostrophe_c('n', "a"));
    assert!(!HepburnRomanizer::need_apostrophe_c('n', ""));
}

#[test]
fn romaji() {
    let romanizer = default_romanizer();
    let romaji = RomajiMatchConfig::new(&romanizer);

    let matcher = IbMatcher::builder("ohayo").romaji(romaji.clone()).build();
    assert_match(matcher.find("おはよう"), Some((0, 9)));

    let matcher = IbMatcher::builder("jojo").romaji(romaji.clone()).build();
    assert_match(matcher.find("おはよジョジョ"), Some((9, 12)));

    let matcher = IbMatcher::builder("konosubarashiisekaini")
        .romaji(romaji.clone())
        .build();
    assert_match(matcher.find("この素晴らしい世界に祝福を"), Some((0, 30)));
}

#[test]
fn partial() {
    let romanizer = default_romanizer();

    let matcher = IbMatcher::builder("konosuba")
        .romaji(RomajiMatchConfig::new(&romanizer).partial_word(false))
        .build();
    assert_match(matcher.find("この素晴らしい世界に祝福を"), None);

    let romaji = RomajiMatchConfig::new(&romanizer);

    let matcher = IbMatcher::builder("konosuba")
        .romaji(romaji.shallow_clone())
        .build();
    assert_partial(matcher.find("この素晴らしい世界に祝福を"), (0, 21));
    let matcher = IbMatcher::builder("konosub")
        .romaji(romaji.shallow_clone())
        .build();
    assert_match(matcher.find("この素晴らしい世界に祝福を"), None);

    let matcher = IbMatcher::builder("konosuba")
        .romaji(romaji.shallow_clone())
        .is_pattern_partial(true)
        .build();
    assert_partial(matcher.find("この素晴らしい世界に祝福を"), (0, 21));
    let matcher = IbMatcher::builder("konosub")
        .romaji(romaji.shallow_clone())
        .is_pattern_partial(true)
        .build();
    assert_partial(matcher.find("この素晴らしい世界に祝福を"), (0, 21));
}

#[test]
fn n_apostrophe() {
    let romanizer = default_romanizer();
    let config = MatchConfig::new()
        .romaji(RomajiMatchConfig::new(&romanizer))
        .starts_with(true);
    let m = IbMatcher::with_config(Pattern::new("kan"), config.shallow_clone());
    assert_match(m.find("かん"), Some((0, 6)));
    assert_match(m.find("かに"), None);

    let m = IbMatcher::with_config(Pattern::new("kann"), config.shallow_clone());
    assert_match(m.find("かんん"), Some((0, 9)));
    assert_match(m.find("かんに"), None);

    let m = IbMatcher::with_config(Pattern::new("kann'"), config.shallow_clone());
    // ' suffix is neither supported nor needed
    assert_match(m.find("かんん"), None);
    assert_match(m.find("かんに"), None);

    let m = IbMatcher::with_config(Pattern::new("kanni"), config.shallow_clone());
    // Unfortunately, in IME using "nn", this will be かんい
    assert_match(m.find("かんに"), Some((0, 9)));
    assert_match(m.find("かんんい"), None);

    let m = IbMatcher::with_config(Pattern::new("kann'i"), config.shallow_clone());
    assert_match(m.find("かんに"), None);
    assert_match(m.find("かんんい"), Some((0, 12)));

    let m = IbMatcher::with_config(Pattern::new("botan'yuki"), config.shallow_clone());
    assert_match(m.find("ボタン雪"), Some((0, 12)));
}

#[test]
fn n_apostrophe_partial() {
    let romanizer = default_romanizer();
    let config = MatchConfig::new()
        .romaji(RomajiMatchConfig::new(&romanizer))
        .starts_with(true)
        .is_pattern_partial(true);
    let m = IbMatcher::with_config(Pattern::new("kan"), config.shallow_clone());
    assert_match(m.find("かん"), Some((0, 6)));
    assert_partial(m.find("かに"), (0, 6));

    let m = IbMatcher::with_config(Pattern::new("kann"), config.shallow_clone());
    assert_match(m.find("かんん"), Some((0, 9)));
    assert_partial(m.find("かんに"), (0, 9));

    let m = IbMatcher::with_config(Pattern::new("kann'"), config.shallow_clone());
    assert_match(m.find("かんん"), None);
    assert_match(m.find("かんに"), None);

    let m = IbMatcher::with_config(Pattern::new("kanni"), config.shallow_clone());
    assert_match(m.find("かんに"), Some((0, 9)));
    assert_match(m.find("かんんい"), None);

    let m = IbMatcher::with_config(Pattern::new("kann'i"), config.shallow_clone());
    assert_match(m.find("かんに"), None);
    assert_match(m.find("かんんい"), Some((0, 12)));
}

#[test]
fn kanji_noma() {
    let romanizer = default_romanizer();
    let config = MatchConfig::new()
        .romaji(RomajiMatchConfig::new(&romanizer))
        .starts_with(true);

    let m = IbMatcher::with_config(Pattern::new("mizukina"), config.shallow_clone());
    assert_match(m.find("水樹奈々"), Some((0, 9)));
    let m = IbMatcher::with_config(Pattern::new("mizukinana"), config.shallow_clone());
    assert_match(m.find("水樹奈々"), Some((0, 12)));
}

#[test]
fn convert_hepburn_ime() {
    let romanizer = default_romanizer();
    let c = MatchConfig::new().romaji(RomajiMatchConfig::new(&romanizer));
    assert_match(c.matcher("nisekainyonyo").find("キャンヰ世界ニョニョ"), None);
    assert_match(
        c.matcher("n'isekainyonyo").find("キャンヰ世界ニョニョ"),
        Some((6, 24)),
    );
    assert_match(
        c.matcher("nnisekainyonyo").find("キャンヰ世界ﾆｮﾆｮ"),
        Some((6, 24)),
    );

    assert_match(c.matcher("shuuseipatchi").find("修正パッチ"), Some((0, 15)));
    assert_match(c.matcher("shuuseipacchi").find("集成パッチ"), Some((0, 15)));
    assert_match(c.matcher("shuuseipacchi").find("終生パッチ"), Some((0, 15)));
}

#[test]
fn min_haystack_len() {
    let romanizer = default_romanizer();
    let romaji = RomajiMatchConfig::new(&romanizer);

    let matcher = IbMatcher::builder("kusanomuragari")
        .romaji(romaji.clone())
        .build();
    assert_match(matcher.test("丵"), Some((0, 3)));

    let matcher = IbMatcher::builder("suraritoshitemimeyoi")
        .romaji(romaji.clone())
        .build();
    assert_match(matcher.test("娍"), Some((0, 3)));

    let matcher =
        IbMatcher::builder("shintaihappukorewofuboniukuaetekishousezaruhakounohajimenari")
            .romaji(romaji.clone())
            .build();
    assert_match(
        matcher.test("身体髪膚これを父母に受くあえて毀傷せざるは孝の始めなり"),
        Some((0, 81)),
    );
}

#[test]
fn cache_header_round_trip() {
    let romanizer = default_romanizer();
    let bytes = romanizer.serialize_to_vec();
    assert_eq!(&bytes[..8], b"IBROMAJI");
    assert_eq!(bytes[8], 1);
    assert_eq!(bytes[9], 1);
    assert!(bytes.len() > 10);
    let header = read_cache_header(&bytes).unwrap();
    assert!(header.kanji);
    assert_eq!(header.payload, 10);
    assert_eq!(usable_cache(&bytes, true), Some(10));
    assert_eq!(usable_cache(&bytes, false), None);

    let plain = write_cache(false, b"xyz");
    assert_eq!(plain, b"IBROMAJI\x01\x00xyz");
    assert_eq!(usable_cache(&plain, false), Some(10));
    assert!(read_cache_header(b"IBROMAJI\x02\x00xyz").is_none());
    assert!(read_cache_header(b"IBROMAJX\x01\x00xyz").is_none());
    assert!(read_cache_header(b"IBROMAJI\x01").is_none());
    assert!(read_cache_header(b"IBROMAJI\x01\x00").is_some());
}

#[test]
fn try_for_each_stops_at_the_first_answer() {
    let data = default_romanizer();
    let all = data.romanize_vec(Input::new("時々", 3));
    assert!(all.len() >= 3);

    // Every candidate is offered, in the order of `romanize_vec`.
    let seen = std::cell::RefCell::new(Vec::new());
    let r = data.romanize_and_try_for_each(Input::new("時々", 3), |len, romaji| {
        seen.borrow_mut().push((len, romaji.to_string()));
        None::<()>
    });
    assert_eq!(r, None);
    assert_eq!(*seen.borrow(), all);

    // The first answer ends it.
    let seen = std::cell::RefCell::new(0usize);
    let r = data.romanize_and_try_for_each(Input::new("時々", 3), |len, romaji| {
        *seen.borrow_mut() += 1;
        if romaji == all[1].1 {
            Some(len)
        } else {
            None
        }
    });
    assert_eq!(r, Some(all[1].0));
    assert_eq!(*seen.borrow(), 2);

    // Nothing to offer.
    let r = data.romanize_and_try_for_each(Input::new("abc", 0), |len, _| Some(len));
    assert_eq!(r, None);
}

#[test]
fn a_romaniser_over_an_automaton_built_before() {
    let keys: Vec<String> =
        kanas().iter().map(|k| k.0.clone()).chain(words().iter().map(|w| w.0.clone())).collect();
    let automaton = daachorse::CharwiseDoubleArrayAhoCorasickBuilder::new()
        .match_kind(daachorse::MatchKind::LeftmostLongest)
        .build(&keys)
        .unwrap();
    let built = HepburnRomanizer::new(&kanas(), &kanjis(), &words(), true).unwrap();
    let adopted =
        HepburnRomanizer::with_automaton(automaton, &kanas(), &kanjis(), &words(), true).unwrap();
    for text in ["日本語", "あいう", "時々", "abc", ""] {
        assert_eq!(
            adopted.romanize_vec(Input::new(text, 0)),
            built.romanize_vec(Input::new(text, 0)),
            "{text}"
        );
    }
    assert_eq!(adopted.serialize_to_vec(), built.serialize_to_vec());
}

#[test]
fn an_input_from_a_string_starts_at_its_start() {
    let input = Input::from("時々x");
    assert_eq!((input.haystack(), input.start()), ("時々x", 0));
    assert_eq!(input.as_ref(), "時々x");
    assert!(!input.is_empty());
    let input = Input::new("時々x", 3);
    assert_eq!(input.as_ref(), "々x");
    let input = Input::new("時々x", 7);
    assert_eq!(input.as_ref(), "");
    assert!(input.is_empty());
    assert!(Input::from("").is_empty());
}
