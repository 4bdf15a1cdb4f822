use ib_matcher::matcher::pattern::Pattern;
use ib_matcher::matcher::{IbMatcher, MatchConfig, PinyinMatchConfig, RomajiMatchConfig};
use ib_matcher::pinyin::{PinyinData, PinyinNotation};
use ib_matcher::regex::backtrack::{BacktrackConfig, BoundedBacktracker, Cache, Input, MatchError};
use ib_matcher::regex::cp::{Builder, Regex, SyntaxConfig};
use ib_matcher::regex::lita;
use ib_matcher::regex::prefilter::PrefilterIb;
use ib_matcher::regex::nfa::{BuildError, NfaParts, PatternSyntax, State, Transition, NFA};
use ib_matcher::regex::Match;
use ib_matcher::romaji::HepburnRomanizer;
use ib_matcher::syntax::glob::{
    parse_glob_path_on, parse_wildcard_path, parse_wildcard_path_on, GlobExtConfig, GlobStar,
    PathSeparator,
};
use ib_matcher::syntax::regex::case::{hir_to_ascii_case_insensitive, literal_to_ascii_case_insensitive};
use ib_matcher::syntax::regex::fold::{fold_literal, fold_literal_utf8};
use ib_matcher::syntax::regex::guard::guard_placeholders;
use ib_matcher::syntax::regex::hir::{Capture, Class, Hir, Look, Repetition};
use ib_matcher::syntax::regex::literal::first_byte_of;
use regex_automata::nfa::thompson;
use regex_syntax::hir as rs;

// The expression tree of the parser as the library's tree, and back.

fn look_in(look: rs::Look) -> Look {
    match look {
        rs::Look::Start => Look::Start,
        rs::Look::End => Look::End,
        rs::Look::StartLF => Look::StartLF,
        rs::Look::EndLF => Look::EndLF,
        rs::Look::StartCRLF => Look::StartCRLF,
        rs::Look::EndCRLF => Look::EndCRLF,
        rs::Look::WordAscii => Look::WordAscii,
        rs::Look::WordAsciiNegate => Look::WordAsciiNegate,
        rs::Look::WordUnicode => Look::WordUnicode,
        rs::Look::WordUnicodeNegate => Look::WordUnicodeNegate,
        rs::Look::WordStartAscii => Look::WordStartAscii,
        rs::Look::WordEndAscii => Look::WordEndAscii,
        rs::Look::WordStartUnicode => Look::WordStartUnicode,
        rs::Look::WordEndUnicode => Look::WordEndUnicode,
        rs::Look::WordStartHalfAscii => Look::WordStartHalfAscii,
        rs::Look::WordEndHalfAscii => Look::WordEndHalfAscii,
        rs::Look::WordStartHalfUnicode => Look::WordStartHalfUnicode,
        rs::Look::WordEndHalfUnicode => Look::WordEndHalfUnicode,
    }
}

fn look_out(look: Look) -> rs::Look {
    match look {
        Look::Start => rs::Look::Start,
        Look::End => rs::Look::End,
        Look::StartLF => rs::Look::StartLF,
        Look::EndLF => rs::Look::EndLF,
        Look::StartCRLF => rs::Look::StartCRLF,
        Look::EndCRLF => rs::Look::EndCRLF,
        Look::WordAscii => rs::Look::WordAscii,
        Look::WordAsciiNegate => rs::Look::WordAsciiNegate,
        Look::WordUnicode => rs::Look::WordUnicode,
        Look::WordUnicodeNegate => rs::Look::WordUnicodeNegate,
        Look::WordStartAscii => rs::Look::WordStartAscii,
        Look::WordEndAscii => rs::Look::WordEndAscii,
        Look::WordStartUnicode => rs::Look::WordStartUnicode,
        Look::WordEndUnicode => rs::Look::WordEndUnicode,
        Look::WordStartHalfAscii => rs::Look::WordStartHalfAscii,
        Look::WordEndHalfAscii => rs::Look::WordEndHalfAscii,
        Look::WordStartHalfUnicode => rs::Look::WordStartHalfUnicode,
        Look::WordEndHalfUnicode => rs::Look::WordEndHalfUnicode,
    }
}

fn hir_in(h: &rs::Hir) -> Hir {
    match h.kind() {
        rs::HirKind::Empty => Hir::Empty,
        rs::HirKind::Literal(l) => Hir::Literal(l.0.to_vec()),
        rs::HirKind::Class(rs::Class::Unicode(c)) => Hir::Class(Class::Unicode(
            c.ranges().iter().map(|r| (r.start(), r.end())).collect(),
        )),
        rs::HirKind::Class(rs::Class::Bytes(c)) => Hir::Class(Class::Bytes(
            c.ranges().iter().map(|r| (r.start(), r.end())).collect(),
        )),
        rs::HirKind::Look(l) => Hir::Look(look_in(*l)),
        rs::HirKind::Repetition(r) => Hir::Repetition(Repetition {
            min: r.min,
            max: r.max,
            greedy: r.greedy,
            sub: Box::new(hir_in(&r.sub)),
        }),
        rs::HirKind::Capture(c) => Hir::Capture(Capture {
            index: c.index,
            name: c.name.as_ref().map(|n| n.to_string()),
            sub: Box::new(hir_in(&c.sub)),
        }),
        rs::HirKind::Concat(subs) => Hir::Concat(subs.iter().map(hir_in).collect()),
        rs::HirKind::Alternation(subs) => Hir::Alternation(subs.iter().map(hir_in).collect()),
    }
}

fn hir_out(h: &Hir) -> rs::Hir {
    match h {
        Hir::Empty => rs::Hir::empty(),
        Hir::Literal(b) => rs::Hir::literal(b.clone()),
        Hir::Class(Class::Unicode(ranges)) => rs::Hir::class(rs::Class::Unicode(
            rs::ClassUnicode::new(ranges.iter().map(|(a, b)| rs::ClassUnicodeRange::new(*a, *b))),
        )),
        Hir::Class(Class::Bytes(ranges)) => rs::Hir::class(rs::Class::Bytes(rs::ClassBytes::new(
            ranges.iter().map(|(a, b)| rs::ClassBytesRange::new(*a, *b)),
        ))),
        Hir::Look(l) => rs::Hir::look(look_out(*l)),
        Hir::Repetition(r) => rs::Hir::repetition(rs::Repetition {
            min: r.min,
            max: r.max,
            greedy: r.greedy,
            sub: Box::new(hir_out(&r.sub)),
        }),
        Hir::Capture(c) => rs::Hir::capture(rs::Capture {
            index: c.index,
            name: c.name.as_ref().map(|n| n.clone().into_boxed_str()),
            sub: Box::new(hir_out(&c.sub)),
        }),
        Hir::Concat(subs) => rs::Hir::concat(subs.iter().map(hir_out).collect()),
        Hir::Alternation(subs) => rs::Hir::alternation(subs.iter().map(hir_out).collect()),
    }
}

// The automaton of the compiler as the library's parts.

fn state_in(s: &thompson::State) -> State<'static> {
    let t = |t: &thompson::Transition| Transition {
        start: t.start,
        end: t.end,
        next: t.next.as_usize(),
    };
    match s {
        thompson::State::ByteRange { trans } => State::ByteRange { trans: t(trans) },
        thompson::State::Sparse(sparse) => State::Sparse {
            transitions: sparse.transitions.iter().map(t).collect(),
        },
        thompson::State::Dense(dense) => State::Dense {
            transitions: dense.transitions.iter().map(|s| s.as_usize()).collect(),
        },
        thompson::State::Look { look, next } => State::Look {
            look: look_in(rs::Look::from_repr(look.as_repr()).unwrap()),
            next: next.as_usize(),
        },
        thompson::State::Union { alternates } => State::Union {
            alternates: alternates.iter().map(|s| s.as_usize()).collect(),
        },
        thompson::State::BinaryUnion { alt1, alt2 } => State::BinaryUnion {
            alt1: alt1.as_usize(),
            alt2: alt2.as_usize(),
        },
        thompson::State::Capture { next, pattern_id, group_index, slot } => State::Capture {
            next: next.as_usize(),
            pattern_id: pattern_id.as_usize(),
            group_index: group_index.as_usize(),
            slot: slot.as_usize(),
        },
        thompson::State::Fail => State::Fail,
        thompson::State::Match { pattern_id } => State::Match { pattern_id: pattern_id.as_usize() },
    }
}

fn parts_of<'a>(nfa: &thompson::NFA) -> NfaParts<'a> {
    NfaParts {
        states: nfa.states().iter().map(state_in).collect(),
        start_anchored: nfa.start_anchored().as_usize(),
        start_unanchored: nfa.start_unanchored().as_usize(),
        slot_len: nfa.group_info().slot_len(),
        utf8: nfa.is_utf8(),
        line_terminator: nfa.look_matcher().get_line_terminator(),
    }
}

fn syntax_out(s: SyntaxConfig) -> regex_automata::util::syntax::Config {
    regex_automata::util::syntax::Config::new()
        .case_insensitive(s.case_insensitive)
        .multi_line(s.multi_line)
        .dot_matches_new_line(s.dot_matches_new_line)
        .crlf(s.crlf)
        .swap_greed(s.swap_greed)
        .ignore_whitespace(s.ignore_whitespace)
        .unicode(s.unicode)
        .utf8(s.utf8)
        .octal(s.octal)
        .line_terminator(s.line_terminator)
        .nest_limit(s.nest_limit)
}

/// Folds the literals of `hir`, compiles the folded expression and hands
/// back the parts of the automaton with the literals.
fn fold_and_compile<'a>(hir: rs::Hir, config: thompson::Config) -> (NfaParts<'a>, Vec<String>) {
    let (hirs, literals) = fold_literal_utf8(vec![hir_in(&hir)]);
    // Each placeholder keeps a state of its own: the parser would turn an
    // alternation of placeholders into a class.
    let folded: Vec<rs::Hir> =
        hirs.into_iter().map(guard_placeholders).map(|h| hir_out(&h)).collect();
    let nfa = thompson::Compiler::new()
        .configure(config)
        .build_many_from_hir(&folded)
        .unwrap();
    (parts_of(&nfa), literals)
}

fn build_cp<'a>(builder: Builder<'a>, pattern: &str) -> Result<Regex<'a>, BuildError> {
    let hir = regex_automata::util::syntax::parse_with(pattern, &syntax_out(builder.syntax)).unwrap();
    build_cp_from_hir(builder, hir, thompson::Config::new())
}

fn build_cp_from_hir<'a>(
    builder: Builder<'a>,
    hir: rs::Hir,
    config: thompson::Config,
) -> Result<Regex<'a>, BuildError> {
    let (parts, literals) = fold_and_compile(hir, config);
    builder.build_from_nfa(parts, &literals)
}

fn build_lita<'a>(builder: lita::Builder<'a>, pattern: &str) -> lita::Regex<'a> {
    let hir = regex_automata::util::syntax::parse_with(pattern, &syntax_out(builder.syntax)).unwrap();
    build_lita_from_hir(builder, hir_in(&hir), thompson::Config::new())
}

fn build_lita_from_hir<'a>(
    builder: lita::Builder<'a>,
    hir: Hir,
    config: thompson::Config,
) -> lita::Regex<'a> {
    // The parser merges what the library's tree keeps apart.
    let hir = hir_in(&hir_out(&hir));
    let (parts, literals) = fold_and_compile(hir_out(&hir), config);
    lita::Regex::from_hir(&hir, parts, &literals, builder.ib, builder.ib_parser, builder.backtrack)
        .unwrap()
}

fn parse_and_fold_literal_utf8(pattern: &str) -> (rs::Hir, Vec<String>) {
    let (mut hirs, literals) = fold_literal_utf8(vec![hir_in(&regex_syntax::parse(pattern).unwrap())]);
    (hir_out(&hirs.pop().unwrap()), literals)
}

fn must(start: usize, end: usize) -> Option<Match> {
    Some(Match { pattern: 0, start, end })
}

fn pinyin_data() -> PinyinData {
    let mut data =
        PinyinData::new(PinyinNotation::ascii().union(PinyinNotation::ascii_first_letter()));
    for (c, ascii, tone) in [
        ('拼', "pin", 1),
        ('音', "yin", 1),
        ('搜', "sou", 1),
        ('索', "suo", 3),
        ('葬', "zang", 4),
        ('送', "song", 4),
        ('学', "xue", 2),
        ('习', "xi", 2),
        ('资', "zi", 1),
        ('料', "liao", 4),
        ('时', "shi", 2),
        ('间', "jian", 1),
        ('月', "yue", 4),
        ('合', "he", 2),
        ('集', "ji", 2),
        ('文', "wen", 2),
        ('档', "dang", 4),
        ('瑠', "liu", 2),
        ('璃', "li", 2),
        ('宝', "bao", 3),
        ('石', "shi", 2),
    ] {
        assert!(data.add_reading(c, ascii, tone));
    }
    data
}

fn romanizer() -> HepburnRomanizer {
    let kanas: Vec<(String, String)> = [
        ("ら", "ra"),
        ("き", "ki"),
        ("す", "su"),
        ("た", "ta"),
        ("の", "no"),
        ("フ", "fu"),
        ("リ", "ri"),
        ("ー", "-"),
        ("レ", "re"),
        ("ン", "n"),
    ]
    .into_iter()
    .map(|(k, r)| (k.to_string(), r.to_string()))
    .collect();
    let kanjis: Vec<(char, Vec<String>)> = vec![
        ('葬', vec!["sou".to_string()]),
        ('送', vec!["sou".to_string(), "oku".to_string()]),
    ];
    let words: Vec<(String, Vec<String>)> = vec![("葬送".to_string(), vec!["sousou".to_string()])];
    HepburnRomanizer::new(&kanas, &kanjis, &words, true).unwrap()
}

fn notations() -> PinyinNotation {
    PinyinNotation::ascii().union(PinyinNotation::ascii_first_letter())
}

fn find_cp(re: &Regex, hay: &str) -> Option<Match> {
    assert!(re.can_search(hay));
    re.find(hay)
}

fn find_lita(re: &lita::Regex, hay: &str) -> Option<Match> {
    assert!(re.can_search(hay));
    re.find(hay)
}

fn is_match_lita(re: &lita::Regex, hay: &str) -> bool {
    assert!(re.can_search(hay));
    re.is_match(hay)
}

#[test]
fn lib_regex() {
    let data = pinyin_data();
    let romanizer = romanizer();
    let config = MatchConfig::new()
        .pinyin(PinyinMatchConfig::notations(&data, notations()))
        .romaji(RomajiMatchConfig::new(&romanizer));

    let re = build_cp(Builder::new().ib(config.shallow_clone()), "raki.suta").unwrap();
    assert_eq!(find_cp(&re, "「らき☆すた」"), must(3, 18));

    let re = build_cp(
        Builder::new().ib(config.shallow_clone()),
        "pysou.*?(any|every)thing",
    )
    .unwrap();
    assert_eq!(find_cp(&re, "拼音搜索Everything"), must(0, 22));

    let config = MatchConfig::new()
        .pinyin(PinyinMatchConfig::notations(&data, notations()))
        .romaji(RomajiMatchConfig::new(&romanizer))
        .mix_lang(true);
    let re = build_cp(
        Builder::new().ib(config.shallow_clone()),
        "(?x)^zangsounofuri-?ren # Mixing pinyin and romaji",
    )
    .unwrap();
    assert_eq!(find_cp(&re, "葬送のフリーレン"), must(0, 24));
}

#[test]
fn regex_literal() {
    let data = pinyin_data();
    let re = build_cp(
        Builder::new().ib(MatchConfig::new().pinyin(PinyinMatchConfig::notations(&data, notations()))),
        "pyss",
    )
    .unwrap();

    let mut cache = re.create_cache();
    assert_eq!(re.try_find(&mut cache, &Input::new("pyss")).unwrap(), must(0, 4));
    assert_eq!(re.try_find(&mut cache, &Input::new("apyss")).unwrap(), must(1, 5));
    assert_eq!(re.try_find(&mut cache, &Input::new("拼音搜索")).unwrap(), must(0, 12));

    assert_eq!(find_cp(&re, "pyss"), must(0, 4));

    let lita = build_lita(
        lita::Builder::new()
            .ib(MatchConfig::new().pinyin(PinyinMatchConfig::notations(&data, notations()))),
        "pyss",
    );
    assert!(matches!(lita.imp, lita::RegexI::Ib(_)));
    assert_eq!(find_lita(&lita, "pyss"), must(0, 4));
    assert_eq!(find_lita(&lita, "apyss"), must(1, 5));
    assert_eq!(find_lita(&lita, "拼音搜索"), must(0, 12));
}

#[test]
fn regex_case() {
    let re = build_cp(
        Builder::new().syntax(SyntaxConfig::new().case_insensitive(true)),
        r"δ",
    )
    .unwrap();
    assert_eq!(must(0, 2), find_cp(&re, r"Δ"));

    let re = build_lita(
        lita::Builder::new().syntax(SyntaxConfig::new().case_insensitive(true)),
        r"δ",
    );
    assert_eq!(must(0, 2), find_lita(&re, r"Δ"));

    let re = build_cp(Builder::new().ib(MatchConfig::new()), "foo").unwrap();
    assert!(find_cp(&re, "FOO").is_some());
    let re = build_cp(Builder::new(), "foo").unwrap();
    assert!(find_cp(&re, "FOO").is_none());
}

#[test]
fn regex_alt() {
    let data = pinyin_data();
    let pinyin = PinyinMatchConfig::notations(&data, notations());

    let re = build_cp(Builder::new(), "samwise|sam").unwrap();
    assert_eq!(must(0, 3), find_cp(&re, "sam"));
    assert_eq!(must(0, 7), find_cp(&re, "samwise"));

    let re = build_cp(
        Builder::new().ib(MatchConfig::new().pinyin(pinyin.shallow_clone())),
        "samwise|pyss",
    )
    .unwrap();
    assert_eq!(must(0, 12), find_cp(&re, "拼音搜索"));

    let re = build_lita(
        lita::Builder::new().ib(MatchConfig::new().pinyin(pinyin.shallow_clone())),
        "samwise|pyss",
    );
    assert!(matches!(re.imp, lita::RegexI::Cp(_)));
    assert_eq!(must(0, 12), find_lita(&re, "拼音搜索"));
}

#[test]
fn regex_wildcard() {
    let data = pinyin_data();
    let romanizer = romanizer();
    let re = build_cp(
        Builder::new().ib(
            MatchConfig::new()
                .pinyin(PinyinMatchConfig::notations(&data, notations()))
                .romaji(RomajiMatchConfig::new(&romanizer)),
        ),
        "raki.suta",
    )
    .unwrap();

    assert_eq!(re.re.max_haystack_len(), 0x1111111111111110);
    let mut cache = re.create_cache();
    assert_eq!(cache.memory_usage(), 0);
    assert_eq!(
        re.try_find(&mut cache, &Input::new("￥らき☆すた")).unwrap(),
        must(3, 18),
    );
    // 2 * 16 + (alignup(15 * (18+1) / 8, 8) = 40)
    assert_eq!(cache.memory_usage(), 72);

    let re = build_cp(
        Builder::new().ib(MatchConfig::new().pinyin(PinyinMatchConfig::notations(&data, notations()))),
        "p.*y.*s.*s",
    )
    .unwrap();
    let mut cache = re.create_cache();
    assert_eq!(
        re.try_find(&mut cache, &Input::new("拼a音b搜c索d")).unwrap(),
        must(0, 15),
    );
}

#[test]
fn regex_mix_lang() {
    let data = pinyin_data();
    let rz = romanizer();
    let pinyin = PinyinMatchConfig::notations(&data, notations());
    let romaji = RomajiMatchConfig::new(&rz);

    let re = build_cp(
        Builder::new().ib(
            MatchConfig::new()
                .pinyin(pinyin.shallow_clone())
                .romaji(romaji.shallow_clone()),
        ),
        "pysousuosousounofuri-ren",
    )
    .unwrap();
    let mut cache = re.create_cache();
    assert_eq!(
        re.try_find(&mut cache, &Input::new("拼音搜索葬送のフリーレン")).unwrap(),
        None
    );

    let re = build_cp(
        Builder::new().ib(
            MatchConfig::new()
                .pinyin(pinyin.shallow_clone())
                .romaji(romaji.shallow_clone())
                .mix_lang(true),
        ),
        "pysousuosousounofuri-ren",
    )
    .unwrap();
    assert_eq!(find_cp(&re, "拼音搜索葬送のフリーレン"), must(0, 36));

    let re = build_cp(
        Builder::new().ib(
            MatchConfig::new()
                .pinyin(pinyin.shallow_clone())
                .romaji(romaji.shallow_clone()),
        ),
        "(pysousuo)(sousounofuri-ren)",
    )
    .unwrap();
    let mut cache = re.create_cache();
    assert_eq!(
        re.try_find(&mut cache, &Input::new("拼音搜索葬送のフリーレン")).unwrap(),
        must(0, 36),
    );

    let re = build_cp(
        Builder::new().ib(
            MatchConfig::new()
                .pinyin(pinyin.shallow_clone())
                .romaji(romaji.shallow_clone()),
        ),
        "pysousuo.*?sousounofuri-ren",
    )
    .unwrap();
    let mut cache = re.create_cache();
    assert_eq!(
        re.try_find(&mut cache, &Input::new("拼音搜索⭐葬送のフリーレン")).unwrap(),
        must(0, 39),
    );
}

#[test]
fn empty() {
    let data = pinyin_data();
    let re = build_lita(
        lita::Builder::new()
            .ib(MatchConfig::new().pinyin(PinyinMatchConfig::notations(&data, notations()))),
        "",
    );
    assert_eq!(find_lita(&re, "pyss"), must(0, 0));
    assert_eq!(find_lita(&re, "apyss"), must(0, 0));
    assert_eq!(find_lita(&re, "拼音搜索"), must(0, 0));

    let re = build_lita_from_hir(
        lita::Builder::new().ib(
            MatchConfig::new()
                .pinyin(PinyinMatchConfig::notations(&data, notations()))
                .is_pattern_partial(true)
                .analyze(true),
        ),
        parse_wildcard_path_on("", None, PathSeparator::Windows, true, GlobExtConfig::new(), PathSeparator::Unix),
        thompson::Config::new(),
    );
    assert_eq!(find_lita(&re, "pyss"), must(0, 0));
    assert_eq!(find_lita(&re, "apyss"), must(0, 0));
    assert_eq!(find_lita(&re, "拼音搜索"), must(0, 0));
}

#[test]
fn patch_first_byte() {
    let data = pinyin_data();
    let compiled = thompson::NFA::new("pyss").unwrap();
    let mut nfa = NFA::new(parts_of(&compiled)).unwrap();

    let rejected = nfa.patch_first_byte_to_matcher(
        b'p',
        IbMatcher::builder("p")
            .pinyin(PinyinMatchConfig::notations(&data, notations()))
            .build(),
    );
    assert!(rejected.is_none());
    assert!(matches!(nfa.states().iter().filter(|s| matches!(s, State::IbMatcher { .. })).count(), 1));

    let re = BoundedBacktracker::new(nfa, BacktrackConfig::new());
    let mut cache = Cache::new();
    assert_eq!(re.try_find(&mut cache, &Input::new("拼yss")).unwrap(), must(0, 6));
}

#[test]
fn patch_first_byte_without_the_byte() {
    let compiled = thompson::NFA::new("pyss").unwrap();
    let mut nfa = NFA::new(parts_of(&compiled)).unwrap();
    assert!(nfa.patch_first_byte_to_matcher(b'x', IbMatcher::builder("x").build()).is_some());
    assert_eq!(nfa.count_bytes(128), 4);
    // The range of all bytes in front of an unanchored pattern is no
    // placeholder, whatever the limit.
    assert_eq!(nfa.count_bytes(256), 4);
    assert_eq!(nfa.count_bytes(b's' as usize), 1);
    assert_eq!(nfa.count_bytes(0), 0);

    // Only a state on one single byte counts: no range of several bytes,
    // and no state on ascending ranges.
    let mut parts = parts_of(&compiled);
    let n = parts.states.len();
    parts.states.push(State::ByteRange { trans: Transition { start: 1, end: 3, next: 0 } });
    parts.states.push(State::ByteRange { trans: Transition { start: 2, end: 2, next: 0 } });
    parts.states.push(State::Sparse {
        transitions: vec![
            Transition { start: 0, end: 0, next: 0 },
            Transition { start: 5, end: 6, next: 1 },
        ],
    });
    parts.states.push(State::Sparse {
        transitions: vec![
            Transition { start: 0, end: 0, next: 0 },
            Transition { start: b'a', end: b'a', next: 1 },
        ],
    });
    let mut nfa = NFA::new(parts).unwrap();
    assert_eq!(nfa.states().len(), n + 4);
    assert_eq!(nfa.count_bytes(7), 1);
    assert_eq!(nfa.count_bytes(2), 0);

    // Patching leaves them alone, and the number of states as it is.
    let literals: Vec<String> = ["a", "b", "c"].iter().map(|s| s.to_string()).collect();
    assert_eq!(
        nfa.patch_bytes_to_matchers(&literals, 3, MatchConfig::new(), PatternSyntax::Plain),
        Err(BuildError::PlaceholderCount { expected: 3, found: 1 })
    );
    assert_eq!(nfa.count_bytes(3), 1);
    nfa.patch_bytes_to_matchers(&literals, 1, MatchConfig::new(), PatternSyntax::Plain).unwrap();
    assert_eq!(nfa.states().len(), n + 4);
    assert_eq!(nfa.count_bytes(3), 0);
    assert!(matches!(
        nfa.states()[n],
        State::ByteRange { trans: Transition { start: 1, end: 3, next: 0 } }
    ));
    assert!(matches!(nfa.states()[n + 1], State::IbMatcher { next: 0, .. }));
    assert!(matches!(nfa.states()[n + 2], State::Sparse { .. }));
    assert!(matches!(nfa.states()[n + 3], State::Sparse { .. }));
}

#[test]
fn a_class_of_low_bytes_is_left_alone() {
    // Two literals and a class of the pattern's own on the bytes 0 and 1.
    let re = build_cp(Builder::new(), r"ab[\x00-\x01]cd").unwrap();
    assert_eq!(find_cp(&re, "xab\u{1}cd"), must(1, 6));
    assert_eq!(find_cp(&re, "xab\u{0}cd"), must(1, 6));
    assert_eq!(find_cp(&re, "xabcd"), None);
    // An alternation of literals keeps a placeholder for each, also behind
    // what the branches have in common.
    let re = build_cp(Builder::new(), "x+ab|x+cd|x+ef").unwrap();
    assert_eq!(find_cp(&re, "xxcd"), must(0, 4));
    assert_eq!(find_cp(&re, "xxef"), must(0, 4));
    assert_eq!(find_cp(&re, "xx\u{1}"), None);
}

#[test]
fn patch_bytes() {
    let data = pinyin_data();
    let (parts, literals) = fold_and_compile(regex_syntax::parse("pyss").unwrap(), thompson::Config::new());
    let mut nfa = NFA::new(parts).unwrap();
    nfa.patch_bytes_to_matchers(
        &literals,
        literals.len(),
        MatchConfig::new().pinyin(PinyinMatchConfig::notations(&data, notations())),
        PatternSyntax::Plain,
    )
    .unwrap();
    let re = BoundedBacktracker::new(nfa, BacktrackConfig::new());
    let mut cache = Cache::new();
    assert_eq!(re.try_find(&mut cache, &Input::new("拼音搜索")).unwrap(), must(0, 12));
}

#[test]
fn patch_bytes_conflict_gt() {
    let data = pinyin_data();
    let mut parser = regex_syntax::ParserBuilder::new().case_insensitive(true).build();
    let hir = parser.parse("δ").unwrap();

    let (parts, literals) = fold_and_compile(hir, thompson::Config::new());
    let mut nfa = NFA::new(parts).unwrap();
    nfa.patch_bytes_to_matchers(
        &literals,
        literals.len(),
        MatchConfig::new().pinyin(PinyinMatchConfig::notations(&data, notations())),
        PatternSyntax::Plain,
    )
    .unwrap();

    let re = BoundedBacktracker::new(nfa, BacktrackConfig::new());
    let mut cache = Cache::new();
    assert_eq!(re.try_find(&mut cache, &Input::new("Δ")).unwrap(), must(0, 2));
}

#[should_panic(expected = "Too many bytes")]
#[test]
fn patch_bytes_conflict_lt() {
    let data = pinyin_data();
    let (parts, literals) = fold_and_compile(
        regex_syntax::parse(&format!(r"{}[\u0100\u0200]", "(a)".repeat(129))).unwrap(),
        thompson::Config::new(),
    );
    let mut nfa = NFA::new(parts).unwrap();
    match nfa.patch_bytes_to_matchers(
        &literals,
        literals.len(),
        MatchConfig::new().pinyin(PinyinMatchConfig::notations(&data, notations())),
        PatternSyntax::Plain,
    ) {
        Err(BuildError::PlaceholderCount { expected, found }) => {
            assert_eq!(expected, 129);
            assert!(found > expected);
            panic!("Too many bytes");
        }
        other => assert!(other.is_ok()),
    }
}

#[test]
fn patch_bytes_alt() {
    let data = pinyin_data();
    let (parts, literals) = fold_and_compile(
        regex_syntax::parse("samwise|sam").unwrap(),
        thompson::Config::new(),
    );
    let mut nfa = NFA::new(parts).unwrap();
    nfa.patch_bytes_to_matchers(
        &literals,
        literals.len(),
        MatchConfig::new().pinyin(PinyinMatchConfig::notations(&data, notations())),
        PatternSyntax::Plain,
    )
    .unwrap();

    let re = BoundedBacktracker::new(nfa, BacktrackConfig::new());
    let mut cache = Cache::new();
    assert_eq!(re.try_find(&mut cache, &Input::new("sam")).unwrap(), must(0, 3));
}

#[test]
fn fold_literal_test() {
    let (hir, literals) = parse_and_fold_literal_utf8("abc");
    assert_eq!(hir, rs::Hir::literal(*b"\x00"));
    assert_eq!(literals, vec!["abc".to_string()]);

    let (hir, literals) = parse_and_fold_literal_utf8("abc.*def");
    assert_eq!(
        hir,
        rs::Hir::concat(vec![
            rs::Hir::literal(*b"\x00"),
            regex_syntax::parse(".*").unwrap(),
            rs::Hir::literal(*b"\x01")
        ])
    );
    assert_eq!(literals, vec!["abc".to_string(), "def".to_string()]);
}

#[test]
fn fold_literal_keeps_what_it_cannot_fold() {
    // Only valid UTF-8 is folded where strings are asked for.
    let hir = Hir::Concat(vec![
        Hir::Literal(vec![0xff]),
        Hir::Capture(Capture { index: 1, name: None, sub: Box::new(Hir::Literal(b"ab".to_vec())) }),
        Hir::Alternation(vec![Hir::Literal(b"c".to_vec()), Hir::Look(Look::End)]),
    ]);
    let (hirs, literals) = fold_literal_utf8(vec![hir]);
    assert_eq!(literals, vec!["ab".to_string(), "c".to_string()]);
    match &hirs[0] {
        Hir::Concat(subs) => {
            assert!(matches!(&subs[0], Hir::Literal(b) if b == &vec![0xff]));
            assert!(matches!(&subs[1], Hir::Capture(c) if matches!(&*c.sub, Hir::Literal(b) if b == &vec![0])));
            assert!(matches!(&subs[2], Hir::Alternation(a) if matches!(&a[0], Hir::Literal(b) if b == &vec![1])));
        }
        _ => panic!("shape changed"),
    }

    // Bytes are folded as they are, and only the first 256.
    let many: Vec<Hir> = (0..300u32)
        .map(|i| Hir::Capture(Capture { index: i + 1, name: None, sub: Box::new(Hir::Literal(vec![0xf0, (i % 256) as u8])) }))
        .collect();
    let (hirs, literals) = fold_literal(vec![Hir::Concat(many)]);
    assert_eq!(literals.len(), 256);
    assert_eq!(literals[255], vec![0xf0, 255]);
    match &hirs[0] {
        Hir::Concat(subs) => {
            assert!(matches!(&subs[255], Hir::Capture(c) if matches!(&*c.sub, Hir::Literal(b) if b == &vec![255])));
            assert!(matches!(&subs[256], Hir::Capture(c) if matches!(&*c.sub, Hir::Literal(b) if b == &vec![0xf0, 0])));
        }
        _ => panic!("shape changed"),
    }
}

#[test]
fn regex_case_hir() {
    let hir = hir_out(&literal_to_ascii_case_insensitive(b"++"));
    assert_eq!(hir, rs::Hir::literal(*b"++"));

    for s in ["prog++ram", "++", "a", "Zz9", ""] {
        let expected = regex_syntax::ParserBuilder::new()
            .case_insensitive(true)
            .unicode(false)
            .utf8(false)
            .build()
            .parse(&regex_syntax::escape(s))
            .unwrap();
        assert_eq!(hir_out(&literal_to_ascii_case_insensitive(s.as_bytes())), expected, "{s}");
        assert_eq!(
            hir_out(&hir_to_ascii_case_insensitive(Hir::Literal(s.as_bytes().to_vec()))),
            expected,
            "{s}"
        );
    }
    let nested = hir_to_ascii_case_insensitive(hir_in(&regex_syntax::parse("(ab|c)+d").unwrap()));
    let expected = regex_syntax::ParserBuilder::new()
        .case_insensitive(true)
        .unicode(false)
        .utf8(false)
        .build()
        .parse("(ab|c)+d")
        .unwrap();
    assert_eq!(hir_out(&nested), expected);
}

#[test]
fn re() {
    let data = pinyin_data();
    let re = build_cp(
        Builder::new()
            .ib(MatchConfig::new().pinyin(PinyinMatchConfig::notations(&data, notations())))
            .ib_parser(PatternSyntax::Ev),
        "pinyin;py",
    )
    .unwrap();
    assert!(find_cp(&re, "拼音搜索").is_some());
    assert!(find_cp(&re, "pinyin").is_none());
}

#[test]
fn glob() {
    let data = pinyin_data();
    let hir = parse_wildcard_path_on(
        r"pinyin;py**sou;py",
        None,
        PathSeparator::Windows,
        true,
        GlobExtConfig::new(),
        PathSeparator::Unix,
    );
    let re = build_cp_from_hir(
        Builder::new()
            .ib(MatchConfig::new().pinyin(PinyinMatchConfig::notations(&data, notations())))
            .ib_parser(PatternSyntax::Ev),
        hir_out(&hir),
        thompson::Config::new(),
    )
    .unwrap();
    assert!(find_cp(&re, r"C:\拼音\System32\搜索.exe").is_some());
    assert!(find_cp(&re, r"C:\pinyin\System32\搜索.exe").is_none());
    assert!(find_cp(&re, r"C:\pinyin\System32\sousuo.exe").is_none());
}

fn wildcard(pattern: &str) -> Hir {
    parse_wildcard_path_on(
        pattern,
        None,
        PathSeparator::Windows,
        true,
        GlobExtConfig::new(),
        PathSeparator::Unix,
    )
}

#[test]
fn glob_wildcard_path() {
    let hir1 = regex_syntax::ParserBuilder::new()
        .utf8(false)
        .build()
        .parse(r"[^\\](?s-u)a[^\\]*b.*c")
        .unwrap();

    let hir2 = hir_out(&parse_wildcard_path_on(
        "?a*b**c",
        None,
        PathSeparator::Windows,
        false,
        GlobExtConfig::new(),
        PathSeparator::Unix,
    ));
    assert_eq!(hir1, hir2);

    let re = build_lita_from_hir(lita::Builder::new(), hir_in(&hir2), thompson::Config::new());
    assert!(is_match_lita(&re, r"1a2b33c"));
    assert!(is_match_lita(&re, r"1a\b33c") == false);

    let re = build_lita_from_hir(lita::Builder::new(), wildcard(r"Win*\*\*.exe"), thompson::Config::new());
    assert!(is_match_lita(&re, r"C:\Windows\System32\notepad.exe"));

    let re = build_lita_from_hir(lita::Builder::new(), wildcard(r"Win**.exe"), thompson::Config::new());
    assert!(is_match_lita(&re, r"C:\Windows\System32\notepad.exe"));

    let data = pinyin_data();
    let re = build_lita_from_hir(
        lita::Builder::new()
            .ib(MatchConfig::new().pinyin(PinyinMatchConfig::notations(&data, notations()))),
        wildcard(r"win**pyss.exe"),
        thompson::Config::new(),
    );
    assert!(is_match_lita(&re, r"C:\Windows\System32\拼音搜索.exe"));
}

#[test]
fn mod_wildcard_path() {
    let hir1 = regex_syntax::ParserBuilder::new()
        .utf8(false)
        .build()
        .parse(r"[^/](?s-u)a[^/]*b.*c")
        .unwrap();
    let hir2 = hir_out(&parse_wildcard_path_on(
        "?a*b**c",
        None,
        PathSeparator::Unix,
        false,
        GlobExtConfig::new(),
        PathSeparator::Unix,
    ));
    assert_eq!(hir1, hir2);

    // `Os` is the separator of the platform.
    let os = hir_out(&parse_wildcard_path_on(
        "?a*b**c",
        None,
        PathSeparator::Os,
        false,
        GlobExtConfig::new(),
        PathSeparator::Unix,
    ));
    assert_eq!(hir1, os);
}

#[test]
fn glob_path() {
    let is_match = |p: &str, h: &str| {
        let hir = parse_glob_path_on(
            p,
            None,
            PathSeparator::Windows,
            true,
            GlobExtConfig::new(),
            PathSeparator::Unix,
        );
        is_match_lita(
            &build_lita_from_hir(lita::Builder::new(), hir, thompson::Config::new()),
            h,
        )
    };

    // Set
    assert!(is_match("a[b]z", "abz"));
    assert!(is_match("a[b]z", "aBz") == false);
    assert!(is_match("a[bcd]z", "acz"));

    // Range
    assert!(is_match("a[b-z]z", "ayz"));

    // Negative set
    assert!(is_match("a[!b]z", "abz") == false);
    assert!(is_match("a[!b]z", "acz"));

    // ASCII character class
    assert!(is_match("a[[:space:]]z", "a z"));

    // Escape
    assert!(is_match("a[?]z", "a?z"));
    assert!(is_match("a[*]z", "a*z"));
    assert!(is_match("a[[]z", "a[z"));
    assert!(is_match("a[-]z", "a-z"));
    assert!(is_match("a[]]z", "a]z"));
    assert!(is_match(r"a[\d]z", r"a\z"));

    // Invalid patterns
    assert!(is_match("a[b", "a[bz"));
    assert!(is_match("a[[b]z", "a[[b]z"));
    assert!(is_match("a[!]z", "a[!]z"));
}

#[test]
fn glob_complement_separator_as_glob_star() {
    let ext = GlobExtConfig::new().separator_as_star(PathSeparator::Any, GlobStar::ToChild);
    let unix = PathSeparator::Unix;

    assert_eq!(ext.desugar_on(r"xx/hj", PathSeparator::Windows, unix), r"xx*\**hj");
    let re = build_lita_from_hir(
        lita::Builder::new(),
        parse_wildcard_path_on(r"xx/hj", None, PathSeparator::Windows, true, ext, unix),
        thompson::Config::new(),
    );
    assert!(is_match_lita(&re, r"xxzl\sj\8yhj"));

    let re = build_lita_from_hir(
        lita::Builder::new(),
        parse_wildcard_path_on(r"xx\hj", None, PathSeparator::Unix, true, ext, unix),
        thompson::Config::new(),
    );
    assert!(is_match_lita(&re, r"xxzl/sj/8yhj"));

    let data = pinyin_data();
    let re = build_lita_from_hir(
        lita::Builder::new()
            .ib(MatchConfig::new().pinyin(PinyinMatchConfig::notations(&data, notations()))),
        parse_wildcard_path_on(r"xx/hj", None, PathSeparator::Windows, true, ext, unix),
        thompson::Config::new(),
    );
    assert!(is_match_lita(&re, r"学习资料\时间\7月合集"));

    // Trailing sep
    let ext = GlobExtConfig::new().separator_as_star(PathSeparator::Any, GlobStar::ToChildStart);
    let re = build_lita_from_hir(
        lita::Builder::new().ib(MatchConfig::new()),
        parse_wildcard_path_on(r"xx/", None, PathSeparator::Windows, true, ext, unix),
        thompson::Config::new(),
    );
    assert!(is_match_lita(&re, r"C:\Xxzl\sj\8yhj"));
    assert!(is_match_lita(&re, r"C:\学习\Xxzl\sj\8yhj"));
}

#[test]
fn surrounding_wildcard_as_anchor() {
    let data = pinyin_data();
    let pinyin = || {
        lita::Builder::new()
            .ib(MatchConfig::new().pinyin(PinyinMatchConfig::notations(&data, notations())))
    };
    // Leading *
    let re = build_lita_from_hir(lita::Builder::new(), wildcard(r"*.mp4"), thompson::Config::new());
    assert!(is_match_lita(&re, r"瑠璃の宝石.mp4"));
    assert!(is_match_lita(&re, r"瑠璃の宝石.mp4_001947.296.webp") == false);

    // Trailing *
    let re = build_lita_from_hir(pinyin(), wildcard(r"ll*"), thompson::Config::new());
    assert!(is_match_lita(&re, r"瑠璃の宝石.mp4"));
    assert_eq!(find_lita(&re, r"瑠璃の宝石.mp4"), must(0, 6));
    assert!(is_match_lita(&re, r"ruri 瑠璃の宝石.mp4") == false);

    let re = build_lita_from_hir(pinyin(), wildcard(r"ll***"), thompson::Config::new());
    assert_eq!(find_lita(&re, r"瑠璃の宝石.mp4"), must(0, 6));
    assert!(is_match_lita(&re, r"ruri 瑠璃の宝石.mp4") == false);

    // Middle *
    let re = build_lita_from_hir(pinyin(), wildcard(r"ll*.mp4"), thompson::Config::new());
    assert!(is_match_lita(&re, r"瑠璃の宝石.mp4"));
    assert!(is_match_lita(&re, r"ruri 瑠璃の宝石.mp4"));
    assert!(is_match_lita(&re, r"ruri 瑠璃の宝石.mp4_001133.937.webp"));

    // Leading ?
    let re = build_lita_from_hir(pinyin(), wildcard(r"??.mp4"), thompson::Config::new());
    assert_eq!(find_lita(&re, r"宝石.mp4"), must(0, 10));
    assert_eq!(find_lita(&re, r"瑠璃の宝石.mp4"), None);

    // Trailing ?
    let re = build_lita_from_hir(pinyin(), wildcard(r"ll???"), thompson::Config::new());
    assert_eq!(find_lita(&re, r"瑠璃の宝石"), must(0, 15));
    assert!(is_match_lita(&re, r"ruri 瑠璃の宝石") == false);
}

#[test]
fn surrounding_wildcard_as_anchor_path() {
    let data = pinyin_data();
    let builder = || {
        lita::Builder::new()
            .ib(MatchConfig::new().pinyin(PinyinMatchConfig::notations(&data, notations())))
    };
    let mut lookm = regex_automata::util::look::LookMatcher::new();
    lookm.set_line_terminator(b'\\');
    let config = || thompson::Config::new().look_matcher(lookm.clone());

    // Leading ?
    let re = build_lita_from_hir(builder(), wildcard(r"?:\$RECYCLE*\"), config());
    assert!(is_match_lita(&re, r"C:\$RECYCLE.BIN\⑨"));
    assert!(is_match_lita(&re, r"C:\$RECYCLE.BIN\9"));
    assert!(is_match_lita(&re, r"C:\$RECYCLE.BIN\99"));
    assert!(is_match_lita(&re, r"D:\C:\$RECYCLE.BIN\9"));
    assert!(is_match_lita(&re, r"DC:\$RECYCLE.BIN\9") == false);
    assert!(is_match_lita(&re, r"D:\DC:\$RECYCLE.BIN\9") == false);

    // Trailing ?
    let re = build_lita_from_hir(builder(), wildcard(r"?:\$RECYCLE*\?"), config());
    assert!(is_match_lita(&re, r"C:\$RECYCLE.BIN\⑨"));
    assert!(is_match_lita(&re, r"C:\$RECYCLE.BIN\9"));
    assert!(is_match_lita(&re, r"C:\$RECYCLE.BIN\99") == false);
    assert!(is_match_lita(&re, r"D:\C:\$RECYCLE.BIN\9"));
    assert!(is_match_lita(&re, r"D:\C:\$RECYCLE.BIN\99") == false);
    assert!(is_match_lita(&re, r"DC:\$RECYCLE.BIN\9") == false);
    assert!(is_match_lita(&re, r"D:\DC:\$RECYCLE.BIN\9") == false);
}

#[test]
fn date_is_matched() {
    let re = build_cp(Builder::new(), r"^[0-9]{4}-[0-9]{2}-[0-9]{2}$").unwrap();
    assert!(find_cp(&re, "2010-03-14").is_some());
    assert!(find_cp(&re, "2010-03-1x").is_none());
    let mut cache = re.create_cache();
    assert_eq!(re.try_is_match(&mut cache, &Input::new("2010-03-14")), Ok(true));
    assert_eq!(re.try_is_match(&mut cache, &Input::new("x2010-03-14")), Ok(false));
}

#[test]
fn anchored_search_and_start_offset() {
    let re = build_cp(Builder::new(), "b+").unwrap();
    let mut cache = re.create_cache();
    assert_eq!(re.try_find(&mut cache, &Input::new("abbb")).unwrap(), must(1, 4));
    assert_eq!(re.try_find(&mut cache, &Input::new("abbb").anchored(true)).unwrap(), None);
    assert_eq!(
        re.try_find(&mut cache, &Input::new("abbb").start(2).anchored(true)).unwrap(),
        must(2, 4)
    );
    assert_eq!(re.try_find(&mut cache, &Input::new("abbb").start(5)).unwrap(), None);
    // An empty match does not split a code point.
    let re = build_cp(Builder::new(), "a*").unwrap();
    assert_eq!(re.try_find(&mut cache, &Input::new("☃").start(1)).unwrap(), must(3, 3));
}

#[test]
fn haystack_too_long_is_an_error() {
    let re = build_cp(
        Builder::new().backtrack(BacktrackConfig::new().visited_capacity(8)),
        "abc",
    )
    .unwrap();
    let mut cache = re.create_cache();
    assert!(re.can_search("ab"));
    assert_eq!(re.try_find(&mut cache, &Input::new("xabc")).unwrap(), must(1, 4));
    let long = "x".repeat(100);
    assert!(!re.can_search(&long));
    assert_eq!(
        re.try_find(&mut cache, &Input::new(&long)),
        Err(MatchError::HaystackTooLong { len: 100 })
    );
    // The engine can be used again after the error.
    assert_eq!(re.try_find(&mut cache, &Input::new("abc")).unwrap(), must(0, 3));
}

#[test]
fn regex_build_errors() {
    let bad = NfaParts {
        states: vec![State::ByteRange { trans: Transition { start: 0, end: 0, next: 7 } }],
        start_anchored: 0,
        start_unanchored: 0,
        slot_len: 0,
        utf8: true,
        line_terminator: b'\n',
    };
    assert_eq!(Builder::new().build_from_nfa(bad, &vec![]).err(), Some(BuildError::BadStateId));

    // An automaton without placeholder needs no literal.
    let compiled = thompson::NFA::new("[x-z]+").unwrap();
    assert!(Builder::new().build_from_nfa(parts_of(&compiled), &vec![]).is_ok());
    let (parts, _) = fold_and_compile(regex_syntax::parse("ab").unwrap(), thompson::Config::new());
    assert_eq!(
        Builder::new().build_from_nfa(parts, &vec!["ab".to_string(), "cd".to_string()]).err(),
        Some(BuildError::PlaceholderCount { expected: 2, found: 1 })
    );
    let (parts, _) = fold_and_compile(regex_syntax::parse("ab").unwrap(), thompson::Config::new());
    let many: Vec<String> = (0..257).map(|i| format!("l{i}")).collect();
    assert_eq!(
        Builder::new().build_from_nfa(parts, &many).err(),
        Some(BuildError::TooManyLiterals)
    );
    let _ = Pattern::new("x");
}

#[test]
fn mod_complement_separator_as_glob_star() {
    let ext = GlobExtConfig::new().separator_as_star(PathSeparator::Any, GlobStar::ToChild);

    assert_eq!(ext.desugar_single(r"xx/hj", PathSeparator::Windows), r"xx*\**hj");
    assert_eq!(ext.desugar(r"xx/hj", PathSeparator::Windows), r"xx*\**hj");
    let re = build_lita_from_hir(
        lita::Builder::new(),
        parse_wildcard_path(r"xx/hj", None, PathSeparator::Windows, true, ext),
        thompson::Config::new(),
    );
    assert!(is_match_lita(&re, r"xxzl\sj\8yhj"));

    let re = build_lita_from_hir(
        lita::Builder::new(),
        parse_wildcard_path(r"xx\hj", None, PathSeparator::Unix, true, ext),
        thompson::Config::new(),
    );
    assert!(is_match_lita(&re, r"xxzl/sj/8yhj"));

    let data = pinyin_data();
    let re = build_lita_from_hir(
        lita::Builder::new()
            .ib(MatchConfig::new().pinyin(PinyinMatchConfig::notations(&data, notations()))),
        parse_wildcard_path(r"xx/hj", None, PathSeparator::Windows, true, ext),
        thompson::Config::new(),
    );
    assert!(is_match_lita(&re, r"学习资料\时间\7月合集"));

    // Trailing sep
    let ext = GlobExtConfig::new().separator_as_star(PathSeparator::Any, GlobStar::ToChildStart);
    let re = build_lita_from_hir(
        lita::Builder::new().ib(MatchConfig::new()),
        parse_wildcard_path(r"xx/", None, PathSeparator::Windows, true, ext),
        thompson::Config::new(),
    );
    assert!(is_match_lita(&re, r"C:\Xxzl\sj\8yhj"));
    assert!(is_match_lita(&re, r"C:\学习\Xxzl\sj\8yhj"));
}

#[test]
fn desugar_by_replacement() {
    let unix = PathSeparator::Unix;
    let ext = GlobExtConfig::new_ev_on(unix);
    // Any doubled separator is `*/**`, the separator of the other platform `**/`.
    assert_eq!(ext.desugar_single_on(r"a//b", unix, unix), r"a*/**b");
    assert_eq!(ext.desugar_single_on(r"a\b", unix, unix), r"a**/b");
    assert_eq!(ext.desugar_single_on(r"a/b", unix, unix), r"a/b");
    assert_eq!(ext.desugar_single_on(r"", unix, unix), r"");
    // No rule, no change.
    assert_eq!(GlobExtConfig::new().desugar_single_on(r"a//b\c", unix, unix), r"a//b\c");
    // The separator that the star is written with is replaced first, so
    // that no replacement touches what another one wrote.
    let ext = GlobExtConfig::new().separator_as_star(PathSeparator::Any, GlobStar::ToChild);
    assert_eq!(ext.desugar_single_on(r"a/b\c", unix, unix), r"a*/**b*/**c");
    assert_eq!(ext.desugar_on(r"a/b\c", unix, unix), r"a*/**b*/**c");
    let windows = PathSeparator::Windows;
    assert_eq!(ext.desugar_single_on(r"a/b\c", windows, unix), r"a*\**b*\**c");
    assert_eq!(ext.desugar_on(r"a/b\c", windows, unix), r"a*\**b*\**c");
}

#[test]
fn case_case() {
    let hir = literal_to_ascii_case_insensitive(b"++");
    println!("{:?}", hir);
    assert_eq!(hir_out(&hir), rs::Hir::literal(*b"++"));

    let hir = literal_to_ascii_case_insensitive(b"prog++ram");
    println!("{:?}", hir);

    let hir2 = hir_to_ascii_case_insensitive(Hir::Literal("prog++ram".as_bytes().to_vec()));
    println!("{:?}", hir2);
    assert_eq!(hir_out(&hir), hir_out(&hir2));
}

// The prefixes that the parser's extractor finds, handed to the library.
fn extract_first_byte(hirs: &[rs::Hir]) -> Option<u8> {
    let mut extractor = rs::literal::Extractor::new();
    extractor
        .kind(rs::literal::ExtractKind::Prefix)
        .limit_class(1)
        .limit_repeat(1)
        .limit_literal_len(1)
        .limit_total(2);
    let mut prefixes = rs::literal::Seq::empty();
    for hir in hirs {
        prefixes.union(&mut extractor.extract(hir));
    }
    let literals: Option<Vec<Vec<u8>>> = prefixes
        .literals()
        .map(|literals| literals.iter().map(|l| l.as_bytes().to_vec()).collect());
    first_byte_of(&literals)
}

fn anchored_literal(s: &str) -> rs::Hir {
    rs::Hir::concat(vec![
        rs::Hir::look(rs::Look::StartCRLF),
        rs::Hir::literal(s.as_bytes()),
        rs::Hir::look(rs::Look::EndCRLF),
    ])
}

#[test]
fn extract_first_byte_test() {
    let parse = |p: &str| regex_syntax::parse(p).unwrap();
    assert_eq!(extract_first_byte(&[]), None);
    assert_eq!(extract_first_byte(&[parse("")]), None);
    assert_eq!(extract_first_byte(&[parse("a")]), Some(b'a'));
    assert_eq!(extract_first_byte(&[parse("a|ab")]), Some(b'a'));
    assert_eq!(extract_first_byte(&[parse("a|ab|abc|aki|azki|ahegao")]), Some(b'a'));
    assert_eq!(extract_first_byte(&[parse("a{3}|ab|abc")]), Some(b'a'));
    assert_eq!(extract_first_byte(&[parse("a|b")]), None);
    assert_eq!(extract_first_byte(&[parse("(a|(ab))")]), Some(b'a'));

    assert_eq!(extract_first_byte(&[anchored_literal("foo")]), Some(b'f'));
    assert_eq!(extract_first_byte(&[anchored_literal("foo"), anchored_literal("bar")]), None);
    assert_eq!(
        extract_first_byte(&[
            anchored_literal("foo"),
            anchored_literal("bar"),
            anchored_literal("far"),
        ]),
        None
    );
    assert_eq!(
        extract_first_byte(&[
            anchored_literal("foo"),
            anchored_literal("far"),
            anchored_literal("far"),
        ]),
        Some(b'f')
    );
}

#[test]
fn first_byte_of_one_literal() {
    assert_eq!(first_byte_of(&None), None);
    assert_eq!(first_byte_of(&Some(vec![])), None);
    assert_eq!(first_byte_of(&Some(vec![vec![]])), None);
    assert_eq!(first_byte_of(&Some(vec![vec![7]])), Some(7));
    assert_eq!(first_byte_of(&Some(vec![vec![7, 8]])), Some(7));
    assert_eq!(first_byte_of(&Some(vec![vec![7], vec![7]])), None);
}

#[test]
fn find_iter_walks_the_haystack() {
    let re = build_cp(Builder::new(), "foo[0-9]+").unwrap();
    let hay = "foo1 foo12 foo123";
    assert!(re.can_search(hay));
    assert_eq!(
        re.find_iter(hay),
        vec![
            Match { pattern: 0, start: 0, end: 4 },
            Match { pattern: 0, start: 5, end: 10 },
            Match { pattern: 0, start: 11, end: 17 },
        ]
    );
    assert_eq!(re.find_iter(""), vec![]);

    // Empty matches: one at every boundary, none twice, none inside a
    // code point.
    let re = build_cp(Builder::new(), "a*").unwrap();
    assert_eq!(
        re.find_iter("baab拼"),
        vec![
            Match { pattern: 0, start: 0, end: 0 },
            Match { pattern: 0, start: 1, end: 3 },
            Match { pattern: 0, start: 4, end: 4 },
            Match { pattern: 0, start: 7, end: 7 },
        ]
    );
}

#[test]
fn captures_fill_the_slots() {
    let re = build_cp(Builder::new(), "(a+)(b*)").unwrap();
    let mut slots = re.create_captures();
    assert_eq!(slots, vec![None; 6]);
    let m = re.captures("xaab", &mut slots).unwrap();
    assert_eq!(m, Some(Match { pattern: 0, start: 1, end: 4 }));
    assert_eq!(slots, vec![Some(1), Some(4), Some(1), Some(3), Some(3), Some(4)]);
    assert_eq!(re.captures("xyz", &mut slots).unwrap(), None);

    let all = re.captures_iter("ab a");
    assert_eq!(all.len(), 2);
    assert_eq!(all[0].0, Match { pattern: 0, start: 0, end: 2 });
    assert_eq!(all[0].1, vec![Some(0), Some(2), Some(0), Some(1), Some(1), Some(2)]);
    assert_eq!(all[1].0, Match { pattern: 0, start: 3, end: 4 });
    assert_eq!(all[1].1, vec![Some(3), Some(4), Some(3), Some(4), Some(4), Some(4)]);

    // A regex of one literal has the two slots of the whole match.
    let re = build_lita(lita::Builder::new(), "foo");
    let mut slots = re.create_captures();
    assert_eq!(slots, vec![None; 2]);
    assert_eq!(
        re.captures("a foo", &mut slots).unwrap(),
        Some(Match { pattern: 0, start: 2, end: 5 })
    );
    assert_eq!(slots, vec![Some(2), Some(5)]);
}

#[test]
fn patch_first_byte_with_a_state() {
    let compiled = thompson::NFA::new(r"a\x00c").unwrap();
    let mut nfa = NFA::new(parts_of(&compiled)).unwrap();
    let before = nfa.states().len();
    nfa.patch_first_byte(0, |next| State::Look { look: Look::Start, next });
    assert_eq!(nfa.states().len(), before);
    let looks =
        nfa.states().iter().filter(|s| matches!(s, State::Look { look: Look::Start, .. })).count();
    assert_eq!(looks, 1);
    let zero = nfa
        .states()
        .iter()
        .filter(|s| matches!(s, State::ByteRange { trans } if trans.start == 0 && trans.end == 0))
        .count();
    assert_eq!(zero, 0);
    // Without the byte nothing changes.
    nfa.patch_first_byte(0, |next| State::Look { look: Look::End, next });
    let ends =
        nfa.states().iter().filter(|s| matches!(s, State::Look { look: Look::End, .. })).count();
    assert_eq!(ends, 0);
}

#[test]
fn separator_classes() {
    let unix = PathSeparator::Unix;
    let windows = PathSeparator::Windows;
    // Any character, any byte, but the separator.
    assert_eq!(hir_out(&PathSeparator::Unix.any_char_except_on(windows)), regex_syntax::parse(r"[^/]").unwrap());
    assert_eq!(hir_out(&PathSeparator::Windows.any_char_except_on(unix)), regex_syntax::parse(r"[^\\]").unwrap());
    assert_eq!(hir_out(&PathSeparator::Any.any_char_except_on(unix)), regex_syntax::parse(r"[^/\\]").unwrap());
    assert_eq!(hir_out(&PathSeparator::Os.any_char_except_on(unix)), regex_syntax::parse(r"[^/]").unwrap());
    assert_eq!(hir_out(&PathSeparator::Os.any_char_except_on(windows)), regex_syntax::parse(r"[^\\]").unwrap());
    let bytes = |p: &str| {
        regex_syntax::ParserBuilder::new().unicode(false).utf8(false).build().parse(p).unwrap()
    };
    assert_eq!(hir_out(&PathSeparator::Unix.any_byte_except_on(windows)), bytes(r"(?s-u)[^/]"));
    assert_eq!(hir_out(&PathSeparator::Windows.any_byte_except_on(unix)), bytes(r"(?s-u)[^\\]"));
    assert_eq!(hir_out(&PathSeparator::Any.any_byte_except_on(unix)), bytes(r"(?s-u)[^/\\]"));
    // The separator itself.
    assert_eq!(hir_out(&PathSeparator::Unix.literal_on(windows)), regex_syntax::parse(r"/").unwrap());
    assert_eq!(hir_out(&PathSeparator::Windows.literal_on(unix)), regex_syntax::parse(r"\\").unwrap());
    assert_eq!(hir_out(&PathSeparator::Any.literal_on(unix)), bytes(r"(?-u)[/\\]"));
    // On this platform.
    let here = PathSeparator::os_desugar();
    assert_eq!(
        hir_out(&PathSeparator::Os.any_char_except()),
        hir_out(&PathSeparator::Os.any_char_except_on(here))
    );
    assert_eq!(
        hir_out(&PathSeparator::Os.any_byte_except()),
        hir_out(&PathSeparator::Os.any_byte_except_on(here))
    );
}

#[test]
fn prefilter_finds_where_a_match_may_start() {
    assert_eq!(PrefilterIb::byte2_or_non_ascii(b'p', true), PrefilterIb::Byte2OrNonAscii(b'p', b'P'));
    assert_eq!(PrefilterIb::byte2_or_non_ascii(b'P', true), PrefilterIb::Byte2OrNonAscii(b'p', b'P'));
    assert_eq!(PrefilterIb::byte2_or_non_ascii(b'P', false), PrefilterIb::Byte2OrNonAscii(b'P', b'P'));
    assert_eq!(PrefilterIb::byte2_or_non_ascii(b'1', true), PrefilterIb::Byte2OrNonAscii(b'1', b'1'));
    assert_eq!(PrefilterIb::byte2_or_non_ascii(b'z', true), PrefilterIb::Byte2OrNonAscii(b'z', b'Z'));
    assert_eq!(PrefilterIb::byte2_or_non_ascii(b'{', true), PrefilterIb::Byte2OrNonAscii(b'{', b'{'));

    let p = PrefilterIb::byte2_or_non_ascii(b'p', true);
    assert_eq!(p.find(b"xxPy"), Some(2));
    assert_eq!(p.find(b"xxpy"), Some(2));
    assert_eq!(p.find("x拼py".as_bytes()), Some(1));
    assert_eq!(p.find(b"xxx"), None);
    assert_eq!(p.find(b""), None);
    let p = PrefilterIb::byte2_or_non_ascii(b'P', false);
    assert_eq!(p.find(b"xxpP"), Some(3));
}

#[test]
fn regex_input_as_matcher_input() {
    let whole = Input::new("a拼b");
    let x = ib_matcher::matcher::Input::from_regex(&whole).unwrap();
    assert_eq!((x.haystack, x.no_start), ("a拼b", false));
    let x = ib_matcher::matcher::Input::from_regex(&whole.start(1)).unwrap();
    assert_eq!((x.haystack, x.no_start), ("拼b", true));
    let x = ib_matcher::matcher::Input::from_regex(&whole.start(5)).unwrap();
    assert_eq!((x.haystack, x.no_start), ("", true));
    // Inside a code point, and behind the end.
    assert!(ib_matcher::matcher::Input::from_regex(&whole.start(2)).is_none());
    assert!(ib_matcher::matcher::Input::from_regex(&whole.start(6)).is_none());
    // The end of the span cuts the haystack, and drops the code point it
    // falls into.
    let x = ib_matcher::matcher::Input::from_regex(&whole.span(1, 4)).unwrap();
    assert_eq!((x.haystack, x.no_start), ("拼", true));
    let x = ib_matcher::matcher::Input::from_regex(&whole.span(0, 3)).unwrap();
    assert_eq!((x.haystack, x.no_start), ("a", false));
    let x = ib_matcher::matcher::Input::from_regex(&whole.span(1, 1)).unwrap();
    assert_eq!((x.haystack, x.no_start), ("", true));
    let x = ib_matcher::matcher::Input::from_regex(&whole.end(100)).unwrap();
    assert_eq!((x.haystack, x.no_start), ("a拼b", false));
    assert!(ib_matcher::matcher::Input::from_regex(&whole.span(4, 1)).is_none());

    let m = IbMatcher::builder("b").build().find("a拼b").unwrap();
    assert_eq!(m.into_regex(), Match { pattern: 0, start: 4, end: 5 });
}

#[test]
fn try_captures_keeps_the_slots_given() {
    let re = build_cp(Builder::new(), "(a)(b)?").unwrap();
    let mut cache = re.create_cache();
    let mut slots = vec![Some(9); 6];
    let m = re.try_captures(&mut cache, &Input::new("xa"), &mut slots).unwrap();
    assert_eq!(m, Some(Match { pattern: 0, start: 1, end: 2 }));
    assert_eq!(slots, vec![Some(1), Some(2), Some(1), Some(2), None, None]);
    // Without a match the slots are empty.
    let m = re.try_captures(&mut cache, &Input::new("x"), &mut slots).unwrap();
    assert_eq!(m, None);
    assert_eq!(slots.len(), 6);
}

#[test]
fn a_clone_searches_as_the_regex_it_was_made_from() {
    let data = pinyin_data();
    let config = MatchConfig::new().pinyin(PinyinMatchConfig::notations(&data, notations()));
    let haystacks = ["", "apyss", "拼音搜索", "x拼音搜索Everything", "pyss pyss", "samwise"];

    let re = build_cp(Builder::new().ib(config.shallow_clone()), "pyss|sam(wise)?").unwrap();
    let copy = re.clone();
    drop(re.clone());
    for h in haystacks {
        assert_eq!(find_cp(&re, h), find_cp(&copy, h), "{h}");
        assert_eq!(re.find_iter(h), copy.find_iter(h), "{h}");
        assert_eq!(re.is_match(h), copy.is_match(h), "{h}");
    }
    assert_eq!(find_cp(&copy, "x拼音搜索"), must(1, 13));

    for pattern in ["pyss", "py.s"] {
        let re = build_lita(lita::Builder::new().ib(config.shallow_clone()), pattern);
        let copy = re.clone();
        for h in haystacks {
            assert_eq!(find_lita(&re, h), find_lita(&copy, h), "{pattern} {h}");
        }
    }

    let matcher = IbMatcher::builder("pyss")
        .pinyin(PinyinMatchConfig::notations(&data, notations()))
        .build();
    let copy = matcher.clone();
    for h in haystacks {
        assert_eq!(
            matcher.find(h).map(|m| (m.start(), m.end(), m.is_pattern_partial())),
            copy.find(h).map(|m| (m.start(), m.end(), m.is_pattern_partial())),
            "{h}"
        );
        assert_eq!(matcher.is_match(h), copy.is_match(h));
    }
}

#[test]
fn a_search_stays_inside_its_span() {
    let re = build_cp(Builder::new(), "b+").unwrap();
    let mut cache = re.create_cache();
    let hay = Input::new("abbbc");
    assert_eq!(re.try_find(&mut cache, &hay).unwrap(), must(1, 4));
    assert_eq!(re.try_find(&mut cache, &hay.end(3)).unwrap(), must(1, 3));
    assert_eq!(re.try_find(&mut cache, &hay.span(2, 3)).unwrap(), must(2, 3));
    assert_eq!(re.try_find(&mut cache, &hay.end(1)).unwrap(), None);
    assert_eq!(re.try_find(&mut cache, &hay.span(4, 5)).unwrap(), None);
    assert_eq!(re.try_find(&mut cache, &hay.span(3, 2)).unwrap(), None);
    assert_eq!(re.try_find(&mut cache, &hay.end(100)).unwrap(), must(1, 4));

    // An empty span can hold an empty match.
    let re = build_cp(Builder::new(), "b*").unwrap();
    assert_eq!(re.try_find(&mut cache, &hay.span(2, 2)).unwrap(), must(2, 2));
    assert_eq!(re.try_find(&mut cache, &hay.span(5, 5)).unwrap(), must(5, 5));

    // The assertions look at the whole haystack.
    let re = build_cp(Builder::new(), "b$").unwrap();
    assert_eq!(re.try_find(&mut cache, &Input::new("ab")).unwrap(), must(1, 2));
    assert_eq!(re.try_find(&mut cache, &Input::new("abc").end(2)).unwrap(), None);
    let re = build_cp(Builder::new(), "^b").unwrap();
    assert_eq!(re.try_find(&mut cache, &Input::new("ab").start(1)).unwrap(), None);

    // The capacity goes by the span, not by the haystack.
    let re = build_cp(Builder::new().backtrack(BacktrackConfig::new().visited_capacity(8)), "b+")
        .unwrap();
    let long = "a".repeat(1000) + "bb";
    assert!(matches!(
        re.try_find(&mut cache, &Input::new(&long)),
        Err(MatchError::HaystackTooLong { len: 1002 })
    ));
    assert_eq!(re.try_find(&mut cache, &Input::new(&long).span(999, 1002)).unwrap(), must(1000, 1002));
}

#[test]
fn a_literal_matcher_sees_the_span_only() {
    let data = pinyin_data();
    let config = MatchConfig::new().pinyin(PinyinMatchConfig::notations(&data, notations()));
    let re = build_cp(Builder::new().ib(config.shallow_clone()), "pin.?yin").unwrap();
    let mut cache = re.create_cache();
    let hay = Input::new("x拼音y");
    assert_eq!(re.try_find(&mut cache, &hay).unwrap(), must(1, 7));
    assert_eq!(re.try_find(&mut cache, &hay.end(7)).unwrap(), must(1, 7));
    // The end cuts the second character in two: it is not there.
    assert_eq!(re.try_find(&mut cache, &hay.end(6)).unwrap(), None);
    assert_eq!(re.try_find(&mut cache, &hay.end(5)).unwrap(), None);
    let re = build_cp(Builder::new().ib(config.shallow_clone()), "pin").unwrap();
    assert_eq!(re.try_find(&mut cache, &hay.end(4)).unwrap(), must(1, 4));
    assert_eq!(re.try_find(&mut cache, &hay.end(3)).unwrap(), None);
    assert_eq!(re.try_find(&mut cache, &hay.span(1, 4).anchored(true)).unwrap(), must(1, 4));
    assert_eq!(re.try_find(&mut cache, &hay.span(0, 4).anchored(true)).unwrap(), None);
}

#[test]
fn what_is_longer_than_the_longest_haystack_is_too_long() {
    let compiled = thompson::NFA::new("ab").unwrap();
    let states = compiled.states().len();
    let re = BoundedBacktracker::new(
        NFA::new(parts_of(&compiled)).unwrap(),
        BacktrackConfig::new().visited_capacity(100),
    );
    // 800 bits, in blocks of 64: 832.
    let max = re.max_haystack_len();
    assert_eq!(max, 832 / states - 1);
    let mut cache = Cache::new();
    let long = "x".repeat(max + 1);
    assert_eq!(
        re.try_find(&mut cache, &Input::new(&long)),
        Err(MatchError::HaystackTooLong { len: max + 1 })
    );
    let short = "x".repeat(800 / states - 1);
    assert_eq!(re.try_find(&mut cache, &Input::new(&short)), Ok(None));

    let cp = build_cp(Builder::new(), "ab").unwrap();
    let cache = cp.create_cache();
    assert!(cache.stack.is_empty() && cache.visited.is_empty());
    assert_eq!(cache.memory_usage(), 0);
}

#[test]
fn a_literal_that_reads_as_the_empty_pattern_matches_the_empty_string() {
    let data = pinyin_data();
    let config = MatchConfig::new().pinyin(PinyinMatchConfig::notations(&data, notations()));
    // Under the post-modifier syntax the literal `;py` is the empty pattern.
    let re = build_cp(
        Builder::new().ib(config.shallow_clone()).ib_parser(PatternSyntax::Ev),
        "x(;py)y",
    )
    .unwrap();
    assert_eq!(find_cp(&re, "axyb"), must(1, 3));
    assert_eq!(find_cp(&re, "ax;pyyb"), None);
    let re = build_cp(Builder::new().ib_parser(PatternSyntax::Ev), ";py|b").unwrap();
    assert_eq!(find_cp(&re, "ab"), must(0, 0));

    // A state patched to the matcher of the empty pattern is passed through.
    let compiled = thompson::NFA::new("pyss").unwrap();
    let mut nfa = NFA::new(parts_of(&compiled)).unwrap();
    assert!(nfa.patch_first_byte_to_matcher(b'y', IbMatcher::builder("").build()).is_none());
    let re = BoundedBacktracker::new(nfa, BacktrackConfig::new());
    let mut cache = Cache::new();
    assert_eq!(re.try_find(&mut cache, &Input::new("xpssx")).unwrap(), must(1, 4));
    assert_eq!(re.try_find(&mut cache, &Input::new("xpyssx")).unwrap(), None);
}

#[test]
fn branches_that_end_with_one_byte_are_guarded() {
    let keep = |h: &Hir| {
        matches!(h, Hir::Repetition(r) if r.min == 0 && r.max == Some(1)
            && matches!(&*r.sub, Hir::Class(Class::Bytes(v)) if v.is_empty()))
    };
    // Outside an alternation nothing changes.
    let h = guard_placeholders(Hir::Concat(vec![Hir::Literal(vec![0]), Hir::Literal(vec![1, 2])]));
    assert!(matches!(&h, Hir::Concat(v) if v.len() == 2
        && matches!(&v[0], Hir::Literal(b) if b == &vec![0])));
    let h = guard_placeholders(Hir::Literal(vec![0]));
    assert!(matches!(&h, Hir::Literal(b) if b == &vec![0]));

    let h = guard_placeholders(Hir::Alternation(vec![
        Hir::Literal(vec![0]),
        Hir::Literal(vec![1, 2]),
        Hir::Concat(vec![Hir::Look(Look::Start), Hir::Literal(vec![3])]),
        Hir::Concat(vec![Hir::Literal(vec![4]), Hir::Look(Look::End)]),
        Hir::Capture(Capture { index: 1, name: None, sub: Box::new(Hir::Literal(vec![5])) }),
    ]));
    match &h {
        Hir::Alternation(v) => {
            assert!(matches!(&v[0], Hir::Concat(c) if c.len() == 2
                && matches!(&c[0], Hir::Literal(b) if b == &vec![0]) && keep(&c[1])));
            assert!(matches!(&v[1], Hir::Literal(b) if b == &vec![1, 2]));
            assert!(matches!(&v[2], Hir::Concat(c) if c.len() == 3 && keep(&c[2])));
            assert!(matches!(&v[3], Hir::Concat(c) if c.len() == 2));
            assert!(matches!(&v[4], Hir::Capture(c) if matches!(&*c.sub, Hir::Literal(_))));
        }
        _ => panic!("shape changed"),
    }
    // What it matches stays the same, and each placeholder has its state.
    let out = hir_out(&guard_placeholders(Hir::Alternation(vec![
        Hir::Literal(vec![0]),
        Hir::Literal(vec![1]),
    ])));
    assert!(matches!(out.kind(), rs::HirKind::Alternation(_)));
    let nfa = NFA::new(parts_of(&thompson::Compiler::new().build_from_hir(&out).unwrap())).unwrap();
    assert_eq!(nfa.count_bytes(2), 2);
    let merged = hir_out(&Hir::Alternation(vec![Hir::Literal(vec![0]), Hir::Literal(vec![1])]));
    assert!(matches!(merged.kind(), rs::HirKind::Class(_)));
    let nfa =
        NFA::new(parts_of(&thompson::Compiler::new().build_from_hir(&merged).unwrap())).unwrap();
    assert_eq!(nfa.count_bytes(2), 0);
}
