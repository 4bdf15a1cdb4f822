//! What the matcher computes, stated over byte sequences.
//!
//! A pattern is matched against the haystack from a start position, one
//! haystack character at a time. A haystack character is first compared with
//! the next pattern character; where that fails and the haystack character
//! is not ASCII, its romaji and pinyin readings are tried against the text
//! of the pattern, in a fixed order, and the first that leads to a complete
//! match wins.
use crate::matcher::analyze::pinyin_lower;
use crate::matcher::ascii::occurs;
use crate::pinyin::data::{form_of, EntryModel, PinyinData};
use crate::pinyin::notation::NOTATION_COUNT;
use crate::romaji::convert::eq_ime_seq;
use crate::romaji::kana::{is_kana_boundary, is_n_suffix};
use crate::romaji::romanizer::{candidates, RomanizerModel};
use crate::unicode::case::mono_lower;
use crate::unicode::str::{char_at, char_len_at, on_boundary};
use vstd::prelude::*;
use vstd::utf8::is_ascii_chars;

verus! {

/// The language of a reading.
#[derive(Clone, Copy, PartialEq, Eq, Structural)]
pub enum ReadingKind {
    Pinyin,
    Romaji,
}

/// The languages that readings may still be taken from.
#[derive(Clone, Copy, PartialEq, Eq, Structural)]
pub enum LangState {
    Any,
    Pinyin,
    Romaji,
}

/// Pinyin matching as the matcher sees it.
pub struct PinyinModel {
    pub data: PinyinData,
    pub case_insensitive: bool,
    /// The pattern may end inside a pinyin.
    pub partial: bool,
    /// The notations that are tried first, each a prefix of the next; a
    /// notation that does not match ends the group.
    pub prefix_group: Seq<int>,
    /// The notations that are tried after the group, every one of them.
    pub fallback: Seq<int>,
}

/// Romaji matching as the matcher sees it.
pub struct RomajiModel {
    pub romanizer: RomanizerModel,
    pub case_insensitive: bool,
    /// The pattern may end inside a word, at the end of a kana.
    pub partial_word: bool,
    /// The pattern may end inside a kana.
    pub partial_kana: bool,
}

/// A compiled matcher.
pub struct MatcherModel {
    pub pattern: Seq<char>,
    pub pattern_lower: Seq<char>,
    pub case_insensitive: bool,
    /// Pattern characters are compared with haystack characters.
    pub literal: bool,
    pub starts_with: bool,
    pub mix_lang: bool,
    pub min_haystack_len: int,
    pub pinyin: Option<PinyinModel>,
    pub romaji: Option<RomajiModel>,
    /// The needle and the case rule of the searcher for ASCII haystacks.
    pub ascii: Option<(Seq<u8>, bool)>,
}

/// Whether readings are taken from the dictionaries at all.
pub open spec fn has_readings(m: MatcherModel) -> bool {
    m.pinyin is Some || m.romaji is Some
}

/// The plain lower bound on the bytes that matching the pattern from index
/// `p` takes: with readings one byte, as one reading may stand for the whole
/// rest; without them one byte for each character.
pub open spec fn min_len_from(m: MatcherModel, p: int) -> int {
    if p >= m.pattern.len() {
        0
    } else if has_readings(m) {
        1
    } else {
        m.pattern.len() - p
    }
}

/// The notations that pinyins are taken in: the prefix group, then the
/// others.
pub open spec fn notations_of(pm: PinyinModel) -> Seq<int> {
    pm.prefix_group + pm.fallback
}

/// The lower bound on the bytes that matching the pattern from index `p`
/// takes, by the pinyins that the dictionary holds:
/// - with romaji one byte, as one reading may stand for the whole rest;
/// - with pinyin alone the cheapest way to use up the pattern where a
///   character that stands for itself takes a byte and one that stands for
///   a pinyin two;
/// - without readings one byte for each character.
pub open spec fn lower(m: MatcherModel, p: int) -> int {
    if p < 0 || p >= m.pattern.len() {
        0
    } else if m.romaji is Some {
        1
    } else {
        match m.pinyin {
            Some(pm) => pinyin_lower(
                pm.data,
                notations_of(pm),
                pm.partial,
                pattern_text(m, ReadingKind::Pinyin),
                p,
            ),
            None => m.pattern.len() - p,
        }
    }
}

/// The notations of the prefix group are derived from the full pinyin, in
/// ascending order, so that each is a prefix of the next.
pub open spec fn prefix_group_ok(g: Seq<int>) -> bool {
    &&& forall|k: int| 0 <= k < g.len() ==> 0 <= #[trigger] g[k] < 3
    &&& forall|j: int, k: int| 0 <= j < k < g.len() ==> g[j] < g[k]
}

/// The invariant of a compiled matcher.
pub open spec fn model_wf(m: MatcherModel) -> bool {
    &&& m.pattern_lower == m.pattern.map_values(|c: char| mono_lower(c))
    &&& 0 <= m.min_haystack_len <= lower(m, 0)
    &&& (m.pinyin matches Some(pm) ==> pm.data.wf() && prefix_group_ok(pm.prefix_group))
    &&& (m.ascii matches Some((needle, ignore_case)) ==> {
        &&& m.literal
        &&& ignore_case == m.case_insensitive
        &&& needle.len() == m.pattern.len()
        &&& is_ascii_chars(m.pattern)
        &&& forall|i: int| 0 <= i < m.pattern.len() ==> needle[i] == #[trigger] m.pattern[i] as u8
    })
}

/// Whether the haystack character `c` equals the pattern character at `p`
/// under the matcher's case rule.
pub open spec fn literal_eq(m: MatcherModel, p: int, c: char) -> bool {
    if m.case_insensitive {
        mono_lower(c) == m.pattern_lower[p]
    } else {
        c == m.pattern[p]
    }
}

/// Whether the readings of a language are compared with the lower-cased
/// pattern.
pub open spec fn kind_ignores_case(m: MatcherModel, kind: ReadingKind) -> bool {
    match kind {
        ReadingKind::Pinyin => m.pinyin is Some && m.pinyin.unwrap().case_insensitive,
        ReadingKind::Romaji => m.romaji is Some && m.romaji.unwrap().case_insensitive,
    }
}

/// The pattern text that readings of `kind` are compared with.
pub open spec fn pattern_text(m: MatcherModel, kind: ReadingKind) -> Seq<char> {
    if kind_ignores_case(m, kind) {
        m.pattern_lower
    } else {
        m.pattern
    }
}

/// The reading as it must be typed: a romaji that begins with a vowel or
/// `y` takes an apostrophe in front when it follows a romaji ending in `n`.
pub open spec fn effective(kind: ReadingKind, after_n: bool, py: Seq<char>) -> Seq<char> {
    if kind is Romaji && after_n && py.len() > 0 && is_n_suffix(py[0]) {
        seq!['\''] + py
    } else {
        py
    }
}

/// Whether the typed text stands for the reading: equal for pinyin, equal up
/// to input-method variants for romaji.
pub open spec fn agrees(kind: ReadingKind, typed: Seq<char>, reading: Seq<char>) -> bool {
    match kind {
        ReadingKind::Pinyin => typed == reading,
        ReadingKind::Romaji => eq_ime_seq(typed, reading),
    }
}

/// Whether the pattern may end after `typed_len` units of the reading `eff`.
pub open spec fn partial_allowed(
    m: MatcherModel,
    kind: ReadingKind,
    eff: Seq<char>,
    typed_len: int,
) -> bool {
    match kind {
        ReadingKind::Pinyin => m.pinyin is Some && m.pinyin.unwrap().partial,
        ReadingKind::Romaji => m.romaji is Some && (m.romaji.unwrap().partial_kana || (
        m.romaji.unwrap().partial_word && is_kana_boundary(eff, typed_len))),
    }
}

/// The languages that may follow a reading of `kind`.
pub open spec fn next_lang(m: MatcherModel, kind: ReadingKind, lang: LangState) -> LangState {
    if m.mix_lang {
        lang
    } else {
        match kind {
            ReadingKind::Pinyin => LangState::Pinyin,
            ReadingKind::Romaji => LangState::Romaji,
        }
    }
}

/// Whether the reading `eff` of `kind` ends in the romaji `n`.
pub open spec fn ends_in_n(kind: ReadingKind, eff: Seq<char>) -> bool {
    kind is Romaji && eff.len() > 0 && eff.last() == 'n'
}

/// Whether `len` bytes from `pos` end inside `h` on a code-point boundary.
pub open spec fn usable(h: Seq<u8>, pos: int, len: int) -> bool {
    len >= 1 && pos + len <= h.len() && on_boundary(h, pos + len)
}

/// Matches the pattern from index `p` against `h` from the boundary `pos`:
/// the end of the match and whether the pattern ended inside a reading.
pub open spec fn sub_test(
    m: MatcherModel,
    h: Seq<u8>,
    p: int,
    pos: int,
    lang: LangState,
    after_n: bool,
) -> Option<(int, bool)>
    decreases h.len() - pos, 5int, 0int,
{
    if p < 0 || p >= m.pattern.len() || pos < 0 || pos >= h.len() {
        None
    } else {
        let c = char_at(h, pos);
        let n = pos + char_len_at(h, pos);
        if n > h.len() || n <= pos {
            None
        } else if m.literal && literal_eq(m, p, c) {
            if p + 1 == m.pattern.len() {
                Some((n, false))
            } else {
                sub_test(m, h, p + 1, n, lang, false)
            }
        } else if (c as u32) < 0x80 {
            None
        } else {
            match romaji_from(m, h, p, pos, lang, after_n, 0) {
                Some(r) => Some(r),
                None => pinyin_from(m, h, p, pos, lang, 0),
            }
        }
    }
}

/// Tries the romaji candidates at `pos` from the `k`-th on.
pub open spec fn romaji_from(
    m: MatcherModel,
    h: Seq<u8>,
    p: int,
    pos: int,
    lang: LangState,
    after_n: bool,
    k: int,
) -> Option<(int, bool)>
    decreases h.len() - pos, 4int, candidates(m.romaji.unwrap().romanizer, h, pos).len() - k,
{
    if m.romaji is None || lang is Pinyin || pos < 0 || pos >= h.len() {
        None
    } else {
        let cands = candidates(m.romaji.unwrap().romanizer, h, pos);
        if k < 0 || k >= cands.len() {
            None
        } else {
            let len = cands[k].0;
            let r = if usable(h, pos, len) {
                reading(m, h, p, pos + len, cands[k].1, ReadingKind::Romaji, lang, after_n)
            } else {
                (false, None)
            };
            match r.1 {
                Some(x) => Some(x),
                None => romaji_from(m, h, p, pos, lang, after_n, k + 1),
            }
        }
    }
}

/// Tries the pinyin entries of the character at `pos` from the `e`-th on.
pub open spec fn pinyin_from(
    m: MatcherModel,
    h: Seq<u8>,
    p: int,
    pos: int,
    lang: LangState,
    e: int,
) -> Option<(int, bool)>
    decreases h.len() - pos, 4int, m.pinyin.unwrap().data.readings(char_at(h, pos)).len() - e,
{
    if m.pinyin is None || lang is Romaji || pos < 0 || pos >= h.len() || !usable(
        h,
        pos,
        char_len_at(h, pos),
    ) {
        None
    } else {
        let entries = m.pinyin.unwrap().data.readings(char_at(h, pos));
        if e < 0 || e >= entries.len() {
            None
        } else {
            match pinyin_prefix(m, h, p, pos, lang, entries[e], 0) {
                Some(r) => Some(r),
                None => match pinyin_fallback(m, h, p, pos, lang, entries[e], 0) {
                    Some(r) => Some(r),
                    None => pinyin_from(m, h, p, pos, lang, e + 1),
                },
            }
        }
    }
}

/// Tries the notations of the prefix group from the `k`-th on; the first
/// notation that does not match ends the group.
pub open spec fn pinyin_prefix(
    m: MatcherModel,
    h: Seq<u8>,
    p: int,
    pos: int,
    lang: LangState,
    entry: EntryModel,
    k: int,
) -> Option<(int, bool)>
    decreases h.len() - pos, 3int, m.pinyin.unwrap().prefix_group.len() - k,
{
    if m.pinyin is None || pos < 0 || pos >= h.len() || !usable(h, pos, char_len_at(h, pos)) {
        None
    } else {
        let pm = m.pinyin.unwrap();
        if k < 0 || k >= pm.prefix_group.len() {
            None
        } else {
            match form_of(pm.data.inited(), entry, pm.prefix_group[k]) {
                None => pinyin_prefix(m, h, p, pos, lang, entry, k + 1),
                Some(py) => {
                    let r = reading(
                        m,
                        h,
                        p,
                        pos + char_len_at(h, pos),
                        py,
                        ReadingKind::Pinyin,
                        lang,
                        false,
                    );
                    if !r.0 {
                        None
                    } else {
                        match r.1 {
                            Some(x) => Some(x),
                            None => pinyin_prefix(m, h, p, pos, lang, entry, k + 1),
                        }
                    }
                },
            }
        }
    }
}

/// Tries the notations outside the prefix group from the `k`-th on.
pub open spec fn pinyin_fallback(
    m: MatcherModel,
    h: Seq<u8>,
    p: int,
    pos: int,
    lang: LangState,
    entry: EntryModel,
    k: int,
) -> Option<(int, bool)>
    decreases h.len() - pos, 3int, m.pinyin.unwrap().fallback.len() - k,
{
    if m.pinyin is None || pos < 0 || pos >= h.len() || !usable(h, pos, char_len_at(h, pos)) {
        None
    } else {
        let pm = m.pinyin.unwrap();
        if k < 0 || k >= pm.fallback.len() {
            None
        } else {
            match form_of(pm.data.inited(), entry, pm.fallback[k]) {
                None => pinyin_fallback(m, h, p, pos, lang, entry, k + 1),
                Some(py) => {
                    let r = reading(
                        m,
                        h,
                        p,
                        pos + char_len_at(h, pos),
                        py,
                        ReadingKind::Pinyin,
                        lang,
                        false,
                    );
                    match r.1 {
                        Some(x) => Some(x),
                        None => pinyin_fallback(m, h, p, pos, lang, entry, k + 1),
                    }
                },
            }
        }
    }
}

/// Matches the reading `py`, which stands for the haystack up to `next`,
/// against the pattern from index `p`: whether the reading matched the
/// pattern text, and the match that follows from it, if any.
///
/// - Where the rest of the pattern is shorter than the reading, it matches
///   only as a partial pattern: where that is allowed and the reading begins
///   with the rest of the pattern.
/// - Where the pattern text begins with the reading, the reading matched; the
///   match is complete if the pattern ends there, and otherwise goes on
///   behind the reading.
pub open spec fn reading(
    m: MatcherModel,
    h: Seq<u8>,
    p: int,
    next: int,
    py: Seq<char>,
    kind: ReadingKind,
    lang: LangState,
    after_n: bool,
) -> (bool, Option<(int, bool)>)
    decreases h.len() - next, 9int, 0int,
{
    let text = pattern_text(m, kind);
    let eff = effective(kind, after_n, py);
    let rest = m.pattern.len() - p;
    if p < 0 || rest <= 0 || text.len() != m.pattern.len() || next < 0 || next > h.len() {
        (false, None)
    } else if rest < eff.len() {
        if partial_allowed(m, kind, eff, rest) && agrees(kind, text.skip(p), eff.take(rest)) {
            (true, Some((next, true)))
        } else {
            (false, None)
        }
    } else if agrees(kind, text.subrange(p, p + eff.len()), eff) {
        if rest == eff.len() {
            (true, Some((next, false)))
        } else {
            (
                true,
                sub_test(m, h, p + eff.len(), next, next_lang(m, kind, lang), ends_in_n(kind, eff)),
            )
        }
    } else {
        (false, None)
    }
}

/// Whether `h` is shorter than any match of the pattern.
pub open spec fn too_short(m: MatcherModel, h: Seq<u8>) -> bool {
    h.len() < m.min_haystack_len
}

/// The match anchored at the start of `h`.
pub open spec fn test_general(m: MatcherModel, h: Seq<u8>) -> Option<(int, int, bool)> {
    match sub_test(m, h, 0, 0, LangState::Any, false) {
        Some((e, partial)) => Some((0, e, partial)),
        None => None,
    }
}

/// The leftmost match that starts at the boundary `i` or later; the search
/// ends where the rest of `h` is shorter than any match.
pub open spec fn find_from(m: MatcherModel, h: Seq<u8>, i: int) -> Option<(int, int, bool)>
    decreases h.len() - i,
{
    if i < 0 || i >= h.len() || h.len() - i < m.min_haystack_len {
        None
    } else {
        match sub_test(m, h, 0, i, LangState::Any, false) {
            Some((e, partial)) => Some((i, e, partial)),
            None => if char_len_at(h, i) >= 1 && i + char_len_at(h, i) <= h.len() {
                find_from(m, h, i + char_len_at(h, i))
            } else {
                None
            },
        }
    }
}

/// The match that starts at the offset `at` of `h`: none where `at` is no
/// code-point boundary or the rest of `h` is too short.
pub open spec fn test_at_spec(m: MatcherModel, h: Seq<u8>, at: int) -> Option<(int, int, bool)> {
    if !on_boundary(h, at) {
        None
    } else if m.pattern.len() == 0 {
        Some((at, at, false))
    } else if h.len() - at < m.min_haystack_len {
        None
    } else {
        match sub_test(m, h, 0, at, LangState::Any, false) {
            Some((e, partial)) => Some((at, e, partial)),
            None => None,
        }
    }
}

/// The first place at or after `t` where the needle stands in `h`.
pub open spec fn occurrence_from(needle: Seq<u8>, ignore_case: bool, h: Seq<u8>, t: int) -> Option<
    int,
>
    decreases h.len() - t,
{
    if t < 0 || t + needle.len() > h.len() {
        None
    } else if occurs(needle, ignore_case, h, t) {
        Some(t)
    } else {
        occurrence_from(needle, ignore_case, h, t + 1)
    }
}

/// Whether every byte of `h` is ASCII.
pub open spec fn all_ascii(h: Seq<u8>) -> bool {
    forall|j: int| 0 <= j < h.len() ==> h[j] < 0x80
}

/// What the searcher for ASCII haystacks finds: the first place where the
/// pattern stands, or, for an anchored matcher, the start if it stands there.
pub open spec fn find_ascii(m: MatcherModel, h: Seq<u8>) -> Option<(int, int, bool)> {
    let (needle, ignore_case) = m.ascii.unwrap();
    match occurrence_from(needle, ignore_case, h, 0) {
        Some(s) => if m.starts_with && s != 0 {
            None
        } else {
            Some((s, s + needle.len(), false))
        },
        None => None,
    }
}

/// What the general algorithm finds: for an anchored matcher the match at
/// the start, otherwise the leftmost match.
pub open spec fn find_general(m: MatcherModel, h: Seq<u8>) -> Option<(int, int, bool)> {
    if m.starts_with {
        if too_short(m, h) {
            None
        } else {
            test_general(m, h)
        }
    } else {
        find_from(m, h, 0)
    }
}

/// The result of `find`: start, end and the partial flag.
///
/// - An empty pattern matches the empty span at the start.
/// - An ASCII haystack is handed to the searcher for ASCII, where there is
///   one.
/// - Otherwise the general algorithm runs.
pub open spec fn find_spec(m: MatcherModel, h: Seq<u8>) -> Option<(int, int, bool)> {
    if m.pattern.len() == 0 {
        Some((0, 0, false))
    } else if all_ascii(h) && m.ascii is Some {
        find_ascii(m, h)
    } else {
        find_general(m, h)
    }
}

/// The result of `test`: the match anchored at the start of `h`.
pub open spec fn test_spec(m: MatcherModel, h: Seq<u8>) -> Option<(int, int, bool)> {
    if too_short(m, h) {
        None
    } else if m.pattern.len() == 0 {
        Some((0, 0, false))
    } else if all_ascii(h) && m.ascii is Some {
        let (needle, ignore_case) = m.ascii.unwrap();
        if occurs(needle, ignore_case, h, 0) {
            Some((0, needle.len() as int, false))
        } else {
            None
        }
    } else {
        test_general(m, h)
    }
}

} // verus!
