//! What holds of every match, proved from the matcher's model.
use crate::matcher::analyze::{
    lemma_pinyin_lower, lemma_pinyin_lower_range, pinyin_hit, pinyin_lower, pinyin_partial_hit,
};
use crate::matcher::ascii::occurs;
use crate::matcher::model::{
    all_ascii, effective, ends_in_n, find_ascii, find_from, find_general, find_spec, has_readings,
    lower, min_len_from, model_wf, next_lang, notations_of, occurrence_from, pattern_text,
    pinyin_fallback, pinyin_from, pinyin_prefix, reading, romaji_from, sub_test, test_general,
    test_spec, too_short, usable, LangState, MatcherModel, ReadingKind,
};
use crate::pinyin::data::{form_of, is_form, EntryModel, PinyinData};
use crate::romaji::romanizer::candidates;
use crate::unicode::str::{char_at, char_len_at, lemma_char_at_boundary, on_boundary};
use vstd::prelude::*;
use vstd::utf8::*;

verus! {

/// Whether the matcher can report a partial pattern at all.
pub open spec fn partial_possible(m: MatcherModel) -> bool {
    (m.pinyin is Some && m.pinyin.unwrap().partial) || (m.romaji is Some && (
    m.romaji.unwrap().partial_kana || m.romaji.unwrap().partial_word))
}

/// What holds of a match of the pattern from index `p` that starts at
/// `pos`: it ends behind `pos`, inside `h`, on a code-point boundary; it
/// takes at least `lower(m, p)` bytes, where the lower-cased pattern is as
/// long as the pattern; and it is partial only where the matcher allows
/// partial patterns.
pub open spec fn good(m: MatcherModel, h: Seq<u8>, p: int, pos: int, r: Option<(int, bool)>) -> bool {
    r matches Some((e, partial)) ==> {
        &&& pos < e <= h.len()
        &&& on_boundary(h, e)
        &&& (m.pattern_lower.len() == m.pattern.len() ==> e - pos >= lower(m, p))
        &&& (partial ==> partial_possible(m))
    }
}

/// What holds of a match that follows from a reading which stands for the
/// haystack from `pos` up to `next`.
pub open spec fn good_after(
    m: MatcherModel,
    h: Seq<u8>,
    p: int,
    pos: int,
    next: int,
    r: Option<(int, bool)>,
) -> bool {
    r matches Some((e, partial)) ==> {
        &&& next <= e <= h.len()
        &&& on_boundary(h, e)
        &&& (m.pattern_lower.len() == m.pattern.len() ==> e - pos >= lower(m, p))
        &&& (partial ==> partial_possible(m))
    }
}

/// Whether `entry` is a reading of some character of the dictionary.
pub open spec fn is_entry(d: PinyinData, entry: EntryModel) -> bool {
    exists|c: char, e: int| 0 <= e < d.readings(c).len() && #[trigger] d.readings(c)[e] == entry
}

/// One character that stands for itself takes one byte of the bound.
pub proof fn lemma_lower_step(m: MatcherModel, p: int)
    requires
        0 <= p < m.pattern.len(),
        m.pattern_lower.len() == m.pattern.len(),
    ensures
        lower(m, p) <= 1 + lower(m, p + 1),
        0 <= lower(m, p + 1),
{
    if m.romaji is None && m.pinyin is Some {
        let pm = m.pinyin.unwrap();
        let ns = notations_of(pm);
        let text = pattern_text(m, ReadingKind::Pinyin);
        if p + 1 <= text.len() {
            lemma_pinyin_lower_range(pm.data, ns, pm.partial, text, p + 1);
            lemma_pinyin_lower(pm.data, ns, pm.partial, text, p);
            let v = 1 + pinyin_lower(pm.data, ns, pm.partial, text, p + 1);
            assert(crate::matcher::analyze::is_way(pm.data, ns, pm.partial, text, p, v));
        }
    }
}

/// The bound lies between the plain bound and one byte for each character.
pub proof fn lemma_lower_range(m: MatcherModel, p: int)
    requires
        0 <= p <= m.pattern.len(),
        m.pattern_lower.len() == m.pattern.len(),
    ensures
        min_len_from(m, p) <= lower(m, p) <= m.pattern.len() - p,
{
    if m.romaji is None && m.pinyin is Some {
        let pm = m.pinyin.unwrap();
        let text = pattern_text(m, ReadingKind::Pinyin);
        lemma_pinyin_lower_range(pm.data, notations_of(pm), pm.partial, text, p);
    }
}

/// A code point that is not ASCII takes at least two bytes.
pub proof fn lemma_wide(h: Seq<u8>, pos: int)
    requires
        valid_utf8(h),
        on_boundary(h, pos),
        pos < h.len(),
        (char_at(h, pos) as u32) >= 0x80,
    ensures
        char_len_at(h, pos) >= 2,
{
    lemma_char_at_boundary(h, pos);
}

/// Every match of `sub_test` is good.
pub proof fn lemma_sub_test(
    m: MatcherModel,
    h: Seq<u8>,
    p: int,
    pos: int,
    lang: LangState,
    after_n: bool,
)
    requires
        valid_utf8(h),
        on_boundary(h, pos),
    ensures
        good(m, h, p, pos, sub_test(m, h, p, pos, lang, after_n)),
    decreases h.len() - pos, 5int, 0int,
{
    if p < 0 || p >= m.pattern.len() || pos < 0 || pos >= h.len() {
    } else {
        lemma_char_at_boundary(h, pos);
        let c = char_at(h, pos);
        let n = pos + char_len_at(h, pos);
        if m.pattern_lower.len() == m.pattern.len() {
            lemma_lower_step(m, p);
        }
        lemma_sub_test(m, h, p + 1, n, lang, false);
        if (c as u32) >= 0x80 {
            lemma_wide(h, pos);
            lemma_romaji_from(m, h, p, pos, lang, after_n, 0);
            lemma_pinyin_from(m, h, p, pos, lang, 0);
        }
    }
}

/// Every match that a romaji candidate leads to is good.
pub proof fn lemma_romaji_from(
    m: MatcherModel,
    h: Seq<u8>,
    p: int,
    pos: int,
    lang: LangState,
    after_n: bool,
    k: int,
)
    requires
        valid_utf8(h),
        on_boundary(h, pos),
        0 <= p < m.pattern.len(),
    ensures
        good(m, h, p, pos, romaji_from(m, h, p, pos, lang, after_n, k)),
    decreases h.len() - pos, 4int, candidates(m.romaji.unwrap().romanizer, h, pos).len() - k,
{
    if m.romaji is None || lang is Pinyin || pos < 0 || pos >= h.len() {
    } else {
        let cands = candidates(m.romaji.unwrap().romanizer, h, pos);
        if k < 0 || k >= cands.len() {
        } else {
            let len = cands[k].0;
            if usable(h, pos, len) {
                lemma_reading(
                    m,
                    h,
                    p,
                    pos,
                    pos + len,
                    cands[k].1,
                    ReadingKind::Romaji,
                    lang,
                    after_n,
                );
            }
            lemma_romaji_from(m, h, p, pos, lang, after_n, k + 1);
        }
    }
}

/// Every match that a pinyin entry leads to is good.
pub proof fn lemma_pinyin_from(
    m: MatcherModel,
    h: Seq<u8>,
    p: int,
    pos: int,
    lang: LangState,
    e: int,
)
    requires
        valid_utf8(h),
        on_boundary(h, pos),
        0 <= p < m.pattern.len(),
        pos < h.len() ==> char_len_at(h, pos) >= 2,
    ensures
        good(m, h, p, pos, pinyin_from(m, h, p, pos, lang, e)),
    decreases h.len() - pos, 4int, m.pinyin.unwrap().data.readings(char_at(h, pos)).len() - e,
{
    if m.pinyin is None || lang is Romaji || pos < 0 || pos >= h.len() || !usable(
        h,
        pos,
        char_len_at(h, pos),
    ) {
    } else {
        let entries = m.pinyin.unwrap().data.readings(char_at(h, pos));
        if e < 0 || e >= entries.len() {
        } else {
            assert(is_entry(m.pinyin.unwrap().data, entries[e]));
            lemma_pinyin_prefix(m, h, p, pos, lang, entries[e], 0);
            lemma_pinyin_fallback(m, h, p, pos, lang, entries[e], 0);
            lemma_pinyin_from(m, h, p, pos, lang, e + 1);
        }
    }
}

/// The text of a reading of the dictionary in one of the matcher's
/// notations is a form of the dictionary.
pub proof fn lemma_is_form(m: MatcherModel, entry: EntryModel, k: int)
    requires
        m.pinyin is Some,
        is_entry(m.pinyin.unwrap().data, entry),
        0 <= k < notations_of(m.pinyin.unwrap()).len(),
        form_of(m.pinyin.unwrap().data.inited(), entry, notations_of(m.pinyin.unwrap())[k]) is Some,
    ensures
        is_form(
            m.pinyin.unwrap().data,
            notations_of(m.pinyin.unwrap()),
            form_of(
                m.pinyin.unwrap().data.inited(),
                entry,
                notations_of(m.pinyin.unwrap())[k],
            ).unwrap(),
        ),
{
    let d = m.pinyin.unwrap().data;
    let ns = notations_of(m.pinyin.unwrap());
    let (c, e) = choose|c: char, e: int|
        0 <= e < d.readings(c).len() && #[trigger] d.readings(c)[e] == entry;
    assert(form_of(d.inited(), d.readings(c)[e], ns[k]) == form_of(d.inited(), entry, ns[k]));
}

/// Every match that a notation of the prefix group leads to is good.
pub proof fn lemma_pinyin_prefix(
    m: MatcherModel,
    h: Seq<u8>,
    p: int,
    pos: int,
    lang: LangState,
    entry: EntryModel,
    k: int,
)
    requires
        valid_utf8(h),
        on_boundary(h, pos),
        0 <= p < m.pattern.len(),
        pos < h.len() ==> char_len_at(h, pos) >= 2,
        m.pinyin is Some ==> is_entry(m.pinyin.unwrap().data, entry),
    ensures
        good(m, h, p, pos, pinyin_prefix(m, h, p, pos, lang, entry, k)),
    decreases h.len() - pos, 3int, m.pinyin.unwrap().prefix_group.len() - k,
{
    if m.pinyin is None || pos < 0 || pos >= h.len() || !usable(h, pos, char_len_at(h, pos)) {
    } else {
        let pm = m.pinyin.unwrap();
        if k < 0 || k >= pm.prefix_group.len() {
        } else {
            match form_of(pm.data.inited(), entry, pm.prefix_group[k]) {
                None => {},
                Some(py) => {
                    assert(notations_of(pm)[k] == pm.prefix_group[k]);
                    lemma_is_form(m, entry, k);
                    lemma_reading(
                        m,
                        h,
                        p,
                        pos,
                        pos + char_len_at(h, pos),
                        py,
                        ReadingKind::Pinyin,
                        lang,
                        false,
                    );
                },
            }
            lemma_pinyin_prefix(m, h, p, pos, lang, entry, k + 1);
        }
    }
}

/// Every match that a notation outside the prefix group leads to is good.
pub proof fn lemma_pinyin_fallback(
    m: MatcherModel,
    h: Seq<u8>,
    p: int,
    pos: int,
    lang: LangState,
    entry: EntryModel,
    k: int,
)
    requires
        valid_utf8(h),
        on_boundary(h, pos),
        0 <= p < m.pattern.len(),
        pos < h.len() ==> char_len_at(h, pos) >= 2,
        m.pinyin is Some ==> is_entry(m.pinyin.unwrap().data, entry),
    ensures
        good(m, h, p, pos, pinyin_fallback(m, h, p, pos, lang, entry, k)),
    decreases h.len() - pos, 3int, m.pinyin.unwrap().fallback.len() - k,
{
    if m.pinyin is None || pos < 0 || pos >= h.len() || !usable(h, pos, char_len_at(h, pos)) {
    } else {
        let pm = m.pinyin.unwrap();
        if k < 0 || k >= pm.fallback.len() {
        } else {
            match form_of(pm.data.inited(), entry, pm.fallback[k]) {
                None => {},
                Some(py) => {
                    assert(notations_of(pm)[pm.prefix_group.len() + k] == pm.fallback[k]);
                    lemma_is_form(m, entry, pm.prefix_group.len() + k);
                    lemma_reading(
                        m,
                        h,
                        p,
                        pos,
                        pos + char_len_at(h, pos),
                        py,
                        ReadingKind::Pinyin,
                        lang,
                        false,
                    );
                },
            }
            lemma_pinyin_fallback(m, h, p, pos, lang, entry, k + 1);
        }
    }
}

/// A reading that does not match the pattern text leads to no match.
pub proof fn lemma_reading_miss(
    m: MatcherModel,
    h: Seq<u8>,
    p: int,
    next: int,
    py: Seq<char>,
    kind: ReadingKind,
    lang: LangState,
    after_n: bool,
)
    ensures
        !reading(m, h, p, next, py, kind, lang, after_n).0 ==> reading(
            m,
            h,
            p,
            next,
            py,
            kind,
            lang,
            after_n,
        ).1 is None,
{
}

/// Every match that follows from a reading which stands for the haystack
/// from `pos` up to `next` is good: a pinyin of the dictionary stands for
/// at least two bytes, a romaji for at least one.
pub proof fn lemma_reading(
    m: MatcherModel,
    h: Seq<u8>,
    p: int,
    pos: int,
    next: int,
    py: Seq<char>,
    kind: ReadingKind,
    lang: LangState,
    after_n: bool,
)
    requires
        valid_utf8(h),
        on_boundary(h, next),
        0 <= pos < next,
        match kind {
            ReadingKind::Pinyin => m.pinyin is Some && next - pos >= 2 && is_form(
                m.pinyin.unwrap().data,
                notations_of(m.pinyin.unwrap()),
                py,
            ),
            ReadingKind::Romaji => m.romaji is Some,
        },
    ensures
        good_after(m, h, p, pos, next, reading(m, h, p, next, py, kind, lang, after_n).1),
    decreases h.len() - next, 9int, 0int,
{
    let text = pattern_text(m, kind);
    let eff = effective(kind, after_n, py);
    let rest = m.pattern.len() - p;
    if p < 0 || rest <= 0 || text.len() != m.pattern.len() || next < 0 || next > h.len() {
    } else {
        if rest > eff.len() {
            lemma_sub_test(m, h, p + eff.len(), next, next_lang(m, kind, lang), ends_in_n(kind, eff));
        }
        if m.romaji is None && kind is Pinyin {
            let pm = m.pinyin.unwrap();
            let ns = notations_of(pm);
            lemma_pinyin_lower(pm.data, ns, pm.partial, text, p);
            if rest < py.len() {
                if pm.partial && text.skip(p) == py.take(rest) {
                    assert(pinyin_partial_hit(pm.data, ns, text, p));
                }
            } else if text.subrange(p, p + py.len()) == py && py.len() >= 1 {
                assert(pinyin_hit(pm.data, ns, text, p, py.len() as int));
                let v = 2 + pinyin_lower(pm.data, ns, pm.partial, text, p + py.len());
                assert(crate::matcher::analyze::is_way(pm.data, ns, pm.partial, text, p, v));
            }
        }
    }
}

} // verus!

verus! {

/// `occurrence_from` is the first place at or after `t` where the needle
/// stands.
pub proof fn lemma_occurrence_from(needle: Seq<u8>, ignore_case: bool, h: Seq<u8>, t: int)
    requires
        0 <= t,
    ensures
        match occurrence_from(needle, ignore_case, h, t) {
            Some(s) => t <= s && occurs(needle, ignore_case, h, s) && forall|u: int|
                t <= u < s ==> !occurs(needle, ignore_case, h, u),
            None => forall|u: int| t <= u ==> !occurs(needle, ignore_case, h, u),
        },
    decreases h.len() - t,
{
    if t + needle.len() > h.len() {
    } else if occurs(needle, ignore_case, h, t) {
    } else {
        lemma_occurrence_from(needle, ignore_case, h, t + 1);
    }
}

/// In an ASCII haystack every offset up to the length is a code-point
/// boundary.
pub proof fn lemma_ascii_boundaries(h: Seq<u8>, i: int)
    requires
        valid_utf8(h),
        all_ascii(h),
        0 <= i <= h.len(),
    ensures
        on_boundary(h, i),
{
    is_char_boundary_start_end_of_seq(h);
    if i < h.len() {
        is_char_boundary_iff_not_is_continuation_byte(h, i);
    }
}

/// What `find_from` returns is a match of the whole pattern that starts at
/// a boundary at or after `i`, where the haystack is not too short.
pub proof fn lemma_find_from(m: MatcherModel, h: Seq<u8>, i: int)
    requires
        valid_utf8(h),
        on_boundary(h, i),
    ensures
        find_from(m, h, i) matches Some((s, e, partial)) ==> {
            &&& i <= s < h.len()
            &&& on_boundary(h, s)
            &&& h.len() - s >= m.min_haystack_len
            &&& sub_test(m, h, 0, s, LangState::Any, false) == Some((e, partial))
            &&& good(m, h, 0, s, Some((e, partial)))
        },
    decreases h.len() - i,
{
    if i < 0 || i >= h.len() || h.len() - i < m.min_haystack_len {
    } else {
        lemma_sub_test(m, h, 0, i, LangState::Any, false);
        lemma_char_at_boundary(h, i);
        if sub_test(m, h, 0, i, LangState::Any, false) is None {
            lemma_find_from(m, h, i + char_len_at(h, i));
        }
    }
}

} // verus!

verus! {

/// Every match that `find` returns lies inside the haystack, with start and
/// end on code-point boundaries and the start not behind the end.
pub proof fn lemma_find_on_boundaries(m: MatcherModel, h: Seq<u8>)
    requires
        model_wf(m),
        valid_utf8(h),
    ensures
        find_spec(m, h) matches Some((s, e, _)) ==> 0 <= s <= e <= h.len() && on_boundary(h, s)
            && on_boundary(h, e),
{
    is_char_boundary_start_end_of_seq(h);
    if m.pattern.len() == 0 {
    } else if all_ascii(h) && m.ascii is Some {
        let (needle, ignore_case) = m.ascii.unwrap();
        lemma_occurrence_from(needle, ignore_case, h, 0);
        match occurrence_from(needle, ignore_case, h, 0) {
            Some(s) => {
                lemma_ascii_boundaries(h, s);
                lemma_ascii_boundaries(h, s + needle.len());
            },
            None => {},
        }
    } else if m.starts_with {
        lemma_sub_test(m, h, 0, 0, LangState::Any, false);
    } else {
        lemma_find_from(m, h, 0);
    }
}

/// A match is reported as partial only by a matcher that allows partial
/// patterns.
pub proof fn lemma_partial_only_where_allowed(m: MatcherModel, h: Seq<u8>)
    requires
        model_wf(m),
        valid_utf8(h),
    ensures
        find_spec(m, h) matches Some((_, _, partial)) ==> (partial ==> partial_possible(m)),
        test_spec(m, h) matches Some((_, _, partial)) ==> (partial ==> partial_possible(m)),
{
    is_char_boundary_start_end_of_seq(h);
    lemma_sub_test(m, h, 0, 0, LangState::Any, false);
    lemma_find_from(m, h, 0);
}

/// The empty pattern matches the empty span at the start of every haystack,
/// the empty haystack too.
pub proof fn lemma_empty_pattern(m: MatcherModel, h: Seq<u8>)
    requires
        model_wf(m),
        m.pattern.len() == 0,
    ensures
        find_spec(m, h) == Some((0int, 0int, false)),
        test_spec(m, h) == Some((0int, 0int, false)),
        !too_short(m, h),
{
}

/// A match of `test` starts at offset 0.
pub proof fn lemma_test_starts_at_zero(m: MatcherModel, h: Seq<u8>)
    ensures
        test_spec(m, h) matches Some((s, _, _)) ==> s == 0,
{
}

/// Where the pattern matches from the boundary `i`, the rest of the
/// haystack is not shorter than `min_haystack_len`: ending the search where
/// the rest is too short loses no match.
pub proof fn lemma_min_len_loses_no_match(m: MatcherModel, h: Seq<u8>, i: int)
    requires
        model_wf(m),
        valid_utf8(h),
        on_boundary(h, i),
    ensures
        sub_test(m, h, 0, i, LangState::Any, false) is Some ==> h.len() - i
            >= m.min_haystack_len,
{
    lemma_sub_test(m, h, 0, i, LangState::Any, false);
}

/// A haystack that is too short has no match, and so every haystack with a
/// match has at least `min_haystack_len` bytes.
pub proof fn lemma_too_short_never_matches(m: MatcherModel, h: Seq<u8>)
    requires
        model_wf(m),
        valid_utf8(h),
    ensures
        too_short(m, h) ==> find_spec(m, h) is None && test_spec(m, h) is None,
        find_spec(m, h) is Some ==> m.min_haystack_len <= h.len(),
        test_spec(m, h) is Some ==> m.min_haystack_len <= h.len(),
{
    lemma_lower_range(m, 0);
    if m.pattern.len() > 0 && all_ascii(h) && m.ascii is Some {
        let (needle, ignore_case) = m.ascii.unwrap();
        lemma_occurrence_from(needle, ignore_case, h, 0);
    }
}

} // verus!

verus! {

/// Whether `eff` is a reading, as it must be typed, of the unit of `h`
/// from `q` to `e`: a pinyin of the character there in some notation, or a
/// candidate of the romaniser there.
pub open spec fn reads_as(
    m: MatcherModel,
    h: Seq<u8>,
    q: int,
    e: int,
    kind: ReadingKind,
    eff: Seq<char>,
) -> bool {
    match kind {
        ReadingKind::Pinyin => m.pinyin is Some && e == q + char_len_at(h, q) && exists|
            i: int,
            k: int,
        |
            0 <= i < m.pinyin.unwrap().data.readings(char_at(h, q)).len() && #[trigger] form_of(
                m.pinyin.unwrap().data.inited(),
                m.pinyin.unwrap().data.readings(char_at(h, q))[i],
                k,
            ) == Some(eff),
        ReadingKind::Romaji => m.romaji is Some && exists|k: int, after_n: bool|
            0 <= k < candidates(m.romaji.unwrap().romanizer, h, q).len() && e == q + candidates(
                m.romaji.unwrap().romanizer,
                h,
                q,
            )[k].0 && eff == #[trigger] effective(
                kind,
                after_n,
                candidates(m.romaji.unwrap().romanizer, h, q)[k].1,
            ),
    }
}

/// Whether the pattern from `p` on is the beginning of the longer reading
/// `eff`, and the matcher lets a pattern end there.
pub open spec fn tail_in(m: MatcherModel, p: int, kind: ReadingKind, eff: Seq<char>) -> bool {
    let rest = m.pattern.len() - p;
    &&& 0 <= p < m.pattern.len()
    &&& rest < eff.len()
    &&& crate::matcher::model::partial_allowed(m, kind, eff, rest)
    &&& crate::matcher::model::agrees(kind, pattern_text(m, kind).skip(p), eff.take(rest))
}

/// Whether a match that ends at `e` ends inside one reading: the last unit
/// of the haystack that it covers has a reading that the rest of the
/// pattern only begins.
pub open spec fn ends_inside(m: MatcherModel, h: Seq<u8>, e: int) -> bool {
    exists|q: int, p: int, kind: ReadingKind, eff: Seq<char>|
        #![trigger reads_as(m, h, q, e, kind, eff), tail_in(m, p, kind, eff)]
        reads_as(m, h, q, e, kind, eff) && tail_in(m, p, kind, eff)
}

/// What holds of a match that is reported as partial.
pub open spec fn inside(m: MatcherModel, h: Seq<u8>, r: Option<(int, bool)>) -> bool {
    r matches Some((e, partial)) ==> (partial ==> ends_inside(m, h, e))
}

/// A partial match of `sub_test` ends inside one reading.
pub proof fn lemma_inside_sub_test(
    m: MatcherModel,
    h: Seq<u8>,
    p: int,
    pos: int,
    lang: LangState,
    after_n: bool,
)
    ensures
        inside(m, h, sub_test(m, h, p, pos, lang, after_n)),
    decreases h.len() - pos, 5int, 0int,
{
    if p < 0 || p >= m.pattern.len() || pos < 0 || pos >= h.len() {
    } else {
        let n = pos + char_len_at(h, pos);
        if n > h.len() || n <= pos {
        } else {
            lemma_inside_sub_test(m, h, p + 1, n, lang, false);
            lemma_inside_romaji_from(m, h, p, pos, lang, after_n, 0);
            lemma_inside_pinyin_from(m, h, p, pos, lang, 0);
        }
    }
}

/// A partial match that a romaji candidate leads to ends inside one
/// reading.
pub proof fn lemma_inside_romaji_from(
    m: MatcherModel,
    h: Seq<u8>,
    p: int,
    pos: int,
    lang: LangState,
    after_n: bool,
    k: int,
)
    ensures
        inside(m, h, romaji_from(m, h, p, pos, lang, after_n, k)),
    decreases h.len() - pos, 4int, candidates(m.romaji.unwrap().romanizer, h, pos).len() - k,
{
    if m.romaji is None || lang is Pinyin || pos < 0 || pos >= h.len() {
    } else {
        let cands = candidates(m.romaji.unwrap().romanizer, h, pos);
        if k < 0 || k >= cands.len() {
        } else {
            let len = cands[k].0;
            if usable(h, pos, len) {
                assert(reads_as(
                    m,
                    h,
                    pos,
                    pos + len,
                    ReadingKind::Romaji,
                    effective(ReadingKind::Romaji, after_n, cands[k].1),
                ));
                lemma_inside_reading(
                    m,
                    h,
                    p,
                    pos,
                    pos + len,
                    cands[k].1,
                    ReadingKind::Romaji,
                    lang,
                    after_n,
                );
            }
            lemma_inside_romaji_from(m, h, p, pos, lang, after_n, k + 1);
        }
    }
}

/// A partial match that a pinyin entry leads to ends inside one reading.
pub proof fn lemma_inside_pinyin_from(
    m: MatcherModel,
    h: Seq<u8>,
    p: int,
    pos: int,
    lang: LangState,
    e: int,
)
    ensures
        inside(m, h, pinyin_from(m, h, p, pos, lang, e)),
    decreases h.len() - pos, 4int, m.pinyin.unwrap().data.readings(char_at(h, pos)).len() - e,
{
    if m.pinyin is None || lang is Romaji || pos < 0 || pos >= h.len() || !usable(
        h,
        pos,
        char_len_at(h, pos),
    ) {
    } else {
        let entries = m.pinyin.unwrap().data.readings(char_at(h, pos));
        if e < 0 || e >= entries.len() {
        } else {
            lemma_inside_pinyin_prefix(m, h, p, pos, lang, e, 0);
            lemma_inside_pinyin_fallback(m, h, p, pos, lang, e, 0);
            lemma_inside_pinyin_from(m, h, p, pos, lang, e + 1);
        }
    }
}

/// A partial match that a notation of the prefix group leads to ends
/// inside one reading.
pub proof fn lemma_inside_pinyin_prefix(
    m: MatcherModel,
    h: Seq<u8>,
    p: int,
    pos: int,
    lang: LangState,
    i: int,
    k: int,
)
    requires
        m.pinyin is Some,
        0 <= i < m.pinyin.unwrap().data.readings(char_at(h, pos)).len(),
    ensures
        inside(
            m,
            h,
            pinyin_prefix(
                m,
                h,
                p,
                pos,
                lang,
                m.pinyin.unwrap().data.readings(char_at(h, pos))[i],
                k,
            ),
        ),
    decreases h.len() - pos, 3int, m.pinyin.unwrap().prefix_group.len() - k,
{
    let pm = m.pinyin.unwrap();
    let entry = pm.data.readings(char_at(h, pos))[i];
    if pos < 0 || pos >= h.len() || !usable(h, pos, char_len_at(h, pos)) {
    } else if k < 0 || k >= pm.prefix_group.len() {
    } else {
        match form_of(pm.data.inited(), entry, pm.prefix_group[k]) {
            None => {},
            Some(py) => {
                assert(reads_as(m, h, pos, pos + char_len_at(h, pos), ReadingKind::Pinyin, py));
                lemma_inside_reading(
                    m,
                    h,
                    p,
                    pos,
                    pos + char_len_at(h, pos),
                    py,
                    ReadingKind::Pinyin,
                    lang,
                    false,
                );
            },
        }
        lemma_inside_pinyin_prefix(m, h, p, pos, lang, i, k + 1);
    }
}

/// A partial match that a notation outside the prefix group leads to ends
/// inside one reading.
pub proof fn lemma_inside_pinyin_fallback(
    m: MatcherModel,
    h: Seq<u8>,
    p: int,
    pos: int,
    lang: LangState,
    i: int,
    k: int,
)
    requires
        m.pinyin is Some,
        0 <= i < m.pinyin.unwrap().data.readings(char_at(h, pos)).len(),
    ensures
        inside(
            m,
            h,
            pinyin_fallback(
                m,
                h,
                p,
                pos,
                lang,
                m.pinyin.unwrap().data.readings(char_at(h, pos))[i],
                k,
            ),
        ),
    decreases h.len() - pos, 3int, m.pinyin.unwrap().fallback.len() - k,
{
    let pm = m.pinyin.unwrap();
    let entry = pm.data.readings(char_at(h, pos))[i];
    if pos < 0 || pos >= h.len() || !usable(h, pos, char_len_at(h, pos)) {
    } else if k < 0 || k >= pm.fallback.len() {
    } else {
        match form_of(pm.data.inited(), entry, pm.fallback[k]) {
            None => {},
            Some(py) => {
                assert(reads_as(m, h, pos, pos + char_len_at(h, pos), ReadingKind::Pinyin, py));
                lemma_inside_reading(
                    m,
                    h,
                    p,
                    pos,
                    pos + char_len_at(h, pos),
                    py,
                    ReadingKind::Pinyin,
                    lang,
                    false,
                );
            },
        }
        lemma_inside_pinyin_fallback(m, h, p, pos, lang, i, k + 1);
    }
}

/// A partial match that follows from a reading ends inside one reading:
/// inside this one, where the pattern ends in it, or inside a later one.
pub proof fn lemma_inside_reading(
    m: MatcherModel,
    h: Seq<u8>,
    p: int,
    q: int,
    next: int,
    py: Seq<char>,
    kind: ReadingKind,
    lang: LangState,
    after_n: bool,
)
    requires
        reads_as(m, h, q, next, kind, effective(kind, after_n, py)),
    ensures
        inside(m, h, reading(m, h, p, next, py, kind, lang, after_n).1),
    decreases h.len() - next, 9int, 0int,
{
    let text = pattern_text(m, kind);
    let eff = effective(kind, after_n, py);
    let rest = m.pattern.len() - p;
    if p < 0 || rest <= 0 || text.len() != m.pattern.len() || next < 0 || next > h.len() {
    } else if rest < eff.len() {
        if crate::matcher::model::partial_allowed(m, kind, eff, rest)
            && crate::matcher::model::agrees(kind, text.skip(p), eff.take(rest)) {
            assert(tail_in(m, p, kind, eff));
        }
    } else if rest > eff.len() {
        lemma_inside_sub_test(m, h, p + eff.len(), next, next_lang(m, kind, lang), ends_in_n(kind, eff));
    }
}

/// A match that `find` or `test` reports as partial ends inside one
/// reading: the last character, kana or word that it covers has a reading
/// of which the rest of the pattern is only the beginning. A match made of
/// characters that stand for themselves and of whole readings is not
/// partial.
pub proof fn lemma_partial_ends_inside_a_reading(m: MatcherModel, h: Seq<u8>)
    requires
        model_wf(m),
        valid_utf8(h),
    ensures
        find_spec(m, h) matches Some((_, e, partial)) ==> (partial ==> ends_inside(m, h, e)),
        test_spec(m, h) matches Some((_, e, partial)) ==> (partial ==> ends_inside(m, h, e)),
{
    is_char_boundary_start_end_of_seq(h);
    lemma_inside_sub_test(m, h, 0, 0, LangState::Any, false);
    lemma_inside_find_from(m, h, 0);
    if m.pattern.len() > 0 && all_ascii(h) && m.ascii is Some {
        let (needle, ignore_case) = m.ascii.unwrap();
        lemma_occurrence_from(needle, ignore_case, h, 0);
    }
}

/// A partial match of `find_from` ends inside one reading.
pub proof fn lemma_inside_find_from(m: MatcherModel, h: Seq<u8>, i: int)
    requires
        valid_utf8(h),
        on_boundary(h, i),
    ensures
        find_from(m, h, i) matches Some((_, e, partial)) ==> (partial ==> ends_inside(m, h, e)),
    decreases h.len() - i,
{
    if i < 0 || i >= h.len() || h.len() - i < m.min_haystack_len {
    } else {
        lemma_inside_sub_test(m, h, 0, i, LangState::Any, false);
        lemma_char_at_boundary(h, i);
        if sub_test(m, h, 0, i, LangState::Any, false) is None {
            lemma_inside_find_from(m, h, i + char_len_at(h, i));
        }
    }
}

} // verus!

