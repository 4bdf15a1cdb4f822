//! Ending the prefix group at the first notation that does not match loses
//! no match.
//!
//! The notations of the prefix group are tried from the shortest to the
//! longest, and the text of each is a prefix of the text of the next. A
//! reading that does not match the pattern text cannot be the prefix of one
//! that does.
use crate::matcher::laws::lemma_reading_miss;
use crate::matcher::model::{
    model_wf, pinyin_prefix, prefix_group_ok, reading, usable, LangState, MatcherModel,
    ReadingKind,
};
use crate::pinyin::data::{derive_form, form_of, EntryModel};
use crate::unicode::str::{char_at, char_len_at, on_boundary};
use vstd::prelude::*;
use vstd::utf8::*;

verus! {

/// The prefix group tried from the `k`-th notation on without ending at a
/// notation that does not match.
pub open spec fn pinyin_prefix_all(
    m: MatcherModel,
    h: Seq<u8>,
    p: int,
    pos: int,
    lang: LangState,
    entry: EntryModel,
    k: int,
) -> Option<(int, bool)>
    decreases m.pinyin.unwrap().prefix_group.len() - k,
{
    if m.pinyin is None || pos < 0 || pos >= h.len() || !usable(h, pos, char_len_at(h, pos)) {
        None
    } else {
        let pm = m.pinyin.unwrap();
        if k < 0 || k >= pm.prefix_group.len() {
            None
        } else {
            match form_of(pm.data.inited(), entry, pm.prefix_group[k]) {
                None => pinyin_prefix_all(m, h, p, pos, lang, entry, k + 1),
                Some(py) => {
                    let r = reading(
                        m,
                        h,
                        p,
                        pos + char_len_at(h, pos),
                        py,
                        ReadingKind::Pinyin,
                        lang,
                        false,
                    );
                    match r.1 {
                        Some(x) => Some(x),
                        None => pinyin_prefix_all(m, h, p, pos, lang, entry, k + 1),
                    }
                },
            }
        }
    }
}

/// A pinyin that does not match the pattern text is the prefix of no pinyin
/// that matches it.
pub proof fn lemma_no_match_extends(
    m: MatcherModel,
    h: Seq<u8>,
    p: int,
    next: int,
    short: Seq<char>,
    long: Seq<char>,
    lang: LangState,
)
    requires
        short.is_prefix_of(long),
        !reading(m, h, p, next, short, ReadingKind::Pinyin, lang, false).0,
    ensures
        !reading(m, h, p, next, long, ReadingKind::Pinyin, lang, false).0,
{
    let text = crate::matcher::model::pattern_text(m, ReadingKind::Pinyin);
    let rest = m.pattern.len() - p;
    if p < 0 || rest <= 0 || text.len() != m.pattern.len() || next < 0 || next > h.len() {
    } else {
        assert(short =~= long.take(short.len() as int));
        if rest < long.len() {
            if text.skip(p) == long.take(rest) {
                if rest < short.len() {
                    assert(short.take(rest) =~= long.take(rest));
                } else {
                    assert(text.subrange(p, p + short.len()) =~= text.skip(p).take(
                        short.len() as int,
                    ));
                    assert(long.take(rest).take(short.len() as int) =~= short);
                }
            }
        } else {
            if text.subrange(p, p + long.len()) == long {
                assert(text.subrange(p, p + short.len()) =~= text.subrange(p, p + long.len()).take(
                    short.len() as int,
                ));
            }
        }
    }
}

/// Of the notations that are derived from the full pinyin, the text of one
/// with a lower index is a prefix of the text of one with a higher index.
pub proof fn lemma_forms_chain(entry: EntryModel, j: int, k: int)
    requires
        0 <= j <= k < 3,
        entry.ascii.len() >= 1,
    ensures
        derive_form(j, entry.ascii, entry.tone).unwrap().is_prefix_of(
            derive_form(k, entry.ascii, entry.tone).unwrap(),
        ),
{
    let a = entry.ascii;
    assert(a.take(1) =~= a.take(1).take(1));
    assert(a =~= a.take(a.len() as int));
    let t = a.push(crate::pinyin::data::tone_digit(entry.tone));
    assert(a.take(1) =~= t.take(1));
    assert(a =~= t.take(a.len() as int));
    assert(t =~= t.take(t.len() as int));
}

/// Behind a notation that did not match, no notation of the prefix group
/// leads to a match.
pub proof fn lemma_nothing_behind_a_miss(
    m: MatcherModel,
    h: Seq<u8>,
    p: int,
    pos: int,
    lang: LangState,
    entry: EntryModel,
    missed: int,
    k: int,
)
    requires
        valid_utf8(h),
        on_boundary(h, pos),
        m.pinyin is Some,
        prefix_group_ok(m.pinyin.unwrap().prefix_group),
        entry.ascii.len() >= 1,
        0 <= missed < k,
        missed < m.pinyin.unwrap().prefix_group.len(),
        form_of(m.pinyin.unwrap().data.inited(), entry, m.pinyin.unwrap().prefix_group[missed])
            is Some,
        !reading(
            m,
            h,
            p,
            pos + char_len_at(h, pos),
            form_of(
                m.pinyin.unwrap().data.inited(),
                entry,
                m.pinyin.unwrap().prefix_group[missed],
            ).unwrap(),
            ReadingKind::Pinyin,
            lang,
            false,
        ).0,
    ensures
        pinyin_prefix_all(m, h, p, pos, lang, entry, k) is None,
    decreases m.pinyin.unwrap().prefix_group.len() - k,
{
    let pm = m.pinyin.unwrap();
    let g = pm.prefix_group;
    if pos < 0 || pos >= h.len() || !usable(h, pos, char_len_at(h, pos)) || k >= g.len() {
    } else {
        let short = form_of(pm.data.inited(), entry, g[missed]).unwrap();
        match form_of(pm.data.inited(), entry, g[k]) {
            None => {},
            Some(py) => {
                assert(g[missed] < g[k]);
                lemma_forms_chain(entry, g[missed], g[k]);
                let next = pos + char_len_at(h, pos);
                lemma_no_match_extends(m, h, p, next, short, py, lang);
                lemma_reading_miss(m, h, p, next, py, ReadingKind::Pinyin, lang, false);
            },
        }
        lemma_nothing_behind_a_miss(m, h, p, pos, lang, entry, missed, k + 1);
    }
}

/// Where each notation of the prefix group is a prefix of the next, ending
/// the group at the first notation that does not match gives the match
/// that trying every notation of the group gives.
pub proof fn lemma_break_loses_no_match(
    m: MatcherModel,
    h: Seq<u8>,
    p: int,
    pos: int,
    lang: LangState,
    entry: EntryModel,
    k: int,
)
    requires
        valid_utf8(h),
        on_boundary(h, pos),
        m.pinyin is Some,
        prefix_group_ok(m.pinyin.unwrap().prefix_group),
        entry.ascii.len() >= 1,
        0 <= k,
    ensures
        pinyin_prefix(m, h, p, pos, lang, entry, k) == pinyin_prefix_all(
            m,
            h,
            p,
            pos,
            lang,
            entry,
            k,
        ),
    decreases m.pinyin.unwrap().prefix_group.len() - k,
{
    let pm = m.pinyin.unwrap();
    if pos < 0 || pos >= h.len() || !usable(h, pos, char_len_at(h, pos)) || k
        >= pm.prefix_group.len() {
    } else {
        match form_of(pm.data.inited(), entry, pm.prefix_group[k]) {
            None => {},
            Some(py) => {
                let next = pos + char_len_at(h, pos);
                let r = reading(m, h, p, next, py, ReadingKind::Pinyin, lang, false);
                lemma_reading_miss(m, h, p, next, py, ReadingKind::Pinyin, lang, false);
                if !r.0 {
                    lemma_nothing_behind_a_miss(m, h, p, pos, lang, entry, k, k + 1);
                }
            },
        }
        lemma_break_loses_no_match(m, h, p, pos, lang, entry, k + 1);
    }
}

} // verus!
