//! The compiled matcher.
use crate::matcher::ascii::{ac_clone, ac_find, ac_ignores_case, ac_needle};
use crate::matcher::config::{PinyinMatchConfig, RomajiMatchConfig};
use crate::matcher::laws::{lemma_find_from, lemma_occurrence_from, lemma_sub_test};
use crate::matcher::matches::Match;
use crate::matcher::model::{
    agrees, all_ascii, effective, ends_in_n, find_ascii, find_from, find_general, find_spec,
    kind_ignores_case, literal_eq, model_wf, next_lang, occurrence_from, partial_allowed,
    pattern_text, pinyin_fallback, pinyin_from, pinyin_prefix, reading, romaji_from, sub_test,
    test_at_spec, test_general, test_spec, too_short, usable, LangState, MatcherModel,
    PinyinModel,
    ReadingKind, RomajiModel,
};
use crate::pinyin::data::{entries_model, form_of, PinyinEntry};
use crate::romaji::convert::eq_ime_chars;
use crate::romaji::kana::{is_n_suffix, RomajiLexer};
use crate::romaji::romanizer::{candidates, candidates_view};
use crate::unicode::ascii::is_ascii_bytes;
use crate::unicode::case::to_mono_lowercase;
use crate::unicode::chars::{copy_chars, eq_range};
use crate::unicode::str::{char_at, char_len_at, lemma_char_at_boundary, next_char, on_boundary};
use aho_corasick::AhoCorasick;
use vstd::prelude::*;
use vstd::utf8::*;

verus! {

/// Pinyin matching inside a compiled matcher.
pub struct PinyinMatcher<'a> {
    pub config: PinyinMatchConfig<'a>,
    pub partial_pattern: bool,
    pub notations_prefix_group: Vec<usize>,
    pub notations: Vec<usize>,
}

/// Romaji matching inside a compiled matcher.
pub struct RomajiMatcher<'a> {
    pub config: RomajiMatchConfig<'a>,
    pub partial_word: bool,
    pub partial_kana: bool,
    pub lexer: RomajiLexer,
}

impl<'a> RomajiMatcher<'a> {
    /// Romaji matching under `config`: kana may be matched in part where
    /// partial patterns are asked for and the configuration allows them.
    pub fn new(config: RomajiMatchConfig<'a>, is_pattern_partial: bool) -> (r: Self)
        ensures
            r.config == config,
            r.partial_word == config.partial_word,
            r.partial_kana == (is_pattern_partial && config.allow_partial_pattern),
    {
        RomajiMatcher {
            config,
            partial_word: config.partial_word,
            partial_kana: is_pattern_partial && config.allow_partial_pattern,
            lexer: RomajiLexer::new(),
        }
    }
}

/// The indices as integers.
pub open spec fn indices(v: Seq<usize>) -> Seq<int> {
    v.map_values(|k: usize| k as int)
}

/// A match as integers.
pub open spec fn sub_view(r: Option<(usize, bool)>) -> Option<(int, bool)> {
    match r {
        Some((e, partial)) => Some((e as int, partial)),
        None => None,
    }
}

/// A match as integers.
pub open spec fn match_view(r: Option<Match>) -> Option<(int, int, bool)> {
    match r {
        Some(x) => Some((x.start_offset() as int, x.end_offset() as int, x.partial())),
        None => None,
    }
}

/// A matcher compiled from a pattern and a configuration.
pub struct IbMatcher<'a> {
    ascii: Option<AhoCorasick>,
    pattern: Vec<char>,
    pattern_lowercase: Vec<char>,
    min_haystack_len: usize,
    case_insensitive: bool,
    literal: bool,
    starts_with: bool,
    mix_lang: bool,
    pinyin: Option<PinyinMatcher<'a>>,
    romaji: Option<RomajiMatcher<'a>>,
}

impl<'a> IbMatcher<'a> {
    #[verifier::type_invariant]
    pub open spec fn inv(&self) -> bool {
        model_wf(self.model())
    }

    /// What the matcher was compiled to.
    pub closed spec fn model(&self) -> MatcherModel {
        MatcherModel {
            pattern: self.pattern@,
            pattern_lower: self.pattern_lowercase@,
            case_insensitive: self.case_insensitive,
            literal: self.literal,
            starts_with: self.starts_with,
            mix_lang: self.mix_lang,
            min_haystack_len: self.min_haystack_len as int,
            pinyin: match self.pinyin {
                Some(pm) => Some(
                    PinyinModel {
                        data: *pm.config.data,
                        case_insensitive: pm.config.case_insensitive,
                        partial: pm.partial_pattern,
                        prefix_group: indices(pm.notations_prefix_group@),
                        fallback: indices(pm.notations@),
                    },
                ),
                None => None,
            },
            romaji: match self.romaji {
                Some(rm) => Some(
                    RomajiModel {
                        romanizer: rm.config.romanizer.model(),
                        case_insensitive: rm.config.case_insensitive,
                        partial_word: rm.partial_word,
                        partial_kana: rm.partial_kana,
                    },
                ),
                None => None,
            },
            ascii: match self.ascii {
                Some(ac) => Some((ac_needle(ac), ac_ignores_case(ac))),
                None => None,
            },
        }
    }

    /// Whether a compiled matcher's invariant holds; it does of every
    /// matcher that `build` hands out.
    pub open spec fn wf(&self) -> bool {
        model_wf(self.model())
    }

    /// Puts a matcher together from its parts.
    pub(crate) fn assemble(
        ascii: Option<AhoCorasick>,
        pattern: Vec<char>,
        pattern_lowercase: Vec<char>,
        min_haystack_len: usize,
        case_insensitive: bool,
        literal: bool,
        starts_with: bool,
        mix_lang: bool,
        pinyin: Option<PinyinMatcher<'a>>,
        romaji: Option<RomajiMatcher<'a>>,
    ) -> (r: Self)
        requires
            model_wf(
                Self::model_of(
                    ascii,
                    pattern,
                    pattern_lowercase,
                    min_haystack_len,
                    case_insensitive,
                    literal,
                    starts_with,
                    mix_lang,
                    pinyin,
                    romaji,
                ),
            ),
        ensures
            r.model() == Self::model_of(
                ascii,
                pattern,
                pattern_lowercase,
                min_haystack_len,
                case_insensitive,
                literal,
                starts_with,
                mix_lang,
                pinyin,
                romaji,
            ),
    {
        IbMatcher {
            ascii,
            pattern,
            pattern_lowercase,
            min_haystack_len,
            case_insensitive,
            literal,
            starts_with,
            mix_lang,
            pinyin,
            romaji,
        }
    }

    /// The model of the matcher with the given parts.
    pub open spec fn model_of(
        ascii: Option<AhoCorasick>,
        pattern: Vec<char>,
        pattern_lowercase: Vec<char>,
        min_haystack_len: usize,
        case_insensitive: bool,
        literal: bool,
        starts_with: bool,
        mix_lang: bool,
        pinyin: Option<PinyinMatcher<'a>>,
        romaji: Option<RomajiMatcher<'a>>,
    ) -> MatcherModel {
        MatcherModel {
            pattern: pattern@,
            pattern_lower: pattern_lowercase@,
            case_insensitive,
            literal,
            starts_with,
            mix_lang,
            min_haystack_len: min_haystack_len as int,
            pinyin: match pinyin {
                Some(pm) => Some(
                    PinyinModel {
                        data: *pm.config.data,
                        case_insensitive: pm.config.case_insensitive,
                        partial: pm.partial_pattern,
                        prefix_group: indices(pm.notations_prefix_group@),
                        fallback: indices(pm.notations@),
                    },
                ),
                None => None,
            },
            romaji: match romaji {
                Some(rm) => Some(
                    RomajiModel {
                        romanizer: rm.config.romanizer.model(),
                        case_insensitive: rm.config.case_insensitive,
                        partial_word: rm.partial_word,
                        partial_kana: rm.partial_kana,
                    },
                ),
                None => None,
            },
            ascii: match ascii {
                Some(ac) => Some((ac_needle(ac), ac_ignores_case(ac))),
                None => None,
            },
        }
    }

    /// Whether `c` equals the pattern character at `p` under the case rule.
    fn lit_eq(&self, p: usize, c: char) -> (r: bool)
        requires
            p < self.model().pattern.len(),
        ensures
            r == literal_eq(self.model(), p as int, c),
    {
        proof {
            use_type_invariant(self);
        }
        if self.case_insensitive {
            to_mono_lowercase(c) == self.pattern_lowercase[p]
        } else {
            c == self.pattern[p]
        }
    }

    /// Whether the pattern may end after `typed_len` units of `eff`.
    fn partial_ok(&self, kind: ReadingKind, eff: &[char], typed_len: usize) -> (r: bool)
        ensures
            r == partial_allowed(self.model(), kind, eff@, typed_len as int),
    {
        match kind {
            ReadingKind::Pinyin => match &self.pinyin {
                Some(pm) => pm.partial_pattern,
                None => false,
            },
            ReadingKind::Romaji => match &self.romaji {
                Some(rm) => rm.partial_kana || (rm.partial_word && rm.lexer.is_kana_boundary(
                    eff,
                    typed_len,
                )),
                None => false,
            },
        }
    }

    /// The pattern text that readings of `kind` are compared with.
    fn text_of(&self, kind: ReadingKind) -> (r: &Vec<char>)
        ensures
            r@ == pattern_text(self.model(), kind),
            r@.len() == self.model().pattern.len(),
    {
        proof {
            use_type_invariant(self);
        }
        let ignore = match kind {
            ReadingKind::Pinyin => match &self.pinyin {
                Some(pm) => pm.config.case_insensitive,
                None => false,
            },
            ReadingKind::Romaji => match &self.romaji {
                Some(rm) => rm.config.case_insensitive,
                None => false,
            },
        };
        if ignore {
            &self.pattern_lowercase
        } else {
            &self.pattern
        }
    }

    /// Matches the pattern from index `p` against `h` from the boundary
    /// `pos`.
    fn sub_test(
        &self,
        hs: &str,
        h: &[u8],
        p: usize,
        pos: usize,
        lang: LangState,
        after_n: bool,
    ) -> (r: Option<(usize, bool)>)
        requires
            h@ == encode_utf8(hs@),
            on_boundary(h@, pos as int),
            p < self.model().pattern.len(),
        ensures
            sub_view(r) == sub_test(self.model(), h@, p as int, pos as int, lang, after_n),
        decreases h@.len() - pos, 5int, 0int,
    {
        proof {
            use_type_invariant(self);
            encode_utf8_valid_utf8(hs@);
        }
        if pos >= h.len() {
            return None;
        }
        let (c, clen) = next_char(h, pos);
        let n = pos + clen;
        if self.literal && self.lit_eq(p, c) {
            if p == self.pattern.len() - 1 {
                Some((n, false))
            } else {
                self.sub_test(hs, h, p + 1, n, lang, false)
            }
        } else if (c as u32) < 0x80 {
            None
        } else {
            match self.try_romaji(hs, h, p, pos, lang, after_n) {
                Some(r) => Some(r),
                None => self.try_pinyin(hs, h, p, pos, c, clen, lang),
            }
        }
    }

    /// Tries every romaji candidate at `pos`, in order.
    fn try_romaji(
        &self,
        hs: &str,
        h: &[u8],
        p: usize,
        pos: usize,
        lang: LangState,
        after_n: bool,
    ) -> (r: Option<(usize, bool)>)
        requires
            h@ == encode_utf8(hs@),
            on_boundary(h@, pos as int),
            pos < h@.len(),
            p < self.model().pattern.len(),
        ensures
            sub_view(r) == romaji_from(self.model(), h@, p as int, pos as int, lang, after_n, 0),
        decreases h@.len() - pos, 4int, 0int,
    {
        proof {
            use_type_invariant(self);
            encode_utf8_valid_utf8(hs@);
        }
        let ghost m = self.model();
        let rm = match &self.romaji {
            Some(rm) => rm,
            None => {
                return None;
            },
        };
        if lang == LangState::Pinyin {
            return None;
        }
        let cands = rm.config.romanizer.candidates_at(hs, pos);
        let mut k: usize = 0;
        while k < cands.len()
            invariant
                k <= cands@.len(),
                h@ == encode_utf8(hs@),
                valid_utf8(h@),
                on_boundary(h@, pos as int),
                pos < h@.len(),
                p < self.model().pattern.len(),
                m == self.model(),
                m.romaji is Some,
                !(lang is Pinyin),
                candidates_view(cands@) == candidates(m.romaji.unwrap().romanizer, h@, pos as int),
                romaji_from(m, h@, p as int, pos as int, lang, after_n, k as int) == romaji_from(
                    m,
                    h@,
                    p as int,
                    pos as int,
                    lang,
                    after_n,
                    0,
                ),
            decreases cands.len() - k,
        {
            let len = cands[k].0;
            let py = cands[k].1;
            assert(candidates_view(cands@)[k as int] == (len as int, py@));
            if len >= 1 && len <= h.len() - pos && is_boundary_at(h, pos + len) {
                let r = self.reading_py(
                    hs,
                    h,
                    p,
                    pos + len,
                    py.as_slice(),
                    ReadingKind::Romaji,
                    lang,
                    after_n,
                );
                match r.1 {
                    Some(x) => {
                        return Some(x);
                    },
                    None => {},
                }
            }
            k += 1;
        }
        None
    }

    /// Tries every pinyin entry of the character `c` at `pos`, in order.
    fn try_pinyin(
        &self,
        hs: &str,
        h: &[u8],
        p: usize,
        pos: usize,
        c: char,
        clen: usize,
        lang: LangState,
    ) -> (r: Option<(usize, bool)>)
        requires
            h@ == encode_utf8(hs@),
            on_boundary(h@, pos as int),
            pos < h@.len(),
            c == char_at(h@, pos as int),
            clen == char_len_at(h@, pos as int),
            p < self.model().pattern.len(),
        ensures
            sub_view(r) == pinyin_from(self.model(), h@, p as int, pos as int, lang, 0),
        decreases h@.len() - pos, 4int, 0int,
    {
        proof {
            use_type_invariant(self);
            encode_utf8_valid_utf8(hs@);
            lemma_char_at_boundary(h@, pos as int);
        }
        let ghost m = self.model();
        let pm = match &self.pinyin {
            Some(pm) => pm,
            None => {
                return None;
            },
        };
        if lang == LangState::Romaji {
            return None;
        }
        let entries = match pm.config.data.get_pinyins(c) {
            Some(v) => v,
            None => {
                return None;
            },
        };
        let mut e: usize = 0;
        while e < entries.len()
            invariant
                e <= entries@.len(),
                h@ == encode_utf8(hs@),
                valid_utf8(h@),
                on_boundary(h@, pos as int),
                pos < h@.len(),
                usable(h@, pos as int, char_len_at(h@, pos as int)),
                c == char_at(h@, pos as int),
                clen == char_len_at(h@, pos as int),
                p < self.model().pattern.len(),
                m == self.model(),
                self.pinyin == Some(*pm),
                !(lang is Romaji),
                entries_model(entries@) == m.pinyin.unwrap().data.readings(c),
                forall|j: int|
                    0 <= j < entries@.len() ==> (#[trigger] entries@[j]).wf(
                        m.pinyin.unwrap().data.inited(),
                    ),
                pinyin_from(m, h@, p as int, pos as int, lang, e as int) == pinyin_from(
                    m,
                    h@,
                    p as int,
                    pos as int,
                    lang,
                    0,
                ),
            decreases entries.len() - e,
        {
            let entry = &entries[e];
            assert(entries_model(entries@)[e as int] == entry.model());
            assert(entry.wf(m.pinyin.unwrap().data.inited()));
            match self.try_prefix(hs, h, p, pos, clen, lang, pm, entry) {
                Some(x) => {
                    return Some(x);
                },
                None => {},
            }
            match self.try_fallback(hs, h, p, pos, clen, lang, pm, entry) {
                Some(x) => {
                    return Some(x);
                },
                None => {},
            }
            e += 1;
        }
        None
    }

    /// Tries the notations of the prefix group on one entry; the first
    /// notation that does not match ends the group.
    fn try_prefix(
        &self,
        hs: &str,
        h: &[u8],
        p: usize,
        pos: usize,
        clen: usize,
        lang: LangState,
        pm: &PinyinMatcher<'a>,
        entry: &PinyinEntry,
    ) -> (r: Option<(usize, bool)>)
        requires
            h@ == encode_utf8(hs@),
            on_boundary(h@, pos as int),
            pos < h@.len(),
            clen == char_len_at(h@, pos as int),
            usable(h@, pos as int, clen as int),
            p < self.model().pattern.len(),
            self.pinyin == Some(*pm),
            entry.wf(pm.config.data.inited()),
        ensures
            sub_view(r) == pinyin_prefix(
                self.model(),
                h@,
                p as int,
                pos as int,
                lang,
                entry.model(),
                0,
            ),
        decreases h@.len() - pos, 3int, 0int,
    {
        let ghost m = self.model();
        let total = h.len();
        assert(pos + clen <= total);
        let next = pos + clen;
        let mut k: usize = 0;
        while k < pm.notations_prefix_group.len()
            invariant
                k <= pm.notations_prefix_group@.len(),
                next == pos + clen,
                h@ == encode_utf8(hs@),
                on_boundary(h@, pos as int),
                pos < h@.len(),
                clen == char_len_at(h@, pos as int),
                usable(h@, pos as int, clen as int),
                p < self.model().pattern.len(),
                m == self.model(),
                self.pinyin == Some(*pm),
                entry.wf(pm.config.data.inited()),
                pinyin_prefix(m, h@, p as int, pos as int, lang, entry.model(), k as int)
                    == pinyin_prefix(m, h@, p as int, pos as int, lang, entry.model(), 0),
            decreases pm.notations_prefix_group.len() - k,
        {
            let notation = pm.notations_prefix_group[k];
            proof {
                entry.lemma_form(pm.config.data.inited(), notation as int);
                assert(m.pinyin.unwrap().prefix_group[k as int] == notation as int);
            }
            match entry.notation(notation) {
                Some(py) => {
                    let r = self.reading_py(
                        hs,
                        h,
                        p,
                        next,
                        py.as_slice(),
                        ReadingKind::Pinyin,
                        lang,
                        false,
                    );
                    if !r.0 {
                        return None;
                    }
                    match r.1 {
                        Some(x) => {
                            return Some(x);
                        },
                        None => {},
                    }
                },
                None => {},
            }
            k += 1;
        }
        None
    }

    /// Tries every notation outside the prefix group on one entry.
    fn try_fallback(
        &self,
        hs: &str,
        h: &[u8],
        p: usize,
        pos: usize,
        clen: usize,
        lang: LangState,
        pm: &PinyinMatcher<'a>,
        entry: &PinyinEntry,
    ) -> (r: Option<(usize, bool)>)
        requires
            h@ == encode_utf8(hs@),
            on_boundary(h@, pos as int),
            pos < h@.len(),
            clen == char_len_at(h@, pos as int),
            usable(h@, pos as int, clen as int),
            p < self.model().pattern.len(),
            self.pinyin == Some(*pm),
            entry.wf(pm.config.data.inited()),
        ensures
            sub_view(r) == pinyin_fallback(
                self.model(),
                h@,
                p as int,
                pos as int,
                lang,
                entry.model(),
                0,
            ),
        decreases h@.len() - pos, 3int, 0int,
    {
        let ghost m = self.model();
        let total = h.len();
        assert(pos + clen <= total);
        let next = pos + clen;
        let mut k: usize = 0;
        while k < pm.notations.len()
            invariant
                k <= pm.notations@.len(),
                next == pos + clen,
                h@ == encode_utf8(hs@),
                on_boundary(h@, pos as int),
                pos < h@.len(),
                clen == char_len_at(h@, pos as int),
                usable(h@, pos as int, clen as int),
                p < self.model().pattern.len(),
                m == self.model(),
                self.pinyin == Some(*pm),
                entry.wf(pm.config.data.inited()),
                pinyin_fallback(m, h@, p as int, pos as int, lang, entry.model(), k as int)
                    == pinyin_fallback(m, h@, p as int, pos as int, lang, entry.model(), 0),
            decreases pm.notations.len() - k,
        {
            let notation = pm.notations[k];
            proof {
                entry.lemma_form(pm.config.data.inited(), notation as int);
                assert(m.pinyin.unwrap().fallback[k as int] == notation as int);
            }
            match entry.notation(notation) {
                Some(py) => {
                    let r = self.reading_py(
                        hs,
                        h,
                        p,
                        next,
                        py.as_slice(),
                        ReadingKind::Pinyin,
                        lang,
                        false,
                    );
                    match r.1 {
                        Some(x) => {
                            return Some(x);
                        },
                        None => {},
                    }
                },
                None => {},
            }
            k += 1;
        }
        None
    }

    /// Matches the reading `py`, which stands for the haystack up to `next`,
    /// against the pattern from index `p`.
    fn reading_py(
        &self,
        hs: &str,
        h: &[u8],
        p: usize,
        next: usize,
        py: &[char],
        kind: ReadingKind,
        lang: LangState,
        after_n: bool,
    ) -> (r: (bool, Option<(usize, bool)>))
        requires
            h@ == encode_utf8(hs@),
            on_boundary(h@, next as int),
            p < self.model().pattern.len(),
        ensures
            r.0 == reading(self.model(), h@, p as int, next as int, py@, kind, lang, after_n).0,
            sub_view(r.1) == reading(
                self.model(),
                h@,
                p as int,
                next as int,
                py@,
                kind,
                lang,
                after_n,
            ).1,
        decreases h@.len() - next, 9int, 1int,
    {
        let apostrophe = kind == ReadingKind::Romaji && after_n && py.len() > 0 && (py[0] == 'a'
            || py[0] == 'e' || py[0] == 'i' || py[0] == 'o' || py[0] == 'u' || py[0] == 'y');
        if apostrophe {
            let mut eff: Vec<char> = Vec::new();
            eff.push('\'');
            let mut i: usize = 0;
            while i < py.len()
                invariant
                    i <= py@.len(),
                    eff@ == seq!['\''] + py@.take(i as int),
                decreases py.len() - i,
            {
                eff.push(py[i]);
                i += 1;
                assert(eff@ =~= seq!['\''] + py@.take(i as int));
            }
            assert(py@.take(py@.len() as int) =~= py@);
            self.reading_eff(hs, h, p, next, eff.as_slice(), kind, lang, Ghost(py@), Ghost(after_n))
        } else {
            self.reading_eff(hs, h, p, next, py, kind, lang, Ghost(py@), Ghost(after_n))
        }
    }

    /// Matches the reading that must be typed as `eff` against the pattern
    /// from index `p`.
    fn reading_eff(
        &self,
        hs: &str,
        h: &[u8],
        p: usize,
        next: usize,
        eff: &[char],
        kind: ReadingKind,
        lang: LangState,
        Ghost(py): Ghost<Seq<char>>,
        Ghost(after_n): Ghost<bool>,
    ) -> (r: (bool, Option<(usize, bool)>))
        requires
            h@ == encode_utf8(hs@),
            on_boundary(h@, next as int),
            p < self.model().pattern.len(),
            eff@ == effective(kind, after_n, py),
        ensures
            r.0 == reading(self.model(), h@, p as int, next as int, py, kind, lang, after_n).0,
            sub_view(r.1) == reading(
                self.model(),
                h@,
                p as int,
                next as int,
                py,
                kind,
                lang,
                after_n,
            ).1,
        decreases h@.len() - next, 9int, 0int,
    {
        proof {
            use_type_invariant(self);
        }
        let ghost m = self.model();
        let text = self.text_of(kind);
        let rest = self.pattern.len() - p;
        if rest < eff.len() {
            let ok = self.partial_ok(kind, eff, rest) && agree(kind, text.as_slice(), p, eff, rest);
            proof {
                assert(text@.skip(p as int) =~= text@.subrange(p as int, p + rest));
            }
            if ok {
                (true, Some((next, true)))
            } else {
                (false, None)
            }
        } else if agree(kind, text.as_slice(), p, eff, eff.len()) {
            proof {
                assert(eff@.take(eff@.len() as int) =~= eff@);
            }
            if rest == eff.len() {
                (true, Some((next, false)))
            } else {
                let nl = if self.mix_lang {
                    lang
                } else {
                    match kind {
                        ReadingKind::Pinyin => LangState::Pinyin,
                        ReadingKind::Romaji => LangState::Romaji,
                    }
                };
                let an = kind == ReadingKind::Romaji && eff.len() > 0 && eff[eff.len() - 1] == 'n';
                (true, self.sub_test(hs, h, p + eff.len(), next, nl, an))
            }
        } else {
            proof {
                assert(eff@.take(eff@.len() as int) =~= eff@);
            }
            (false, None)
        }
    }
}

impl<'a> IbMatcher<'a> {
    /// Whether `haystack` is shorter than any match of the pattern.
    pub fn is_haystack_too_short(&self, haystack: &str) -> (r: bool)
        ensures
            r == too_short(self.model(), encode_utf8(haystack@)),
    {
        haystack.as_bytes().len() < self.min_haystack_len
    }

    /// The leftmost match of the pattern in `haystack`.
    pub fn find(&self, haystack: &str) -> (r: Option<Match>)
        ensures
            match_view(r) == find_spec(self.model(), encode_utf8(haystack@)),
    {
        proof {
            use_type_invariant(self);
            encode_utf8_valid_utf8(haystack@);
        }
        let h = haystack.as_bytes();
        let ghost m = self.model();
        if self.pattern.len() == 0 {
            return Some(Match::new(0, 0, false));
        }
        if is_ascii_bytes(h) {
            match &self.ascii {
                Some(ac) => {
                    let found = ac_find(ac, h);
                    proof {
                        lemma_occurrence_from(ac_needle(*ac), ac_ignores_case(*ac), h@, 0);
                    }
                    return match found {
                        Some((s, e)) => {
                            if self.starts_with && s != 0 {
                                None
                            } else {
                                Some(Match::new(s, e, false))
                            }
                        },
                        None => None,
                    };
                },
                None => {},
            }
        }
        self.find_general(haystack, h)
    }

    /// The general algorithm: for an anchored matcher the match at the start,
    /// otherwise the leftmost match.
    fn find_general(&self, hs: &str, h: &[u8]) -> (r: Option<Match>)
        requires
            h@ == encode_utf8(hs@),
            self.model().pattern.len() > 0,
        ensures
            match_view(r) == find_general(self.model(), h@),
    {
        proof {
            use_type_invariant(self);
            encode_utf8_valid_utf8(hs@);
            is_char_boundary_start_end_of_seq(h@);
        }
        let ghost m = self.model();
        if self.starts_with {
            if h.len() < self.min_haystack_len {
                return None;
            }
            return self.test_general(hs, h);
        }
        let mut i: usize = 0;
        while i < h.len()
            invariant
                i <= h@.len(),
                h@ == encode_utf8(hs@),
                valid_utf8(h@),
                on_boundary(h@, i as int),
                m == self.model(),
                m.pattern.len() > 0,
                !m.starts_with,
                find_from(m, h@, i as int) == find_from(m, h@, 0),
            decreases h.len() - i,
        {
            if h.len() - i < self.min_haystack_len {
                return None;
            }
            match self.sub_test(hs, h, 0, i, LangState::Any, false) {
                Some((e, partial)) => {
                    proof {
                        lemma_sub_test(m, h@, 0, i as int, LangState::Any, false);
                    }
                    return Some(Match::new(i, e, partial));
                },
                None => {},
            }
            let (_, clen) = next_char(h, i);
            i += clen;
        }
        None
    }

    /// The match of the whole pattern at the start of `h`.
    fn test_general(&self, hs: &str, h: &[u8]) -> (r: Option<Match>)
        requires
            h@ == encode_utf8(hs@),
            self.model().pattern.len() > 0,
        ensures
            match_view(r) == test_general(self.model(), h@),
    {
        proof {
            use_type_invariant(self);
            encode_utf8_valid_utf8(hs@);
            is_char_boundary_start_end_of_seq(h@);
        }
        match self.sub_test(hs, h, 0, 0, LangState::Any, false) {
            Some((e, partial)) => {
                proof {
                    lemma_sub_test(self.model(), h@, 0, 0, LangState::Any, false);
                }
                Some(Match::new(0, e, partial))
            },
            None => None,
        }
    }

    /// The match of the pattern that starts at the offset `at` of
    /// `haystack`; `None` where `at` is no code-point boundary.
    pub fn test_at(&self, haystack: &str, at: usize) -> (r: Option<Match>)
        ensures
            match_view(r) == test_at_spec(self.model(), encode_utf8(haystack@), at as int),
    {
        proof {
            use_type_invariant(self);
            encode_utf8_valid_utf8(haystack@);
        }
        let h = haystack.as_bytes();
        if !is_boundary_at(h, at) {
            return None;
        }
        if self.pattern.len() == 0 {
            return Some(Match::new(at, at, false));
        }
        if h.len() - at < self.min_haystack_len {
            return None;
        }
        match self.sub_test(haystack, h, 0, at, LangState::Any, false) {
            Some((e, partial)) => {
                proof {
                    lemma_sub_test(self.model(), h@, 0, at as int, LangState::Any, false);
                }
                Some(Match::new(at, e, partial))
            },
            None => None,
        }
    }

    /// Whether the pattern matches anywhere in `haystack`: exactly when
    /// `find` returns a match.
    pub fn is_match(&self, haystack: &str) -> (r: bool)
        ensures
            r == find_spec(self.model(), encode_utf8(haystack@)) is Some,
    {
        self.find(haystack).is_some()
    }

    /// The match of the pattern at the start of `haystack`.
    pub fn test(&self, haystack: &str) -> (r: Option<Match>)
        ensures
            match_view(r) == test_spec(self.model(), encode_utf8(haystack@)),
            r matches Some(x) ==> x.start_offset() == 0,
    {
        proof {
            use_type_invariant(self);
            encode_utf8_valid_utf8(haystack@);
        }
        let h = haystack.as_bytes();
        if h.len() < self.min_haystack_len {
            return None;
        }
        if self.pattern.len() == 0 {
            return Some(Match::new(0, 0, false));
        }
        if is_ascii_bytes(h) {
            match &self.ascii {
                Some(ac) => {
                    let found = ac_find(ac, h);
                    return match found {
                        Some((s, e)) => {
                            if s == 0 {
                                Some(Match::new(0, e, false))
                            } else {
                                None
                            }
                        },
                        None => None,
                    };
                },
                None => {},
            }
        }
        self.test_general(haystack, h)
    }
}

/// A copy of the indices.
fn copy_indices(v: &Vec<usize>) -> (r: Vec<usize>)
    ensures
        r@ == v@,
{
    let mut r: Vec<usize> = Vec::new();
    let mut i: usize = 0;
    while i < v.len()
        invariant
            i <= v@.len(),
            r@ == v@.take(i as int),
        decreases v.len() - i,
    {
        r.push(v[i]);
        i += 1;
        assert(v@.take(i as int) =~= v@.take(i - 1).push(v@[i - 1]));
    }
    assert(v@.take(v@.len() as int) =~= v@);
    r
}

impl<'a> Clone for IbMatcher<'a> {
    /// A matcher that was compiled to the same model, and so returns what
    /// this one returns on every haystack. The dictionaries are shared, not
    /// copied.
    fn clone(&self) -> (r: Self)
        ensures
            r.model() == self.model(),
    {
        proof {
            use_type_invariant(self);
        }
        let ascii = match &self.ascii {
            Some(ac) => Some(ac_clone(ac)),
            None => None,
        };
        let pinyin = match &self.pinyin {
            Some(pm) => Some(
                PinyinMatcher {
                    config: pm.config,
                    partial_pattern: pm.partial_pattern,
                    notations_prefix_group: copy_indices(&pm.notations_prefix_group),
                    notations: copy_indices(&pm.notations),
                },
            ),
            None => None,
        };
        let romaji = match &self.romaji {
            Some(rm) => Some(
                RomajiMatcher {
                    config: rm.config,
                    partial_word: rm.partial_word,
                    partial_kana: rm.partial_kana,
                    lexer: RomajiLexer::new(),
                },
            ),
            None => None,
        };
        IbMatcher::assemble(
            ascii,
            copy_chars(self.pattern.as_slice()),
            copy_chars(self.pattern_lowercase.as_slice()),
            self.min_haystack_len,
            self.case_insensitive,
            self.literal,
            self.starts_with,
            self.mix_lang,
            pinyin,
            romaji,
        )
    }
}

/// Whether the `n` units of `text` from `p` stand for the first `n` units of
/// the reading `eff`.
fn agree(kind: ReadingKind, text: &[char], p: usize, eff: &[char], n: usize) -> (r: bool)
    requires
        p + n <= text@.len(),
        n <= eff@.len(),
    ensures
        r == agrees(kind, text@.subrange(p as int, p + n), eff@.take(n as int)),
{
    match kind {
        ReadingKind::Pinyin => eq_range(text, p, eff, n),
        ReadingKind::Romaji => eq_ime_chars(text, p, eff, n),
    }
}

/// Whether `i` is a code-point boundary of `h`.
pub fn is_boundary_at(h: &[u8], i: usize) -> (r: bool)
    requires
        valid_utf8(h@),
    ensures
        r == on_boundary(h@, i as int),
{
    proof {
        is_char_boundary_start_end_of_seq(h@);
    }
    if i > h.len() {
        false
    } else if i == h.len() {
        true
    } else {
        proof {
            is_char_boundary_iff_not_is_continuation_byte(h@, i as int);
        }
        !(0x80 <= h[i] && h[i] <= 0xbf)
    }
}

} // verus!
