//! Compiling a pattern and a configuration into a matcher.
use crate::matcher::analyze::pinyin_min_len;
use crate::matcher::ascii::{ac_new, ac_searcher_builds};
use crate::matcher::config::{notations_ready, MatchConfig, PinyinMatchConfig, RomajiMatchConfig};
use crate::matcher::ib::{indices, IbMatcher, PinyinMatcher, RomajiMatcher};
use crate::matcher::laws::lemma_lower_range;
use crate::matcher::model::{
    lower, min_len_from, model_wf, prefix_group_ok, MatcherModel, PinyinModel, RomajiModel,
};
use crate::matcher::pattern::{LangOnly, Pattern};
use crate::pinyin::data::notation_indices;
use crate::pinyin::notation::{PinyinNotation, NOTATION_COUNT};
use crate::unicode::case::{mono_lower, mono_lowercase_chars};
use crate::unicode::chars::all_ascii;
use crate::unicode::str::chars_of;
use vstd::prelude::*;
use vstd::utf8::*;

verus! {

/// The notations of `n` with an index from `from` up to, not including,
/// `to`, in ascending order.
pub open spec fn pick(n: PinyinNotation, from: int, to: int) -> Seq<int>
    decreases to - from,
{
    if from >= to {
        Seq::empty()
    } else if n.has(to - 1) {
        pick(n, from, to - 1).push(to - 1)
    } else {
        pick(n, from, to - 1)
    }
}

/// What `pick` returns lies in the range and ascends.
pub proof fn lemma_pick(n: PinyinNotation, from: int, to: int)
    ensures
        forall|k: int| 0 <= k < pick(n, from, to).len() ==> from <= #[trigger] pick(n, from, to)[k]
            < to,
        forall|j: int, k: int|
            0 <= j < k < pick(n, from, to).len() ==> pick(n, from, to)[j] < pick(n, from, to)[k],
    decreases to - from,
{
    if from < to {
        lemma_pick(n, from, to - 1);
        let prev = pick(n, from, to - 1);
        let cur = pick(n, from, to);
        if n.has(to - 1) {
            assert(cur == prev.push(to - 1));
            assert forall|k: int| 0 <= k < cur.len() implies from <= #[trigger] cur[k] < to by {
                if k < prev.len() {
                    assert(cur[k] == prev[k]);
                }
            }
            assert forall|j: int, k: int| 0 <= j < k < cur.len() implies cur[j] < cur[k] by {
                assert(cur[j] == prev[j]);
                if k < prev.len() {
                    assert(cur[k] == prev[k]);
                }
            }
        } else {
            assert(cur == prev);
        }
    }
}

/// The notations of `n` with an index from `from` up to `to`.
fn pick_notations(n: PinyinNotation, from: usize, to: usize) -> (r: Vec<usize>)
    requires
        from <= to,
    ensures
        indices(r@) == pick(n, from as int, to as int),
{
    let mut r: Vec<usize> = Vec::new();
    let mut k: usize = from;
    while k < to
        invariant
            from <= k <= to,
            indices(r@) == pick(n, from as int, k as int),
        decreases to - k,
    {
        if n.contains_index(k) {
            r.push(k);
            assert(indices(r@) =~= pick(n, from as int, k as int).push(k as int));
        }
        k += 1;
    }
    r
}

/// Whether plain comparison of pattern and haystack characters is on.
pub open spec fn literal_on(lang_only: Option<LangOnly>) -> bool {
    lang_only is None || lang_only == Some(LangOnly::English)
}

/// Whether pinyin readings are taken.
pub open spec fn pinyin_on(lang_only: Option<LangOnly>, config: MatchConfig) -> bool {
    config.pinyin is Some && (lang_only is None || lang_only == Some(LangOnly::Pinyin))
}

/// Whether romaji readings are taken.
pub open spec fn romaji_on(lang_only: Option<LangOnly>, config: MatchConfig) -> bool {
    config.romaji is Some && (lang_only is None || lang_only == Some(LangOnly::Romaji))
}

/// Pinyin matching as compiled: the prefix group holds the enabled
/// notations among first letter, full pinyin and pinyin with tone digit;
/// all other enabled notations follow it.
pub open spec fn compiled_pinyin(pc: PinyinMatchConfig, partial: bool) -> PinyinModel {
    PinyinModel {
        data: *pc.data,
        case_insensitive: pc.case_insensitive,
        partial,
        prefix_group: pick(pc.notations, 0, 3),
        fallback: pick(pc.notations, 3, NOTATION_COUNT as int),
    }
}

/// Romaji matching as compiled.
pub open spec fn compiled_romaji(rc: RomajiMatchConfig, partial: bool) -> RomajiModel {
    RomajiModel {
        romanizer: rc.romanizer.model(),
        case_insensitive: rc.case_insensitive,
        partial_word: rc.partial_word,
        partial_kana: partial && rc.allow_partial_pattern,
    }
}

/// The matcher that a pattern and a configuration compile to, given the
/// searcher for ASCII haystacks.
pub open spec fn compiled_model(
    pattern: Seq<char>,
    lang_only: Option<LangOnly>,
    config: MatchConfig,
    ascii: Option<(Seq<u8>, bool)>,
) -> MatcherModel {
    let base = MatcherModel {
        pattern,
        pattern_lower: pattern.map_values(|c: char| mono_lower(c)),
        case_insensitive: config.case_insensitive,
        literal: literal_on(lang_only),
        starts_with: config.starts_with,
        mix_lang: config.mix_lang,
        min_haystack_len: 0,
        pinyin: if pinyin_on(lang_only, config) {
            Some(compiled_pinyin(config.pinyin.unwrap(), config.is_pattern_partial))
        } else {
            None
        },
        romaji: if romaji_on(lang_only, config) {
            Some(compiled_romaji(config.romaji.unwrap(), config.is_pattern_partial))
        } else {
            None
        },
        ascii,
    };
    MatcherModel {
        min_haystack_len: if config.analyze {
            lower(base, 0)
        } else {
            min_len_from(base, 0)
        },
        ..base
    }
}

/// The notations of `a`, then those of `b`.
fn joined(a: &Vec<usize>, b: &Vec<usize>) -> (r: Vec<usize>)
    ensures
        r@ == a@ + b@,
{
    let mut r: Vec<usize> = Vec::new();
    let mut i: usize = 0;
    while i < a.len()
        invariant
            i <= a@.len(),
            r@ == a@.take(i as int),
        decreases a.len() - i,
    {
        r.push(a[i]);
        assert(r@ =~= a@.take(i + 1));
        i += 1;
    }
    assert(r@ =~= a@ + b@.take(0));
    let mut k: usize = 0;
    while k < b.len()
        invariant
            k <= b@.len(),
            r@ == a@ + b@.take(k as int),
        decreases b.len() - k,
    {
        r.push(b[k]);
        assert(r@ =~= a@ + b@.take(k + 1));
        k += 1;
    }
    assert(b@.take(b@.len() as int) =~= b@);
    r
}

impl<'a> IbMatcher<'a> {
    /// Compiles `pattern` under `config`. The notations that the
    /// configuration enables have to be initialised in its dictionary
    /// (`MatchConfig::is_ready`).
    ///
    /// The matcher has a searcher for ASCII haystacks exactly where plain
    /// comparison is on, the pattern is ASCII and the searcher can be
    /// built.
    pub fn with_config(pattern: Pattern<'_>, config: MatchConfig<'a>) -> (r: IbMatcher<'a>)
        requires
            notations_ready(config),
        ensures
            r.wf(),
            r.model() == compiled_model(
                pattern.pattern@,
                pattern.lang_only,
                config,
                r.model().ascii,
            ),
            !literal_on(pattern.lang_only) || !is_ascii_chars(pattern.pattern@)
                ==> r.model().ascii is None,
            literal_on(pattern.lang_only) && is_ascii_chars(pattern.pattern@) ==> (
            r.model().ascii is Some <==> ac_searcher_builds(
                encode_utf8(pattern.pattern@),
                config.case_insensitive,
            )),
    {
        let chars = chars_of(pattern.pattern);
        let lower = mono_lowercase_chars(&chars);
        let literal = match pattern.lang_only {
            None => true,
            Some(LangOnly::English) => true,
            Some(_) => false,
        };
        let pinyin_lang = match pattern.lang_only {
            None => true,
            Some(LangOnly::Pinyin) => true,
            Some(_) => false,
        };
        let romaji_lang = match pattern.lang_only {
            None => true,
            Some(LangOnly::Romaji) => true,
            Some(_) => false,
        };
        let pinyin = match config.pinyin {
            Some(pc) => if pinyin_lang {
                proof {
                    lemma_pick(pc.notations, 0, 3);
                    use_type_invariant(pc.data);
                }
                Some(
                    PinyinMatcher {
                        config: pc,
                        partial_pattern: config.is_pattern_partial,
                        notations_prefix_group: pick_notations(pc.notations, 0, 3),
                        notations: pick_notations(pc.notations, 3, NOTATION_COUNT),
                    },
                )
            } else {
                None
            },
            None => None,
        };
        let romaji = match config.romaji {
            Some(rc) => if romaji_lang {
                Some(RomajiMatcher::new(rc, config.is_pattern_partial))
            } else {
                None
            },
            None => None,
        };
        let ascii = if literal && all_ascii(chars.as_slice()) {
            proof {
                is_ascii_chars_encode_utf8(chars@);
            }
            ac_new(pattern.pattern.as_bytes(), config.case_insensitive)
        } else {
            None
        };
        let min_haystack_len = if chars.len() == 0 {
            0
        } else if romaji.is_some() {
            1
        } else {
            match &pinyin {
                Some(pm) => if config.analyze {
                    let all = joined(&pm.notations_prefix_group, &pm.notations);
                    let text = if pm.config.case_insensitive {
                        lower.as_slice()
                    } else {
                        chars.as_slice()
                    };
                    proof {
                        assert(notation_indices(all@) =~= indices(pm.notations_prefix_group@)
                            + indices(pm.notations@));
                    }
                    pinyin_min_len(text, pm.config.data, &all, pm.partial_pattern)
                } else {
                    1
                },
                None => chars.len(),
            }
        };
        proof {
            let m = IbMatcher::model_of(
                ascii,
                chars,
                lower,
                min_haystack_len,
                config.case_insensitive,
                literal,
                config.starts_with,
                config.mix_lang,
                pinyin,
                romaji,
            );
            assert(m.pattern_lower.len() == m.pattern.len());
            lemma_lower_range(m, 0);
        }
        IbMatcher::assemble(
            ascii,
            chars,
            lower,
            min_haystack_len,
            config.case_insensitive,
            literal,
            config.starts_with,
            config.mix_lang,
            pinyin,
            romaji,
        )
    }

    /// A matcher for `pattern`, which is a string or a parsed pattern,
    /// under the default configuration; see `IbMatcherBuilder` for what can
    /// be set.
    pub fn builder<'p, P: Into<Pattern<'p>>>(pattern: P) -> (r: IbMatcherBuilder<'p, 'a>)
        ensures
            call_ensures(<P as Into<Pattern<'p>>>::into, (pattern,), r.pattern),
            r.config == MatchConfig::plain(),
    {
        IbMatcherBuilder { pattern: pattern.into(), config: MatchConfig::new() }
    }
}

impl<'a> MatchConfig<'a> {
    /// Compiles `pattern` under this configuration.
    pub fn matcher(&self, pattern: &str) -> (r: IbMatcher<'a>)
        requires
            notations_ready(*self),
        ensures
            r.wf(),
            r.model() == compiled_model(pattern@, None, *self, r.model().ascii),
    {
        IbMatcher::with_config(Pattern::new(pattern), *self)
    }
}

/// Collects what a matcher is compiled from.
pub struct IbMatcherBuilder<'p, 'a> {
    pub pattern: Pattern<'p>,
    pub config: MatchConfig<'a>,
}

impl<'p, 'a> IbMatcherBuilder<'p, 'a> {
    /// Restricts the pattern to one way of matching.
    pub fn lang_only(self, lang_only: LangOnly) -> (r: Self)
        ensures
            r.pattern.pattern == self.pattern.pattern,
            r.pattern.lang_only == Some(lang_only),
            r.config == self.config,
    {
        IbMatcherBuilder {
            pattern: Pattern { pattern: self.pattern.pattern, lang_only: Some(lang_only) },
            config: self.config,
        }
    }

    pub fn analyze(self, analyze: bool) -> (r: Self)
        ensures
            r.pattern == self.pattern,
            r.config == (MatchConfig { analyze, ..self.config }),
    {
        IbMatcherBuilder { pattern: self.pattern, config: self.config.analyze(analyze) }
    }

    pub fn case_insensitive(self, case_insensitive: bool) -> (r: Self)
        ensures
            r.pattern == self.pattern,
            r.config == (MatchConfig { case_insensitive, ..self.config }),
    {
        IbMatcherBuilder {
            pattern: self.pattern,
            config: self.config.case_insensitive(case_insensitive),
        }
    }

    pub fn is_pattern_partial(self, is_pattern_partial: bool) -> (r: Self)
        ensures
            r.pattern == self.pattern,
            r.config == (MatchConfig { is_pattern_partial, ..self.config }),
    {
        IbMatcherBuilder {
            pattern: self.pattern,
            config: self.config.is_pattern_partial(is_pattern_partial),
        }
    }

    pub fn starts_with(self, starts_with: bool) -> (r: Self)
        ensures
            r.pattern == self.pattern,
            r.config == (MatchConfig { starts_with, ..self.config }),
    {
        IbMatcherBuilder { pattern: self.pattern, config: self.config.starts_with(starts_with) }
    }

    pub fn mix_lang(self, mix_lang: bool) -> (r: Self)
        ensures
            r.pattern == self.pattern,
            r.config == (MatchConfig { mix_lang, ..self.config }),
    {
        IbMatcherBuilder { pattern: self.pattern, config: self.config.mix_lang(mix_lang) }
    }

    pub fn pinyin(self, pinyin: PinyinMatchConfig<'a>) -> (r: Self)
        ensures
            r.pattern == self.pattern,
            r.config == (MatchConfig { pinyin: Some(pinyin), ..self.config }),
    {
        IbMatcherBuilder { pattern: self.pattern, config: self.config.pinyin(pinyin) }
    }

    pub fn romaji(self, romaji: RomajiMatchConfig<'a>) -> (r: Self)
        ensures
            r.pattern == self.pattern,
            r.config == (MatchConfig { romaji: Some(romaji), ..self.config }),
    {
        IbMatcherBuilder { pattern: self.pattern, config: self.config.romaji(romaji) }
    }

    /// Compiles the matcher.
    pub fn build(self) -> (r: IbMatcher<'a>)
        requires
            notations_ready(self.config),
        ensures
            r.wf(),
            r.model() == compiled_model(
                self.pattern.pattern@,
                self.pattern.lang_only,
                self.config,
                r.model().ascii,
            ),
    {
        IbMatcher::with_config(self.pattern, self.config)
    }
}

} // verus!
