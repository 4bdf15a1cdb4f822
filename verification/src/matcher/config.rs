//! What a matcher is built from.
use crate::pinyin::{PinyinData, PinyinNotation};
use crate::romaji::HepburnRomanizer;
use vstd::prelude::*;

verus! {

/// Pinyin matching: the notations to try, the case rule for pinyin, and the
/// dictionary.
#[derive(Clone, Copy)]
pub struct PinyinMatchConfig<'a> {
    pub notations: PinyinNotation,
    pub case_insensitive: bool,
    pub data: &'a PinyinData,
}

impl<'a> PinyinMatchConfig<'a> {
    /// Pinyin matching in `notations` over `data`, without respect to case.
    pub fn notations(data: &'a PinyinData, notations: PinyinNotation) -> (r: Self)
        ensures
            r == (PinyinMatchConfig { notations, case_insensitive: true, data }),
    {
        PinyinMatchConfig { notations, case_insensitive: true, data }
    }

    /// Whether upper-case letters of the pattern can match pinyin.
    pub fn case_insensitive(self, case_insensitive: bool) -> (r: Self)
        ensures
            r == (PinyinMatchConfig { case_insensitive, ..self }),
    {
        PinyinMatchConfig { case_insensitive, ..self }
    }

    /// A copy that shares the dictionary.
    pub fn shallow_clone(&self) -> (r: Self)
        ensures
            r == *self,
    {
        *self
    }
}

/// Romaji matching: the romaniser and what may be matched in part.
#[derive(Clone, Copy)]
pub struct RomajiMatchConfig<'a> {
    pub romanizer: &'a HepburnRomanizer,
    /// Whether upper-case letters of the pattern can match Japanese text.
    pub case_insensitive: bool,
    /// Whether the pattern may end inside a word, at the end of a kana.
    pub partial_word: bool,
    /// Whether partial patterns, where they are asked for, apply to romaji.
    pub allow_partial_pattern: bool,
}

impl<'a> RomajiMatchConfig<'a> {
    /// Romaji matching over `romanizer`: with respect to case, words matched
    /// in part, partial patterns allowed.
    pub fn new(romanizer: &'a HepburnRomanizer) -> (r: Self)
        ensures
            r == (RomajiMatchConfig {
                romanizer,
                case_insensitive: false,
                partial_word: true,
                allow_partial_pattern: true,
            }),
    {
        RomajiMatchConfig {
            romanizer,
            case_insensitive: false,
            partial_word: true,
            allow_partial_pattern: true,
        }
    }

    pub fn case_insensitive(self, case_insensitive: bool) -> (r: Self)
        ensures
            r == (RomajiMatchConfig { case_insensitive, ..self }),
    {
        RomajiMatchConfig { case_insensitive, ..self }
    }

    pub fn partial_word(self, partial_word: bool) -> (r: Self)
        ensures
            r == (RomajiMatchConfig { partial_word, ..self }),
    {
        RomajiMatchConfig { partial_word, ..self }
    }

    pub fn allow_partial_pattern(self, allow_partial_pattern: bool) -> (r: Self)
        ensures
            r == (RomajiMatchConfig { allow_partial_pattern, ..self }),
    {
        RomajiMatchConfig { allow_partial_pattern, ..self }
    }

    /// A copy that shares the romaniser.
    pub fn shallow_clone(&self) -> (r: Self)
        ensures
            r == *self,
    {
        *self
    }
}

/// Everything a matcher is built from but the pattern.
#[derive(Clone, Copy)]
pub struct MatchConfig<'a> {
    /// Only matches that begin at the start of the haystack count.
    pub starts_with: bool,
    /// The end of the pattern may be the beginning of a reading.
    pub is_pattern_partial: bool,
    /// Pinyin and romaji may alternate within one match.
    pub mix_lang: bool,
    /// Plain matching is without respect to case.
    pub case_insensitive: bool,
    /// Analyse the pattern for a better lower bound on the haystack.
    pub analyze: bool,
    pub pinyin: Option<PinyinMatchConfig<'a>>,
    pub romaji: Option<RomajiMatchConfig<'a>>,
}

impl<'a> MatchConfig<'a> {
    /// Plain matching without respect to case, anywhere in the haystack.
    pub open spec fn plain() -> Self {
        MatchConfig {
            starts_with: false,
            is_pattern_partial: false,
            mix_lang: false,
            case_insensitive: true,
            analyze: false,
            pinyin: None,
            romaji: None,
        }
    }

    /// Plain matching without respect to case, anywhere in the haystack.
    pub fn new() -> (r: Self)
        ensures
            r == Self::plain(),
    {
        MatchConfig {
            starts_with: false,
            is_pattern_partial: false,
            mix_lang: false,
            case_insensitive: true,
            analyze: false,
            pinyin: None,
            romaji: None,
        }
    }

    pub fn starts_with(self, starts_with: bool) -> (r: Self)
        ensures
            r == (MatchConfig { starts_with, ..self }),
    {
        MatchConfig { starts_with, ..self }
    }

    pub fn is_pattern_partial(self, is_pattern_partial: bool) -> (r: Self)
        ensures
            r == (MatchConfig { is_pattern_partial, ..self }),
    {
        MatchConfig { is_pattern_partial, ..self }
    }

    pub fn mix_lang(self, mix_lang: bool) -> (r: Self)
        ensures
            r == (MatchConfig { mix_lang, ..self }),
    {
        MatchConfig { mix_lang, ..self }
    }

    pub fn case_insensitive(self, case_insensitive: bool) -> (r: Self)
        ensures
            r == (MatchConfig { case_insensitive, ..self }),
    {
        MatchConfig { case_insensitive, ..self }
    }

    pub fn analyze(self, analyze: bool) -> (r: Self)
        ensures
            r == (MatchConfig { analyze, ..self }),
    {
        MatchConfig { analyze, ..self }
    }

    pub fn pinyin(self, pinyin: PinyinMatchConfig<'a>) -> (r: Self)
        ensures
            r == (MatchConfig { pinyin: Some(pinyin), ..self }),
    {
        MatchConfig { pinyin: Some(pinyin), ..self }
    }

    pub fn romaji(self, romaji: RomajiMatchConfig<'a>) -> (r: Self)
        ensures
            r == (MatchConfig { romaji: Some(romaji), ..self }),
    {
        MatchConfig { romaji: Some(romaji), ..self }
    }

    /// A copy that shares the dictionaries.
    pub fn shallow_clone(&self) -> (r: Self)
        ensures
            r == *self,
    {
        *self
    }
}

/// Whether the dictionary holds the text of every reading in every
/// notation that the matcher is to consult: without pinyin matching
/// nothing is asked; with it, each notation of the configuration has to be
/// initialised in its dictionary.
pub open spec fn notations_ready(config: MatchConfig<'_>) -> bool {
    config.pinyin matches Some(pc) ==> forall|k: int|
        pc.notations.has(k) ==> #[trigger] pc.data.inited().has(k)
}

impl<'a> MatchConfig<'a> {
    /// Whether a matcher can be compiled under this configuration: whether
    /// the notations that it enables are initialised in its dictionary.
    pub fn is_ready(&self) -> (r: bool)
        ensures
            r == notations_ready(*self),
    {
        match self.pinyin {
            Some(pc) => pc.data.inited_notations().contains(pc.notations),
            None => true,
        }
    }
}

} // verus!
