//! The post-modifier dialect: a pattern that ends with `;en`, `;py` or `;rm`
//! is restricted to plain, pinyin or romaji matching.
use crate::matcher::pattern::{LangOnly, Pattern};
use vstd::prelude::*;
use vstd::utf8::*;

verus! {

/// The restriction that the last three bytes of `b` name, if any.
pub open spec fn ev_suffix(b: Seq<u8>) -> Option<LangOnly> {
    let n = b.len() as int;
    if n >= 3 && b[n - 3] == 59 {
        if b[n - 2] == 101 && b[n - 1] == 110 {
            Some(LangOnly::English)
        } else if b[n - 2] == 112 && b[n - 1] == 121 {
            Some(LangOnly::Pinyin)
        } else if b[n - 2] == 114 && b[n - 1] == 109 {
            Some(LangOnly::Romaji)
        } else {
            None
        }
    } else {
        None
    }
}

/// Whether the post-modifier of `lang` is switched on.
pub open spec fn ev_enabled(lang: LangOnly, en: bool, py: bool, rm: bool) -> bool {
    match lang {
        LangOnly::English => en,
        LangOnly::Pinyin => py,
        LangOnly::Romaji => rm,
    }
}

/// The restriction that parsing `b` gives.
pub open spec fn ev_lang(b: Seq<u8>, en: bool, py: bool, rm: bool) -> Option<LangOnly> {
    match ev_suffix(b) {
        Some(lang) => if ev_enabled(lang, en, py, rm) {
            Some(lang)
        } else {
            None
        },
        None => None,
    }
}

/// The bytes of the pattern that parsing `b` gives: `b` without its last
/// three bytes where they are a post-modifier that is switched on.
pub open spec fn ev_pattern(b: Seq<u8>, en: bool, py: bool, rm: bool) -> Seq<u8> {
    if ev_lang(b, en, py, rm) is Some {
        b.subrange(0, b.len() - 3)
    } else {
        b
    }
}

impl<'a> Pattern<'a> {
    /// Parses a pattern with all three post-modifiers switched on.
    pub fn parse_ev(pattern: &'a str) -> (r: Pattern<'a>)
        ensures
            r.lang_only == ev_lang(encode_utf8(pattern@), true, true, true),
            encode_utf8(r.pattern@) == ev_pattern(encode_utf8(pattern@), true, true, true),
    {
        Self::parse_ev_with(pattern, true, true, true)
    }

    /// Parses a pattern: a trailing `;en`, `;py` or `;rm` whose post-modifier
    /// is switched on is taken off and sets the restriction. Only the last
    /// three bytes are looked at, so of several post-modifiers only the last
    /// one counts.
    pub fn parse_ev_with(
        pattern: &'a str,
        postmodifier_en: bool,
        postmodifier_py: bool,
        postmodifier_rm: bool,
    ) -> (r: Pattern<'a>)
        ensures
            r.lang_only == ev_lang(
                encode_utf8(pattern@),
                postmodifier_en,
                postmodifier_py,
                postmodifier_rm,
            ),
            encode_utf8(r.pattern@) == ev_pattern(
                encode_utf8(pattern@),
                postmodifier_en,
                postmodifier_py,
                postmodifier_rm,
            ),
    {
        let b = pattern.as_bytes();
        let n = b.len();
        if n < 3 || b[n - 3] != 59 {
            return Pattern { pattern, lang_only: None };
        }
        let lang = if b[n - 2] == 101 && b[n - 1] == 110 && postmodifier_en {
            LangOnly::English
        } else if b[n - 2] == 112 && b[n - 1] == 121 && postmodifier_py {
            LangOnly::Pinyin
        } else if b[n - 2] == 114 && b[n - 1] == 109 && postmodifier_rm {
            LangOnly::Romaji
        } else {
            return Pattern { pattern, lang_only: None };
        };
        proof {
            encode_utf8_valid_utf8(pattern@);
            is_char_boundary_iff_not_is_continuation_byte(encode_utf8(pattern@), n - 3);
        }
        let (head, _) = pattern.split_at(n - 3);
        Pattern { pattern: head, lang_only: Some(lang) }
    }
}

} // verus!
