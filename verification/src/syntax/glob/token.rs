//! The tokens of the glob syntaxes and their lexers.
use crate::syntax::glob::lex::{token_at, LexMode, Lexer, RawToken};
use vstd::prelude::*;
use vstd::utf8::encode_utf8;

verus! {

/// A token of the plain wildcard syntax.
#[derive(Clone, Copy, Debug, PartialEq, Eq, Structural)]
pub enum WildcardToken {
    /// `?`: any one character.
    Any,
    /// `*`: any text.
    Star,
    /// Plain text.
    Text,
}

/// A token of the wildcard syntax for paths.
#[derive(Clone, Copy, Debug, PartialEq, Eq, Structural)]
pub enum WildcardPathToken {
    /// `?`: any one character but a separator.
    Any,
    /// `*`: any text without separator.
    Star,
    /// `**`: any text.
    GlobStar,
    /// `/`
    SepUnix,
    /// `\`
    SepWin,
    /// Plain text.
    Text,
}

/// A token of the glob syntax for paths.
#[derive(Clone, Copy, Debug, PartialEq, Eq, Structural)]
pub enum GlobPathToken {
    /// `?`: any one character but a separator.
    Any,
    /// `*`: any text without separator.
    Star,
    /// `[...]`: one character of a class.
    Class,
    /// `**`: any text.
    GlobStar,
    /// `/`
    SepUnix,
    /// `\`
    SepWin,
    /// Plain text.
    Text,
}

/// The wildcard token that a raw token stands for.
pub open spec fn as_wildcard(t: RawToken) -> Result<WildcardToken, ()> {
    match t {
        RawToken::Any => Ok(WildcardToken::Any),
        RawToken::Star => Ok(WildcardToken::Star),
        RawToken::Text => Ok(WildcardToken::Text),
        _ => Err(()),
    }
}

/// The wildcard path token that a raw token stands for.
pub open spec fn as_wildcard_path(t: RawToken) -> Result<WildcardPathToken, ()> {
    match t {
        RawToken::Any => Ok(WildcardPathToken::Any),
        RawToken::Star => Ok(WildcardPathToken::Star),
        RawToken::GlobStar => Ok(WildcardPathToken::GlobStar),
        RawToken::SepUnix => Ok(WildcardPathToken::SepUnix),
        RawToken::SepWin => Ok(WildcardPathToken::SepWin),
        RawToken::Text => Ok(WildcardPathToken::Text),
        _ => Err(()),
    }
}

/// The glob path token that a raw token stands for.
pub open spec fn as_glob_path(t: RawToken) -> Result<GlobPathToken, ()> {
    match t {
        RawToken::Any => Ok(GlobPathToken::Any),
        RawToken::Star => Ok(GlobPathToken::Star),
        RawToken::GlobStar => Ok(GlobPathToken::GlobStar),
        RawToken::SepUnix => Ok(GlobPathToken::SepUnix),
        RawToken::SepWin => Ok(GlobPathToken::SepWin),
        RawToken::Class => Ok(GlobPathToken::Class),
        RawToken::Text => Ok(GlobPathToken::Text),
        RawToken::Error => Err(()),
    }
}

/// Cuts a pattern into wildcard tokens.
pub struct WildcardLexer<'s> {
    pub raw: Lexer<'s>,
}

/// Cuts a pattern into wildcard path tokens.
pub struct WildcardPathLexer<'s> {
    pub raw: Lexer<'s>,
}

/// Cuts a pattern into glob path tokens.
pub struct GlobPathLexer<'s> {
    pub raw: Lexer<'s>,
}

impl WildcardToken {
    /// A lexer at the start of `src`.
    pub fn lexer(src: &str) -> (r: WildcardLexer<'_>)
        ensures
            r.raw == (Lexer { src, start: 0, pos: 0, failed: false }),
    {
        WildcardLexer { raw: Lexer::new(src) }
    }
}

impl WildcardPathToken {
    /// A lexer at the start of `src`.
    pub fn lexer(src: &str) -> (r: WildcardPathLexer<'_>)
        ensures
            r.raw == (Lexer { src, start: 0, pos: 0, failed: false }),
    {
        WildcardPathLexer { raw: Lexer::new(src) }
    }
}

impl GlobPathToken {
    /// A lexer at the start of `src`.
    pub fn lexer(src: &str) -> (r: GlobPathLexer<'_>)
        ensures
            r.raw == (Lexer { src, start: 0, pos: 0, failed: false }),
    {
        GlobPathLexer { raw: Lexer::new(src) }
    }
}

impl<'s> WildcardLexer<'s> {
    /// The next token, or `None` at the end of the pattern.
    pub fn next(&mut self) -> (r: Option<Result<WildcardToken, ()>>)
        ensures
            final(self).raw.src == old(self).raw.src,
            old(self).raw.pos >= encode_utf8(old(self).raw.src@).len() ==> r is None
                && final(self).raw == old(self).raw,
            old(self).raw.pos < encode_utf8(old(self).raw.src@).len() ==> r == Some(
                as_wildcard(
                    token_at(
                        LexMode::Wildcard,
                        encode_utf8(old(self).raw.src@),
                        old(self).raw.pos as int,
                    ).0,
                ),
            ) && final(self).raw.pos == old(self).raw.pos + token_at(
                LexMode::Wildcard,
                encode_utf8(old(self).raw.src@),
                old(self).raw.pos as int,
            ).1 && final(self).raw.start == old(self).raw.pos && final(self).raw.pos
                <= encode_utf8(old(self).raw.src@).len(),
    {
        match self.raw.next_raw(LexMode::Wildcard) {
            None => None,
            Some(RawToken::Any) => Some(Ok(WildcardToken::Any)),
            Some(RawToken::Star) => Some(Ok(WildcardToken::Star)),
            Some(RawToken::Text) => Some(Ok(WildcardToken::Text)),
            Some(_) => Some(Err(())),
        }
    }

    /// The bytes of the last token: those of the pattern between the start
    /// of the token and the place where the next one starts.
    pub fn slice(&self) -> (r: &'s [u8])
        ensures
            r@ == self.raw.last_token(),
    {
        self.raw.slice()
    }
}

impl<'s> WildcardPathLexer<'s> {
    /// The next token, or `None` at the end of the pattern.
    pub fn next(&mut self) -> (r: Option<Result<WildcardPathToken, ()>>)
        ensures
            final(self).raw.src == old(self).raw.src,
            old(self).raw.pos >= encode_utf8(old(self).raw.src@).len() ==> r is None
                && final(self).raw == old(self).raw,
            old(self).raw.pos < encode_utf8(old(self).raw.src@).len() ==> r == Some(
                as_wildcard_path(
                    token_at(
                        LexMode::WildcardPath,
                        encode_utf8(old(self).raw.src@),
                        old(self).raw.pos as int,
                    ).0,
                ),
            ) && final(self).raw.pos == old(self).raw.pos + token_at(
                LexMode::WildcardPath,
                encode_utf8(old(self).raw.src@),
                old(self).raw.pos as int,
            ).1 && final(self).raw.start == old(self).raw.pos && final(self).raw.pos
                <= encode_utf8(old(self).raw.src@).len(),
    {
        match self.raw.next_raw(LexMode::WildcardPath) {
            None => None,
            Some(RawToken::Any) => Some(Ok(WildcardPathToken::Any)),
            Some(RawToken::Star) => Some(Ok(WildcardPathToken::Star)),
            Some(RawToken::GlobStar) => Some(Ok(WildcardPathToken::GlobStar)),
            Some(RawToken::SepUnix) => Some(Ok(WildcardPathToken::SepUnix)),
            Some(RawToken::SepWin) => Some(Ok(WildcardPathToken::SepWin)),
            Some(RawToken::Text) => Some(Ok(WildcardPathToken::Text)),
            Some(_) => Some(Err(())),
        }
    }

    /// The bytes of the last token: those of the pattern between the start
    /// of the token and the place where the next one starts.
    pub fn slice(&self) -> (r: &'s [u8])
        ensures
            r@ == self.raw.last_token(),
    {
        self.raw.slice()
    }
}

impl<'s> GlobPathLexer<'s> {
    /// The next token, the error at a bracket that starts no class, or
    /// `None` at the end of the pattern.
    pub fn next(&mut self) -> (r: Option<Result<GlobPathToken, ()>>)
        ensures
            final(self).raw.src == old(self).raw.src,
            old(self).raw.pos >= encode_utf8(old(self).raw.src@).len() ==> r is None
                && final(self).raw == old(self).raw,
            old(self).raw.pos < encode_utf8(old(self).raw.src@).len() ==> r == Some(
                as_glob_path(
                    token_at(
                        LexMode::GlobPath,
                        encode_utf8(old(self).raw.src@),
                        old(self).raw.pos as int,
                    ).0,
                ),
            ) && final(self).raw.pos == old(self).raw.pos + token_at(
                LexMode::GlobPath,
                encode_utf8(old(self).raw.src@),
                old(self).raw.pos as int,
            ).1 && final(self).raw.start == old(self).raw.pos && final(self).raw.pos
                <= encode_utf8(old(self).raw.src@).len(),
    {
        match self.raw.next_raw(LexMode::GlobPath) {
            None => None,
            Some(RawToken::Any) => Some(Ok(GlobPathToken::Any)),
            Some(RawToken::Star) => Some(Ok(GlobPathToken::Star)),
            Some(RawToken::GlobStar) => Some(Ok(GlobPathToken::GlobStar)),
            Some(RawToken::SepUnix) => Some(Ok(GlobPathToken::SepUnix)),
            Some(RawToken::SepWin) => Some(Ok(GlobPathToken::SepWin)),
            Some(RawToken::Class) => Some(Ok(GlobPathToken::Class)),
            Some(RawToken::Text) => Some(Ok(GlobPathToken::Text)),
            Some(RawToken::Error) => Some(Err(())),
        }
    }

    /// The bytes of the last token: those of the pattern between the start
    /// of the token and the place where the next one starts.
    pub fn slice(&self) -> (r: &'s [u8])
        ensures
            r@ == self.raw.last_token(),
    {
        self.raw.slice()
    }
}

} // verus!
