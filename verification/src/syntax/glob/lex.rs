//! Cutting a glob pattern into tokens.
//!
//! Tokens are cut from left to right, the longest first. Text runs up to the
//! next byte that has a meaning of its own, so a token never ends inside a
//! code point.
use vstd::prelude::*;
use vstd::utf8::encode_utf8;

verus! {

/// The token sets.
#[derive(Clone, Copy, Debug, PartialEq, Eq, Structural)]
pub enum LexMode {
    /// `?`, `*` and text.
    Wildcard,
    /// `?`, `*`, `**`, the separators and text.
    WildcardPath,
    /// `?`, `*`, `**`, `[...]`, the separators and text.
    GlobPath,
}

/// A token of any of the token sets, or the error at a byte that starts no
/// token.
#[derive(Clone, Copy, Debug, PartialEq, Eq, Structural)]
pub enum RawToken {
    Any,
    Star,
    GlobStar,
    SepUnix,
    SepWin,
    Class,
    Text,
    Error,
}

/// Whether the byte belongs to a text token.
pub open spec fn is_text_byte(mode: LexMode, b: u8) -> bool {
    &&& b != 42 && b != 63
    &&& (!(mode is Wildcard) ==> b != 47 && b != 92)
    &&& (mode is GlobPath ==> b != 91 && b != 93)
}

/// The number of text bytes from `pos` on.
pub open spec fn text_run(mode: LexMode, s: Seq<u8>, pos: int) -> int
    decreases s.len() - pos,
{
    if 0 <= pos < s.len() && is_text_byte(mode, s[pos]) {
        1 + text_run(mode, s, pos + 1)
    } else {
        0
    }
}

/// The number of bytes from `pos` on that are not `]`.
pub open spec fn class_run(s: Seq<u8>, pos: int) -> int
    decreases s.len() - pos,
{
    if 0 <= pos < s.len() && s[pos] != 93 {
        1 + class_run(s, pos + 1)
    } else {
        0
    }
}

/// The length of the class token at `pos`, where `[` stands: the bracket, at
/// least one byte that is not `]`, the closing bracket and, if it follows at
/// once, a second closing bracket. 0 when no class starts at `pos`.
pub open spec fn class_len(s: Seq<u8>, pos: int) -> int {
    let n = class_run(s, pos + 1);
    if n >= 1 && pos + 1 + n < s.len() {
        if pos + 2 + n < s.len() && s[pos + 2 + n] == 93 {
            n + 3
        } else {
            n + 2
        }
    } else {
        0
    }
}

/// The token at `pos` and its length.
pub open spec fn token_at(mode: LexMode, s: Seq<u8>, pos: int) -> (RawToken, int) {
    let b = s[pos];
    if b == 63 {
        (RawToken::Any, 1)
    } else if b == 42 {
        if !(mode is Wildcard) && pos + 1 < s.len() && s[pos + 1] == 42 {
            (RawToken::GlobStar, 2)
        } else {
            (RawToken::Star, 1)
        }
    } else if !(mode is Wildcard) && b == 47 {
        (RawToken::SepUnix, 1)
    } else if !(mode is Wildcard) && b == 92 {
        (RawToken::SepWin, 1)
    } else if mode is GlobPath && b == 91 {
        if class_len(s, pos) > 0 {
            (RawToken::Class, class_len(s, pos))
        } else {
            (RawToken::Error, 1)
        }
    } else if mode is GlobPath && b == 93 {
        (RawToken::Error, 1)
    } else {
        (RawToken::Text, text_run(mode, s, pos))
    }
}

/// The tokens of `s` from `pos` up to the first error or the end, each with
/// its start and its end.
pub open spec fn tokens_from(mode: LexMode, s: Seq<u8>, pos: int) -> Seq<(RawToken, int, int)>
    decreases s.len() - pos,
{
    if pos < 0 || pos >= s.len() {
        Seq::empty()
    } else {
        let (t, n) = token_at(mode, s, pos);
        if t is Error || n <= 0 || pos + n > s.len() {
            Seq::empty()
        } else {
            seq![(t, pos, pos + n)] + tokens_from(mode, s, pos + n)
        }
    }
}

/// A token inside `s` has at least one byte and ends inside `s`.
pub proof fn lemma_token_at(mode: LexMode, s: Seq<u8>, pos: int)
    requires
        0 <= pos < s.len(),
    ensures
        1 <= token_at(mode, s, pos).1,
        pos + token_at(mode, s, pos).1 <= s.len(),
{
    lemma_text_run(mode, s, pos);
    lemma_text_run(mode, s, pos + 1);
    lemma_class_run(s, pos + 1);
    if is_text_byte(mode, s[pos]) {
        assert(text_run(mode, s, pos) == 1 + text_run(mode, s, pos + 1));
    }
}

/// A text run ends inside `s`.
pub proof fn lemma_text_run(mode: LexMode, s: Seq<u8>, pos: int)
    requires
        0 <= pos <= s.len(),
    ensures
        0 <= text_run(mode, s, pos),
        pos + text_run(mode, s, pos) <= s.len(),
    decreases s.len() - pos,
{
    if pos < s.len() && is_text_byte(mode, s[pos]) {
        lemma_text_run(mode, s, pos + 1);
    }
}

/// A class run ends inside `s`.
pub proof fn lemma_class_run(s: Seq<u8>, pos: int)
    requires
        0 <= pos,
    ensures
        0 <= class_run(s, pos),
        pos <= s.len() ==> pos + class_run(s, pos) <= s.len(),
        pos > s.len() ==> class_run(s, pos) == 0,
    decreases s.len() - pos,
{
    if pos < s.len() && s[pos] != 93 {
        lemma_class_run(s, pos + 1);
    }
}

/// Whether the byte belongs to a text token.
fn text_byte(mode: LexMode, b: u8) -> (r: bool)
    ensures
        r == is_text_byte(mode, b),
{
    b != 42 && b != 63 && (mode == LexMode::Wildcard || (b != 47 && b != 92)) && (mode
        != LexMode::GlobPath || (b != 91 && b != 93))
}

/// The token of `s` at `pos` and its length.
pub fn scan(mode: LexMode, s: &[u8], pos: usize) -> (r: (RawToken, usize))
    requires
        pos < s@.len(),
    ensures
        r.0 == token_at(mode, s@, pos as int).0,
        r.1 == token_at(mode, s@, pos as int).1,
        1 <= r.1,
        pos + r.1 <= s@.len(),
{
    proof {
        lemma_token_at(mode, s@, pos as int);
    }
    let b = s[pos];
    if b == 63 {
        (RawToken::Any, 1)
    } else if b == 42 {
        if mode != LexMode::Wildcard && pos + 1 < s.len() && s[pos + 1] == 42 {
            (RawToken::GlobStar, 2)
        } else {
            (RawToken::Star, 1)
        }
    } else if mode != LexMode::Wildcard && b == 47 {
        (RawToken::SepUnix, 1)
    } else if mode != LexMode::Wildcard && b == 92 {
        (RawToken::SepWin, 1)
    } else if mode == LexMode::GlobPath && b == 91 {
        let mut j: usize = pos + 1;
        while j < s.len() && s[j] != 93
            invariant
                pos + 1 <= j <= s@.len(),
                (j - (pos + 1)) + class_run(s@, j as int) == class_run(s@, pos + 1),
            decreases s.len() - j,
        {
            j += 1;
        }
        let n = j - (pos + 1);
        if n >= 1 && j < s.len() {
            if j + 1 < s.len() && s[j + 1] == 93 {
                (RawToken::Class, n + 3)
            } else {
                (RawToken::Class, n + 2)
            }
        } else {
            (RawToken::Error, 1)
        }
    } else if mode == LexMode::GlobPath && b == 93 {
        (RawToken::Error, 1)
    } else {
        let mut j: usize = pos;
        while j < s.len() && text_byte(mode, s[j])
            invariant
                pos <= j <= s@.len(),
                (j - pos) + text_run(mode, s@, j as int) == text_run(mode, s@, pos as int),
            decreases s.len() - j,
        {
            j += 1;
        }
        (RawToken::Text, j - pos)
    }
}

/// A lexer state: the source, the span of the last token and where the next
/// token starts.
pub struct Lexer<'s> {
    pub src: &'s str,
    pub start: usize,
    pub pos: usize,
    pub failed: bool,
}

impl<'s> Lexer<'s> {
    /// A lexer at the start of `src`.
    pub fn new(src: &'s str) -> (r: Self)
        ensures
            r == (Lexer { src, start: 0, pos: 0, failed: false }),
    {
        Lexer { src, start: 0, pos: 0, failed: false }
    }

    /// The next token of the set `mode`: `None` at the end of the source, the error at a byte
    /// that starts no token, otherwise the token, whose span is then
    /// `start..pos`.
    pub fn next_raw(&mut self, mode: LexMode) -> (r: Option<RawToken>)
        ensures
            final(self).src == old(self).src,
            old(self).pos >= encode_utf8(old(self).src@).len() ==> r is None && *final(self)
                == *old(self),
            old(self).pos < encode_utf8(old(self).src@).len() ==> r == Some(
                token_at(mode, encode_utf8(old(self).src@), old(self).pos as int).0,
            ) && final(self).start == old(self).pos && final(self).pos == old(self).pos
                + token_at(mode, encode_utf8(old(self).src@), old(self).pos as int).1
                && final(self).pos <= encode_utf8(old(self).src@).len(),
    {
        let s = self.src.as_bytes();
        if self.pos >= s.len() {
            return None;
        }
        let (t, n) = scan(mode, s, self.pos);
        self.start = self.pos;
        self.pos = self.pos + n;
        if t == RawToken::Error {
            self.failed = true;
        }
        Some(t)
    }

    /// The bytes of the last token: those of the source between the start
    /// of the token and the place where the next one starts; none where
    /// these do not lie in that order inside the source.
    pub open spec fn last_token(self) -> Seq<u8> {
        if self.start <= self.pos <= encode_utf8(self.src@).len() {
            encode_utf8(self.src@).subrange(self.start as int, self.pos as int)
        } else {
            Seq::empty()
        }
    }

    /// The bytes of the last token.
    pub fn slice(&self) -> (r: &'s [u8])
        ensures
            r@ == self.last_token(),
    {
        let s = self.src.as_bytes();
        if self.start <= self.pos && self.pos <= s.len() {
            vstd::slice::slice_subrange(s, self.start, self.pos)
        } else {
            let r = vstd::slice::slice_subrange(s, 0, 0);
            assert(r@ =~= Seq::<u8>::empty());
            r
        }
    }

    /// Whether nothing of the source is left.
    pub fn at_end(&self) -> (r: bool)
        ensures
            r == (self.pos >= encode_utf8(self.src@).len()),
    {
        self.pos >= self.src.as_bytes().len()
    }
}

} // verus!
