//! Single-code-point case mapping.
//!
//! The *mono lowercase* of a character is the first code point of its
//! lowercase mapping: `İ` maps to `i` and `Σ` always maps to `σ`.
use crate::unicode::str::chars_of;
use crate::Sealed;
use vstd::prelude::*;

verus! {

/// The first code point of the lowercase mapping of `c`.
pub uninterp spec fn mono_lowercase_of(c: char) -> char;

/// The ASCII lowercase of `c`: `A`–`Z` move to `a`–`z`, all else stays.
pub open spec fn ascii_lowercase_of(c: char) -> char {
    if 'A' <= c <= 'Z' {
        ((c as u8 + 32) as u8) as char
    } else {
        c
    }
}

/// The mono lowercase of `c`: on ASCII the ASCII lowercase, elsewhere the
/// first code point of the lowercase mapping.
pub open spec fn mono_lower(c: char) -> char {
    if (c as u32) < 0x80 {
        ascii_lowercase_of(c)
    } else {
        mono_lowercase_of(c)
    }
}

/// `char::to_lowercase`, first item: the mono lowercase of `c`. On ASCII the
/// mapping is the ASCII one.
#[verifier::external_body]
fn char_to_lowercase_first(c: char) -> (r: char)
    ensures
        r == mono_lowercase_of(c),
        (c as u32) < 0x80 ==> r == ascii_lowercase_of(c),
{
    c.to_lowercase().next().unwrap_or(c)
}

/// `String::push`: appends `c`.
#[verifier::external_body]
fn string_push(s: &mut String, c: char)
    ensures
        final(s)@ == old(s)@.push(c),
{
    s.push(c)
}

/// Builds the string whose code points are `v`.
pub fn string_of(v: &Vec<char>) -> (s: String)
    ensures
        s@ == v@,
{
    let mut s = String::new();
    let mut i: usize = 0;
    while i < v.len()
        invariant
            i <= v.len(),
            s@ == v@.take(i as int),
        decreases v.len() - i,
    {
        string_push(&mut s, v[i]);
        i += 1;
        assert(v@.take(i as int) =~= v@.take(i - 1).push(v@[i - 1]));
    }
    assert(v@.take(v.len() as int) =~= v@);
    s
}

/// The mono lowercase of one character.
pub fn to_mono_lowercase(c: char) -> (r: char)
    ensures
        r == mono_lower(c),
{
    char_to_lowercase_first(c)
}

/// The ASCII lowercase of one character.
pub fn to_ascii_lowercase(c: char) -> (r: char)
    ensures
        r == ascii_lowercase_of(c),
{
    if 'A' <= c && c <= 'Z' {
        ((c as u8) + 32) as char
    } else {
        c
    }
}

/// The mono lowercase of every character of `v`, in order.
pub fn mono_lowercase_chars(v: &Vec<char>) -> (r: Vec<char>)
    ensures
        r@ == v@.map_values(|c: char| mono_lower(c)),
{
    let mut r: Vec<char> = Vec::new();
    let mut i: usize = 0;
    while i < v.len()
        invariant
            i <= v.len(),
            r@ == v@.take(i as int).map_values(|c: char| mono_lower(c)),
        decreases v.len() - i,
    {
        r.push(to_mono_lowercase(v[i]));
        i += 1;
        assert(v@.take(i as int) =~= v@.take(i - 1).push(v@[i - 1]));
        assert(r@ =~= v@.take(i as int).map_values(|c: char| mono_lower(c)));
    }
    assert(v@.take(v.len() as int) =~= v@);
    r
}

/// The ASCII lowercase of every character of `v`, in order.
pub fn ascii_lowercase_chars(v: &Vec<char>) -> (r: Vec<char>)
    ensures
        r@ == v@.map_values(|c: char| ascii_lowercase_of(c)),
{
    let mut r: Vec<char> = Vec::new();
    let mut i: usize = 0;
    while i < v.len()
        invariant
            i <= v.len(),
            r@ == v@.take(i as int).map_values(|c: char| ascii_lowercase_of(c)),
        decreases v.len() - i,
    {
        r.push(to_ascii_lowercase(v[i]));
        i += 1;
        assert(v@.take(i as int) =~= v@.take(i - 1).push(v@[i - 1]));
        assert(r@ =~= v@.take(i as int).map_values(|c: char| ascii_lowercase_of(c)));
    }
    assert(v@.take(v.len() as int) =~= v@);
    r
}

/// Case mapping of a single character.
pub trait CharCaseExt: Sealed + Sized {
    /// The character this value stands for.
    spec fn as_char(self) -> char;

    /// The first code point of the character's lowercase mapping.
    fn to_mono_lowercase(self) -> (r: char)
        ensures
            r == mono_lower(self.as_char()),
    ;

    /// ASCII case folding: `A`–`Z` fold to `a`–`z`.
    fn to_simple_or_ascii_fold_case(self) -> (r: char)
        ensures
            r == ascii_lowercase_of(self.as_char()),
    ;
}

impl Sealed for char {

}

impl CharCaseExt for char {
    open spec fn as_char(self) -> char {
        self
    }

    fn to_mono_lowercase(self) -> (r: char) {
        self::to_mono_lowercase(self)
    }

    fn to_simple_or_ascii_fold_case(self) -> (r: char) {
        to_ascii_lowercase(self)
    }
}

/// Case mapping of a whole string, character by character.
pub trait StrCaseExt: Sealed {
    /// The characters this value stands for.
    spec fn as_chars(&self) -> Seq<char>;

    /// Every character replaced by its mono lowercase.
    fn to_mono_lowercase(&self) -> (r: String)
        ensures
            r@ == self.as_chars().map_values(|c: char| mono_lower(c)),
    ;

    /// Every character replaced by its ASCII case folding.
    fn to_simple_or_ascii_fold_case(&self) -> (r: String)
        ensures
            r@ == self.as_chars().map_values(|c: char| ascii_lowercase_of(c)),
    ;
}

impl Sealed for str {

}

impl StrCaseExt for str {
    open spec fn as_chars(&self) -> Seq<char> {
        self@
    }

    fn to_mono_lowercase(&self) -> (r: String) {
        let v = chars_of(self);
        let l = mono_lowercase_chars(&v);
        string_of(&l)
    }

    fn to_simple_or_ascii_fold_case(&self) -> (r: String) {
        let v = chars_of(self);
        let l = ascii_lowercase_chars(&v);
        string_of(&l)
    }
}

} // verus!
