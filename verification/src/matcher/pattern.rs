//! A pattern together with the language it is restricted to.
use vstd::prelude::*;
use vstd::std_specs::convert::FromSpecImpl;

verus! {

/// A restriction of a pattern to one way of matching.
#[derive(Clone, Copy, Debug, PartialEq, Eq, Structural)]
pub enum LangOnly {
    /// Only plain matching: neither pinyin nor romaji.
    English,
    /// Only pinyin matching.
    Pinyin,
    /// Only romaji matching.
    Romaji,
}

/// A pattern and, if any, the language it is restricted to.
#[derive(Clone, Copy, Debug)]
pub struct Pattern<'a> {
    pub pattern: &'a str,
    pub lang_only: Option<LangOnly>,
}

impl<'a> Pattern<'a> {
    /// The pattern `pattern` without restriction.
    pub fn new(pattern: &'a str) -> (r: Self)
        ensures
            r.pattern@ == pattern@,
            r.lang_only is None,
    {
        Pattern { pattern, lang_only: None }
    }
}

/// `From::from` of a type for itself, which std documents as reflexive:
/// it hands its argument back.
pub assume_specification<T>[ <T as From<T>>::from ](t: T) -> (r: T)
    ensures
        r == t,
;

impl<'a> From<&'a str> for Pattern<'a> {
    /// The pattern `pattern` without restriction.
    fn from(pattern: &'a str) -> (r: Self)
        ensures
            r.pattern@ == pattern@,
            r.lang_only is None,
    {
        Pattern { pattern, lang_only: None }
    }
}

impl<'a> FromSpecImpl<&'a str> for Pattern<'a> {
    open spec fn obeys_from_spec() -> bool {
        true
    }

    open spec fn from_spec(v: &'a str) -> Self {
        Pattern { pattern: v, lang_only: None }
    }
}

} // verus!
