//! Match results: byte offsets into the haystack plus the partial flag.
use crate::Sealed;
use std::ops::Range;
use vstd::prelude::*;

use vstd::arithmetic::div_mod::lemma_div_is_ordered;

verus! {

/// A successful match: the half-open byte range `start..end` of the haystack,
/// and whether the pattern ended inside a reading.
#[derive(Clone, Copy, Debug)]
pub struct Match {
    start: usize,
    end: usize,
    is_pattern_partial: bool,
}

impl Match {
    #[verifier::type_invariant]
    spec fn ordered(self) -> bool {
        self.start <= self.end
    }

    /// Byte offset at which the match begins.
    pub closed spec fn start_offset(self) -> usize {
        self.start
    }

    /// Byte offset just past the match.
    pub closed spec fn end_offset(self) -> usize {
        self.end
    }

    /// Whether the pattern's tail was a proper prefix of the last reading.
    pub closed spec fn partial(self) -> bool {
        self.is_pattern_partial
    }

    pub(crate) fn new(start: usize, end: usize, is_pattern_partial: bool) -> (m: Match)
        requires
            start <= end,
        ensures
            m.start_offset() == start,
            m.end_offset() == end,
            m.partial() == is_pattern_partial,
    {
        Match { start, end, is_pattern_partial }
    }

    pub fn start(&self) -> (r: usize)
        ensures
            r == self.start_offset(),
    {
        self.start
    }

    pub fn end(&self) -> (r: usize)
        ensures
            r == self.end_offset(),
            self.start_offset() <= r,
    {
        proof {
            use_type_invariant(self);
        }
        self.end
    }

    pub fn range(&self) -> (r: Range<usize>)
        ensures
            r.start == self.start_offset(),
            r.end == self.end_offset(),
    {
        self.start..self.end
    }

    pub fn len(&self) -> (r: usize)
        ensures
            r == self.end_offset() - self.start_offset(),
    {
        proof {
            use_type_invariant(self);
        }
        self.end - self.start
    }

    pub fn is_empty(&self) -> (r: bool)
        ensures
            r == (self.start_offset() == self.end_offset()),
    {
        proof {
            use_type_invariant(self);
        }
        self.start >= self.end
    }

    pub fn is_pattern_partial(&self) -> (r: bool)
        ensures
            r == self.partial(),
    {
        self.is_pattern_partial
    }

    /// Returns a new match with `offset` added to this match's `start` and
    /// `end` values.
    pub fn offset(&self, offset: usize) -> (m: Match)
        requires
            self.end_offset() + offset <= usize::MAX,
        ensures
            m.start_offset() == self.start_offset() + offset,
            m.end_offset() == self.end_offset() + offset,
            m.partial() == self.partial(),
    {
        proof {
            use_type_invariant(self);
        }
        Match {
            start: self.start + offset,
            end: self.end + offset,
            is_pattern_partial: self.is_pattern_partial,
        }
    }

    /// This match as the match of the only pattern of a regex.
    pub fn into_regex(self) -> (m: crate::regex::backtrack::Match)
        ensures
            m.pattern == 0,
            m.start == self.start_offset(),
            m.end == self.end_offset(),
    {
        crate::regex::backtrack::Match { pattern: 0, start: self.start, end: self.end }
    }

    /// Divides both offsets by `rhs`; used to convert byte offsets into
    /// offsets counted in wider code units.
    pub fn div(self, rhs: usize) -> (m: Match)
        requires
            rhs != 0,
        ensures
            m.start_offset() == self.start_offset() / rhs,
            m.end_offset() == self.end_offset() / rhs,
            m.partial() == self.partial(),
    {
        proof {
            use_type_invariant(&self);
            lemma_div_is_ordered(self.start as int, self.end as int, rhs as int);
        }
        Match {
            start: self.start / rhs,
            end: self.end / rhs,
            is_pattern_partial: self.is_pattern_partial,
        }
    }
}

/// What dividing an optional match by `rhs` gives.
pub open spec fn option_div(m: Option<Match>, rhs: usize, r: Option<Match>) -> bool {
    match m {
        Some(m) => r.is_some() && r.unwrap().start_offset() == m.start_offset() / rhs
            && r.unwrap().end_offset() == m.end_offset() / rhs && r.unwrap().partial()
            == m.partial(),
        None => r.is_none(),
    }
}

pub trait OptionMatchExt: Sealed + Sized {
    /// The optional match this value stands for.
    spec fn as_option(self) -> Option<Match>;

    /// Divides both offsets of the match, if any, by `rhs`.
    fn div(self, rhs: usize) -> (r: Option<Match>)
        requires
            rhs != 0,
        ensures
            option_div(self.as_option(), rhs, r),
    ;
}

impl Sealed for Option<Match> {

}

impl OptionMatchExt for Option<Match> {
    open spec fn as_option(self) -> Option<Match> {
        self
    }

    fn div(self, rhs: usize) -> (r: Option<Match>) {
        match self {
            Some(m) => Some(m.div(rhs)),
            None => None,
        }
    }
}

/// The outcome of matching a pattern suffix against a haystack suffix: the
/// number of haystack bytes consumed so far and the partial flag.
#[derive(Clone, Copy)]
pub struct SubMatch {
    pub len: usize,
    pub is_pattern_partial: bool,
}

impl SubMatch {
    pub fn new(len: usize, is_pattern_partial: bool) -> (s: Self)
        ensures
            s.len == len,
            s.is_pattern_partial == is_pattern_partial,
    {
        Self { len, is_pattern_partial }
    }
}

} // verus!
