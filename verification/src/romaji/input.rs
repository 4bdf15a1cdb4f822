//! A position inside a haystack.
//!
//! Japanese is contextual: the reading of a character may depend on the
//! character before it. So the romaniser is handed the whole haystack
//! together with the offset at which to read.
use vstd::prelude::*;
use vstd::std_specs::convert::FromSpecImpl;
use vstd::utf8::{encode_utf8, is_char_boundary};

verus! {

/// A haystack and the byte offset at which reading starts.
#[derive(Clone, Copy, Debug)]
pub struct Input<'h> {
    haystack: &'h str,
    start: usize,
}

impl<'h> Input<'h> {
    /// The haystack of this input.
    pub closed spec fn text(self) -> &'h str {
        self.haystack
    }

    /// The offset of this input.
    pub closed spec fn offset(self) -> usize {
        self.start
    }

    pub fn new(haystack: &'h str, start: usize) -> (r: Self)
        ensures
            r.text() == haystack,
            r.offset() == start,
    {
        Self { haystack, start }
    }

    pub fn haystack(&self) -> (r: &'h str)
        ensures
            r == self.text(),
    {
        self.haystack
    }

    pub fn start(&self) -> (r: usize)
        ensures
            r == self.offset(),
    {
        self.start
    }

    /// Whether nothing is left to read: the offset lies at or behind the end
    /// of the haystack.
    pub fn is_empty(&self) -> (r: bool)
        ensures
            r == (self.offset() >= encode_utf8(self.text()@).len()),
    {
        self.start >= self.haystack.as_bytes().len()
    }

    /// What is left to read: the haystack from the offset on. The offset
    /// has to be a code-point boundary of the haystack.
    pub fn as_ref(&self) -> (r: &'h str)
        requires
            is_char_boundary(encode_utf8(self.text()@), self.offset() as int),
        ensures
            encode_utf8(r@) == encode_utf8(self.text()@).subrange(
                self.offset() as int,
                encode_utf8(self.text()@).len() as int,
            ),
    {
        let (_, tail) = self.haystack.split_at(self.start);
        tail
    }
}

impl<'h> From<&'h str> for Input<'h> {
    /// The haystack, read from its start.
    fn from(haystack: &'h str) -> (r: Self)
        ensures
            r.text() == haystack,
            r.offset() == 0,
    {
        Input { haystack, start: 0 }
    }
}

impl<'h> FromSpecImpl<&'h str> for Input<'h> {
    open spec fn obeys_from_spec() -> bool {
        true
    }

    closed spec fn from_spec(v: &'h str) -> Self {
        Input { haystack: v, start: 0 }
    }
}

} // verus!
