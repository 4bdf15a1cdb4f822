//! A haystack with what the matcher should know about it.
use crate::unicode::str::{floor_boundary, floor_char_boundary, lemma_floor_boundary};
use vstd::prelude::*;
use vstd::utf8::*;

verus! {

/// A haystack, and whether it is cut off from the real start of the text it
/// was taken from.
#[derive(Clone, Copy, Debug)]
pub struct Input<'h> {
    pub haystack: &'h str,
    /// The haystack does not include the real start of the text.
    pub no_start: bool,
}

impl<'h> Input<'h> {
    /// The whole text `haystack`.
    pub fn new(haystack: &'h str) -> (r: Self)
        ensures
            r.haystack == haystack,
            !r.no_start,
    {
        Input { haystack, no_start: false }
    }

    /// Says whether the haystack is cut off from the real start.
    pub fn no_start(self, no_start: bool) -> (r: Self)
        ensures
            r.haystack == self.haystack,
            r.no_start == no_start,
    {
        Input { haystack: self.haystack, no_start }
    }
}

impl<'h> Input<'h> {
    /// The searched span of a regex input as a haystack of its own: what
    /// lies between the start of the span and its end, without the code
    /// point that the end cuts in two. `None` where the span starts inside
    /// a code point or behind its end.
    pub fn from_regex(input: &crate::regex::backtrack::Input<'h>) -> (r: Option<Self>)
        ensures
            match r {
                Some(x) => {
                    let h = encode_utf8(input.haystack@);
                    &&& is_char_boundary(h, input.start as int)
                    &&& input.start <= input.span_end()
                    &&& encode_utf8(x.haystack@) == h.subrange(
                        input.start as int,
                        floor_boundary(h, input.span_end()),
                    )
                    &&& x.no_start == (input.start != 0)
                },
                None => !is_char_boundary(encode_utf8(input.haystack@), input.start as int)
                    || input.start > input.span_end(),
            },
    {
        let hs = input.haystack;
        let len = hs.as_bytes().len();
        let end = match input.end {
            Some(e) => if e <= len {
                e
            } else {
                len
            },
            None => len,
        };
        if input.start > end || !hs.is_char_boundary(input.start) {
            return None;
        }
        let shown_len = floor_char_boundary(hs, end);
        proof {
            let h = encode_utf8(hs@);
            encode_utf8_valid_utf8(hs@);
            lemma_floor_boundary(h, end as int);
            if shown_len < input.start {
                assert(!is_char_boundary(h, input.start as int));
            }
        }
        let (head, _) = hs.split_at(shown_len);
        proof {
            let h = encode_utf8(hs@);
            let hh = encode_utf8(head@);
            assert(hh == h.subrange(0, shown_len as int));
            if input.start < shown_len {
                is_char_boundary_iff_not_is_continuation_byte(h, input.start as int);
                encode_utf8_valid_utf8(head@);
                assert(hh[input.start as int] == h[input.start as int]);
                is_char_boundary_iff_not_is_continuation_byte(hh, input.start as int);
            } else {
                encode_utf8_valid_utf8(head@);
                is_char_boundary_start_end_of_seq(hh);
            }
        }
        let (_, tail) = head.split_at(input.start);
        proof {
            let h = encode_utf8(hs@);
            let hh = encode_utf8(head@);
            assert(hh.subrange(input.start as int, hh.len() as int) =~= h.subrange(
                input.start as int,
                shown_len as int,
            ));
        }
        Some(Input { haystack: tail, no_start: input.start != 0 })
    }
}

} // verus!
