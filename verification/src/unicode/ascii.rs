//! Scans of byte strings for non-ASCII bytes and for one of two needles.
use vstd::prelude::*;
use vstd::slice::slice_subrange;

verus! {

/// `r` is the index of the first byte of `b` that satisfies `hit`, or `None`
/// when no byte does.
pub open spec fn is_first_hit(b: Seq<u8>, hit: spec_fn(u8) -> bool, r: Option<usize>) -> bool {
    match r {
        Some(i) => i < b.len() && hit(b[i as int]) && forall|j: int| 0 <= j < i ==> !hit(b[j]),
        None => forall|j: int| 0 <= j < b.len() ==> !hit(b[j]),
    }
}

/// A byte outside the ASCII range.
pub open spec fn non_ascii(x: u8) -> bool {
    x >= 0x80
}

/// A byte equal to one of the two needles.
pub open spec fn one_of(needle1: u8, needle2: u8) -> spec_fn(u8) -> bool {
    |x: u8| x == needle1 || x == needle2
}

/// A byte that is non-ASCII or equal to one of the two needles.
pub open spec fn one_of_or_non_ascii(needle1: u8, needle2: u8) -> spec_fn(u8) -> bool {
    |x: u8| x == needle1 || x == needle2 || x >= 0x80
}

/// `bstr::ByteSlice::find_non_ascii_byte`: the index of the first byte with a
/// value of `0x80` or more, if there is one.
#[verifier::external_body]
fn bstr_find_non_ascii_byte(b: &[u8]) -> (r: Option<usize>)
    ensures
        is_first_hit(b@, |x: u8| non_ascii(x), r),
{
    bstr::ByteSlice::find_non_ascii_byte(b)
}

/// `memchr::memchr2`: the index of the first occurrence of either needle in
/// the haystack, if there is one.
#[verifier::external_body]
fn memchr_memchr2(needle1: u8, needle2: u8, haystack: &[u8]) -> (r: Option<usize>)
    ensures
        is_first_hit(haystack@, one_of(needle1, needle2), r),
{
    memchr::memchr2(needle1, needle2, haystack)
}

/// Returns the index of the first non-ASCII byte of `b`, if any.
pub fn find_non_ascii_byte(b: &[u8]) -> (r: Option<usize>)
    ensures
        is_first_hit(b@, |x: u8| non_ascii(x), r),
{
    bstr_find_non_ascii_byte(b)
}

/// Returns the index of the first occurrence of `needle1` or `needle2` in
/// `haystack`, if any.
pub fn find_byte2(haystack: &[u8], needle1: u8, needle2: u8) -> (r: Option<usize>)
    ensures
        is_first_hit(haystack@, one_of(needle1, needle2), r),
{
    memchr_memchr2(needle1, needle2, haystack)
}

/// Returns the index of the first byte of `haystack` that is `needle1`,
/// `needle2` or non-ASCII, if any.
pub fn find_byte2_or_non_ascii_byte(haystack: &[u8], needle1: u8, needle2: u8) -> (r: Option<
    usize,
>)
    ensures
        is_first_hit(haystack@, one_of_or_non_ascii(needle1, needle2), r),
{
    match find_non_ascii_byte(haystack) {
        Some(m) => {
            let head = slice_subrange(haystack, 0, m);
            assert(forall|j: int| 0 <= j < m ==> head@[j] == haystack@[j]);
            match find_byte2(head, needle1, needle2) {
                Some(m2) => {
                    assert(forall|j: int|
                        0 <= j < m2 ==> !one_of(needle1, needle2)(head@[j]) && !non_ascii(
                            haystack@[j],
                        ));
                    Some(m2)
                },
                None => {
                    assert(forall|j: int|
                        0 <= j < m ==> !one_of(needle1, needle2)(head@[j]) && !non_ascii(
                            haystack@[j],
                        ));
                    Some(m)
                },
            }
        },
        None => {
            let r = find_byte2(haystack, needle1, needle2);
            assert(forall|j: int| 0 <= j < haystack@.len() ==> !non_ascii(haystack@[j]));
            r
        },
    }
}

/// Whether every byte of `b` is ASCII.
pub fn is_ascii_bytes(b: &[u8]) -> (r: bool)
    ensures
        r == (forall|j: int| 0 <= j < b@.len() ==> b@[j] < 0x80),
{
    let f = find_non_ascii_byte(b);
    f.is_none()
}

} // verus!
