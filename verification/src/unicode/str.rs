//! Walking UTF-8 bytes one code point at a time, and rounding byte offsets to
//! code-point boundaries.
use vstd::prelude::*;
use vstd::utf8::*;

verus! {

/// The bytes of `h` from offset `i` to the end.
pub open spec fn suffix(h: Seq<u8>, i: int) -> Seq<u8> {
    h.subrange(i, h.len() as int)
}

/// The code point that starts at the boundary `i` of `h`.
pub open spec fn char_at(h: Seq<u8>, i: int) -> char {
    decode_first_scalar(suffix(h, i)) as char
}

/// The number of bytes of the code point that starts at the boundary `i`.
pub open spec fn char_len_at(h: Seq<u8>, i: int) -> int {
    length_of_first_scalar(suffix(h, i))
}

/// The number of bytes that `c` takes in UTF-8.
pub open spec fn utf8_len(c: char) -> int {
    encode_scalar(c as u32).len() as int
}

/// `i` is an offset of `h` that no code point straddles.
pub open spec fn on_boundary(h: Seq<u8>, i: int) -> bool {
    0 <= i <= h.len() && is_char_boundary(h, i)
}

/// At a boundary inside valid UTF-8 a whole, well-formed code point starts.
pub proof fn lemma_char_at_boundary(h: Seq<u8>, i: int)
    requires
        valid_utf8(h),
        on_boundary(h, i),
        i < h.len(),
    ensures
        valid_utf8(suffix(h, i)),
        valid_first_scalar(suffix(h, i)),
        1 <= char_len_at(h, i) <= 4,
        i + char_len_at(h, i) <= h.len(),
        on_boundary(h, i + char_len_at(h, i)),
        is_scalar(decode_first_scalar(suffix(h, i))),
        utf8_len(char_at(h, i)) == char_len_at(h, i),
        suffix(h, i + char_len_at(h, i)) == pop_first_scalar(suffix(h, i)),
        suffix(h, i).subrange(0, char_len_at(h, i)) == encode_scalar(char_at(h, i) as u32),
{
    let s = suffix(h, i);
    valid_utf8_split(h, i);
    assert(valid_first_scalar(s));
    let n = char_len_at(h, i);
    let rest = pop_first_scalar(s);
    assert(rest =~= suffix(h, i + n));
    assert(valid_utf8(rest));
    if i + n < h.len() {
        assert(valid_first_scalar(rest));
        assert(rest[0] == h[i + n]);
        is_char_boundary_iff_not_is_continuation_byte(h, i + n);
    } else {
        is_char_boundary_start_end_of_seq(h);
    }
    decode_utf8_first_scalar(s);
    let cp = decode_first_scalar(s);
    assert(is_scalar(cp)) by {
        lemma_decoded_is_scalar(s);
    }
    assert((cp as char) as u32 == cp);
    assert(take_first_scalar(s) =~= s.subrange(0, n));
}

/// A well-formed first code point is a Unicode scalar value.
proof fn lemma_decoded_is_scalar(s: Seq<u8>)
    requires
        valid_first_scalar(s),
    ensures
        is_scalar(decode_first_scalar(s)),
{
    let b0 = s[0];
    if is_leading_byte_width_1(b0) {
        assert((b0 & 0x7f) as u32 <= 0x7f) by (bit_vector);
    } else if is_leading_byte_width_2(b0) {
        let b1 = s[1];
        assert((((b0 & 0x1f) as u32) << 6 | ((b1 & 0x3f) as u32)) <= 0x7ff) by (bit_vector);
    } else if is_leading_byte_width_3(b0) {
        let b1 = s[1];
        let b2 = s[2];
        assert((((b0 & 0x0f) as u32) << 12 | ((b1 & 0x3f) as u32) << 6 | ((b2 & 0x3f) as u32))
            <= 0xffff) by (bit_vector);
    } else {
    }
}

/// `char::from_u32`: the char with scalar value `v`, and `None` exactly when
/// `v` is a surrogate or lies above `0x10FFFF`.
#[verifier::external_body]
fn char_from_u32(v: u32) -> (r: Option<char>)
    ensures
        is_scalar(v) ==> r == Some(v as char),
        !is_scalar(v) ==> r.is_none(),
{
    char::from_u32(v)
}

/// `core::str::from_utf8`: the string slice over the bytes, where they are
/// valid UTF-8.
#[verifier::external_body]
pub(crate) fn str_from_utf8(b: &[u8]) -> (r: Option<&str>)
    ensures
        valid_utf8(b@) ==> r is Some && encode_utf8(r.unwrap()@) == b@,
        !valid_utf8(b@) ==> r is None,
{
    core::str::from_utf8(b).ok()
}

/// `String::from_utf8`: the string with the given bytes, where they are
/// valid UTF-8.
#[verifier::external_body]
pub(crate) fn string_from_utf8(b: Vec<u8>) -> (r: Option<String>)
    ensures
        valid_utf8(b@) ==> r is Some && encode_utf8(r.unwrap()@) == b@,
        !valid_utf8(b@) ==> r is None,
{
    String::from_utf8(b).ok()
}

/// Whether the bytes are valid UTF-8.
pub fn is_utf8(b: &[u8]) -> (r: bool)
    ensures
        r == valid_utf8(b@),
{
    str_from_utf8(b).is_some()
}

/// Decodes the code point that starts at the boundary `i` of `h`; returns it
/// with the number of bytes it takes.
pub fn next_char(h: &[u8], i: usize) -> (r: (char, usize))
    requires
        valid_utf8(h@),
        on_boundary(h@, i as int),
        i < h.len(),
    ensures
        r.0 == char_at(h@, i as int),
        r.1 == char_len_at(h@, i as int),
        1 <= r.1 <= 4,
        i + r.1 <= h.len(),
        on_boundary(h@, i + r.1),
{
    proof {
        lemma_char_at_boundary(h@, i as int);
    }
    let ghost s = suffix(h@, i as int);
    let b0 = h[i];
    assert(s[0] == b0);
    let (cp, n): (u32, usize) = if b0 < 0x80 {
        ((b0 & 0x7f) as u32, 1)
    } else if b0 < 0xe0 {
        let b1 = h[i + 1];
        assert(s[1] == b1);
        ((((b0 & 0x1f) as u32) << 6) | ((b1 & 0x3f) as u32), 2)
    } else if b0 < 0xf0 {
        let b1 = h[i + 1];
        let b2 = h[i + 2];
        assert(s[1] == b1 && s[2] == b2);
        ((((b0 & 0x0f) as u32) << 12) | (((b1 & 0x3f) as u32) << 6) | ((b2 & 0x3f) as u32), 3)
    } else {
        let b1 = h[i + 1];
        let b2 = h[i + 2];
        let b3 = h[i + 3];
        assert(s[1] == b1 && s[2] == b2 && s[3] == b3);
        (
            (((b0 & 0x07) as u32) << 18) | (((b1 & 0x3f) as u32) << 12) | (((b2 & 0x3f) as u32)
                << 6) | ((b3 & 0x3f) as u32),
            4,
        )
    };
    assert(cp == decode_first_scalar(s));
    match char_from_u32(cp) {
        Some(c) => (c, n),
        None => {
            assert(false);
            ('\0', n)
        },
    }
}

/// Decodes all of `h`.
pub fn decode(h: &[u8]) -> (r: Vec<char>)
    requires
        valid_utf8(h@),
    ensures
        r@ == decode_utf8(h@),
{
    let mut r: Vec<char> = Vec::new();
    let mut i: usize = 0;
    proof {
        is_char_boundary_start_end_of_seq(h@);
        assert(suffix(h@, 0) =~= h@);
    }
    while i < h.len()
        invariant
            valid_utf8(h@),
            on_boundary(h@, i as int),
            valid_utf8(suffix(h@, i as int)),
            r@ + decode_utf8(suffix(h@, i as int)) == decode_utf8(h@),
        decreases h.len() - i,
    {
        let (c, n) = next_char(h, i);
        proof {
            lemma_char_at_boundary(h@, i as int);
            let s = suffix(h@, i as int);
            assert(decode_utf8(s) == seq![c] + decode_utf8(pop_first_scalar(s)));
            assert(r@.push(c) + decode_utf8(suffix(h@, i + n)) =~= r@ + decode_utf8(s));
        }
        r.push(c);
        i += n;
    }
    proof {
        assert(suffix(h@, i as int) =~= Seq::<u8>::empty());
        assert(decode_utf8(suffix(h@, i as int)) =~= Seq::<char>::empty());
        assert(r@ + Seq::<char>::empty() =~= r@);
    }
    r
}

/// The code points of `s`.
pub fn chars_of(s: &str) -> (r: Vec<char>)
    ensures
        r@ == s@,
{
    proof {
        encode_utf8_valid_utf8(s@);
        encode_utf8_decode_utf8(s@);
    }
    decode(s.as_bytes())
}

/// The largest boundary of `h` that is at most `index`, or `h.len()` when
/// `index` lies past the end.
pub open spec fn floor_boundary(h: Seq<u8>, index: int) -> int
    decreases index,
{
    if index >= h.len() {
        h.len() as int
    } else if index <= 0 || !is_continuation_byte(h[index]) {
        index
    } else {
        floor_boundary(h, index - 1)
    }
}

/// The smallest boundary of `h` that is at least `index`, or `h.len()` when
/// `index` lies past the end.
pub open spec fn ceil_boundary(h: Seq<u8>, index: int) -> int
    decreases h.len() - index,
{
    if index >= h.len() {
        h.len() as int
    } else if index < 0 || !is_continuation_byte(h[index]) {
        index
    } else {
        ceil_boundary(h, index + 1)
    }
}

/// `floor_boundary` is a boundary, is at most `index`, and no boundary lies
/// strictly between it and `index`.
pub proof fn lemma_floor_boundary(h: Seq<u8>, index: int)
    requires
        valid_utf8(h),
        0 <= index,
    ensures
        on_boundary(h, floor_boundary(h, index)),
        floor_boundary(h, index) <= index,
        index <= h.len() ==> forall|j: int|
            floor_boundary(h, index) < j <= index ==> !is_char_boundary(h, j),
        index > h.len() ==> floor_boundary(h, index) == h.len(),
    decreases index,
{
    is_char_boundary_start_end_of_seq(h);
    if index >= h.len() {
    } else if index == 0 || !is_continuation_byte(h[index]) {
        is_char_boundary_iff_not_is_continuation_byte(h, index);
    } else {
        lemma_floor_boundary(h, index - 1);
        is_char_boundary_iff_not_is_continuation_byte(h, index);
    }
}

/// `ceil_boundary` is a boundary, is at least `index` (or the length), and no
/// boundary lies strictly between `index` and it.
pub proof fn lemma_ceil_boundary(h: Seq<u8>, index: int)
    requires
        valid_utf8(h),
        0 <= index,
    ensures
        on_boundary(h, ceil_boundary(h, index)),
        index <= h.len() ==> index <= ceil_boundary(h, index),
        forall|j: int| index <= j < ceil_boundary(h, index) ==> !is_char_boundary(h, j),
        index > h.len() ==> ceil_boundary(h, index) == h.len(),
    decreases h.len() - index,
{
    is_char_boundary_start_end_of_seq(h);
    if index >= h.len() {
    } else if !is_continuation_byte(h[index]) {
        is_char_boundary_iff_not_is_continuation_byte(h, index);
    } else {
        lemma_ceil_boundary(h, index + 1);
        is_char_boundary_iff_not_is_continuation_byte(h, index);
    }
}

/// Rounds `index` down to a code-point boundary of `h`.
pub fn floor_char_boundary_bytes(h: &[u8], index: usize) -> (r: usize)
    ensures
        r == floor_boundary(h@, index as int),
        r <= index,
        r <= h.len(),
{
    if index >= h.len() {
        return h.len();
    }
    let mut j: usize = index;
    while j > 0 && 0x80 <= h[j] && h[j] <= 0xbf
        invariant
            j <= index < h.len(),
            floor_boundary(h@, j as int) == floor_boundary(h@, index as int),
        decreases j,
    {
        j -= 1;
    }
    j
}

/// Rounds `index` up to a code-point boundary of `h`.
pub fn ceil_char_boundary_bytes(h: &[u8], index: usize) -> (r: usize)
    ensures
        r == ceil_boundary(h@, index as int),
        r <= h.len(),
        index <= h.len() ==> index <= r,
{
    if index >= h.len() {
        return h.len();
    }
    let mut j: usize = index;
    while j < h.len() && 0x80 <= h[j] && h[j] <= 0xbf
        invariant
            index <= j <= h.len(),
            ceil_boundary(h@, j as int) == ceil_boundary(h@, index as int),
        decreases h.len() - j,
    {
        j += 1;
    }
    j
}

/// Rounds `index` down to a code-point boundary of `s`: the result is a
/// boundary, at most `index`, and the nearest such.
pub fn floor_char_boundary(s: &str, index: usize) -> (r: usize)
    ensures
        r == floor_boundary(encode_utf8(s@), index as int),
        on_boundary(encode_utf8(s@), r as int),
        r <= index,
{
    proof {
        encode_utf8_valid_utf8(s@);
        lemma_floor_boundary(encode_utf8(s@), index as int);
    }
    floor_char_boundary_bytes(s.as_bytes(), index)
}

/// Rounds `index` up to a code-point boundary of `s`: the result is a
/// boundary, at least `index` unless `index` lies past the end, and the
/// nearest such.
pub fn ceil_char_boundary(s: &str, index: usize) -> (r: usize)
    ensures
        r == ceil_boundary(encode_utf8(s@), index as int),
        on_boundary(encode_utf8(s@), r as int),
        index <= encode_utf8(s@).len() ==> index <= r,
{
    proof {
        encode_utf8_valid_utf8(s@);
        lemma_ceil_boundary(encode_utf8(s@), index as int);
    }
    ceil_char_boundary_bytes(s.as_bytes(), index)
}

} // verus!
