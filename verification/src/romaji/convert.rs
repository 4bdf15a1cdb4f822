//! Matching Hepburn romaji against the variants that input methods accept:
//! `n'` may be typed `nn`, and `tch` may be typed `cch`.
use vstd::prelude::*;
use vstd::slice::slice_subrange;
use vstd::utf8::*;

verus! {

/// What may be typed in place of the apostrophe.
pub const APOSTROPHE_ALT: char = 'n';

/// The unit that may be typed in place of the romaji unit `r`; `'\0'` when
/// there is none.
pub open spec fn ime_alt(r: char) -> char {
    if r == '\'' {
        'n'
    } else if r == 't' {
        'c'
    } else {
        '\0'
    }
}

/// Whether the typed unit `s` stands for the romaji unit `r`, which is
/// followed by `r_next` (`'\0'` at the end): either they are equal, or `s` is
/// the alternative of `r`, where `c` may stand for `t` only before `c`.
pub open spec fn eq_ime(s: char, r: char, r_next: char) -> bool {
    s == r || (s == ime_alt(r) && (r != 't' || r_next == 'c'))
}

/// The unit after index `i` of `r`, or `'\0'` at the end.
pub open spec fn unit_after(r: Seq<char>, i: int) -> char {
    if i + 1 < r.len() {
        r[i + 1]
    } else {
        '\0'
    }
}

/// Whether the typed text `s` stands, unit for unit, for the romaji `r` of
/// the same length.
pub open spec fn eq_ime_seq(s: Seq<char>, r: Seq<char>) -> bool {
    &&& s.len() == r.len()
    &&& forall|i: int| 0 <= i < r.len() ==> eq_ime(s[i], #[trigger] r[i], unit_after(r, i))
}

/// Each byte read as the code point of the same value.
pub open spec fn bytes_as_chars(b: Seq<u8>) -> Seq<char> {
    b.map_values(|x: u8| x as char)
}

/// The table of alternatives: entry `r` holds what may be typed in place of
/// the ASCII unit `r`, and 0 where there is none.
pub fn hepburn_ime_map() -> (map: [u8; 128])
    ensures
        forall|r: int| 0 <= r < 128 ==> (#[trigger] map[r]) as char == ime_alt((r as u8) as char),
{
    let mut map = [0u8;128];
    map[39] = 110;
    map[116] = 99;
    map
}

/// What may be typed in place of the byte `r`; 0 when there is none.
fn ime_alt_byte(r: u8) -> (a: u8)
    ensures
        a as char == ime_alt(r as char),
{
    if r == 39 {
        110
    } else if r == 116 {
        99
    } else {
        0
    }
}

/// Whether the typed byte `s` stands for the romaji byte `r` followed by
/// `r_next`.
fn eq_ignore_hepburn_ime_c(s: u8, r: u8, r_next: u8) -> (b: bool)
    ensures
        b == eq_ime(s as char, r as char, r_next as char),
{
    s == r || s == ime_alt_byte(r) && (r != 116 || r_next == 99)
}

/// Whether the typed unit `s` stands for the romaji unit `r` followed by
/// `r_next`.
pub fn eq_ime_char(s: char, r: char, r_next: char) -> (b: bool)
    ensures
        b == eq_ime(s, r, r_next),
{
    let alt = if r == '\'' {
        'n'
    } else if r == 't' {
        'c'
    } else {
        '\0'
    };
    s == r || s == alt && (r != 't' || r_next == 'c')
}

/// Whether `s` stands for the romaji `romaji` of the same, non-zero length.
pub fn eq_ignore_hepburn_ime_equisized(s: &[u8], romaji: &[u8]) -> (b: bool)
    requires
        romaji@.len() > 0,
        s@.len() == romaji@.len(),
    ensures
        b == eq_ime_seq(bytes_as_chars(s@), bytes_as_chars(romaji@)),
{
    let ghost sc = bytes_as_chars(s@);
    let ghost rc = bytes_as_chars(romaji@);
    let mut i: usize = 0;
    let len = romaji.len() - 1;
    while i < len
        invariant
            i <= len,
            len == romaji@.len() - 1,
            s@.len() == romaji@.len(),
            sc == bytes_as_chars(s@),
            rc == bytes_as_chars(romaji@),
            forall|j: int| 0 <= j < i ==> eq_ime(sc[j], #[trigger] rc[j], unit_after(rc, j)),
        decreases len - i,
    {
        if !eq_ignore_hepburn_ime_c(s[i], romaji[i], romaji[i + 1]) {
            assert(!eq_ime(sc[i as int], rc[i as int], unit_after(rc, i as int)));
            return false;
        }
        i += 1;
    }
    if !eq_ignore_hepburn_ime_c(s[i], romaji[i], 0) {
        assert(!eq_ime(sc[i as int], rc[i as int], unit_after(rc, i as int)));
        return false;
    }
    true
}

/// Whether the typed text `s` begins with a variant of `romaji`: `romaji` is
/// empty, or its length is a code-point boundary of `s` and the bytes of `s`
/// up to there stand for `romaji`.
pub open spec fn starts_with_ime(s: Seq<char>, romaji: Seq<char>) -> bool {
    let sb = encode_utf8(s);
    let rb = encode_utf8(romaji);
    rb.len() == 0 || (rb.len() <= sb.len() && is_char_boundary(sb, rb.len() as int)
        && eq_ime_seq(bytes_as_chars(sb.subrange(0, rb.len() as int)), bytes_as_chars(rb)))
}

/// Whether the typed text `s` begins with `romaji` or with a variant of it
/// that input methods accept.
pub fn starts_with_ignore_hepburn_ime(s: &str, romaji: &str) -> (b: bool)
    ensures
        b == starts_with_ime(s@, romaji@),
{
    let sb = s.as_bytes();
    let rb = romaji.as_bytes();
    if rb.len() == 0 {
        return true;
    }
    if rb.len() > sb.len() || !s.is_char_boundary(rb.len()) {
        return false;
    }
    let head = slice_subrange(sb, 0, rb.len());
    eq_ignore_hepburn_ime_equisized(head, rb)
}

/// Whether `romaji` begins with what the typed text `s` stands for: `s` is
/// empty, or its length is a code-point boundary of `romaji` and `s` stands
/// for the bytes of `romaji` up to there.
pub open spec fn romaji_starts_with_ime(romaji: Seq<char>, s: Seq<char>) -> bool {
    let sb = encode_utf8(s);
    let rb = encode_utf8(romaji);
    sb.len() == 0 || (sb.len() <= rb.len() && is_char_boundary(rb, sb.len() as int)
        && eq_ime_seq(bytes_as_chars(sb), bytes_as_chars(rb.subrange(0, sb.len() as int))))
}

/// Whether `romaji`, or a variant of it that input methods accept, begins
/// with the typed text `s`.
pub fn romaji_starts_with_ignore_hepburn_ime(romaji: &str, s: &str) -> (b: bool)
    ensures
        b == romaji_starts_with_ime(romaji@, s@),
{
    let sb = s.as_bytes();
    let rb = romaji.as_bytes();
    if sb.len() == 0 {
        return true;
    }
    if sb.len() > rb.len() || !romaji.is_char_boundary(sb.len()) {
        return false;
    }
    let head = slice_subrange(rb, 0, sb.len());
    eq_ignore_hepburn_ime_equisized(sb, head)
}

/// Whether the `n` units of `s` from `from` stand for the `n` units of `r`
/// from the start: unit for unit, the last of them compared as the last unit
/// of a romaji.
pub fn eq_ime_chars(s: &[char], from: usize, r: &[char], n: usize) -> (b: bool)
    requires
        from + n <= s@.len(),
        n <= r@.len(),
    ensures
        b == eq_ime_seq(s@.subrange(from as int, from + n), r@.take(n as int)),
{
    let ghost sc = s@.subrange(from as int, from + n);
    let ghost rc = r@.take(n as int);
    let mut i: usize = 0;
    while i < n
        invariant
            i <= n,
            from + n <= s@.len(),
            s@.len() == s.len(),
            n <= r@.len(),
            sc == s@.subrange(from as int, from + n),
            rc == r@.take(n as int),
            forall|j: int| 0 <= j < i ==> eq_ime(sc[j], #[trigger] rc[j], unit_after(rc, j)),
        decreases n - i,
    {
        let next = if i + 1 < n {
            r[i + 1]
        } else {
            '\0'
        };
        if !eq_ime_char(s[from + i], r[i], next) {
            assert(!eq_ime(sc[i as int], rc[i as int], unit_after(rc, i as int)));
            return false;
        }
        i += 1;
    }
    true
}

} // verus!
