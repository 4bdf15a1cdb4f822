//! The searcher for ASCII haystacks finds what the general algorithm finds.
use crate::matcher::ascii::{byte_eq, byte_lower, occurs};
use crate::matcher::laws::{lemma_lower_range, lemma_occurrence_from};
use crate::matcher::model::{
    all_ascii, find_ascii, find_from, find_general, literal_eq, model_wf,
    occurrence_from, sub_test, test_general, test_spec, too_short, LangState, MatcherModel,
};
use crate::unicode::case::{ascii_lowercase_of, mono_lower};
use crate::unicode::str::{char_at, char_len_at, on_boundary, suffix};
use vstd::prelude::*;
use vstd::utf8::*;

verus! {

/// An ASCII haystack is valid UTF-8.
pub proof fn lemma_ascii_is_utf8(h: Seq<u8>)
    requires
        all_ascii(h),
    ensures
        valid_utf8(h),
    decreases h.len(),
{
    if h.len() > 0 {
        let rest = pop_first_scalar(h);
        assert(is_leading_byte_width_1(h[0]));
        let b0 = h[0];
        assert(b0 & 0x7f <= 0x7f) by (bit_vector);
        assert(rest =~= h.subrange(1, h.len() as int));
        assert(all_ascii(rest));
        lemma_ascii_is_utf8(rest);
    }
}

/// In an ASCII haystack the character at an offset is the byte there, and
/// takes one byte.
pub proof fn lemma_ascii_char_at(h: Seq<u8>, pos: int)
    requires
        all_ascii(h),
        0 <= pos < h.len(),
    ensures
        char_len_at(h, pos) == 1,
        char_at(h, pos) == h[pos] as char,
        (char_at(h, pos) as u32) < 0x80,
{
    let s = suffix(h, pos);
    let b = h[pos];
    assert(s[0] == b);
    assert(is_leading_byte_width_1(b));
    assert((b & 0x7F) as u32 == b as u32) by (bit_vector)
        requires
            b < 0x80,
    ;
}

/// On ASCII the matcher's comparison of a haystack character with a pattern
/// character is the searcher's comparison of the two bytes.
pub proof fn lemma_literal_eq_ascii(m: MatcherModel, j: int, b: u8)
    requires
        model_wf(m),
        m.ascii is Some,
        0 <= j < m.pattern.len(),
        b < 0x80,
    ensures
        literal_eq(m, j, b as char) == byte_eq(m.ascii.unwrap().1, b, m.ascii.unwrap().0[j]),
{
    let (needle, ignore_case) = m.ascii.unwrap();
    let c = m.pattern[j];
    let x = needle[j];
    assert(x == c as u8);
    assert('\0' <= c <= '\u{7f}');
    assert(c == x as char);
    assert(m.pattern_lower[j] == mono_lower(c));
    lemma_ascii_lower(b);
    lemma_ascii_lower(x);
}

/// The ASCII lowercase of a character is the ASCII lowercase of its byte.
pub proof fn lemma_ascii_lower(b: u8)
    requires
        b < 0x80,
    ensures
        mono_lower(b as char) == byte_lower(b) as char,
        ascii_lowercase_of(b as char) == byte_lower(b) as char,
        byte_lower(b) < 0x80,
{
}

/// Whether the pattern from index `p` stands in `h` at `pos`, character by
/// character.
pub open spec fn stands_at(m: MatcherModel, h: Seq<u8>, p: int, pos: int) -> bool {
    &&& pos + (m.pattern.len() - p) <= h.len()
    &&& forall|j: int|
        p <= j < m.pattern.len() ==> byte_eq(
            m.ascii.unwrap().1,
            #[trigger] h[pos + (j - p)],
            m.ascii.unwrap().0[j],
        )
}

/// On an ASCII haystack, a matcher with a searcher for ASCII matches from
/// `pos` exactly where the pattern stands there, byte for byte.
pub proof fn lemma_sub_test_ascii(
    m: MatcherModel,
    h: Seq<u8>,
    p: int,
    pos: int,
    lang: LangState,
    after_n: bool,
)
    requires
        model_wf(m),
        m.ascii is Some,
        all_ascii(h),
        0 <= p < m.pattern.len(),
        0 <= pos <= h.len(),
    ensures
        sub_test(m, h, p, pos, lang, after_n) == if stands_at(m, h, p, pos) {
            Some((pos + (m.pattern.len() - p), false))
        } else {
            None
        },
    decreases m.pattern.len() - p,
{
    if pos >= h.len() {
    } else {
        lemma_ascii_char_at(h, pos);
        lemma_literal_eq_ascii(m, p, h[pos]);
        let n = pos + 1;
        if literal_eq(m, p, h[pos] as char) {
            if p + 1 == m.pattern.len() {
                assert(stands_at(m, h, p, pos)) by {
                    assert forall|j: int| p <= j < m.pattern.len() implies byte_eq(
                        m.ascii.unwrap().1,
                        #[trigger] h[pos + (j - p)],
                        m.ascii.unwrap().0[j],
                    ) by {
                        assert(j == p);
                    }
                }
            } else {
                lemma_sub_test_ascii(m, h, p + 1, n, lang, false);
                if stands_at(m, h, p + 1, n) {
                    assert forall|j: int| p <= j < m.pattern.len() implies byte_eq(
                        m.ascii.unwrap().1,
                        #[trigger] h[pos + (j - p)],
                        m.ascii.unwrap().0[j],
                    ) by {
                        if j > p {
                            assert(h[n + (j - (p + 1))] == h[pos + (j - p)]);
                        }
                    }
                    assert(stands_at(m, h, p, pos));
                } else {
                    if stands_at(m, h, p, pos) {
                        assert forall|j: int| p + 1 <= j < m.pattern.len() implies byte_eq(
                            m.ascii.unwrap().1,
                            #[trigger] h[n + (j - (p + 1))],
                            m.ascii.unwrap().0[j],
                        ) by {
                            assert(h[n + (j - (p + 1))] == h[pos + (j - p)]);
                        }
                        assert(false);
                    }
                }
            }
        } else {
            if stands_at(m, h, p, pos) {
                assert(h[pos + (p - p)] == h[pos]);
                assert(false);
            }
        }
    }
}

/// The pattern stands at `s` exactly where the needle occurs at `s`.
pub proof fn lemma_stands_is_occurs(m: MatcherModel, h: Seq<u8>, s: int)
    requires
        model_wf(m),
        m.ascii is Some,
        0 <= s,
    ensures
        stands_at(m, h, 0, s) == occurs(m.ascii.unwrap().0, m.ascii.unwrap().1, h, s),
{
    let (needle, ignore_case) = m.ascii.unwrap();
    if stands_at(m, h, 0, s) {
        assert forall|i: int| 0 <= i < needle.len() implies byte_eq(
            ignore_case,
            #[trigger] h[s + i],
            needle[i],
        ) by {
            assert(h[s + (i - 0)] == h[s + i]);
        }
    }
    if occurs(needle, ignore_case, h, s) {
        assert forall|j: int| 0 <= j < m.pattern.len() implies byte_eq(
            ignore_case,
            #[trigger] h[s + (j - 0)],
            needle[j],
        ) by {
            assert(h[s + (j - 0)] == h[s + j]);
        }
    }
}

/// On an ASCII haystack the leftmost match from `i` on is the first
/// occurrence of the needle from `i` on.
pub proof fn lemma_find_from_ascii(m: MatcherModel, h: Seq<u8>, i: int)
    requires
        model_wf(m),
        m.ascii is Some,
        m.pattern.len() > 0,
        all_ascii(h),
        0 <= i <= h.len(),
    ensures
        find_from(m, h, i) == match occurrence_from(m.ascii.unwrap().0, m.ascii.unwrap().1, h, i) {
            Some(s) => Some((s, s + m.pattern.len(), false)),
            None => None,
        },
    decreases h.len() - i,
{
    let (needle, ignore_case) = m.ascii.unwrap();
    lemma_occurrence_from(needle, ignore_case, h, i);
    lemma_lower_range(m, 0);
    if i >= h.len() {
    } else if h.len() - i < m.min_haystack_len {
        lemma_sub_test_ascii(m, h, 0, i, LangState::Any, false);
    } else {
        lemma_sub_test_ascii(m, h, 0, i, LangState::Any, false);
        lemma_stands_is_occurs(m, h, i);
        lemma_ascii_char_at(h, i);
        if !occurs(needle, ignore_case, h, i) {
            lemma_find_from_ascii(m, h, i + 1);
            lemma_occurrence_from(needle, ignore_case, h, i + 1);
            if i + needle.len() > h.len() {
                assert(occurrence_from(needle, ignore_case, h, i + 1) is None);
            }
        }
    }
}

/// For an ASCII pattern and an ASCII haystack, the searcher for ASCII finds
/// the match that the general algorithm finds: the first place where the
/// pattern stands, with or without respect to ASCII case.
pub proof fn lemma_ascii_path_is_general_path(m: MatcherModel, h: Seq<u8>)
    requires
        model_wf(m),
        m.ascii is Some,
        m.pattern.len() > 0,
        all_ascii(h),
    ensures
        find_ascii(m, h) == find_general(m, h),
{
    let (needle, ignore_case) = m.ascii.unwrap();
    lemma_find_from_ascii(m, h, 0);
    lemma_occurrence_from(needle, ignore_case, h, 0);
    lemma_sub_test_ascii(m, h, 0, 0, LangState::Any, false);
    lemma_stands_is_occurs(m, h, 0);
    if m.starts_with {
        if too_short(m, h) {
            assert(!occurs(needle, ignore_case, h, 0));
        }
    }
}

/// What `find` returns is what the general algorithm returns, whether or not
/// the haystack went to the searcher for ASCII.
pub proof fn lemma_find_is_general(m: MatcherModel, h: Seq<u8>)
    requires
        model_wf(m),
        m.pattern.len() > 0,
    ensures
        crate::matcher::model::find_spec(m, h) == find_general(m, h),
{
    if all_ascii(h) && m.ascii is Some {
        lemma_ascii_path_is_general_path(m, h);
    }
}

/// For an ASCII pattern and an ASCII haystack, `test` returns what the
/// general algorithm returns at the start of the haystack.
pub proof fn lemma_ascii_test_is_general_test(m: MatcherModel, h: Seq<u8>)
    requires
        model_wf(m),
        m.ascii is Some,
        m.pattern.len() > 0,
        all_ascii(h),
        !too_short(m, h),
    ensures
        test_spec(m, h) == test_general(m, h),
{
    lemma_sub_test_ascii(m, h, 0, 0, LangState::Any, false);
    lemma_stands_is_occurs(m, h, 0);
}

} // verus!
