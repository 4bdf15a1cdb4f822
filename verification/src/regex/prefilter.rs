//! Prefilters: cheap scans that find where a match may start.
use vstd::prelude::*;

verus! {

/// A prefilter of this library.
#[non_exhaustive]
#[derive(Clone, Copy, Debug, PartialEq, Eq, Structural)]
pub enum PrefilterIb {
    /// A match starts with one of the two bytes or with a non-ASCII byte.
    Byte2OrNonAscii(u8, u8),
}

/// The two bytes that a match may start with where the pattern starts with
/// the byte `b`: `b` itself or, without respect to case, its two cases, the
/// lower case first.
pub open spec fn first_bytes(b: u8, case_insensitive: bool) -> (u8, u8) {
    if !case_insensitive {
        (b, b)
    } else if 97 <= b <= 122 {
        (b, (b - 32) as u8)
    } else if 65 <= b <= 90 {
        ((b + 32) as u8, b)
    } else {
        (b, b)
    }
}

impl PrefilterIb {
    /// The prefilter for a pattern that starts with the byte `b`.
    pub fn byte2_or_non_ascii(b: u8, case_insensitive: bool) -> (r: Self)
        ensures
            r == PrefilterIb::Byte2OrNonAscii(
                first_bytes(b, case_insensitive).0,
                first_bytes(b, case_insensitive).1,
            ),
    {
        let (x, y) = if case_insensitive {
            // Lowercase letters occur more often
            if 97 <= b && b <= 122 {
                (b, b - 32)
            } else if 65 <= b && b <= 90 {
                (b + 32, b)
            } else {
                (b, b)
            }
        } else {
            (b, b)
        };
        PrefilterIb::Byte2OrNonAscii(x, y)
    }

    /// The first place in `haystack` where a match may start.
    pub fn find(self, haystack: &[u8]) -> (r: Option<usize>)
        ensures
            self matches PrefilterIb::Byte2OrNonAscii(x, y) ==> crate::unicode::ascii::is_first_hit(
                haystack@,
                crate::unicode::ascii::one_of_or_non_ascii(x, y),
                r,
            ),
    {
        match self {
            PrefilterIb::Byte2OrNonAscii(x, y) => {
                crate::unicode::ascii::find_byte2_or_non_ascii_byte(haystack, x, y)
            },
        }
    }
}

} // verus!
