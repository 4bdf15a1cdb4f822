//! The byte that every match of an expression begins with.
//!
//! A literal extractor gives the prefixes that a match can begin with, cut
//! after their first byte. Where they come to one literal, its byte is the
//! first byte of every match.
use vstd::prelude::*;

verus! {

/// The literals as byte sequences.
pub open spec fn literals_view(literals: Option<Vec<Vec<u8>>>) -> Option<Seq<Seq<u8>>> {
    match literals {
        Some(v) => Some(v@.map_values(|l: Vec<u8>| l@)),
        None => None,
    }
}

/// The first byte of the only literal of `literals`: none where there is
/// no literal, more than one, every literal (`None`), or where the one is
/// empty.
pub open spec fn sole_first_byte(literals: Option<Seq<Seq<u8>>>) -> Option<u8> {
    match literals {
        Some(ls) => if ls.len() == 1 && ls[0].len() >= 1 {
            Some(ls[0][0])
        } else {
            None
        },
        None => None,
    }
}

/// The first byte of the only literal of `literals`, which are the
/// prefixes that an extractor found, or `None` where it found that a match
/// can begin with anything.
pub fn first_byte_of(literals: &Option<Vec<Vec<u8>>>) -> (r: Option<u8>)
    ensures
        r == sole_first_byte(literals_view(*literals)),
{
    match literals {
        Some(v) => {
            if v.len() == 1 && v[0].len() >= 1 {
                assert(v@.map_values(|l: Vec<u8>| l@)[0] == v@[0]@);
                Some(v[0][0])
            } else {
                None
            }
        },
        None => None,
    }
}

} // verus!
