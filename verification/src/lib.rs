//! A multilingual string matcher: case-insensitive Unicode matching, Chinese
//! pinyin matching and Japanese romaji matching over byte-addressed UTF-8
//! haystacks. The contracts of this crate are checked by Verus; what is
//! taken on trust are the contracts of the few calls into other crates,
//! each of which says so in its documentation.
use vstd::prelude::*;

pub mod matcher;
pub mod pinyin;
pub mod regex;
pub mod romaji;
pub mod syntax;
pub mod unicode;

verus! {

/// Marker for extension traits that only this crate implements.
pub trait Sealed {

}

} // verus!
