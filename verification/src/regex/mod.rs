//! Regular expressions whose literals are matched by the literal matcher.
pub mod backtrack;
pub mod cp;
pub mod iter;
pub mod lita;
pub mod machine;
pub mod nfa;
pub mod order;
pub mod prefilter;

pub use backtrack::{Input, Match, MatchError};
