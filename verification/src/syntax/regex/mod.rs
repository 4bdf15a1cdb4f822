//! Regular expressions as trees, and transformations of them.
pub mod case;
pub mod fold;
pub mod guard;
pub mod hir;
pub mod literal;

pub use hir::{Capture, Class, Hir, Look, Repetition};
