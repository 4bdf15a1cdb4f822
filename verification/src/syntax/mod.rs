//! Pattern syntaxes that lower to a plain pattern or to an expression tree.
pub mod ev;
pub mod glob;
pub mod regex;
