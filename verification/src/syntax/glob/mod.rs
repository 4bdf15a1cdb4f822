//! Glob-style pattern syntax: `?`, `*`, `**` and `[...]`, for file names and
//! paths.
pub mod ext;
pub mod lex;
pub mod parse;
pub mod sep;
pub mod token;
pub mod util;

pub use ext::GlobExtConfig;
pub use sep::{GlobStar, PathSeparator};
pub use token::{GlobPathToken, WildcardPathToken, WildcardToken};
pub use parse::{parse_glob_path, parse_glob_path_on, parse_wildcard_path, parse_wildcard_path_on};
pub use util::SurroundingWildcardHandler;
