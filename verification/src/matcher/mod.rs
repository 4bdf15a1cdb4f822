//! The literal matcher and its result types.
pub mod analyze;
pub mod ascii;
pub mod compile;
pub mod config;
pub mod fast_path;
pub mod ib;
pub mod input;
pub mod laws;
pub mod matches;
pub mod model;
pub mod pattern;
pub mod prefix_group;

pub use matches::Match;
pub use compile::IbMatcherBuilder;
pub use config::{MatchConfig, PinyinMatchConfig, RomajiMatchConfig};
pub use ib::IbMatcher;
pub use input::Input;
