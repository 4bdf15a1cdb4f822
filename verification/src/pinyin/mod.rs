//! Pinyin readings of Han characters.
pub mod data;
pub mod notation;

pub use data::{PinyinData, PinyinEntry};
pub use notation::PinyinNotation;
