//! Hepburn romanisation of Japanese kana, kanji and words.
//!
//! The dictionary is given to the romaniser when it is built: kana keys with
//! their single romaji, word keys with their romajis, and kanji with their
//! readings. Kana and word keys are looked up together, longest key first.
pub mod automaton;
pub mod cache;
pub mod convert;
pub mod input;
pub mod kana;
pub mod kana_text;
pub mod romanizer;

pub use input::Input;
pub use romanizer::{RomajiBuildError, HepburnRomanizer, RomanizerModel};
