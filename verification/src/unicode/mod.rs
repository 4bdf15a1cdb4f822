//! Unicode utilities: UTF-8 walking, char-boundary rounding, ASCII byte
//! scans and single-code-point lowercase.
pub mod ascii;
pub mod case;
pub mod chars;
pub mod str;
