use ib_matcher::unicode::ascii::{find_byte2, find_byte2_or_non_ascii_byte, find_non_ascii_byte};
use ib_matcher::unicode::case::{CharCaseExt, StrCaseExt};
use ib_matcher::unicode::str::{ceil_char_boundary, floor_char_boundary};

#[test]
fn non_ascii_byte_is_found() {
    assert_eq!(Some(3), find_non_ascii_byte(b"abc\xff"));
    assert_eq!(None, find_non_ascii_byte(b"abcde"));
    assert_eq!(Some(0), find_non_ascii_byte("😀".as_bytes()));
}

#[test]
fn byte2_is_found() {
    assert_eq!(find_byte2(b"the quick brown fox", b'k', b'q'), Some(4));
    assert_eq!(find_byte2(b"the quick brown fox", b'z', b'j'), None);
}

#[test]
fn byte2_or_non_ascii_takes_the_first() {
    assert_eq!(find_byte2_or_non_ascii_byte("ab拼q".as_bytes(), b'q', b'Q'), Some(2));
    assert_eq!(find_byte2_or_non_ascii_byte("aQ拼q".as_bytes(), b'q', b'Q'), Some(1));
    assert_eq!(find_byte2_or_non_ascii_byte(b"abc", b'q', b'Q'), None);
    assert_eq!(find_byte2_or_non_ascii_byte(b"abcq", b'q', b'Q'), Some(3));
}

#[test]
fn char_boundaries_round() {
    let s = "a拼b";
    assert_eq!(floor_char_boundary(s, 0), 0);
    assert_eq!(floor_char_boundary(s, 1), 1);
    assert_eq!(floor_char_boundary(s, 2), 1);
    assert_eq!(floor_char_boundary(s, 3), 1);
    assert_eq!(floor_char_boundary(s, 4), 4);
    assert_eq!(floor_char_boundary(s, 9), 5);
    assert_eq!(ceil_char_boundary(s, 2), 4);
    assert_eq!(ceil_char_boundary(s, 3), 4);
    assert_eq!(ceil_char_boundary(s, 4), 4);
    assert_eq!(ceil_char_boundary(s, 9), 5);
}

#[test]
fn mono_lowercase_examples() {
    assert_eq!("βίος".to_mono_lowercase(), "βίος");
    assert_eq!("Βίοσ".to_mono_lowercase(), "βίοσ");
    assert_eq!("ΒΊΟΣ".to_mono_lowercase(), "βίοσ");
    assert_eq!('İ'.to_mono_lowercase(), 'i');
    assert_eq!('A'.to_simple_or_ascii_fold_case(), 'a');
    assert_eq!("XiNG Δ".to_simple_or_ascii_fold_case(), "xing Δ");
}
