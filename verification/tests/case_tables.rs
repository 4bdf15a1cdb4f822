use ib_matcher::unicode::case::CharCaseExt;
use std::collections::HashSet;

/// Every character that the mono lowercase moves, with what it moves to.
fn mono_pairs() -> Vec<(char, char)> {
    let mut pairs = Vec::new();
    for c in '\0'..=char::MAX {
        let l = c.to_mono_lowercase();
        if l != c {
            pairs.push((c, l));
        }
    }
    pairs
}

fn mono_set() -> HashSet<char> {
    let mut chars = HashSet::new();
    for (c, map) in mono_pairs() {
        chars.insert(c);
        chars.insert(map);
    }
    chars
}

/// The characters that simple case folding relates to another character.
fn regex_set() -> HashSet<char> {
    let mut chars = HashSet::new();
    for c in '\0'..=char::MAX {
        let mut class = regex_syntax::hir::ClassUnicode::new([regex_syntax::hir::ClassUnicodeRange::new(c, c)]);
        class.case_fold_simple();
        if class.ranges().len() > 1 || class.ranges()[0].start() != class.ranges()[0].end() {
            chars.insert(c);
        }
    }
    chars
}

#[test]
fn mono() {
    let mono = mono_set();
    println!("{} chars", mono.len());
    println!("{} upper chars", mono_pairs().len());
    assert!(mono.contains(&'A') && mono.contains(&'a'));
    assert!(mono.contains(&'Σ') && mono.contains(&'σ'));
    assert!(mono.contains(&'İ') && mono.contains(&'i'));
}

#[test]
fn mod_regex() {
    let regex = regex_set();
    println!("{} chars", regex.len());
    assert!(regex.contains(&'k') && regex.contains(&'K'));
}

#[test]
fn mono_sub_regex() {
    let regex = regex_set();

    let mut chars = HashSet::new();
    for (c, map) in mono_pairs() {
        if !regex.contains(&c) {
            chars.insert(c);
        }
        if !regex.contains(&map) {
            chars.insert(map);
        }
    }
    println!("{} chars", chars.len());
    println!("{:?}", chars);
    // `İ` has a lowercase of one character here, and no simple case folding.
    assert!(chars.contains(&'İ'));
}

#[test]
fn regex_sub_mono() {
    let mono = mono_set();

    let mut chars = HashSet::new();
    for c in regex_set() {
        if !mono.contains(&c) {
            chars.insert(c);
        }
    }
    println!("{} chars", chars.len());
    println!("{:?}", chars);
    // Final sigma folds to sigma, and no lowercase moves to it or from it.
    assert!(chars.contains(&'ς'));
}
