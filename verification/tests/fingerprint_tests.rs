//! Fingerprint, normalisation and edit-distance behaviour.

use thrashguard::{fingerprint, levenshtein, normalize, similarity_parts};

#[test]
fn fingerprint_ignores_whitespace() {
    assert_eq!(fingerprint("let x = 1;"), fingerprint("let   x =  1;"));
    assert_eq!(fingerprint("a\nb\n"), fingerprint("a b"));
}

#[test]
fn fingerprint_distinguishes_logic() {
    assert_ne!(fingerprint("let x = 1;"), fingerprint("let x = 2;"));
}

#[test]
fn levenshtein_basic() {
    assert_eq!(levenshtein("kitten", "sitting"), 3);
    assert_eq!(levenshtein("", "abc"), 3);
    assert_eq!(levenshtein("abc", "abc"), 0);
}

/// Similarity in `[0, 1]`: one minus the edit distance over the longer
/// normalised length (`1.0` for two empty bodies).
fn similarity(a: &str, b: &str) -> f64 {
    let p = similarity_parts(a, b);
    if p.length == 0 {
        return 1.0;
    }
    1.0 - (p.distance as f64 / p.length as f64)
}

#[test]
fn similarity_bounds() {
    assert!((similarity("abc", "abc") - 1.0).abs() < f64::EPSILON);
    assert!(similarity("abcdef", "abcdex") > 0.8);
    assert!(similarity("totally", "different words here") < 0.5);
}

#[test]
fn normalize_collapses_whitespace_runs() {
    assert_eq!(normalize("  a \t b\n\n c  "), "a b c");
    assert_eq!(normalize(""), "");
    assert_eq!(normalize(" \n\t "), "");
    assert_eq!(normalize("x\u{3000}y"), "x y");
}

#[test]
fn levenshtein_counts_characters_not_bytes() {
    assert_eq!(levenshtein("é", "e"), 1);
    assert_eq!(levenshtein("ab", "ba"), 2);
    assert_eq!(levenshtein("abc", ""), 3);
    assert_eq!(levenshtein("flaw", "lawn"), 2);
}

#[test]
fn similarity_parts_of_empty_bodies() {
    let p = similarity_parts("   ", "\n");
    assert_eq!(p.distance, 0);
    assert_eq!(p.length, 0);
    let p = similarity_parts("a  b", "a b");
    assert_eq!(p.distance, 0);
    assert_eq!(p.length, 3);
}
