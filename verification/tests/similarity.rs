use logdrain::similarity::{similarity, Similarity};
use logdrain::tokenize::{tokenize, OwnedToken};

fn owned(line: &str) -> Vec<OwnedToken> {
    tokenize(line).iter().map(OwnedToken::from_token).collect()
}

fn value(s: Similarity) -> f64 {
    s.matches as f64 / s.total as f64
}

#[test]
fn identical_is_one() {
    let t = owned("a b c");
    let toks = tokenize("a b c");
    assert_eq!(value(similarity(&t, &toks, "<*>")), 1.0);
}

#[test]
fn all_different_is_zero() {
    let t = owned("a b c");
    let toks = tokenize("x y z");
    assert_eq!(value(similarity(&t, &toks, "<*>")), 0.0);
}

#[test]
fn wildcard_in_template_counts_as_match() {
    let t = owned("a <*> c");
    let toks = tokenize("a ZZ c");
    assert_eq!(value(similarity(&t, &toks, "<*>")), 1.0);
}

#[test]
fn partial_match_is_fraction() {
    let t = owned("a b c d");
    let toks = tokenize("a b X Y");
    assert_eq!(value(similarity(&t, &toks, "<*>")), 0.5);
}

#[test]
fn length_mismatch_is_zero() {
    let t = owned("a b c");
    let toks = tokenize("a b");
    assert_eq!(value(similarity(&t, &toks, "<*>")), 0.0);
}

#[test]
fn two_empty_is_one() {
    let t: Vec<OwnedToken> = vec![];
    let toks = tokenize("");
    assert_eq!(value(similarity(&t, &toks, "<*>")), 1.0);
}

#[test]
fn similarity_counts_exact_fraction() {
    let t = owned("a b c");
    let toks = tokenize("a q c");
    let s = similarity(&t, &toks, "<*>");
    assert_eq!((s.matches, s.total), (2, 3));
}
