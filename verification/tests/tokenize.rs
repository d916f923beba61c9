use logdrain::tokenize::{is_numeric_token, split_first_line, tokenize, tokenize_with, OwnedToken, Token};

fn flags<'a>(t: &Token<'a>) -> (&'a str, Option<char>, Option<char>) {
    (t.text, t.leading_delim, t.trailing_delim)
}

#[test]
fn splits_on_whitespace() {
    let toks = tokenize("GET /api/v1 200");
    let texts: Vec<&str> = toks.iter().map(|t| t.text).collect();
    assert_eq!(texts, vec!["GET", "/api/v1", "200"]);
}

#[test]
fn collapses_runs_of_whitespace() {
    let toks = tokenize("  a   b\tc  ");
    let texts: Vec<&str> = toks.iter().map(|t| t.text).collect();
    assert_eq!(texts, vec!["a", "b", "c"]);
}

#[test]
fn empty_input_yields_no_tokens() {
    assert_eq!(tokenize("").len(), 0);
    assert_eq!(tokenize("   ").len(), 0);
}

#[test]
fn delims_are_none_in_v0_1() {
    let toks = tokenize("x");
    assert!(toks[0].leading_delim.is_none());
    assert!(toks[0].trailing_delim.is_none());
}

#[test]
fn numeric_detection() {
    assert!(is_numeric_token("12345"));
    assert!(is_numeric_token("0"));
    assert!(!is_numeric_token(""));
    assert!(!is_numeric_token("12a"));
    assert!(!is_numeric_token("-3"));
    assert!(!is_numeric_token("1.5"));
}

#[test]
fn owned_token_round_trips() {
    let toks = tokenize("hello");
    let owned = OwnedToken::from_token(&toks[0]);
    assert_eq!(owned.text.as_str(), "hello");
}

#[test]
fn path_splits_with_delim_flags() {
    let toks = tokenize_with("/servers/409/foo", &['/']);
    assert_eq!(toks.len(), 3);
    assert_eq!(flags(&toks[0]), ("servers", Some('/'), Some('/')));
    assert_eq!(flags(&toks[1]), ("409", Some('/'), Some('/')));
    assert_eq!(flags(&toks[2]), ("foo", Some('/'), None));
}

#[test]
fn mixed_whitespace_and_path() {
    let toks = tokenize_with("GET /servers/409 ok", &['/']);
    assert_eq!(toks.len(), 4);
    assert_eq!(flags(&toks[0]), ("GET", None, None));
    assert_eq!(flags(&toks[1]), ("servers", Some('/'), Some('/')));
    assert_eq!(flags(&toks[2]), ("409", Some('/'), None));
    assert_eq!(flags(&toks[3]), ("ok", None, None));
}

#[test]
fn leading_and_trailing_delims() {
    let a = tokenize_with("a/b", &['/']);
    assert_eq!(flags(&a[0]), ("a", None, Some('/')));
    assert_eq!(flags(&a[1]), ("b", Some('/'), None));

    let lead = tokenize_with("/a", &['/']);
    assert_eq!(flags(&lead[0]), ("a", Some('/'), None));

    let trail = tokenize_with("a/", &['/']);
    assert_eq!(trail.len(), 1);
    assert_eq!(flags(&trail[0]), ("a", None, Some('/')));
}

#[test]
fn consecutive_delims_collapse() {
    let toks = tokenize_with("a//b", &['/']);
    assert_eq!(toks.len(), 2);
    assert_eq!(flags(&toks[0]), ("a", None, Some('/')));
    assert_eq!(flags(&toks[1]), ("b", Some('/'), None));
}

#[test]
fn lone_delimiter_is_preserved() {
    let toks = tokenize_with("GET / HTTP", &['/']);
    let texts: Vec<&str> = toks.iter().map(|t| t.text).collect();
    assert_eq!(texts, vec!["GET", "/", "HTTP"]);
}

#[test]
fn empty_delims_behaves_like_v0_1() {
    let toks = tokenize_with("/servers/409/foo", &[]);
    assert_eq!(toks.len(), 1);
    assert_eq!(flags(&toks[0]), ("/servers/409/foo", None, None));
}

#[test]
fn split_first_line_works() {
    assert_eq!(split_first_line("a b\nc\nd"), ("a b", Some("c\nd")));
    assert_eq!(split_first_line("single"), ("single", None));
    assert_eq!(split_first_line("first\n"), ("first", Some("")));
}

#[test]
fn unicode_whitespace_separates_tokens() {
    let toks = tokenize("a\u{3000}b\u{a0}c");
    let texts: Vec<&str> = toks.iter().map(|t| t.text).collect();
    assert_eq!(texts, vec!["a", "b", "c"]);
}

#[test]
fn all_delimiter_piece_is_kept_between_paths() {
    let toks = tokenize_with("x // y/z", &['/']);
    assert_eq!(toks.len(), 4);
    assert_eq!(flags(&toks[1]), ("//", None, None));
    assert_eq!(flags(&toks[2]), ("y", None, Some('/')));
}
