use logdrain::builtin_masks::{by_name, email, hex32, ipv4, jwt, uuid};
use logdrain::error::LogdrainError;
use logdrain::mask::{apply_masks, Mask};

#[test]
fn uuid_is_masked() {
    let out = apply_masks("id 550e8400-e29b-41d4-a716-446655440000 done", &[uuid()]);
    assert_eq!(out, "id <uuid> done");
}

#[test]
fn email_is_masked() {
    let out = apply_masks("from alice@example.com sent", &[email()]);
    assert_eq!(out, "from <email> sent");
}

#[test]
fn ipv4_is_masked() {
    let out = apply_masks("conn from 10.0.0.1 ok", &[ipv4()]);
    assert_eq!(out, "conn from <ipv4> ok");
}

#[test]
fn hex32_is_masked() {
    let out = apply_masks("etag 0123456789abcdef0123456789abcdef!", &[hex32()]);
    assert_eq!(out, "etag <hex32>!");
}

#[test]
fn jwt_is_masked() {
    let input = "auth eyJhbGci.eyJzdWIi.SflKxwRJ ok";
    let out = apply_masks(input, &[jwt()]);
    assert_eq!(out, "auth <jwt> ok");
}

#[test]
fn no_match_borrows() {
    let out = apply_masks("nothing here", &[uuid(), email()]);
    assert_eq!(out, "nothing here");
}

#[test]
fn masks_compose_left_to_right() {
    let out = apply_masks("user alice@example.com from 10.0.0.1", &[email(), ipv4()]);
    assert_eq!(out, "user <email> from <ipv4>");
}

#[test]
fn custom_mask_compiles_and_applies() {
    let m = Mask::new(r"\bport \d+\b", "<port>").unwrap();
    assert_eq!(apply_masks("listening port 8080 now", &[m]), "listening <port> now");
}

#[test]
fn invalid_pattern_errors() {
    assert!(Mask::new("(unclosed", "<x>").is_err());
    assert!(matches!(Mask::new("(unclosed", "<x>"), Err(LogdrainError::RegexCompile(_))));
}

#[test]
fn builtin_by_name_knows_the_five_masks() {
    for (name, placeholder) in [
        ("uuid", "<uuid>"),
        ("hex32", "<hex32>"),
        ("email", "<email>"),
        ("ipv4", "<ipv4>"),
        ("jwt", "<jwt>"),
    ] {
        assert_eq!(by_name(name).unwrap().placeholder(), placeholder);
    }
    assert!(by_name("bogus").is_none());
}

#[test]
fn mask_keeps_pattern_and_placeholder() {
    let m = Mask::new(r"\d+", "<n>").unwrap();
    assert_eq!(m.pattern(), r"\d+");
    assert_eq!(m.placeholder(), "<n>");
    assert_eq!(apply_masks("a 12 b 3", &[m]), "a <n> b <n>");
}
