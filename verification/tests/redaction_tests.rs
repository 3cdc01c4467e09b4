use redacted::redaction::{redact, RedactionError};

#[test]
fn test_redact() {
    assert_eq!(redact("this [is] a te[s]t"), Ok("this ██ a te█t".into()));
    assert_eq!(redact("spaces [a b  c] matter"), Ok("spaces ██████ matter".into()));
    assert_eq!(redact("multi [line\n red]action"), Ok("multi ████\n████action".into()));
    assert!(redact("mismatched [ brace").is_err());
    assert!(redact("nested [braces[]]").is_err());
    assert!(redact("mismatched ] brace").is_err());
}

#[test]
fn redact_error_kinds() {
    assert_eq!(redact("nested [braces[]]"), Err(RedactionError::NestedBraces));
    assert_eq!(redact("mismatched ] brace"), Err(RedactionError::MismatchedBraces));
    assert_eq!(redact("mismatched [ brace"), Err(RedactionError::MismatchedBraces));
}

#[test]
fn redact_is_idempotent_on_redacted_text() {
    let once = redact("this [is] a te[s]t").unwrap();
    let twice = redact(&once).unwrap();
    assert_eq!(once, twice);
    let empty = redact("").unwrap();
    assert_eq!(empty, String::new());
    assert_eq!(redact(&empty), Ok(String::new()));
}

#[test]
fn redact_keeps_line_breaks_inside_spans() {
    assert_eq!(redact("[a\nb\nc]"), Ok("█\n█\n█".into()));
}
