use redacted::document::{Document, ParseError};
use redacted::redaction::RedactionError;

#[test]
fn test_parse() {
    assert!(Document::parse("foo\nbar").is_err());
    assert!(Document::parse("foo\nbar\nbaz").is_err());
    assert!(Document::parse("foo\n1900-12-1\nbaz").is_err());
    assert!(Document::parse("foo\n1990-12-1\ninvalid [ delimiter").is_err());
    assert!(Document::parse("foo ] bar\n1900-12-1\n\nhi\nthere").is_err());
    assert_eq!(
        Document::parse("foo\n1900-12-1\n\nhi\nthere"),
        Document::new("foo".into(), "1900-12-1", "hi\nthere".into())
    );
}

#[test]
fn test_to_string() {
    let doc_str = "foo\n1900-12-01\n\nhi\nthere";
    let doc = Document::parse(doc_str).unwrap();
    assert_eq!(doc.render(), doc_str);
}

#[test]
fn parse_normalizes_date_on_render() {
    let doc = Document::parse("foo\n1900-12-1\n\nhi\nthere").unwrap();
    assert_eq!(doc.date(), "1900-12-01");
    assert_eq!(doc.title_redacted(), "foo");
    assert_eq!(doc.render(), "foo\n1900-12-01\n\nhi\nthere");
}

#[test]
fn parse_error_kinds_by_line_count() {
    assert_eq!(Document::parse(""), Err(ParseError::MissingTitle));
    assert_eq!(Document::parse("foo"), Err(ParseError::MissingDate));
    assert_eq!(Document::parse("foo\nbar"), Err(ParseError::MissingBody));
    assert_eq!(
        Document::parse("foo\n1900-12-1\nbaz"),
        Err(ParseError::MissingBlankSeparator)
    );
    assert_eq!(
        Document::parse("foo\nbar\n\nbody"),
        Err(ParseError::InvalidDate)
    );
    assert_eq!(
        Document::parse("foo ] bar\n1900-12-1\n\nhi"),
        Err(ParseError::RedactionFailed(RedactionError::MismatchedBraces))
    );
}

#[test]
fn parse_redacts_title_and_body() {
    let doc = Document::parse("plan [omega]\n1983-06-02\n\nthe [secret] project").unwrap();
    assert_eq!(doc.title_redacted(), "plan █████");
    assert_eq!(doc.body_redacted(), "the ██████ project");
    assert_eq!(doc.render(), "plan [omega]\n1983-06-02\n\nthe [secret] project");
}

#[test]
fn date_validity_follows_the_calendar() {
    assert!(Document::parse("t\n2000-02-29\n\nb").is_ok());
    assert_eq!(
        Document::parse("t\n1900-02-29\n\nb"),
        Err(ParseError::InvalidDate)
    );
    assert_eq!(
        Document::parse("t\n2001-2-29\n\nb"),
        Err(ParseError::InvalidDate)
    );
    assert_eq!(
        Document::parse("t\n2000-13-01\n\nb"),
        Err(ParseError::InvalidDate)
    );
    assert_eq!(
        Document::parse("t\n2000-00-10\n\nb"),
        Err(ParseError::InvalidDate)
    );
    let doc = Document::parse("t\n2000-2-3\n\nb").unwrap();
    assert_eq!(doc.date(), "2000-02-03");
}

#[test]
fn parse_accepts_crlf_line_breaks() {
    assert_eq!(
        Document::parse("foo\r\n1900-12-1\r\n\r\nhi\r\nthere"),
        Document::new("foo".into(), "1900-12-1", "hi\nthere".into())
    );
    let doc = Document::parse("foo\r\n1900-12-1\r\n\r\nhi\r\n").unwrap();
    assert_eq!(doc.render(), "foo\n1900-12-01\n\nhi");
}

#[test]
fn final_unterminated_line_keeps_its_carriage_return() {
    let doc = Document::parse("foo\n1900-12-1\n\nhi\r").unwrap();
    assert_eq!(doc.render(), "foo\n1900-12-01\n\nhi\r");
}

#[test]
fn documents_order_by_date() {
    let early = Document::parse("b\n1983-06-02\n\nx").unwrap();
    let late = Document::parse("a\n1983-06-03\n\nx").unwrap();
    let late_twin = Document::parse("z\n1983-06-03\n\nother").unwrap();
    assert!(early < late);
    assert!(late > early);
    assert_eq!(
        late.partial_cmp(&late_twin),
        Some(std::cmp::Ordering::Equal)
    );
    assert!(late != late_twin);
}

#[test]
fn parse_allows_empty_body() {
    let doc = Document::parse("t\n2000-01-01\n\n").unwrap();
    assert_eq!(doc.render(), "t\n2000-01-01\n\n");
}
