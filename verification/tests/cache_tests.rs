use redacted::cache::{rot13, DocCache, DecodeError};
use redacted::document::{Document, ParseError};

#[test]
fn test_rot13() {
    assert_eq!(rot13("this [is]\na te[s]t!"), "guvf [vf]\nn gr[f]g!".to_string());
}

#[test]
fn rot13_is_an_involution() {
    let input = "The Helios Effect, 1983 — [REDACTED]!";
    assert_eq!(rot13(&rot13(input)), input.to_string());
}

#[test]
fn rot13_keeps_non_letters() {
    assert_eq!(rot13("1983-06-02\n\x03"), "1983-06-02\n\x03".to_string());
}

#[test]
fn cache_round_trip() {
    let a = Document::parse("first [doc]\n1983-06-02\n\nbody [one]\nmore").unwrap();
    let b = Document::parse("second\n1990-01-31\n\nbody two").unwrap();
    let cache = DocCache::new(vec![a, b]);
    let blob = cache.encode();
    let decoded = DocCache::decode(&blob).unwrap();
    assert_eq!(decoded.docs, cache.docs);
}

#[test]
fn encode_obfuscates_and_separates() {
    let a = Document::parse("abc\n1983-06-02\n\nxyz").unwrap();
    let b = Document::parse("def\n1984-07-03\n\nuvw").unwrap();
    let cache = DocCache::new(vec![a, b]);
    let blob = cache.encode();
    assert_eq!(blob, "nop\n1983-06-02\n\nklm\x03qrs\n1984-07-03\n\nhij");
}

#[test]
fn decode_rejects_garbage() {
    assert_eq!(
        DocCache::decode("").unwrap_err(),
        DecodeError::ParseFailure(ParseError::MissingTitle)
    );
    assert_eq!(
        DocCache::decode("abc").unwrap_err(),
        DecodeError::ParseFailure(ParseError::MissingDate)
    );
}

#[test]
fn add_parses_and_appends() {
    let mut cache = DocCache::new(vec![]);
    assert_eq!(cache.add("foo\n1900-12-1\n\nhi"), Ok(()));
    assert_eq!(cache.docs.len(), 1);
    assert_eq!(
        cache.add("foo\nbar"),
        Err(ParseError::MissingBody)
    );
    assert_eq!(cache.docs.len(), 1);
}
