use redacted::cache::DocCache;
use redacted::document::Document;
use redacted::gamestate::GameState;
use redacted::query::Query;

fn one_doc_state() -> GameState {
    let records = vec!["helios effect\n1983-06-02\n\nthe [secret] project".to_string()];
    GameState::new(&records).unwrap()
}

#[test]
fn startup_event_is_enqueued_once() {
    let mut gs = one_doc_state();
    let events = gs.drain_events();
    assert_eq!(events.len(), 1);
    let emails = events[0].emails();
    assert_eq!(emails.len(), 1);
    assert_eq!(emails[0].subject(), "find anya");
    assert_eq!(emails[0].body(), "look for the helios effect (1983). good luck.");
    assert_eq!(gs.drain_events().len(), 0);
}

#[test]
fn first_matching_query_reveals_document() {
    let mut gs = one_doc_state();
    let qr = gs.submit_query("helios", 1983).unwrap();
    assert_eq!(qr.docs().len(), 1);
    assert_eq!(qr.docs()[0].title_redacted(), "helios effect");
    let email = qr.email();
    assert_eq!(email.subject(), "1 new results for your query \"helios\" (1983)");
    assert_eq!(
        email.body(),
        "Hello,\n\nHere are the new results for your query:\n  • helios effect\n"
    );
}

#[test]
fn repeated_query_reports_old_results_only() {
    let mut gs = one_doc_state();
    let first = gs.submit_query("helios", 1983).unwrap();
    assert_eq!(first.docs().len(), 1);
    let second = gs.submit_query("helios", 1983).unwrap();
    assert_eq!(second.docs().len(), 0);
    let email = second.email();
    assert_eq!(email.subject(), "0 new results for your query \"helios\" (1983)");
    assert_eq!(
        email.body(),
        "Hello,\n\nThere were no new results for your query.\n\n\
         \nYour query resulted in the following old results:\n  • helios effect\n"
    );
}

#[test]
fn year_filter_blocks_other_years() {
    let mut gs = one_doc_state();
    let qr = gs.submit_query("helios", 1999).unwrap();
    assert_eq!(qr.docs().len(), 0);
    assert_eq!(qr.email().subject(), "0 new results for your query \"helios\" (1999)");
    // The mismatching query revealed nothing, so the right year still finds it.
    let qr2 = gs.submit_query("helios", 1983).unwrap();
    assert_eq!(qr2.docs().len(), 1);
}

#[test]
fn matching_is_case_insensitive() {
    let doc = Document::parse("helios effect\n1983-06-02\n\nthe [secret] project").unwrap();
    let lower = Query::new("helios", Some(1983)).unwrap();
    let upper = Query::new("HELIOS", Some(1983)).unwrap();
    let mixed = Query::new("HeLiOs EfFeCt", None).unwrap();
    assert!(doc.is_match(&lower));
    assert!(doc.is_match(&upper));
    assert!(doc.is_match(&mixed));
}

#[test]
fn matching_sees_only_redacted_text() {
    let doc = Document::parse("helios effect\n1983-06-02\n\nthe [secret] project").unwrap();
    let hidden_word = Query::new("secret", None).unwrap();
    let visible_word = Query::new("project", None).unwrap();
    let absent_word = Query::new("umbra", None).unwrap();
    assert!(!doc.is_match(&hidden_word));
    assert!(doc.is_match(&visible_word));
    assert!(!doc.is_match(&absent_word));
}

#[test]
fn query_input_is_a_literal_not_a_pattern() {
    let doc = Document::parse("a.c\n1983-06-02\n\nbody").unwrap();
    let literal_dot = Query::new("a.c", None).unwrap();
    assert!(doc.is_match(&literal_dot));
    let other = Document::parse("abc\n1983-06-02\n\nbody").unwrap();
    assert!(!other.is_match(&literal_dot));
}

#[test]
fn engine_loads_from_cache_blob() {
    let a = Document::parse("first\n1983-06-02\n\nalpha").unwrap();
    let b = Document::parse("second\n1984-07-03\n\nbeta").unwrap();
    let blob = DocCache::new(vec![a, b]).encode();
    let mut gs = GameState::new_from_cache(&blob).unwrap();
    let qr = gs.submit_query("alpha", 1983).unwrap();
    assert_eq!(qr.docs().len(), 1);
    assert_eq!(qr.docs()[0].title_redacted(), "first");
}

#[test]
fn load_failure_reports_first_bad_record() {
    let records = vec![
        "good\n1983-06-02\n\nbody".to_string(),
        "bad record".to_string(),
    ];
    assert!(GameState::new(&records).is_err());
}
