//! Queries: a case-insensitive literal matcher compiled once from the raw
//! input, plus an optional year filter.  The input is escaped before
//! compilation, so matching is always literal-substring semantics.

use vstd::prelude::*;

use crate::document::{DocModel, Document};
use crate::email::Email;

verus! {

#[derive(Clone, Copy, Debug, PartialEq, Eq, Structural)]
pub enum QueryError {
    /// The pattern engine rejected the escaped literal.
    InvalidPattern,
}

/// The mathematical content of a query: the raw input and the year filter.
/// The compiled matcher is determined by the input and is not part of the
/// model.
pub ghost struct QueryModel {
    pub input: Seq<char>,
    pub year: Option<i32>,
}

/// Whether the literal `pattern` occurs, ignoring letter case, inside `text`.
/// This names what `regex::Regex::is_match` returns for a case-insensitive
/// matcher built from the escaped pattern; it depends on the two texts alone.
pub uninterp spec fn ci_contains(pattern: Seq<char>, text: Seq<char>) -> bool;

/// Whether the pattern engine accepts a case-insensitive matcher for the
/// escaped literal `input`.  This names whether `regex::RegexBuilder::build`
/// returns `Ok` on that pattern; the answer depends on the input text alone.
pub uninterp spec fn ci_compiles(input: Seq<char>) -> bool;

/// Declares `regex::Regex` so a compiled matcher can sit in a field; the
/// value is opaque to the verifier.
#[verifier::external_type_specification]
#[verifier::external_body]
pub struct ExRegex(regex::Regex);

/// A compiled query.  The `pattern` field is set only by [`Query::new`], from
/// the escaped `input`, so it always matches exactly where `input` occurs
/// case-insensitively.
pub struct Query {
    pub(crate) input: String,
    pub(crate) year: Option<i32>,
    pub(crate) pattern: regex::Regex,
}

impl View for Query {
    type V = QueryModel;

    open(crate) spec fn view(&self) -> QueryModel {
        QueryModel { input: self.input@, year: self.year }
    }
}

/// Relies on `regex::RegexBuilder::build` (with `case_insensitive`) and
/// `regex::escape`: compiles a matcher for the literal `input`, `None` when
/// the engine rejects the escaped pattern.  Escaping and compilation are
/// deterministic in the pattern text, so whether they succeed is a function
/// of `input` alone.
#[verifier::external_body]
fn build_ci_pattern(input: &str) -> (r: Option<regex::Regex>)
    ensures
        r is Some <==> ci_compiles(input@),
{
    regex::RegexBuilder::new(&regex::escape(input)).case_insensitive(true).build().ok()
}

/// Relies on `regex::Regex::is_match` on the matcher that [`Query::new`]
/// built from the escaped query input with case-insensitivity on: whether the
/// input occurs literally, ignoring letter case, anywhere in `text`.  The
/// `pattern` field is only ever set by [`Query::new`], so the matcher always
/// corresponds to the stored input.
#[verifier::external_body]
pub(crate) fn query_pattern_matches(query: &Query, text: &str) -> (r: bool)
    ensures
        r == ci_contains(query@.input, text@),
{
    query.pattern.is_match(text)
}

impl Query {
    /// Compiles a query from the raw input and an optional year filter; it
    /// fails exactly when the pattern engine rejects the escaped literal.
    pub fn new(input: &str, year: Option<i32>) -> (r: Result<Query, QueryError>)
        ensures
            r is Ok <==> ci_compiles(input@),
            r matches Ok(q) ==> q@.input == input@ && q@.year == year,
            r matches Err(e) ==> e == QueryError::InvalidPattern,
    {
        match build_ci_pattern(input) {
            Some(pattern) => Ok(Query { input: String::from_str(input), year, pattern }),
            None => Err(QueryError::InvalidPattern),
        }
    }

    /// The raw query input.
    pub fn input_str(&self) -> (r: &str)
        ensures
            r@ == self@.input,
    {
        self.input.as_str()
    }

    /// The year filter, if any.
    pub fn year_filter(&self) -> (r: Option<i32>)
        ensures
            r == self@.year,
    {
        self.year
    }
}

/// Whether a query matches a document: the input must occur, ignoring letter
/// case, in the redacted title or the redacted body, and a present year
/// filter must equal the document's year.  Matching looks only at the
/// redacted text, so a query never reveals more than the public view shows.
pub open spec fn q_matches(d: DocModel, q: QueryModel) -> bool {
    &&& (ci_contains(q.input, d.title_redacted) || ci_contains(q.input, d.body_redacted))
    &&& (q.year matches Some(y) ==> d.date.year == y)
}

/// The model of a query submission's outcome.
pub ghost struct QueryResultModel {
    pub email: crate::email::EmailModel,
    pub docs: Seq<DocModel>,
}

/// What one query submission returned: the notification and the documents
/// revealed by this very submission, in document order.
pub struct QueryResult {
    pub(crate) email: Email,
    pub(crate) docs: Vec<Document>,
}

impl View for QueryResult {
    type V = QueryResultModel;

    open(crate) spec fn view(&self) -> QueryResultModel {
        QueryResultModel {
            email: self.email@,
            docs: self.docs@.map_values(|d: Document| d@),
        }
    }
}

impl QueryResult {
    /// The notification built for this submission.
    pub fn email(&self) -> (r: Email)
        ensures
            r@ == self@.email,
    {
        self.email.clone()
    }

    /// The documents newly revealed by this submission.
    pub fn docs(&self) -> (r: &Vec<Document>)
        ensures
            r@.map_values(|d: Document| d@) == self@.docs,
    {
        &self.docs
    }
}

} // verus!
