//! Documents: a parsed record with a title, a calendar date and a body, each
//! text held in both its full and its redacted form.  A record is three
//! header lines (title, date, one empty line) followed by the body; line
//! breaks are `'\n'`.

use vstd::prelude::*;

use crate::dates::{Date, date_chars, date_string, parse_date, parse_date_spec};
use crate::query::{Query, q_matches, query_pattern_matches};
use crate::redaction::{RedactionError, redact, redact_spec};
use crate::text::{join_char, join_with, no_crlf, push_char, split_char, split_on, strip_cr, strip_cr_line};

verus! {

#[derive(Clone, Copy, Debug, PartialEq, Eq, Structural)]
pub enum ParseError {
    /// The record has no lines at all.
    MissingTitle,
    /// The record has a title line and nothing more.
    MissingDate,
    /// The second line does not name a calendar date.
    InvalidDate,
    /// The third line exists but is not empty.
    MissingBlankSeparator,
    /// The record ends after the date line, so there is no body.
    MissingBody,
    /// The title or the body has invalid bracket structure.
    RedactionFailed(RedactionError),
}

/// The mathematical content of a document.
pub ghost struct DocModel {
    pub title_full: Seq<char>,
    pub title_redacted: Seq<char>,
    pub date: Date,
    pub body_full: Seq<char>,
    pub body_redacted: Seq<char>,
}

/// A parsed document.  The redacted forms are deterministic functions of the
/// full forms under the redaction codec and are never independently mutated.
#[derive(Debug)]
pub struct Document {
    pub(crate) title_full: String,
    pub(crate) title_redacted: String,
    pub(crate) date: Date,
    pub(crate) body_full: String,
    pub(crate) body_redacted: String,
}

impl View for Document {
    type V = DocModel;

    closed spec fn view(&self) -> DocModel {
        DocModel {
            title_full: self.title_full@,
            title_redacted: self.title_redacted@,
            date: self.date,
            body_full: self.body_full@,
            body_redacted: self.body_redacted@,
        }
    }
}

impl Clone for Document {
    fn clone(&self) -> (r: Self)
        ensures
            r@ == self@,
    {
        Document {
            title_full: self.title_full.clone(),
            title_redacted: self.title_redacted.clone(),
            date: self.date,
            body_full: self.body_full.clone(),
            body_redacted: self.body_redacted.clone(),
        }
    }
}

impl PartialEq for Document {
    fn eq(&self, other: &Self) -> (r: bool) {
        self.title_full == other.title_full && self.title_redacted == other.title_redacted
            && self.date == other.date && self.body_full == other.body_full
            && self.body_redacted == other.body_redacted
    }
}

impl vstd::std_specs::cmp::PartialEqSpecImpl for Document {
    open spec fn obeys_eq_spec() -> bool {
        true
    }

    open spec fn eq_spec(&self, other: &Document) -> bool {
        self@ == other@
    }
}

impl PartialOrd for Document {
    /// Documents compare by date alone: a partial order, since documents with
    /// equal dates need not be equal.
    fn partial_cmp(&self, other: &Self) -> (r: Option<core::cmp::Ordering>) {
        Some(crate::dates::date_order_exec(&self.date, &other.date))
    }
}

impl vstd::std_specs::cmp::PartialOrdSpecImpl for Document {
    open spec fn obeys_partial_cmp_spec() -> bool {
        true
    }

    open spec fn partial_cmp_spec(&self, other: &Document) -> Option<core::cmp::Ordering> {
        Some(crate::dates::date_order(self@.date, other@.date))
    }
}

/// The redacted forms agree with the full forms and the date is a valid
/// calendar date; constructors establish this and nothing mutates it.
pub open spec fn doc_wf(m: DocModel) -> bool {
    &&& redact_spec(m.title_full) == Ok::<_, RedactionError>(m.title_redacted)
    &&& redact_spec(m.body_full) == Ok::<_, RedactionError>(m.body_redacted)
    &&& m.date.wf()
}

/// The lines of a record: pieces between `'\n'`, except that one empty piece
/// after a final line break is not a line of its own.  A line ended by the
/// break may carry one trailing carriage return, which is stripped; a final
/// unterminated line is kept as it stands.
pub open spec fn spec_lines(s: Seq<char>) -> Seq<Seq<char>> {
    let p = split_on(s, '\n');
    let stripped = p.drop_last().map_values(|line: Seq<char>| strip_cr(line));
    if p.last().len() == 0 {
        stripped
    } else {
        stripped.push(p.last())
    }
}

/// What building a document from its three parts yields: the date line must
/// name a calendar date and both texts must redact cleanly.
pub open spec fn new_spec(title: Seq<char>, date_str: Seq<char>, body: Seq<char>) -> Result<
    DocModel,
    ParseError,
> {
    match parse_date_spec(date_str) {
        None => Err(ParseError::InvalidDate),
        Some(date) => match (redact_spec(title), redact_spec(body)) {
            (Ok(tr), Ok(br)) => Ok(
                DocModel {
                    title_full: title,
                    title_redacted: tr,
                    date,
                    body_full: body,
                    body_redacted: br,
                },
            ),
            (Err(e), _) => Err(ParseError::RedactionFailed(e)),
            (Ok(_), Err(e)) => Err(ParseError::RedactionFailed(e)),
        },
    }
}

/// What parsing a source record yields: title line, date line, an exactly
/// empty third line, then the body lines rejoined with line breaks.
pub open spec fn parse_spec(s: Seq<char>) -> Result<DocModel, ParseError> {
    let ls = spec_lines(s);
    if ls.len() == 0 {
        Err(ParseError::MissingTitle)
    } else if ls.len() == 1 {
        Err(ParseError::MissingDate)
    } else if ls.len() == 2 {
        Err(ParseError::MissingBody)
    } else if ls[2].len() != 0 {
        Err(ParseError::MissingBlankSeparator)
    } else {
        new_spec(ls[0], ls[1], join_with(ls.skip(3), '\n'))
    }
}

/// The canonical text form of a document: title line, date line in
/// `YYYY-MM-DD` form, one empty line, then the full body.
pub open spec fn render_chars(m: DocModel) -> Seq<char> {
    m.title_full + seq!['\n'] + date_chars(m.date) + seq!['\n', '\n'] + m.body_full
}

/// The view of an executable parse result.
pub open spec fn parse_result_view(r: Result<Document, ParseError>) -> Result<
    DocModel,
    ParseError,
> {
    match r {
        Ok(d) => Ok(d@),
        Err(e) => Err(e),
    }
}

impl Document {
    /// Builds a document from a title, a date line and a body.
    pub fn new(title_full: String, date_str: &str, body_full: String) -> (r: Result<
        Document,
        ParseError,
    >)
        ensures
            parse_result_view(r) == new_spec(title_full@, date_str@, body_full@),
            r matches Ok(d) ==> doc_wf(d@) && d@.title_full == title_full@ && d@.body_full
                == body_full@,
    {
        let date = match parse_date(date_str) {
            Some(d) => d,
            None => {
                return Err(ParseError::InvalidDate);
            },
        };
        let title_redacted = match redact(title_full.as_str()) {
            Ok(t) => t,
            Err(e) => {
                return Err(ParseError::RedactionFailed(e));
            },
        };
        let body_redacted = match redact(body_full.as_str()) {
            Ok(t) => t,
            Err(e) => {
                return Err(ParseError::RedactionFailed(e));
            },
        };
        Ok(Document { title_full, title_redacted, date, body_full, body_redacted })
    }

    /// Parses one source record.
    pub fn parse(s: &str) -> (r: Result<Document, ParseError>)
        ensures
            parse_result_view(r) == parse_spec(s@),
            r matches Ok(d) ==> doc_wf(d@),
    {
        let ghost p = split_on(s@, '\n');
        let raw = split_char(s, '\n');
        proof {
            crate::text::lemma_split_on_basics(s@, '\n');
            assert(raw@.len() == p.len());
        }
        let ghost stripped = p.drop_last().map_values(|line: Seq<char>| strip_cr(line));
        let mut ls: Vec<String> = Vec::new();
        let n = raw.len();
        let mut i: usize = 0;
        proof {
            assert(ls@.map_values(|q: String| q@) =~~= stripped.take(0));
        }
        while i < n - 1
            invariant
                0 <= i <= n - 1,
                n == raw@.len() >= 1,
                p == raw@.map_values(|q: String| q@),
                stripped == p.drop_last().map_values(|line: Seq<char>| strip_cr(line)),
                ls@.map_values(|q: String| q@) == stripped.take(i as int),
            decreases n - 1 - i,
        {
            let ghost pre = ls@.map_values(|q: String| q@);
            let line = strip_cr_line(raw[i].as_str());
            ls.push(line);
            proof {
                assert(raw@[i as int]@ == p[i as int]);
                assert(p.drop_last()[i as int] == p[i as int]);
                assert(stripped[i as int] == strip_cr(p[i as int]));
                assert(ls@.map_values(|q: String| q@) =~~= pre.push(stripped[i as int]));
                assert(stripped.take(i as int + 1) =~~= stripped.take(i as int).push(
                    stripped[i as int],
                ));
            }
            i = i + 1;
        }
        let ghost lines = spec_lines(s@);
        proof {
            assert(stripped.take(n as int - 1) =~~= stripped);
            assert(raw@[n as int - 1]@ == p.last());
        }
        if raw[n - 1].as_str().unicode_len() > 0 {
            let ghost pre = ls@.map_values(|q: String| q@);
            let last_line = raw[n - 1].clone();
            ls.push(last_line);
            proof {
                assert(ls@.map_values(|q: String| q@) =~~= pre.push(p.last()));
                assert(ls@.map_values(|q: String| q@) =~~= lines);
            }
        } else {
            proof {
                assert(ls@.map_values(|q: String| q@) =~~= lines);
            }
        }
        if ls.len() == 0 {
            return Err(ParseError::MissingTitle);
        }
        if ls.len() == 1 {
            return Err(ParseError::MissingDate);
        }
        if ls.len() == 2 {
            return Err(ParseError::MissingBody);
        }
        proof {
            assert(ls@[0]@ == lines[0]);
            assert(ls@[1]@ == lines[1]);
            assert(ls@[2]@ == lines[2]);
        }
        if ls[2].as_str().unicode_len() != 0 {
            return Err(ParseError::MissingBlankSeparator);
        }
        let body = if ls.len() == 3 {
            proof {
                assert(lines.skip(3) =~~= Seq::<Seq<char>>::empty());
            }
            String::new()
        } else {
            let mut rest: Vec<String> = Vec::new();
            let mut i: usize = 3;
            let n = ls.len();
            while i < n
                invariant
                    3 <= i <= n == ls@.len(),
                    lines == ls@.map_values(|q: String| q@),
                    rest@.map_values(|q: String| q@) == lines.subrange(3, i as int),
                decreases n - i,
            {
                let ghost pre = rest@.map_values(|q: String| q@);
                rest.push(ls[i].clone());
                proof {
                    assert(rest@.map_values(|q: String| q@) =~~= pre.push(ls@[i as int]@));
                    assert(lines.subrange(3, i as int + 1) =~~= lines.subrange(3, i as int).push(
                        lines[i as int],
                    ));
                }
                i = i + 1;
            }
            proof {
                assert(lines.subrange(3, n as int) =~~= lines.skip(3));
            }
            join_char(&rest, '\n')
        };
        let title = ls[0].clone();
        let date_line = ls[1].clone();
        proof {
            assert(body@ == join_with(lines.skip(3), '\n'));
        }
        Document::new(title, date_line.as_str(), body)
    }

    /// Writes the document back in its canonical record form.
    pub fn render(&self) -> (r: String)
        requires
            self@.date.wf(),
        ensures
            r@ == render_chars(self@),
    {
        let mut r = self.title_full.clone();
        push_char(&mut r, '\n');
        let ds = date_string(&self.date);
        r.append(ds.as_str());
        push_char(&mut r, '\n');
        push_char(&mut r, '\n');
        r.append(self.body_full.as_str());
        proof {
            assert(r@ =~= render_chars(self@));
        }
        r
    }

    /// The publicly visible title.
    pub fn title_redacted(&self) -> (r: String)
        ensures
            r@ == self@.title_redacted,
    {
        self.title_redacted.clone()
    }

    /// The publicly visible body.
    pub fn body_redacted(&self) -> (r: String)
        ensures
            r@ == self@.body_redacted,
    {
        self.body_redacted.clone()
    }

    /// The document date in `YYYY-MM-DD` form.
    pub fn date(&self) -> (r: String)
        requires
            self@.date.wf(),
        ensures
            r@ == date_chars(self@.date),
    {
        date_string(&self.date)
    }

    /// Whether the query matches this document: by its redacted title or
    /// redacted body, and by year when the query filters on one.
    pub fn is_match(&self, query: &Query) -> (r: bool)
        ensures
            r == q_matches(self@, query@),
    {
        let title_match = query_pattern_matches(query, self.title_redacted.as_str());
        let body_match = query_pattern_matches(query, self.body_redacted.as_str());
        let year_match = match query.year_filter() {
            Some(y) => y == self.date.year,
            None => true,
        };
        (title_match || body_match) && year_match
    }
}

/// A document that a successful parse produced satisfies the well-formedness
/// invariant and has a single-line title.
pub proof fn lemma_parse_ok_facts(s: Seq<char>, m: DocModel)
    requires
        parse_spec(s) == Ok::<_, ParseError>(m),
    ensures
        doc_wf(m),
        !m.title_full.contains('\n'),
{
    crate::text::lemma_split_on_basics(s, '\n');
    let p = split_on(s, '\n');
    let lines = spec_lines(s);
    let stripped = p.drop_last().map_values(|line: Seq<char>| strip_cr(line));
    assert(lines.len() >= 3);
    assert(lines[0] == stripped[0]);
    assert(p.drop_last()[0] == p[0]);
    assert(lines[0] == strip_cr(p[0]));
    assert(m.title_full == lines[0]);
    assert(!m.title_full.contains('\n')) by {
        assert(!p[0].contains('\n'));
        assert forall|i: int| 0 <= i < m.title_full.len() implies m.title_full[i] != '\n' by {
            assert(m.title_full[i] == p[0][i]);
        }
    }
    crate::dates::lemma_parse_date_wf(lines[1]);
}

/// Rendering a document and parsing the text back yields the same document,
/// for every well-formed document whose title is one line and does not end
/// with a carriage return, and whose body neither ends with a line break nor
/// contains a carriage return followed by one.
pub proof fn lemma_parse_render_round_trip(m: DocModel)
    requires
        doc_wf(m),
        !m.title_full.contains('\n'),
        m.title_full.len() > 0 ==> m.title_full.last() != '\r',
        m.body_full.len() > 0 ==> m.body_full.last() != '\n',
        no_crlf(m.body_full),
    ensures
        parse_spec(render_chars(m)) == Ok::<_, ParseError>(m),
{
    let nl = '\n';
    let title = m.title_full;
    let dcs = date_chars(m.date);
    let body = m.body_full;
    let s = render_chars(m);
    crate::dates::lemma_date_chars_plain(m.date);
    assert(!dcs.contains(nl)) by {
        assert forall|i: int| 0 <= i < dcs.len() implies dcs[i] != nl by {
            assert(crate::dates::is_digit(dcs[i]) || dcs[i] == '-');
        }
    }
    let tail2 = seq![nl] + body;
    let tail1 = dcs + seq![nl] + tail2;
    assert(s =~= title + seq![nl] + tail1);
    crate::text::lemma_split_on_append(title, tail1, nl);
    crate::text::lemma_split_on_append(dcs, tail2, nl);
    let b = split_on(body, nl);
    assert(tail2[0] == nl);
    assert(tail2.skip(1) =~= body);
    assert(split_on(tail2, nl) == seq![Seq::<char>::empty()] + b);
    let p = split_on(s, nl);
    assert(p =~~= seq![title, dcs, Seq::<char>::empty()] + b);
    crate::text::lemma_split_on_basics(body, nl);
    crate::text::lemma_join_split_on(body, nl);
    let lines = spec_lines(s);
    let stripped = p.drop_last().map_values(|line: Seq<char>| strip_cr(line));
    assert(strip_cr(title) == title);
    assert(strip_cr(dcs) == dcs) by {
        if dcs.len() > 0 {
            assert(crate::dates::is_digit(dcs.last()) || dcs.last() == '-');
        }
    }
    assert(strip_cr(Seq::<char>::empty()) == Seq::<char>::empty());
    if body.len() == 0 {
        assert(body =~= Seq::<char>::empty());
        assert(b == seq![Seq::<char>::empty()]);
        assert(p.last().len() == 0);
        assert(p.drop_last() =~~= seq![title, dcs, Seq::<char>::empty()]);
        assert(lines =~~= seq![title, dcs, Seq::<char>::empty()]);
        assert(lines.skip(3) =~~= Seq::<Seq<char>>::empty());
        assert(join_with(lines.skip(3), nl) =~= body);
    } else {
        crate::text::lemma_split_last_nonempty(body, nl);
        assert(p.last() == b.last());
        assert(p.last().len() > 0);
        assert(p.drop_last() =~~= seq![title, dcs, Seq::<char>::empty()] + b.drop_last());
        assert(stripped =~~= seq![title, dcs, Seq::<char>::empty()] + b.drop_last()) by {
            assert forall|k: int| 0 <= k < p.drop_last().len() implies strip_cr(
                #[trigger] p.drop_last()[k],
            ) == p.drop_last()[k] by {
                if k >= 3 {
                    assert(p.drop_last()[k] == b[k - 3]);
                    crate::text::lemma_split_interior_no_cr(body, k - 3);
                }
            }
        }
        assert(lines =~~= p);
        assert(lines.len() >= 4);
        assert(lines.skip(3) =~~= b);
        assert(join_with(lines.skip(3), nl) == body);
    }
    assert(lines[0] == title && lines[1] == dcs && lines[2].len() == 0);
    crate::dates::lemma_date_round_trip(m.date);
    assert(lines.len() >= 3);
    assert(parse_spec(s) == new_spec(title, dcs, body));
    assert(new_spec(title, dcs, body) == Ok::<_, ParseError>(m)) by {
        match (redact_spec(title), redact_spec(body)) {
            (Ok(tr), Ok(br)) => {
                assert(tr == m.title_redacted);
                assert(br == m.body_redacted);
            },
            _ => {},
        }
    }
}

/// Parsing, rendering and parsing again yields the first parse's document, as
/// long as its title does not end with a carriage return and its body neither
/// ends with a line break nor contains a carriage return followed by one.
pub proof fn lemma_parse_round_trip(s: Seq<char>, m: DocModel)
    requires
        parse_spec(s) == Ok::<_, ParseError>(m),
        m.title_full.len() > 0 ==> m.title_full.last() != '\r',
        m.body_full.len() > 0 ==> m.body_full.last() != '\n',
        no_crlf(m.body_full),
    ensures
        parse_spec(render_chars(m)) == Ok::<_, ParseError>(m),
{
    lemma_parse_ok_facts(s, m);
    lemma_parse_render_round_trip(m);
}

} // verus!
