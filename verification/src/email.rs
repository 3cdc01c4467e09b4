//! The notification builder: formats a query submission's newly revealed and
//! previously revealed matches into a subject and body.

use vstd::prelude::*;

use crate::dates::digit_char;
use crate::document::Document;
use crate::query::Query;
use crate::text::{char_from_u32, push_char};

verus! {

/// The mathematical content of a notification.
pub ghost struct EmailModel {
    pub subject: Seq<char>,
    pub body: Seq<char>,
}

/// A notification: a subject line and a body, derived once per query
/// submission and once at session start.
#[derive(Debug)]
pub struct Email {
    pub(crate) subject: String,
    pub(crate) body: String,
}

impl View for Email {
    type V = EmailModel;

    open(crate) spec fn view(&self) -> EmailModel {
        EmailModel { subject: self.subject@, body: self.body@ }
    }
}

impl Clone for Email {
    fn clone(&self) -> (r: Self)
        ensures
            r@ == self@,
    {
        Email { subject: self.subject.clone(), body: self.body.clone() }
    }
}

/// A nonnegative number written in decimal, no padding.
pub open spec fn dec_str(n: int) -> Seq<char>
    recommends
        n >= 0,
    decreases n,
{
    if n < 10 {
        seq![digit_char(if n >= 0 { n % 10 } else { 0 })]
    } else {
        dec_str(n / 10).push(digit_char(n % 10))
    }
}

/// An integer written in decimal, with a leading minus sign when negative.
pub open spec fn int_str(n: int) -> Seq<char> {
    if n >= 0 {
        dec_str(n)
    } else {
        seq!['-'] + dec_str(-n)
    }
}

/// A nonnegative number in decimal.
pub fn u64_string(n: u64) -> (r: String)
    ensures
        r@ == dec_str(n as int),
    decreases n,
{
    if n < 10 {
        let mut s = String::new();
        push_char(&mut s, char_from_u32(48 + (n as u32)));
        proof {
            assert(s@ =~= seq![digit_char(n as int % 10)]);
        }
        s
    } else {
        let mut s = u64_string(n / 10);
        push_char(&mut s, char_from_u32(48 + ((n % 10) as u32)));
        proof {
            assert(s@ =~= dec_str(n as int / 10).push(digit_char(n as int % 10)));
        }
        s
    }
}

/// An integer in decimal.
pub fn i32_string(n: i32) -> (r: String)
    ensures
        r@ == int_str(n as int),
{
    if n >= 0 {
        u64_string(n as u64)
    } else {
        let mut s = String::new();
        push_char(&mut s, '-');
        let m = -(n as i64);
        let digits = u64_string(m as u64);
        s.append(digits.as_str());
        proof {
            assert(s@ =~= seq!['-'] + dec_str(-(n as int)));
        }
        s
    }
}

/// The subject line of a query-result notification.
pub open spec fn subject_chars(count: int, input: Seq<char>, year: int) -> Seq<char> {
    dec_str(count) + " new results for your query \""@ + input + "\" ("@ + int_str(year) + ")"@
}

/// One bulleted line per title.
pub open spec fn bullet_lines(titles: Seq<Seq<char>>) -> Seq<char>
    decreases titles.len(),
{
    if titles.len() == 0 {
        Seq::<char>::empty()
    } else {
        "  \u{2022} "@ + titles[0] + "\n"@ + bullet_lines(titles.skip(1))
    }
}

pub proof fn lemma_bullet_lines_push(titles: Seq<Seq<char>>, t: Seq<char>)
    ensures
        bullet_lines(titles.push(t)) == bullet_lines(titles) + "  \u{2022} "@ + t + "\n"@,
    decreases titles.len(),
{
    if titles.len() == 0 {
        assert(titles.push(t) =~~= seq![t]);
        assert(seq![t][0] == t);
        assert(seq![t].skip(1) =~~= Seq::<Seq<char>>::empty());
        assert(bullet_lines(Seq::<Seq<char>>::empty()) == Seq::<char>::empty());
        assert(bullet_lines(titles.push(t)) =~= bullet_lines(titles) + "  \u{2022} "@ + t + "\n"@);
    } else {
        lemma_bullet_lines_push(titles.skip(1), t);
        assert(titles.push(t).skip(1) =~~= titles.skip(1).push(t));
        assert(titles.push(t)[0] == titles[0]);
        assert(bullet_lines(titles.push(t)) =~= bullet_lines(titles) + "  \u{2022} "@ + t + "\n"@);
    }
}

/// The body of a query-result notification: a greeting, the new results as a
/// bulleted list (or a fixed line when there are none), and the previously
/// revealed results as a second bulleted list when any exist.
pub open spec fn body_chars(new_titles: Seq<Seq<char>>, old_titles: Seq<Seq<char>>) -> Seq<char> {
    let head = if new_titles.len() > 0 {
        "Hello,\n\n"@ + "Here are the new results for your query:\n"@ + bullet_lines(new_titles)
    } else {
        "Hello,\n\n"@ + "There were no new results for your query.\n\n"@
    };
    if old_titles.len() > 0 {
        head + "\nYour query resulted in the following old results:\n"@ + bullet_lines(old_titles)
    } else {
        head
    }
}

/// The redacted titles of a document sequence, in order.
pub open spec fn titles_of(docs: Seq<crate::document::DocModel>) -> Seq<Seq<char>> {
    docs.map_values(|d: crate::document::DocModel| d.title_redacted)
}

impl Email {
    /// Builds a notification from fixed texts.
    pub fn new(subject: &str, body: &str) -> (r: Email)
        ensures
            r@.subject == subject@,
            r@.body == body@,
    {
        Email { subject: String::from_str(subject), body: String::from_str(body) }
    }

    /// Builds the notification for one query submission from the newly and
    /// the previously revealed documents, in their given order.
    pub fn new_query_result(query: &Query, new_docs: &Vec<Document>, old_docs: &Vec<Document>) -> (r:
        Email)
        requires
            query@.year is Some,
        ensures
            r@.subject == subject_chars(
                new_docs@.len() as int,
                query@.input,
                query@.year->Some_0 as int,
            ),
            r@.body == body_chars(
                titles_of(new_docs@.map_values(|d: Document| d@)),
                titles_of(old_docs@.map_values(|d: Document| d@)),
            ),
    {
        let year = match query.year_filter() {
            Some(y) => y,
            None => unreached(),
        };
        let mut subject = u64_string(new_docs.len() as u64);
        subject.append(" new results for your query \"");
        subject.append(query.input_str());
        subject.append("\" (");
        let ys = i32_string(year);
        subject.append(ys.as_str());
        subject.append(")");
        proof {
            assert(subject@ =~= subject_chars(
                new_docs@.len() as int,
                query@.input,
                query@.year->Some_0 as int,
            ));
        }
        let ghost new_titles = titles_of(new_docs@.map_values(|d: Document| d@));
        let ghost old_titles = titles_of(old_docs@.map_values(|d: Document| d@));
        let mut body = String::from_str("Hello,\n\n");
        if new_docs.len() > 0 {
            body.append("Here are the new results for your query:\n");
            let ghost head = body@;
            let mut i: usize = 0;
            let n = new_docs.len();
            proof {
                assert(new_titles.take(0) =~~= Seq::<Seq<char>>::empty());
            }
            while i < n
                invariant
                    0 <= i <= n == new_docs@.len(),
                    new_titles == titles_of(new_docs@.map_values(|d: Document| d@)),
                    body@ == head + bullet_lines(new_titles.take(i as int)),
                decreases n - i,
            {
                body.append("  \u{2022} ");
                let t = new_docs[i].title_redacted();
                body.append(t.as_str());
                body.append("\n");
                proof {
                    lemma_bullet_lines_push(new_titles.take(i as int), new_titles[i as int]);
                    assert(new_titles.take(i as int + 1) =~~= new_titles.take(i as int).push(
                        new_titles[i as int],
                    ));
                    assert(t@ == new_titles[i as int]);
                    assert(body@ =~= head + bullet_lines(new_titles.take(i as int + 1)));
                }
                i = i + 1;
            }
            proof {
                assert(new_titles.take(n as int) =~~= new_titles);
            }
        } else {
            body.append("There were no new results for your query.\n\n");
            proof {
                assert(new_titles.len() == 0);
            }
        }
        let ghost mid = body@;
        if old_docs.len() > 0 {
            body.append("\nYour query resulted in the following old results:\n");
            let ghost head2 = body@;
            let mut i: usize = 0;
            let n = old_docs.len();
            proof {
                assert(old_titles.take(0) =~~= Seq::<Seq<char>>::empty());
            }
            while i < n
                invariant
                    0 <= i <= n == old_docs@.len(),
                    old_titles == titles_of(old_docs@.map_values(|d: Document| d@)),
                    body@ == head2 + bullet_lines(old_titles.take(i as int)),
                decreases n - i,
            {
                body.append("  \u{2022} ");
                let t = old_docs[i].title_redacted();
                body.append(t.as_str());
                body.append("\n");
                proof {
                    lemma_bullet_lines_push(old_titles.take(i as int), old_titles[i as int]);
                    assert(old_titles.take(i as int + 1) =~~= old_titles.take(i as int).push(
                        old_titles[i as int],
                    ));
                    assert(t@ == old_titles[i as int]);
                    assert(body@ =~= head2 + bullet_lines(old_titles.take(i as int + 1)));
                }
                i = i + 1;
            }
            proof {
                assert(old_titles.take(n as int) =~~= old_titles);
                assert(body@ =~= body_chars(new_titles, old_titles));
            }
        } else {
            proof {
                assert(old_titles.len() == 0);
                assert(body@ =~= body_chars(new_titles, old_titles));
            }
        }
        Email { subject, body }
    }

    /// The subject line.
    pub fn subject(&self) -> (r: String)
        ensures
            r@ == self@.subject,
    {
        self.subject.clone()
    }

    /// The body text.
    pub fn body(&self) -> (r: String)
        ensures
            r@ == self@.body,
    {
        self.body.clone()
    }
}

} // verus!
