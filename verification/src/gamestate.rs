//! The disclosure engine: holds the loaded documents, one hidden flag per
//! document, and the pending startup notifications.  A submitted query
//! partitions its matches into newly revealed and previously revealed
//! documents, flips the hidden flags of the new ones, and builds a
//! notification; the flags only ever go from hidden to revealed.

use vstd::prelude::*;

use crate::cache::{DocCache, DecodeError, decode_spec};
use crate::document::{DocModel, Document, ParseError, parse_spec};
use crate::email::{Email, EmailModel, body_chars, subject_chars, titles_of};
use crate::query::{Query, QueryError, QueryModel, QueryResult, ci_compiles, q_matches};

verus! {

/// The mathematical content of one engine event: the notifications it
/// carries.
pub ghost struct EventModel {
    pub emails: Seq<EmailModel>,
}

/// One deferred engine event, carrying notifications for the host to show.
#[derive(Debug)]
pub struct GameStateEvent {
    pub(crate) emails: Vec<Email>,
}

impl View for GameStateEvent {
    type V = EventModel;

    open(crate) spec fn view(&self) -> EventModel {
        EventModel { emails: self.emails@.map_values(|e: Email| e@) }
    }
}

/// The fixed welcome notification enqueued once per load.
pub open spec fn newgame_model() -> EventModel {
    EventModel {
        emails: seq![
            EmailModel {
                subject: "find anya"@,
                body: "look for the helios effect (1983). good luck."@,
            },
        ],
    }
}

impl GameStateEvent {
    pub(crate) fn newgame_event() -> (r: GameStateEvent)
        ensures
            r@ == newgame_model(),
    {
        let email = Email::new("find anya", "look for the helios effect (1983). good luck.");
        let mut emails = Vec::new();
        emails.push(email);
        proof {
            assert(emails@.map_values(|e: Email| e@) =~~= newgame_model().emails);
        }
        GameStateEvent { emails }
    }

    /// The notifications this event carries.
    pub fn emails(&self) -> (r: &Vec<Email>)
        ensures
            r@.map_values(|e: Email| e@) == self@.emails,
    {
        &self.emails
    }
}

/// The mathematical state of the engine.
pub ghost struct GameModel {
    pub documents: Seq<DocModel>,
    pub hidden: Seq<bool>,
    pub events: Seq<EventModel>,
}

/// The disclosure engine.  `documents` is immutable after load;
/// `document_hidden_status` has one flag per document, `true` while the
/// document has never matched a query.
pub struct GameState {
    pub(crate) documents: Vec<Document>,
    pub(crate) document_hidden_status: Vec<bool>,
    pub(crate) events: Vec<GameStateEvent>,
}

impl View for GameState {
    type V = GameModel;

    open(crate) spec fn view(&self) -> GameModel {
        GameModel {
            documents: self.documents@.map_values(|d: Document| d@),
            hidden: self.document_hidden_status@,
            events: self.events@.map_values(|e: GameStateEvent| e@),
        }
    }
}

/// One hidden flag per document.
pub open spec fn state_wf(m: GameModel) -> bool {
    m.hidden.len() == m.documents.len()
}

/// What parsing a list of source records yields: the documents in order, or
/// the first record's failure.
pub open spec fn parse_all_spec(strs: Seq<Seq<char>>) -> Result<Seq<DocModel>, ParseError>
    decreases strs.len(),
{
    if strs.len() == 0 {
        Ok(Seq::<DocModel>::empty())
    } else {
        match parse_spec(strs[0]) {
            Err(e) => Err(e),
            Ok(d) => match parse_all_spec(strs.skip(1)) {
                Err(e) => Err(e),
                Ok(rest) => Ok(seq![d] + rest),
            },
        }
    }
}

/// Already-parsed documents prefixed onto the rest of a record list's parse.
pub open spec fn parse_extend(pre: Seq<DocModel>, rest: Result<Seq<DocModel>, ParseError>) -> Result<
    Seq<DocModel>,
    ParseError,
> {
    match rest {
        Ok(ds) => Ok(pre + ds),
        Err(e) => Err(e),
    }
}

/// Whether the document at index `i` is revealed by this very query: it
/// matches and was still hidden.
pub open spec fn revealed_at(docs: Seq<DocModel>, hidden: Seq<bool>, q: QueryModel, i: int) -> bool {
    q_matches(docs[i], q) && hidden[i]
}

/// The documents this query newly reveals, in document order.
pub open spec fn reveal_list(docs: Seq<DocModel>, hidden: Seq<bool>, q: QueryModel) -> Seq<DocModel>
    decreases docs.len(),
{
    if docs.len() == 0 {
        Seq::<DocModel>::empty()
    } else {
        let pre = reveal_list(docs.drop_last(), hidden.drop_last(), q);
        if q_matches(docs.last(), q) && hidden[docs.len() - 1] {
            pre.push(docs.last())
        } else {
            pre
        }
    }
}

/// The matching documents this query had already revealed earlier, in
/// document order.
pub open spec fn already_list(docs: Seq<DocModel>, hidden: Seq<bool>, q: QueryModel) -> Seq<
    DocModel,
>
    decreases docs.len(),
{
    if docs.len() == 0 {
        Seq::<DocModel>::empty()
    } else {
        let pre = already_list(docs.drop_last(), hidden.drop_last(), q);
        if q_matches(docs.last(), q) && !hidden[docs.len() - 1] {
            pre.push(docs.last())
        } else {
            pre
        }
    }
}

/// The hidden flags after the query: a flag stays set exactly while its
/// document keeps not matching.
pub open spec fn hidden_after(docs: Seq<DocModel>, hidden: Seq<bool>, q: QueryModel) -> Seq<bool> {
    Seq::new(hidden.len(), |i: int| hidden[i] && !q_matches(docs[i], q))
}

impl GameState {
    fn inner_new(documents: Vec<Document>) -> (r: GameState)
        ensures
            r@.documents == documents@.map_values(|d: Document| d@),
            r@.hidden == Seq::new(documents@.len(), |i: int| true),
            r@.events == seq![newgame_model()],
            state_wf(r@),
    {
        let n = documents.len();
        let mut document_hidden_status: Vec<bool> = Vec::new();
        let mut i: usize = 0;
        while i < n
            invariant
                0 <= i <= n,
                document_hidden_status@.len() == i,
                forall|j: int| 0 <= j < i ==> document_hidden_status@[j] == true,
            decreases n - i,
        {
            document_hidden_status.push(true);
            i = i + 1;
        }
        let mut events: Vec<GameStateEvent> = Vec::new();
        events.push(GameStateEvent::newgame_event());
        let r = GameState { documents, document_hidden_status, events };
        proof {
            assert(r@.hidden =~= Seq::new(r@.documents.len(), |i: int| true));
            assert(r@.events =~~= seq![newgame_model()]);
        }
        r
    }

    /// Loads the engine from source records, all documents hidden, with the
    /// welcome event enqueued.
    pub fn new(doc_strs: &Vec<String>) -> (r: Result<GameState, ParseError>)
        ensures
            r matches Ok(g) ==> parse_all_spec(doc_strs@.map_values(|s: String| s@)) matches Ok(ds)
                && g@.documents == ds && g@.hidden == Seq::new(ds.len(), |i: int| true) && g@.events
                == seq![newgame_model()] && state_wf(g@),
            r matches Err(e) ==> parse_all_spec(doc_strs@.map_values(|s: String| s@)) == Err::<
                Seq<DocModel>,
                _,
            >(e),
    {
        let ghost strs = doc_strs@.map_values(|s: String| s@);
        let mut docs: Vec<Document> = Vec::new();
        let n = doc_strs.len();
        let mut i: usize = 0;
        proof {
            assert(strs.skip(0) =~~= strs);
            match parse_all_spec(strs) {
                Ok(ds) => {
                    assert(Seq::<DocModel>::empty() + ds =~~= ds);
                },
                Err(_) => {},
            }
            assert(docs@.map_values(|d: Document| d@) =~~= Seq::<DocModel>::empty());
        }
        while i < n
            invariant
                0 <= i <= n == doc_strs@.len(),
                strs == doc_strs@.map_values(|s: String| s@),
                parse_all_spec(strs) == parse_extend(
                    docs@.map_values(|d: Document| d@),
                    parse_all_spec(strs.skip(i as int)),
                ),
            decreases n - i,
        {
            let ghost pre = docs@.map_values(|d: Document| d@);
            let ghost tail = strs.skip(i as int);
            proof {
                assert(tail[0] == strs[i as int]);
                assert(tail.skip(1) =~~= strs.skip(i as int + 1));
            }
            match Document::parse(doc_strs[i].as_str()) {
                Ok(d) => {
                    docs.push(d);
                },
                Err(e) => {
                    return Err(e);
                },
            }
            proof {
                let cur = docs@.map_values(|d: Document| d@);
                let newd = docs@[docs@.len() - 1]@;
                assert(cur =~~= pre.push(newd));
                match parse_all_spec(strs.skip(i as int + 1)) {
                    Ok(ds) => {
                        assert(parse_all_spec(tail) == Ok::<_, ParseError>(seq![newd] + ds));
                        assert(pre + (seq![newd] + ds) =~~= cur + ds);
                    },
                    Err(_) => {},
                }
            }
            i = i + 1;
        }
        proof {
            assert(strs.skip(n as int) =~~= Seq::<Seq<char>>::empty());
            assert(parse_all_spec(strs.skip(n as int)) == Ok::<_, ParseError>(
                Seq::<DocModel>::empty(),
            ));
            assert(docs@.map_values(|d: Document| d@) + Seq::<DocModel>::empty() =~~= docs@
                .map_values(|d: Document| d@));
        }
        Ok(GameState::inner_new(docs))
    }

    /// Loads the engine from a serialized cache blob.
    pub fn new_from_cache(data: &str) -> (r: Result<GameState, DecodeError>)
        ensures
            r matches Ok(g) ==> decode_spec(data@) matches Ok(ds) && g@.documents == ds
                && g@.hidden == Seq::new(ds.len(), |i: int| true) && g@.events == seq![
                newgame_model(),
            ] && state_wf(g@),
            r matches Err(e) ==> decode_spec(data@) == Err::<Seq<DocModel>, _>(e),
    {
        let cache = match DocCache::decode(data) {
            Ok(c) => c,
            Err(e) => {
                return Err(e);
            },
        };
        Ok(GameState::inner_new(cache.docs))
    }

    /// Returns the pending events and empties the queue; on an empty queue it
    /// returns the empty list.
    pub fn drain_events(&mut self) -> (r: Vec<GameStateEvent>)
        ensures
            r@.map_values(|e: GameStateEvent| e@) == old(self)@.events,
            final(self)@.events == Seq::<EventModel>::empty(),
            final(self)@.documents == old(self)@.documents,
            final(self)@.hidden == old(self)@.hidden,
    {
        let mut result: Vec<GameStateEvent> = Vec::new();
        core::mem::swap(&mut self.events, &mut result);
        proof {
            assert(final(self)@.events =~~= Seq::<EventModel>::empty());
        }
        result
    }

    /// Submits one query: documents matching it are partitioned into newly
    /// revealed (hidden until now; their flags flip) and already revealed,
    /// and a notification is built from both lists.  A pattern failure
    /// changes no state.
    pub fn submit_query(&mut self, input: &str, year: i32) -> (r: Result<QueryResult, QueryError>)
        requires
            state_wf(old(self)@),
        ensures
            final(self)@.documents == old(self)@.documents,
            final(self)@.events == old(self)@.events,
            state_wf(final(self)@),
            r is Ok <==> ci_compiles(input@),
            r matches Err(e) ==> e == QueryError::InvalidPattern && final(self)@.hidden == old(
                self,
            )@.hidden,
            r matches Ok(qr) ==> {
                let q = QueryModel { input: input@, year: Some(year) };
                &&& final(self)@.hidden == hidden_after(old(self)@.documents, old(self)@.hidden, q)
                &&& qr@.docs == reveal_list(old(self)@.documents, old(self)@.hidden, q)
                &&& qr@.email.subject == subject_chars(
                    reveal_list(old(self)@.documents, old(self)@.hidden, q).len() as int,
                    input@,
                    year as int,
                )
                &&& qr@.email.body == body_chars(
                    titles_of(reveal_list(old(self)@.documents, old(self)@.hidden, q)),
                    titles_of(already_list(old(self)@.documents, old(self)@.hidden, q)),
                )
            },
    {
        let query = match Query::new(input, Some(year)) {
            Ok(q) => q,
            Err(e) => {
                return Err(e);
            },
        };
        let ghost q = QueryModel { input: input@, year: Some(year) };
        let ghost docs0 = old(self)@.documents;
        let ghost hidden0 = old(self)@.hidden;
        proof {
            assert(query@ == q);
        }
        let mut new_docs: Vec<Document> = Vec::new();
        let mut old_docs: Vec<Document> = Vec::new();
        let n = self.documents.len();
        let mut i: usize = 0;
        proof {
            assert(docs0.take(0) =~~= Seq::<DocModel>::empty());
            assert(hidden0.take(0) =~= Seq::<bool>::empty());
        }
        while i < n
            invariant
                0 <= i <= n,
                n == self.documents@.len(),
                self.documents@.map_values(|d: Document| d@) == docs0,
                self.document_hidden_status@.len() == hidden0.len() == n,
                self.events@.map_values(|e: GameStateEvent| e@) == old(self)@.events,
                query@ == q,
                self.document_hidden_status@ == Seq::new(
                    hidden0.len(),
                    |j: int|
                        if j < i {
                            hidden0[j] && !q_matches(docs0[j], q)
                        } else {
                            hidden0[j]
                        },
                ),
                new_docs@.map_values(|d: Document| d@) == reveal_list(
                    docs0.take(i as int),
                    hidden0.take(i as int),
                    q,
                ),
                old_docs@.map_values(|d: Document| d@) == already_list(
                    docs0.take(i as int),
                    hidden0.take(i as int),
                    q,
                ),
            decreases n - i,
        {
            let ghost new_pre = new_docs@.map_values(|d: Document| d@);
            let ghost old_pre = old_docs@.map_values(|d: Document| d@);
            proof {
                assert(docs0.take(i as int + 1) =~~= docs0.take(i as int).push(docs0[i as int]));
                assert(hidden0.take(i as int + 1) =~= hidden0.take(i as int).push(
                    hidden0[i as int],
                ));
                assert(docs0.take(i as int + 1).drop_last() =~~= docs0.take(i as int));
                assert(hidden0.take(i as int + 1).drop_last() =~= hidden0.take(i as int));
                assert(self.documents@[i as int]@ == docs0[i as int]);
            }
            let ghost hmid = self.document_hidden_status@;
            let matched = self.documents[i].is_match(&query);
            proof {
                assert(matched == q_matches(docs0[i as int], q));
                assert(hmid[i as int] == hidden0[i as int]);
            }
            if matched {
                if self.document_hidden_status[i] {
                    let d = self.documents[i].clone();
                    new_docs.push(d);
                    self.document_hidden_status.set(i, false);
                    proof {
                        assert(new_docs@.map_values(|d: Document| d@) =~~= new_pre.push(
                            docs0[i as int],
                        ));
                        assert(self.document_hidden_status@ =~= hmid.update(i as int, false));
                    }
                } else {
                    let d = self.documents[i].clone();
                    old_docs.push(d);
                    proof {
                        assert(old_docs@.map_values(|d: Document| d@) =~~= old_pre.push(
                            docs0[i as int],
                        ));
                    }
                }
            }
            proof {
                assert(self.document_hidden_status@ =~= Seq::new(
                    hidden0.len(),
                    |j: int|
                        if j < i + 1 {
                            hidden0[j] && !q_matches(docs0[j], q)
                        } else {
                            hidden0[j]
                        },
                ));
            }
            i = i + 1;
        }
        proof {
            assert(docs0.take(n as int) =~~= docs0);
            assert(hidden0.take(n as int) =~= hidden0);
            assert(self.document_hidden_status@ =~= hidden_after(docs0, hidden0, q));
        }
        let email = Email::new_query_result(&query, &new_docs, &old_docs);
        let r = QueryResult { email, docs: new_docs };
        proof {
            assert(final(self)@.documents =~~= docs0);
            assert(final(self)@.events =~~= old(self)@.events);
        }
        Ok(r)
    }
}

/// Once a document is revealed by one query, no later query reveals it again:
/// any hidden state reachable after that query has the document's flag
/// cleared, so a matching query finds it already revealed.
pub proof fn lemma_disclosure_monotone(
    docs: Seq<DocModel>,
    h1: Seq<bool>,
    h2: Seq<bool>,
    q1: QueryModel,
    q2: QueryModel,
    i: int,
)
    requires
        h1.len() == docs.len(),
        h2.len() == docs.len(),
        0 <= i < docs.len(),
        revealed_at(docs, h1, q1, i),
        forall|j: int| 0 <= j < docs.len() ==> (h2[j] ==> hidden_after(docs, h1, q1)[j]),
    ensures
        !revealed_at(docs, h2, q2, i),
{
    assert(hidden_after(docs, h1, q1)[i] == false);
}

/// A document stands in the newly revealed list exactly when some index holds
/// it, matches the query and was still hidden.
pub proof fn lemma_reveal_list_membership(
    docs: Seq<DocModel>,
    hidden: Seq<bool>,
    q: QueryModel,
    d: DocModel,
)
    requires
        hidden.len() == docs.len(),
    ensures
        reveal_list(docs, hidden, q).contains(d) <==> exists|i: int|
            0 <= i < docs.len() && docs[i] == d && revealed_at(docs, hidden, q, i),
    decreases docs.len(),
{
    if docs.len() == 0 {
        assert(!reveal_list(docs, hidden, q).contains(d));
    } else {
        lemma_reveal_list_membership(docs.drop_last(), hidden.drop_last(), q, d);
        let pre = reveal_list(docs.drop_last(), hidden.drop_last(), q);
        let full = reveal_list(docs, hidden, q);
        let last = docs.len() - 1;
        assert forall|i: int|
            0 <= i < docs.drop_last().len() implies revealed_at(docs.drop_last(), hidden.drop_last(), q, i)
            == revealed_at(docs, hidden, q, i) by {
            assert(docs.drop_last()[i] == docs[i]);
            assert(hidden.drop_last()[i] == hidden[i]);
        }
        if q_matches(docs.last(), q) && hidden[last] {
            assert(full == pre.push(docs.last()));
            if full.contains(d) {
                let k = choose|k: int| 0 <= k < full.len() && full[k] == d;
                if k < pre.len() {
                    assert(pre[k] == d);
                    assert(pre.contains(d));
                } else {
                    assert(d == docs.last());
                    assert(revealed_at(docs, hidden, q, last));
                }
            }
            if exists|i: int| 0 <= i < docs.len() && docs[i] == d && revealed_at(docs, hidden, q, i) {
                let i = choose|i: int|
                    0 <= i < docs.len() && docs[i] == d && revealed_at(docs, hidden, q, i);
                if i < last {
                    assert(docs.drop_last()[i] == d);
                    assert(pre.contains(d));
                    let k = choose|k: int| 0 <= k < pre.len() && pre[k] == d;
                    assert(full[k] == d);
                } else {
                    assert(full[full.len() - 1] == d);
                }
                assert(full.contains(d));
            }
        } else {
            assert(full == pre);
            if full.contains(d) {
                let k = choose|k: int| 0 <= k < pre.len() && pre[k] == d;
                let i = choose|i: int|
                    0 <= i < docs.drop_last().len() && docs.drop_last()[i] == d && revealed_at(
                        docs.drop_last(),
                        hidden.drop_last(),
                        q,
                        i,
                    );
                assert(docs[i] == d && revealed_at(docs, hidden, q, i));
            }
            if exists|i: int| 0 <= i < docs.len() && docs[i] == d && revealed_at(docs, hidden, q, i) {
                let i = choose|i: int|
                    0 <= i < docs.len() && docs[i] == d && revealed_at(docs, hidden, q, i);
                assert(i != last);
                assert(docs.drop_last()[i] == d);
                assert(pre.contains(d));
            }
        }
    }
}

/// A query with a year filter only ever reveals or re-reports documents of
/// exactly that year.
pub proof fn lemma_year_filter(docs: Seq<DocModel>, hidden: Seq<bool>, q: QueryModel, d: DocModel)
    requires
        hidden.len() == docs.len(),
        reveal_list(docs, hidden, q).contains(d) || already_list(docs, hidden, q).contains(d),
    ensures
        q.year matches Some(y) ==> d.date.year == y,
    decreases docs.len(),
{
    if docs.len() == 0 {
    } else {
        let rpre = reveal_list(docs.drop_last(), hidden.drop_last(), q);
        let apre = already_list(docs.drop_last(), hidden.drop_last(), q);
        let rfull = reveal_list(docs, hidden, q);
        let afull = already_list(docs, hidden, q);
        if rfull.contains(d) {
            if q_matches(docs.last(), q) && hidden[docs.len() - 1] {
                let k = choose|k: int| 0 <= k < rfull.len() && rfull[k] == d;
                if k < rpre.len() {
                    assert(rpre[k] == d);
                    lemma_year_filter(docs.drop_last(), hidden.drop_last(), q, d);
                } else {
                    assert(d == docs.last());
                }
            } else {
                lemma_year_filter(docs.drop_last(), hidden.drop_last(), q, d);
            }
        } else {
            if q_matches(docs.last(), q) && !hidden[docs.len() - 1] {
                let k = choose|k: int| 0 <= k < afull.len() && afull[k] == d;
                if k < apre.len() {
                    assert(apre[k] == d);
                    lemma_year_filter(docs.drop_last(), hidden.drop_last(), q, d);
                } else {
                    assert(d == docs.last());
                }
            } else {
                lemma_year_filter(docs.drop_last(), hidden.drop_last(), q, d);
            }
        }
    }
}

} // verus!
