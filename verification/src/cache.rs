//! The document cache codec: an ordered collection of documents serialized
//! into one text blob.  Each rendered document is obfuscated with a reversible
//! letter-substitution transform and the results are joined with a reserved
//! separator control character.

use vstd::prelude::*;

use crate::document::{DocModel, Document, ParseError, doc_wf, parse_spec, render_chars};
use crate::text::{char_from_u32, join_with, push_char, split_char, split_on};
use crate::text::{lemma_split_join_with, no_crlf};

verus! {

/// The reserved separator placed between obfuscated document records.
pub const RECORD_SEPARATOR: char = '\x03';

/// One character of the obfuscation transform: a letter rotates thirteen
/// places within its own case, every other character is unchanged.
pub open spec fn rot13_char(c: char) -> char {
    if 97 <= c as u32 && c as u32 <= 122 {
        (((c as u32 - 97 + 13) % 26) + 97) as char
    } else if 65 <= c as u32 && c as u32 <= 90 {
        (((c as u32 - 65 + 13) % 26) + 65) as char
    } else {
        c
    }
}

/// The obfuscation transform applied to every character of a sequence.
pub open spec fn rot13_seq(s: Seq<char>) -> Seq<char> {
    s.map_values(|c: char| rot13_char(c))
}

/// Applying the transform twice restores each character.
pub proof fn lemma_rot13_char_involution(c: char)
    ensures
        rot13_char(rot13_char(c)) == c,
{
    let u = c as u32;
    if 97 <= u && u <= 122 {
        let v = ((u - 97 + 13) % 26) + 97;
        assert(97 <= v && v <= 122);
        assert((v as char) as u32 == v);
        assert(((v - 97 + 13) % 26) + 97 == u);
        assert((u as char) == c);
    } else if 65 <= u && u <= 90 {
        let v = ((u - 65 + 13) % 26) + 65;
        assert(65 <= v && v <= 90);
        assert((v as char) as u32 == v);
        assert(((v - 65 + 13) % 26) + 65 == u);
        assert((u as char) == c);
    }
}

/// The transform is its own inverse on whole sequences.
pub proof fn lemma_rot13_seq_involution(s: Seq<char>)
    ensures
        rot13_seq(rot13_seq(s)) == s,
{
    assert forall|i: int| 0 <= i < s.len() implies rot13_seq(rot13_seq(s))[i] == s[i] by {
        lemma_rot13_char_involution(s[i]);
    }
    assert(rot13_seq(rot13_seq(s)) =~= s);
}

/// The transform maps letters to letters and leaves everything else alone, so
/// it puts the separator character exactly where the input had it.
pub proof fn lemma_rot13_char_separator(c: char)
    ensures
        (rot13_char(c) == RECORD_SEPARATOR) <==> (c == RECORD_SEPARATOR),
{
    let u = c as u32;
    if 97 <= u && u <= 122 {
        let v = ((u - 97 + 13) % 26) + 97;
        assert((v as char) as u32 == v);
        assert(RECORD_SEPARATOR as u32 == 3);
    } else if 65 <= u && u <= 90 {
        let v = ((u - 65 + 13) % 26) + 65;
        assert((v as char) as u32 == v);
        assert(RECORD_SEPARATOR as u32 == 3);
    } else {
        if c == RECORD_SEPARATOR {
        } else {
            assert(rot13_char(c) == c);
        }
    }
}

/// The transformed sequence contains the separator exactly where the input
/// does.
pub proof fn lemma_rot13_seq_separator(s: Seq<char>)
    ensures
        rot13_seq(s).contains(RECORD_SEPARATOR) <==> s.contains(RECORD_SEPARATOR),
{
    if rot13_seq(s).contains(RECORD_SEPARATOR) {
        let i = choose|i: int|
            0 <= i < rot13_seq(s).len() && rot13_seq(s)[i] == RECORD_SEPARATOR;
        lemma_rot13_char_separator(s[i]);
        assert(s[i] == RECORD_SEPARATOR);
    }
    if s.contains(RECORD_SEPARATOR) {
        let i = choose|i: int| 0 <= i < s.len() && s[i] == RECORD_SEPARATOR;
        lemma_rot13_char_separator(s[i]);
        assert(rot13_seq(s)[i] == RECORD_SEPARATOR);
    }
}

/// The obfuscation transform on a string.
pub fn rot13(s: &str) -> (r: String)
    ensures
        r@ == rot13_seq(s@),
{
    let n = s.unicode_len();
    let mut r = String::new();
    let mut i: usize = 0;
    while i < n
        invariant
            n == s@.len(),
            0 <= i <= n,
            r@ == rot13_seq(s@.take(i as int)),
        decreases n - i,
    {
        let c = s.get_char(i);
        let u = c as u32;
        let d: char = if 97 <= u && u <= 122 {
            char_from_u32(((u - 97 + 13) % 26) + 97)
        } else if 65 <= u && u <= 90 {
            char_from_u32(((u - 65 + 13) % 26) + 65)
        } else {
            c
        };
        push_char(&mut r, d);
        proof {
            assert(d == rot13_char(c));
            assert(s@.take(i as int + 1) =~= s@.take(i as int).push(c));
            assert(rot13_seq(s@.take(i as int + 1)) =~= rot13_seq(s@.take(i as int)).push(
                rot13_char(c),
            ));
        }
        i = i + 1;
    }
    proof {
        assert(s@.take(n as int) =~= s@);
    }
    r
}

#[derive(Clone, Copy, Debug, PartialEq, Eq, Structural)]
pub enum DecodeError {
    /// One record of the blob failed to parse.
    ParseFailure(ParseError),
}

/// The cache blob for a document collection: each rendered document
/// obfuscated, the results joined with the reserved separator.
pub open spec fn encode_spec(docs: Seq<DocModel>) -> Seq<char> {
    join_with(docs.map_values(|d: DocModel| rot13_seq(render_chars(d))), RECORD_SEPARATOR)
}

/// What decoding a list of obfuscated records yields: each piece
/// de-obfuscated and parsed, or the first piece's failure.
pub open spec fn decode_pieces(pieces: Seq<Seq<char>>) -> Result<Seq<DocModel>, DecodeError>
    decreases pieces.len(),
{
    if pieces.len() == 0 {
        Ok(Seq::<DocModel>::empty())
    } else {
        match parse_spec(rot13_seq(pieces[0])) {
            Err(e) => Err(DecodeError::ParseFailure(e)),
            Ok(d) => match decode_pieces(pieces.skip(1)) {
                Err(e) => Err(e),
                Ok(rest) => Ok(seq![d] + rest),
            },
        }
    }
}

/// Already-decoded documents prefixed onto the rest of a decode.
pub open spec fn decode_extend(pre: Seq<DocModel>, rest: Result<Seq<DocModel>, DecodeError>) -> Result<
    Seq<DocModel>,
    DecodeError,
> {
    match rest {
        Ok(ds) => Ok(pre + ds),
        Err(e) => Err(e),
    }
}

/// What decoding a cache blob yields.
pub open spec fn decode_spec(blob: Seq<char>) -> Result<Seq<DocModel>, DecodeError> {
    decode_pieces(split_on(blob, RECORD_SEPARATOR))
}

/// An ordered collection of documents with its single-blob serialization.
#[derive(Debug)]
pub struct DocCache {
    pub docs: Vec<Document>,
}

impl DocCache {
    /// Wraps an already-parsed collection.
    pub fn new(docs: Vec<Document>) -> (r: DocCache)
        ensures
            r.docs == docs,
    {
        DocCache { docs }
    }

    /// Parses one source record and appends it to the collection.
    pub fn add(&mut self, doc_str: &str) -> (r: Result<(), ParseError>)
        ensures
            r matches Ok(u) ==> parse_spec(doc_str@) matches Ok(d) && final(self).docs@.map_values(
                |x: Document| x@,
            ) == old(self).docs@.map_values(|x: Document| x@).push(d),
            r matches Err(e) ==> parse_spec(doc_str@) == Err::<DocModel, _>(e) && final(self).docs
                == old(self).docs,
    {
        match Document::parse(doc_str) {
            Ok(d) => {
                let ghost pre = self.docs@.map_values(|x: Document| x@);
                self.docs.push(d);
                proof {
                    assert(self.docs@.map_values(|x: Document| x@) =~~= pre.push(
                        self.docs@[self.docs@.len() - 1]@,
                    ));
                }
                Ok(())
            },
            Err(e) => Err(e),
        }
    }

    /// Serializes the collection into one obfuscated blob.
    pub fn encode(&self) -> (r: String)
        requires
            forall|k: int|
                0 <= k < self.docs@.len() ==> (#[trigger] self.docs@[k]@).date.wf(),
        ensures
            r@ == encode_spec(self.docs@.map_values(|d: Document| d@)),
    {
        let ghost models = self.docs@.map_values(|d: Document| d@);
        let ghost goal = models.map_values(|d: DocModel| rot13_seq(render_chars(d)));
        if self.docs.len() == 0 {
            proof {
                assert(goal =~~= Seq::<Seq<char>>::empty());
            }
            return String::new();
        }
        let mut pieces: Vec<String> = Vec::new();
        let n = self.docs.len();
        let mut i: usize = 0;
        while i < n
            invariant
                0 <= i <= n == self.docs@.len(),
                forall|k: int|
                    0 <= k < self.docs@.len() ==> (#[trigger] self.docs@[k]@).date.wf(),
                goal == self.docs@.map_values(|d: Document| d@).map_values(
                    |d: DocModel| rot13_seq(render_chars(d)),
                ),
                pieces@.map_values(|p: String| p@) == goal.take(i as int),
            decreases n - i,
        {
            let ghost pre = pieces@.map_values(|p: String| p@);
            let rendered = self.docs[i].render();
            let obfuscated = rot13(rendered.as_str());
            pieces.push(obfuscated);
            proof {
                assert(pieces@.map_values(|p: String| p@) =~~= pre.push(
                    pieces@[pieces@.len() - 1]@,
                ));
                assert(goal.take(i as int + 1) =~~= goal.take(i as int).push(goal[i as int]));
                assert(goal[i as int] == rot13_seq(render_chars(self.docs@[i as int]@)));
            }
            i = i + 1;
        }
        proof {
            assert(goal.take(n as int) =~~= goal);
        }
        crate::text::join_char(&pieces, RECORD_SEPARATOR)
    }

    /// Deserializes a blob back into the document collection it encodes.
    pub fn decode(blob: &str) -> (r: Result<DocCache, DecodeError>)
        ensures
            r matches Ok(c) ==> decode_spec(blob@) matches Ok(ds) && c.docs@.map_values(
                |d: Document| d@,
            ) == ds && forall|k: int| 0 <= k < c.docs@.len() ==> doc_wf(#[trigger] c.docs@[k]@),
            r matches Err(e) ==> decode_spec(blob@) == Err::<Seq<DocModel>, _>(e),
    {
        let pieces = split_char(blob, RECORD_SEPARATOR);
        let ghost ps = split_on(blob@, RECORD_SEPARATOR);
        let mut docs: Vec<Document> = Vec::new();
        let n = pieces.len();
        let mut i: usize = 0;
        proof {
            assert(ps.skip(0) =~~= ps);
            match decode_pieces(ps) {
                Ok(ds) => {
                    assert(Seq::<DocModel>::empty() + ds =~~= ds);
                },
                Err(_) => {},
            }
            assert(docs@.map_values(|d: Document| d@) =~~= Seq::<DocModel>::empty());
        }
        while i < n
            invariant
                0 <= i <= n == pieces@.len(),
                ps == split_on(blob@, RECORD_SEPARATOR),
                ps == pieces@.map_values(|p: String| p@),
                forall|k: int| 0 <= k < docs@.len() ==> doc_wf(#[trigger] docs@[k]@),
                decode_pieces(ps) == decode_extend(
                    docs@.map_values(|d: Document| d@),
                    decode_pieces(ps.skip(i as int)),
                ),
            decreases n - i,
        {
            let ghost pre = docs@.map_values(|d: Document| d@);
            let ghost tail = ps.skip(i as int);
            proof {
                assert(tail[0] == ps[i as int]);
                assert(tail.skip(1) =~~= ps.skip(i as int + 1));
            }
            let plain = rot13(pieces[i].as_str());
            proof {
                assert(plain@ == rot13_seq(tail[0]));
            }
            match Document::parse(plain.as_str()) {
                Ok(d) => {
                    docs.push(d);
                },
                Err(e) => {
                    proof {
                        assert(decode_pieces(tail) == Err::<Seq<DocModel>, _>(
                            DecodeError::ParseFailure(e),
                        ));
                    }
                    return Err(DecodeError::ParseFailure(e));
                },
            }
            proof {
                let cur = docs@.map_values(|d: Document| d@);
                let newd = docs@[docs@.len() - 1]@;
                assert(cur =~~= pre.push(newd));
                match decode_pieces(ps.skip(i as int + 1)) {
                    Ok(ds) => {
                        assert(decode_pieces(tail) == Ok::<_, DecodeError>(seq![newd] + ds));
                        assert(pre + (seq![newd] + ds) =~~= cur + ds);
                    },
                    Err(_) => {},
                }
            }
            i = i + 1;
        }
        proof {
            assert(ps.skip(n as int) =~~= Seq::<Seq<char>>::empty());
            assert(decode_pieces(ps.skip(n as int)) == Ok::<_, DecodeError>(
                Seq::<DocModel>::empty(),
            ));
            assert(docs@.map_values(|d: Document| d@) + Seq::<DocModel>::empty() =~~= docs@
                .map_values(|d: Document| d@));
        }
        Ok(DocCache { docs })
    }
}

/// Decoding an encoded nonempty collection restores it, as long as every
/// document round-trips through its text form and no rendered form contains
/// the reserved separator.
pub proof fn lemma_cache_round_trip(docs: Seq<DocModel>)
    requires
        docs.len() >= 1,
        forall|k: int| 0 <= k < docs.len() ==> doc_wf(#[trigger] docs[k]),
        forall|k: int| 0 <= k < docs.len() ==> !(#[trigger] docs[k]).title_full.contains('\n'),
        forall|k: int|
            0 <= k < docs.len() ==> ((#[trigger] docs[k]).title_full.len() > 0
                ==> docs[k].title_full.last() != '\r'),
        forall|k: int|
            0 <= k < docs.len() ==> ((#[trigger] docs[k]).body_full.len() > 0
                ==> docs[k].body_full.last() != '\n'),
        forall|k: int| 0 <= k < docs.len() ==> no_crlf((#[trigger] docs[k]).body_full),
        forall|k: int|
            0 <= k < docs.len() ==> !render_chars(#[trigger] docs[k]).contains(RECORD_SEPARATOR),
    ensures
        decode_spec(encode_spec(docs)) == Ok::<_, DecodeError>(docs),
{
    let pieces = docs.map_values(|d: DocModel| rot13_seq(render_chars(d)));
    assert forall|k: int|
        0 <= k < pieces.len() implies !(#[trigger] pieces[k]).contains(RECORD_SEPARATOR) by {
        lemma_rot13_seq_separator(render_chars(docs[k]));
    }
    lemma_split_join_with(pieces, RECORD_SEPARATOR);
    lemma_decode_pieces_of_encoded(docs);
}

proof fn lemma_decode_pieces_of_encoded(docs: Seq<DocModel>)
    requires
        forall|k: int| 0 <= k < docs.len() ==> doc_wf(#[trigger] docs[k]),
        forall|k: int| 0 <= k < docs.len() ==> !(#[trigger] docs[k]).title_full.contains('\n'),
        forall|k: int|
            0 <= k < docs.len() ==> ((#[trigger] docs[k]).title_full.len() > 0
                ==> docs[k].title_full.last() != '\r'),
        forall|k: int|
            0 <= k < docs.len() ==> ((#[trigger] docs[k]).body_full.len() > 0
                ==> docs[k].body_full.last() != '\n'),
        forall|k: int| 0 <= k < docs.len() ==> no_crlf((#[trigger] docs[k]).body_full),
    ensures
        decode_pieces(docs.map_values(|d: DocModel| rot13_seq(render_chars(d)))) == Ok::<
            _,
            DecodeError,
        >(docs),
    decreases docs.len(),
{
    let pieces = docs.map_values(|d: DocModel| rot13_seq(render_chars(d)));
    if docs.len() == 0 {
        assert(pieces =~~= Seq::<Seq<char>>::empty());
        assert(docs =~~= Seq::<DocModel>::empty());
    } else {
        lemma_rot13_seq_involution(render_chars(docs[0]));
        assert(rot13_seq(pieces[0]) == render_chars(docs[0]));
        crate::document::lemma_parse_render_round_trip(docs[0]);
        assert(parse_spec(rot13_seq(pieces[0])) == Ok::<_, ParseError>(docs[0]));
        assert forall|k: int|
            0 <= k < docs.skip(1).len() implies doc_wf(#[trigger] docs.skip(1)[k]) && !docs.skip(
            1,
        )[k].title_full.contains('\n') && (docs.skip(1)[k].title_full.len() > 0 ==> docs.skip(
            1,
        )[k].title_full.last() != '\r') && (docs.skip(1)[k].body_full.len() > 0 ==> docs.skip(
            1,
        )[k].body_full.last() != '\n') && no_crlf(docs.skip(1)[k].body_full) by {
            assert(docs.skip(1)[k] == docs[k + 1]);
        }
        lemma_decode_pieces_of_encoded(docs.skip(1));
        assert(pieces.skip(1) =~~= docs.skip(1).map_values(
            |d: DocModel| rot13_seq(render_chars(d)),
        ));
        assert(decode_pieces(pieces.skip(1)) == Ok::<_, DecodeError>(docs.skip(1)));
        assert(decode_pieces(pieces) == Ok::<_, DecodeError>(seq![docs[0]] + docs.skip(1)));
        assert(seq![docs[0]] + docs.skip(1) =~~= docs);
    }
}

} // verus!
