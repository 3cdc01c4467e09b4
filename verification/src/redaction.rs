//! The redaction codec: text with bracket-delimited secret spans is turned
//! into a public form in which every masked character is replaced by one
//! marker glyph.  Line breaks inside a span are kept, so redaction never
//! disturbs line structure.

use vstd::prelude::*;

use crate::text::push_char;

verus! {

/// The fixed placeholder glyph substituted for each masked character.
pub const MARKER: char = '\u{2588}';

#[derive(Clone, Copy, Debug, PartialEq, Eq, Structural)]
pub enum RedactionError {
    /// A `[` occurred while a redaction span was already open.
    NestedBraces,
    /// A `]` occurred outside a span, or the input ended inside a span.
    MismatchedBraces,
}

/// What redaction returns on the remaining input `s`, given whether a
/// redaction span is currently open.
pub open spec fn redact_from(s: Seq<char>, inside: bool) -> Result<Seq<char>, RedactionError>
    decreases s.len(),
{
    if s.len() == 0 {
        if inside {
            Err(RedactionError::MismatchedBraces)
        } else {
            Ok(Seq::<char>::empty())
        }
    } else {
        let c = s[0];
        if c == '[' {
            if inside {
                Err(RedactionError::NestedBraces)
            } else {
                redact_from(s.skip(1), true)
            }
        } else if c == ']' {
            if inside {
                redact_from(s.skip(1), false)
            } else {
                Err(RedactionError::MismatchedBraces)
            }
        } else {
            let e = if inside && c != '\n' {
                MARKER
            } else {
                c
            };
            match redact_from(s.skip(1), inside) {
                Ok(t) => Ok(seq![e] + t),
                Err(err) => Err(err),
            }
        }
    }
}

/// The redacted form of `s`: brackets delimit spans and are dropped, masked
/// characters other than line breaks become the marker glyph.
pub open spec fn redact_spec(s: Seq<char>) -> Result<Seq<char>, RedactionError> {
    redact_from(s, false)
}

/// The view of an executable redaction result.
pub open spec fn redact_result_view(r: Result<String, RedactionError>) -> Result<
    Seq<char>,
    RedactionError,
> {
    match r {
        Ok(s) => Ok(s@),
        Err(e) => Err(e),
    }
}

/// Computes the redacted form of `input`, or reports why its bracket
/// structure is invalid.
pub fn redact(input: &str) -> (r: Result<String, RedactionError>)
    ensures
        redact_result_view(r) == redact_spec(input@),
{
    let n = input.unicode_len();
    let mut out = String::new();
    let mut inside = false;
    let mut i: usize = 0;
    proof {
        assert(input@.skip(0) =~= input@);
    }
    while i < n
        invariant
            n == input@.len(),
            0 <= i <= n,
            forall|t: Seq<char>|
                redact_from(input@.skip(i as int), inside) == Ok::<_, RedactionError>(t)
                    ==> redact_spec(input@) == Ok::<_, RedactionError>(out@ + t),
            forall|e: RedactionError|
                redact_from(input@.skip(i as int), inside) == Err::<Seq<char>, _>(e) ==> redact_spec(
                    input@,
                ) == Err::<Seq<char>, RedactionError>(e),
        decreases n - i,
    {
        let ghost prev = input@.skip(i as int);
        let c = input.get_char(i);
        proof {
            assert(prev[0] == c);
            assert(prev.skip(1) =~= input@.skip(i as int + 1));
        }
        if c == '[' {
            if inside {
                return Err(RedactionError::NestedBraces);
            }
            inside = true;
        } else if c == ']' {
            if !inside {
                return Err(RedactionError::MismatchedBraces);
            }
            inside = false;
        } else {
            let ghost out0 = out@;
            let e: char = if inside && c != '\n' {
                MARKER
            } else {
                c
            };
            push_char(&mut out, e);
            proof {
                assert forall|t: Seq<char>|
                    redact_from(input@.skip(i as int + 1), inside) == Ok::<_, RedactionError>(
                        t,
                    ) implies redact_spec(input@) == Ok::<_, RedactionError>(out@ + t) by {
                    assert(redact_from(prev, inside) == Ok::<_, RedactionError>(seq![e] + t));
                    assert(out0 + (seq![e] + t) =~= out@ + t);
                }
            }
        }
        i = i + 1;
    }
    proof {
        assert(input@.skip(n as int) =~= Seq::<char>::empty());
    }
    if inside {
        return Err(RedactionError::MismatchedBraces);
    }
    proof {
        assert(redact_from(input@.skip(n as int), false) == Ok::<_, RedactionError>(
            Seq::<char>::empty(),
        ));
        assert(out@ + Seq::<char>::empty() =~= out@);
    }
    Ok(out)
}

/// A successfully redacted text contains no bracket characters.
pub proof fn lemma_redact_output_no_brackets(s: Seq<char>, inside: bool)
    ensures
        forall|t: Seq<char>|
            redact_from(s, inside) == Ok::<_, RedactionError>(t) ==> forall|i: int|
                0 <= i < t.len() ==> t[i] != '[' && t[i] != ']',
    decreases s.len(),
{
    if s.len() == 0 {
    } else {
        let c = s[0];
        lemma_redact_output_no_brackets(s.skip(1), true);
        lemma_redact_output_no_brackets(s.skip(1), false);
        lemma_redact_output_no_brackets(s.skip(1), inside);
        if c != '[' && c != ']' {
            let e = if inside && c != '\n' {
                MARKER
            } else {
                c
            };
            assert forall|t: Seq<char>|
                redact_from(s, inside) == Ok::<_, RedactionError>(t) implies forall|i: int|
                0 <= i < t.len() ==> t[i] != '[' && t[i] != ']' by {
                match redact_from(s.skip(1), inside) {
                    Ok(t1) => {
                        assert(t == seq![e] + t1);
                        assert(MARKER != '[' && MARKER != ']');
                        assert forall|i: int| 0 <= i < t.len() implies t[i] != '[' && t[i]
                            != ']' by {
                            if i > 0 {
                                assert(t[i] == t1[i - 1]);
                            }
                        }
                    },
                    Err(_) => {},
                }
            }
        }
    }
}

/// Redaction is the identity on text without brackets; in particular,
/// re-running it on already-redacted text changes nothing.
pub proof fn lemma_redact_no_brackets_identity(s: Seq<char>)
    requires
        forall|i: int| 0 <= i < s.len() ==> s[i] != '[' && s[i] != ']',
    ensures
        redact_spec(s) == Ok::<_, RedactionError>(s),
    decreases s.len(),
{
    lemma_redact_identity_from(s);
}

proof fn lemma_redact_identity_from(s: Seq<char>)
    requires
        forall|i: int| 0 <= i < s.len() ==> s[i] != '[' && s[i] != ']',
    ensures
        redact_from(s, false) == Ok::<_, RedactionError>(s),
    decreases s.len(),
{
    if s.len() == 0 {
        assert(s =~= Seq::<char>::empty());
    } else {
        let s1 = s.skip(1);
        assert forall|i: int| 0 <= i < s1.len() implies s1[i] != '[' && s1[i] != ']' by {
            assert(s1[i] == s[i + 1]);
        }
        lemma_redact_identity_from(s1);
        assert(seq![s[0]] + s1 =~= s);
    }
}

/// Redaction is idempotent: redacting a redacted text returns it unchanged.
pub proof fn lemma_redact_idempotent(s: Seq<char>, t: Seq<char>)
    requires
        redact_spec(s) == Ok::<_, RedactionError>(t),
    ensures
        redact_spec(t) == Ok::<_, RedactionError>(t),
{
    lemma_redact_output_no_brackets(s, false);
    lemma_redact_no_brackets_identity(t);
}

} // verus!
