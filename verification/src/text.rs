//! Verified text utilities shared by the codec modules: splitting and joining
//! character sequences on a separator character, and the trusted glue to the
//! few `std` string primitives that vstd leaves unspecified.

use vstd::prelude::*;

verus! {

/// Relies on `String::push`: appends one character at the end of the string.
#[verifier::external_body]
pub(crate) fn push_char(s: &mut String, c: char)
    ensures
        final(s)@ == old(s)@.push(c),
{
    s.push(c)
}

/// Relies on `char::from_u32`: every value below the surrogate range is a
/// Unicode scalar value, so the conversion succeeds and returns the character
/// with exactly that code point.
#[verifier::external_body]
pub(crate) fn char_from_u32(u: u32) -> (r: char)
    requires
        u < 0xD800,
    ensures
        r as u32 == u,
{
    char::from_u32(u).unwrap()
}

/// The pieces of `s` between occurrences of `sep`, in order.  There is always
/// at least one piece; an empty input yields one empty piece.
pub open spec fn split_on(s: Seq<char>, sep: char) -> Seq<Seq<char>>
    decreases s.len(),
{
    if s.len() == 0 {
        seq![Seq::<char>::empty()]
    } else if s[0] == sep {
        seq![Seq::<char>::empty()] + split_on(s.skip(1), sep)
    } else {
        let rest = split_on(s.skip(1), sep);
        seq![seq![s[0]] + rest[0]] + rest.skip(1)
    }
}

/// The pieces joined back together with `sep` between consecutive pieces.
pub open spec fn join_with(pieces: Seq<Seq<char>>, sep: char) -> Seq<char>
    decreases pieces.len(),
{
    if pieces.len() == 0 {
        Seq::<char>::empty()
    } else if pieces.len() == 1 {
        pieces[0]
    } else {
        pieces[0] + seq![sep] + join_with(pieces.skip(1), sep)
    }
}

pub proof fn lemma_split_on_basics(s: Seq<char>, sep: char)
    ensures
        split_on(s, sep).len() >= 1,
        forall|k: int|
            0 <= k < split_on(s, sep).len() ==> !(#[trigger] split_on(s, sep)[k]).contains(sep),
    decreases s.len(),
{
    if s.len() == 0 {
        assert forall|k: int|
            0 <= k < split_on(s, sep).len() implies !(#[trigger] split_on(s, sep)[k]).contains(
            sep,
        ) by {
            assert(split_on(s, sep)[0].len() == 0);
        }
    } else {
        lemma_split_on_basics(s.skip(1), sep);
        let rest = split_on(s.skip(1), sep);
        if s[0] == sep {
            assert forall|k: int|
                0 <= k < split_on(s, sep).len() implies !(#[trigger] split_on(s, sep)[k]).contains(
                sep,
            ) by {
                if k == 0 {
                    assert(split_on(s, sep)[0].len() == 0);
                } else {
                    assert(split_on(s, sep)[k] == rest[k - 1]);
                }
            }
        } else {
            assert forall|k: int|
                0 <= k < split_on(s, sep).len() implies !(#[trigger] split_on(s, sep)[k]).contains(
                sep,
            ) by {
                if k == 0 {
                    let piece = seq![s[0]] + rest[0];
                    assert forall|j: int| 0 <= j < piece.len() implies piece[j] != sep by {
                        if j > 0 {
                            assert(piece[j] == rest[0][j - 1]);
                        }
                    }
                } else {
                    assert(split_on(s, sep)[k] == rest[k]);
                }
            }
        }
    }
}

/// How one more character at the end of the input changes the split: a
/// separator opens a fresh empty piece, any other character extends the last
/// piece.
pub proof fn lemma_split_on_push(s: Seq<char>, c: char, sep: char)
    ensures
        c == sep ==> split_on(s.push(c), sep) == split_on(s, sep).push(Seq::<char>::empty()),
        c != sep ==> split_on(s.push(c), sep) == split_on(s, sep).drop_last().push(
            split_on(s, sep).last().push(c),
        ),
    decreases s.len(),
{
    lemma_split_on_basics(s, sep);
    assert(split_on(Seq::<char>::empty(), sep) == seq![Seq::<char>::empty()]);
    if s.len() == 0 {
        assert(s =~= Seq::<char>::empty());
        assert(s.push(c) =~= seq![c]);
        assert(seq![c].skip(1) =~= Seq::<char>::empty());
        if c == sep {
            assert(split_on(seq![c], sep) == seq![Seq::<char>::empty()] + split_on(
                Seq::<char>::empty(),
                sep,
            ));
            assert(split_on(s.push(c), sep) =~~= split_on(s, sep).push(Seq::<char>::empty()));
        } else {
            assert(split_on(seq![c], sep) == seq![seq![c] + split_on(Seq::<char>::empty(), sep)[0]]
                + split_on(Seq::<char>::empty(), sep).skip(1));
            assert(seq![c] + split_on(Seq::<char>::empty(), sep)[0] =~= split_on(
                s,
                sep,
            ).last().push(c));
            assert(split_on(s.push(c), sep) =~~= split_on(s, sep).drop_last().push(
                split_on(s, sep).last().push(c),
            ));
        }
    } else {
        lemma_split_on_push(s.skip(1), c, sep);
        lemma_split_on_basics(s.skip(1), sep);
        assert(s.push(c)[0] == s[0]);
        assert(s.push(c).len() > 0);
        assert(s.push(c).skip(1) =~= s.skip(1).push(c));
        let rest = split_on(s.skip(1), sep);
        let restp = split_on(s.skip(1).push(c), sep);
        if c == sep {
            assert(restp == rest.push(Seq::<char>::empty()));
            if s[0] == sep {
                assert(split_on(s.push(c), sep) == seq![Seq::<char>::empty()] + restp);
                assert(split_on(s, sep) == seq![Seq::<char>::empty()] + rest);
                assert(split_on(s.push(c), sep) =~~= split_on(s, sep).push(Seq::<char>::empty()));
            } else {
                assert(split_on(s.push(c), sep) == seq![seq![s[0]] + restp[0]] + restp.skip(1));
                assert(split_on(s, sep) == seq![seq![s[0]] + rest[0]] + rest.skip(1));
                assert(restp[0] == rest[0]);
                assert(restp.skip(1) =~~= rest.skip(1).push(Seq::<char>::empty()));
                assert(split_on(s.push(c), sep) =~~= split_on(s, sep).push(Seq::<char>::empty()));
            }
        } else {
            assert(restp == rest.drop_last().push(rest.last().push(c)));
            if s[0] == sep {
                assert(split_on(s.push(c), sep) == seq![Seq::<char>::empty()] + restp);
                assert(split_on(s, sep) == seq![Seq::<char>::empty()] + rest);
                assert(split_on(s, sep).last() == rest.last());
                assert(split_on(s, sep).drop_last() =~~= seq![Seq::<char>::empty()]
                    + rest.drop_last());
                assert(split_on(s.push(c), sep) =~~= split_on(s, sep).drop_last().push(
                    split_on(s, sep).last().push(c),
                ));
            } else {
                assert(split_on(s.push(c), sep) == seq![seq![s[0]] + restp[0]] + restp.skip(1));
                assert(split_on(s, sep) == seq![seq![s[0]] + rest[0]] + rest.skip(1));
                if rest.len() == 1 {
                    assert(restp =~~= seq![rest[0].push(c)]);
                    assert(restp[0] == rest[0].push(c));
                    assert(restp.skip(1) =~~= Seq::<Seq<char>>::empty());
                    assert(split_on(s, sep) =~~= seq![seq![s[0]] + rest[0]]);
                    assert(seq![s[0]] + rest[0].push(c) =~= (seq![s[0]] + rest[0]).push(c));
                    assert(split_on(s.push(c), sep) =~~= split_on(s, sep).drop_last().push(
                        split_on(s, sep).last().push(c),
                    ));
                } else {
                    assert(restp[0] == rest[0]);
                    assert(restp.skip(1) =~~= rest.skip(1).drop_last().push(rest.last().push(c)));
                    assert(split_on(s, sep).last() == rest.last());
                    assert(split_on(s, sep).drop_last() =~~= seq![seq![s[0]] + rest[0]] + rest.skip(
                        1,
                    ).drop_last());
                    assert(split_on(s.push(c), sep) =~~= split_on(s, sep).drop_last().push(
                        split_on(s, sep).last().push(c),
                    ));
                }
            }
        }
    }
}

/// How one more piece at the end changes the join.
pub proof fn lemma_join_with_push(ps: Seq<Seq<char>>, p: Seq<char>, sep: char)
    ensures
        ps.len() == 0 ==> join_with(ps.push(p), sep) == p,
        ps.len() > 0 ==> join_with(ps.push(p), sep) == join_with(ps, sep) + seq![sep] + p,
    decreases ps.len(),
{
    if ps.len() == 0 {
        assert(ps.push(p) =~~= seq![p]);
        assert(join_with(seq![p], sep) == p);
    } else if ps.len() == 1 {
        assert(ps.push(p).skip(1) =~~= seq![p]);
        assert(join_with(ps.push(p), sep) == ps.push(p)[0] + seq![sep] + join_with(
            seq![p],
            sep,
        ));
        assert(join_with(seq![p], sep) == p);
        assert(ps.push(p)[0] == ps[0]);
    } else {
        lemma_join_with_push(ps.skip(1), p, sep);
        assert(ps.push(p).skip(1) =~~= ps.skip(1).push(p));
        assert(join_with(ps.push(p), sep) == ps[0] + seq![sep] + join_with(
            ps.skip(1).push(p),
            sep,
        ));
        assert(join_with(ps, sep) + seq![sep] + p =~= ps[0] + seq![sep] + (join_with(
            ps.skip(1),
            sep,
        ) + seq![sep] + p));
    }
}

/// A sequence without the separator splits into itself as the only piece.
pub proof fn lemma_split_no_sep(s: Seq<char>, sep: char)
    requires
        !s.contains(sep),
    ensures
        split_on(s, sep) == seq![s],
    decreases s.len(),
{
    if s.len() == 0 {
        assert(s =~= Seq::<char>::empty());
        assert(split_on(s, sep) =~~= seq![s]);
    } else {
        assert(s[0] != sep);
        let s1 = s.skip(1);
        assert forall|j: int| 0 <= j < s1.len() implies s1[j] != sep by {
            assert(s1[j] == s[j + 1]);
        }
        lemma_split_no_sep(s1, sep);
        assert(split_on(s, sep) == seq![seq![s[0]] + seq![s1][0]] + seq![s1].skip(1));
        assert(seq![s[0]] + s1 =~= s);
        assert(seq![s1].skip(1) =~~= Seq::<Seq<char>>::empty());
        assert(split_on(s, sep) =~~= seq![s]);
    }
}

/// Splitting a sequence that starts with a separator-free piece followed by a
/// separator peels off exactly that piece.
pub proof fn lemma_split_on_append(a: Seq<char>, b: Seq<char>, sep: char)
    requires
        !a.contains(sep),
    ensures
        split_on(a + seq![sep] + b, sep) == seq![a] + split_on(b, sep),
    decreases a.len(),
{
    let s = a + seq![sep] + b;
    if a.len() == 0 {
        assert(s =~= seq![sep] + b);
        assert(s[0] == sep);
        assert(s.skip(1) =~= b);
        assert(split_on(s, sep) == seq![Seq::<char>::empty()] + split_on(b, sep));
        assert(a =~= Seq::<char>::empty());
        assert(split_on(s, sep) =~~= seq![a] + split_on(b, sep));
    } else {
        assert(a[0] == s[0]);
        assert(s[0] != sep);
        let a1 = a.skip(1);
        assert forall|j: int| 0 <= j < a1.len() implies a1[j] != sep by {
            assert(a1[j] == a[j + 1]);
        }
        lemma_split_on_append(a1, b, sep);
        assert(s.skip(1) =~= a1 + seq![sep] + b);
        let rest = split_on(s.skip(1), sep);
        assert(rest == seq![a1] + split_on(b, sep));
        lemma_split_on_basics(b, sep);
        assert(split_on(s, sep) == seq![seq![s[0]] + rest[0]] + rest.skip(1));
        assert(rest[0] == a1);
        assert(seq![s[0]] + a1 =~= a);
        assert(rest.skip(1) =~~= split_on(b, sep));
        assert(split_on(s, sep) =~~= seq![a] + split_on(b, sep));
    }
}

/// Joining the pieces of a split restores the original sequence.
pub proof fn lemma_join_split_on(s: Seq<char>, sep: char)
    ensures
        join_with(split_on(s, sep), sep) == s,
    decreases s.len(),
{
    if s.len() == 0 {
        assert(join_with(split_on(s, sep), sep) == split_on(s, sep)[0]);
        assert(join_with(split_on(s, sep), sep) =~= s);
    } else {
        lemma_join_split_on(s.skip(1), sep);
        lemma_split_on_basics(s.skip(1), sep);
        let rest = split_on(s.skip(1), sep);
        if s[0] == sep {
            let pieces = seq![Seq::<char>::empty()] + rest;
            assert(split_on(s, sep) == pieces);
            assert(pieces.skip(1) =~~= rest);
            assert(join_with(pieces, sep) == pieces[0] + seq![sep] + join_with(rest, sep));
            assert(join_with(pieces, sep) =~= s);
        } else {
            let pieces = seq![seq![s[0]] + rest[0]] + rest.skip(1);
            assert(split_on(s, sep) == pieces);
            if rest.len() == 1 {
                assert(pieces.len() == 1);
                assert(join_with(rest, sep) == rest[0]);
                assert(join_with(pieces, sep) == pieces[0]);
                assert(join_with(pieces, sep) =~= s);
            } else {
                assert(pieces.skip(1) =~~= rest.skip(1));
                assert(join_with(pieces, sep) == pieces[0] + seq![sep] + join_with(
                    rest.skip(1),
                    sep,
                ));
                assert(join_with(rest, sep) == rest[0] + seq![sep] + join_with(rest.skip(1), sep));
                assert(join_with(pieces, sep) =~= seq![s[0]] + join_with(rest, sep));
                assert(join_with(pieces, sep) =~= s);
            }
        }
    }
}

/// Splitting a join of separator-free pieces restores the pieces.
pub proof fn lemma_split_join_with(pieces: Seq<Seq<char>>, sep: char)
    requires
        pieces.len() >= 1,
        forall|k: int| 0 <= k < pieces.len() ==> !(#[trigger] pieces[k]).contains(sep),
    ensures
        split_on(join_with(pieces, sep), sep) == pieces,
    decreases pieces.len(),
{
    if pieces.len() == 1 {
        lemma_split_no_sep(pieces[0], sep);
        assert(join_with(pieces, sep) == pieces[0]);
        assert(split_on(join_with(pieces, sep), sep) =~~= pieces);
    } else {
        assert forall|k: int|
            0 <= k < pieces.skip(1).len() implies !(#[trigger] pieces.skip(1)[k]).contains(sep) by {
            assert(pieces.skip(1)[k] == pieces[k + 1]);
        }
        lemma_split_join_with(pieces.skip(1), sep);
        lemma_split_on_append(pieces[0], join_with(pieces.skip(1), sep), sep);
        assert(join_with(pieces, sep) == pieces[0] + seq![sep] + join_with(pieces.skip(1), sep));
        assert(split_on(join_with(pieces, sep), sep) =~~= pieces);
    }
}

/// One trailing carriage return removed: a line ending may be `"\r\n"`, and
/// the carriage return is not part of the line.
pub open spec fn strip_cr(line: Seq<char>) -> Seq<char> {
    if line.len() > 0 && line.last() == '\r' {
        line.drop_last()
    } else {
        line
    }
}

/// No carriage return stands immediately before a line feed.
pub open spec fn no_crlf(s: Seq<char>) -> bool {
    forall|i: int| 0 <= i < s.len() - 1 ==> !((#[trigger] s[i]) == '\r' && s[i + 1] == '\n')
}

/// In a text with no `"\r\n"`, no piece of the line split other than the last
/// ends with a carriage return, so stripping one is the identity there.
pub proof fn lemma_split_interior_no_cr(s: Seq<char>, k: int)
    requires
        no_crlf(s),
        0 <= k < split_on(s, '\n').len() - 1,
    ensures
        strip_cr(split_on(s, '\n')[k]) == split_on(s, '\n')[k],
    decreases s.len(),
{
    lemma_split_on_basics(s, '\n');
    if s.len() == 0 {
    } else {
        let s1 = s.skip(1);
        assert(no_crlf(s1)) by {
            assert forall|i: int|
                0 <= i < s1.len() - 1 implies !((#[trigger] s1[i]) == '\r' && s1[i + 1]
                == '\n') by {
                assert(s1[i] == s[i + 1] && s1[i + 1] == s[i + 2]);
            }
        }
        let rest = split_on(s1, '\n');
        lemma_split_on_basics(s1, '\n');
        if s[0] == '\n' {
            if k == 0 {
                assert(split_on(s, '\n')[0].len() == 0);
            } else {
                lemma_split_interior_no_cr(s1, k - 1);
                assert(split_on(s, '\n')[k] == rest[k - 1]);
            }
        } else {
            if k == 0 {
                let piece = seq![s[0]] + rest[0];
                assert(split_on(s, '\n')[0] == piece);
                if rest[0].len() > 0 {
                    lemma_split_interior_no_cr(s1, 0);
                    assert(piece.last() == rest[0].last());
                    assert(rest[0].last() != '\r');
                } else {
                    assert(piece =~= seq![s[0]]);
                    assert(s1.len() > 0 && s1[0] == '\n') by {
                        if s1.len() == 0 {
                            assert(rest.len() == 1);
                        } else if s1[0] != '\n' {
                            assert(rest[0] == seq![s1[0]] + split_on(s1.skip(1), '\n')[0]);
                        }
                    }
                    assert(s[1] == '\n');
                    assert(s[0] != '\r');
                }
            } else {
                lemma_split_interior_no_cr(s1, k);
                assert(split_on(s, '\n')[k] == rest[k]);
            }
        }
    }
}

/// The line without a trailing carriage return, if it has one.
pub fn strip_cr_line(s: &str) -> (r: String)
    ensures
        r@ == strip_cr(s@),
{
    let n = s.unicode_len();
    if n > 0 && s.get_char(n - 1) == '\r' {
        let sub = s.substring_char(0, n - 1);
        proof {
            assert(s@.subrange(0, n as int - 1) =~= s@.drop_last());
        }
        String::from_str(sub)
    } else {
        String::from_str(s)
    }
}

/// When the input is nonempty and does not end with the separator, the last
/// piece of the split is nonempty.
pub proof fn lemma_split_last_nonempty(s: Seq<char>, sep: char)
    requires
        s.len() > 0,
        s.last() != sep,
    ensures
        split_on(s, sep).last().len() > 0,
    decreases s.len(),
{
    lemma_split_on_basics(s, sep);
    let rest = split_on(s.skip(1), sep);
    if s.len() == 1 {
        assert(s[0] != sep);
        assert(s.skip(1) =~= Seq::<char>::empty());
        assert(rest == seq![Seq::<char>::empty()]);
        assert(split_on(s, sep) == seq![seq![s[0]] + rest[0]] + rest.skip(1));
        assert(rest.skip(1) =~~= Seq::<Seq<char>>::empty());
        assert(split_on(s, sep).last() =~= seq![s[0]]);
    } else {
        assert(s.skip(1).last() == s.last());
        lemma_split_last_nonempty(s.skip(1), sep);
        lemma_split_on_basics(s.skip(1), sep);
        if s[0] == sep {
            assert(split_on(s, sep).last() == rest.last());
        } else {
            if rest.len() == 1 {
                assert(split_on(s, sep) == seq![seq![s[0]] + rest[0]] + rest.skip(1));
                assert(rest.skip(1) =~~= Seq::<Seq<char>>::empty());
                assert(split_on(s, sep).last() == seq![s[0]] + rest[0]);
            } else {
                assert(split_on(s, sep).last() == rest.last());
            }
        }
    }
}

/// The pieces of `s` between occurrences of `sep`, as owned strings.
pub fn split_char(s: &str, sep: char) -> (r: Vec<String>)
    ensures
        r@.map_values(|p: String| p@) == split_on(s@, sep),
{
    let n = s.unicode_len();
    let mut r: Vec<String> = Vec::new();
    let mut piece = String::new();
    let mut i: usize = 0;
    proof {
        assert(s@.take(0) =~= Seq::<char>::empty());
        assert(r@.map_values(|p: String| p@).push(piece@) =~~= split_on(s@.take(0), sep));
    }
    while i < n
        invariant
            n == s@.len(),
            0 <= i <= n,
            r@.map_values(|p: String| p@).push(piece@) == split_on(s@.take(i as int), sep),
        decreases n - i,
    {
        let ghost pre = r@.map_values(|p: String| p@);
        let c = s.get_char(i);
        proof {
            assert(s@.take(i as int + 1) =~= s@.take(i as int).push(s@[i as int]));
            lemma_split_on_push(s@.take(i as int), c, sep);
            assert(pre.push(piece@).drop_last() =~~= pre);
        }
        if c == sep {
            let done = piece;
            piece = String::new();
            r.push(done);
            proof {
                assert(r@.map_values(|p: String| p@) =~~= pre.push(done@));
                assert(r@.map_values(|p: String| p@).push(piece@) =~~= split_on(
                    s@.take(i as int + 1),
                    sep,
                ));
            }
        } else {
            push_char(&mut piece, c);
            proof {
                assert(r@.map_values(|p: String| p@).push(piece@) =~~= split_on(
                    s@.take(i as int + 1),
                    sep,
                ));
            }
        }
        i = i + 1;
    }
    proof {
        assert(s@.take(n as int) =~= s@);
    }
    let ghost pre = r@.map_values(|p: String| p@);
    let ghost last = piece@;
    r.push(piece);
    proof {
        assert(r@.map_values(|p: String| p@) =~~= pre.push(last));
    }
    r
}

/// The strings joined with `sep` between consecutive elements.
pub fn join_char(pieces: &Vec<String>, sep: char) -> (r: String)
    requires
        pieces@.len() >= 1,
    ensures
        r@ == join_with(pieces@.map_values(|p: String| p@), sep),
{
    let ghost all = pieces@.map_values(|p: String| p@);
    let mut r = String::new();
    let mut i: usize = 0;
    let n = pieces.len();
    while i < n
        invariant
            1 <= n == pieces@.len(),
            0 <= i <= n,
            all == pieces@.map_values(|p: String| p@),
            i == 0 ==> r@ == Seq::<char>::empty(),
            i > 0 ==> r@ == join_with(all.take(i as int), sep),
        decreases n - i,
    {
        if i > 0 {
            push_char(&mut r, sep);
        }
        r.append(pieces[i].as_str());
        proof {
            assert(all.take(i as int + 1) =~~= all.take(i as int).push(all[i as int]));
            lemma_join_with_push(all.take(i as int), all[i as int], sep);
            assert(all[i as int] == pieces@[i as int]@);
            if i > 0 {
                assert(r@ =~= join_with(all.take(i as int + 1), sep));
            } else {
                assert(r@ =~= all[0]);
                assert(join_with(all.take(1), sep) == all.take(1)[0]);
            }
        }
        i = i + 1;
    }
    proof {
        assert(all.take(n as int) =~~= all);
    }
    r
}

} // verus!
