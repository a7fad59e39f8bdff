//! Byte-string splitting: the line and field structure that the three file
//! formats share.

use vstd::prelude::*;

verus! {

/// Split `s` at every occurrence of `sep`: a string with `n` separators has
/// `n + 1` pieces, in order, none containing `sep`.
pub open spec fn split_on(s: Seq<u8>, sep: u8) -> Seq<Seq<u8>>
    decreases s.len(),
{
    if s.len() == 0 {
        seq![s]
    } else if s[0] == sep {
        seq![Seq::<u8>::empty()] + split_on(s.skip(1), sep)
    } else {
        let rest = split_on(s.skip(1), sep);
        seq![seq![s[0]] + rest[0]] + rest.skip(1)
    }
}

/// A split always has at least one piece.
pub proof fn lemma_split_nonempty(s: Seq<u8>, sep: u8)
    ensures
        split_on(s, sep).len() >= 1,
    decreases s.len(),
{
    if s.len() > 0 {
        lemma_split_nonempty(s.skip(1), sep);
    }
}

/// How a split decomposes over concatenation: the boundary pieces merge, all
/// others stand unchanged.
pub proof fn lemma_split_concat(a: Seq<u8>, b: Seq<u8>, sep: u8)
    ensures
        split_on(a + b, sep) == split_on(a, sep).drop_last() + seq![
            split_on(a, sep).last() + split_on(b, sep)[0],
        ] + split_on(b, sep).skip(1),
    decreases a.len(),
{
    lemma_split_nonempty(b, sep);
    if a.len() == 0 {
        assert(a + b =~= b);
        assert(split_on(a, sep) =~~= seq![Seq::<u8>::empty()]);
        assert(split_on(a, sep).last() + split_on(b, sep)[0] =~= split_on(b, sep)[0]);
        assert(split_on(a, sep).drop_last() + seq![split_on(a, sep).last() + split_on(b, sep)[0]]
            + split_on(b, sep).skip(1) =~~= split_on(b, sep));
    } else {
        assert((a + b).len() > 0);
        assert((a + b)[0] == a[0]);
        assert((a + b).skip(1) =~= a.skip(1) + b);
        lemma_split_concat(a.skip(1), b, sep);
        lemma_split_nonempty(a.skip(1), sep);
        let ra = split_on(a.skip(1), sep);
        let rb = split_on(b, sep);
        if a[0] == sep {
            assert(split_on(a, sep) == seq![Seq::<u8>::empty()] + ra);
            assert(split_on(a + b, sep) == seq![Seq::<u8>::empty()] + split_on(a.skip(1) + b, sep));
            assert(split_on(a, sep).drop_last() =~~= seq![Seq::<u8>::empty()] + ra.drop_last());
            assert(split_on(a, sep).last() == ra.last());
            assert(split_on(a + b, sep) =~~= split_on(a, sep).drop_last() + seq![
                split_on(a, sep).last() + rb[0],
            ] + rb.skip(1));
        } else {
            let m = split_on(a.skip(1) + b, sep);
            assert(split_on(a + b, sep) == seq![seq![a[0]] + m[0]] + m.skip(1));
            assert(split_on(a, sep) == seq![seq![a[0]] + ra[0]] + ra.skip(1));
            if ra.len() == 1 {
                assert(ra.drop_last() =~~= Seq::<Seq<u8>>::empty());
                assert(m =~~= seq![ra.last() + rb[0]] + rb.skip(1));
                assert(m[0] == ra.last() + rb[0]);
                assert(seq![a[0]] + (ra.last() + rb[0]) =~= (seq![a[0]] + ra.last()) + rb[0]);
                assert(ra[0] == ra.last());
                assert(split_on(a, sep).drop_last() =~~= Seq::<Seq<u8>>::empty());
                assert(split_on(a, sep).last() == seq![a[0]] + ra[0]);
                assert(m.skip(1) =~~= rb.skip(1));
                assert(split_on(a + b, sep) =~~= split_on(a, sep).drop_last() + seq![
                    split_on(a, sep).last() + rb[0],
                ] + rb.skip(1));
            } else {
                assert(m[0] == ra[0]);
                assert(split_on(a, sep).drop_last() =~~= seq![seq![a[0]] + ra[0]]
                    + ra.skip(1).drop_last());
                assert(split_on(a, sep).last() == ra.last());
                assert(m.skip(1) =~~= ra.drop_last().skip(1) + seq![ra.last() + rb[0]] + rb.skip(1));
                assert(ra.drop_last().skip(1) =~~= ra.skip(1).drop_last());
                assert(split_on(a + b, sep) =~~= split_on(a, sep).drop_last() + seq![
                    split_on(a, sep).last() + rb[0],
                ] + rb.skip(1));
            }
        }
    }
}

/// A string without the separator splits into itself alone.
pub proof fn lemma_split_no_sep(p: Seq<u8>, sep: u8)
    requires
        forall|i: int| 0 <= i < p.len() ==> p[i] != sep,
    ensures
        split_on(p, sep) == seq![p],
    decreases p.len(),
{
    if p.len() > 0 {
        lemma_split_no_sep(p.skip(1), sep);
        assert(seq![p[0]] + p.skip(1) =~= p);
        assert(split_on(p, sep) =~~= seq![p]);
    }
}

/// Splitting a separator-free piece, a separator, and a remainder yields the
/// piece followed by the remainder's split.
pub proof fn lemma_split_line(p: Seq<u8>, rest: Seq<u8>, sep: u8)
    requires
        forall|i: int| 0 <= i < p.len() ==> p[i] != sep,
    ensures
        split_on(p + seq![sep] + rest, sep) == seq![p] + split_on(rest, sep),
{
    lemma_split_no_sep(p, sep);
    lemma_split_concat(p, seq![sep] + rest, sep);
    lemma_split_nonempty(rest, sep);
    let t = seq![sep] + rest;
    assert(t[0] == sep);
    assert(t.skip(1) =~= rest);
    assert(split_on(t, sep) == seq![Seq::<u8>::empty()] + split_on(rest, sep));
    assert(p + seq![sep] + rest =~= p + t);
    assert(split_on(p, sep).drop_last() =~~= Seq::<Seq<u8>>::empty());
    assert(split_on(p, sep).last() + split_on(t, sep)[0] =~= p);
    assert(split_on(t, sep).skip(1) =~~= split_on(rest, sep));
    assert(split_on(p + t, sep) =~~= seq![p] + split_on(rest, sep));
}

/// A string ending in the separator splits with an empty final piece.
pub proof fn lemma_split_last_empty(a: Seq<u8>, sep: u8)
    requires
        a.len() > 0,
        a.last() == sep,
    ensures
        split_on(a, sep).len() >= 2,
        split_on(a, sep).last().len() == 0,
{
    let front = a.drop_last();
    lemma_split_concat(front, seq![sep], sep);
    lemma_split_nonempty(front, sep);
    assert(a =~= front + seq![sep]);
    let t = seq![sep];
    assert(t[0] == sep);
    assert(t.skip(1) =~= Seq::<u8>::empty());
    assert(split_on(t, sep) == seq![Seq::<u8>::empty()] + split_on(Seq::<u8>::empty(), sep));
    assert(split_on(t, sep) =~~= seq![Seq::<u8>::empty(), Seq::<u8>::empty()]);
    assert(split_on(a, sep).last().len() == 0);
}

/// The text's lines: split at newline, with a final empty piece dropped, so a
/// text ending in a newline has no empty last line.
pub open spec fn lines_of(s: Seq<u8>) -> Seq<Seq<u8>> {
    let p = split_on(s, 10);
    if p.len() > 0 && p.last().len() == 0 {
        p.drop_last()
    } else {
        p
    }
}

/// The non-empty pieces of a split, in order.
pub open spec fn nonblank(ps: Seq<Seq<u8>>) -> Seq<Seq<u8>>
    decreases ps.len(),
{
    if ps.len() == 0 {
        ps
    } else {
        let rest = nonblank(ps.drop_last());
        if ps.last().len() > 0 {
            rest.push(ps.last())
        } else {
            rest
        }
    }
}

/// Discarding blank pieces distributes over concatenation.
pub proof fn lemma_nonblank_concat(a: Seq<Seq<u8>>, b: Seq<Seq<u8>>)
    ensures
        nonblank(a + b) == nonblank(a) + nonblank(b),
    decreases b.len(),
{
    if b.len() == 0 {
        assert(a + b =~= a);
        assert(nonblank(b) =~~= Seq::<Seq<u8>>::empty());
        assert(nonblank(a) + nonblank(b) =~~= nonblank(a));
    } else {
        assert((a + b).drop_last() =~= a + b.drop_last());
        assert((a + b).last() == b.last());
        lemma_nonblank_concat(a, b.drop_last());
        if b.last().len() > 0 {
            assert(nonblank(a + b) =~~= nonblank(a) + nonblank(b));
        } else {
            assert(nonblank(a + b) =~~= nonblank(a) + nonblank(b));
        }
    }
}

/// When `a` is empty or ends in the separator, discarding blanks from a
/// concatenation's split concatenates the two splits' non-blank pieces.
pub proof fn lemma_split_nonblank_concat(a: Seq<u8>, b: Seq<u8>, sep: u8)
    requires
        a.len() == 0 || a.last() == sep,
    ensures
        nonblank(split_on(a + b, sep)) == nonblank(split_on(a, sep)) + nonblank(
            split_on(b, sep),
        ),
{
    lemma_split_concat(a, b, sep);
    lemma_split_nonempty(a, sep);
    lemma_split_nonempty(b, sep);
    if a.len() == 0 {
        assert(a + b =~= b);
        assert(split_on(a, sep) =~~= seq![Seq::<u8>::empty()]);
        assert(seq![Seq::<u8>::empty()].drop_last() =~= Seq::<Seq<u8>>::empty());
        assert(nonblank(Seq::<Seq<u8>>::empty()) =~~= Seq::<Seq<u8>>::empty());
        assert(nonblank(split_on(a, sep)) =~~= Seq::<Seq<u8>>::empty());
        assert(nonblank(split_on(a, sep)) + nonblank(split_on(b, sep)) =~~= nonblank(
            split_on(a + b, sep),
        ));
    } else {
        lemma_split_last_empty(a, sep);
        assert(split_on(a, sep).last() + split_on(b, sep)[0] =~= split_on(b, sep)[0]);
        assert(split_on(b, sep) =~~= seq![split_on(b, sep)[0]] + split_on(b, sep).skip(1));
        assert(split_on(a + b, sep) =~~= split_on(a, sep).drop_last() + split_on(b, sep));
        lemma_nonblank_concat(split_on(a, sep).drop_last(), split_on(b, sep));
        assert(nonblank(split_on(a, sep)) == nonblank(split_on(a, sep).drop_last()));
    }
}

/// Split a byte string at every occurrence of `sep`.
pub fn split_bytes(s: &[u8], sep: u8) -> (r: Vec<Vec<u8>>)
    ensures
        r@.map_values(|p: Vec<u8>| p@) == split_on(s@, sep),
{
    let mut done: Vec<Vec<u8>> = Vec::new();
    let mut cur: Vec<u8> = Vec::new();
    let mut i: usize = 0;
    proof {
        assert(s@.take(0) =~= Seq::<u8>::empty());
        assert(done@.map_values(|p: Vec<u8>| p@) =~~= split_on(s@.take(0), sep).drop_last());
    }
    while i < s.len()
        invariant
            i <= s@.len(),
            done@.map_values(|p: Vec<u8>| p@) == split_on(s@.take(i as int), sep).drop_last(),
            cur@ == split_on(s@.take(i as int), sep).last(),
        decreases s@.len() - i,
    {
        proof {
            assert(s@.take(i as int + 1) =~= s@.take(i as int) + seq![s@[i as int]]);
            lemma_split_concat(s@.take(i as int), seq![s@[i as int]], sep);
            lemma_split_nonempty(s@.take(i as int), sep);
        }
        let b = s[i];
        if b == sep {
            proof {
                let t = seq![s@[i as int]];
                assert(t[0] == sep);
                assert(t.skip(1) =~= Seq::<u8>::empty());
                assert(split_on(Seq::<u8>::empty(), sep) == seq![Seq::<u8>::empty()]);
                assert(split_on(t, sep) == seq![Seq::<u8>::empty()] + split_on(
                    Seq::<u8>::empty(),
                    sep,
                ));
                assert(split_on(t, sep) =~~= seq![Seq::<u8>::empty(), Seq::<u8>::empty()]);
                assert(split_on(s@.take(i as int + 1), sep).drop_last() =~~= split_on(
                    s@.take(i as int),
                    sep,
                ).drop_last().push(cur@));
                assert(split_on(s@.take(i as int + 1), sep).last() =~= Seq::<u8>::empty());
            }
            done.push(cur);
            cur = Vec::new();
            proof {
                assert(done@.map_values(|p: Vec<u8>| p@) =~~= split_on(
                    s@.take(i as int + 1),
                    sep,
                ).drop_last());
            }
        } else {
            proof {
                let t = seq![s@[i as int]];
                assert(t.skip(1) =~= Seq::<u8>::empty());
                lemma_split_no_sep(t, sep);
                assert(split_on(s@.take(i as int + 1), sep).drop_last() =~~= split_on(
                    s@.take(i as int),
                    sep,
                ).drop_last());
                assert(split_on(s@.take(i as int + 1), sep).last() =~= cur@.push(s@[i as int]));
            }
            cur.push(b);
        }
        i = i + 1;
    }
    proof {
        assert(s@.take(s@.len() as int) =~= s@);
        lemma_split_nonempty(s@, sep);
    }
    let ghost pieces = split_on(s@, sep);
    let ghost done_before = done@;
    let ghost cur_snap = cur;
    done.push(cur);
    proof {
        assert(done@ == done_before.push(cur_snap));
        assert(cur_snap@ == pieces.last());
        assert(done_before.map_values(|p: Vec<u8>| p@) == pieces.drop_last());
        assert(done@.len() == pieces.len());
        assert forall|j: int| 0 <= j < pieces.len() implies done@.map_values(|p: Vec<u8>| p@)[j]
            =~= pieces[j] by {
            if j < pieces.len() - 1 {
                assert(done@[j] == done_before[j]);
                assert(done_before.map_values(|p: Vec<u8>| p@)[j] == done_before[j]@);
            }
        }
        assert(done@.map_values(|p: Vec<u8>| p@) =~~= pieces);
    }
    done
}

/// The text's lines, as `lines_of` describes them.
pub fn lines(s: &[u8]) -> (r: Vec<Vec<u8>>)
    ensures
        r@.map_values(|p: Vec<u8>| p@) == lines_of(s@),
{
    let mut ps = split_bytes(s, 10);
    proof {
        lemma_split_nonempty(s@, 10);
    }
    let n = ps.len();
    if ps[n - 1].len() == 0 {
        ps.pop();
        proof {
            assert(ps@.map_values(|p: Vec<u8>| p@) =~~= lines_of(s@));
        }
    }
    ps
}

/// The non-blank lines of a text, in order.
pub fn nonblank_lines(s: &[u8]) -> (r: Vec<Vec<u8>>)
    ensures
        r@.map_values(|p: Vec<u8>| p@) == nonblank(split_on(s@, 10)),
{
    let ps = split_bytes(s, 10);
    let ghost full = ps@.map_values(|p: Vec<u8>| p@);
    let mut out: Vec<Vec<u8>> = Vec::new();
    let mut i: usize = 0;
    proof {
        assert(full.take(0) =~= Seq::<Seq<u8>>::empty());
        assert(out@.map_values(|p: Vec<u8>| p@) =~~= nonblank(full.take(0)));
    }
    while i < ps.len()
        invariant
            i <= ps@.len(),
            full == ps@.map_values(|p: Vec<u8>| p@),
            full == split_on(s@, 10),
            out@.map_values(|p: Vec<u8>| p@) == nonblank(full.take(i as int)),
        decreases ps@.len() - i,
    {
        proof {
            assert(full.take(i as int + 1).drop_last() =~= full.take(i as int));
            assert(full.take(i as int + 1).last() == full[i as int]);
        }
        if ps[i].len() > 0 {
            let piece = ps[i].clone();
            assert(piece@ == full[i as int]);
            out.push(piece);
            proof {
                assert(out@.map_values(|p: Vec<u8>| p@) =~~= nonblank(full.take(i as int + 1)));
            }
        } else {
            proof {
                assert(out@.map_values(|p: Vec<u8>| p@) =~~= nonblank(full.take(i as int + 1)));
            }
        }
        i = i + 1;
    }
    proof {
        assert(full.take(full.len() as int) =~= full);
    }
    out
}

} // verus!
