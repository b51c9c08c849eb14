//! Byte-sequence helpers: equality, splitting on a separator byte and
//! joining with it, with the round-trip facts the codec and merger need.

use vstd::prelude::*;

verus! {

/// The position of the first occurrence of `b` in `s`, or `s.len()` if
/// `b` does not occur.
pub open spec fn first_index_of(s: Seq<u8>, b: u8) -> int
    decreases s.len(),
{
    if s.len() == 0 {
        0
    } else if s[0] == b {
        0
    } else {
        1 + first_index_of(s.subrange(1, s.len() as int), b)
    }
}

pub proof fn lemma_first_index_of(s: Seq<u8>, b: u8)
    ensures
        0 <= first_index_of(s, b) <= s.len(),
        first_index_of(s, b) < s.len() ==> s[first_index_of(s, b)] == b,
        forall|j: int| 0 <= j < first_index_of(s, b) ==> s[j] != b,
    decreases s.len(),
{
    if s.len() == 0 {
    } else if s[0] == b {
    } else {
        let rest = s.subrange(1, s.len() as int);
        lemma_first_index_of(rest, b);
        assert forall|j: int| 0 <= j < first_index_of(s, b) implies s[j] != b by {
            if j > 0 {
                assert(s[j] == rest[j - 1]);
            }
        }
    }
}

/// If `b` occurs at `k` and nowhere before, then `k` is the first index.
pub proof fn lemma_first_index_of_unique(s: Seq<u8>, b: u8, k: int)
    requires
        0 <= k < s.len(),
        s[k] == b,
        forall|j: int| 0 <= j < k ==> s[j] != b,
    ensures
        first_index_of(s, b) == k,
{
    lemma_first_index_of(s, b);
    let f = first_index_of(s, b);
    if f < k {
        assert(s[f] != b);
    }
    if f > k {
        assert(s[k] != b);
    }
}

/// `s` has no occurrence of `b`.
pub open spec fn free_of(s: Seq<u8>, b: u8) -> bool {
    forall|j: int| 0 <= j < s.len() ==> s[j] != b
}

pub proof fn lemma_first_index_of_free(s: Seq<u8>, b: u8)
    requires
        free_of(s, b),
    ensures
        first_index_of(s, b) == s.len(),
{
    lemma_first_index_of(s, b);
    let f = first_index_of(s, b);
    if f < s.len() {
        assert(s[f] != b);
    }
}

/// The chunks of `s` between occurrences of the separator `sep`,
/// in order. There is always at least one chunk: an `s` without the
/// separator (in particular, an empty `s`) is a single chunk.
pub open spec fn split_sep(s: Seq<u8>, sep: u8) -> Seq<Seq<u8>>
    decreases s.len(),
{
    let i = first_index_of(s, sep);
    if 0 <= i < s.len() {
        seq![s.subrange(0, i)] + split_sep(s.subrange(i + 1, s.len() as int), sep)
    } else {
        seq![s]
    }
}

/// The chunks of `ts` joined with a single `sep` between neighbours.
pub open spec fn join_sep(ts: Seq<Seq<u8>>, sep: u8) -> Seq<u8>
    decreases ts.len(),
{
    if ts.len() == 0 {
        Seq::empty()
    } else if ts.len() == 1 {
        ts[0]
    } else {
        ts[0] + seq![sep] + join_sep(ts.drop_first(), sep)
    }
}

pub proof fn lemma_split_sep_len(s: Seq<u8>, sep: u8)
    ensures
        split_sep(s, sep).len() >= 1,
    decreases s.len(),
{
    lemma_first_index_of(s, sep);
}

/// A chunk of a split never contains the separator.
pub proof fn lemma_split_sep_free(s: Seq<u8>, sep: u8)
    ensures
        forall|k: int| 0 <= k < split_sep(s, sep).len() ==> free_of(
            #[trigger] split_sep(s, sep)[k],
            sep,
        ),
    decreases s.len(),
{
    lemma_first_index_of(s, sep);
    let i = first_index_of(s, sep);
    if 0 <= i < s.len() {
        let rest = s.subrange(i + 1, s.len() as int);
        lemma_split_sep_free(rest, sep);
        assert forall|k: int| 0 <= k < split_sep(s, sep).len() implies free_of(
            #[trigger] split_sep(s, sep)[k],
            sep,
        ) by {
            if k == 0 {
                let head = s.subrange(0, i);
                assert forall|j: int| 0 <= j < head.len() implies head[j] != sep by {
                    assert(head[j] == s[j]);
                }
            } else {
                assert(split_sep(s, sep)[k] == split_sep(rest, sep)[k - 1]);
            }
        }
    }
}

/// Splitting after one leading separator-free chunk peels that chunk off.
pub proof fn lemma_split_sep_peel(l: Seq<u8>, rest: Seq<u8>, sep: u8)
    requires
        free_of(l, sep),
    ensures
        split_sep(l + seq![sep] + rest, sep) == seq![l] + split_sep(rest, sep),
{
    let s = l + seq![sep] + rest;
    assert(s[l.len() as int] == sep);
    assert forall|j: int| 0 <= j < l.len() implies s[j] != sep by {
        assert(s[j] == l[j]);
    }
    lemma_first_index_of_unique(s, sep, l.len() as int);
    assert(s.subrange(0, l.len() as int) =~= l);
    assert(s.subrange(l.len() as int + 1, s.len() as int) =~= rest);
}

/// A separator-free sequence splits into itself as the only chunk.
pub proof fn lemma_split_sep_whole(s: Seq<u8>, sep: u8)
    requires
        free_of(s, sep),
    ensures
        split_sep(s, sep) == seq![s],
{
    lemma_first_index_of_free(s, sep);
}

/// Joining the chunks of a split restores the sequence, unconditionally.
pub proof fn lemma_join_of_split(s: Seq<u8>, sep: u8)
    ensures
        join_sep(split_sep(s, sep), sep) == s,
    decreases s.len(),
{
    lemma_first_index_of(s, sep);
    let i = first_index_of(s, sep);
    if 0 <= i < s.len() {
        let rest = s.subrange(i + 1, s.len() as int);
        lemma_join_of_split(rest, sep);
        let parts = seq![s.subrange(0, i)] + split_sep(rest, sep);
        lemma_split_sep_len(rest, sep);
        assert(parts.drop_first() =~= split_sep(rest, sep));
        assert(join_sep(parts, sep) == s.subrange(0, i) + seq![sep] + rest);
        assert(s.subrange(0, i) + seq![sep] + rest =~= s);
    }
}

/// Splitting a join restores the chunks, provided there is at least one
/// chunk and no chunk contains the separator.
pub proof fn lemma_split_of_join(ts: Seq<Seq<u8>>, sep: u8)
    requires
        ts.len() >= 1,
        forall|k: int| 0 <= k < ts.len() ==> free_of(#[trigger] ts[k], sep),
    ensures
        split_sep(join_sep(ts, sep), sep) == ts,
    decreases ts.len(),
{
    if ts.len() == 1 {
        lemma_split_sep_whole(ts[0], sep);
        assert(seq![ts[0]] =~= ts);
    } else {
        let tail = ts.drop_first();
        lemma_split_of_join(tail, sep);
        lemma_split_sep_peel(ts[0], join_sep(tail, sep), sep);
        assert(seq![ts[0]] + tail =~= ts);
    }
}

/// Whether the bytes of `a` and `b` are equal.
pub fn bytes_eq(a: &Vec<u8>, b: &Vec<u8>) -> (r: bool)
    ensures
        r == (a@ == b@),
{
    if a.len() != b.len() {
        assert(a@ != b@);
        return false;
    }
    for i in 0..a.len()
        invariant
            a.len() == b.len(),
            forall|j: int| 0 <= j < i ==> a@[j] == b@[j],
    {
        if a[i] != b[i] {
            return false;
        }
    }
    assert(a@ =~= b@);
    true
}

/// The chunks of `s` between occurrences of `sep`, as byte vectors.
pub fn split_bytes(s: &Vec<u8>, sep: u8) -> (r: Vec<Vec<u8>>)
    ensures
        r.deep_view() == split_sep(s@, sep),
        r.len() >= 1,
{
    let mut out: Vec<Vec<u8>> = Vec::new();
    let mut cur: Vec<u8> = Vec::new();
    let ghost all = s@;
    proof {
        assert(cur@ + all.subrange(0, all.len() as int) =~= all);
        assert(out.deep_view() =~~= Seq::<Seq<u8>>::empty());
    }
    for i in 0..s.len()
        invariant
            free_of(cur@, sep),
            split_sep(all, sep) =~~= out.deep_view() + split_sep(cur@ + all.subrange(i as int, all.len() as int), sep),
            all == s@,
    {
        let ghost out0 = out.deep_view();
        let ghost cur0 = cur@;
        let ghost rest = all.subrange(i + 1, all.len() as int);
        assert(cur0 + all.subrange(i as int, all.len() as int) =~= cur0 + seq![all[i as int]] + rest);
        if s[i] == sep {
            proof {
                lemma_split_sep_peel(cur0, rest, sep);
                assert(cur0 + seq![sep] + rest =~= cur0 + seq![all[i as int]] + rest);
            }
            out.push(cur);
            cur = Vec::new();
            proof {
                assert(out.deep_view() =~~= out0.push(cur0));
                assert(cur@ + rest =~= rest);
                assert(out.deep_view() + split_sep(cur@ + rest, sep) =~~= out0 + (seq![cur0]
                    + split_sep(rest, sep)));
            }
        } else {
            cur.push(s[i]);
            proof {
                assert(cur@ + rest =~= cur0 + seq![all[i as int]] + rest);
            }
        }
    }
    proof {
        assert(cur@ + all.subrange(all.len() as int, all.len() as int) =~= cur@);
        lemma_split_sep_whole(cur@, sep);
    }
    let ghost out0 = out.deep_view();
    let ghost cur0 = cur@;
    out.push(cur);
    proof {
        assert(out.deep_view() =~~= out0.push(cur0));
        assert(out0 + seq![cur0] =~= out0.push(cur0));
    }
    out
}

/// The chunks of `ts` joined with a single `sep` between neighbours.
pub fn join_bytes(ts: &Vec<Vec<u8>>, sep: u8) -> (r: Vec<u8>)
    ensures
        r@ == join_sep(ts.deep_view(), sep),
{
    let mut out: Vec<u8> = Vec::new();
    let ghost all = ts.deep_view();
    for k in 0..ts.len()
        invariant
            out@ =~= join_sep(all.subrange(0, k as int), sep) + (
                if 0 < k < all.len() { seq![sep] } else { Seq::<u8>::empty() }),
            all == ts.deep_view(),
    {
        let ghost out0 = out@;
        let line = &ts[k];
        assert(line@ == all[k as int]);
        for j in 0..line.len()
            invariant
                out@ =~= out0 + line@.subrange(0, j as int),
                line@ == all[k as int],
        {
            out.push(line[j]);
            assert(out@ =~= out0 + line@.subrange(0, j + 1 as int));
        }
        assert(line@.subrange(0, line@.len() as int) =~= line@);
        proof {
            lemma_join_sep_snoc(all.subrange(0, k as int), all[k as int], sep);
            assert(all.subrange(0, k as int).push(all[k as int]) =~= all.subrange(0, k + 1 as int));
        }
        if k + 1 < ts.len() {
            out.push(sep);
        }
    }
    proof {
        assert(all.subrange(0, all.len() as int) =~= all);
    }
    out
}

/// Appending one chunk to a join appends a separator (when the join was
/// not empty) and the chunk.
pub proof fn lemma_join_sep_snoc(ts: Seq<Seq<u8>>, l: Seq<u8>, sep: u8)
    ensures
        ts.len() == 0 ==> join_sep(ts.push(l), sep) == l,
        ts.len() > 0 ==> join_sep(ts.push(l), sep) == join_sep(ts, sep) + seq![sep] + l,
    decreases ts.len(),
{
    if ts.len() == 0 {
        assert(ts.push(l) =~= seq![l]);
    } else if ts.len() == 1 {
        assert(ts.push(l)[0] == ts[0]);
        assert(ts.push(l).drop_first() =~= seq![l]);
        assert(join_sep(seq![l], sep) == l);
    } else {
        lemma_join_sep_snoc(ts.drop_first(), l, sep);
        assert(ts.push(l).drop_first() =~= ts.drop_first().push(l));
    }
}

} // verus!
