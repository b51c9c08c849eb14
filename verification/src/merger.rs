//! Keyword merger: re-adding a command merges its keywords.
//!
//! Both the existing keyword line and the new keywords are tokenized on
//! single spaces; the union of the two token sets, with the marker token
//! taken out, is rebuilt as a line that carries the marker exactly once,
//! first. Token order after a merge is implementation-defined, so the
//! contracts speak of the token set.

use vstd::prelude::*;

use crate::text::{
    bytes_eq, free_of, join_bytes, lemma_split_of_join, lemma_split_sep_free, lemma_split_sep_peel,
    split_bytes, split_sep,
};
use crate::{MARKER, SPACE};

verus! {

broadcast use vstd::seq_lib::lemma_seq_contains_after_push;

/// The token that marks a keyword line.
pub open spec fn marker_token() -> Seq<u8> {
    seq![MARKER]
}

/// The set of space-separated tokens of a line.
pub open spec fn token_set(s: Seq<u8>) -> Set<Seq<u8>> {
    split_sep(s, SPACE).to_set()
}

/// The token set a merge produces: the union of both token sets, without
/// the marker token.
pub open spec fn merged_token_set(existing: Seq<u8>, new_keywords: Seq<u8>) -> Set<Seq<u8>> {
    token_set(existing).union(token_set(new_keywords)).remove(marker_token())
}

/// No token occurs twice.
pub open spec fn distinct_tokens(ts: Seq<Seq<u8>>) -> bool {
    forall|i: int, j: int| 0 <= i < j < ts.len() ==> ts[i] != ts[j]
}

/// What merging `new_keywords` into the keyword line `existing` yields:
/// the marker token exactly once and first, then the merged token set in
/// some order, each token once. When that set is empty the line is just
/// the marker and its trailing space.
pub open spec fn merged_line_ok(existing: Seq<u8>, new_keywords: Seq<u8>, r: Seq<u8>) -> bool {
    let rest = split_sep(r.subrange(2, r.len() as int), SPACE);
    &&& r.len() >= 2
    &&& r[0] == MARKER
    &&& r[1] == SPACE
    &&& split_sep(r, SPACE) == seq![marker_token()] + rest
    &&& if merged_token_set(existing, new_keywords).is_empty() {
        r == seq![MARKER, SPACE]
    } else {
        &&& rest.to_set() == merged_token_set(existing, new_keywords)
        &&& distinct_tokens(rest)
        &&& !rest.contains(marker_token())
    }
}

/// A byte-for-byte copy.
pub fn copy_bytes(s: &Vec<u8>) -> (r: Vec<u8>)
    ensures
        r@ == s@,
{
    let mut r: Vec<u8> = Vec::new();
    for i in 0..s.len()
        invariant
            r@ =~= s@.subrange(0, i as int),
    {
        r.push(s[i]);
        assert(r@ =~= s@.subrange(0, i + 1 as int));
    }
    assert(r@ =~= s@);
    r
}

/// Whether `ts` holds a token equal to `t`.
fn contains_token(ts: &Vec<Vec<u8>>, t: &Vec<u8>) -> (r: bool)
    ensures
        r == ts.deep_view().contains(t@),
{
    for k in 0..ts.len()
        invariant
            forall|j: int| 0 <= j < k ==> ts.deep_view()[j] != t@,
    {
        assert(ts.deep_view()[k as int] =~= ts@[k as int]@);
        if bytes_eq(&ts[k], t) {
            assert(ts.deep_view()[k as int] == t@);
            return true;
        }
    }
    false
}

/// Appends to `uniq` the tokens of `toks` not yet present, skipping the
/// marker token, keeping `uniq` duplicate-free.
fn add_unique_tokens(uniq: &mut Vec<Vec<u8>>, toks: &Vec<Vec<u8>>)
    requires
        distinct_tokens(old(uniq).deep_view()),
        !old(uniq).deep_view().contains(marker_token()),
        forall|k: int| 0 <= k < old(uniq).deep_view().len() ==> free_of(
            #[trigger] old(uniq).deep_view()[k],
            SPACE,
        ),
        forall|k: int| 0 <= k < toks.deep_view().len() ==> free_of(
            #[trigger] toks.deep_view()[k],
            SPACE,
        ),
    ensures
        distinct_tokens(final(uniq).deep_view()),
        !final(uniq).deep_view().contains(marker_token()),
        forall|k: int| 0 <= k < final(uniq).deep_view().len() ==> free_of(
            #[trigger] final(uniq).deep_view()[k],
            SPACE,
        ),
        final(uniq).deep_view().to_set() == old(uniq).deep_view().to_set().union(
            toks.deep_view().to_set().remove(marker_token()),
        ),
{
    let ghost base = old(uniq).deep_view();
    let ghost all = toks.deep_view();
    let mut marker: Vec<u8> = Vec::new();
    marker.push(MARKER);
    assert(marker@ =~= marker_token());
    for i in 0..toks.len()
        invariant
            marker@ == marker_token(),
            all == toks.deep_view(),
            distinct_tokens(uniq.deep_view()),
            !uniq.deep_view().contains(marker_token()),
            forall|k: int| 0 <= k < uniq.deep_view().len() ==> free_of(
                #[trigger] uniq.deep_view()[k],
                SPACE,
            ),
            forall|k: int| 0 <= k < all.len() ==> free_of(#[trigger] all[k], SPACE),
            uniq.deep_view().to_set() =~= base.to_set().union(
                all.subrange(0, i as int).to_set().remove(marker_token()),
            ),
    {
        let ghost u0 = uniq.deep_view();
        assert(toks.deep_view()[i as int] =~= toks@[i as int]@);
        let is_marker = bytes_eq(&toks[i], &marker);
        let mut keep = false;
        if !is_marker {
            keep = !contains_token(uniq, &toks[i]);
        }
        if keep {
            let t = copy_bytes(&toks[i]);
            uniq.push(t);
            assert(uniq.deep_view() =~~= u0.push(all[i as int]));
        }
        proof {
            assert(all.subrange(0, i + 1 as int) =~= all.subrange(0, i as int).push(all[i as int]));
            lemma_to_set_union_push(
                u0,
                uniq.deep_view(),
                base.to_set(),
                all.subrange(0, i as int),
                all[i as int],
                marker_token(),
                keep,
            );
        }
    }
    assert(all.subrange(0, all.len() as int) =~= all);
}

/// One step of collecting a union of token sets: pushing a fresh element
/// extends the set, and an element already present, or equal to the
/// excluded one, leaves it as it stands.
proof fn lemma_to_set_union_push(
    u0: Seq<Seq<u8>>,
    u1: Seq<Seq<u8>>,
    base: Set<Seq<u8>>,
    pre: Seq<Seq<u8>>,
    elem: Seq<u8>,
    m: Seq<u8>,
    added: bool,
)
    requires
        u0.to_set() == base.union(pre.to_set().remove(m)),
        added ==> u1 == u0.push(elem) && elem != m,
        !added ==> u1 == u0 && (elem == m || u0.contains(elem)),
    ensures
        u1.to_set() == base.union(pre.push(elem).to_set().remove(m)),
{
    let rhs = base.union(pre.push(elem).to_set().remove(m));
    assert forall|x: Seq<u8>| u1.to_set().contains(x) implies rhs.contains(x) by {
        let n = choose|n: int| 0 <= n < u1.len() && u1[n] == x;
        if added && n == u1.len() - 1 {
            assert(pre.push(elem)[pre.len() as int] == x);
        } else {
            assert(u0[n] == x);
            assert(u0.to_set().contains(x));
            if !base.contains(x) {
                assert(pre.contains(x));
                let w = choose|w: int| 0 <= w < pre.len() && pre[w] == x;
                assert(pre.push(elem)[w] == x);
            }
        }
    }
    assert forall|x: Seq<u8>| rhs.contains(x) implies u1.to_set().contains(x) by {
        if base.contains(x) {
            assert(u0.to_set().contains(x));
            let n = choose|n: int| 0 <= n < u0.len() && u0[n] == x;
            assert(u1[n] == x);
        } else {
            assert(pre.push(elem).contains(x) && x != m);
            let w = choose|w: int| 0 <= w < pre.push(elem).len() && pre.push(elem)[w] == x;
            if w < pre.len() {
                assert(pre[w] == x);
                assert(u0.to_set().contains(x));
                let n = choose|n: int| 0 <= n < u0.len() && u0[n] == x;
                assert(u1[n] == x);
            } else {
                assert(x == elem);
                if added {
                    assert(u1[u0.len() as int] == x);
                } else {
                    assert(u0.contains(x));
                    let n = choose|n: int| 0 <= n < u0.len() && u0[n] == x;
                    assert(u1[n] == x);
                }
            }
        }
    }
    assert(u1.to_set() =~= rhs);
}

/// Merges the keywords of `new_keywords` into the keyword line
/// `existing`, yielding the rebuilt keyword line.
pub fn merge_keyword_line(existing: &Vec<u8>, new_keywords: &Vec<u8>) -> (r: Vec<u8>)
    ensures
        merged_line_ok(existing@, new_keywords@, r@),
{
    let toks_new = split_bytes(new_keywords, SPACE);
    let toks_old = split_bytes(existing, SPACE);
    proof {
        lemma_split_sep_free(new_keywords@, SPACE);
        lemma_split_sep_free(existing@, SPACE);
    }
    let mut uniq: Vec<Vec<u8>> = Vec::new();
    assert(uniq.deep_view() =~~= Seq::<Seq<u8>>::empty());
    add_unique_tokens(&mut uniq, &toks_new);
    add_unique_tokens(&mut uniq, &toks_old);
    proof {
        assert(uniq.deep_view().to_set() =~= merged_token_set(existing@, new_keywords@));
    }
    let mut r: Vec<u8> = Vec::new();
    r.push(MARKER);
    r.push(SPACE);
    if uniq.len() == 0 {
        proof {
            assert(uniq.deep_view().to_set() =~= Set::<Seq<u8>>::empty());
            assert(merged_token_set(existing@, new_keywords@).is_empty());
            assert(r@ =~= seq![MARKER, SPACE]);
            lemma_merged_shape(r@);
        }
        return r;
    }
    let joined = join_bytes(&uniq, SPACE);
    for j in 0..joined.len()
        invariant
            r@ =~= seq![MARKER, SPACE] + joined@.subrange(0, j as int),
            joined@ == crate::text::join_sep(uniq.deep_view(), SPACE),
    {
        r.push(joined[j]);
        assert(r@ =~= seq![MARKER, SPACE] + joined@.subrange(0, j + 1 as int));
    }
    proof {
        assert(joined@.subrange(0, joined@.len() as int) =~= joined@);
        assert(r@.subrange(2, r@.len() as int) =~= joined@);
        lemma_split_of_join(uniq.deep_view(), SPACE);
        assert(uniq.deep_view().to_set().contains(uniq.deep_view()[0]));
        assert(!merged_token_set(existing@, new_keywords@).is_empty());
        lemma_merged_shape(r@);
    }
    r
}

/// A line that begins with the marker and a space splits into the marker
/// token followed by the tokens of its remainder.
proof fn lemma_merged_shape(r: Seq<u8>)
    requires
        r.len() >= 2,
        r[0] == MARKER,
        r[1] == SPACE,
    ensures
        split_sep(r, SPACE) == seq![marker_token()] + split_sep(r.subrange(2, r.len() as int), SPACE),
{
    let rest = r.subrange(2, r.len() as int);
    lemma_split_sep_peel(marker_token(), rest, SPACE);
    assert(marker_token() + seq![SPACE] + rest =~= r);
}

/// Merging is order-independent: lines and keyword strings with the same
/// token sets merge to the same token set.
pub proof fn lemma_merge_order_independent(
    existing1: Seq<u8>,
    new1: Seq<u8>,
    existing2: Seq<u8>,
    new2: Seq<u8>,
)
    requires
        token_set(existing1) == token_set(existing2),
        token_set(new1) == token_set(new2),
    ensures
        merged_token_set(existing1, new1) == merged_token_set(existing2, new2),
{
}

/// Merging keywords already present adds nothing: the result is the
/// existing token set, less the marker.
pub proof fn lemma_merge_idempotent(existing: Seq<u8>, new_keywords: Seq<u8>)
    requires
        token_set(new_keywords).subset_of(token_set(existing)),
    ensures
        merged_token_set(existing, new_keywords) == token_set(existing).remove(marker_token()),
{
    assert(merged_token_set(existing, new_keywords) =~= token_set(existing).remove(
        marker_token(),
    ));
}

/// The shape every stored keyword line has: the marker token first and
/// exactly once, with at least one token after it.
pub open spec fn keyword_line_shape(line: Seq<u8>) -> bool {
    &&& split_sep(line, SPACE).len() >= 2
    &&& split_sep(line, SPACE)[0] == marker_token()
    &&& !split_sep(line, SPACE).drop_first().contains(marker_token())
}

/// Merging a keyword line's own keywords back into it is idempotent:
/// the merged line carries exactly the token set the line already had,
/// the marker still exactly once and first.
pub proof fn lemma_merge_self_idempotent(line: Seq<u8>, keywords: Seq<u8>, merged: Seq<u8>)
    requires
        keyword_line_shape(line),
        token_set(keywords) == token_set(line).remove(marker_token()),
        merged_line_ok(line, keywords, merged),
    ensures
        token_set(merged) == token_set(line),
{
    let toks = split_sep(line, SPACE);
    let rest0 = toks.drop_first();
    assert forall|x: Seq<u8>|
        toks.to_set().contains(x) implies (x == marker_token() || rest0.to_set().contains(
        x,
    )) by {
        let k = choose|k: int| 0 <= k < toks.len() && toks[k] == x;
        if k > 0 {
            assert(rest0[k - 1] == x);
        }
    }
    assert forall|x: Seq<u8>|
        x == marker_token() || rest0.to_set().contains(x) implies toks.to_set().contains(x) by {
        if x == marker_token() {
            assert(toks[0] == x);
        } else {
            let k = choose|k: int| 0 <= k < rest0.len() && rest0[k] == x;
            assert(toks[k + 1] == x);
        }
    }
    assert(token_set(line).remove(marker_token()) =~= rest0.to_set());
    assert(merged_token_set(line, keywords) =~= rest0.to_set());
    assert(rest0.to_set().contains(rest0[0]));
    assert(!merged_token_set(line, keywords).is_empty());
    let mtoks = split_sep(merged, SPACE);
    let rest1 = split_sep(merged.subrange(2, merged.len() as int), SPACE);
    assert(mtoks == seq![marker_token()] + rest1);
    assert(rest1.to_set() == merged_token_set(line, keywords));
    assert forall|x: Seq<u8>| mtoks.to_set().contains(x) implies toks.to_set().contains(x) by {
        let k = choose|k: int| 0 <= k < mtoks.len() && mtoks[k] == x;
        if k == 0 {
            assert(toks[0] == x);
        } else {
            assert(rest1[k - 1] == x);
            assert(rest1.to_set().contains(x));
            assert(rest0.to_set().contains(x));
        }
    }
    assert forall|x: Seq<u8>| toks.to_set().contains(x) implies mtoks.to_set().contains(x) by {
        if x == marker_token() {
            assert(mtoks[0] == x);
        } else {
            assert(rest0.to_set().contains(x));
            assert(rest1.to_set().contains(x));
            let k = choose|k: int| 0 <= k < rest1.len() && rest1[k] == x;
            assert(mtoks[k + 1] == x);
        }
    }
    assert(token_set(merged) =~= token_set(line));
}

} // verus!
