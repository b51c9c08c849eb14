//! Keyword matcher: which records a set of search keywords selects.
//!
//! A line qualifies when it begins with the marker byte and contains at
//! least one search keyword as a substring (containment on the whole
//! line, not token-exact). For a qualifying keyword line at position `i`
//! the matcher records `i + 1`, the position of the paired command line,
//! in store order.

use vstd::prelude::*;

use crate::MARKER;

verus! {

/// `needle` occurs in `hay` starting at position `i`.
pub open spec fn occurs_at(hay: Seq<u8>, needle: Seq<u8>, i: int) -> bool {
    0 <= i && i + needle.len() <= hay.len() && hay.subrange(i, i + needle.len()) == needle
}

/// `needle` occurs somewhere in `hay`.
pub open spec fn contains_bytes(hay: Seq<u8>, needle: Seq<u8>) -> bool {
    exists|i: int| occurs_at(hay, needle, i)
}

/// A line qualifies when it starts with the marker and contains one of
/// the search keywords as a substring.
pub open spec fn line_matches(line: Seq<u8>, keywords: Seq<Seq<u8>>) -> bool {
    &&& line.len() > 0
    &&& line[0] == MARKER
    &&& exists|k: int| 0 <= k < keywords.len() && contains_bytes(line, #[trigger] keywords[k])
}

/// The command-line positions selected from the first `n` lines: one
/// position `i + 1` for every qualifying line `i < n`, in order.
pub open spec fn match_indices_upto(lines: Seq<Seq<u8>>, keywords: Seq<Seq<u8>>, n: int) -> Seq<
    int,
>
    decreases n,
{
    if n <= 0 {
        Seq::empty()
    } else if line_matches(lines[n - 1], keywords) {
        match_indices_upto(lines, keywords, n - 1).push(n)
    } else {
        match_indices_upto(lines, keywords, n - 1)
    }
}

/// The command-line positions selected from all of `lines`.
pub open spec fn match_indices(lines: Seq<Seq<u8>>, keywords: Seq<Seq<u8>>) -> Seq<int> {
    match_indices_upto(lines, keywords, lines.len() as int)
}

/// The selected positions lie in `(0, n]`, increase strictly, point just
/// past qualifying lines, and miss no qualifying line below `n`.
pub proof fn lemma_match_indices_upto(lines: Seq<Seq<u8>>, keywords: Seq<Seq<u8>>, n: int)
    ensures
        forall|k: int| 0 <= k < match_indices_upto(lines, keywords, n).len() ==> 0
            < #[trigger] match_indices_upto(lines, keywords, n)[k] <= n,
        forall|k: int|
            0 <= k < match_indices_upto(lines, keywords, n).len() - 1
                ==> #[trigger] match_indices_upto(lines, keywords, n)[k] < match_indices_upto(
                lines,
                keywords,
                n,
            )[k + 1],
        forall|k: int| 0 <= k < match_indices_upto(lines, keywords, n).len() ==> line_matches(
            lines[#[trigger] match_indices_upto(lines, keywords, n)[k] - 1],
            keywords,
        ),
        forall|i: int| 0 <= i < n && line_matches(#[trigger] lines[i], keywords)
            ==> match_indices_upto(lines, keywords, n).contains(i + 1),
    decreases n,
{
    if n > 0 {
        lemma_match_indices_upto(lines, keywords, n - 1);
        let prev = match_indices_upto(lines, keywords, n - 1);
        assert forall|i: int|
            0 <= i < n && line_matches(#[trigger] lines[i], keywords) implies match_indices_upto(
            lines,
            keywords,
            n,
        ).contains(i + 1) by {
            if i < n - 1 {
                let k = choose|k: int| 0 <= k < prev.len() && prev[k] == i + 1;
                assert(match_indices_upto(lines, keywords, n)[k] == i + 1);
            } else {
                assert(line_matches(lines[n - 1], keywords));
                let cur = match_indices_upto(lines, keywords, n);
                assert(cur[cur.len() - 1] == n);
            }
        }
    }
}

/// Whether `needle` occurs in `hay` starting at position `s`.
fn occurs_at_exec(hay: &Vec<u8>, needle: &Vec<u8>, s: usize) -> (r: bool)
    requires
        s + needle.len() <= hay.len(),
    ensures
        r == occurs_at(hay@, needle@, s as int),
{
    for j in 0..needle.len()
        invariant
            s + needle.len() <= hay.len(),
            forall|t: int| 0 <= t < j ==> hay@[s + t] == needle@[t],
    {
        if hay[s + j] != needle[j] {
            assert(!occurs_at(hay@, needle@, s as int)) by {
                if occurs_at(hay@, needle@, s as int) {
                    assert(hay@.subrange(s as int, s + needle@.len())[j as int] == needle@[
                        j as int
                    ]);
                }
            }
            return false;
        }
    }
    assert(hay@.subrange(s as int, s + needle@.len()) =~= needle@);
    true
}

/// Whether `needle` occurs in `hay` as a contiguous run of bytes.
pub fn contains_subrange(hay: &Vec<u8>, needle: &Vec<u8>) -> (r: bool)
    ensures
        r == contains_bytes(hay@, needle@),
{
    if needle.len() > hay.len() {
        assert forall|i: int| !occurs_at(hay@, needle@, i) by {}
        return false;
    }
    if needle.len() == 0 {
        assert(hay@.subrange(0, 0) =~= needle@);
        assert(occurs_at(hay@, needle@, 0));
        return true;
    }
    let last_start = hay.len() - needle.len();
    let mut s: usize = 0;
    while s <= last_start
        invariant
            1 <= needle.len() <= hay.len(),
            last_start == hay.len() - needle.len(),
            s <= last_start + 1,
            forall|i: int| 0 <= i < s ==> !occurs_at(hay@, needle@, i),
        decreases last_start + 1 - s,
    {
        if occurs_at_exec(hay, needle, s) {
            return true;
        }
        s += 1;
    }
    assert forall|i: int| !occurs_at(hay@, needle@, i) by {
        if i > last_start {
            assert(i + needle@.len() > hay@.len());
        }
    }
    false
}

/// Whether `line` starts with the marker and contains one of `keywords`.
fn matches_any(line: &Vec<u8>, keywords: &Vec<Vec<u8>>) -> (r: bool)
    ensures
        r == line_matches(line@, keywords.deep_view()),
{
    if line.len() == 0 || line[0] != MARKER {
        return false;
    }
    for k in 0..keywords.len()
        invariant
            line@.len() > 0 && line@[0] == MARKER,
            forall|t: int| 0 <= t < k ==> !contains_bytes(line@, keywords.deep_view()[t]),
    {
        assert(keywords.deep_view()[k as int] =~= keywords@[k as int]@);
        if contains_subrange(line, &keywords[k]) {
            assert(contains_bytes(line@, keywords.deep_view()[k as int]));
            return true;
        }
    }
    false
}

/// For every line that starts with the marker and contains one of the
/// search keywords, the position just after it — for a well-formed store,
/// the position of the paired command line — in store order.
pub fn find_matching_commands(data_lines: &Vec<Vec<u8>>, keywords: &Vec<Vec<u8>>) -> (r: Vec<
    usize,
>)
    ensures
        r@.map_values(|m: usize| m as int) == match_indices(
            data_lines.deep_view(),
            keywords.deep_view(),
        ),
{
    let mut r: Vec<usize> = Vec::new();
    for idx in 0..data_lines.len()
        invariant
            r@.map_values(|m: usize| m as int) =~= match_indices_upto(
                data_lines.deep_view(),
                keywords.deep_view(),
                idx as int,
            ),
    {
        let ghost r0 = r@;
        if matches_any(&data_lines[idx], keywords) {
            assert(data_lines[idx as int]@ =~= data_lines.deep_view()[idx as int]);
            r.push(idx + 1);
            assert(r@.map_values(|m: usize| m as int) =~= r0.map_values(|m: usize| m as int).push(
                idx + 1 as int,
            ));
        } else {
            assert(data_lines[idx as int]@ =~= data_lines.deep_view()[idx as int]);
        }
    }
    r
}

} // verus!
