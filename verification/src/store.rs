//! Store mutator: add, remove and search over the parsed line sequence.
//!
//! Every operation is a pure function from the current lines (and the
//! answers the surrounding shell gathered at its prompts) to the new
//! lines or to what the shell should do next; the shell reads the store
//! before and rewrites it after.

use vstd::prelude::*;

use crate::matcher::{find_matching_commands, match_indices};
use crate::merger::{copy_bytes, merge_keyword_line, merged_line_ok};
use crate::text::bytes_eq;
use crate::{MARKER, SPACE};

verus! {

/// A typed failure of a store operation.
pub enum StoreError {
    /// The command handed to `do_add` was empty or all whitespace.
    EmptyCommand,
    /// A keyword line matched at the last position of the store, so it
    /// has no paired command line: the store is corrupt.
    MalformedStore,
}

/// What `do_add` decided.
pub enum AddOutcome {
    /// The command already has a record, whose command line stands at
    /// `command_line`; the caller is to ask whether to merge keywords
    /// and then call `add_to_preexisting_command`.
    MergePrompt { command_line: usize },
    /// The command was new; `lines` is the store with its record
    /// appended, ready to be written.
    Updated { lines: Vec<Vec<u8>> },
}

/// An ASCII whitespace byte.
pub open spec fn is_blank_byte(b: u8) -> bool {
    b == 9 || b == 10 || b == 11 || b == 12 || b == 13 || b == 32
}

/// The length of the UTF-8 encoding of a Unicode whitespace character
/// standing at the front of `cmd`, or 0 when none does. The whitespace
/// characters are those of the Unicode `White_Space` property: the ASCII
/// ones, next line, no-break space, ogham space mark, the en-quad
/// through hair-space range, line and paragraph separator, narrow
/// no-break space, medium mathematical space and ideographic space.
pub open spec fn blank_prefix_len(cmd: Seq<u8>) -> int {
    if cmd.len() >= 1 && is_blank_byte(cmd[0]) {
        1
    } else if cmd.len() >= 2 && cmd[0] == 0xc2 && (cmd[1] == 0x85 || cmd[1] == 0xa0) {
        2
    } else if cmd.len() >= 3 && cmd[0] == 0xe1 && cmd[1] == 0x9a && cmd[2] == 0x80 {
        3
    } else if cmd.len() >= 3 && cmd[0] == 0xe2 && cmd[1] == 0x80 && ((0x80 <= cmd[2] && cmd[2]
        <= 0x8a) || cmd[2] == 0xa8 || cmd[2] == 0xa9 || cmd[2] == 0xaf) {
        3
    } else if cmd.len() >= 3 && cmd[0] == 0xe2 && cmd[1] == 0x81 && cmd[2] == 0x9f {
        3
    } else if cmd.len() >= 3 && cmd[0] == 0xe3 && cmd[1] == 0x80 && cmd[2] == 0x80 {
        3
    } else {
        0
    }
}

/// Empty, or wholly made of Unicode whitespace characters in their
/// UTF-8 encodings: such a command is rejected. On valid UTF-8 this is
/// exactly "the text trims to nothing"; the encodings are prefix-free,
/// so reading greedily from the front decides it.
pub open spec fn blank_command(cmd: Seq<u8>) -> bool
    decreases cmd.len(),
{
    if cmd.len() == 0 {
        true
    } else if blank_prefix_len(cmd) > 0 {
        blank_command(cmd.skip(blank_prefix_len(cmd)))
    } else {
        false
    }
}

/// `cmd` stands as the command line of a record at position `i`.
pub open spec fn command_at(lines: Seq<Seq<u8>>, cmd: Seq<u8>, i: int) -> bool {
    0 <= i < lines.len() && i % 2 == 1 && lines[i] == cmd
}

/// Some record of `lines` has `cmd` as its command line.
pub open spec fn command_present(lines: Seq<Seq<u8>>, cmd: Seq<u8>) -> bool {
    exists|i: int| command_at(lines, cmd, i)
}

/// The keyword line a fresh record gets: the marker, a space, and the
/// keywords verbatim.
pub open spec fn new_keyword_line(keywords: Seq<u8>) -> Seq<u8> {
    seq![MARKER, SPACE] + keywords
}

/// The merged store: the one keyword line replaced, all else untouched.
pub open spec fn store_merge_ok(
    lines: Seq<Seq<u8>>,
    command_line: int,
    keywords: Seq<u8>,
    out: Seq<Seq<u8>>,
) -> bool {
    &&& out.len() == lines.len()
    &&& forall|j: int| 0 <= j < lines.len() && j != command_line - 1 ==> out[j] == lines[j]
    &&& merged_line_ok(lines[command_line - 1], keywords, out[command_line - 1])
}

/// A line-for-line copy of the store.
fn copy_lines(lines: &Vec<Vec<u8>>) -> (out: Vec<Vec<u8>>)
    ensures
        out.deep_view() == lines.deep_view(),
{
    let mut out: Vec<Vec<u8>> = Vec::new();
    proof {
        assert(out.deep_view() =~~= lines.deep_view().subrange(0, 0));
    }
    for i in 0..lines.len()
        invariant
            out.deep_view() =~~= lines.deep_view().subrange(0, i as int),
    {
        let ghost o0 = out.deep_view();
        out.push(copy_bytes(&lines[i]));
        proof {
            assert(lines[i as int]@ =~= lines.deep_view()[i as int]);
            assert(out.deep_view() =~~= o0.push(lines.deep_view()[i as int]));
            assert(out.deep_view() =~~= lines.deep_view().subrange(0, i + 1 as int));
        }
    }
    assert(lines.deep_view().subrange(0, lines.deep_view().len() as int) =~~= lines.deep_view());
    out
}

/// Whether `cmd` is empty or all Unicode whitespace in UTF-8.
fn is_blank_command(cmd: &Vec<u8>) -> (r: bool)
    ensures
        r == blank_command(cmd@),
{
    let mut i: usize = 0;
    proof {
        assert(cmd@.skip(0) =~= cmd@);
    }
    while i < cmd.len()
        invariant
            i <= cmd.len(),
            blank_command(cmd@) == blank_command(cmd@.skip(i as int)),
        decreases cmd.len() - i,
    {
        let ghost suf = cmd@.skip(i as int);
        proof {
            assert(suf.len() == cmd@.len() - i);
            assert(suf[0] == cmd@[i as int]);
        }
        let n = cmd.len() - i;
        let b0 = cmd[i];
        let step: usize = if b0 == 9 || b0 == 10 || b0 == 11 || b0 == 12 || b0 == 13 || b0 == 32 {
            1
        } else if n >= 2 && b0 == 0xc2 && (cmd[i + 1] == 0x85 || cmd[i + 1] == 0xa0) {
            2
        } else if n >= 3 && b0 == 0xe1 && cmd[i + 1] == 0x9a && cmd[i + 2] == 0x80 {
            3
        } else if n >= 3 && b0 == 0xe2 && cmd[i + 1] == 0x80 && ((0x80 <= cmd[i + 2] && cmd[i + 2]
            <= 0x8a) || cmd[i + 2] == 0xa8 || cmd[i + 2] == 0xa9 || cmd[i + 2] == 0xaf) {
            3
        } else if n >= 3 && b0 == 0xe2 && cmd[i + 1] == 0x81 && cmd[i + 2] == 0x9f {
            3
        } else if n >= 3 && b0 == 0xe3 && cmd[i + 1] == 0x80 && cmd[i + 2] == 0x80 {
            3
        } else {
            0
        };
        proof {
            if suf.len() >= 2 {
                assert(suf[1] == cmd@[i + 1]);
            }
            if suf.len() >= 3 {
                assert(suf[2] == cmd@[i + 2]);
            }
            assert(blank_prefix_len(suf) == step as int);
        }
        if step == 0 {
            assert(!blank_command(suf));
            return false;
        }
        proof {
            assert(suf.skip(step as int) =~= cmd@.skip(i + step as int));
        }
        i += step;
    }
    assert(cmd@.skip(i as int) =~= Seq::<u8>::empty());
    true
}

/// Appends a fresh record for `command` under `keywords`: one new
/// keyword line and one new command line at the end, all prior lines
/// untouched.
pub fn add_new_command(lines: &Vec<Vec<u8>>, command: &Vec<u8>, keywords: &Vec<u8>) -> (out: Vec<
    Vec<u8>,
>)
    ensures
        out.deep_view() == lines.deep_view() + seq![new_keyword_line(keywords@), command@],
{
    let mut out = copy_lines(lines);
    let ghost o0 = out.deep_view();
    let mut kw_line: Vec<u8> = Vec::new();
    kw_line.push(MARKER);
    kw_line.push(SPACE);
    for i in 0..keywords.len()
        invariant
            kw_line@ =~= seq![MARKER, SPACE] + keywords@.subrange(0, i as int),
    {
        kw_line.push(keywords[i]);
        assert(kw_line@ =~= seq![MARKER, SPACE] + keywords@.subrange(0, i + 1 as int));
    }
    assert(kw_line@ =~= new_keyword_line(keywords@));
    out.push(kw_line);
    out.push(copy_bytes(command));
    proof {
        assert(out.deep_view() =~~= o0 + seq![new_keyword_line(keywords@), command@]);
    }
    out
}

/// Rewrites the keyword line of the record whose command line stands at
/// `command_line`, merging `keywords` into it; every other line is kept.
pub fn merge_keywords(lines: &Vec<Vec<u8>>, command_line: usize, keywords: &Vec<u8>) -> (out: Vec<
    Vec<u8>,
>)
    requires
        1 <= command_line < lines.len(),
    ensures
        store_merge_ok(lines.deep_view(), command_line as int, keywords@, out.deep_view()),
{
    let merged = merge_keyword_line(&lines[command_line - 1], keywords);
    let ghost all = lines.deep_view();
    assert(lines[command_line - 1]@ =~= all[command_line - 1]);
    let mut out: Vec<Vec<u8>> = Vec::new();
    proof {
        assert(out.deep_view() =~~= all.subrange(0, 0));
    }
    for i in 0..lines.len()
        invariant
            1 <= command_line < lines.len(),
            all == lines.deep_view(),
            merged_line_ok(all[command_line - 1], keywords@, merged@),
            out.deep_view().len() == i,
            forall|j: int| 0 <= j < i && j != command_line - 1 ==> out.deep_view()[j] == all[j],
            i > command_line - 1 ==> out.deep_view()[command_line - 1] == merged@,
    {
        let ghost o0 = out.deep_view();
        if i == command_line - 1 {
            out.push(copy_bytes(&merged));
            assert(out.deep_view() =~~= o0.push(merged@));
        } else {
            out.push(copy_bytes(&lines[i]));
            proof {
                assert(lines[i as int]@ =~= all[i as int]);
                assert(out.deep_view() =~~= o0.push(all[i as int]));
            }
        }
    }
    out
}

/// Rewrites the record at `command_line` with the merged keyword line
/// when the caller's prompt was answered yes; hands the store back
/// unchanged when it was answered no.
pub fn add_to_preexisting_command(
    lines: &Vec<Vec<u8>>,
    command_line: usize,
    keywords: &Vec<u8>,
    merge_approved: bool,
) -> (out: Vec<Vec<u8>>)
    requires
        1 <= command_line < lines.len(),
    ensures
        merge_approved ==> store_merge_ok(
            lines.deep_view(),
            command_line as int,
            keywords@,
            out.deep_view(),
        ),
        !merge_approved ==> out.deep_view() == lines.deep_view(),
        out.deep_view().len() == lines.deep_view().len(),
{
    if merge_approved {
        merge_keywords(lines, command_line, keywords)
    } else {
        copy_lines(lines)
    }
}

/// Decides an add: rejects a blank command; points at the existing
/// record when the command is already stored, so the caller can ask
/// about merging; otherwise appends the new record.
pub fn do_add(lines: &Vec<Vec<u8>>, command: &Vec<u8>, keywords: &Vec<u8>) -> (r: Result<
    AddOutcome,
    StoreError,
>)
    ensures
        r is Err <==> blank_command(command@),
        r is Err ==> r == Result::<AddOutcome, StoreError>::Err(StoreError::EmptyCommand),
        r matches Ok(AddOutcome::MergePrompt { command_line }) ==> command_at(
            lines.deep_view(),
            command@,
            command_line as int,
        ) && forall|j: int| j < command_line ==> !command_at(lines.deep_view(), command@, j),
        !blank_command(command@) && command_present(lines.deep_view(), command@) ==> r matches Ok(
            AddOutcome::MergePrompt { command_line: _ },
        ),
        r matches Ok(AddOutcome::Updated { lines: out }) ==> !command_present(
            lines.deep_view(),
            command@,
        ) && out.deep_view() == lines.deep_view() + seq![new_keyword_line(keywords@), command@],
        !blank_command(command@) && !command_present(lines.deep_view(), command@) ==> r matches Ok(
            AddOutcome::Updated { lines: _ },
        ),
{
    if is_blank_command(command) {
        return Err(StoreError::EmptyCommand);
    }
    for i in 0..lines.len()
        invariant
            !blank_command(command@),
            forall|j: int| j < i ==> !command_at(lines.deep_view(), command@, j),
    {
        assert(lines[i as int]@ =~= lines.deep_view()[i as int]);
        if i % 2 == 1 {
            if bytes_eq(&lines[i], command) {
                assert(command_at(lines.deep_view(), command@, i as int));
                return Ok(AddOutcome::MergePrompt { command_line: i });
            }
        }
    }
    assert(!command_present(lines.deep_view(), command@));
    Ok(AddOutcome::Updated { lines: add_new_command(lines, command, keywords) })
}

/// What the merge prompt's outcome means for `add_to_preexisting_command`:
/// the answer given, and on a failed prompt a no — the store is left
/// unchanged and the add succeeds silently.
pub fn merge_confirmed(answer: Option<bool>) -> (r: bool)
    ensures
        answer matches Some(v) ==> r == v,
        answer is None ==> !r,
{
    match answer {
        Some(v) => v,
        None => false,
    }
}

/// What a remove prompt's outcome means for one candidate: the answer
/// given, and on a failed prompt a yes — removal fails open and the
/// record goes.
pub fn remove_confirmed(answer: Option<bool>) -> (r: bool)
    ensures
        answer matches Some(v) ==> r == v,
        answer is None ==> r,
{
    match answer {
        Some(v) => v,
        None => true,
    }
}

/// Adding a command that already has a record never changes the line
/// count, whatever the merge prompt is answered, and touches at most
/// that record's keyword line.
pub proof fn lemma_add_existing_preserves_count(
    lines: Seq<Seq<u8>>,
    command_line: int,
    keywords: Seq<u8>,
    out: Seq<Seq<u8>>,
    merge_approved: bool,
)
    requires
        1 <= command_line < lines.len(),
        merge_approved ==> store_merge_ok(lines, command_line, keywords, out),
        !merge_approved ==> out == lines,
    ensures
        out.len() == lines.len(),
        forall|j: int| 0 <= j < lines.len() && j != command_line - 1 ==> out[j] == lines[j],
{
}

/// Line `j` belongs to a removed record: it is a confirmed command line
/// or the keyword line right before one.
pub open spec fn in_removed_pair(confirmed: Seq<int>, j: int) -> bool {
    exists|k: int| 0 <= k < confirmed.len() && (j == confirmed[k] || j == confirmed[k] - 1)
}

/// The first `n` lines with every removed pair dropped, in order.
pub open spec fn remove_pairs_upto(lines: Seq<Seq<u8>>, confirmed: Seq<int>, n: int) -> Seq<
    Seq<u8>,
>
    decreases n,
{
    if n <= 0 {
        Seq::empty()
    } else if in_removed_pair(confirmed, n - 1) {
        remove_pairs_upto(lines, confirmed, n - 1)
    } else {
        remove_pairs_upto(lines, confirmed, n - 1).push(lines[n - 1])
    }
}

/// All lines with every removed pair dropped, in order.
pub open spec fn remove_pairs(lines: Seq<Seq<u8>>, confirmed: Seq<int>) -> Seq<Seq<u8>> {
    remove_pairs_upto(lines, confirmed, lines.len() as int)
}

/// Confirmed command-line positions fit a store of `n_lines` lines:
/// each has a keyword line before it, lies in the store, and any later
/// one lies at least two further on, so the removed pairs do not
/// overlap.
pub open spec fn valid_removals(confirmed: Seq<int>, n_lines: int) -> bool {
    &&& forall|k: int| 0 <= k < confirmed.len() ==> 1 <= #[trigger] confirmed[k] < n_lines
    &&& forall|a: int, b: int|
        #![trigger confirmed[a], confirmed[b]]
        0 <= a < b < confirmed.len() ==> confirmed[a] + 2 <= confirmed[b]
}

/// A chain of adjacent gaps of at least `d` reaches from any earlier to
/// any later element.
proof fn lemma_gap_chain(s: Seq<int>, d: int, a: int, b: int)
    requires
        forall|k: int| #![trigger s[k]] 0 <= k < s.len() - 1 ==> s[k] + d <= s[k + 1],
        0 <= a < b < s.len(),
        d >= 0,
    ensures
        s[a] + d <= s[b],
    decreases b - a,
{
    if b > a + 1 {
        lemma_gap_chain(s, d, a, b - 1);
    }
}

/// Dropping pairs over a stretch with nothing removed appends that
/// stretch unchanged.
proof fn lemma_remove_pairs_clear(lines: Seq<Seq<u8>>, confirmed: Seq<int>, m: int, n: int)
    requires
        0 <= m <= n <= lines.len(),
        forall|j: int| m <= j < n ==> !in_removed_pair(confirmed, j),
    ensures
        remove_pairs_upto(lines, confirmed, n) == remove_pairs_upto(lines, confirmed, m)
            + lines.subrange(m, n),
    decreases n - m,
{
    if n == m {
        assert(remove_pairs_upto(lines, confirmed, m) + lines.subrange(m, m)
            =~= remove_pairs_upto(lines, confirmed, m));
    } else {
        lemma_remove_pairs_clear(lines, confirmed, m, n - 1);
        assert(remove_pairs_upto(lines, confirmed, m) + lines.subrange(m, n - 1)
            + seq![lines[n - 1]] =~= remove_pairs_upto(lines, confirmed, m) + lines.subrange(
            m,
            n,
        ));
    }
}

/// Two confirmations that agree on which lines below `n` are removed
/// drop the same pairs below `n`.
proof fn lemma_remove_pairs_agree(
    lines: Seq<Seq<u8>>,
    confirmed1: Seq<int>,
    confirmed2: Seq<int>,
    n: int,
)
    requires
        forall|j: int| 0 <= j < n ==> in_removed_pair(confirmed1, j) == in_removed_pair(
            confirmed2,
            j,
        ),
    ensures
        remove_pairs_upto(lines, confirmed1, n) == remove_pairs_upto(lines, confirmed2, n),
    decreases n,
{
    if n > 0 {
        lemma_remove_pairs_agree(lines, confirmed1, confirmed2, n - 1);
    }
}

/// Each confirmed removal takes exactly two lines out.
pub proof fn lemma_remove_pairs_len(lines: Seq<Seq<u8>>, confirmed: Seq<int>, n: int)
    requires
        valid_removals(confirmed, n),
        0 <= n <= lines.len(),
    ensures
        remove_pairs_upto(lines, confirmed, n).len() == n - 2 * confirmed.len(),
    decreases confirmed.len(),
{
    if confirmed.len() == 0 {
        lemma_remove_pairs_clear(lines, confirmed, 0, n);
        assert(lines.subrange(0, n).len() == n);
    } else {
        let c = confirmed[confirmed.len() - 1];
        let rest = confirmed.drop_last();
        assert forall|k: int| 0 <= k < rest.len() implies #[trigger] rest[k] + 2 <= c by {
            assert(confirmed[k] + 2 <= confirmed[confirmed.len() - 1]);
        }
        assert forall|j: int| c + 1 <= j < n implies !in_removed_pair(confirmed, j) by {}
        lemma_remove_pairs_clear(lines, confirmed, c + 1, n);
        assert(confirmed[confirmed.len() - 1] == c);
        assert(in_removed_pair(confirmed, c));
        assert(in_removed_pair(confirmed, c - 1));
        assert(remove_pairs_upto(lines, confirmed, c + 1) == remove_pairs_upto(
            lines,
            confirmed,
            c,
        ));
        assert(remove_pairs_upto(lines, confirmed, c) == remove_pairs_upto(
            lines,
            confirmed,
            c - 1,
        ));
        assert forall|j: int| 0 <= j < c - 1 implies in_removed_pair(confirmed, j)
            == in_removed_pair(rest, j) by {
            if in_removed_pair(confirmed, j) {
                let k = choose|k: int|
                    0 <= k < confirmed.len() && (j == confirmed[k] || j == confirmed[k] - 1);
                assert(k < confirmed.len() - 1);
                assert(rest[k] == confirmed[k]);
            }
            if in_removed_pair(rest, j) {
                let k = choose|k: int| 0 <= k < rest.len() && (j == rest[k] || j == rest[k] - 1);
                assert(confirmed[k] == rest[k]);
            }
        }
        lemma_remove_pairs_agree(lines, confirmed, rest, c - 1);
        assert(valid_removals(rest, c - 1));
        lemma_remove_pairs_len(lines, rest, c - 1);
    }
}

/// Whether line `j` belongs to one of the confirmed pairs.
fn in_pair_exec(confirmed: &Vec<usize>, j: usize) -> (r: bool)
    ensures
        r == in_removed_pair(confirmed@.map_values(|c: usize| c as int), j as int),
{
    let ghost ints = confirmed@.map_values(|c: usize| c as int);
    for k in 0..confirmed.len()
        invariant
            ints == confirmed@.map_values(|c: usize| c as int),
            forall|t: int| 0 <= t < k ==> !(j == ints[t] || j == ints[t] - 1),
    {
        let c = confirmed[k];
        if c == j || (c >= 1 && c - 1 == j) {
            assert(j == ints[k as int] || j == ints[k as int] - 1);
            return true;
        }
    }
    false
}

/// Whether `confirmed` fits a store of `n_lines` lines as a removal set.
pub fn validate_removals(confirmed: &Vec<usize>, n_lines: usize) -> (r: bool)
    ensures
        r == valid_removals(confirmed@.map_values(|c: usize| c as int), n_lines as int),
{
    let ghost ints = confirmed@.map_values(|c: usize| c as int);
    for k in 0..confirmed.len()
        invariant
            ints == confirmed@.map_values(|c: usize| c as int),
            forall|t: int| 0 <= t < k ==> 1 <= #[trigger] ints[t] < n_lines,
            forall|a: int, b: int|
                #![trigger ints[a], ints[b]]
                0 <= a < b < k ==> ints[a] + 2 <= ints[b],
    {
        let c = confirmed[k];
        if c < 1 || c >= n_lines {
            assert(!(1 <= ints[k as int] < n_lines));
            return false;
        }
        if k > 0 {
            let p = confirmed[k - 1];
            if c < 2 || p > c - 2 {
                assert(ints[k as int - 1] + 2 > ints[k as int]);
                return false;
            }
            assert forall|a: int| 0 <= a < k implies ints[a] + 2 <= ints[k as int] by {
                if a < k - 1 {
                    assert(ints[a] + 2 <= ints[k as int - 1]);
                }
            }
        }
    }
    true
}

/// Removes the confirmed records: each confirmed command line and its
/// keyword line go, everything else keeps its order; the store shrinks
/// by exactly two lines per confirmed record.
pub fn do_remove(lines: &Vec<Vec<u8>>, confirmed: &Vec<usize>) -> (out: Vec<Vec<u8>>)
    requires
        valid_removals(confirmed@.map_values(|c: usize| c as int), lines@.len() as int),
    ensures
        out.deep_view() == remove_pairs(
            lines.deep_view(),
            confirmed@.map_values(|c: usize| c as int),
        ),
        out.deep_view().len() == lines.deep_view().len() - 2 * confirmed@.len(),
{
    let ghost ints = confirmed@.map_values(|c: usize| c as int);
    let mut out: Vec<Vec<u8>> = Vec::new();
    proof {
        assert(out.deep_view() =~~= remove_pairs_upto(lines.deep_view(), ints, 0));
    }
    for j in 0..lines.len()
        invariant
            ints == confirmed@.map_values(|c: usize| c as int),
            out.deep_view() =~~= remove_pairs_upto(lines.deep_view(), ints, j as int),
    {
        let ghost o0 = out.deep_view();
        if !in_pair_exec(confirmed, j) {
            out.push(copy_bytes(&lines[j]));
            proof {
                assert(lines[j as int]@ =~= lines.deep_view()[j as int]);
                assert(out.deep_view() =~~= o0.push(lines.deep_view()[j as int]));
            }
        }
    }
    proof {
        lemma_remove_pairs_len(lines.deep_view(), ints, lines.deep_view().len() as int);
    }
    out
}

/// The command-line positions a removal under the keyword string
/// `keywords` puts up for confirmation: none when no search term is
/// given, else every record one of the space-separated keywords matches.
pub fn removal_candidates(lines: &Vec<Vec<u8>>, keywords: &Vec<u8>) -> (r: Vec<usize>)
    ensures
        keywords@.len() == 0 ==> r@.len() == 0,
        keywords@.len() > 0 ==> r@.map_values(|m: usize| m as int) == match_indices(
            lines.deep_view(),
            crate::text::split_sep(keywords@, SPACE),
        ),
{
    if keywords.len() == 0 {
        return Vec::new();
    }
    let kws = crate::text::split_bytes(keywords, SPACE);
    find_matching_commands(lines, &kws)
}

/// What `do_search` found.
pub enum SearchOutcome {
    /// No record matched.
    NoMatches,
    /// Exactly one record matched: its command line stands at
    /// `command_line` and reads `command`; the caller is to ask before
    /// running it.
    Single { command_line: usize, command: Vec<u8> },
    /// Several records matched: their command lines, in store order, for
    /// the caller to offer as a choice.
    Multiple { commands: Vec<Vec<u8>> },
}

/// Finds the records the search keywords match and hands back what the
/// caller should do: report nothing found, offer the one match, or
/// offer the list. A match at the last line has no paired command line
/// and is reported as a corrupt store.
#[verifier::rlimit(50)]
pub fn do_search(lines: &Vec<Vec<u8>>, keywords: &Vec<Vec<u8>>) -> (r: Result<
    SearchOutcome,
    StoreError,
>)
    ensures
        r is Err <==> match_indices(lines.deep_view(), keywords.deep_view()).len() > 0
            && match_indices(lines.deep_view(), keywords.deep_view()).last()
            == lines.deep_view().len(),
        r is Err ==> r == Result::<SearchOutcome, StoreError>::Err(StoreError::MalformedStore),
        r matches Ok(SearchOutcome::NoMatches) <==> match_indices(
            lines.deep_view(),
            keywords.deep_view(),
        ).len() == 0,
        r matches Ok(SearchOutcome::Single { command_line, command }) ==> match_indices(
            lines.deep_view(),
            keywords.deep_view(),
        ).len() == 1 && command_line as int == match_indices(
            lines.deep_view(),
            keywords.deep_view(),
        )[0] && command@ == lines.deep_view()[match_indices(
            lines.deep_view(),
            keywords.deep_view(),
        )[0]],
        match_indices(lines.deep_view(), keywords.deep_view()).len() == 1 && match_indices(
            lines.deep_view(),
            keywords.deep_view(),
        )[0] < lines.deep_view().len() ==> r matches Ok(
            SearchOutcome::Single { command_line: _, command: _ },
        ),
        r matches Ok(SearchOutcome::Multiple { commands }) ==> match_indices(
            lines.deep_view(),
            keywords.deep_view(),
        ).len() >= 2 && commands.deep_view() == match_indices(
            lines.deep_view(),
            keywords.deep_view(),
        ).map_values(|m: int| lines.deep_view()[m]),
        match_indices(lines.deep_view(), keywords.deep_view()).len() >= 2 && match_indices(
            lines.deep_view(),
            keywords.deep_view(),
        ).last() < lines.deep_view().len() ==> r matches Ok(
            SearchOutcome::Multiple { commands: _ },
        ),
{
    let ms = find_matching_commands(lines, keywords);
    let ghost msi = ms@.map_values(|m: usize| m as int);
    let ghost n = lines.deep_view().len() as int;
    proof {
        crate::matcher::lemma_match_indices_upto(lines.deep_view(), keywords.deep_view(), n);
    }
    if ms.len() == 0 {
        return Ok(SearchOutcome::NoMatches);
    }
    let last = ms[ms.len() - 1];
    assert(last as int == msi.last());
    if last >= lines.len() {
        assert(msi.last() == n);
        return Err(StoreError::MalformedStore);
    }
    proof {
        assert forall|t: int| 0 <= t < msi.len() implies 0 < #[trigger] msi[t] < n by {
            if t < msi.len() - 1 {
                lemma_gap_chain(msi, 1, t, msi.len() - 1);
            }
        }
    }
    if ms.len() == 1 {
        let ci = ms[0];
        assert(ci as int == msi[0]);
        assert(lines[ci as int]@ =~= lines.deep_view()[ci as int]);
        let command = copy_bytes(&lines[ci]);
        return Ok(SearchOutcome::Single { command_line: ci, command });
    }
    proof {
        assert forall|t: int| 0 <= t < ms@.len() implies #[trigger] ms@[t] < lines@.len() by {
            assert(msi[t] == ms@[t] as int);
            assert(lines.deep_view().len() == lines@.len());
        }
    }
    let commands = collect_commands(lines, &ms);
    Ok(SearchOutcome::Multiple { commands })
}

/// The lines of the store at the given positions, in order.
fn collect_commands(lines: &Vec<Vec<u8>>, ms: &Vec<usize>) -> (commands: Vec<Vec<u8>>)
    requires
        forall|t: int| 0 <= t < ms@.len() ==> #[trigger] ms@[t] < lines@.len(),
    ensures
        commands.deep_view() == ms@.map_values(|m: usize| m as int).map_values(
            |m: int| lines.deep_view()[m],
        ),
{
    let ghost msi = ms@.map_values(|m: usize| m as int);
    let mut commands: Vec<Vec<u8>> = Vec::new();
    proof {
        assert(commands.deep_view() =~~= msi.subrange(0, 0).map_values(
            |m: int| lines.deep_view()[m],
        ));
    }
    for k in 0..ms.len()
        invariant
            msi == ms@.map_values(|m: usize| m as int),
            forall|t: int| 0 <= t < ms@.len() ==> #[trigger] ms@[t] < lines@.len(),
            commands.deep_view() =~~= msi.subrange(0, k as int).map_values(
                |m: int| lines.deep_view()[m],
            ),
    {
        let ghost c0 = commands.deep_view();
        let m = ms[k];
        assert(m as int == msi[k as int]);
        assert(lines[m as int]@ =~= lines.deep_view()[m as int]);
        commands.push(copy_bytes(&lines[m]));
        proof {
            assert(commands.deep_view() =~~= c0.push(lines.deep_view()[msi[k as int]]));
            assert(msi.subrange(0, k + 1 as int) =~= msi.subrange(0, k as int).push(
                msi[k as int],
            ));
            assert(msi.subrange(0, k + 1 as int).map_values(|m: int| lines.deep_view()[m]) =~~= c0
                .push(lines.deep_view()[msi[k as int]]));
        }
    }
    proof {
        assert(msi.subrange(0, msi.len() as int) =~= msi);
    }
    commands
}

} // verus!
