//! Record codec: the store text as an ordered sequence of lines.
//!
//! The store text is lines joined by single newlines with one trailing
//! newline; an empty store is the empty text. Parsing drops the trailing
//! newline, so a well-formed store round-trips exactly.

use vstd::prelude::*;

use crate::NEWLINE;
use crate::text::{
    free_of, join_sep, lemma_join_of_split, lemma_split_of_join, split_bytes, split_sep,
};

verus! {

/// The lines of the store text `text`: the chunks between newlines, with
/// a trailing newline (the well-formed ending) yielding no extra line.
pub open spec fn store_lines(text: Seq<u8>) -> Seq<Seq<u8>> {
    if text.len() == 0 {
        Seq::empty()
    } else if text[text.len() - 1] == NEWLINE {
        split_sep(text.subrange(0, text.len() - 1), NEWLINE)
    } else {
        split_sep(text, NEWLINE)
    }
}

/// The store text for the line sequence `lines`: each line followed by a
/// newline; no lines, no text.
pub open spec fn store_text(lines: Seq<Seq<u8>>) -> Seq<u8> {
    if lines.len() == 0 {
        Seq::empty()
    } else {
        join_sep(lines, NEWLINE) + seq![NEWLINE]
    }
}

/// A store text is well formed when it is empty or ends with a newline.
pub open spec fn well_formed_text(text: Seq<u8>) -> bool {
    text.len() == 0 || text[text.len() - 1] == NEWLINE
}

/// A line sequence can stand in a store when no line contains a newline.
pub open spec fn well_formed_lines(lines: Seq<Seq<u8>>) -> bool {
    forall|k: int| 0 <= k < lines.len() ==> free_of(#[trigger] lines[k], NEWLINE)
}

/// Splits the store text into its lines.
pub fn parse(text: &Vec<u8>) -> (lines: Vec<Vec<u8>>)
    ensures
        lines.deep_view() == store_lines(text@),
{
    if text.len() == 0 {
        let lines: Vec<Vec<u8>> = Vec::new();
        proof {
            assert(lines.deep_view() =~~= store_lines(text@));
        }
        return lines;
    }
    let last = text.len() - 1;
    let mut core: Vec<u8> = Vec::new();
    let upto = if text[last] == NEWLINE {
        last
    } else {
        text.len()
    };
    for i in 0..upto
        invariant
            upto <= text.len(),
            core@ =~= text@.subrange(0, i as int),
    {
        core.push(text[i]);
        assert(core@ =~= text@.subrange(0, i + 1 as int));
    }
    if text[last] == NEWLINE {
        assert(core@ == text@.subrange(0, text@.len() - 1));
    } else {
        assert(core@ =~= text@);
    }
    split_bytes(&core, NEWLINE)
}

/// Joins the lines back into the store text, one newline after each line.
pub fn serialize(lines: &Vec<Vec<u8>>) -> (text: Vec<u8>)
    ensures
        text@ == store_text(lines.deep_view()),
{
    if lines.len() == 0 {
        let text: Vec<u8> = Vec::new();
        assert(text@ =~= store_text(lines.deep_view()));
        return text;
    }
    let mut text = crate::text::join_bytes(lines, NEWLINE);
    text.push(NEWLINE);
    assert(text@ =~= join_sep(lines.deep_view(), NEWLINE) + seq![NEWLINE]);
    text
}

/// Serializing the parse of a well-formed store text gives the text back.
pub proof fn lemma_text_round_trip(text: Seq<u8>)
    requires
        well_formed_text(text),
    ensures
        store_text(store_lines(text)) == text,
{
    if text.len() == 0 {
        assert(store_text(store_lines(text)) =~= text);
    } else {
        let core = text.subrange(0, text.len() - 1);
        crate::text::lemma_split_sep_len(core, NEWLINE);
        lemma_join_of_split(core, NEWLINE);
        assert(store_text(store_lines(text)) == core + seq![NEWLINE]);
        assert(core + seq![NEWLINE] =~= text);
    }
}

/// Parsing the serialization of well-formed lines gives the lines back.
pub proof fn lemma_lines_round_trip(lines: Seq<Seq<u8>>)
    requires
        well_formed_lines(lines),
    ensures
        store_lines(store_text(lines)) == lines,
{
    if lines.len() == 0 {
        assert(store_lines(store_text(lines)) =~~= lines);
    } else {
        let text = join_sep(lines, NEWLINE) + seq![NEWLINE];
        assert(text[text.len() - 1] == NEWLINE);
        assert(text.subrange(0, text.len() - 1) =~= join_sep(lines, NEWLINE));
        lemma_split_of_join(lines, NEWLINE);
    }
}

} // verus!
