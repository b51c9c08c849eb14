//! Command invoker: splits a stored command line into the program and
//! its argument list for hand-off to the process-replacing call.
//!
//! The program is everything before the first space; the remainder is
//! split on single spaces into arguments. A command line without a
//! space is a program with no arguments.

use vstd::prelude::*;

use crate::SPACE;
use crate::text::{
    first_index_of, lemma_first_index_of_free, lemma_first_index_of_unique, split_bytes, split_sep,
};

verus! {

/// A command ready to run: the program and its arguments.
pub struct Invocation {
    pub program: Vec<u8>,
    pub args: Vec<Vec<u8>>,
}

/// Splits the command line `command` at its first space into the
/// program and the space-separated argument list; without a space the
/// whole line is the program and there are no arguments.
pub fn prepare_command(command: &Vec<u8>) -> (r: Invocation)
    ensures
        first_index_of(command@, SPACE) == command@.len() ==> r.program@ == command@
            && r.args.deep_view() == Seq::<Seq<u8>>::empty(),
        first_index_of(command@, SPACE) < command@.len() ==> r.program@ == command@.subrange(
            0,
            first_index_of(command@, SPACE),
        ) && r.args.deep_view() == split_sep(
            command@.subrange(first_index_of(command@, SPACE) + 1, command@.len() as int),
            SPACE,
        ),
{
    let n = command.len();
    let mut i: usize = 0;
    while i < n && command[i] != SPACE
        invariant
            i <= n,
            n == command@.len(),
            forall|j: int| 0 <= j < i ==> command@[j] != SPACE,
        decreases n - i,
    {
        i += 1;
    }
    if i == n {
        proof {
            lemma_first_index_of_free(command@, SPACE);
        }
        let program = crate::merger::copy_bytes(command);
        let args: Vec<Vec<u8>> = Vec::new();
        assert(args.deep_view() =~~= Seq::<Seq<u8>>::empty());
        return Invocation { program, args };
    }
    proof {
        lemma_first_index_of_unique(command@, SPACE, i as int);
    }
    let mut program: Vec<u8> = Vec::new();
    for j in 0..i
        invariant
            i <= command@.len(),
            program@ =~= command@.subrange(0, j as int),
    {
        program.push(command[j]);
        assert(program@ =~= command@.subrange(0, j + 1 as int));
    }
    let mut remainder: Vec<u8> = Vec::new();
    for j in (i + 1)..n
        invariant
            i < n <= command@.len(),
            remainder@ =~= command@.subrange(i + 1, j as int),
    {
        remainder.push(command[j]);
        assert(remainder@ =~= command@.subrange(i + 1, j + 1 as int));
    }
    let args = split_bytes(&remainder, SPACE);
    Invocation { program, args }
}

} // verus!
