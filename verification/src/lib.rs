//! Engine of a keyword-tagged command store.
//!
//! The store is a flat text file of alternating lines: a keyword line
//! (starting with the `#` marker) followed by the command line it tags.
//! This crate holds the verified core: the line codec, the keyword
//! matcher, the keyword merger, the store mutations (add and remove) and
//! the command invoker's split into program and arguments. All text is
//! handled as UTF-8 bytes; the I/O shell around the engine converts.

pub mod codec;
pub mod invoker;
pub mod matcher;
pub mod merger;
pub mod store;
pub mod text;

use vstd::prelude::*;

verus! {

/// The byte that begins every keyword line.
pub const MARKER: u8 = 35;

/// The byte that separates keyword tokens and command arguments.
pub const SPACE: u8 = 32;

/// The byte that separates lines of the store.
pub const NEWLINE: u8 = 10;

} // verus!
