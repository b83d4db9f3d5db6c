//! The layout of Cap'n Proto messages: wire pointers, and readers and
//! builders of structs and lists over the segments of a message.
//!
//! A segment is a sequence of bytes; positions in it are byte offsets.
//! Readers take the segments they read (a `ReaderArena`); builders take the
//! segments they write (a `BuilderArena`) and can hand them to readers.
use vstd::prelude::*;

pub mod le;
pub mod wire;
pub mod arena;
pub mod wire_helpers;
pub mod reader;
pub mod primitive;
pub mod write_helpers;
pub mod builder;
pub mod laws;
pub mod footprint;

verus! {
} // verus!
