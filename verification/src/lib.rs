//! A growable, UTF-8 text buffer that stores short values inline and moves
//! permanently to a heap allocation once a value outgrows the inline room.
//!
//! The buffer keeps up to 23 bytes directly in the structure. Mutations that
//! need more room escalate it to a heap allocation, and it never goes back:
//! only a clone of short content may again be inline. All content is
//! well-formed UTF-8 at all times, and every mutation lands on character
//! boundaries.
use vstd::prelude::*;

pub mod buffer;
pub mod codec;
pub mod errors;
pub mod growth;
mod host;
pub mod laws;

pub use buffer::TextBuffer;
pub use errors::{BoundaryViolation, FromUtf8Error, InvalidArgument, Utf8Error};

verus! {

/// Number of bytes a buffer can hold before it must move to the heap.
pub const INLINE_CAPACITY: usize = 23;

} // verus!
