//! Span-annotated text core for a note editor with a remote grammar checker.
//!
//! The crate keeps a mutable text buffer together with a set of checker
//! findings ("spans") anchored to character offsets in that buffer.  It
//! guarantees that the spans never overlap, never point outside the buffer,
//! are shifted or discarded consistently when the buffer is edited, and that
//! a stale checker response can never be installed over a newer buffer.

pub mod annotations;
pub mod buffer;
pub mod engine;
pub mod findings;
pub mod render;
