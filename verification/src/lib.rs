//! A growable, segmented append-and-drain buffer.
//!
//! The buffer is an unbounded FIFO queue built from a chain of
//! fixed-capacity segments that grow geometrically. Values are appended
//! at the head segment and drained from the tail segment; a fully
//! drained segment is not freed but recycled: its cursors are reset and
//! it is re-appended at the end of the chain, so its storage is reused.

pub mod laws;
pub mod raw;
