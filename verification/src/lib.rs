//! Packing of a stream of text into an ordered sequence of chunks that each
//! respect a fixed character limit, with caller-delimited protected sections
//! that are kept whole whenever possible, plus a standalone splitter that
//! separates a string into leading whitespace, core text and trailing
//! whitespace.
//!
//! All lengths are measured in Unicode scalar values, never in bytes.

pub mod bunch;
pub mod chunk_seq;
pub mod trim;

pub use bunch::{MsgBunch, MsgBunchBuilder, UnsplittableSection, MSG_LIMIT};
pub use trim::split_trim;
