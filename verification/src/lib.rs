//! Approximate string matching over Unicode scalar values.
//!
//! The crate locates the longest common contiguous runs of two text
//! sequences, decomposes the remainders recursively into a full list of
//! matching blocks, and offers a canonicalizer that brings raw text into a
//! comparable form.  All indices are Unicode scalar-value offsets, never
//! byte offsets.

pub mod blocks;
pub mod canonical;
pub mod text;

pub use blocks::find_longest_match;
pub use blocks::get_matching_blocks;
pub use canonical::full_process;
pub use canonical::validate_string;
pub use text::slice_utf8;
