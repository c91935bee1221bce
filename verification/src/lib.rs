//! A substring-searchable n-gram index over line-oriented UTF-8 corpora.
//!
//! The index maps every byte position of every corpus line to a fixed-width
//! key (12 bytes, zero-padded), sorts and deduplicates the resulting
//! `(key, offset, length)` segments, and persists them as two parallel flat
//! files: a key file (stride 12) and a payload file (stride 8, big-endian
//! `offset`/`length` pair per entry). Queries bisect the key file with a
//! length-aware masked comparison to find the contiguous range of candidate
//! entries, retrieve the referenced corpus lines, and keep those that really
//! contain the query.

use vstd::prelude::*;

pub mod bytes;
pub mod builder;
pub mod laws;
pub mod locate;
pub mod print;
pub mod search;

verus! {

/// Width in bytes of one key-file record.
pub const BLOCK_SIZE: usize = 12;

} // verus!
