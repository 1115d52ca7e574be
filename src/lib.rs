//! An embedded log-structured-merge key-value store: an in-memory sorted
//! write buffer, a write-ahead log, sorted segments made of a data part and a
//! sparse index, and a two-way compaction of segments.
use vstd::prelude::*;

pub mod bytes;
pub mod codec;
pub mod data;
pub mod database;
pub mod entry;
pub mod index;
pub mod memtable;
pub mod merge;
pub mod sstable;
pub mod wal;

verus! {

/// Adds two sizes.
pub fn add(left: usize, right: usize) -> (r: usize)
    requires
        left + right <= usize::MAX,
    ensures
        r == left + right,
{
    left + right
}

} // verus!
