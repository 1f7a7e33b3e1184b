//! An append-only key-value store: its line format, its in-memory index,
//! and the engine that decides what each write appends to the two logs and
//! how the index is rebuilt from the index log.
pub mod codec;
pub mod index;
pub mod laws;
pub mod store;

use vstd::prelude::*;

verus! {

/// A key together with the value stored under it.
pub struct KeyVal {
    pub key: Vec<u8>,
    pub val: Vec<u8>,
}

/// A key together with the data-log offset of its latest record.
pub struct KeyOffset {
    pub key: Vec<u8>,
    pub offset: u64,
}

/// What can go wrong in the store.
#[derive(Debug, Clone, Copy, PartialEq, Eq, Structural)]
pub enum DbError {
    /// A file could not be opened, read, written or positioned.
    Io,
    /// A line could not be produced: the data log would outgrow a `u64` offset.
    Encode,
    /// A line is not a well-formed record or index entry.
    Decode,
    /// The key was never written.
    NotFound,
}

impl KeyVal {
    pub fn new(key: Vec<u8>, val: Vec<u8>) -> (r: KeyVal)
        ensures
            r.key@ == key@,
            r.val@ == val@,
    {
        KeyVal { key, val }
    }
}

} // verus!
