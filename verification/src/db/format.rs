//! The key under which a table holds an entry.

use vstd::prelude::*;

verus! {

/// Whether an entry sets a value or marks its key as deleted.
#[derive(Debug, Clone, Copy, PartialEq, Eq, Structural)]
pub enum ValueType {
    Deletion,
    Value,
}

/// A key of a table taken apart: the user's key, the sequence number of the
/// write, and what the write did.
#[derive(Debug)]
pub struct ParsedInternalKey {
    pub user_key: Vec<u8>,
    pub seq: u64,
    pub value_type: ValueType,
}

impl ParsedInternalKey {
    pub fn new(user_key: Vec<u8>, seq: u64, value_type: ValueType) -> (k: Self)
        ensures
            k.user_key == user_key,
            k.seq == seq,
            k.value_type == value_type,
    {
        ParsedInternalKey { user_key, seq, value_type }
    }
}

} // verus!
