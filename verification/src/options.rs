//! Choices a caller makes for a read.

use vstd::prelude::*;

verus! {

/// How a read is to be done.
#[derive(Debug, Clone, Copy)]
pub struct ReadOptions {
    /// Whether the checksums of what is read are to be verified.
    pub verify_checksums: bool,
    /// Whether what is read is to be kept in memory for later reads.
    pub fill_cache: bool,
}

impl ReadOptions {
    /// The usual choices: no verification, and keep what was read.
    pub fn new() -> (o: Self)
        ensures
            !o.verify_checksums,
            o.fill_cache,
    {
        ReadOptions { verify_checksums: false, fill_cache: true }
    }
}

} // verus!
