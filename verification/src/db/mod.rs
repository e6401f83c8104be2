//! Names of the store's files and the keys its tables hold.

pub mod filename;
pub mod format;
