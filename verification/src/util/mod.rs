//! Helpers shared by the log and the table cache.

pub mod coding;
pub mod crc32;
pub mod status;
