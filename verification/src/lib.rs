//! Core pieces of a log-structured key-value store: the framing of the
//! write-ahead log, a bounded cache with pinning for opened tables, and the
//! error kinds shared by both.

pub mod cache;
pub mod db;
pub mod options;
pub mod record;
pub mod table_cache;
pub mod util;
