//! A bounded cache whose entries can be pinned by their users.

pub mod laws;
pub mod lru;
pub mod model;
