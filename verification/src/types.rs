//! Plain data shared with the callers of the chunking strategies.

pub mod models;
