//! Chunking strategies. All of them assume markdown input.

pub mod chunk;
pub mod cursor;
pub mod delimited;
pub mod sections;
pub mod text;
