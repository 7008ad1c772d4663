//! Text segmentation for a semantic search service: a delimiter splitter that
//! cuts text into clause-like fragments, and a markdown-aware splitter that
//! cuts text into sections at headers, horizontal rules and blank lines.

pub mod chunking;
pub mod qdrant;
pub mod types;
