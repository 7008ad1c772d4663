//! What the service needs to know of its vector store before it connects.

pub mod client;
