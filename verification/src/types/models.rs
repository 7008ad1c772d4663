use vstd::prelude::*;

verus! {

/// A document as it is handed in for indexing: where it came from and what it
/// says. The chunking strategies work on `content`.
#[derive(Debug)]
pub struct Document {
    pub filename: String,
    pub content: String,
}

} // verus!
