//! Where the vector store listens.

use vstd::prelude::*;

verus! {

/// `needle` stands somewhere in `text`.
pub open spec fn occurs_in(text: Seq<char>, needle: Seq<char>) -> bool {
    exists|i: int|
        0 <= i && i + needle.len() <= text.len() && #[trigger] text.subrange(i, i + needle.len())
            == needle
}

/// What `str::replace` makes of `text` when it puts `to` in the place of
/// every match of `from`.
pub uninterp spec fn replaced(text: Seq<char>, from: Seq<char>, to: Seq<char>) -> Seq<char>;

/// `str::contains` of the standard library, with a string as its pattern:
/// whether `needle` matches a part of `text`. Taken on trust.
#[verifier::external_body]
fn contains_text(text: &str, needle: &str) -> (found: bool)
    ensures
        found == occurs_in(text@, needle@),
{
    text.contains(needle)
}

/// `str::replace` of the standard library, with a string as its pattern.
/// Nothing is claimed of the new string but that it depends on the three
/// texts alone. Taken on trust.
#[verifier::external_body]
fn replace_text(text: &str, from: &str, to: &str) -> (changed: String)
    ensures
        changed@ == replaced(text@, from@, to@),
{
    text.replace(from, to)
}

/// The gRPC address that belongs to the HTTP address `url`: the same
/// address with port 6334 in the place of every 6333, and the local default
/// where `url` holds no 6333.
pub open spec fn grpc_url_of(url: Seq<char>) -> Seq<char> {
    if occurs_in(url, "6333"@) {
        replaced(url, "6333"@, "6334"@)
    } else {
        "http://localhost:6334"@
    }
}

/// The gRPC address to connect to, given the HTTP address of the store.
pub fn grpc_url(qdrant_url: &str) -> (url: String)
    ensures
        url@ == grpc_url_of(qdrant_url@),
{
    if contains_text(qdrant_url, "6333") {
        replace_text(qdrant_url, "6333", "6334")
    } else {
        "http://localhost:6334".to_owned()
    }
}

} // verus!
