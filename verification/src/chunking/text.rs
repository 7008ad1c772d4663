//! Texts as sequences of code points, and lists of chunks as sequences of texts.

use vstd::prelude::*;

verus! {

/// `String::push` of the standard library: the string afterwards is the string
/// before with `ch` appended as its last code point. Taken on trust.
pub assume_specification[ String::push ](s: &mut String, ch: char)
    ensures
        final(s)@ == old(s)@.push(ch),
;

/// What a list of chunks says: the text of each chunk, in order.
pub open spec fn texts(chunks: Seq<String>) -> Seq<Seq<char>> {
    chunks.map_values(|s: String| s@)
}

/// Adding a chunk to a list adds its text to the list's texts.
pub proof fn lemma_texts_push(chunks: Seq<String>, chunk: String)
    ensures
        texts(chunks.push(chunk)) == texts(chunks).push(chunk@),
{
    assert(texts(chunks.push(chunk)) =~= texts(chunks).push(chunk@));
}

/// The code points of `content`, in order.
pub fn to_chars(content: &str) -> (chars: Vec<char>)
    ensures
        chars@ == content@,
{
    let mut chars: Vec<char> = Vec::new();
    for c in it: content.chars()
        invariant
            it.seq() == content@,
            chars@ == content@.take(it.index() as int),
    {
        chars.push(c);
    }
    chars
}

/// The text made of the code points `chars[from..to]`.
pub fn text_of(chars: &[char], from: usize, to: usize) -> (text: String)
    requires
        from <= to <= chars@.len(),
    ensures
        text@ == chars@.subrange(from as int, to as int),
{
    let mut text = String::new();
    let mut i: usize = from;
    while i < to
        invariant
            from <= i <= to <= chars@.len(),
            text@ == chars@.subrange(from as int, i as int),
        decreases to - i,
    {
        text.push(chars[i]);
        i += 1;
    }
    text
}

} // verus!
