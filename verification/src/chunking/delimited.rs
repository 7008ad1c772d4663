//! What the delimiter splitter returns, as a function of the text.

use vstd::prelude::*;

verus! {

/// The tail `text[start..]` when it is not empty: the fragment that the end of
/// the text closes.
pub open spec fn last_fragment(text: Seq<char>, start: int) -> Seq<Seq<char>> {
    if 0 <= start < text.len() {
        seq![text.subrange(start, text.len() as int)]
    } else {
        Seq::empty()
    }
}

/// The fragments still to come when `text[start..pos]` has been read into the
/// open fragment: each delimiter closes the fragment it stands in, as that
/// fragment's last code point, and the end of the text closes what is left.
pub open spec fn fragments(text: Seq<char>, delimiters: Set<char>, start: int, pos: int) -> Seq<
    Seq<char>,
>
    decreases text.len() - pos,
{
    if pos < 0 || pos >= text.len() {
        last_fragment(text, start)
    } else if delimiters.contains(text[pos]) {
        seq![text.subrange(start, pos + 1)] + fragments(text, delimiters, pos + 1, pos + 1)
    } else {
        fragments(text, delimiters, start, pos + 1)
    }
}

/// The fragments of `text` under `delimiters`.
pub open spec fn split_delimited(text: Seq<char>, delimiters: Set<char>) -> Seq<Seq<char>> {
    fragments(text, delimiters, 0, 0)
}

/// The delimiters of the semantic splitter: the marks that end a sentence or
/// a clause, and the line break.
pub open spec fn semantic_delimiters() -> Set<char> {
    seq!['.', '!', '?', '\n', ','].to_set()
}

/// Put back together, the fragments still to come are the text from `start`.
pub proof fn lemma_fragments_lossless(
    text: Seq<char>,
    delimiters: Set<char>,
    start: int,
    pos: int,
)
    requires
        0 <= start <= pos <= text.len(),
    ensures
        fragments(text, delimiters, start, pos).flatten() == text.subrange(
            start,
            text.len() as int,
        ),
    decreases text.len() - pos,
{
    let rest = text.subrange(start, text.len() as int);
    if pos >= text.len() {
        if start < text.len() {
            seq![rest].lemma_flatten_one_element();
        } else {
            assert(Seq::<Seq<char>>::empty().flatten() =~= rest);
        }
    } else if delimiters.contains(text[pos]) {
        let head = text.subrange(start, pos + 1);
        let tail = fragments(text, delimiters, pos + 1, pos + 1);
        lemma_fragments_lossless(text, delimiters, pos + 1, pos + 1);
        assert((seq![head] + tail).drop_first() =~= tail);
        assert((seq![head] + tail).flatten() =~= head + tail.flatten());
        assert(head + text.subrange(pos + 1, text.len() as int) =~= rest);
    } else {
        lemma_fragments_lossless(text, delimiters, start, pos + 1);
    }
}

/// Losslessness: the fragments of a text, put back together in order, are the
/// text, whatever the delimiters.
pub proof fn lemma_split_delimited_lossless(text: Seq<char>, delimiters: Set<char>)
    ensures
        split_delimited(text, delimiters).flatten() == text,
{
    lemma_fragments_lossless(text, delimiters, 0, 0);
    assert(text.subrange(0, text.len() as int) =~= text);
}

/// The empty text has no fragments, whatever the delimiters.
pub proof fn lemma_split_delimited_empty(delimiters: Set<char>)
    ensures
        split_delimited(Seq::<char>::empty(), delimiters) == Seq::<Seq<char>>::empty(),
{
}

/// Every one of `parts` is cut at its first delimiter: none is empty, none
/// holds a delimiter before its last code point, and each but the last ends
/// with one.
pub open spec fn well_cut(parts: Seq<Seq<char>>, delimiters: Set<char>) -> bool {
    forall|k: int|
        0 <= k < parts.len() ==> {
            &&& (#[trigger] parts[k]).len() > 0
            &&& forall|i: int|
                0 <= i < parts[k].len() - 1 ==> !delimiters.contains(#[trigger] parts[k][i])
            &&& (k < parts.len() - 1 ==> delimiters.contains(parts[k].last()))
        }
}

/// While the open fragment holds no delimiter, the fragments still to come
/// are well cut.
pub proof fn lemma_fragments_well_cut(
    text: Seq<char>,
    delimiters: Set<char>,
    start: int,
    pos: int,
)
    requires
        0 <= start <= pos <= text.len(),
        forall|i: int| start <= i < pos ==> !delimiters.contains(#[trigger] text[i]),
    ensures
        well_cut(fragments(text, delimiters, start, pos), delimiters),
    decreases text.len() - pos,
{
    let parts = fragments(text, delimiters, start, pos);
    if pos >= text.len() {
        assert forall|k: int| 0 <= k < parts.len() implies {
            &&& (#[trigger] parts[k]).len() > 0
            &&& forall|i: int|
                0 <= i < parts[k].len() - 1 ==> !delimiters.contains(#[trigger] parts[k][i])
            &&& (k < parts.len() - 1 ==> delimiters.contains(parts[k].last()))
        } by {
            assert(parts[k] == text.subrange(start, text.len() as int));
        }
    } else if delimiters.contains(text[pos]) {
        let head = text.subrange(start, pos + 1);
        let tail = fragments(text, delimiters, pos + 1, pos + 1);
        lemma_fragments_well_cut(text, delimiters, pos + 1, pos + 1);
        assert(parts == seq![head] + tail);
        assert forall|k: int| 0 <= k < parts.len() implies {
            &&& (#[trigger] parts[k]).len() > 0
            &&& forall|i: int|
                0 <= i < parts[k].len() - 1 ==> !delimiters.contains(#[trigger] parts[k][i])
            &&& (k < parts.len() - 1 ==> delimiters.contains(parts[k].last()))
        } by {
            if k == 0 {
                assert(parts[k] == head);
                assert(head.last() == text[pos]);
            } else {
                assert(parts[k] == tail[k - 1]);
            }
        }
    } else {
        lemma_fragments_well_cut(text, delimiters, start, pos + 1);
    }
}

/// The fragments of a text are well cut: each holds at least one code point,
/// each but the last ends with a delimiter, and no delimiter stands anywhere
/// else in a fragment than at its end.
pub proof fn lemma_split_delimited_well_cut(text: Seq<char>, delimiters: Set<char>)
    ensures
        well_cut(split_delimited(text, delimiters), delimiters),
{
    lemma_fragments_well_cut(text, delimiters, 0, 0);
}

} // verus!
