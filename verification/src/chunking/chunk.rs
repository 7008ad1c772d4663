//! The chunking strategies themselves.

use vstd::prelude::*;
use crate::chunking::cursor::Cursor;
use crate::chunking::delimited::{
    fragments, lemma_split_delimited_lossless, lemma_split_delimited_well_cut,
    semantic_delimiters, split_delimited, well_cut,
};
use crate::chunking::sections::{
    at_line_start, blank_line_at, clean_run, header_at, lemma_rest_of_line, lemma_run_len,
    lemma_scan_inside_hashes, lemma_sections_drop_rule_lines, rule_at, rule_end, scan, section,
    sections, without_rules,
};
use crate::chunking::text::{lemma_texts_push, text_of, texts, to_chars};

verus! {

/// Whether `c` is one of `delimiters`.
fn is_delimiter(c: char, delimiters: &[char]) -> (found: bool)
    ensures
        found == delimiters@.to_set().contains(c),
{
    let mut i: usize = 0;
    while i < delimiters.len()
        invariant
            i <= delimiters@.len(),
            forall|j: int| 0 <= j < i ==> delimiters@[j] != c,
        decreases delimiters@.len() - i,
    {
        if delimiters[i] == c {
            return true;
        }
        i += 1;
    }
    false
}

/// Splits `content` after every delimiter. Each fragment ends with the
/// delimiter that closed it; what follows the last delimiter is the last
/// fragment. Nothing is trimmed or merged, so the fragments in order are the
/// text again.
pub fn parse_with_delimiters(content: &str, delimiters: &[char]) -> (result: Vec<String>)
    ensures
        texts(result@) == split_delimited(content@, delimiters@.to_set()),
        texts(result@).flatten() == content@,
        well_cut(texts(result@), delimiters@.to_set()),
{
    let ghost text = content@;
    let ghost set = delimiters@.to_set();
    let mut result: Vec<String> = Vec::new();
    let mut current_chunk = String::new();
    let ghost mut start: int = 0;
    proof {
        assert(texts(result@) =~= Seq::<Seq<char>>::empty());
        assert(current_chunk@ =~= text.subrange(0, 0));
    }
    for cur_char in it: content.chars()
        invariant
            text == content@,
            set == delimiters@.to_set(),
            it.seq() == text,
            0 <= start <= it.index(),
            current_chunk@ == text.subrange(start, it.index() as int),
            texts(result@) + fragments(text, set, start, it.index() as int) == split_delimited(
                text,
                set,
            ),
    {
        let ghost pos = it.index() as int;
        current_chunk.push(cur_char);
        assert(current_chunk@ =~= text.subrange(start, pos + 1));
        if is_delimiter(cur_char, delimiters) {
            proof {
                lemma_texts_push(result@, current_chunk);
                assert(texts(result@).push(current_chunk@) + fragments(text, set, pos + 1, pos + 1)
                    =~= texts(result@) + fragments(text, set, start, pos));
                start = pos + 1;
            }
            result.push(current_chunk);
            current_chunk = String::new();
            assert(current_chunk@ =~= text.subrange(start, pos + 1));
        }
    }
    if !current_chunk.as_str().is_empty() {
        proof {
            lemma_texts_push(result@, current_chunk);
            assert(current_chunk@ =~= text.subrange(start, text.len() as int));
            assert(texts(result@).push(current_chunk@) =~= texts(result@) + fragments(
                text,
                set,
                start,
                text.len() as int,
            ));
        }
        result.push(current_chunk);
    } else {
        assert(texts(result@) + fragments(text, set, start, text.len() as int) =~= texts(
            result@,
        ));
    }
    proof {
        lemma_split_delimited_lossless(text, set);
        lemma_split_delimited_well_cut(text, set);
    }
    result
}

/// Splits `content` into sentence- and clause-like fragments: after every
/// `.`, `!`, `?`, `,` and line break.
pub fn parse_semantic(content: &str) -> (result: Vec<String>)
    ensures
        texts(result@) == split_delimited(content@, semantic_delimiters()),
        texts(result@).flatten() == content@,
        well_cut(texts(result@), semantic_delimiters()),
{
    let delimiters: [char; 5] = ['.', '!', '?', '\n', ','];
    assert(delimiters@ =~= seq!['.', '!', '?', '\n', ',']);
    parse_with_delimiters(content, delimiters.as_slice())
}

/// Tries to read a horizontal rule of `symbol` at the cursor, which stands
/// on a `symbol`. Where the run that begins there is a rule's, the cursor
/// moves to the end of the rule's line, which is its line break or the end
/// of the text. Where it is not, the cursor stays.
fn try_rule(cursor: &mut Cursor, symbol: char) -> (found: bool)
    requires
        old(cursor).wf(),
        old(cursor).pos() < old(cursor).text().len(),
        old(cursor).text()[old(cursor).pos()] == symbol,
    ensures
        final(cursor).wf(),
        final(cursor).text() == old(cursor).text(),
        found == clean_run(old(cursor).text(), old(cursor).pos()),
        final(cursor).pos() == if found {
            rule_end(old(cursor).text(), old(cursor).pos())
        } else {
            old(cursor).pos()
        },
{
    proof {
        lemma_run_len(cursor.text(), symbol, cursor.pos());
    }
    let run: usize = cursor.run_ahead(symbol, cursor.remaining());
    let clean = run >= 3 && match cursor.peek(run) {
        Some(next) => next == '\n' || next == ' ',
        None => true,
    };
    if clean {
        cursor.advance(1);
        let rest: usize = cursor.line_ahead();
        cursor.advance(rest);
    }
    clean
}

/// Closes the open section `chars[start..end]`: it joins `result`, unless
/// it is empty.
fn close_section(chars: &[char], start: usize, end: usize, result: &mut Vec<String>)
    requires
        start <= end <= chars@.len(),
    ensures
        texts(final(result)@) == texts(old(result)@) + section(chars@, start as int, end as int),
{
    if start < end {
        let closed = text_of(chars, start, end);
        proof {
            lemma_texts_push(result@, closed);
            assert(texts(result@).push(closed@) =~= texts(result@) + section(
                chars@,
                start as int,
                end as int,
            ));
        }
        result.push(closed);
    } else {
        assert(texts(result@) =~= texts(result@) + section(chars@, start as int, end as int));
    }
}

/// Splits markdown into sections. A section ends where a line begins with
/// one to six `#` (a header, which opens the next section), where a line
/// begins with a horizontal rule (three or more `-` or `*`, then a line
/// break, a space or the end of the text), and after a line break that
/// another line break follows. The line of a horizontal rule is dropped up to
/// its line break; everything else is kept as it stands. A text in which
/// nothing is found comes back whole, as its single section.
pub fn parse_sections(content: &str) -> (result: Vec<String>)
    ensures
        texts(result@) == sections(content@),
        result@.len() > 0,
        texts(result@).flatten() == if without_rules(content@, 0).len() == 0 {
            content@
        } else {
            without_rules(content@, 0)
        },
{
    let ghost text = content@;
    let chars = to_chars(content);
    let mut cursor = Cursor::new(chars.as_slice());
    let mut result: Vec<String> = Vec::new();
    let mut start: usize = 0;
    let mut line_start = true;
    proof {
        assert(texts(result@) + scan(text, 0, 0) =~= scan(text, 0, 0));
    }
    loop
        invariant
            text == content@,
            chars@ == text,
            cursor.wf(),
            cursor.text() == text,
            start <= cursor.pos() <= text.len(),
            line_start == at_line_start(text, cursor.pos()),
            texts(result@) + scan(text, start as int, cursor.pos()) == scan(text, 0, 0),
        ensures
            cursor.pos() == text.len(),
        decreases text.len() - cursor.pos(),
    {
        let pos: usize = cursor.position();
        let ch = match cursor.peek(0) {
            Some(ch) => ch,
            None => {
                break;
            },
        };
        let ghost before = texts(result@);
        if ch == '#' && line_start {
            let n: usize = cursor.run_ahead('#', 6);
            proof {
                lemma_run_len(text, '#', pos as int);
            }
            let header = match cursor.peek(n) {
                Some(next) => next != '#',
                None => true,
            };
            if header {
                assert(header_at(text, pos as int));
                close_section(chars.as_slice(), start, pos, &mut result);
                assert(texts(result@) + scan(text, pos as int, pos + 1) =~= before + scan(
                    text,
                    start as int,
                    pos as int,
                ));
                start = pos;
            } else {
                assert(!header_at(text, pos as int));
            }
            proof {
                lemma_scan_inside_hashes(text, start as int, pos as int, n as int);
            }
            cursor.advance(n);
            line_start = false;
        } else if (ch == '-' || ch == '*') && line_start {
            proof {
                lemma_rest_of_line(text, pos + 1);
            }
            if try_rule(&mut cursor, ch) {
                assert(rule_at(text, pos as int));
                close_section(chars.as_slice(), start, pos, &mut result);
                assert(texts(result@) + scan(text, cursor.pos(), cursor.pos()) =~= before + scan(
                    text,
                    start as int,
                    pos as int,
                ));
                start = cursor.position();
            } else {
                cursor.advance(1);
            }
            line_start = false;
        } else if ch == '\n' {
            cursor.advance(1);
            line_start = true;
            let blank = match cursor.peek(0) {
                Some(next) => next == '\n',
                None => false,
            };
            if blank {
                assert(blank_line_at(text, pos as int));
                let next: usize = cursor.position();
                close_section(chars.as_slice(), start, next, &mut result);
                assert(texts(result@) + scan(text, next as int, next as int) =~= before + scan(
                    text,
                    start as int,
                    pos as int,
                ));
                start = next;
            }
        } else {
            cursor.advance(1);
            line_start = false;
        }
    }
    let pos: usize = cursor.position();
    close_section(chars.as_slice(), start, pos, &mut result);
    if result.len() == 0 {
        let whole = content.to_owned();
        proof {
            lemma_texts_push(result@, whole);
            assert(texts(result@).push(whole@) =~= seq![text]);
        }
        result.push(whole);
    }
    proof {
        lemma_sections_drop_rule_lines(text);
    }
    result
}

} // verus!
