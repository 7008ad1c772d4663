//! What the section splitter returns, as a function of the text.
//!
//! A section ends where a header begins, where a horizontal rule begins, and
//! after a line break that another line break follows. The line of a
//! horizontal rule belongs to no section: it is dropped, up to its line break.

use vstd::prelude::*;
use vstd::seq_lib::lemma_flatten_concat;

verus! {

/// Whether `pos` is the first position of a line.
pub open spec fn at_line_start(text: Seq<char>, pos: int) -> bool {
    pos == 0 || (0 < pos <= text.len() && text[pos - 1] == '\n')
}

/// How many times `symbol` stands in a row from `pos` on.
pub open spec fn run_len(text: Seq<char>, symbol: char, pos: int) -> nat
    decreases text.len() - pos,
{
    if 0 <= pos < text.len() && text[pos] == symbol {
        1 + run_len(text, symbol, pos + 1)
    } else {
        0
    }
}

/// How many code points stand from `pos` on before the next line break, or
/// before the end of the text where no line break follows.
pub open spec fn rest_of_line(text: Seq<char>, pos: int) -> nat
    decreases text.len() - pos,
{
    if 0 <= pos < text.len() && text[pos] != '\n' {
        1 + rest_of_line(text, pos + 1)
    } else {
        0
    }
}

/// A header begins at `pos`: a line that starts with one to six `#`. Nothing
/// is asked of what follows them but that it is no seventh `#`.
pub open spec fn header_at(text: Seq<char>, pos: int) -> bool {
    &&& 0 <= pos < text.len()
    &&& at_line_start(text, pos)
    &&& text[pos] == '#'
    &&& run_len(text, '#', pos) <= 6
}

/// The run of the symbol at `pos` is a rule's: three or more of it, and then
/// a line break, a space or the end of the text.
pub open spec fn clean_run(text: Seq<char>, pos: int) -> bool {
    let after = pos + run_len(text, text[pos], pos);
    &&& run_len(text, text[pos], pos) >= 3
    &&& (after >= text.len() || text[after] == '\n' || text[after] == ' ')
}

/// A horizontal rule begins at `pos`: a line that starts with a clean run of
/// `-` or of `*`.
pub open spec fn rule_at(text: Seq<char>, pos: int) -> bool {
    &&& 0 <= pos < text.len()
    &&& at_line_start(text, pos)
    &&& (text[pos] == '-' || text[pos] == '*')
    &&& clean_run(text, pos)
}

/// Where the line of the rule that begins at `pos` ends: at its line break,
/// or at the end of the text.
pub open spec fn rule_end(text: Seq<char>, pos: int) -> int {
    pos + 1 + rest_of_line(text, pos + 1)
}

/// A blank line follows the line break at `pos`.
pub open spec fn blank_line_at(text: Seq<char>, pos: int) -> bool {
    0 <= pos && pos + 1 < text.len() && text[pos] == '\n' && text[pos + 1] == '\n'
}

/// The section `text[start..end]` when it is not empty.
pub open spec fn section(text: Seq<char>, start: int, end: int) -> Seq<Seq<char>> {
    if 0 <= start < end <= text.len() {
        seq![text.subrange(start, end)]
    } else {
        Seq::empty()
    }
}

/// The sections still to come when `text[start..pos]` has been read into the
/// open section.
pub open spec fn scan(text: Seq<char>, start: int, pos: int) -> Seq<Seq<char>>
    decreases text.len() - pos,
    via scan_decreases
{
    if pos < 0 || pos >= text.len() {
        section(text, start, text.len() as int)
    } else if rule_at(text, pos) {
        section(text, start, pos) + scan(text, rule_end(text, pos), rule_end(text, pos))
    } else if header_at(text, pos) {
        section(text, start, pos) + scan(text, pos, pos + 1)
    } else if blank_line_at(text, pos) {
        section(text, start, pos + 1) + scan(text, pos + 1, pos + 1)
    } else {
        scan(text, start, pos + 1)
    }
}

#[via_fn]
proof fn scan_decreases(text: Seq<char>, start: int, pos: int) {
    if 0 <= pos < text.len() && rule_at(text, pos) {
        lemma_rest_of_line(text, pos + 1);
    }
}

/// The sections of `text`. A text in which the scan finds none, the empty
/// text among them, is its own single section.
pub open spec fn sections(text: Seq<char>) -> Seq<Seq<char>> {
    let found = scan(text, 0, 0);
    if found.len() == 0 {
        seq![text]
    } else {
        found
    }
}

/// A run ends inside the text, holds its symbol throughout, and stops at the
/// first code point that is not its symbol.
pub proof fn lemma_run_len(text: Seq<char>, symbol: char, pos: int)
    requires
        0 <= pos <= text.len(),
    ensures
        pos + run_len(text, symbol, pos) <= text.len(),
        forall|i: int| pos <= i < pos + run_len(text, symbol, pos) ==> text[i] == symbol,
        pos + run_len(text, symbol, pos) < text.len() ==> text[pos + run_len(text, symbol, pos)]
            != symbol,
    decreases text.len() - pos,
{
    if pos < text.len() && text[pos] == symbol {
        lemma_run_len(text, symbol, pos + 1);
    }
}

/// The rest of a line ends inside the text, holds no line break, and stops
/// at the first line break.
pub proof fn lemma_rest_of_line(text: Seq<char>, pos: int)
    requires
        0 <= pos <= text.len(),
    ensures
        pos + rest_of_line(text, pos) <= text.len(),
        forall|i: int| pos <= i < pos + rest_of_line(text, pos) ==> text[i] != '\n',
        pos + rest_of_line(text, pos) < text.len() ==> text[pos + rest_of_line(text, pos)]
            == '\n',
    decreases text.len() - pos,
{
    if pos < text.len() && text[pos] != '\n' {
        lemma_rest_of_line(text, pos + 1);
    }
}

/// Inside a run of `#`, past its first position, nothing ends or begins a
/// section: the scan reads on to the end of the run.
pub proof fn lemma_scan_inside_hashes(text: Seq<char>, start: int, pos: int, n: int)
    requires
        0 <= pos,
        1 <= n,
        pos + n <= text.len(),
        forall|i: int| pos <= i < pos + n ==> text[i] == '#',
    ensures
        scan(text, start, pos + 1) == scan(text, start, pos + n),
    decreases n,
{
    if n > 1 {
        lemma_scan_inside_hashes(text, start, pos, n - 1);
        let at = pos + n - 1;
        assert(text[at - 1] == '#');
        assert(!at_line_start(text, at));
        assert(scan(text, start, at) == scan(text, start, at + 1));
    }
}

/// The text from `pos` on without the lines of its horizontal rules: what of
/// it the sections keep.
pub open spec fn without_rules(text: Seq<char>, pos: int) -> Seq<char>
    decreases text.len() - pos,
    via without_rules_decreases
{
    if pos < 0 || pos >= text.len() {
        Seq::empty()
    } else if rule_at(text, pos) {
        without_rules(text, rule_end(text, pos))
    } else {
        seq![text[pos]] + without_rules(text, pos + 1)
    }
}

#[via_fn]
proof fn without_rules_decreases(text: Seq<char>, pos: int) {
    if 0 <= pos < text.len() && rule_at(text, pos) {
        lemma_rest_of_line(text, pos + 1);
    }
}

/// Position `pos` parts two sections: a rule begins there, a blank line
/// follows the line break there, or a header begins there after other text.
pub open spec fn boundary_at(text: Seq<char>, pos: int) -> bool {
    rule_at(text, pos) || blank_line_at(text, pos) || (pos > 0 && header_at(text, pos))
}

/// Put back together, the sections still to come are the open section and
/// then the rest of the text without its rule lines.
pub proof fn lemma_scan_keeps(text: Seq<char>, start: int, pos: int)
    requires
        0 <= start <= pos <= text.len(),
    ensures
        scan(text, start, pos).flatten() == text.subrange(start, pos) + without_rules(text, pos),
    decreases text.len() - pos,
{
    let open = text.subrange(start, pos);
    if pos >= text.len() {
        lemma_section_flatten(text, start, pos);
        assert(open =~= open + without_rules(text, pos));
    } else if rule_at(text, pos) {
        let end = rule_end(text, pos);
        lemma_rest_of_line(text, pos + 1);
        lemma_scan_keeps(text, end, end);
        lemma_section_flatten(text, start, pos);
        lemma_flatten_concat(section(text, start, pos), scan(text, end, end));
        assert(text.subrange(end, end) + without_rules(text, end) =~= without_rules(text, end));
    } else if header_at(text, pos) {
        lemma_scan_keeps(text, pos, pos + 1);
        lemma_section_flatten(text, start, pos);
        lemma_flatten_concat(section(text, start, pos), scan(text, pos, pos + 1));
        assert(open + (text.subrange(pos, pos + 1) + without_rules(text, pos + 1)) =~= open
            + without_rules(text, pos));
    } else if blank_line_at(text, pos) {
        lemma_scan_keeps(text, pos + 1, pos + 1);
        lemma_section_flatten(text, start, pos + 1);
        lemma_flatten_concat(section(text, start, pos + 1), scan(text, pos + 1, pos + 1));
        assert(text.subrange(start, pos + 1) + (text.subrange(pos + 1, pos + 1) + without_rules(
            text,
            pos + 1,
        )) =~= open + without_rules(text, pos));
    } else {
        lemma_scan_keeps(text, start, pos + 1);
        assert(text.subrange(start, pos + 1) + without_rules(text, pos + 1) =~= open
            + without_rules(text, pos));
    }
}

/// A closed section, put back together, is the text between its ends.
pub proof fn lemma_section_flatten(text: Seq<char>, start: int, end: int)
    requires
        0 <= start <= end <= text.len(),
    ensures
        section(text, start, end).flatten() == text.subrange(start, end),
{
    if start < end {
        section(text, start, end).lemma_flatten_one_element();
    } else {
        assert(section(text, start, end).flatten() =~= text.subrange(start, end));
    }
}

/// Without a rule, nothing is dropped.
pub proof fn lemma_without_rules_whole(text: Seq<char>, pos: int)
    requires
        0 <= pos <= text.len(),
        forall|p: int| pos <= p < text.len() ==> !#[trigger] rule_at(text, p),
    ensures
        without_rules(text, pos) == text.subrange(pos, text.len() as int),
    decreases text.len() - pos,
{
    if pos < text.len() {
        lemma_without_rules_whole(text, pos + 1);
        assert(!rule_at(text, pos));
        assert(seq![text[pos]] + text.subrange(pos + 1, text.len() as int) =~= text.subrange(
            pos,
            text.len() as int,
        ));
    } else {
        assert(without_rules(text, pos) =~= text.subrange(pos, text.len() as int));
    }
}

/// The sections lose the rule lines and nothing else: put back together in
/// order, they are the text without its rule lines. The one exception is a
/// text of which nothing but rule lines would be left: it comes back whole.
pub proof fn lemma_sections_drop_rule_lines(text: Seq<char>)
    ensures
        sections(text).flatten() == if without_rules(text, 0).len() == 0 {
            text
        } else {
            without_rules(text, 0)
        },
{
    lemma_scan_keeps(text, 0, 0);
    assert(text.subrange(0, 0) + without_rules(text, 0) =~= without_rules(text, 0));
    let found = scan(text, 0, 0);
    if found.len() == 0 {
        seq![text].lemma_flatten_one_element();
        assert(found.flatten() =~= Seq::<char>::empty());
    } else if without_rules(text, 0).len() == 0 {
        lemma_scan_nonempty(text, 0, 0);
        found.lemma_flatten_length_ge_single_element_length(0);
        found.lemma_flatten_and_flatten_alt_are_equivalent();
    }
}

/// None of `parts` is empty.
pub open spec fn all_nonempty(parts: Seq<Seq<char>>) -> bool {
    forall|k: int| 0 <= k < parts.len() ==> (#[trigger] parts[k]).len() > 0
}

/// A closed section followed by sections that are not empty: none is empty.
proof fn lemma_nonempty_after_section(text: Seq<char>, start: int, end: int, tail: Seq<Seq<char>>)
    requires
        all_nonempty(tail),
    ensures
        all_nonempty(section(text, start, end) + tail),
{
    let head = section(text, start, end);
    assert forall|k: int| 0 <= k < (head + tail).len() implies (#[trigger] (head + tail)[k]).len()
        > 0 by {
        if k >= head.len() {
            assert((head + tail)[k] == tail[k - head.len()]);
        } else {
            assert((head + tail)[k] == text.subrange(start, end));
        }
    }
}

/// Every section that the scan closes holds at least one code point.
pub proof fn lemma_scan_nonempty(text: Seq<char>, start: int, pos: int)
    requires
        0 <= start <= pos <= text.len(),
    ensures
        all_nonempty(scan(text, start, pos)),
    decreases text.len() - pos,
{
    if pos >= text.len() {
        lemma_nonempty_after_section(text, start, text.len() as int, Seq::empty());
        assert(section(text, start, text.len() as int) + Seq::<Seq<char>>::empty() =~= scan(
            text,
            start,
            pos,
        ));
    } else if rule_at(text, pos) {
        let end = rule_end(text, pos);
        lemma_rest_of_line(text, pos + 1);
        lemma_scan_nonempty(text, end, end);
        lemma_nonempty_after_section(text, start, pos, scan(text, end, end));
    } else if header_at(text, pos) {
        lemma_scan_nonempty(text, pos, pos + 1);
        lemma_nonempty_after_section(text, start, pos, scan(text, pos, pos + 1));
    } else if blank_line_at(text, pos) {
        lemma_scan_nonempty(text, pos + 1, pos + 1);
        lemma_nonempty_after_section(text, start, pos + 1, scan(text, pos + 1, pos + 1));
    } else {
        lemma_scan_nonempty(text, start, pos + 1);
    }
}

/// Round trip: the sections of a text without a horizontal rule, put back
/// together in order, are the text.
pub proof fn lemma_sections_lossless_without_rules(text: Seq<char>)
    requires
        forall|pos: int| !#[trigger] rule_at(text, pos),
    ensures
        sections(text).flatten() == text,
{
    lemma_sections_drop_rule_lines(text);
    lemma_without_rules_whole(text, 0);
    assert(text.subrange(0, text.len() as int) =~= text);
}

/// While no position parts two sections, the scan closes nothing before the
/// end of the text.
pub proof fn lemma_scan_unbroken(text: Seq<char>, pos: int)
    requires
        0 <= pos <= text.len(),
        forall|p: int| !#[trigger] boundary_at(text, p),
    ensures
        scan(text, 0, pos) == section(text, 0, text.len() as int),
    decreases text.len() - pos,
{
    if pos < text.len() {
        assert(!boundary_at(text, pos));
        if header_at(text, pos) {
            lemma_scan_unbroken(text, pos + 1);
            assert(section(text, 0, pos) + scan(text, 0, pos + 1) =~= scan(text, 0, pos + 1));
        } else {
            lemma_scan_unbroken(text, pos + 1);
        }
    }
}

/// Fallback: a text in which no position parts two sections is its own
/// single section.
pub proof fn lemma_sections_fallback(text: Seq<char>)
    requires
        forall|pos: int| !#[trigger] boundary_at(text, pos),
    ensures
        sections(text) == seq![text],
{
    lemma_scan_unbroken(text, 0);
    assert(text.subrange(0, text.len() as int) =~= text);
}

/// A run of seven or more `#` begins no header, wherever it stands: the scan
/// reads all of it into the open section.
pub proof fn lemma_long_hash_run_is_content(text: Seq<char>, start: int, pos: int)
    requires
        0 <= pos < text.len(),
        run_len(text, '#', pos) >= 7,
    ensures
        forall|p: int| pos <= p < pos + run_len(text, '#', pos) ==> !#[trigger] header_at(text, p),
        scan(text, start, pos) == scan(text, start, pos + run_len(text, '#', pos)),
{
    let n = run_len(text, '#', pos) as int;
    lemma_run_len(text, '#', pos);
    lemma_scan_inside_hashes(text, start, pos, n);
    assert forall|p: int| pos <= p < pos + n implies !#[trigger] header_at(text, p) by {
        if p > pos {
            assert(text[p - 1] == '#');
        }
    }
    assert(!rule_at(text, pos));
    assert(!blank_line_at(text, pos));
}

} // verus!
