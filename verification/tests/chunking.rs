use semantic_search::chunking::chunk::{parse_sections, parse_semantic, parse_with_delimiters};
use semantic_search::chunking::cursor::Cursor;
use semantic_search::chunking::text::{text_of, to_chars};
use semantic_search::types::models::Document;

const SEMANTIC: [char; 5] = ['.', '!', '?', '\n', ','];

#[test]
fn test_parse_semantic() {
    let content = "This is a test! Next element, third case\nFinal";
    assert_eq!(
        parse_semantic(content),
        ["This is a test!", " Next element,", " third case\n", "Final"]
    );
}

#[test]
fn test_parse_sections() {
    let content = "### Title\nContent\n##Heading\n";
    assert_eq!(
        parse_sections(content),
        ["### Title\nContent\n", "##Heading\n"]
    );
}

#[test]
fn delimited_example_with_explicit_delimiters() {
    let content = "This is a test! Next element, third case\nFinal";
    assert_eq!(
        parse_with_delimiters(content, &SEMANTIC),
        ["This is a test!", " Next element,", " third case\n", "Final"]
    );
}

#[test]
fn delimited_empty_text_has_no_fragments() {
    assert_eq!(parse_with_delimiters("", &['.']), Vec::<String>::new());
    assert_eq!(parse_with_delimiters("", &[]), Vec::<String>::new());
    assert_eq!(parse_with_delimiters("", &SEMANTIC), Vec::<String>::new());
    assert_eq!(parse_semantic(""), Vec::<String>::new());
}

#[test]
fn delimited_text_without_delimiter_is_one_fragment() {
    assert_eq!(parse_with_delimiters("abc", &['.']), ["abc"]);
    assert_eq!(parse_with_delimiters("a.b", &[]), ["a.b"]);
}

#[test]
fn delimited_single_delimiter_is_its_own_fragment() {
    assert_eq!(parse_with_delimiters(".", &['.']), ["."]);
    assert_eq!(parse_semantic("\n"), ["\n"]);
}

#[test]
fn delimited_consecutive_delimiters_are_not_merged() {
    assert_eq!(parse_semantic("..,"), [".", ".", ","]);
    assert_eq!(parse_semantic("Wait...what?!"), ["Wait.", ".", ".", "what?", "!"]);
}

#[test]
fn delimited_keeps_whitespace() {
    assert_eq!(parse_semantic("  a ,  b  "), ["  a ,", "  b  "]);
}

#[test]
fn delimited_text_ending_on_delimiter_has_no_empty_tail() {
    assert_eq!(parse_semantic("one. two."), ["one.", " two."]);
}

#[test]
fn delimited_is_lossless() {
    let samples = [
        "",
        "abc",
        "This is a test! Next element, third case\nFinal",
        ",,,\n\n..",
        "no delimiter at all",
        "h\u{e9}llo, w\u{f6}rld! \u{1f680} done.",
    ];
    let sets: [&[char]; 4] = [&[], &['.'], &SEMANTIC, &[' ', 'e', '\u{1f680}']];
    for text in samples {
        for set in sets {
            assert_eq!(parse_with_delimiters(text, set).concat(), text);
        }
        assert_eq!(parse_semantic(text).concat(), text);
    }
}

#[test]
fn delimited_handles_code_points_beyond_ascii() {
    assert_eq!(
        parse_semantic("h\u{e9}llo, w\u{f6}rld"),
        ["h\u{e9}llo,", " w\u{f6}rld"]
    );
    assert_eq!(
        parse_with_delimiters("a\u{3002}b\u{3002}", &['\u{3002}']),
        ["a\u{3002}", "b\u{3002}"]
    );
}

#[test]
fn delimited_repeated_delimiter_in_set_changes_nothing() {
    assert_eq!(parse_with_delimiters("a.b", &['.', '.']), ["a.", "b"]);
}

#[test]
fn sections_rule_line_is_dropped() {
    let sections = parse_sections("A\n---\nB");
    assert_eq!(sections, ["A\n", "\nB"]);
    assert_eq!(sections.len(), 2);
    for section in &sections {
        assert!(!section.contains("---"));
    }
}

#[test]
fn sections_star_rule_line_is_dropped() {
    assert_eq!(parse_sections("A\n***\nB"), ["A\n", "\nB"]);
    assert_eq!(parse_sections("A\n*****\nB"), ["A\n", "\nB"]);
}

#[test]
fn sections_rule_followed_by_space_drops_the_whole_line() {
    assert_eq!(parse_sections("top\n--- trailing words\nnext"), ["top\n", "\nnext"]);
}

#[test]
fn sections_rule_at_end_of_text() {
    assert_eq!(parse_sections("top\n---"), ["top\n"]);
}

#[test]
fn sections_text_that_is_only_a_rule_comes_back_whole() {
    assert_eq!(parse_sections("---"), ["---"]);
    assert_eq!(parse_sections("***\n"), ["\n"]);
}

#[test]
fn sections_failed_rule_is_content() {
    assert_eq!(parse_sections("--\n"), ["--\n"]);
    assert_eq!(parse_sections("---x\n"), ["---x\n"]);
    assert_eq!(parse_sections("--x--\n"), ["--x--\n"]);
    assert_eq!(parse_sections("* item\n* other\n"), ["* item\n* other\n"]);
    assert_eq!(parse_sections("-*-\n"), ["-*-\n"]);
    assert_eq!(parse_sections("a\n----*\nb"), ["a\n----*\nb"]);
}

#[test]
fn sections_rule_symbols_inside_a_line_are_content() {
    assert_eq!(parse_sections("a --- b\n"), ["a --- b\n"]);
    assert_eq!(parse_sections(" ---\n"), [" ---\n"]);
}

#[test]
fn sections_fallback_is_the_text_itself() {
    assert_eq!(parse_sections("plain text"), ["plain text"]);
    assert_eq!(parse_sections("one line\nanother line\n"), ["one line\nanother line\n"]);
    assert_eq!(parse_sections(""), [""]);
    assert_eq!(parse_sections("# Title\nbody"), ["# Title\nbody"]);
}

#[test]
fn sections_seven_hashes_are_content() {
    assert_eq!(parse_sections("#######seven\n"), ["#######seven\n"]);
    assert_eq!(
        parse_sections("intro\n####### not a header\nmore"),
        ["intro\n####### not a header\nmore"]
    );
    assert_eq!(parse_sections("intro\n#########\n"), ["intro\n#########\n"]);
}

#[test]
fn sections_six_hashes_are_a_header() {
    assert_eq!(
        parse_sections("intro\n###### six\nmore"),
        ["intro\n", "###### six\nmore"]
    );
}

#[test]
fn sections_header_needs_no_space() {
    assert_eq!(parse_sections("a\n#no-space-header"), ["a\n", "#no-space-header"]);
}

#[test]
fn sections_header_at_end_of_text() {
    assert_eq!(parse_sections("abc\n##"), ["abc\n", "##"]);
}

#[test]
fn sections_hash_inside_a_line_is_content() {
    assert_eq!(parse_sections("a # b\nc #"), ["a # b\nc #"]);
}

#[test]
fn sections_blank_line_ends_a_section() {
    assert_eq!(parse_sections("a\n\nb"), ["a\n", "\nb"]);
    assert_eq!(parse_sections("a\n\n\nb"), ["a\n", "\n", "\nb"]);
    assert_eq!(parse_sections("\n\n"), ["\n", "\n"]);
}

#[test]
fn sections_header_after_blank_line() {
    assert_eq!(
        parse_sections("# A\n\nbody\n## B\ntext"),
        ["# A\n", "\nbody\n", "## B\ntext"]
    );
}

#[test]
fn sections_round_trip_without_rules() {
    let samples = [
        "",
        "plain",
        "# A\n\nbody\n## B\ntext",
        "### Title\nContent\n##Heading\n",
        "a\n\n\n\nb\n#\n#######\n-- not a rule\n",
        "h\u{e9}llo\n\n# w\u{f6}rld \u{1f680}\n",
    ];
    for text in samples {
        assert_eq!(parse_sections(text).concat(), text);
    }
}

#[test]
fn sections_with_rules_lose_only_the_rule_lines() {
    assert_eq!(parse_sections("# A\none\n---\ntwo\n\n*** \nthree").concat(), "# A\none\n\ntwo\n\n\nthree");
}

#[test]
fn sections_handle_code_points_beyond_ascii() {
    assert_eq!(
        parse_sections("\u{e9}t\u{e9}\n# \u{1f680}\n---\nfin"),
        ["\u{e9}t\u{e9}\n", "# \u{1f680}\n", "\nfin"]
    );
}

#[test]
fn chars_and_text_are_inverse() {
    let chars = to_chars("h\u{e9}llo \u{1f680}");
    assert_eq!(chars, ['h', '\u{e9}', 'l', 'l', 'o', ' ', '\u{1f680}']);
    assert_eq!(text_of(&chars, 0, chars.len()), "h\u{e9}llo \u{1f680}");
    assert_eq!(text_of(&chars, 1, 3), "\u{e9}l");
    assert_eq!(text_of(&chars, 4, 4), "");
}

#[test]
fn document_content_is_chunked() {
    let document = Document {
        filename: String::from("notes.md"),
        content: String::from("# Notes\nFirst, second.\n"),
    };
    assert_eq!(document.filename, "notes.md");
    assert_eq!(parse_sections(&document.content), ["# Notes\nFirst, second.\n"]);
    assert_eq!(
        parse_semantic(&document.content),
        ["# Notes\n", "First,", " second.", "\n"]
    );
}

#[test]
fn cursor_looks_ahead_without_moving() {
    let chars = to_chars("--- x\nab");
    let cursor = Cursor::new(&chars);
    assert_eq!(cursor.position(), 0);
    assert_eq!(cursor.remaining(), 8);
    assert_eq!(cursor.peek(0), Some('-'));
    assert_eq!(cursor.peek(3), Some(' '));
    assert_eq!(cursor.peek(7), Some('b'));
    assert_eq!(cursor.peek(8), None);
    assert_eq!(cursor.peek(usize::MAX), None);
    assert_eq!(cursor.run_ahead('-', 6), 3);
    assert_eq!(cursor.run_ahead('-', 3), 3);
    assert_eq!(cursor.run_ahead('-', 2), 2);
    assert_eq!(cursor.run_ahead('-', 0), 0);
    assert_eq!(cursor.run_ahead('*', 6), 0);
    assert_eq!(cursor.line_ahead(), 5);
    assert_eq!(cursor.position(), 0);
}

#[test]
fn cursor_advances_over_what_was_recognised() {
    let chars = to_chars("--- x\nab");
    let mut cursor = Cursor::new(&chars);
    cursor.advance(5);
    assert_eq!(cursor.position(), 5);
    assert_eq!(cursor.remaining(), 3);
    assert_eq!(cursor.peek(0), Some('\n'));
    assert_eq!(cursor.line_ahead(), 0);
    cursor.advance(1);
    assert_eq!(cursor.line_ahead(), 2);
    assert_eq!(cursor.run_ahead('a', 6), 1);
    cursor.advance(0);
    assert_eq!(cursor.position(), 6);
    cursor.advance(2);
    assert_eq!(cursor.position(), 8);
    assert_eq!(cursor.remaining(), 0);
    assert_eq!(cursor.peek(0), None);
    assert_eq!(cursor.run_ahead('b', 6), 0);
    assert_eq!(cursor.line_ahead(), 0);
}

#[test]
fn cursor_on_empty_text() {
    let chars = to_chars("");
    let cursor = Cursor::new(&chars);
    assert_eq!(cursor.position(), 0);
    assert_eq!(cursor.remaining(), 0);
    assert_eq!(cursor.peek(0), None);
    assert_eq!(cursor.run_ahead('#', 6), 0);
    assert_eq!(cursor.line_ahead(), 0);
}

#[test]
fn cursor_counts_a_run_to_the_end_of_the_text() {
    let chars = to_chars("########");
    let cursor = Cursor::new(&chars);
    assert_eq!(cursor.run_ahead('#', 6), 6);
    assert_eq!(cursor.run_ahead('#', 100), 8);
    assert_eq!(cursor.peek(6), Some('#'));
}
