use kindle_to_markdown::clippings::{entry_from_captures, parse_kindle_clippings, KindleEntry};
use kindle_to_markdown::error::KindleError;
use kindle_to_markdown::markdown::convert_to_markdown;
use kindle_to_markdown::text::is_white_space_char;

const SAMPLE_INPUT: &str = r#"The Rust Programming Language (Steve Klabnik, Carol Nichols) - Your Highlight on page 23 | Location 234-236 | Added on Friday, August 9, 2024 12:34:56 PM

Memory safety is one of Rust's main selling points.

==========
The Rust Programming Language (Steve Klabnik, Carol Nichols) - Your Note on page 24 | Location 240-240 | Added on Friday, August 9, 2024 12:36:10 PM

Great explanation of ownership here.

==========
The Rust Programming Language (Steve Klabnik, Carol Nichols) - Your Bookmark on page 30 | Location 300-300 | Added on Friday, August 9, 2024 12:40:00 PM


==========
Broken Entry Without Metadata

This should be ignored.

==========
"#;

const TWO_BOOKS: &str = r#"Book One (Author A) - Your Highlight on page 1 | Location 1-1 | Added on Monday, January 1, 2024 10:00:00 AM

Alpha

==========
Book Two (Author B) - Your Highlight on page 2 | Location 2-2 | Added on Monday, January 1, 2024 11:00:00 AM

Beta

==========
"#;

fn entry(title: &str, author: &str, kind: &str, content: &str) -> KindleEntry {
    KindleEntry {
        title: title.to_string(),
        author: author.to_string(),
        entry_type: kind.to_string(),
        location: "1-2".to_string(),
        date: "Monday, January 1, 2024 10:00:00 AM".to_string(),
        content: content.to_string(),
    }
}

#[test]
fn parses_supported_entry_types_and_skips_invalid_chunks() {
    let entries = parse_kindle_clippings(SAMPLE_INPUT).expect("sample input should parse");

    assert_eq!(entries.len(), 3);
    assert_eq!(entries[0].entry_type, "Highlight");
    assert_eq!(entries[1].entry_type, "Note");
    assert_eq!(entries[2].entry_type, "Bookmark");
    assert_eq!(entries[0].location, "234-236");
    assert_eq!(entries[1].content, "Great explanation of ownership here.");
    assert!(entries[2].content.is_empty());
}

#[test]
fn renders_grouped_markdown_with_metadata() {
    let entries = parse_kindle_clippings(SAMPLE_INPUT).expect("sample input should parse");
    let markdown = convert_to_markdown(&entries);

    assert!(markdown.contains("# The Rust Programming Language by Steve Klabnik, Carol Nichols"));
    assert!(markdown.contains("> Memory safety is one of Rust's main selling points."));
    assert!(markdown.contains("**Note:** Great explanation of ownership here."));
    assert!(markdown.contains("**Bookmark** at Location: 300-300"));
    assert!(markdown.contains("*Location: 234-236 | Added: Friday, August 9, 2024 12:34:56 PM*"));
}

#[test]
fn separates_books_with_markdown_rule() {
    let entries = parse_kindle_clippings(TWO_BOOKS).expect("input should parse");
    let markdown = convert_to_markdown(&entries);

    assert!(markdown.contains("# Book One by Author A"));
    assert!(markdown.contains("\n---\n\n# Book Two by Author B"));
}

#[test]
fn parses_every_field_of_a_header() {
    let entries = parse_kindle_clippings(SAMPLE_INPUT).expect("sample input should parse");
    let first = &entries[0];
    assert_eq!(first.title, "The Rust Programming Language");
    assert_eq!(first.author, "Steve Klabnik, Carol Nichols");
    assert_eq!(first.date, "Friday, August 9, 2024 12:34:56 PM");
    assert_eq!(first.content, "Memory safety is one of Rust's main selling points.");
}

#[test]
fn parses_header_without_page_number() {
    let input = "Dune (Frank Herbert) - Your Highlight Location 10-12 | Added on Sunday, May 5, 2024 9:00:00 AM\n\nFear is the mind-killer.\n==========\n";
    let entries = parse_kindle_clippings(input).expect("input should parse");
    assert_eq!(entries.len(), 1);
    assert_eq!(entries[0].title, "Dune");
    assert_eq!(entries[0].location, "10-12");
    assert_eq!(entries[0].content, "Fear is the mind-killer.");
}

#[test]
fn parses_windows_line_endings_and_multiline_content() {
    let input = "Dune (Frank Herbert) - Your Note on page 3 | Location 40 | Added on Sunday, May 5, 2024 9:00:00 AM\r\n\r\nFirst line\r\nSecond line\r\n==========\r\n";
    let entries = parse_kindle_clippings(input).expect("input should parse");
    assert_eq!(entries.len(), 1);
    assert_eq!(entries[0].location, "40");
    assert_eq!(entries[0].date, "Sunday, May 5, 2024 9:00:00 AM");
    assert_eq!(entries[0].content, "First line\nSecond line");
}

#[test]
fn empty_input_has_no_entries() {
    assert!(parse_kindle_clippings("").expect("empty input should parse").is_empty());
    assert!(parse_kindle_clippings("==========\n\n==========").expect("blank clippings should parse").is_empty());
}

#[test]
fn parsing_joined_files_concatenates_their_entries() {
    let joined = format!("{}=========={}", TWO_BOOKS.trim_end_matches("==========\n"), SAMPLE_INPUT);
    let first = parse_kindle_clippings(TWO_BOOKS.trim_end_matches("==========\n")).expect("first part should parse");
    let second = parse_kindle_clippings(SAMPLE_INPUT).expect("second part should parse");
    let all = parse_kindle_clippings(&joined).expect("joined input should parse");
    let mut expected = first.clone();
    expected.extend(second);
    assert_eq!(all, expected);
}

#[test]
fn entry_from_captures_needs_all_groups() {
    let groups = vec![
        Some("whole".to_string()),
        Some("Title".to_string()),
        Some("Author".to_string()),
        Some("Note".to_string()),
        Some(" 5-6 ".to_string()),
        Some(" today ".to_string()),
    ];
    let e = entry_from_captures(&groups, "text".to_string()).expect("all groups are present");
    assert_eq!(e.title, "Title");
    assert_eq!(e.author, "Author");
    assert_eq!(e.entry_type, "Note");
    assert_eq!(e.location, "5-6");
    assert_eq!(e.date, "today");
    assert_eq!(e.content, "text");

    let mut missing = groups.clone();
    missing[4] = None;
    assert_eq!(entry_from_captures(&missing, "text".to_string()), None);
    assert_eq!(entry_from_captures(&groups[..5], "text".to_string()), None);
}

#[test]
fn markdown_of_each_entry_kind() {
    let entries = vec![
        entry("T", "A", "Highlight", "quote"),
        entry("T", "A", "Note", "thought"),
        entry("T", "A", "Bookmark", ""),
        entry("T", "A", "Other", "ignored"),
    ];
    let expected = "# T by A\n\n> quote\n\n*Location: 1-2 | Added: Monday, January 1, 2024 10:00:00 AM*\n\n**Note:** thought\n\n*Location: 1-2 | Added: Monday, January 1, 2024 10:00:00 AM*\n\n**Bookmark** at Location: 1-2\n\n*Added: Monday, January 1, 2024 10:00:00 AM*\n\n";
    assert_eq!(convert_to_markdown(&entries), expected);
    assert_eq!(convert_to_markdown(&[]), "");
}

#[test]
fn markdown_of_two_books_is_their_documents_around_a_rule() {
    let a = vec![entry("One", "A", "Highlight", "x")];
    let b = vec![entry("Two", "B", "Note", "y")];
    let mut both = a.clone();
    both.extend(b.clone());
    assert_eq!(
        convert_to_markdown(&both),
        format!("{}\n---\n\n{}", convert_to_markdown(&a), convert_to_markdown(&b))
    );
}

#[test]
fn white_space_matches_the_standard_library() {
    for c in (0u32..=0x10FFFF).filter_map(char::from_u32) {
        assert_eq!(is_white_space_char(c), c.is_whitespace(), "{:?}", c);
    }
}

#[test]
fn invalid_pattern_error_has_a_message() {
    assert_eq!(
        KindleError::InvalidHeaderPattern.message(),
        "the clipping header pattern is invalid"
    );
}

#[test]
fn readme_example_renders_as_documented() {
    let input = "Clean Code (Robert C. Martin) - Your Highlight on Location 1234-1237 | Added on Saturday, August 10, 2024 9:45:00 AM\n\nFunctions should do one thing. They should do it well. They should do it only.\n\n==========\n";
    let entries = parse_kindle_clippings(input).expect("input should parse");
    let markdown = convert_to_markdown(&entries);
    assert_eq!(
        markdown.trim_end(),
        "# Clean Code by Robert C. Martin\n\n> Functions should do one thing. They should do it well. They should do it only.\n\n*Location: 1234-1237 | Added: Saturday, August 10, 2024 9:45:00 AM*"
    );
}

#[test]
fn every_line_of_a_highlight_is_quoted() {
    let mut e = entry("T", "A", "Highlight", "one\ntwo");
    e.location = "1".to_string();
    e.date = "D".to_string();
    assert_eq!(
        convert_to_markdown(&[e.clone()]),
        "# T by A\n\n> one\n> two\n\n*Location: 1 | Added: D*\n\n"
    );
    e.content = "one\n\nthree".to_string();
    assert_eq!(
        convert_to_markdown(&[e.clone()]),
        "# T by A\n\n> one\n> \n> three\n\n*Location: 1 | Added: D*\n\n"
    );
    e.content = String::new();
    assert_eq!(convert_to_markdown(&[e]), "# T by A\n\n> \n\n*Location: 1 | Added: D*\n\n");
}

#[test]
fn notes_keep_their_lines_unquoted() {
    let mut e = entry("T", "A", "Note", "one\ntwo");
    e.location = "1".to_string();
    e.date = "D".to_string();
    assert_eq!(
        convert_to_markdown(&[e]),
        "# T by A\n\n**Note:** one\ntwo\n\n*Location: 1 | Added: D*\n\n"
    );
}

#[test]
fn parses_two_line_kindle_headers() {
    let input = "Book (Auth)\n- Your Highlight on page 3 | Location 10-12 | Added on Monday, January 1, 2024 10:00:00 AM\n\nText\n==========\n";
    let entries = parse_kindle_clippings(input).expect("input should parse");
    assert_eq!(
        entries,
        vec![KindleEntry {
            title: "Book".to_string(),
            author: "Auth".to_string(),
            entry_type: "Highlight".to_string(),
            location: "10-12".to_string(),
            date: "Monday, January 1, 2024 10:00:00 AM".to_string(),
            content: "Text".to_string(),
        }]
    );
}

#[test]
fn parses_two_line_headers_with_windows_line_endings() {
    let input = "\u{feff}Dune (Frank Herbert)\r\n- Your Note on Location 40 | Added on Sunday, May 5, 2024 9:00:00 AM\r\n\r\nFirst line\r\nSecond line\r\n==========\r\nDune (Frank Herbert)\r\n- Your Bookmark on page 7 | Location 99 | Added on Sunday, May 5, 2024 9:05:00 AM\r\n\r\n\r\n==========\r\n";
    let entries = parse_kindle_clippings(input).expect("input should parse");
    assert_eq!(entries.len(), 2);
    assert_eq!(entries[0].entry_type, "Note");
    assert_eq!(entries[0].location, "40");
    assert_eq!(entries[0].content, "First line\nSecond line");
    assert_eq!(entries[1].entry_type, "Bookmark");
    assert_eq!(entries[1].location, "99");
    assert_eq!(entries[1].content, "");
}

#[test]
fn one_line_header_keeps_a_text_that_starts_like_a_header() {
    let input = "Dune (Frank Herbert) - Your Note on page 1 | Location 5 | Added on Sunday, May 5, 2024 9:00:00 AM\n- Your move, Paul.\n==========\n";
    let entries = parse_kindle_clippings(input).expect("input should parse");
    assert_eq!(entries.len(), 1);
    assert_eq!(entries[0].date, "Sunday, May 5, 2024 9:00:00 AM");
    assert_eq!(entries[0].content, "- Your move, Paul.");
}
