use kindle_to_markdown::clippings::parse_kindle_clippings;
use kindle_to_markdown::export::{
    containing_folder_of, markdown_files_by_book, slug_of_lowered, markdown_output_files,
    raw_destination_for_output, resolve_output_target, single_markdown_file,
    slugify_book_title, OutputLayout, OutputTarget,
};
use kindle_to_markdown::markdown::convert_to_markdown;
use std::path::PathBuf;

const SAMPLE_INPUT: &str = r#"The Rust Programming Language (Steve Klabnik, Carol Nichols) - Your Highlight on page 23 | Location 234-236 | Added on Friday, August 9, 2024 12:34:56 PM

Memory safety is one of Rust's main selling points.

==========
The Rust Programming Language (Steve Klabnik, Carol Nichols) - Your Note on page 24 | Location 240-240 | Added on Friday, August 9, 2024 12:36:10 PM

Great explanation of ownership here.

==========
The Rust Programming Language (Steve Klabnik, Carol Nichols) - Your Bookmark on page 30 | Location 300-300 | Added on Friday, August 9, 2024 12:40:00 PM


==========
Broken Entry Without Metadata

This should be ignored.

==========
"#;

const TWO_BOOKS: &str = r#"Book One (Author A) - Your Highlight on page 1 | Location 1-1 | Added on Monday, January 1, 2024 10:00:00 AM

Alpha

==========
Book Two (Author B) - Your Highlight on page 2 | Location 2-2 | Added on Monday, January 1, 2024 11:00:00 AM

Beta

==========
"#;

#[test]
fn writes_single_markdown_file_to_output_directory() {
    let dir = "/tmp/export";
    let entries = parse_kindle_clippings(SAMPLE_INPUT).expect("sample input should parse");

    let written = markdown_output_files(&entries, dir, OutputLayout::SingleFile);

    assert_eq!(written.len(), 1);
    assert_eq!(PathBuf::from(&written[0].path), PathBuf::from(dir).join("clippings.md"));
    assert!(written[0]
        .content
        .contains("# The Rust Programming Language by Steve Klabnik, Carol Nichols"));
}

#[test]
fn writes_one_markdown_file_per_book() {
    let dir = "/tmp/export";
    let entries = parse_kindle_clippings(TWO_BOOKS).expect("input should parse");

    let written = markdown_output_files(&entries, dir, OutputLayout::ByBook);

    assert_eq!(written.len(), 2);
    let paths: Vec<PathBuf> = written.iter().map(|f| PathBuf::from(&f.path)).collect();
    assert!(paths.contains(&PathBuf::from(dir).join("book-one-author-a.md")));
    assert!(paths.contains(&PathBuf::from(dir).join("book-two-author-b.md")));

    let first = &written[0].content;
    assert!(first.contains("# Book One by Author A"));
    assert!(!first.contains("Book Two"));
}

#[test]
fn book_files_joined_with_rules_are_the_single_file() {
    let entries = parse_kindle_clippings(TWO_BOOKS).expect("input should parse");
    let books = markdown_files_by_book(&entries, "out");
    let single = single_markdown_file(&entries, "out");
    let joined: Vec<String> = books.into_iter().map(|f| f.content).collect();
    assert_eq!(single.content, joined.join("\n---\n\n"));
    assert_eq!(single.content, convert_to_markdown(&entries));
}

#[test]
fn entries_of_a_book_split_by_another_share_one_file() {
    let mut entries = parse_kindle_clippings(TWO_BOOKS).expect("input should parse");
    let mut again = entries[0].clone();
    again.content = "Gamma".to_string();
    entries.push(again.clone());
    let files = markdown_files_by_book(&entries, "out");
    assert_eq!(files.len(), 2);
    assert_eq!(files[0].path, "out/book-one-author-a.md");
    assert_eq!(files[1].path, "out/book-two-author-b.md");
    assert_eq!(files[0].content, convert_to_markdown(&[entries[0].clone(), again]));
    assert_eq!(files[1].content, convert_to_markdown(&[entries[1].clone()]));
    assert!(files[0].content.contains("> Alpha"));
    assert!(files[0].content.contains("> Gamma"));
    assert!(!files[0].content.contains("---"));
}

#[test]
fn same_title_by_another_author_is_another_book() {
    let mut entries = parse_kindle_clippings(TWO_BOOKS).expect("input should parse");
    let mut other = entries[0].clone();
    other.author = "Author C".to_string();
    entries.push(other);
    let files = markdown_files_by_book(&entries, "out");
    assert_eq!(files.len(), 3);
    assert_eq!(files[2].path, "out/book-one-author-c.md");
}

#[test]
fn slugs_are_lowercase_words_joined_by_dashes() {
    assert_eq!(slugify_book_title("Book One", "Author A"), "book-one-author-a");
    assert_eq!(slugify_book_title("  The Rust  Book!", "(Steve)"), "the-rust-book-steve");
    assert_eq!(slugify_book_title("¿¿¿", "!!!"), "book");
    assert_eq!(slugify_book_title("Café", "Zoë"), "caf-zo");
    assert_eq!(slugify_book_title("KELVIN\u{212A}", ""), "kelvink");
}

#[test]
fn slug_of_lowered_text_keeps_letters_and_digits() {
    assert_eq!(slug_of_lowered("book one author a"), "book-one-author-a");
    assert_eq!(slug_of_lowered("--a--b--"), "a-b");
    assert_eq!(slug_of_lowered("Mixed Case"), "Mixed-Case");
    assert_eq!(slug_of_lowered(""), "book");
    assert_eq!(slug_of_lowered("é!"), "book");
}

#[test]
fn slugging_a_slug_gives_it_back() {
    for (title, author) in [("Book One", "Author A"), ("  The Rust  Book!", "(Steve)"), ("¿¿¿", "!!!")] {
        let slug = slugify_book_title(title, author);
        assert_eq!(slugify_book_title(&slug, ""), slug);
    }
}

#[test]
fn explicit_output_is_a_file_for_single_and_a_folder_by_book() {
    assert_eq!(
        resolve_output_target(OutputLayout::SingleFile, Some("notes/out.md")),
        OutputTarget::File("notes/out.md".to_string())
    );
    assert_eq!(
        resolve_output_target(OutputLayout::ByBook, Some("notes")),
        OutputTarget::Directory("notes".to_string())
    );
    assert_eq!(
        resolve_output_target(OutputLayout::ByBook, None),
        OutputTarget::Directory("clippings".to_string())
    );
}

#[test]
fn raw_copy_keeps_its_name_next_to_the_export() {
    let input = "/tmp/My Clippings.txt";
    assert_eq!(
        raw_destination_for_output(input, &OutputTarget::Directory("notes".to_string())),
        "notes/My Clippings.txt"
    );
    assert_eq!(
        raw_destination_for_output(input, &OutputTarget::File("my-notes/highlights.md".to_string())),
        "my-notes/My Clippings.txt"
    );
    assert_eq!(
        raw_destination_for_output(input, &OutputTarget::File("highlights.md".to_string())),
        "My Clippings.txt"
    );
    assert_eq!(
        raw_destination_for_output("/", &OutputTarget::Directory("notes".to_string())),
        "notes/My Clippings.txt"
    );
    assert_eq!(containing_folder_of("/top.md"), "/");
}
