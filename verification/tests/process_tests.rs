use kindle_to_markdown::clippings::{parse_kindle_clippings, KindleEntry};
use kindle_to_markdown::process::{
    dedupe_entries, decimal_chars, entry_sort_key, parse_date_fields, parse_whole_number,
    process_entries, render_book_stats, sort_entries, SortKey,
};

const STANDARD_INPUT: &str = r#"The Rust Programming Language (Steve Klabnik and Carol Nichols) - Your Highlight on page 23 | Location 234-236 | Added on Friday, August 9, 2024 12:34:56 PM

Memory safety is one of Rust's main selling points.

==========
The Rust Programming Language (Steve Klabnik and Carol Nichols) - Your Note on page 45 | Location 456 | Added on Friday, August 9, 2024 1:15:30 PM

This is really important for systems programming.

==========
"#;

fn entry(title: &str, location: &str, date: &str) -> KindleEntry {
    KindleEntry {
        title: title.to_string(),
        author: "A".to_string(),
        entry_type: "Highlight".to_string(),
        location: location.to_string(),
        date: date.to_string(),
        content: format!("{} {}", title, location),
    }
}

#[test]
fn statistics_count_entries_and_books() {
    let entries = parse_kindle_clippings(STANDARD_INPUT).expect("input should parse");
    let stats = render_book_stats(&entries);
    assert!(stats.contains("Statistics: 2 entries across 1 books"));
    assert_eq!(
        stats,
        "Statistics: 2 entries across 1 books\n- The Rust Programming Language by Steve Klabnik and Carol Nichols: 2"
    );
    assert_eq!(render_book_stats(&[]), "Statistics: 0 entries across 0 books");
}

#[test]
fn statistics_list_books_in_first_order() {
    let entries = vec![entry("B", "1", ""), entry("A", "2", ""), entry("B", "3", "")];
    assert_eq!(
        render_book_stats(&entries),
        "Statistics: 3 entries across 2 books\n- B by A: 2\n- A by A: 1"
    );
}

#[test]
fn sorts_by_location_number_stably() {
    let entries = vec![
        entry("x", "300-301", ""),
        entry("y", "12", ""),
        entry("z", "none", ""),
        entry("w", "12-14", ""),
    ];
    let sorted = sort_entries(entries, SortKey::Location);
    let titles: Vec<&str> = sorted.iter().map(|e| e.title.as_str()).collect();
    assert_eq!(titles, vec!["y", "w", "x", "z"]);
}

#[test]
fn sorts_by_book_title_then_author() {
    let entries = vec![entry("b", "1", ""), entry("a", "2", ""), entry("ab", "3", "")];
    let sorted = sort_entries(entries, SortKey::Book);
    let titles: Vec<&str> = sorted.iter().map(|e| e.title.as_str()).collect();
    assert_eq!(titles, vec!["a", "ab", "b"]);
}

#[test]
fn sorts_by_parsed_date() {
    let entries = vec![
        entry("late", "1", "Friday, August 9, 2024 1:15:30 PM"),
        entry("odd", "2", "yesterday"),
        entry("early", "3", "Friday, August 9, 2024 12:34:56 PM"),
        entry("older", "4", "Monday, January 1, 2024 11:00:00 AM"),
    ];
    let sorted = sort_entries(entries, SortKey::Date);
    let titles: Vec<&str> = sorted.iter().map(|e| e.title.as_str()).collect();
    assert_eq!(titles, vec!["older", "early", "late", "odd"]);
}

#[test]
fn parses_kindle_dates() {
    assert_eq!(
        parse_date_fields("Friday, August 9, 2024 12:34:56 PM"),
        Some(vec![2024, 8, 9, 12, 34, 56])
    );
    assert_eq!(
        parse_date_fields("Monday, January 1, 2024 12:05:00 AM"),
        Some(vec![2024, 1, 1, 0, 5, 0])
    );
    assert_eq!(parse_date_fields("August 9 2024"), None);
    assert_eq!(parse_date_fields("Friday, Augustus 9, 2024 12:34:56 PM"), None);
}

#[test]
fn parses_whole_numbers() {
    let digits: Vec<char> = "0042".chars().collect();
    assert_eq!(parse_whole_number(&digits), Some(42));
    let mixed: Vec<char> = "4a".chars().collect();
    assert_eq!(parse_whole_number(&mixed), None);
    assert_eq!(parse_whole_number(&[]), None);
    let long: Vec<char> = "1234567890123456789".chars().collect();
    assert_eq!(parse_whole_number(&long), None);
}

#[test]
fn keys_of_each_order() {
    let e = entry("ab", "12-14", "Friday, August 9, 2024 12:34:56 PM");
    assert_eq!(entry_sort_key(&e, SortKey::Book), vec![98, 99, 0, 66]);
    assert_eq!(entry_sort_key(&e, SortKey::Location), vec![0, 12]);
    assert_eq!(entry_sort_key(&e, SortKey::Date), vec![0, 2024, 8, 9, 12, 34, 56]);
}

#[test]
fn dedupe_keeps_first_copies() {
    let a = entry("a", "1", "");
    let b = entry("b", "2", "");
    let out = dedupe_entries(vec![a.clone(), b.clone(), a.clone()]);
    assert_eq!(out, vec![a.clone(), b.clone()]);
    assert_eq!(dedupe_entries(out.clone()), out);
}

#[test]
fn process_combines_dedupe_and_sort() {
    let a = entry("a", "9", "");
    let b = entry("b", "2", "");
    let out = process_entries(vec![a.clone(), b.clone(), a.clone()], Some(SortKey::Location), true);
    assert_eq!(out, vec![b.clone(), a.clone()]);
    let unchanged = process_entries(vec![a.clone(), b.clone(), a.clone()], None, false);
    assert_eq!(unchanged, vec![a.clone(), b, a]);
}

#[test]
fn decimal_notation() {
    assert_eq!(decimal_chars(0), vec!['0']);
    assert_eq!(decimal_chars(2024), vec!['2', '0', '2', '4']);
}
