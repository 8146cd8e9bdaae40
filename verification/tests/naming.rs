use p2p_sys::chunk_name::{chunk_file_name, find_chunks_for_file, parse_chunk_filename};
use p2p_sys::text::decimal_string;

fn parsed(name: &str) -> Option<(String, usize, usize)> {
    parse_chunk_filename(name)
}

#[test]
fn chunk_name_is_file_then_index_of_count() {
    assert_eq!(chunk_file_name("report.pdf", 2, 5), "report.pdf(2-of-5)");
    assert_eq!(chunk_file_name("", 0, 0), "(0-of-0)");
}

#[test]
fn chunk_name_reads_back() {
    let name = chunk_file_name("notes (draft).txt", 12, 40);
    assert_eq!(parsed(&name), Some(("notes (draft).txt".to_string(), 12, 40)));
    let big = chunk_file_name("x", usize::MAX, usize::MAX);
    assert_eq!(parsed(&big), Some(("x".to_string(), usize::MAX, usize::MAX)));
}

#[test]
fn parse_uses_the_last_parenthesis() {
    assert_eq!(parsed("a(b)(3-of-4)"), Some(("a(b)".to_string(), 3, 4)));
}

#[test]
fn parse_without_parenthesis_is_none() {
    assert_eq!(parsed("plain.txt"), None);
    assert_eq!(parsed(""), None);
}

#[test]
fn parse_accepts_plus_sign_and_leading_zeros() {
    assert_eq!(parsed("x(+7-of-008)"), Some(("x".to_string(), 7, 8)));
}

#[test]
fn parse_drops_the_last_character_whatever_it_is() {
    assert_eq!(parsed("x(1-of-2]"), Some(("x".to_string(), 1, 2)));
}

#[test]
fn parse_rejects_malformed_numbers() {
    assert_eq!(parsed("x(1-of-2-of-3)"), None);
    assert_eq!(parsed("x(-of-)"), None);
    assert_eq!(parsed("x(a-of-2)"), None);
    assert_eq!(parsed("x(-1-of-2)"), None);
    assert_eq!(parsed("x(+-of-2)"), None);
    assert_eq!(parsed("x(99999999999999999999999-of-1)"), None);
    assert_eq!(parsed("x(12)"), None);
}

#[test]
fn decimal_notation_has_no_leading_zeros() {
    assert_eq!(decimal_string(0), "0");
    assert_eq!(decimal_string(7), "7");
    assert_eq!(decimal_string(1200), "1200");
}

#[test]
fn chunks_are_found_and_ordered_by_index() {
    let entries: Vec<String> = vec![
        "a.txt(2-of-3)".to_string(),
        "b.txt(1-of-1)".to_string(),
        "a.txt".to_string(),
        "a.txt(3-of-3)".to_string(),
        "a.txt(1-of-3)".to_string(),
    ];
    let found = find_chunks_for_file(&entries, "a.txt");
    assert_eq!(
        found,
        Some((
            3,
            vec![
                "a.txt(1-of-3)".to_string(),
                "a.txt(2-of-3)".to_string(),
                "a.txt(3-of-3)".to_string()
            ]
        ))
    );
}

#[test]
fn chunk_count_is_the_largest_carried() {
    let entries: Vec<String> = vec!["f(1-of-2)".to_string(), "f(2-of-7)".to_string()];
    assert_eq!(
        find_chunks_for_file(&entries, "f"),
        Some((7, vec!["f(1-of-2)".to_string(), "f(2-of-7)".to_string()]))
    );
}

#[test]
fn no_stored_chunk_gives_none() {
    let entries: Vec<String> = vec!["a.txt".to_string(), "b.txt(1-of-1)".to_string()];
    assert_eq!(find_chunks_for_file(&entries, "a.txt"), None);
    assert_eq!(find_chunks_for_file(&Vec::new(), "a.txt"), None);
}

#[test]
fn chunks_of_a_longer_name_are_not_taken() {
    let entries: Vec<String> = vec!["ab(1-of-1)".to_string(), "a(1-of-2)".to_string()];
    assert_eq!(
        find_chunks_for_file(&entries, "a"),
        Some((2, vec!["a(1-of-2)".to_string()]))
    );
}

#[test]
fn chunks_with_the_same_index_keep_their_listing_order() {
    let entries: Vec<String> = vec![
        "f(2-of-2)".to_string(),
        "f(1-of-3)".to_string(),
        "f(01-of-2)".to_string(),
        "f(+1-of-2)".to_string(),
    ];
    assert_eq!(
        find_chunks_for_file(&entries, "f"),
        Some((
            3,
            vec![
                "f(1-of-3)".to_string(),
                "f(01-of-2)".to_string(),
                "f(+1-of-2)".to_string(),
                "f(2-of-2)".to_string()
            ]
        ))
    );
}
