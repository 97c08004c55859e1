use wafflematrix::search::{build_snippet, search_pages, snippet_checked};

#[test]
fn snippet_around_a_short_text() {
    assert_eq!(build_snippet("Hello  World", "hello  world", "world"), "Hello  World");
}

#[test]
fn snippet_blanks_white_space_and_trims() {
    assert_eq!(build_snippet("  a\tb\nc  ", "  a\tb\nc  ", "b"), "a b c");
}

#[test]
fn snippet_marks_a_cut_start() {
    let text = format!("{}needle{}", "x".repeat(50), "y".repeat(50));
    let snippet = build_snippet(&text, &text, "needle");
    assert_eq!(snippet, format!("...{}needle{}", "x".repeat(40), "y".repeat(40)));
}

#[test]
fn snippet_without_match_is_empty() {
    assert_eq!(build_snippet("abc", "abc", "zzz"), "");
}

#[test]
fn snippet_refuses_to_split_a_character() {
    // The window would start inside the three-byte character.
    let text = format!("あ{}q", "b".repeat(39));
    assert_eq!(snippet_checked(&text, &text, "q"), None);
}

#[test]
fn search_counts_matches_per_page() {
    let pages = vec![
        Some("Alpha beta ALPHA".to_string()),
        None,
        Some("nothing here".to_string()),
        Some("alphabet".to_string()),
    ];
    let hits = search_pages("alpha", &pages).unwrap();
    assert_eq!(hits.len(), 2);
    assert_eq!(hits[0].page_index, 0);
    assert_eq!(hits[0].match_count, 2);
    assert_eq!(hits[0].snippet, "Alpha beta ALPHA");
    assert_eq!(hits[1].page_index, 3);
    assert_eq!(hits[1].match_count, 1);
}

#[test]
fn search_ignores_case_of_the_query() {
    let pages = vec![Some("xabcx".to_string())];
    let hits = search_pages("ABC", &pages).unwrap();
    assert_eq!(hits.len(), 1);
    assert_eq!(hits[0].match_count, 1);
}

#[test]
fn blank_query_finds_nothing() {
    let pages = vec![Some("text".to_string())];
    assert_eq!(search_pages("   ", &pages).unwrap().len(), 0);
}

#[test]
fn matches_do_not_overlap() {
    let pages = vec![Some("aaaa".to_string())];
    let hits = search_pages("aa", &pages).unwrap();
    assert_eq!(hits[0].match_count, 2);
}
