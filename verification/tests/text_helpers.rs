use wafflematrix::strings::{decimal_string, is_blank, norm, push_padded, to_ascii_lowercase, trim};

#[test]
fn trim_removes_outer_white_space() {
    assert_eq!(trim("  a b \t\n"), "a b");
    assert_eq!(trim("   "), "");
    assert_eq!(trim(""), "");
    assert_eq!(trim("\u{3000}全角\u{3000}"), "全角");
}

#[test]
fn blank_means_only_white_space() {
    assert!(is_blank(" \t\r\n"));
    assert!(is_blank(""));
    assert!(!is_blank(" x "));
}

#[test]
fn norm_collapses_runs_of_white_space() {
    assert_eq!(norm("  hello   world \n x "), "hello world x");
    assert_eq!(norm(""), "");
    assert_eq!(norm(" \t "), "");
    assert_eq!(norm("one"), "one");
}

#[test]
fn ascii_lowercase_leaves_other_letters() {
    assert_eq!(to_ascii_lowercase("ABC déF Ä"), "abc déf Ä");
}

#[test]
fn decimals_and_padding() {
    assert_eq!(decimal_string(0), "0");
    assert_eq!(decimal_string(1234567890), "1234567890");
    assert_eq!(decimal_string(u64::MAX), "18446744073709551615");
    let mut s = String::new();
    push_padded(&mut s, 7, 2);
    push_padded(&mut s, 123, 2);
    push_padded(&mut s, 5, 4);
    assert_eq!(s, "071230005");
}

#[test]
fn unicode_white_space_separates_words() {
    assert_eq!(norm("\u{3000}Line\u{3000}\u{3000}TWO\u{a0}"), "Line TWO");
    assert_eq!(norm("a\u{2009}b\u{85}c"), "a b c");
    assert_eq!(norm("a\u{200b}b"), "a\u{200b}b");
    assert!(is_blank("\u{3000}\u{2028}\u{1680}"));
}

#[test]
fn normalising_twice_changes_nothing() {
    for s in ["  Line   TWO ", "\ta\n\nb  ", "", "x"] {
        assert_eq!(norm(&norm(s)), norm(s));
    }
    assert_eq!(norm("  Line   TWO "), "Line TWO");
    assert_eq!(norm("Line \t\n TWO"), norm("Line TWO"));
}

#[test]
fn normalised_text_is_single_spaced() {
    for s in ["  a \t b\n\nc  ", "\u{3000}x\u{3000}", "   ", "word"] {
        let n = norm(s);
        assert!(!n.starts_with(' ') && !n.ends_with(' ') && !n.contains("  "));
        assert!(n.chars().all(|c| c == ' ' || !c.is_whitespace()));
        let visible = |t: &str| t.chars().filter(|c| !c.is_whitespace()).collect::<String>();
        assert_eq!(visible(&n), visible(s));
    }
}
