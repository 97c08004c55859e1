use wafflematrix::report::{DiffKind, Rect};
use wafflematrix::textdiff::{compare_text_page, diff_text_lines, entries_from_ops, EditOp, EditTag, TextLine};
use wafflematrix::report::PageStatus;

fn rect(l: f32, t: f32, r: f32, b: f32) -> Rect {
    Rect::from_bits(l.to_bits(), t.to_bits(), r.to_bits(), b.to_bits())
}

fn line(text: &str, y: f32) -> TextLine {
    TextLine {
        text: text.to_string(),
        rect: rect(10.0, y, 10.0 + text.len() as f32 * 6.0, y - 12.0),
    }
}

fn top(r: Rect) -> f32 {
    f32::from_bits(r.top)
}

#[test]
fn identical_lines_all_unchanged() {
    let old = vec![line("aaa", 10.0), line("bbb", 30.0)];
    let new = vec![line("aaa", 10.0), line("bbb", 30.0)];
    let entries = diff_text_lines(&old, &new);
    assert_eq!(entries.len(), 2);
    assert!(entries.iter().all(|e| e.kind == DiffKind::Unchanged));
}

#[test]
fn insertion_is_added() {
    let old = vec![line("aaa", 10.0), line("ccc", 30.0)];
    let new = vec![line("aaa", 10.0), line("bbb", 20.0), line("ccc", 30.0)];
    let entries = diff_text_lines(&old, &new);
    let added: Vec<_> = entries.iter().filter(|e| e.kind == DiffKind::Added).collect();
    assert_eq!(added.len(), 1);
    assert_eq!(added[0].new_text.as_deref(), Some("bbb"));
    assert_eq!(added[0].new_rect.map(top), Some(20.0));
}

#[test]
fn deletion_is_removed() {
    let old = vec![line("aaa", 10.0), line("bbb", 20.0), line("ccc", 30.0)];
    let new = vec![line("aaa", 10.0), line("ccc", 30.0)];
    let entries = diff_text_lines(&old, &new);
    let removed: Vec<_> = entries.iter().filter(|e| e.kind == DiffKind::Removed).collect();
    assert_eq!(removed.len(), 1);
    assert_eq!(removed[0].old_text.as_deref(), Some("bbb"));
    assert_eq!(removed[0].old_rect.map(top), Some(20.0));
}

#[test]
fn change_is_modified() {
    let old = vec![line("hello", 10.0)];
    let new = vec![line("hell0", 10.0)];
    let entries = diff_text_lines(&old, &new);
    assert_eq!(entries.len(), 1);
    assert_eq!(entries[0].kind, DiffKind::Modified);
    assert_eq!(entries[0].old_text.as_deref(), Some("hello"));
    assert_eq!(entries[0].new_text.as_deref(), Some("hell0"));
}

#[test]
fn whitespace_only_difference_is_ignored() {
    let old = vec![line("value", 10.0)];
    let new = vec![line("value ", 10.0)];
    let entries = diff_text_lines(&old, &new);
    assert!(entries.iter().all(|e| e.kind == DiffKind::Unchanged));
}

#[test]
fn replacement_repeats_the_last_line_of_the_shorter_side() {
    // A replacement of one old line by two new ones gives two modifications,
    // both against the single old line.
    let old = vec![line("a", 10.0)];
    let new = vec![line("b", 10.0), line("c", 20.0)];
    let ops = vec![EditOp { tag: EditTag::Replace, old_start: 0, old_end: 1, new_start: 0, new_end: 2 }];
    let entries = entries_from_ops(&old, &new, &ops);
    assert_eq!(entries.len(), 2);
    assert_eq!(entries[0].kind, DiffKind::Modified);
    assert_eq!(entries[0].old_line, Some(0));
    assert_eq!(entries[0].new_line, Some(0));
    assert_eq!(entries[1].kind, DiffKind::Modified);
    assert_eq!(entries[1].new_text.as_deref(), Some("c"));
    assert_eq!(entries[1].old_line, Some(0));
    assert_eq!(entries[1].new_line, Some(1));
}

#[test]
fn equal_run_keeps_extracted_text() {
    // Lines compare trimmed, but the entry carries the line as extracted.
    let old = vec![line(" x ", 10.0)];
    let new = vec![line("x", 10.0)];
    let ops = vec![EditOp { tag: EditTag::Equal, old_start: 0, old_end: 1, new_start: 0, new_end: 1 }];
    let entries = entries_from_ops(&old, &new, &ops);
    assert_eq!(entries.len(), 1);
    assert_eq!(entries[0].kind, DiffKind::Unchanged);
    assert_eq!(entries[0].old_text.as_deref(), Some(" x "));
    assert_eq!(entries[0].new_text.as_deref(), Some("x"));
}

#[test]
fn page_with_a_change_is_modified() {
    let old = vec![line("one", 10.0), line("two", 20.0)];
    let new = vec![line("one", 10.0), line("2", 20.0)];
    let page = compare_text_page(&old, &new, 3);
    assert_eq!(page.page_index, 3);
    assert_eq!(page.status, PageStatus::Modified);
    assert_eq!(page.change_count(), 1);
}

#[test]
fn identical_page_matches() {
    let old = vec![line("one", 10.0)];
    let new = vec![line(" one", 10.0)];
    let page = compare_text_page(&old, &new, 0);
    assert_eq!(page.status, PageStatus::Match);
    assert_eq!(page.change_count(), 0);
}

#[test]
fn every_line_of_both_pages_is_accounted_for_in_order() {
    let old = vec![line("a", 10.0), line("b", 20.0), line("c", 30.0), line("d", 40.0)];
    let new = vec![line("a", 10.0), line("x", 20.0), line("d", 30.0), line("e", 40.0), line("f", 50.0)];
    let entries = diff_text_lines(&old, &new);
    let olds: Vec<usize> = entries.iter().filter_map(|e| e.old_line).collect();
    let news: Vec<usize> = entries.iter().filter_map(|e| e.new_line).collect();
    assert!(olds.windows(2).all(|w| w[0] <= w[1]));
    assert!(news.windows(2).all(|w| w[0] <= w[1]));
    for i in 0..old.len() {
        assert!(olds.contains(&i));
    }
    for i in 0..new.len() {
        assert!(news.contains(&i));
    }
    assert!(olds.iter().all(|&i| i < old.len()));
    assert!(news.iter().all(|&i| i < new.len()));
}
