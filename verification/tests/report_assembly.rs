use wafflematrix::loader::{build_report, compute_stats, format_rfc3339, timestamp_of_reading, timestamp_rfc3339};
use wafflematrix::report::{DiffEntry, DiffKind, DiffMode, DocSummary, PageDiff, PageStatus};

fn entry(kind: DiffKind) -> DiffEntry {
    DiffEntry {
        kind,
        old_line: None,
        new_line: None,
        old_text: None,
        new_text: None,
        old_rect: None,
        new_rect: None,
        visual_rects: vec![],
    }
}

fn doc(path: &str, pages: usize) -> DocSummary {
    DocSummary { path: path.into(), page_count: pages, title: None }
}

#[test]
fn rfc3339_timestamp_is_well_formed() {
    let ts = timestamp_rfc3339();
    assert_eq!(ts.len(), 20);
    assert!(ts.ends_with('Z'));
    assert_eq!(&ts[4..5], "-");
    assert_eq!(&ts[10..11], "T");
}

#[test]
fn epoch_and_known_instants() {
    assert_eq!(format_rfc3339(0), "1970-01-01T00:00:00Z");
    assert_eq!(format_rfc3339(86_399), "1970-01-01T23:59:59Z");
    assert_eq!(format_rfc3339(951_782_400), "2000-02-29T00:00:00Z");
    assert_eq!(format_rfc3339(1_709_164_800), "2024-02-29T00:00:00Z");
    assert_eq!(format_rfc3339(1_704_067_199), "2023-12-31T23:59:59Z");
    assert_eq!(format_rfc3339(4_107_542_400), "2100-03-01T00:00:00Z");
}

#[test]
fn years_past_four_digits_widen() {
    assert_eq!(format_rfc3339(253_402_300_799), "9999-12-31T23:59:59Z");
    assert_eq!(format_rfc3339(253_402_300_800), "10000-01-01T00:00:00Z");
}

#[test]
fn stats_count_statuses_and_kinds() {
    let pages = vec![
        PageDiff {
            page_index: 0,
            status: PageStatus::Modified,
            entries: vec![entry(DiffKind::Added), entry(DiffKind::Modified), entry(DiffKind::Unchanged)],
        },
        PageDiff { page_index: 1, status: PageStatus::Match, entries: vec![entry(DiffKind::Unchanged)] },
        PageDiff { page_index: 2, status: PageStatus::Added, entries: vec![] },
    ];
    let s = compute_stats(&pages);
    assert_eq!(s.modified_pages, 1);
    assert_eq!(s.matched_pages, 1);
    assert_eq!(s.added_pages, 1);
    assert_eq!(s.removed_pages, 0);
    assert_eq!(s.added_entries, 1);
    assert_eq!(s.modified_entries, 1);
    assert_eq!(s.removed_entries, 0);
}

#[test]
fn extra_new_pages_are_appended_as_added() {
    let common = vec![PageDiff { page_index: 0, status: PageStatus::Match, entries: vec![] }];
    let r = build_report(doc("old", 1), doc("new", 3), DiffMode::Text, "t".into(), common);
    assert_eq!(r.pages.len(), 3);
    assert_eq!(r.pages[1].status, PageStatus::Added);
    assert_eq!(r.pages[1].page_index, 1);
    assert_eq!(r.pages[2].status, PageStatus::Added);
    assert_eq!(r.stats.added_pages, 2);
    assert!(r.has_differences());
}

#[test]
fn extra_old_pages_are_appended_as_removed() {
    let common = vec![PageDiff { page_index: 0, status: PageStatus::Match, entries: vec![] }];
    let r = build_report(doc("old", 2), doc("new", 1), DiffMode::Visual, "t".into(), common);
    assert_eq!(r.pages.len(), 2);
    assert_eq!(r.pages[1].status, PageStatus::Removed);
    assert_eq!(r.stats.removed_pages, 1);
    assert_eq!(r.stats.matched_pages, 1);
    assert_eq!(r.mode, DiffMode::Visual);
}

#[test]
fn identical_documents_report_no_differences() {
    let common = vec![
        PageDiff { page_index: 0, status: PageStatus::Match, entries: vec![entry(DiffKind::Unchanged)] },
        PageDiff { page_index: 1, status: PageStatus::Match, entries: vec![] },
    ];
    let r = build_report(doc("a", 2), doc("b", 2), DiffMode::Text, "t".into(), common);
    assert_eq!(r.total_changes(), 0);
    assert!(!r.has_differences());
    assert_eq!(r.stats.matched_pages, 2);
}

#[test]
fn clock_readings_become_timestamps() {
    assert_eq!(timestamp_of_reading(Some(0)), "1970-01-01T00:00:00Z");
    assert_eq!(timestamp_of_reading(None), "1970-01-01T00:00:00Z");
    assert_eq!(timestamp_of_reading(Some(86_400 + 3_661)), "1970-01-02T01:01:01Z");
}

fn page(index: usize, status: PageStatus, kind: DiffKind) -> PageDiff {
    PageDiff { page_index: index, status, entries: vec![entry(kind)] }
}

#[test]
fn assembled_report_differs_exactly_when_a_page_is_not_a_match() {
    let pages = vec![page(0, PageStatus::Match, DiffKind::Unchanged), page(1, PageStatus::Match, DiffKind::Unchanged)];
    let r = build_report(doc("a", 2), doc("b", 2), DiffMode::Text, "t".into(), pages);
    assert!(!r.has_differences());
    assert_eq!(r.total_changes(), 0);
    let pages = vec![page(0, PageStatus::Match, DiffKind::Unchanged), page(1, PageStatus::Modified, DiffKind::Added)];
    let r = build_report(doc("a", 2), doc("b", 2), DiffMode::Text, "t".into(), pages);
    assert!(r.has_differences());
    let r = build_report(doc("a", 1), doc("b", 2), DiffMode::Text, "t".into(), vec![page(0, PageStatus::Match, DiffKind::Unchanged)]);
    assert!(r.has_differences());
    assert!(r.pages.iter().any(|p| p.status != PageStatus::Match));
}
