use wafflematrix::report::{
    DiffEntry, DiffKind, DiffMode, DiffReport, DiffStats, DocSummary, PageDiff, PageStatus,
};

fn entry(kind: DiffKind) -> DiffEntry {
    DiffEntry {
        kind,
        old_line: None,
        new_line: None,
        old_text: None,
        new_text: None,
        old_rect: None,
        new_rect: None,
        visual_rects: vec![],
    }
}

fn report(pages: Vec<PageDiff>, stats: DiffStats) -> DiffReport {
    DiffReport {
        old: DocSummary { path: "a".into(), page_count: 1, title: None },
        new: DocSummary { path: "b".into(), page_count: 1, title: None },
        mode: DiffMode::Text,
        generated_at: "t".into(),
        pages,
        stats,
    }
}

#[test]
fn mode_names_round_trip() {
    for m in [DiffMode::Text, DiffMode::Visual, DiffMode::Hybrid] {
        assert_eq!(DiffMode::from_str(m.as_str()), m);
    }
    assert_eq!(DiffMode::Visual.as_str(), "visual");
}

#[test]
fn mode_parsing_ignores_ascii_case_and_defaults_to_text() {
    assert_eq!(DiffMode::from_str("VISUAL"), DiffMode::Visual);
    assert_eq!(DiffMode::from_str("Hybrid"), DiffMode::Hybrid);
    assert_eq!(DiffMode::from_str("pixels"), DiffMode::Text);
    assert_eq!(DiffMode::from_str(""), DiffMode::Text);
}

#[test]
fn kind_and_status_names() {
    assert_eq!(DiffKind::Added.as_str(), "added");
    assert_eq!(DiffKind::Removed.as_str(), "removed");
    assert_eq!(DiffKind::Modified.as_str(), "modified");
    assert_eq!(DiffKind::Unchanged.as_str(), "unchanged");
    assert_eq!(PageStatus::Match.as_str(), "match");
    assert_eq!(PageStatus::Modified.as_str(), "modified");
    assert_eq!(PageStatus::Added.as_str(), "added");
    assert_eq!(PageStatus::Removed.as_str(), "removed");
}

#[test]
fn change_counts_skip_unchanged_entries() {
    let p = PageDiff {
        page_index: 0,
        status: PageStatus::Modified,
        entries: vec![entry(DiffKind::Unchanged), entry(DiffKind::Added), entry(DiffKind::Removed)],
    };
    assert_eq!(p.change_count(), 2);
    assert!(!entry(DiffKind::Unchanged).is_change());
    assert!(entry(DiffKind::Modified).is_change());
}

#[test]
fn totals_and_differences() {
    let pages = vec![
        PageDiff { page_index: 0, status: PageStatus::Match, entries: vec![entry(DiffKind::Unchanged)] },
        PageDiff { page_index: 1, status: PageStatus::Modified, entries: vec![entry(DiffKind::Modified)] },
    ];
    let r = report(pages, DiffStats::default());
    assert_eq!(r.total_changes(), 1);
    assert!(r.has_differences());

    let quiet = report(
        vec![PageDiff { page_index: 0, status: PageStatus::Match, entries: vec![entry(DiffKind::Unchanged)] }],
        DiffStats::default(),
    );
    assert_eq!(quiet.total_changes(), 0);
    assert!(!quiet.has_differences());

    let mut stats = DiffStats::default();
    stats.added_pages = 1;
    let grown = report(vec![], stats);
    assert!(grown.has_differences());
}
