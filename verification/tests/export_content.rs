use wafflematrix::export::{
    build_csv, build_html, changed_entries, html_escape, overview_rows, page_summary_rows,
    xlsx_change_rows, SummaryRow,
};
use wafflematrix::report::{
    DiffEntry, DiffKind, DiffMode, DiffReport, DiffStats, DocSummary, PageDiff, PageStatus, Rect,
};

fn rect(l: f32, t: f32, r: f32, b: f32) -> Rect {
    Rect::from_bits(l.to_bits(), t.to_bits(), r.to_bits(), b.to_bits())
}

fn sample_report() -> DiffReport {
    DiffReport {
        old: DocSummary { path: "/tmp/old.pdf".into(), page_count: 1, title: None },
        new: DocSummary { path: "/tmp/new.pdf".into(), page_count: 1, title: None },
        mode: DiffMode::Text,
        generated_at: "2026-01-01T00:00:00Z".into(),
        pages: vec![PageDiff {
            page_index: 0,
            status: PageStatus::Modified,
            entries: vec![
                DiffEntry {
                    kind: DiffKind::Modified,
                    old_line: Some(0),
                    new_line: Some(0),
                    old_text: Some("hello".into()),
                    new_text: Some("hell0".into()),
                    old_rect: Some(rect(10.0, 10.0, 50.0, 20.0)),
                    new_rect: Some(rect(10.0, 10.0, 50.0, 20.0)),
                    visual_rects: vec![],
                },
                DiffEntry {
                    kind: DiffKind::Added,
                    old_line: None,
                    new_line: Some(1),
                    old_text: None,
                    new_text: Some("new line".into()),
                    old_rect: None,
                    new_rect: Some(rect(10.0, 25.0, 60.0, 35.0)),
                    visual_rects: vec![],
                },
            ],
        }],
        stats: DiffStats {
            added_pages: 0,
            removed_pages: 0,
            modified_pages: 1,
            matched_pages: 0,
            added_entries: 1,
            removed_entries: 0,
            modified_entries: 1,
        },
    }
}

fn no_coords(n: usize) -> Vec<Vec<String>> {
    vec![vec![String::new(); 8]; n]
}

const HEADER: &str = "ページ,変更種別,行(旧),行(新),変更前テキスト,変更後テキスト,変更前 X,変更前 Y,変更前 W,変更前 H,変更後 X,変更後 Y,変更後 W,変更後 H,ビジュアル領域数\n";

#[test]
fn csv_holds_the_changed_text() {
    let report = sample_report();
    let csv = build_csv(&report, &no_coords(2));
    assert!(csv.contains("hell0"));
    assert!(csv.starts_with(HEADER));
}

#[test]
fn csv_rows_follow_the_change_list_columns() {
    let report = sample_report();
    let cells = |v: [&str; 8]| v.iter().map(|s| s.to_string()).collect::<Vec<String>>();
    let coords = vec![
        cells(["10.0", "10.0", "40.0", "10.0", "10.0", "10.0", "40.0", "10.0"]),
        cells(["", "", "", "", "10.0", "25.0", "50.0", "10.0"]),
    ];
    let csv = build_csv(&report, &coords);
    let lines: Vec<&str> = csv.lines().collect();
    assert_eq!(lines.len(), 3);
    assert_eq!(lines[1], "1,modified,0.0,0.0,hello,hell0,10.0,10.0,40.0,10.0,10.0,10.0,40.0,10.0,0");
    assert_eq!(lines[2], "1,added,,1.0,,new line,,,,,10.0,25.0,50.0,10.0,0");
    // Every record has the header's fifteen fields.
    assert_eq!(lines[0].split(',').count(), 15);
    assert_eq!(lines[1].split(',').count(), 15);
    // The records carry the spreadsheet's change-list cells.
    let rows = xlsx_change_rows(&report, &coords);
    assert_eq!(lines[1], rows[0].1.join(","));
}

#[test]
fn csv_quotes_fields_with_separators() {
    let mut report = sample_report();
    report.pages[0].entries[0].old_text = Some("a,b".into());
    report.pages[0].entries[1].new_text = Some("say \"hi\"\nbye".into());
    let csv = build_csv(&report, &no_coords(2));
    assert!(csv.contains(",\"a,b\","));
    assert!(csv.contains(",\"say \"\"hi\"\"\nbye\","));
    assert!(!csv.contains("\"\"\"hi"));
    // A field without separators stays bare.
    assert!(csv.contains(",hell0,"));
}

#[test]
fn html_holds_title_and_changed_text() {
    let html = build_html(&sample_report());
    assert!(html.contains("hell0"));
    assert!(html.contains("PDF Diff Report"));
    assert!(html.contains("<h2>Page 1 <span class=\"status modified\">modified</span></h2>"));
    assert!(html.contains("Total changes: <strong>2</strong> (added 1, removed 0, modified 1)"));
}

#[test]
fn html_escapes_markup() {
    assert_eq!(html_escape("<b>\"x\" & y</b>"), "&lt;b&gt;&quot;x&quot; &amp; y&lt;/b&gt;");
    assert_eq!(html_escape("plain"), "plain");
    let mut report = sample_report();
    report.pages[0].entries[0].new_text = Some("<script>".into());
    let html = build_html(&report);
    assert!(!html.contains("<script>"));
    assert!(html.contains("&lt;script&gt;"));
}

#[test]
fn html_skips_matching_pages() {
    let mut report = sample_report();
    report.pages.push(PageDiff { page_index: 1, status: PageStatus::Match, entries: vec![] });
    let html = build_html(&report);
    assert!(!html.contains("Page 2"));
}

#[test]
fn changed_entries_are_listed_in_order() {
    let mut report = sample_report();
    report.pages[0].entries.insert(
        0,
        DiffEntry {
            kind: DiffKind::Unchanged,
            old_line: Some(5),
            new_line: Some(5),
            old_text: Some("same".into()),
            new_text: Some("same".into()),
            old_rect: None,
            new_rect: None,
            visual_rects: vec![],
        },
    );
    assert_eq!(changed_entries(&report), vec![(0, 1), (0, 2)]);
}

#[test]
fn change_sheet_has_a_row_per_change() {
    let report = sample_report();
    let coords = vec![vec![String::new(); 8]; 2];
    let rows = xlsx_change_rows(&report, &coords);
    // header + 2 rows in the sheet
    assert_eq!(rows.len() + 1, 3);
    assert_eq!(rows[0].0, DiffKind::Modified);
    assert_eq!(rows[0].1[0], "1");
    assert_eq!(rows[0].1[1], "modified");
    assert_eq!(rows[0].1[2], "0.0");
    assert_eq!(rows[0].1[5], "hell0");
    assert_eq!(rows[0].1.len(), 15);
    assert_eq!(rows[1].1[2], "");
    assert_eq!(rows[1].1[3], "1.0");
    assert_eq!(rows[1].1[14], "0");
}

#[test]
fn summary_sheet_counts_kinds() {
    let report = sample_report();
    let rows = page_summary_rows(&report);
    assert_eq!(
        rows,
        vec![SummaryRow {
            page_number: 1,
            status: PageStatus::Modified,
            added: 1,
            removed: 0,
            modified: 1,
            changes: 2,
        }]
    );
}

#[test]
fn overview_sheet_lists_the_statistics() {
    let report = sample_report();
    let rows = overview_rows(&report);
    assert_eq!(rows.len(), 14);
    assert_eq!(rows[0], ("比較モード", "text".to_string()));
    assert_eq!(rows[1], ("実行日時", "2026-01-01T00:00:00Z".to_string()));
    assert_eq!(rows[2], ("旧ファイル", "/tmp/old.pdf".to_string()));
    assert_eq!(rows[13], ("総変更数", "2".to_string()));
}

#[test]
fn exports_csv() {
    let content = build_csv(&sample_report(), &no_coords(2));
    assert!(content.contains("hell0"));
}

#[test]
fn exports_html() {
    let content = build_html(&sample_report());
    assert!(content.contains("hell0"));
    assert!(content.contains("PDF Diff Report"));
}
