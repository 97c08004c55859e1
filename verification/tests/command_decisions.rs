use wafflematrix::commands::{
    check_compare_args, choose_export_format, compare_response, export_format, export_response,
    export_target, no_report_error, parse_modes, save_dialog_target, CompareArgs, ExportArgs,
    ExportFormat,
};
use wafflematrix::report::{
    DiffEntry, DiffKind, DiffMode, DiffReport, DiffStats, DocSummary, PageDiff, PageStatus,
};

fn report(changes: usize, pages: usize) -> DiffReport {
    let mut ps = Vec::new();
    for i in 0..pages {
        let entries = if i == 0 {
            (0..changes)
                .map(|_| DiffEntry {
                    kind: DiffKind::Added,
                    old_line: None,
                    new_line: None,
                    old_text: None,
                    new_text: None,
                    old_rect: None,
                    new_rect: None,
                    visual_rects: vec![],
                })
                .collect()
        } else {
            vec![]
        };
        ps.push(PageDiff { page_index: i, status: PageStatus::Match, entries });
    }
    DiffReport {
        old: DocSummary { path: "a".into(), page_count: pages, title: None },
        new: DocSummary { path: "b".into(), page_count: pages, title: None },
        mode: DiffMode::Text,
        generated_at: "t".into(),
        pages: ps,
        stats: DiffStats::default(),
    }
}

#[test]
fn missing_paths_are_refused() {
    let args = CompareArgs { old_path: "".into(), new_path: "b.pdf".into(), mode: "text".into() };
    match check_compare_args(&args) {
        Err(resp) => {
            assert!(!resp.ok);
            assert_eq!(resp.message, "Both old and new file paths are required.");
            assert!(resp.report.is_none());
        }
        Ok(_) => panic!("a missing path must be refused"),
    }
}

#[test]
fn compare_args_select_the_mode() {
    let args = CompareArgs { old_path: "a.pdf".into(), new_path: "b.pdf".into(), mode: "Hybrid".into() };
    assert_eq!(check_compare_args(&args).ok(), Some(DiffMode::Hybrid));
    let args = CompareArgs { old_path: "a.pdf".into(), new_path: "b.pdf".into(), mode: "".into() };
    assert_eq!(check_compare_args(&args).ok(), Some(DiffMode::Text));
}

#[test]
fn compare_messages() {
    let r = compare_response(report(0, 2));
    assert!(r.ok);
    assert_eq!(r.message, "No differences found.");
    let r = compare_response(report(3, 2));
    assert_eq!(r.message, "Found 3 change(s) across 2 page(s).");
    assert_eq!(r.report.map(|x| x.pages.len()), Some(2));
}

#[test]
fn export_format_prefers_the_request_then_the_extension() {
    assert_eq!(choose_export_format(&Some("csv".into()), &Some("HTML".into())), "csv");
    assert_eq!(choose_export_format(&None, &Some("HTML".into())), "html");
    assert_eq!(choose_export_format(&None, &None), "xlsx");
    let args = ExportArgs { path: "/tmp/report.JSON".into(), format: None };
    assert_eq!(export_format(&args), "json");
    let args = ExportArgs { path: "/tmp/report".into(), format: None };
    assert_eq!(export_format(&args), "xlsx");
    let args = ExportArgs { path: "/tmp/report.csv".into(), format: Some("html".into()) };
    assert_eq!(export_format(&args), "html");
}

#[test]
fn format_follows_the_extension_of_a_bare_file_name() {
    let fmt = |p: &str| export_format(&ExportArgs { path: p.into(), format: None });
    assert_eq!(fmt("report.CSV"), "csv");
    assert_eq!(fmt("a.b.Html"), "html");
    assert_eq!(fmt("report"), "xlsx");
    assert_eq!(fmt(".hidden"), "xlsx");
    assert_eq!(fmt(".."), "xlsx");
    assert_eq!(fmt("odd."), "");
}

#[test]
fn format_follows_the_extension_past_directories() {
    let fmt = |p: &str| export_format(&ExportArgs { path: p.into(), format: None });
    assert_eq!(fmt("/tmp/out.csv"), "csv");
    assert_eq!(fmt("/home/u/reports.d/diff.Json"), "json");
    assert_eq!(fmt("/tmp.d/report"), "xlsx");
    assert_eq!(fmt("/tmp/.hidden"), "xlsx");
    assert_eq!(fmt("C:\\Users\\u\\diff.HTML"), "html");
    assert_eq!(fmt("reports/a.b.xlsx"), "xlsx");
    let with = ExportArgs { path: "/tmp/out.csv".into(), format: Some("json".into()) };
    assert_eq!(export_format(&with), "json");
}

#[test]
fn export_targets_and_errors() {
    assert_eq!(export_target("xlsx"), Ok(ExportFormat::Xlsx));
    assert_eq!(export_target("csv"), Ok(ExportFormat::Csv));
    assert_eq!(export_target("json"), Ok(ExportFormat::Json));
    assert_eq!(export_target("html"), Ok(ExportFormat::Html));
    assert_eq!(export_target("pdf"), Err("Unsupported export format: pdf".to_string()));
    assert_eq!(export_target("CSV"), Err("Unsupported export format: CSV".to_string()));
    assert_eq!(ExportFormat::from_name("json"), Some(ExportFormat::Json));
    assert_eq!(ExportFormat::from_name("txt"), None);
}

#[test]
fn export_messages() {
    let r = export_response("/tmp/out.csv");
    assert!(r.ok);
    assert_eq!(r.message, "Report exported to /tmp/out.csv");
    assert_eq!(no_report_error(), "No diff report available. Run a comparison first.");
}

#[test]
fn save_dialog_defaults() {
    let (f, name, filter) = save_dialog_target(&None);
    assert_eq!((f.as_str(), name, filter), ("xlsx", "diff-report.xlsx", "Excel (*.xlsx)"));
    let (f, name, filter) = save_dialog_target(&Some("csv".into()));
    assert_eq!((f.as_str(), name, filter), ("csv", "diff-report.csv", "CSV (*.csv)"));
    let (f, name, filter) = save_dialog_target(&Some("json".into()));
    assert_eq!((f.as_str(), name, filter), ("json", "diff-report.json", "JSON (*.json)"));
    let (f, name, filter) = save_dialog_target(&Some("html".into()));
    assert_eq!((f.as_str(), name, filter), ("html", "diff-report.html", "HTML (*.html)"));
    let (f, name, filter) = save_dialog_target(&Some("pdf".into()));
    assert_eq!((f.as_str(), name, filter), ("pdf", "diff-report.xlsx", "Excel (*.xlsx)"));
}

#[test]
fn mode_lists_parse() {
    assert_eq!(parse_modes("text,visual"), Ok(vec![DiffMode::Text, DiffMode::Visual]));
    assert_eq!(parse_modes(" Hybrid , ,TEXT"), Ok(vec![DiffMode::Hybrid, DiffMode::Text]));
    assert_eq!(parse_modes(""), Ok(vec![]));
    assert_eq!(parse_modes(",,"), Ok(vec![]));
}

#[test]
fn unknown_mode_is_reported_lowercased() {
    assert_eq!(parse_modes("text, Pixel ,bogus"), Err("unknown mode: 'pixel'".to_string()));
}
