use wafflematrix::bench::eval::{case_failure_message, eval_modes, eval_plan, no_cases_message, select_cases};
use wafflematrix::commands::{export_report_target, ExportFormat};
use wafflematrix::files::{
    check_pdf_size, clean_meta, has_pdf_header, pdfium_lib_filename, Platform, MAX_PDF_BYTES,
};
use wafflematrix::report::DiffMode;

#[test]
fn empty_file_is_refused_with_its_path() {
    assert_eq!(
        check_pdf_size("/tmp/a.pdf", 0),
        Err("File is empty: /tmp/a.pdf".to_string())
    );
}

#[test]
fn oversized_file_is_refused() {
    assert_eq!(
        check_pdf_size("big.pdf", MAX_PDF_BYTES + 1),
        Err("File is too large (> 2 GB).".to_string())
    );
}

#[test]
fn file_sizes_up_to_the_limit_are_accepted() {
    assert_eq!(check_pdf_size("x.pdf", 1), Ok(()));
    assert_eq!(check_pdf_size("x.pdf", MAX_PDF_BYTES), Ok(()));
    assert_eq!(MAX_PDF_BYTES, 2u64 * 1024 * 1024 * 1024);
}

#[test]
fn pdf_header_is_recognised() {
    assert!(has_pdf_header(&b"%PDF-1.7\n".to_vec()));
    assert!(has_pdf_header(&b"%PDF".to_vec()));
    assert!(!has_pdf_header(&b"%PD".to_vec()));
    assert!(!has_pdf_header(&b"<html>".to_vec()));
    assert!(!has_pdf_header(&Vec::new()));
}

#[test]
fn metadata_is_trimmed_and_blank_is_absent() {
    assert_eq!(clean_meta("  Annual report \n"), Some("Annual report".to_string()));
    assert_eq!(clean_meta("   "), None);
    assert_eq!(clean_meta(""), None);
    assert_eq!(clean_meta("x"), Some("x".to_string()));
}

#[test]
fn library_file_names_per_platform() {
    assert_eq!(pdfium_lib_filename(Platform::Windows), "pdfium.dll");
    assert_eq!(pdfium_lib_filename(Platform::MacOs), "libpdfium.dylib");
    assert_eq!(pdfium_lib_filename(Platform::Linux), "libpdfium.so");
}

fn strings(v: &[&str]) -> Vec<String> {
    v.iter().map(|s| s.to_string()).collect()
}

#[test]
fn every_case_runs_without_a_filter() {
    let names = strings(&["a", "b", "c"]);
    assert_eq!(select_cases(&names, &Vec::new()), vec![0, 1, 2]);
}

#[test]
fn filter_keeps_named_cases_in_order() {
    let names = strings(&["text_edit", "layout_shift", "identical", "image_swap"]);
    let filter = strings(&["image_swap", "text_edit", "missing"]);
    assert_eq!(select_cases(&names, &filter), vec![0, 3]);
}

#[test]
fn filter_naming_nothing_selects_nothing() {
    let names = strings(&["a", "b"]);
    assert_eq!(select_cases(&names, &strings(&["z"])), Vec::<usize>::new());
}

#[test]
fn all_modes_run_when_none_asked() {
    assert_eq!(
        eval_modes(&Vec::new()),
        vec![DiffMode::Text, DiffMode::Visual, DiffMode::Hybrid]
    );
    assert_eq!(eval_modes(&vec![DiffMode::Hybrid]), vec![DiffMode::Hybrid]);
}

#[test]
fn no_cases_message_without_filter() {
    assert_eq!(
        no_cases_message("corpus", &Vec::new()),
        "no cases found in 'corpus' — run `gen` to create the corpus"
    );
}

#[test]
fn no_cases_message_names_the_filter() {
    assert_eq!(
        no_cases_message("c", &strings(&["a", "b"])),
        "no cases found in 'c' (filter: a, b) — run `gen` to create the corpus"
    );
}

#[test]
fn failed_case_message() {
    assert_eq!(
        case_failure_message("text_edit", DiffMode::Visual, "boom"),
        "Case 'text_edit' mode 'visual' failed: boom"
    );
}

#[test]
fn command_line_export_targets() {
    assert_eq!(export_report_target("csv"), Ok(ExportFormat::Csv));
    assert_eq!(export_report_target("xlsx"), Ok(ExportFormat::Xlsx));
    assert_eq!(export_report_target("json"), Ok(ExportFormat::Json));
    assert_eq!(export_report_target("html"), Ok(ExportFormat::Html));
    assert_eq!(
        export_report_target("pdf"),
        Err("unsupported export format: 'pdf'".to_string())
    );
}

#[test]
fn runs_are_case_major() {
    let plan = eval_plan(&vec![2, 5], &vec![DiffMode::Text, DiffMode::Visual]);
    assert_eq!(
        plan,
        vec![(2, DiffMode::Text), (2, DiffMode::Visual), (5, DiffMode::Text), (5, DiffMode::Visual)]
    );
    assert!(eval_plan(&Vec::new(), &vec![DiffMode::Hybrid]).is_empty());
}

#[test]
fn run_index_is_case_times_modes_plus_mode() {
    let cases = vec![7, 1, 4];
    let modes = vec![DiffMode::Visual, DiffMode::Hybrid];
    let plan = eval_plan(&cases, &modes);
    assert_eq!(plan.len(), cases.len() * modes.len());
    for i in 0..cases.len() {
        for j in 0..modes.len() {
            assert_eq!(plan[i * modes.len() + j], (cases[i], modes[j]));
        }
    }
}
