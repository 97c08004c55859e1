use wafflematrix::bench::case::{ChangeRegion, GroundTruth, PageTruth};
use wafflematrix::bench::golden::golden_truth;
use wafflematrix::bench::rng::Rng;
use wafflematrix::bench::score::{
    aggregate, collect_detected_rects, collect_truth_rects, match_counts, micro, norm, score_case,
    score_text_content,
    CaseTally, MatchCounts,
};
use wafflematrix::report::{
    DiffEntry, DiffKind, DiffMode, DiffReport, DiffStats, DocSummary, PageDiff, PageStatus, Rect,
};

/// Precision, recall and F1 from counts.
fn prf(c: MatchCounts) -> (f64, f64, f64) {
    let (tp, fp, fn_) = (c.tp, c.fp, c.fn_);
    let precision = if tp + fp > 0 { tp as f64 / (tp + fp) as f64 } else { 0.0 };
    let recall = if tp + fn_ > 0 { tp as f64 / (tp + fn_) as f64 } else { 0.0 };
    let f1 = if precision + recall > 0.0 { 2.0 * precision * recall / (precision + recall) } else { 0.0 };
    (precision, recall, f1)
}

fn page_accuracy(t: &CaseTally) -> f64 {
    if t.pages_total > 0 { t.pages_correct as f64 / t.pages_total as f64 } else { 0.0 }
}

fn bits(r: [f32; 4]) -> [u32; 4] {
    [r[0].to_bits(), r[1].to_bits(), r[2].to_bits(), r[3].to_bits()]
}

fn rect(l: f32, t: f32, r: f32, b: f32) -> Rect {
    Rect::from_bits(l.to_bits(), t.to_bits(), r.to_bits(), b.to_bits())
}

fn floats(r: [u32; 4]) -> [f32; 4] {
    [f32::from_bits(r[0]), f32::from_bits(r[1]), f32::from_bits(r[2]), f32::from_bits(r[3])]
}

fn overlaps(a: [f32; 4], b: [f32; 4], threshold: f64) -> bool {
    let inter = ((a[2].min(b[2]) - a[0].max(b[0])).max(0.0) * (a[3].min(b[3]) - a[1].max(b[1])).max(0.0)) as f64;
    if inter <= 0.0 {
        return false;
    }
    let area = |r: [f32; 4]| ((r[2] - r[0]).max(0.0) * (r[3] - r[1]).max(0.0)) as f64;
    let (aa, ab) = (area(a), area(b));
    if aa <= 0.0 || ab <= 0.0 {
        return false;
    }
    inter >= threshold * aa.min(ab)
}

/// The overlap matrix of truth rectangles against detected ones.
fn region_matrix(gt: &GroundTruth, report: &DiffReport, threshold: f64) -> Vec<Vec<bool>> {
    let truth = collect_truth_rects(gt);
    let det = collect_detected_rects(report);
    truth
        .iter()
        .map(|g| det.iter().map(|d| overlaps(floats(*g), floats(*d), threshold)).collect())
        .collect()
}

fn run(mode: DiffMode, gt: &GroundTruth, report: &DiffReport) -> CaseTally {
    let m = if mode == DiffMode::Visual { region_matrix(gt, report, 0.5) } else { Vec::new() };
    score_case(mode, gt, report, &m)
}

fn region(new_text: &str) -> ChangeRegion {
    ChangeRegion {
        rect: Some(bits([0.0, 0.0, 10.0, 10.0])),
        old_text: None,
        new_text: Some(new_text.to_string()),
    }
}

fn entry(kind: DiffKind, old: Option<&str>, new: Option<&str>) -> DiffEntry {
    DiffEntry {
        kind,
        old_line: None,
        new_line: None,
        old_text: old.map(str::to_string),
        new_text: new.map(str::to_string),
        old_rect: None,
        new_rect: None,
        visual_rects: Vec::new(),
    }
}

fn report_with(pages: Vec<PageDiff>) -> DiffReport {
    DiffReport {
        old: DocSummary { path: "a".into(), page_count: 1, title: None },
        new: DocSummary { path: "b".into(), page_count: 1, title: None },
        mode: DiffMode::Text,
        generated_at: "t".into(),
        pages,
        stats: DiffStats::default(),
    }
}

fn page_truth(status: &str, regions: Vec<ChangeRegion>) -> PageTruth {
    PageTruth {
        page: 1,
        status: status.into(),
        text_status: None,
        visual_status: None,
        hybrid_status: None,
        regions,
    }
}

fn gt_with(regions: Vec<ChangeRegion>, status: &str) -> GroundTruth {
    GroundTruth { name: "case".into(), description: "d".into(), pages: vec![page_truth(status, regions)] }
}

#[test]
fn exact_text_match_is_perfect() {
    let gt = gt_with(vec![region("hello")], "modified");
    let rep = report_with(vec![PageDiff {
        page_index: 0,
        status: PageStatus::Modified,
        entries: vec![entry(DiffKind::Modified, Some("hi"), Some("hello"))],
    }]);
    let s = run(DiffMode::Text, &gt, &rep);
    let t = prf(s.text_content.unwrap());
    assert_eq!(t.2, 1.0);
    assert_eq!(page_accuracy(&s), 1.0);
}

#[test]
fn classification_as_add_remove_still_matches() {
    let gt = GroundTruth {
        name: "case".into(),
        description: "d".into(),
        pages: vec![page_truth(
            "modified",
            vec![ChangeRegion {
                rect: Some(bits([0.0, 0.0, 10.0, 10.0])),
                old_text: Some("hi".to_string()),
                new_text: Some("hello".to_string()),
            }],
        )],
    };
    let rep = report_with(vec![PageDiff {
        page_index: 0,
        status: PageStatus::Modified,
        entries: vec![entry(DiffKind::Removed, Some("hi"), None), entry(DiffKind::Added, None, Some("hello"))],
    }]);
    let s = run(DiffMode::Text, &gt, &rep);
    let t = prf(s.text_content.unwrap());
    assert_eq!(t.2, 1.0);
    assert_eq!((t.0, t.1), (1.0, 1.0));
}

#[test]
fn false_positive_text_lowers_f1() {
    let gt = gt_with(vec![], "match");
    let rep = report_with(vec![PageDiff {
        page_index: 0,
        status: PageStatus::Modified,
        entries: vec![entry(DiffKind::Added, None, Some("unexpected"))],
    }]);
    let s = run(DiffMode::Text, &gt, &rep);
    assert_eq!(prf(s.text_content.unwrap()).2, 0.0);
    assert!(s.doc_false_positive);
}

#[test]
fn missing_detection_lowers_recall() {
    let gt = gt_with(vec![region("hello")], "modified");
    let rep = report_with(vec![PageDiff {
        page_index: 0,
        status: PageStatus::Modified,
        entries: vec![entry(DiffKind::Modified, Some("hi"), Some("h3llo"))],
    }]);
    let s = run(DiffMode::Text, &gt, &rep);
    let t = prf(s.text_content.unwrap());
    assert_eq!((t.0, t.1), (0.0, 0.0));
    assert_eq!(t.2, 0.0);
}

#[test]
fn visual_region_overlap_scores_drawing_cases() {
    let gt = GroundTruth {
        name: "c".into(),
        description: "d".into(),
        pages: vec![page_truth(
            "modified",
            vec![ChangeRegion { rect: Some(bits([100.0, 100.0, 200.0, 160.0])), old_text: None, new_text: None }],
        )],
    };
    let rep = report_with(vec![PageDiff {
        page_index: 0,
        status: PageStatus::Modified,
        entries: vec![DiffEntry {
            kind: DiffKind::Modified,
            old_line: None,
            new_line: None,
            old_text: None,
            new_text: None,
            old_rect: None,
            new_rect: Some(rect(110.0, 105.0, 190.0, 150.0)),
            visual_rects: vec![rect(110.0, 105.0, 190.0, 150.0)],
        }],
    }]);
    let s = run(DiffMode::Visual, &gt, &rep);
    let r = prf(s.region.unwrap());
    assert_eq!((r.0, r.1), (1.0, 1.0));
    assert_eq!(r.2, 1.0);
}

#[test]
fn text_mode_has_no_region_metric() {
    let gt = gt_with(vec![], "match");
    let rep = report_with(vec![]);
    let s = run(DiffMode::Text, &gt, &rep);
    assert!(s.region.is_none());
    assert!(s.text_content.is_some());
}

#[test]
fn visual_mode_has_no_text_metric() {
    let gt = gt_with(vec![region("x")], "modified");
    let rep = report_with(vec![]);
    let s = run(DiffMode::Visual, &gt, &rep);
    assert!(s.text_content.is_none());
    assert_eq!(s.region, Some(MatchCounts { tp: 0, fp: 0, fn_: 1 }));
}

#[test]
fn page_classification_counts_missing_pages_as_wrong() {
    let gt = GroundTruth {
        name: "c".into(),
        description: "d".into(),
        pages: vec![page_truth("modified", vec![]), PageTruth { page: 3, ..page_truth("added", vec![]) }],
    };
    let rep = report_with(vec![PageDiff { page_index: 0, status: PageStatus::Modified, entries: vec![] }]);
    let s = run(DiffMode::Text, &gt, &rep);
    assert_eq!((s.pages_total, s.pages_correct), (2, 1));
}

#[test]
fn mode_override_decides_the_expected_status() {
    let mut p = page_truth("modified", vec![]);
    p.visual_status = Some("match".into());
    assert_eq!(p.status_for(DiffMode::Visual), "match");
    assert_eq!(p.status_for(DiffMode::Text), "modified");
}

#[test]
fn match_counts_over_a_matrix() {
    // truth 0 matches detected 0 and 1, truth 1 matches nothing, detected 2 unmatched
    let m = vec![vec![true, true, false], vec![false, false, false]];
    assert_eq!(match_counts(&m, 3), MatchCounts { tp: 1, fp: 1, fn_: 1 });
    assert_eq!(match_counts(&vec![], 4), MatchCounts { tp: 0, fp: 4, fn_: 0 });
}

#[test]
fn micro_pools_valid_counts() {
    let cs = vec![
        MatchCounts { tp: 1, fp: 0, fn_: 1 },
        MatchCounts { tp: 0, fp: 0, fn_: 0 },
        MatchCounts { tp: 2, fp: 3, fn_: 0 },
    ];
    assert_eq!(micro(&cs), Some(MatchCounts { tp: 3, fp: 3, fn_: 1 }));
    assert_eq!(micro(&vec![MatchCounts { tp: 0, fp: 0, fn_: 0 }]), None);
    assert!(MatchCounts { tp: 0, fp: 1, fn_: 0 }.is_valid());
}

#[test]
fn aggregate_groups_runs_by_mode_in_first_seen_order() {
    let t = |mode, tp, total, correct, fp| CaseTally {
        mode,
        text_content: if mode == DiffMode::Visual { None } else { Some(MatchCounts { tp, fp: 0, fn_: 0 }) },
        region: None,
        pages_total: total,
        pages_correct: correct,
        doc_false_positive: fp,
    };
    let runs = vec![
        t(DiffMode::Visual, 0, 2, 1, true),
        t(DiffMode::Text, 1, 1, 1, false),
        t(DiffMode::Visual, 0, 3, 3, false),
        t(DiffMode::Text, 2, 2, 1, true),
    ];
    let out = aggregate(&runs);
    assert_eq!(out.len(), 2);
    assert_eq!(out[0].mode, DiffMode::Visual);
    assert_eq!(out[0].cases, 2);
    assert_eq!((out[0].pages_total, out[0].pages_correct), (5, 4));
    assert_eq!(out[0].false_positive_docs, 1);
    assert_eq!(out[0].text_content, None);
    assert_eq!(out[1].mode, DiffMode::Text);
    assert_eq!(out[1].text_content, Some(MatchCounts { tp: 3, fp: 0, fn_: 0 }));
}

#[test]
fn norm_collapses_white_space_for_matching() {
    assert_eq!(norm("  a \t b  "), "a b");
}

#[test]
fn golden_truth_freezes_text_changes() {
    let rep = report_with(vec![
        PageDiff {
            page_index: 0,
            status: PageStatus::Modified,
            entries: vec![
                entry(DiffKind::Unchanged, Some("same"), Some("same")),
                entry(DiffKind::Modified, Some("Line two"), Some("Line TWO")),
                entry(DiffKind::Added, Some("ignored"), Some("Line four")),
            ],
        },
        PageDiff { page_index: 1, status: PageStatus::Match, entries: vec![] },
    ]);
    let gt = golden_truth(&rep, "golden_demo", "Test golden snapshot");
    assert_eq!(gt.name, "golden_demo");
    assert_eq!(gt.pages.len(), 2);
    assert_eq!(gt.pages[0].page, 1);
    assert_eq!(gt.pages[0].status, "modified");
    assert_eq!(gt.pages[0].regions.len(), 2);
    assert_eq!(gt.pages[0].regions[0].new_text.as_deref(), Some("Line TWO"));
    assert_eq!(gt.pages[0].regions[0].old_text.as_deref(), Some("Line two"));
    assert_eq!(gt.pages[0].regions[1].old_text, None);
    assert_eq!(gt.pages[0].regions[1].new_text.as_deref(), Some("Line four"));
    assert!(gt.pages[0].regions[0].rect.is_none());
    assert_eq!(gt.pages[1].status, "match");
    // The frozen truth scores the report it came from perfectly.
    let s = run(DiffMode::Text, &gt, &rep);
    assert_eq!(s.text_content, Some(MatchCounts { tp: 2, fp: 0, fn_: 0 }));
    assert_eq!((s.pages_total, s.pages_correct), (2, 2));
}

#[test]
fn splitmix_sequence_is_reproducible() {
    let mut a = Rng::new(42);
    let mut b = Rng::new(42);
    for _ in 0..5 {
        assert_eq!(a.next_u64(), b.next_u64());
    }
    let mut z = Rng::new(0);
    assert_eq!(z.next_u64(), 0xE220_A839_7B1D_CDAF);
}

#[test]
fn relabelled_change_kinds_score_the_same() {
    let gt = gt_with(vec![region("hello"), region("world")], "modified");
    let page = |k1: DiffKind, k2: DiffKind| {
        report_with(vec![PageDiff {
            page_index: 0,
            status: PageStatus::Modified,
            entries: vec![entry(k1, None, Some("hello")), entry(k2, Some("x"), Some("extra"))],
        }])
    };
    let a = score_text_content(&gt, &page(DiffKind::Added, DiffKind::Modified));
    let b = score_text_content(&gt, &page(DiffKind::Modified, DiffKind::Removed));
    assert_eq!(a, b);
    assert_eq!(a, MatchCounts { tp: 1, fp: 1, fn_: 1 });
}
