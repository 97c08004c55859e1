//! Accuracy scoring for the diff engine: the integer side of the metrics.
//!
//! Ground-truth changes are matched with detected ones; the matches give
//! true positives, false positives and false negatives, from which precision,
//! recall and F1 are derived by the caller. Page classification counts how
//! many pages carry the expected status.

use vstd::prelude::*;
use crate::bench::case::{expected_status, ChangeRegion, GroundTruth, PageTruth};
use crate::report::{
    entries_view, is_change_kind, opt_text, pages_view, some_page_changed, status_name,
    DiffEntry, DiffMode, DiffReport, EntryView, PageDiff, PageStatus, PageView,
};
use crate::strings::norm_spec;

verus! {

pub use crate::strings::norm;

/// True positives, false positives and false negatives of one metric.
#[derive(Debug, Clone, Copy, PartialEq, Eq, Structural)]
pub struct MatchCounts {
    pub tp: usize,
    pub fp: usize,
    pub fn_: usize,
}

impl MatchCounts {
    /// Whether the metric saw anything at all.
    pub fn is_valid(&self) -> (b: bool)
        ensures
            b == (self.tp + self.fp + self.fn_ > 0),
    {
        self.tp > 0 || self.fp > 0 || self.fn_ > 0
    }
}

// ---- matching over a boolean matrix -------------------------------------------

/// Number of `true` values.
pub open spec fn count_true(v: Seq<bool>) -> nat
    decreases v.len(),
{
    if v.len() == 0 {
        0
    } else {
        count_true(v.drop_last()) + if v.last() { 1nat } else { 0nat }
    }
}

/// Whether ground-truth item `i` matches some detected item.
pub open spec fn row_hit(mat: Seq<Seq<bool>>, i: int, n_det: nat) -> bool {
    exists|j: int| 0 <= j < n_det && #[trigger] mat[i][j]
}

/// Whether detected item `j` matches some ground-truth item.
pub open spec fn col_hit(mat: Seq<Seq<bool>>, j: int) -> bool {
    exists|i: int| 0 <= i < mat.len() && #[trigger] mat[i][j]
}

/// The counts of a match matrix: a ground-truth item is found when it
/// matches some detection; a detection is a false positive when it matches
/// no ground-truth item.
pub open spec fn matrix_counts(mat: Seq<Seq<bool>>, n_det: nat) -> MatchCounts {
    let tp = count_true(Seq::new(mat.len(), |i: int| row_hit(mat, i, n_det)));
    let matched = count_true(Seq::new(n_det, |j: int| col_hit(mat, j)));
    MatchCounts { tp: tp as usize, fp: (n_det - matched) as usize, fn_: (mat.len() - tp) as usize }
}

proof fn lemma_count_true_le(v: Seq<bool>)
    ensures
        count_true(v) <= v.len(),
    decreases v.len(),
{
    if v.len() > 0 {
        lemma_count_true_le(v.drop_last());
    }
}

proof fn lemma_count_true_ext(a: Seq<bool>, b: Seq<bool>)
    requires
        a.len() == b.len(),
        forall|i: int| 0 <= i < a.len() ==> a[i] == b[i],
    ensures
        count_true(a) == count_true(b),
{
    assert(a =~= b);
}

/// Count a match matrix with `n_det` columns.
pub fn match_counts(matches: &Vec<Vec<bool>>, n_det: usize) -> (c: MatchCounts)
    requires
        forall|i: int| 0 <= i < matches@.len() ==> (#[trigger] matches@[i])@.len() == n_det,
    ensures
        c == matrix_counts(matches@.map_values(|r: Vec<bool>| r@), n_det as nat),
{
    let ghost mat = matches@.map_values(|r: Vec<bool>| r@);
    let n_gt = matches.len();
    let mut recalled: Vec<bool> = Vec::new();
    let mut matched: Vec<bool> = Vec::new();
    for j in 0..n_det
        invariant
            matched@.len() == j,
            forall|k: int| 0 <= k < j ==> !matched@[k],
    {
        matched.push(false);
    }
    for gi in 0..n_gt
        invariant
            n_gt == matches@.len(),
            mat == matches@.map_values(|r: Vec<bool>| r@),
            forall|i: int| 0 <= i < matches@.len() ==> (#[trigger] matches@[i])@.len() == n_det,
            recalled@.len() == gi,
            matched@.len() == n_det,
            forall|i: int| 0 <= i < gi ==> recalled@[i] == row_hit(mat, i, n_det as nat),
            forall|j: int| 0 <= j < n_det ==> matched@[j] == exists|i: int| 0 <= i < gi && #[trigger] mat[i][j],
    {
        let row = &matches[gi];
        assert(mat[gi as int] == row@);
        let mut hit = false;
        for di in 0..n_det
            invariant
                row@.len() == n_det,
                mat[gi as int] == row@,
                mat == matches@.map_values(|r: Vec<bool>| r@),
                n_gt == matches@.len(),
                gi < n_gt,
                matched@.len() == n_det,
                hit == exists|j: int| 0 <= j < di && #[trigger] mat[gi as int][j],
                forall|j: int| 0 <= j < n_det ==> matched@[j] == ((exists|i: int| 0 <= i < gi && #[trigger] mat[i][j])
                    || (j < di && mat[gi as int][j])),
        {
            if row[di] {
                hit = true;
                matched.set(di, true);
            }
        }
        recalled.push(hit);
        assert forall|j: int| 0 <= j < n_det implies matched@[j] == exists|i: int| 0 <= i < gi + 1 && #[trigger] mat[i][j] by {
            if matched@[j] {
                if !(exists|i: int| 0 <= i < gi && #[trigger] mat[i][j]) {
                    assert(mat[gi as int][j]);
                }
            }
        }
    }
    let ghost rows = Seq::new(mat.len(), |i: int| row_hit(mat, i, n_det as nat));
    let ghost cols = Seq::new(n_det as nat, |j: int| col_hit(mat, j));
    let tp = count_trues(&recalled);
    let m = count_trues(&matched);
    proof {
        lemma_count_true_ext(recalled@, rows);
        lemma_count_true_ext(matched@, cols);
        lemma_count_true_le(rows);
        lemma_count_true_le(cols);
    }
    MatchCounts { tp, fp: n_det - m, fn_: n_gt - tp }
}

/// Number of `true` values, computed.
fn count_trues(v: &Vec<bool>) -> (n: usize)
    ensures
        n == count_true(v@),
{
    let mut n: usize = 0;
    let len = v.len();
    for i in 0..len
        invariant
            len == v@.len(),
            n == count_true(v@.take(i as int)),
            n <= i,
    {
        assert(v@.take(i + 1).drop_last() == v@.take(i as int));
        if v[i] {
            n = n + 1;
        }
    }
    assert(v@.take(len as int) == v@);
    n
}

/// True positives never exceed the ground-truth items, and the found and
/// missed items together are all of them.
pub proof fn law_counts_partition_truth(mat: Seq<Seq<bool>>, n_det: nat)
    requires
        mat.len() <= usize::MAX,
        n_det <= usize::MAX,
    ensures
        matrix_counts(mat, n_det).tp + matrix_counts(mat, n_det).fn_ == mat.len(),
        matrix_counts(mat, n_det).fp <= n_det,
{
    let rows = Seq::new(mat.len(), |i: int| row_hit(mat, i, n_det));
    let cols = Seq::new(n_det, |j: int| col_hit(mat, j));
    lemma_count_true_le(rows);
    lemma_count_true_le(cols);
}

// ---- text-content matching ----------------------------------------------------

/// An old/new text pair.
pub type TextPair = (Option<Seq<char>>, Option<Seq<char>>);

/// Whether a pair carries at least one text.
pub open spec fn has_text(t: TextPair) -> bool {
    t.0 is Some || t.1 is Some
}

/// The text pair of a ground-truth region.
pub open spec fn region_pair(r: ChangeRegion) -> TextPair {
    (opt_text(r.old_text), opt_text(r.new_text))
}

/// The regions of one page that carry text, as pairs.
pub open spec fn region_texts(rs: Seq<ChangeRegion>) -> Seq<TextPair>
    decreases rs.len(),
{
    if rs.len() == 0 {
        Seq::empty()
    } else {
        region_texts(rs.drop_last()) + if has_text(region_pair(rs.last())) {
            seq![region_pair(rs.last())]
        } else {
            Seq::empty()
        }
    }
}

/// The ground-truth regions carrying text, page after page.
pub open spec fn truth_texts(ps: Seq<PageTruth>) -> Seq<TextPair>
    decreases ps.len(),
{
    if ps.len() == 0 {
        Seq::empty()
    } else {
        truth_texts(ps.drop_last()) + region_texts(ps.last().regions@)
    }
}

/// The change entries of one page that carry text, as pairs.
pub open spec fn entry_texts(es: Seq<EntryView>) -> Seq<TextPair>
    decreases es.len(),
{
    if es.len() == 0 {
        Seq::empty()
    } else {
        let e = es.last();
        entry_texts(es.drop_last()) + if is_change_kind(e.kind) && has_text((e.old_text, e.new_text)) {
            seq![(e.old_text, e.new_text)]
        } else {
            Seq::empty()
        }
    }
}

/// The detected change entries carrying text, page after page.
pub open spec fn detected_texts(ps: Seq<PageView>) -> Seq<TextPair>
    decreases ps.len(),
{
    if ps.len() == 0 {
        Seq::empty()
    } else {
        detected_texts(ps.drop_last()) + entry_texts(ps.last().entries)
    }
}

/// Whether two optional texts are both present and equal once white space
/// is collapsed.
pub open spec fn same_text(a: Option<Seq<char>>, b: Option<Seq<char>>) -> bool {
    a matches Some(x) && b matches Some(y) && norm_spec(x) == norm_spec(y)
}

/// A detection matches a ground-truth change through its new text or its old
/// text, whatever kind the engine gave it.
pub open spec fn texts_match(g: TextPair, d: TextPair) -> bool {
    same_text(g.1, d.1) || same_text(g.0, d.0)
}

/// The match matrix of ground-truth text changes against detections.
pub open spec fn text_matrix(gs: Seq<TextPair>, ds: Seq<TextPair>) -> Seq<Seq<bool>> {
    Seq::new(gs.len(), |i: int| Seq::new(ds.len(), |j: int| texts_match(gs[i], ds[j])))
}

/// An optional text, white-space collapsed.
pub open spec fn opt_norm(o: Option<Seq<char>>) -> Option<Seq<char>> {
    match o {
        Some(s) => Some(norm_spec(s)),
        None => None,
    }
}

fn norm_opt(o: &Option<String>) -> (r: Option<String>)
    ensures
        opt_text(r) == opt_norm(opt_text(*o)),
{
    match o {
        Some(s) => Some(norm(s.as_str())),
        None => None,
    }
}

/// The pair values of a vector of optional string pairs.
pub open spec fn pairs_view(v: Seq<(Option<String>, Option<String>)>) -> Seq<TextPair> {
    v.map_values(|p: (Option<String>, Option<String>)| (opt_text(p.0), opt_text(p.1)))
}

/// A pair with both texts collapsed.
pub open spec fn pair_norm(t: TextPair) -> TextPair {
    (opt_norm(t.0), opt_norm(t.1))
}

fn push_pair(out: &mut Vec<(Option<String>, Option<String>)>, a: &Option<String>, b: &Option<String>)
    ensures
        pairs_view(final(out)@) == pairs_view(old(out)@).push(pair_norm((opt_text(*a), opt_text(*b)))),
{
    let na = norm_opt(a);
    let nb = norm_opt(b);
    let ghost before = out@;
    out.push((na, nb));
    assert(pairs_view(out@) =~= pairs_view(before).push(pair_norm((opt_text(*a), opt_text(*b)))));
}

/// The text-carrying ground-truth regions, collapsed.
fn collect_truth(pages: &Vec<PageTruth>) -> (out: Vec<(Option<String>, Option<String>)>)
    ensures
        pairs_view(out@) == truth_texts(pages@).map_values(|t: TextPair| pair_norm(t)),
{
    let mut out: Vec<(Option<String>, Option<String>)> = Vec::new();
    let n = pages.len();
    for i in 0..n
        invariant
            n == pages@.len(),
            pairs_view(out@) == truth_texts(pages@.take(i as int)).map_values(|t: TextPair| pair_norm(t)),
    {
        let rs = &pages[i].regions;
        let m = rs.len();
        let ghost base = truth_texts(pages@.take(i as int));
        assert(pages@.take(i + 1).drop_last() == pages@.take(i as int));
        for j in 0..m
            invariant
                m == rs@.len(),
                rs@ == pages@[i as int].regions@,
                pairs_view(out@) == (base + region_texts(rs@.take(j as int))).map_values(|t: TextPair| pair_norm(t)),
        {
            let r = &rs[j];
            assert(rs@.take(j + 1).drop_last() == rs@.take(j as int));
            if r.old_text.is_some() || r.new_text.is_some() {
                push_pair(&mut out, &r.old_text, &r.new_text);
                assert((base + region_texts(rs@.take(j + 1))).map_values(|t: TextPair| pair_norm(t))
                    =~= (base + region_texts(rs@.take(j as int))).map_values(|t: TextPair| pair_norm(t)).push(
                        pair_norm(region_pair(*r))));
            } else {
                assert(region_texts(rs@.take(j + 1)) =~= region_texts(rs@.take(j as int)));
            }
        }
        assert(rs@.take(m as int) == rs@);
    }
    assert(pages@.take(n as int) == pages@);
    out
}

/// The text-carrying change entries, collapsed.
fn collect_detected(pages: &Vec<PageDiff>) -> (out: Vec<(Option<String>, Option<String>)>)
    ensures
        pairs_view(out@) == detected_texts(pages_view(pages@)).map_values(|t: TextPair| pair_norm(t)),
{
    let mut out: Vec<(Option<String>, Option<String>)> = Vec::new();
    let n = pages.len();
    let ghost ps = pages_view(pages@);
    for i in 0..n
        invariant
            n == pages@.len(),
            ps == pages_view(pages@),
            pairs_view(out@) == detected_texts(ps.take(i as int)).map_values(|t: TextPair| pair_norm(t)),
    {
        let es = &pages[i].entries;
        let m = es.len();
        let ghost ev = entries_view(es@);
        let ghost base = detected_texts(ps.take(i as int));
        assert(ps.take(i + 1).drop_last() == ps.take(i as int));
        assert(ps[i as int].entries == ev);
        for j in 0..m
            invariant
                m == es@.len(),
                ev == entries_view(es@),
                pairs_view(out@) == (base + entry_texts(ev.take(j as int))).map_values(|t: TextPair| pair_norm(t)),
        {
            let e = &es[j];
            assert(ev.take(j + 1).drop_last() == ev.take(j as int));
            assert(ev[j as int] == e@);
            if e.is_change() && (e.old_text.is_some() || e.new_text.is_some()) {
                push_pair(&mut out, &e.old_text, &e.new_text);
                assert((base + entry_texts(ev.take(j + 1))).map_values(|t: TextPair| pair_norm(t))
                    =~= (base + entry_texts(ev.take(j as int))).map_values(|t: TextPair| pair_norm(t)).push(
                        pair_norm((e@.old_text, e@.new_text))));
            } else {
                assert(entry_texts(ev.take(j + 1)) =~= entry_texts(ev.take(j as int)));
            }
        }
        assert(ev.take(m as int) == ev);
    }
    assert(ps.take(n as int) == ps);
    out
}

fn opt_eq(a: &Option<String>, b: &Option<String>) -> (r: bool)
    ensures
        r == (a is Some && b is Some && opt_text(*a) == opt_text(*b)),
{
    match (a, b) {
        (Some(x), Some(y)) => *x == *y,
        _ => false,
    }
}

/// Match ground-truth text changes with the detected change entries by
/// collapsed text and count true positives, false positives and misses.
pub fn score_text_content(gt: &GroundTruth, report: &DiffReport) -> (c: MatchCounts)
    ensures
        ({
            let gs = truth_texts(gt.pages@);
            let ds = detected_texts(pages_view(report.pages@));
            c == matrix_counts(text_matrix(gs, ds), ds.len())
        }),
{
    let gs = collect_truth(&gt.pages);
    let ds = collect_detected(&report.pages);
    let ghost sg = truth_texts(gt.pages@);
    let ghost sd = detected_texts(pages_view(report.pages@));
    let mut mat: Vec<Vec<bool>> = Vec::new();
    let ng = gs.len();
    let nd = ds.len();
    let ghost want = text_matrix(sg, sd);
    assert(pairs_view(gs@).len() == gs@.len());
    assert(pairs_view(ds@).len() == ds@.len());
    assert(sg.len() == ng);
    assert(sd.len() == nd);
    for i in 0..ng
        invariant
            ng == gs@.len(),
            nd == ds@.len(),
            pairs_view(gs@) == sg.map_values(|t: TextPair| pair_norm(t)),
            pairs_view(ds@) == sd.map_values(|t: TextPair| pair_norm(t)),
            want == text_matrix(sg, sd),
            sg.len() == ng,
            sd.len() == nd,
            mat@.len() == i,
            forall|k: int| 0 <= k < i ==> (#[trigger] mat@[k])@ == want[k],
    {
        let mut row: Vec<bool> = Vec::new();
        for j in 0..nd
            invariant
                ng == gs@.len(),
                nd == ds@.len(),
                i < ng,
                pairs_view(gs@) == sg.map_values(|t: TextPair| pair_norm(t)),
                pairs_view(ds@) == sd.map_values(|t: TextPair| pair_norm(t)),
                want == text_matrix(sg, sd),
                sg.len() == ng,
                sd.len() == nd,
                row@ == want[i as int].take(j as int),
        {
            let g = &gs[i];
            let d = &ds[j];
            assert(pairs_view(gs@)[i as int] == pair_norm(sg[i as int]));
            assert(pairs_view(ds@)[j as int] == pair_norm(sd[j as int]));
            let hit = opt_eq(&g.1, &d.1) || opt_eq(&g.0, &d.0);
            row.push(hit);
            assert(want[i as int].take(j + 1) =~= want[i as int].take(j as int).push(want[i as int][j as int]));
        }
        assert(want[i as int].take(nd as int) =~= want[i as int]);
        mat.push(row);
    }
    let c = match_counts(&mat, nd);
    assert(mat@.map_values(|r: Vec<bool>| r@) =~= want);
    c
}

/// Two entries alike but for which kind of change they are.
pub open spec fn alike_but_change_kind(a: EntryView, b: EntryView) -> bool {
    &&& is_change_kind(a.kind) == is_change_kind(b.kind)
    &&& a.old_text == b.old_text
    &&& a.new_text == b.new_text
}

/// Two reports' pages alike entry for entry but for the kinds of change.
pub open spec fn pages_alike_but_change_kind(a: Seq<PageView>, b: Seq<PageView>) -> bool {
    &&& a.len() == b.len()
    &&& forall|i: int| 0 <= i < a.len() ==> (#[trigger] a[i]).entries.len() == b[i].entries.len()
    &&& forall|i: int, j: int|
        0 <= i < a.len() && 0 <= j < a[i].entries.len() ==> alike_but_change_kind(
            #[trigger] a[i].entries[j],
            b[i].entries[j],
        )
}

proof fn lemma_entry_texts_alike(a: Seq<EntryView>, b: Seq<EntryView>)
    requires
        a.len() == b.len(),
        forall|j: int| 0 <= j < a.len() ==> alike_but_change_kind(#[trigger] a[j], b[j]),
    ensures
        entry_texts(a) == entry_texts(b),
    decreases a.len(),
{
    if a.len() > 0 {
        let (ad, bd) = (a.drop_last(), b.drop_last());
        assert forall|j: int| 0 <= j < ad.len() implies alike_but_change_kind(#[trigger] ad[j], bd[j]) by {
            assert(ad[j] == a[j] && bd[j] == b[j]);
        }
        lemma_entry_texts_alike(ad, bd);
        assert(alike_but_change_kind(a[a.len() - 1], b[b.len() - 1]));
    }
}

proof fn lemma_detected_texts_alike(a: Seq<PageView>, b: Seq<PageView>)
    requires
        pages_alike_but_change_kind(a, b),
    ensures
        detected_texts(a) == detected_texts(b),
    decreases a.len(),
{
    if a.len() > 0 {
        let (ad, bd) = (a.drop_last(), b.drop_last());
        assert forall|i: int| 0 <= i < ad.len() implies (#[trigger] ad[i]).entries.len() == bd[i].entries.len() by {
            assert(ad[i] == a[i] && bd[i] == b[i]);
        }
        assert forall|i: int, j: int| 0 <= i < ad.len() && 0 <= j < ad[i].entries.len() implies alike_but_change_kind(
            #[trigger] ad[i].entries[j],
            bd[i].entries[j],
        ) by {
            assert(ad[i] == a[i] && bd[i] == b[i]);
            assert(alike_but_change_kind(a[i].entries[j], b[i].entries[j]));
        }
        lemma_detected_texts_alike(ad, bd);
        let k = a.len() - 1;
        assert(a.last() == a[k] && b.last() == b[k]);
        assert(a[k].entries.len() == b[k].entries.len());
        assert forall|j: int| 0 <= j < a[k].entries.len() implies alike_but_change_kind(
            #[trigger] a[k].entries[j],
            b[k].entries[j],
        ) by {}
        lemma_entry_texts_alike(a[k].entries, b[k].entries);
    }
}

/// Text-content scoring does not look at the kind of change: detections
/// that differ only in being classed as added, removed or modified score
/// the same against any ground truth.
pub proof fn law_text_score_ignores_change_kind(gt: GroundTruth, a: Seq<PageView>, b: Seq<PageView>)
    requires
        pages_alike_but_change_kind(a, b),
    ensures
        matrix_counts(text_matrix(truth_texts(gt.pages@), detected_texts(a)), detected_texts(a).len())
            == matrix_counts(text_matrix(truth_texts(gt.pages@), detected_texts(b)), detected_texts(b).len()),
{
    lemma_detected_texts_alike(a, b);
}

// ---- page classification ------------------------------------------------------

/// The 0-based page a ground-truth page describes (`page - 1`, saturating).
pub open spec fn truth_key(p: PageTruth) -> int {
    if p.page == 0 { 0 } else { p.page - 1 }
}

/// The expected status of page `idx`: from the last ground-truth page that
/// names it.
pub open spec fn expected_at(ps: Seq<PageTruth>, mode: DiffMode, idx: int) -> Option<Seq<char>>
    decreases ps.len(),
{
    if ps.len() == 0 {
        None
    } else if truth_key(ps.last()) == idx {
        Some(expected_status(ps.last(), mode))
    } else {
        expected_at(ps.drop_last(), mode, idx)
    }
}

/// The detected status of page `idx`: from the last page diff with that index.
pub open spec fn detected_at(ps: Seq<PageView>, idx: int) -> Option<Seq<char>>
    decreases ps.len(),
{
    if ps.len() == 0 {
        None
    } else if ps.last().page_index == idx {
        Some(status_name(ps.last().status))
    } else {
        detected_at(ps.drop_last(), idx)
    }
}

/// One past the largest page index named by the ground truth.
pub open spec fn truth_bound(ps: Seq<PageTruth>) -> int
    decreases ps.len(),
{
    if ps.len() == 0 {
        0
    } else {
        let b = truth_bound(ps.drop_last());
        let k = truth_key(ps.last()) + 1;
        if k > b { k } else { b }
    }
}

/// One past the largest detected page index.
pub open spec fn detected_bound(ps: Seq<PageView>) -> int
    decreases ps.len(),
{
    if ps.len() == 0 {
        0
    } else {
        let b = detected_bound(ps.drop_last());
        let k = ps.last().page_index + 1;
        if k > b { k } else { b }
    }
}

/// Number of indices below `n` that satisfy `f`.
pub open spec fn count_below(f: spec_fn(int) -> bool, n: int) -> nat
    decreases n,
{
    if n <= 0 {
        0
    } else {
        count_below(f, n - 1) + if f(n - 1) { 1nat } else { 0nat }
    }
}

/// Pages counted: those present on at least one side. A page present on one
/// side only is counted and wrong.
pub open spec fn classification_total(gt: Seq<PageTruth>, rep: Seq<PageView>, mode: DiffMode) -> nat {
    let n = if truth_bound(gt) > detected_bound(rep) { truth_bound(gt) } else { detected_bound(rep) };
    count_below(|i: int| expected_at(gt, mode, i) is Some || detected_at(rep, i) is Some, n)
}

/// Pages whose detected status is the expected one.
pub open spec fn classification_correct(gt: Seq<PageTruth>, rep: Seq<PageView>, mode: DiffMode) -> nat {
    let n = if truth_bound(gt) > detected_bound(rep) { truth_bound(gt) } else { detected_bound(rep) };
    count_below(|i: int| expected_at(gt, mode, i) is Some && expected_at(gt, mode, i) == detected_at(rep, i), n)
}

proof fn lemma_count_below_le(f: spec_fn(int) -> bool, g: spec_fn(int) -> bool, n: int)
    requires
        forall|i: int| 0 <= i < n && #[trigger] f(i) ==> g(i),
    ensures
        count_below(f, n) <= count_below(g, n),
        count_below(g, n) <= if n > 0 { n } else { 0 },
    decreases n,
{
    if n > 0 {
        lemma_count_below_le(f, g, n - 1);
    }
}

fn expected_lookup(ps: &Vec<PageTruth>, mode: DiffMode, idx: usize) -> (r: Option<String>)
    ensures
        opt_text(r) == expected_at(ps@, mode, idx as int),
{
    let mut r: Option<String> = None;
    let n = ps.len();
    for k in 0..n
        invariant
            n == ps@.len(),
            opt_text(r) == expected_at(ps@.take(k as int), mode, idx as int),
    {
        assert(ps@.take(k + 1).drop_last() == ps@.take(k as int));
        let p = &ps[k];
        let key = if p.page == 0 { 0 } else { p.page - 1 };
        if key == idx {
            r = Some(String::from_str(p.status_for(mode)));
        }
    }
    assert(ps@.take(n as int) == ps@);
    r
}

fn detected_lookup(ps: &Vec<PageDiff>, idx: usize) -> (r: Option<String>)
    ensures
        opt_text(r) == detected_at(pages_view(ps@), idx as int),
{
    let mut r: Option<String> = None;
    let n = ps.len();
    let ghost pv = pages_view(ps@);
    for k in 0..n
        invariant
            n == ps@.len(),
            pv == pages_view(ps@),
            opt_text(r) == detected_at(pv.take(k as int), idx as int),
    {
        assert(pv.take(k + 1).drop_last() == pv.take(k as int));
        let p = &ps[k];
        if p.page_index == idx {
            r = Some(String::from_str(p.status.as_str()));
        }
    }
    assert(pv.take(n as int) == pv);
    r
}

/// Compare the expected status of every page with the detected one; returns
/// `(pages counted, pages correct)`.
///
/// The status of a page index is the one the last ground-truth page (or the
/// last page diff) naming it gives, as an index-keyed map filled in page
/// order would hold. The lookups scan the two page lists directly: every
/// index below the largest one is visited, so what is needed is each index's
/// last entry and the largest index, which the lists give without building a
/// map, and the contract states them over the lists themselves.
pub fn score_page_classification(mode: DiffMode, gt: &GroundTruth, report: &DiffReport) -> (r: (usize, usize))
    requires
        forall|i: int| 0 <= i < report.pages@.len() ==> (#[trigger] report.pages@[i]).page_index < usize::MAX,
    ensures
        r.0 == classification_total(gt.pages@, pages_view(report.pages@), mode),
        r.1 == classification_correct(gt.pages@, pages_view(report.pages@), mode),
        r.1 <= r.0,
{
    let ghost gp = gt.pages@;
    let ghost rp = pages_view(report.pages@);
    let mut bound: usize = 0;
    let n = gt.pages.len();
    for k in 0..n
        invariant
            n == gp.len(),
            gp == gt.pages@,
            bound as int == truth_bound(gp.take(k as int)),
    {
        assert(gp.take(k + 1).drop_last() == gp.take(k as int));
        let p = &gt.pages[k];
        let key = if p.page == 0 { 0 } else { p.page - 1 };
        if key + 1 > bound {
            bound = key + 1;
        }
    }
    assert(gp.take(n as int) == gp);
    let m = report.pages.len();
    for k in 0..m
        invariant
            m == report.pages@.len(),
            rp == pages_view(report.pages@),
            forall|i: int| 0 <= i < report.pages@.len() ==> (#[trigger] report.pages@[i]).page_index < usize::MAX,
            bound as int == (if truth_bound(gp) > detected_bound(rp.take(k as int)) { truth_bound(gp) } else { detected_bound(rp.take(k as int)) }),
    {
        assert(rp.take(k + 1).drop_last() == rp.take(k as int));
        assert(rp[k as int].page_index == report.pages@[k as int].page_index);
        let idx = report.pages[k].page_index;
        if idx + 1 > bound {
            bound = idx + 1;
        }
    }
    assert(rp.take(m as int) == rp);
    let ghost fc = |i: int| expected_at(gp, mode, i) is Some || detected_at(rp, i) is Some;
    let ghost fk = |i: int| expected_at(gp, mode, i) is Some && expected_at(gp, mode, i) == detected_at(rp, i);
    let mut total: usize = 0;
    let mut correct: usize = 0;
    for idx in 0..bound
        invariant
            gp == gt.pages@,
            rp == pages_view(report.pages@),
            fc == (|i: int| expected_at(gp, mode, i) is Some || detected_at(rp, i) is Some),
            fk == (|i: int| expected_at(gp, mode, i) is Some && expected_at(gp, mode, i) == detected_at(rp, i)),
            total == count_below(fc, idx as int),
            correct == count_below(fk, idx as int),
            total <= idx,
            correct <= idx,
    {
        let e = expected_lookup(&gt.pages, mode, idx);
        let d = detected_lookup(&report.pages, idx);
        assert(count_below(fc, idx + 1) == count_below(fc, idx as int) + if fc(idx as int) { 1nat } else { 0nat });
        assert(count_below(fk, idx + 1) == count_below(fk, idx as int) + if fk(idx as int) { 1nat } else { 0nat });
        assert(fc(idx as int) == (e is Some || d is Some));
        assert(fk(idx as int) == (e is Some && opt_text(e) == opt_text(d)));
        match (&e, &d) {
            (Some(a), Some(b)) => {
                total = total + 1;
                if *a == *b {
                    correct = correct + 1;
                }
            },
            (Some(_), None) | (None, Some(_)) => {
                total = total + 1;
            },
            (None, None) => {},
        }
    }
    proof {
        lemma_count_below_le(fk, fc, bound as int);
    }
    (total, correct)
}

/// Whether the engine reported a difference on a case whose ground truth
/// expects every page to match in this mode.
pub open spec fn is_doc_false_positive(mode: DiffMode, gt: Seq<PageTruth>, rep: DiffReport) -> bool {
    &&& (some_page_changed(pages_view(rep.pages@)) || rep.stats.added_pages > 0 || rep.stats.removed_pages > 0)
    &&& forall|i: int| 0 <= i < gt.len() ==> expected_status(#[trigger] gt[i], mode) == "match"@
}

pub fn doc_false_positive(mode: DiffMode, gt: &GroundTruth, report: &DiffReport) -> (b: bool)
    ensures
        b == is_doc_false_positive(mode, gt.pages@, *report),
{
    if !report.has_differences() {
        return false;
    }
    let n = gt.pages.len();
    let want = String::from_str("match");
    for k in 0..n
        invariant
            n == gt.pages@.len(),
            want@ == "match"@,
            forall|i: int| 0 <= i < k ==> expected_status(#[trigger] gt.pages@[i], mode) == "match"@,
    {
        if String::from_str(gt.pages[k].status_for(mode)) != want {
            return false;
        }
    }
    true
}

// ---- regions ---------------------------------------------------------------------

/// The ground-truth rectangles, page after page (regions without one skipped).
pub open spec fn truth_rects(ps: Seq<PageTruth>) -> Seq<[u32; 4]>
    decreases ps.len(),
{
    if ps.len() == 0 {
        Seq::empty()
    } else {
        truth_rects(ps.drop_last()) + region_rects(ps.last().regions@)
    }
}

pub open spec fn region_rects(rs: Seq<ChangeRegion>) -> Seq<[u32; 4]>
    decreases rs.len(),
{
    if rs.len() == 0 {
        Seq::empty()
    } else {
        region_rects(rs.drop_last()) + match rs.last().rect {
            Some(r) => seq![r],
            None => Seq::empty(),
        }
    }
}

/// The detected visual rectangles, entry after entry, page after page.
pub open spec fn detected_rects(ps: Seq<PageView>) -> Seq<[u32; 4]>
    decreases ps.len(),
{
    if ps.len() == 0 {
        Seq::empty()
    } else {
        detected_rects(ps.drop_last()) + entry_rects(ps.last().entries)
    }
}

pub open spec fn entry_rects(es: Seq<EntryView>) -> Seq<[u32; 4]>
    decreases es.len(),
{
    if es.len() == 0 {
        Seq::empty()
    } else {
        entry_rects(es.drop_last()) + es.last().visual_rects.map_values(
            |r: crate::report::Rect| [r.left, r.top, r.right, r.bottom],
        )
    }
}

/// The ground-truth rectangles of a case.
pub fn collect_truth_rects(gt: &GroundTruth) -> (out: Vec<[u32; 4]>)
    ensures
        out@ == truth_rects(gt.pages@),
{
    let mut out: Vec<[u32; 4]> = Vec::new();
    let n = gt.pages.len();
    for i in 0..n
        invariant
            n == gt.pages@.len(),
            out@ == truth_rects(gt.pages@.take(i as int)),
    {
        assert(gt.pages@.take(i + 1).drop_last() == gt.pages@.take(i as int));
        let rs = &gt.pages[i].regions;
        let m = rs.len();
        let ghost base = out@;
        for j in 0..m
            invariant
                m == rs@.len(),
                out@ == base + region_rects(rs@.take(j as int)),
        {
            assert(rs@.take(j + 1).drop_last() == rs@.take(j as int));
            match rs[j].rect {
                Some(r) => {
                    out.push(r);
                    assert(base + region_rects(rs@.take(j + 1)) =~= (base + region_rects(rs@.take(j as int))).push(r));
                },
                None => {
                    assert(region_rects(rs@.take(j + 1)) =~= region_rects(rs@.take(j as int)));
                },
            }
        }
        assert(rs@.take(m as int) == rs@);
    }
    assert(gt.pages@.take(n as int) == gt.pages@);
    out
}

/// The detected visual rectangles of a report.
pub fn collect_detected_rects(report: &DiffReport) -> (out: Vec<[u32; 4]>)
    ensures
        out@ == detected_rects(pages_view(report.pages@)),
{
    let mut out: Vec<[u32; 4]> = Vec::new();
    let ghost ps = pages_view(report.pages@);
    let n = report.pages.len();
    for i in 0..n
        invariant
            n == report.pages@.len(),
            ps == pages_view(report.pages@),
            out@ == detected_rects(ps.take(i as int)),
    {
        assert(ps.take(i + 1).drop_last() == ps.take(i as int));
        let es = &report.pages[i].entries;
        let ghost ev = entries_view(es@);
        assert(ps[i as int].entries == ev);
        let m = es.len();
        let ghost base = out@;
        for j in 0..m
            invariant
                m == es@.len(),
                ev == entries_view(es@),
                out@ == base + entry_rects(ev.take(j as int)),
        {
            assert(ev.take(j + 1).drop_last() == ev.take(j as int));
            let vr = &es[j].visual_rects;
            let ghost mid = out@;
            let q = vr.len();
            for k in 0..q
                invariant
                    q == vr@.len(),
                    out@ == mid + vr@.take(k as int).map_values(|r: crate::report::Rect| [r.left, r.top, r.right, r.bottom]),
            {
                let r = vr[k];
                out.push([r.left, r.top, r.right, r.bottom]);
                assert(vr@.take(k + 1).map_values(|r: crate::report::Rect| [r.left, r.top, r.right, r.bottom])
                    =~= vr@.take(k as int).map_values(|r: crate::report::Rect| [r.left, r.top, r.right, r.bottom]).push([r.left, r.top, r.right, r.bottom]));
            }
            assert(vr@.take(q as int) == vr@);
            assert(ev[j as int].visual_rects == vr@);
            assert(out@ =~= base + entry_rects(ev.take(j + 1)));
        }
        assert(ev.take(m as int) == ev);
    }
    assert(ps.take(n as int) == ps);
    out
}

/// Region scores from the overlap matrix of ground-truth rectangles against
/// detected ones; `None` when the ground truth has no rectangle to check.
pub fn score_region_matches(matches: &Vec<Vec<bool>>, n_det: usize) -> (r: Option<MatchCounts>)
    requires
        forall|i: int| 0 <= i < matches@.len() ==> (#[trigger] matches@[i])@.len() == n_det,
    ensures
        r == if matches@.len() == 0 {
            None
        } else {
            Some(matrix_counts(matches@.map_values(|r: Vec<bool>| r@), n_det as nat))
        },
{
    if matches.len() == 0 {
        None
    } else {
        Some(match_counts(matches, n_det))
    }
}

// ---- micro-averaging -----------------------------------------------------------

/// The counts of the valid metrics (those that saw anything).
pub open spec fn valid_counts(cs: Seq<MatchCounts>) -> Seq<MatchCounts>
    decreases cs.len(),
{
    if cs.len() == 0 {
        Seq::empty()
    } else {
        let c = cs.last();
        valid_counts(cs.drop_last()) + if c.tp + c.fp + c.fn_ > 0 { seq![c] } else { Seq::empty() }
    }
}

pub open spec fn sum_tp(cs: Seq<MatchCounts>) -> nat
    decreases cs.len(),
{
    if cs.len() == 0 { 0 } else { sum_tp(cs.drop_last()) + cs.last().tp as nat }
}

pub open spec fn sum_fp(cs: Seq<MatchCounts>) -> nat
    decreases cs.len(),
{
    if cs.len() == 0 { 0 } else { sum_fp(cs.drop_last()) + cs.last().fp as nat }
}

pub open spec fn sum_fn(cs: Seq<MatchCounts>) -> nat
    decreases cs.len(),
{
    if cs.len() == 0 { 0 } else { sum_fn(cs.drop_last()) + cs.last().fn_ as nat }
}

/// Pooled counts of the valid metrics, or `None` when none is valid.
pub open spec fn micro_spec(cs: Seq<MatchCounts>) -> Option<MatchCounts> {
    let v = valid_counts(cs);
    if v.len() == 0 {
        None
    } else {
        Some(MatchCounts { tp: sum_tp(v) as usize, fp: sum_fp(v) as usize, fn_: sum_fn(v) as usize })
    }
}

proof fn lemma_valid_sums(cs: Seq<MatchCounts>)
    ensures
        sum_tp(valid_counts(cs)) == sum_tp(cs),
        sum_fp(valid_counts(cs)) == sum_fp(cs),
        sum_fn(valid_counts(cs)) == sum_fn(cs),
        valid_counts(cs).len() == 0 <==> forall|i: int| 0 <= i < cs.len() ==> #[trigger] cs[i].tp + cs[i].fp + cs[i].fn_ == 0,
    decreases cs.len(),
{
    if cs.len() > 0 {
        let pre = cs.drop_last();
        lemma_valid_sums(pre);
        let c = cs.last();
        let v0 = valid_counts(pre);
        if c.tp + c.fp + c.fn_ > 0 {
            let v = v0 + seq![c];
            assert(v.drop_last() =~= v0);
            assert(v.last() == c);
            assert(cs[cs.len() - 1] == c);
        } else {
            assert(valid_counts(cs) =~= v0);
            assert forall|i: int| 0 <= i < cs.len() && #[trigger] cs[i].tp + cs[i].fp + cs[i].fn_ != 0 implies i < pre.len() && pre[i].tp + pre[i].fp + pre[i].fn_ != 0 by {
                if i == cs.len() - 1 {
                    assert(cs[i] == c);
                } else {
                    assert(pre[i] == cs[i]);
                }
            }
        }
        assert forall|i: int| 0 <= i < pre.len() implies #[trigger] pre[i] == cs[i] by {}
    }
}

/// Pooling counts every metric that saw anything: there is a pooled result
/// exactly when some metric has a true positive, a false positive or a
/// miss, and its counts are the sums over all metrics (a metric that saw
/// nothing adds nothing).
pub proof fn law_micro_pools_everything(cs: Seq<MatchCounts>)
    requires
        sum_tp(cs) <= usize::MAX,
        sum_fp(cs) <= usize::MAX,
        sum_fn(cs) <= usize::MAX,
    ensures
        micro_spec(cs) is None <==> forall|i: int| 0 <= i < cs.len() ==> #[trigger] cs[i].tp + cs[i].fp + cs[i].fn_ == 0,
        micro_spec(cs) matches Some(t) ==> t.tp == sum_tp(cs) && t.fp == sum_fp(cs) && t.fn_ == sum_fn(cs),
{
    lemma_valid_sums(cs);
}

/// Micro-average: pool the counts of every metric that saw anything.
pub fn micro(prfs: &Vec<MatchCounts>) -> (r: Option<MatchCounts>)
    requires
        sum_tp(valid_counts(prfs@)) <= usize::MAX,
        sum_fp(valid_counts(prfs@)) <= usize::MAX,
        sum_fn(valid_counts(prfs@)) <= usize::MAX,
    ensures
        r == micro_spec(prfs@),
{
    let mut tp: usize = 0;
    let mut fp: usize = 0;
    let mut fn_: usize = 0;
    let mut any = false;
    let n = prfs.len();
    let ghost all = valid_counts(prfs@);
    for i in 0..n
        invariant
            n == prfs@.len(),
            all == valid_counts(prfs@),
            sum_tp(all) <= usize::MAX,
            sum_fp(all) <= usize::MAX,
            sum_fn(all) <= usize::MAX,
            any == (valid_counts(prfs@.take(i as int)).len() > 0),
            tp == sum_tp(valid_counts(prfs@.take(i as int))),
            fp == sum_fp(valid_counts(prfs@.take(i as int))),
            fn_ == sum_fn(valid_counts(prfs@.take(i as int))),
    {
        let c = prfs[i];
        let ghost pre = prfs@.take(i as int);
        assert(prfs@.take(i + 1) == pre.push(c));
        proof {
            assert(pre.push(c).drop_last() == pre);
            lemma_valid_prefix_sums(prfs@, i + 1);
            let v0 = valid_counts(pre);
            if c.tp + c.fp + c.fn_ > 0 {
                assert(valid_counts(pre.push(c)) == v0.push(c));
                assert(v0.push(c).drop_last() == v0);
            } else {
                assert(valid_counts(pre.push(c)) == v0);
            }
        }
        if c.is_valid() {
            any = true;
            tp = tp + c.tp;
            fp = fp + c.fp;
            fn_ = fn_ + c.fn_;
        }
    }
    assert(prfs@.take(n as int) == prfs@);
    if any {
        Some(MatchCounts { tp, fp, fn_ })
    } else {
        None
    }
}

proof fn lemma_valid_prefix_sums(cs: Seq<MatchCounts>, k: int)
    requires
        0 <= k <= cs.len(),
    ensures
        sum_tp(valid_counts(cs.take(k))) <= sum_tp(valid_counts(cs)),
        sum_fp(valid_counts(cs.take(k))) <= sum_fp(valid_counts(cs)),
        sum_fn(valid_counts(cs.take(k))) <= sum_fn(valid_counts(cs)),
    decreases cs.len() - k,
{
    if k < cs.len() {
        lemma_valid_prefix_sums(cs, k + 1);
        let a = cs.take(k);
        let c = cs[k];
        assert(cs.take(k + 1).drop_last() == a);
        assert(cs.take(k + 1).last() == c);
        let v0 = valid_counts(a);
        if c.tp + c.fp + c.fn_ > 0 {
            assert(valid_counts(cs.take(k + 1)) == v0.push(c));
            assert(v0.push(c).drop_last() == v0);
        } else {
            assert(valid_counts(cs.take(k + 1)) == v0);
        }
    } else {
        assert(cs.take(k) == cs);
    }
}

// ---- scoring a run and aggregating per mode --------------------------------------

/// The integer scores of one comparison run (one case in one mode).
#[derive(Debug, Clone, Copy, PartialEq, Eq, Structural)]
pub struct CaseTally {
    pub mode: DiffMode,
    /// Text-content counts, in the modes that diff text.
    pub text_content: Option<MatchCounts>,
    /// Region counts, in visual mode when the truth has rectangles.
    pub region: Option<MatchCounts>,
    pub pages_total: usize,
    pub pages_correct: usize,
    /// The engine reported a difference where every page should match.
    pub doc_false_positive: bool,
}

/// The scores of a run: text content in text and hybrid mode, regions in
/// visual mode (from `region_matches`, the overlap matrix of the truth's
/// rectangles against the detected ones), page classification and the
/// false-positive flag in every mode.
pub open spec fn case_tally(mode: DiffMode, gt: GroundTruth, report: DiffReport, region_matches: Seq<Seq<bool>>) -> CaseTally {
    let gs = truth_texts(gt.pages@);
    let ds = detected_texts(pages_view(report.pages@));
    let n_det = detected_rects(pages_view(report.pages@)).len();
    CaseTally {
        mode,
        text_content: if mode == DiffMode::Text || mode == DiffMode::Hybrid {
            Some(matrix_counts(text_matrix(gs, ds), ds.len()))
        } else {
            None
        },
        region: if mode == DiffMode::Visual && region_matches.len() > 0 {
            Some(matrix_counts(region_matches, n_det))
        } else {
            None
        },
        pages_total: classification_total(gt.pages@, pages_view(report.pages@), mode) as usize,
        pages_correct: classification_correct(gt.pages@, pages_view(report.pages@), mode) as usize,
        doc_false_positive: is_doc_false_positive(mode, gt.pages@, report),
    }
}

/// Score one report against its ground truth. `region_matches[i][j]` tells
/// whether the `i`-th truth rectangle overlaps the `j`-th detected one
/// enough to count (see `collect_truth_rects`, `collect_detected_rects`);
/// it is read in visual mode only.
pub fn score_case(mode: DiffMode, gt: &GroundTruth, report: &DiffReport, region_matches: &Vec<Vec<bool>>) -> (t: CaseTally)
    requires
        forall|i: int| 0 <= i < report.pages@.len() ==> (#[trigger] report.pages@[i]).page_index < usize::MAX,
        mode == DiffMode::Visual ==> region_matches@.len() == truth_rects(gt.pages@).len(),
        mode == DiffMode::Visual ==> forall|i: int|
            0 <= i < region_matches@.len() ==> (#[trigger] region_matches@[i])@.len() == detected_rects(
                pages_view(report.pages@),
            ).len(),
    ensures
        t == case_tally(mode, *gt, *report, region_matches@.map_values(|r: Vec<bool>| r@)),
{
    let text_content = match mode {
        DiffMode::Text | DiffMode::Hybrid => Some(score_text_content(gt, report)),
        DiffMode::Visual => None,
    };
    let region = match mode {
        DiffMode::Visual => {
            let detected = collect_detected_rects(report);
            score_region_matches(region_matches, detected.len())
        },
        _ => None,
    };
    let (pages_total, pages_correct) = score_page_classification(mode, gt, report);
    let fp = doc_false_positive(mode, gt, report);
    CaseTally { mode, text_content, region, pages_total, pages_correct, doc_false_positive: fp }
}

/// The integer scores of one mode over all runs.
#[derive(Debug, Clone, Copy, PartialEq, Eq, Structural)]
pub struct ModeTally {
    pub mode: DiffMode,
    pub cases: usize,
    pub text_content: Option<MatchCounts>,
    pub region: Option<MatchCounts>,
    pub pages_total: usize,
    pub pages_correct: usize,
    pub false_positive_docs: usize,
}

/// The modes of the runs, each once, in order of first appearance.
pub open spec fn modes_seen(ss: Seq<CaseTally>) -> Seq<DiffMode>
    decreases ss.len(),
{
    if ss.len() == 0 {
        Seq::empty()
    } else {
        let ms = modes_seen(ss.drop_last());
        if ms.contains(ss.last().mode) {
            ms
        } else {
            ms.push(ss.last().mode)
        }
    }
}

/// The runs in mode `m`.
pub open spec fn runs_of(ss: Seq<CaseTally>, m: DiffMode) -> Seq<CaseTally>
    decreases ss.len(),
{
    if ss.len() == 0 {
        Seq::empty()
    } else {
        runs_of(ss.drop_last(), m) + if ss.last().mode == m { seq![ss.last()] } else { Seq::empty() }
    }
}

/// The present values, in order.
pub open spec fn present(os: Seq<Option<MatchCounts>>) -> Seq<MatchCounts>
    decreases os.len(),
{
    if os.len() == 0 {
        Seq::empty()
    } else {
        present(os.drop_last()) + match os.last() {
            Some(c) => seq![c],
            None => Seq::empty(),
        }
    }
}

pub open spec fn sum_pages_total(ss: Seq<CaseTally>) -> nat
    decreases ss.len(),
{
    if ss.len() == 0 { 0 } else { sum_pages_total(ss.drop_last()) + ss.last().pages_total as nat }
}

pub open spec fn sum_pages_correct(ss: Seq<CaseTally>) -> nat
    decreases ss.len(),
{
    if ss.len() == 0 { 0 } else { sum_pages_correct(ss.drop_last()) + ss.last().pages_correct as nat }
}

pub open spec fn count_fp_docs(ss: Seq<CaseTally>) -> nat
    decreases ss.len(),
{
    if ss.len() == 0 { 0 } else { count_fp_docs(ss.drop_last()) + if ss.last().doc_false_positive { 1nat } else { 0nat } }
}

/// The text-content counts of the runs.
pub open spec fn text_counts(ss: Seq<CaseTally>) -> Seq<MatchCounts> {
    present(ss.map_values(|s: CaseTally| s.text_content))
}

/// The region counts of the runs.
pub open spec fn region_counts(ss: Seq<CaseTally>) -> Seq<MatchCounts> {
    present(ss.map_values(|s: CaseTally| s.region))
}

/// Whether the pooled sums of the runs fit in machine integers.
pub open spec fn sums_fit(ss: Seq<CaseTally>) -> bool {
    &&& sum_pages_total(ss) <= usize::MAX
    &&& sum_pages_correct(ss) <= usize::MAX
    &&& sum_tp(valid_counts(text_counts(ss))) <= usize::MAX
    &&& sum_fp(valid_counts(text_counts(ss))) <= usize::MAX
    &&& sum_fn(valid_counts(text_counts(ss))) <= usize::MAX
    &&& sum_tp(valid_counts(region_counts(ss))) <= usize::MAX
    &&& sum_fp(valid_counts(region_counts(ss))) <= usize::MAX
    &&& sum_fn(valid_counts(region_counts(ss))) <= usize::MAX
}

/// The scores of mode `m`: number of runs, pooled counts, page totals and
/// number of false-positive documents.
pub open spec fn mode_tally(ss: Seq<CaseTally>, m: DiffMode) -> ModeTally {
    let rs = runs_of(ss, m);
    ModeTally {
        mode: m,
        cases: rs.len() as usize,
        text_content: micro_spec(text_counts(rs)),
        region: micro_spec(region_counts(rs)),
        pages_total: sum_pages_total(rs) as usize,
        pages_correct: sum_pages_correct(rs) as usize,
        false_positive_docs: count_fp_docs(rs) as usize,
    }
}

proof fn lemma_runs_len(ss: Seq<CaseTally>, m: DiffMode)
    ensures
        runs_of(ss, m).len() <= ss.len(),
        count_fp_docs(runs_of(ss, m)) <= runs_of(ss, m).len(),
    decreases ss.len(),
{
    if ss.len() > 0 {
        lemma_runs_len(ss.drop_last(), m);
        let b = if ss.last().mode == m { seq![ss.last()] } else { Seq::<CaseTally>::empty() };
        lemma_fp_concat(runs_of(ss.drop_last(), m), b);
        if b.len() == 1 {
            assert(b.drop_last() =~= Seq::<CaseTally>::empty());
            assert(count_fp_docs(b.drop_last()) == 0);
        }
    }
}

proof fn lemma_fp_concat(a: Seq<CaseTally>, b: Seq<CaseTally>)
    requires
        b.len() <= 1,
    ensures
        count_fp_docs(a + b) == count_fp_docs(a) + count_fp_docs(b),
{
    if b.len() == 1 {
        assert((a + b).drop_last() == a);
        assert((a + b).last() == b.last());
        assert(b.drop_last() =~= Seq::<CaseTally>::empty());
        assert(count_fp_docs(b.drop_last()) == 0);
    } else {
        assert(a + b == a);
    }
}

/// The scores of the runs of one mode.
fn tally_mode(scores: &Vec<CaseTally>, m: DiffMode) -> (t: ModeTally)
    requires
        sums_fit(runs_of(scores@, m)),
    ensures
        t == mode_tally(scores@, m),
{
    let mut runs: Vec<CaseTally> = Vec::new();
    let n = scores.len();
    for i in 0..n
        invariant
            n == scores@.len(),
            runs@ == runs_of(scores@.take(i as int), m),
    {
        assert(scores@.take(i + 1).drop_last() == scores@.take(i as int));
        if scores[i].mode == m {
            runs.push(scores[i]);
        }
        assert(runs@ =~= runs_of(scores@.take(i + 1), m));
    }
    assert(scores@.take(n as int) == scores@);
    let ghost rs = runs@;
    let mut texts: Vec<MatchCounts> = Vec::new();
    let mut regions: Vec<MatchCounts> = Vec::new();
    let mut pages_total: usize = 0;
    let mut pages_correct: usize = 0;
    let mut fps: usize = 0;
    let k = runs.len();
    proof {
        lemma_runs_len(scores@, m);
    }
    for i in 0..k
        invariant
            k == runs@.len(),
            rs == runs@,
            rs == runs_of(scores@, m),
            sums_fit(rs),
            count_fp_docs(rs) <= rs.len(),
            texts@ == text_counts(rs.take(i as int)),
            regions@ == region_counts(rs.take(i as int)),
            pages_total == sum_pages_total(rs.take(i as int)),
            pages_correct == sum_pages_correct(rs.take(i as int)),
            fps == count_fp_docs(rs.take(i as int)),
    {
        let r = runs[i];
        let ghost pre = rs.take(i as int);
        assert(rs.take(i + 1).drop_last() == pre);
        assert(rs.take(i + 1) == pre.push(r));
        assert(pre.push(r).map_values(|s: CaseTally| s.text_content) =~= pre.map_values(|s: CaseTally| s.text_content).push(r.text_content));
        assert(pre.push(r).map_values(|s: CaseTally| s.region) =~= pre.map_values(|s: CaseTally| s.region).push(r.region));
        assert(pre.map_values(|s: CaseTally| s.text_content).push(r.text_content).drop_last() == pre.map_values(|s: CaseTally| s.text_content));
        assert(pre.map_values(|s: CaseTally| s.region).push(r.region).drop_last() == pre.map_values(|s: CaseTally| s.region));
        proof {
            lemma_tally_prefix(rs, i + 1);
        }
        match r.text_content {
            Some(c) => texts.push(c),
            None => {},
        }
        match r.region {
            Some(c) => regions.push(c),
            None => {},
        }
        pages_total = pages_total + r.pages_total;
        pages_correct = pages_correct + r.pages_correct;
        if r.doc_false_positive {
            fps = fps + 1;
        }
    }
    assert(rs.take(k as int) == rs);
    let text_content = micro(&texts);
    let region = micro(&regions);
    ModeTally { mode: m, cases: k, text_content, region, pages_total, pages_correct, false_positive_docs: fps }
}

proof fn lemma_tally_prefix(rs: Seq<CaseTally>, k: int)
    requires
        0 <= k <= rs.len(),
    ensures
        sum_pages_total(rs.take(k)) <= sum_pages_total(rs),
        sum_pages_correct(rs.take(k)) <= sum_pages_correct(rs),
        count_fp_docs(rs.take(k)) <= count_fp_docs(rs),
    decreases rs.len() - k,
{
    if k < rs.len() {
        lemma_tally_prefix(rs, k + 1);
        assert(rs.take(k + 1).drop_last() == rs.take(k));
    } else {
        assert(rs.take(k) == rs);
    }
}

/// Aggregate the runs per mode, modes in order of first appearance.
pub fn aggregate(scores: &Vec<CaseTally>) -> (out: Vec<ModeTally>)
    requires
        forall|m: DiffMode| sums_fit(#[trigger] runs_of(scores@, m)),
    ensures
        out@ == modes_seen(scores@).map_values(|m: DiffMode| mode_tally(scores@, m)),
{
    let mut modes: Vec<DiffMode> = Vec::new();
    let n = scores.len();
    for i in 0..n
        invariant
            n == scores@.len(),
            modes@ == modes_seen(scores@.take(i as int)),
    {
        assert(scores@.take(i + 1).drop_last() == scores@.take(i as int));
        let m = scores[i].mode;
        let mut seen = false;
        let k = modes.len();
        for j in 0..k
            invariant
                k == modes@.len(),
                seen == modes@.take(j as int).contains(m),
        {
            let ghost t0 = modes@.take(j as int);
            assert(modes@.take(j + 1) == t0.push(modes@[j as int]));
            if modes[j] == m {
                seen = true;
            }
            proof {
                let t1 = t0.push(modes@[j as int]);
                if t1.contains(m) && !t0.contains(m) {
                    let q = choose|q: int| 0 <= q < t1.len() && t1[q] == m;
                    if q < t0.len() {
                        assert(t0[q] == m);
                    }
                }
                if t0.contains(m) {
                    let q = choose|q: int| 0 <= q < t0.len() && t0[q] == m;
                    assert(t1[q] == m);
                }
                if modes@[j as int] == m {
                    assert(t1[j as int] == m);
                }
            }
        }
        assert(modes@.take(k as int) == modes@);
        if !seen {
            modes.push(m);
        }
    }
    assert(scores@.take(n as int) == scores@);
    let mut out: Vec<ModeTally> = Vec::new();
    let k = modes.len();
    for j in 0..k
        invariant
            k == modes@.len(),
            modes@ == modes_seen(scores@),
            forall|m: DiffMode| sums_fit(#[trigger] runs_of(scores@, m)),
            out@ == modes@.take(j as int).map_values(|m: DiffMode| mode_tally(scores@, m)),
    {
        let t = tally_mode(scores, modes[j]);
        out.push(t);
        assert(modes@.take(j + 1).map_values(|m: DiffMode| mode_tally(scores@, m)) =~= modes@.take(j as int).map_values(
            |m: DiffMode| mode_tally(scores@, m),
        ).push(t));
    }
    assert(modes@.take(k as int) == modes@);
    out
}

} // verus!
