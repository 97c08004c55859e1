//! Golden snapshots: freezing the current text-mode output of a document
//! pair as ground truth, to watch for regressions.

use vstd::prelude::*;
use crate::bench::case::{ChangeRegion, GroundTruth, PageTruth};
use crate::report::{
    entries_view, is_change_kind, opt_text, pages_view, status_name, DiffEntry, DiffKind,
    DiffReport, EntryView, PageDiff, PageView,
};
use crate::bench::score::{
    count_true, detected_texts, entry_texts, has_text, matrix_counts, region_pair, region_texts,
    text_matrix, texts_match, truth_texts, TextPair,
};

verus! {

/// The value of a ground-truth region: rectangle, old text, new text.
pub open spec fn region_view(r: ChangeRegion) -> (Option<[u32; 4]>, Option<Seq<char>>, Option<Seq<char>>) {
    (r.rect, opt_text(r.old_text), opt_text(r.new_text))
}

/// The texts a change entry freezes: a removal keeps its old text, an
/// addition its new text, other changes both.
pub open spec fn frozen_texts(e: EntryView) -> (Option<Seq<char>>, Option<Seq<char>>) {
    match e.kind {
        DiffKind::Removed => (e.old_text, None),
        DiffKind::Added => (None, e.new_text),
        _ => (e.old_text, e.new_text),
    }
}

/// The regions frozen from a page's entries: one per change entry that
/// carries some text, without a rectangle.
pub open spec fn golden_regions(es: Seq<EntryView>) -> Seq<(Option<[u32; 4]>, Option<Seq<char>>, Option<Seq<char>>)>
    decreases es.len(),
{
    if es.len() == 0 {
        Seq::empty()
    } else {
        let e = es.last();
        let t = frozen_texts(e);
        golden_regions(es.drop_last()) + if is_change_kind(e.kind) && (t.0 is Some || t.1 is Some) {
            seq![(None::<[u32; 4]>, t.0, t.1)]
        } else {
            Seq::empty()
        }
    }
}

pub open spec fn regions_view(rs: Seq<ChangeRegion>) -> Seq<(Option<[u32; 4]>, Option<Seq<char>>, Option<Seq<char>>)> {
    rs.map_values(|r: ChangeRegion| region_view(r))
}

fn clone_opt(o: &Option<String>) -> (r: Option<String>)
    ensures
        opt_text(r) == opt_text(*o),
{
    match o {
        Some(s) => Some(s.clone()),
        None => None,
    }
}

fn golden_page(p: &PageDiff) -> (t: PageTruth)
    requires
        p.page_index < usize::MAX,
    ensures
        t.page == p.page_index + 1,
        t.status@ == status_name(p.status),
        t.text_status is None,
        t.visual_status is None,
        t.hybrid_status is None,
        regions_view(t.regions@) == golden_regions(p@.entries),
{
    let mut regions: Vec<ChangeRegion> = Vec::new();
    let n = p.entries.len();
    let ghost es = entries_view(p.entries@);
    for i in 0..n
        invariant
            n == p.entries@.len(),
            es == entries_view(p.entries@),
            regions_view(regions@) == golden_regions(es.take(i as int)),
    {
        assert(es.take(i + 1).drop_last() == es.take(i as int));
        let e = &p.entries[i];
        assert(es[i as int] == e@);
        if e.is_change() {
            let (old_text, new_text) = match e.kind {
                DiffKind::Removed => (clone_opt(&e.old_text), None),
                DiffKind::Added => (None, clone_opt(&e.new_text)),
                _ => (clone_opt(&e.old_text), clone_opt(&e.new_text)),
            };
            if old_text.is_some() || new_text.is_some() {
                let ghost before = regions@;
                let r = ChangeRegion { rect: None, old_text, new_text };
                regions.push(r);
                assert(regions_view(regions@) =~= regions_view(before).push(region_view(r)));
            } else {
                assert(golden_regions(es.take(i + 1)) =~= golden_regions(es.take(i as int)));
            }
        } else {
            assert(golden_regions(es.take(i + 1)) =~= golden_regions(es.take(i as int)));
        }
    }
    assert(es.take(n as int) == es);
    PageTruth {
        page: p.page_index + 1,
        status: String::from_str(p.status.as_str()),
        text_status: None,
        visual_status: None,
        hybrid_status: None,
        regions,
    }
}

/// Freeze a text-mode report as ground truth: every page keeps its index
/// (1-based) and status, and every change entry carrying text becomes a
/// region without a rectangle.
pub fn golden_truth(report: &DiffReport, name: &str, description: &str) -> (gt: GroundTruth)
    requires
        forall|i: int| 0 <= i < report.pages@.len() ==> (#[trigger] report.pages@[i]).page_index < usize::MAX,
    ensures
        gt.name@ == name@,
        gt.description@ == description@,
        gt.pages@.len() == report.pages@.len(),
        forall|i: int| 0 <= i < gt.pages@.len() ==> {
            let t = #[trigger] gt.pages@[i];
            let p = pages_view(report.pages@)[i];
            &&& t.page == p.page_index + 1
            &&& t.status@ == status_name(p.status)
            &&& t.text_status is None && t.visual_status is None && t.hybrid_status is None
            &&& regions_view(t.regions@) == golden_regions(p.entries)
        },
{
    let mut pages: Vec<PageTruth> = Vec::new();
    let n = report.pages.len();
    for i in 0..n
        invariant
            n == report.pages@.len(),
            forall|i: int| 0 <= i < report.pages@.len() ==> (#[trigger] report.pages@[i]).page_index < usize::MAX,
            pages@.len() == i,
            forall|k: int| 0 <= k < i ==> {
                let t = #[trigger] pages@[k];
                let p = pages_view(report.pages@)[k];
                &&& t.page == p.page_index + 1
                &&& t.status@ == status_name(p.status)
                &&& t.text_status is None && t.visual_status is None && t.hybrid_status is None
                &&& regions_view(t.regions@) == golden_regions(p.entries)
            },
    {
        let t = golden_page(&report.pages[i]);
        pages.push(t);
    }
    GroundTruth { name: String::from_str(name), description: String::from_str(description), pages }
}

// ---- a report against its own snapshot -------------------------------------------

/// Change entries whose texts fit their kind: a removal carries no new
/// text and an addition no old text (as the text diff makes them).
pub open spec fn texts_fit_kinds(ps: Seq<PageView>) -> bool {
    forall|i: int, j: int|
        0 <= i < ps.len() && 0 <= j < ps[i].entries.len() ==> {
            let e = #[trigger] ps[i].entries[j];
            &&& e.kind == DiffKind::Removed ==> e.new_text is None
            &&& e.kind == DiffKind::Added ==> e.old_text is None
        }
}

/// The text pairs of region values that carry some text.
pub open spec fn texts_of_region_values(
    vs: Seq<(Option<[u32; 4]>, Option<Seq<char>>, Option<Seq<char>>)>,
) -> Seq<TextPair>
    decreases vs.len(),
{
    if vs.len() == 0 {
        Seq::empty()
    } else {
        let v = vs.last();
        texts_of_region_values(vs.drop_last()) + if has_text((v.1, v.2)) { seq![(v.1, v.2)] } else { Seq::empty() }
    }
}

proof fn lemma_region_texts_by_value(rs: Seq<ChangeRegion>)
    ensures
        region_texts(rs) == texts_of_region_values(regions_view(rs)),
    decreases rs.len(),
{
    if rs.len() > 0 {
        lemma_region_texts_by_value(rs.drop_last());
        assert(regions_view(rs).drop_last() =~= regions_view(rs.drop_last()));
        assert(regions_view(rs).last() == region_view(rs.last()));
        assert(region_pair(rs.last()) == (region_view(rs.last()).1, region_view(rs.last()).2));
    }
}

proof fn lemma_golden_texts(es: Seq<EntryView>)
    requires
        forall|j: int| 0 <= j < es.len() ==> {
            let e = #[trigger] es[j];
            &&& e.kind == DiffKind::Removed ==> e.new_text is None
            &&& e.kind == DiffKind::Added ==> e.old_text is None
        },
    ensures
        texts_of_region_values(golden_regions(es)) == entry_texts(es),
        forall|k: int| 0 <= k < golden_regions(es).len() ==> (#[trigger] golden_regions(es)[k]).0 is None,
    decreases es.len(),
{
    if es.len() > 0 {
        let pre = es.drop_last();
        assert forall|j: int| 0 <= j < pre.len() implies {
            let e = #[trigger] pre[j];
            &&& e.kind == DiffKind::Removed ==> e.new_text is None
            &&& e.kind == DiffKind::Added ==> e.old_text is None
        } by {
            assert(pre[j] == es[j]);
        }
        lemma_golden_texts(pre);
        let e = es.last();
        assert(e == es[es.len() - 1]);
        assert(frozen_texts(e) == (e.old_text, e.new_text));
        let g0 = golden_regions(pre);
        let add = if is_change_kind(e.kind) && (frozen_texts(e).0 is Some || frozen_texts(e).1 is Some) {
            seq![(None::<[u32; 4]>, frozen_texts(e).0, frozen_texts(e).1)]
        } else {
            Seq::empty()
        };
        let g = golden_regions(es);
        assert(g == g0 + add);
        if add.len() > 0 {
            assert(g.drop_last() =~= g0);
            assert(g.last() == add[0]);
        } else {
            assert(g =~= g0);
        }
        assert forall|k: int| 0 <= k < g.len() implies (#[trigger] g[k]).0 is None by {
            if k < g0.len() {
                assert(g[k] == g0[k]);
            }
        }
    }
}

proof fn lemma_truth_is_detected(ts: Seq<PageTruth>, ps: Seq<PageView>)
    requires
        ts.len() == ps.len(),
        forall|i: int| 0 <= i < ts.len() ==> regions_view((#[trigger] ts[i]).regions@) == golden_regions(ps[i].entries),
        texts_fit_kinds(ps),
    ensures
        truth_texts(ts) == detected_texts(ps),
        forall|i: int, k: int|
            0 <= i < ts.len() && 0 <= k < ts[i].regions@.len() ==> (#[trigger] ts[i].regions@[k]).rect is None,
    decreases ts.len(),
{
    if ts.len() > 0 {
        let n = ts.len() - 1;
        let (tp, pp) = (ts.drop_last(), ps.drop_last());
        assert forall|i: int| 0 <= i < tp.len() implies regions_view((#[trigger] tp[i]).regions@) == golden_regions(pp[i].entries) by {
            assert(tp[i] == ts[i] && pp[i] == ps[i]);
        }
        assert forall|i: int, j: int| 0 <= i < pp.len() && 0 <= j < pp[i].entries.len() implies {
            let e = #[trigger] pp[i].entries[j];
            &&& e.kind == DiffKind::Removed ==> e.new_text is None
            &&& e.kind == DiffKind::Added ==> e.old_text is None
        } by {
            assert(pp[i] == ps[i]);
            let e = ps[i].entries[j];
        }
        lemma_truth_is_detected(tp, pp);
        let es = ps[n].entries;
        assert forall|j: int| 0 <= j < es.len() implies {
            let e = #[trigger] es[j];
            &&& e.kind == DiffKind::Removed ==> e.new_text is None
            &&& e.kind == DiffKind::Added ==> e.old_text is None
        } by {
            let e = ps[n].entries[j];
        }
        lemma_golden_texts(es);
        lemma_region_texts_by_value(ts[n].regions@);
        assert(ts.last() == ts[n] && ps.last() == ps[n]);
        assert(regions_view(ts[n].regions@) == golden_regions(es));
        assert forall|i: int, k: int|
            0 <= i < ts.len() && 0 <= k < ts[i].regions@.len() implies (#[trigger] ts[i].regions@[k]).rect is None by {
            if i < n {
                assert(tp[i] == ts[i]);
            } else {
                assert(regions_view(ts[n].regions@)[k] == region_view(ts[n].regions@[k]));
                assert(golden_regions(es)[k].0 is None);
            }
        }
    }
}

proof fn lemma_detected_have_text(ps: Seq<PageView>)
    ensures
        forall|k: int| 0 <= k < detected_texts(ps).len() ==> has_text(#[trigger] detected_texts(ps)[k]),
    decreases ps.len(),
{
    if ps.len() > 0 {
        lemma_detected_have_text(ps.drop_last());
        lemma_entry_texts_have_text(ps.last().entries);
        let a = detected_texts(ps.drop_last());
        let b = entry_texts(ps.last().entries);
        assert forall|k: int| 0 <= k < (a + b).len() implies has_text(#[trigger] (a + b)[k]) by {
            if k < a.len() {
                assert((a + b)[k] == a[k]);
            } else {
                assert((a + b)[k] == b[k - a.len()]);
            }
        }
    }
}

proof fn lemma_entry_texts_have_text(es: Seq<EntryView>)
    ensures
        forall|k: int| 0 <= k < entry_texts(es).len() ==> has_text(#[trigger] entry_texts(es)[k]),
    decreases es.len(),
{
    if es.len() > 0 {
        lemma_entry_texts_have_text(es.drop_last());
        let a = entry_texts(es.drop_last());
        assert forall|k: int| 0 <= k < entry_texts(es).len() implies has_text(#[trigger] entry_texts(es)[k]) by {
            if k < a.len() {
                assert(entry_texts(es)[k] == a[k]);
            }
        }
    }
}

proof fn lemma_count_all_true(v: Seq<bool>)
    requires
        forall|i: int| 0 <= i < v.len() ==> #[trigger] v[i],
    ensures
        count_true(v) == v.len(),
    decreases v.len(),
{
    if v.len() > 0 {
        let d = v.drop_last();
        assert forall|i: int| 0 <= i < d.len() implies #[trigger] d[i] by {
            assert(d[i] == v[i]);
        }
        lemma_count_all_true(d);
        assert(v.last() == v[v.len() - 1]);
    }
}

/// A report scored against its own frozen snapshot is perfect: every frozen
/// region is found (no miss) and every detected text change matches one (no
/// false positive), provided its change entries' texts fit their kinds.
/// The snapshot's text pairs are exactly the report's text changes, in
/// order, and every frozen region is without a rectangle, so it takes part
/// in text matching only.
pub proof fn law_golden_truth_scores_perfectly(report: DiffReport, gt: GroundTruth)
    requires
        gt.pages@.len() == report.pages@.len(),
        forall|i: int|
            0 <= i < gt.pages@.len() ==> regions_view((#[trigger] gt.pages@[i]).regions@) == golden_regions(
                pages_view(report.pages@)[i].entries,
            ),
        texts_fit_kinds(pages_view(report.pages@)),
    ensures
        ({
            let gs = truth_texts(gt.pages@);
            let ds = detected_texts(pages_view(report.pages@));
            let c = matrix_counts(text_matrix(gs, ds), ds.len());
            c.fn_ == 0 && c.fp == 0
        }),
        truth_texts(gt.pages@) == detected_texts(pages_view(report.pages@)),
        forall|i: int, k: int|
            0 <= i < gt.pages@.len() && 0 <= k < gt.pages@[i].regions@.len() ==> (#[trigger] gt.pages@[i].regions@[k]).rect
                is None,
{
    let ps = pages_view(report.pages@);
    lemma_truth_is_detected(gt.pages@, ps);
    let gs = truth_texts(gt.pages@);
    let ds = detected_texts(ps);
    lemma_detected_have_text(ps);
    let mat = text_matrix(gs, ds);
    let rows = Seq::new(mat.len(), |i: int| crate::bench::score::row_hit(mat, i, ds.len()));
    let cols = Seq::new(ds.len(), |j: int| crate::bench::score::col_hit(mat, j));
    assert forall|i: int| 0 <= i < rows.len() implies #[trigger] rows[i] by {
        assert(has_text(ds[i]));
        assert(texts_match(gs[i], ds[i]));
        assert(mat[i][i]);
    }
    assert forall|j: int| 0 <= j < cols.len() implies #[trigger] cols[j] by {
        assert(has_text(ds[j]));
        assert(texts_match(gs[j], ds[j]));
        assert(mat[j][j]);
    }
    lemma_count_all_true(rows);
    lemma_count_all_true(cols);
}

} // verus!
