//! Report entries and page results of the visual and hybrid comparisons.

use vstd::prelude::*;
use crate::report::{count_changes, entries_view, is_change_kind, DiffEntry, DiffKind, EntryView, PageDiff, PageStatus, Rect};
use crate::textdiff::{no_changes, page_status_of};

verus! {

/// The entry reporting a visual region: a modification located on the new
/// page.
pub open spec fn visual_entry_view(r: Rect) -> EntryView {
    EntryView {
        kind: DiffKind::Modified,
        old_line: None,
        new_line: None,
        old_text: None,
        new_text: None,
        old_rect: None,
        new_rect: Some(r),
        visual_rects: seq![r],
    }
}

/// The entry reporting a visual region.
pub fn visual_entry(region: &Rect) -> (e: DiffEntry)
    ensures
        e@ == visual_entry_view(*region),
{
    let mut rects: Vec<Rect> = Vec::new();
    rects.push(*region);
    assert(rects@ =~= seq![*region]);
    DiffEntry {
        kind: DiffKind::Modified,
        old_line: None,
        new_line: None,
        old_text: None,
        new_text: None,
        old_rect: None,
        new_rect: Some(*region),
        visual_rects: rects,
    }
}

/// The entries of a list of visual regions.
pub open spec fn region_entries(rs: Seq<Rect>) -> Seq<EntryView> {
    rs.map_values(|r: Rect| visual_entry_view(r))
}

/// The page of a visual comparison whose differing regions are `regions`:
/// one modification per region, and the page matches when there is none.
pub fn compare_visual_page(regions: &Vec<Rect>, page_index: usize) -> (p: PageDiff)
    ensures
        p.page_index == page_index,
        p@.entries == region_entries(regions@),
        p.status == (if regions@.len() == 0 { PageStatus::Match } else { PageStatus::Modified }),
        crate::loader::status_follows_entries(p@),
{
    let mut entries: Vec<DiffEntry> = Vec::new();
    let n = regions.len();
    for i in 0..n
        invariant
            n == regions@.len(),
            entries_view(entries@) == region_entries(regions@.take(i as int)),
    {
        let ghost before = entries@;
        let e = visual_entry(&regions[i]);
        entries.push(e);
        assert(entries_view(entries@) =~= entries_view(before).push(e@));
        assert(region_entries(regions@.take(i + 1)) =~= region_entries(regions@.take(i as int)).push(
            visual_entry_view(regions@[i as int]),
        ));
    }
    assert(regions@.take(n as int) == regions@);
    let status = if n == 0 { PageStatus::Match } else { PageStatus::Modified };
    proof {
        lemma_region_changes(regions@);
    }
    PageDiff { page_index, status, entries }
}

proof fn lemma_region_changes(rs: Seq<Rect>)
    ensures
        count_changes(region_entries(rs)) == rs.len(),
    decreases rs.len(),
{
    if rs.len() > 0 {
        lemma_region_changes(rs.drop_last());
        assert(region_entries(rs).drop_last() =~= region_entries(rs.drop_last()));
        assert(region_entries(rs).last() == visual_entry_view(rs.last()));
    } else {
        assert(region_entries(rs).len() == 0);
    }
}

/// The rectangles that locate the changes of a page: old then new rectangle
/// of every change entry, in entry order.
pub open spec fn covered_spec(es: Seq<EntryView>) -> Seq<Rect>
    decreases es.len(),
{
    if es.len() == 0 {
        Seq::empty()
    } else {
        let e = es.last();
        covered_spec(es.drop_last()) + if is_change_kind(e.kind) {
            (match e.old_rect {
                Some(r) => seq![r],
                None => Seq::empty(),
            }) + (match e.new_rect {
                Some(r) => seq![r],
                None => Seq::empty(),
            })
        } else {
            Seq::empty()
        }
    }
}

/// Whether `r` is the old or the new rectangle of some change entry of `es`.
pub open spec fn rect_of_change(es: Seq<EntryView>, r: Rect) -> bool {
    exists|j: int|
        0 <= j < es.len() && is_change_kind(#[trigger] es[j].kind) && (es[j].old_rect == Some(r)
            || es[j].new_rect == Some(r))
}

/// The covered rectangles are exactly the rectangles of the change
/// entries: every present old or new rectangle of a change entry is
/// covered, and every covered rectangle is one of them.
pub proof fn law_covered_are_change_rects(es: Seq<EntryView>)
    ensures
        forall|j: int|
            0 <= j < es.len() && is_change_kind(#[trigger] es[j].kind) ==> {
                &&& (es[j].old_rect matches Some(r) ==> covered_spec(es).contains(r))
                &&& (es[j].new_rect matches Some(r) ==> covered_spec(es).contains(r))
            },
        forall|k: int| 0 <= k < covered_spec(es).len() ==> rect_of_change(es, #[trigger] covered_spec(es)[k]),
    decreases es.len(),
{
    if es.len() > 0 {
        let pre = es.drop_last();
        law_covered_are_change_rects(pre);
        let e = es.last();
        let a = covered_spec(pre);
        let o: Seq<Rect> = match e.old_rect {
            Some(r) => seq![r],
            None => Seq::empty(),
        };
        let n: Seq<Rect> = match e.new_rect {
            Some(r) => seq![r],
            None => Seq::empty(),
        };
        let b: Seq<Rect> = if is_change_kind(e.kind) { o + n } else { Seq::empty() };
        let c = covered_spec(es);
        assert(c == a + b);
        assert forall|j: int|
            0 <= j < es.len() && is_change_kind(#[trigger] es[j].kind) implies {
                &&& (es[j].old_rect matches Some(r) ==> c.contains(r))
                &&& (es[j].new_rect matches Some(r) ==> c.contains(r))
            } by {
            if j < es.len() - 1 {
                assert(es[j] == pre[j]);
                assert(is_change_kind(pre[j].kind));
                if let Some(r) = es[j].old_rect {
                    let k = choose|k: int| 0 <= k < a.len() && a[k] == r;
                    assert(c[k] == r);
                }
                if let Some(r) = es[j].new_rect {
                    let k = choose|k: int| 0 <= k < a.len() && a[k] == r;
                    assert(c[k] == r);
                }
            } else {
                assert(es[j] == e);
                if let Some(r) = e.old_rect {
                    assert(c[a.len() as int] == r);
                }
                if let Some(r) = e.new_rect {
                    assert(c[(a.len() + o.len()) as int] == r);
                }
            }
        }
        assert forall|k: int| 0 <= k < c.len() implies rect_of_change(es, #[trigger] c[k]) by {
            if k < a.len() {
                assert(c[k] == a[k]);
                assert(rect_of_change(pre, a[k]));
                let j = choose|j: int|
                    0 <= j < pre.len() && is_change_kind(#[trigger] pre[j].kind) && (pre[j].old_rect == Some(a[k])
                        || pre[j].new_rect == Some(a[k]));
                assert(es[j] == pre[j]);
            } else {
                let last = es.len() - 1;
                assert(es[last] == e);
                assert(c[k] == b[k - a.len()]);
                if k - a.len() < o.len() {
                    assert(e.old_rect == Some(c[k]));
                } else {
                    assert(e.new_rect == Some(c[k]));
                }
            }
        }
    }
}

/// The rectangles already accounted for by textual changes: old then new
/// rectangle of every change entry.
pub fn covered_rects(entries: &Vec<DiffEntry>) -> (rs: Vec<Rect>)
    ensures
        rs@ == covered_spec(entries_view(entries@)),
{
    let mut rs: Vec<Rect> = Vec::new();
    let ghost es = entries_view(entries@);
    let n = entries.len();
    for i in 0..n
        invariant
            n == entries@.len(),
            es == entries_view(entries@),
            rs@ == covered_spec(es.take(i as int)),
    {
        assert(es.take(i + 1).drop_last() == es.take(i as int));
        assert(es[i as int] == entries@[i as int]@);
        let e = &entries[i];
        let ghost before = rs@;
        if e.is_change() {
            match e.old_rect {
                Some(r) => rs.push(r),
                None => {},
            }
            match e.new_rect {
                Some(r) => rs.push(r),
                None => {},
            }
        }
        assert(rs@ =~= covered_spec(es.take(i + 1)));
    }
    assert(es.take(n as int) == es);
    rs
}

/// The regions whose flag is not set, in order.
pub open spec fn uncovered(rs: Seq<Rect>, overlaps: Seq<bool>) -> Seq<Rect>
    decreases rs.len(),
{
    if rs.len() == 0 {
        Seq::empty()
    } else {
        uncovered(rs.drop_last(), overlaps) + if overlaps[rs.len() - 1] {
            Seq::empty()
        } else {
            seq![rs.last()]
        }
    }
}

/// The page of a hybrid comparison: the text entries, then one modification
/// for every visual region that overlaps no rectangle of a textual change
/// (`overlaps[k]` tells whether region `k` does). The page matches when no
/// entry is a change.
pub fn compare_hybrid_page(
    text_entries: Vec<DiffEntry>,
    regions: &Vec<Rect>,
    overlaps: &Vec<bool>,
    page_index: usize,
) -> (p: PageDiff)
    requires
        overlaps@.len() == regions@.len(),
    ensures
        p.page_index == page_index,
        p@.entries == entries_view(text_entries@) + region_entries(uncovered(regions@, overlaps@)),
        p.status == page_status_of(p@.entries),
        crate::loader::status_follows_entries(p@),
{
    let mut entries = text_entries;
    let ghost base = entries_view(entries@);
    let n = regions.len();
    for i in 0..n
        invariant
            n == regions@.len(),
            n == overlaps@.len(),
            entries_view(entries@) == base + region_entries(uncovered(regions@.take(i as int), overlaps@)),
    {
        assert(regions@.take(i + 1).drop_last() == regions@.take(i as int));
        let ghost before = entries@;
        if !overlaps[i] {
            let e = visual_entry(&regions[i]);
            entries.push(e);
            assert(entries_view(entries@) =~= entries_view(before).push(e@));
        }
        assert(region_entries(uncovered(regions@.take(i + 1), overlaps@)) =~= region_entries(
            uncovered(regions@.take(i as int), overlaps@),
        ) + region_entries(if overlaps@[i as int] { Seq::empty() } else { seq![regions@[i as int]] }));
        assert(entries_view(entries@) =~= base + region_entries(uncovered(regions@.take(i + 1), overlaps@)));
    }
    assert(regions@.take(n as int) == regions@);
    let status = if no_changes(&entries) { PageStatus::Match } else { PageStatus::Modified };
    PageDiff { page_index, status, entries }
}

} // verus!
