//! Report assembly: page pairing, surplus pages, statistics.
//!
//! Page N of the old document is compared with page N of the new one; the
//! pages beyond the shorter document are marked removed or added. Reading the
//! documents and comparing page pairs happens before this step.

use vstd::prelude::*;
use crate::strings::{push_padded, push_str};
use crate::report::{
    count_changes, count_kind, entries_view, pages_view, some_page_changed, total_changes_of,
    DiffKind, DiffMode, DiffReport, DiffStats, DocSummary, EntryView, PageDiff, PageStatus,
    PageView,
};

verus! {

/// Number of pages with the given status.
pub open spec fn count_status(ps: Seq<PageView>, s: PageStatus) -> nat
    decreases ps.len(),
{
    if ps.len() == 0 {
        0
    } else {
        count_status(ps.drop_last(), s) + if ps.last().status == s { 1nat } else { 0nat }
    }
}

/// Number of entries of the given kind over all pages.
pub open spec fn count_kind_pages(ps: Seq<PageView>, k: DiffKind) -> nat
    decreases ps.len(),
{
    if ps.len() == 0 {
        0
    } else {
        count_kind_pages(ps.drop_last(), k) + count_kind(ps.last().entries, k)
    }
}

/// Number of entries over all pages.
pub open spec fn count_entries(ps: Seq<PageView>) -> nat
    decreases ps.len(),
{
    if ps.len() == 0 {
        0
    } else {
        count_entries(ps.drop_last()) + ps.last().entries.len()
    }
}

/// The statistics of a list of pages.
pub open spec fn stats_of(ps: Seq<PageView>) -> DiffStats {
    DiffStats {
        added_pages: count_status(ps, PageStatus::Added) as usize,
        removed_pages: count_status(ps, PageStatus::Removed) as usize,
        modified_pages: count_status(ps, PageStatus::Modified) as usize,
        matched_pages: count_status(ps, PageStatus::Match) as usize,
        added_entries: count_kind_pages(ps, DiffKind::Added) as usize,
        removed_entries: count_kind_pages(ps, DiffKind::Removed) as usize,
        modified_entries: count_kind_pages(ps, DiffKind::Modified) as usize,
    }
}

proof fn lemma_kind_le(es: Seq<EntryView>, k: DiffKind)
    ensures
        count_kind(es, k) <= es.len(),
        count_kind(es, DiffKind::Added) + count_kind(es, DiffKind::Removed) + count_kind(es, DiffKind::Modified)
            == count_changes(es),
    decreases es.len(),
{
    if es.len() > 0 {
        lemma_kind_le(es.drop_last(), k);
    }
}

proof fn lemma_kind_pages_le(ps: Seq<PageView>, k: DiffKind)
    ensures
        count_kind_pages(ps, k) <= count_entries(ps),
        count_status(ps, k_status(k)) <= ps.len(),
    decreases ps.len(),
{
    if ps.len() > 0 {
        lemma_kind_pages_le(ps.drop_last(), k);
        lemma_kind_le(ps.last().entries, k);
    }
}

/// Any status (used to share a bound proof).
spec fn k_status(k: DiffKind) -> PageStatus {
    match k {
        DiffKind::Added => PageStatus::Added,
        DiffKind::Removed => PageStatus::Removed,
        DiffKind::Modified => PageStatus::Modified,
        DiffKind::Unchanged => PageStatus::Match,
    }
}

proof fn lemma_status_le(ps: Seq<PageView>, s: PageStatus)
    ensures
        count_status(ps, s) <= ps.len(),
    decreases ps.len(),
{
    if ps.len() > 0 {
        lemma_status_le(ps.drop_last(), s);
    }
}

/// Count pages by status and entries by kind.
pub fn compute_stats(pages: &Vec<PageDiff>) -> (stats: DiffStats)
    requires
        count_entries(pages_view(pages@)) <= usize::MAX,
    ensures
        stats == stats_of(pages_view(pages@)),
{
    let mut stats = DiffStats::default();
    let ghost ps = pages_view(pages@);
    let n = pages.len();
    for i in 0..n
        invariant
            n == pages@.len(),
            ps == pages_view(pages@),
            count_entries(ps) <= usize::MAX,
            stats == stats_of(ps.take(i as int)),
            count_entries(ps.take(i as int)) <= count_entries(ps),
    {
        let p = &pages[i];
        let ghost pre = ps.take(i as int);
        assert(ps.take(i + 1).drop_last() == pre);
        proof {
            lemma_entries_prefix_le(ps, i + 1);
            lemma_status_le(pre, PageStatus::Added);
            lemma_status_le(pre, PageStatus::Removed);
            lemma_status_le(pre, PageStatus::Modified);
            lemma_status_le(pre, PageStatus::Match);
        }
        match p.status {
            PageStatus::Added => stats.added_pages = stats.added_pages + 1,
            PageStatus::Removed => stats.removed_pages = stats.removed_pages + 1,
            PageStatus::Modified => stats.modified_pages = stats.modified_pages + 1,
            PageStatus::Match => stats.matched_pages = stats.matched_pages + 1,
        }
        let m = p.entries.len();
        let ghost es = entries_view(p.entries@);
        let ghost base = stats;
        proof {
            lemma_kind_pages_le(pre, DiffKind::Added);
            lemma_kind_pages_le(pre, DiffKind::Removed);
            lemma_kind_pages_le(pre, DiffKind::Modified);
        }
        for j in 0..m
            invariant
                m == p.entries@.len(),
                es == entries_view(p.entries@),
                es == ps[i as int].entries,
                count_entries(ps.take(i + 1)) <= usize::MAX,
                count_entries(ps.take(i + 1)) == count_entries(pre) + es.len(),
                base.added_entries == count_kind_pages(pre, DiffKind::Added),
                base.removed_entries == count_kind_pages(pre, DiffKind::Removed),
                base.modified_entries == count_kind_pages(pre, DiffKind::Modified),
                count_kind_pages(pre, DiffKind::Added) <= count_entries(pre),
                count_kind_pages(pre, DiffKind::Removed) <= count_entries(pre),
                count_kind_pages(pre, DiffKind::Modified) <= count_entries(pre),
                stats.added_pages == base.added_pages,
                stats.removed_pages == base.removed_pages,
                stats.modified_pages == base.modified_pages,
                stats.matched_pages == base.matched_pages,
                stats.added_entries == base.added_entries + count_kind(es.take(j as int), DiffKind::Added),
                stats.removed_entries == base.removed_entries + count_kind(es.take(j as int), DiffKind::Removed),
                stats.modified_entries == base.modified_entries + count_kind(es.take(j as int), DiffKind::Modified),
        {
            assert(es.take(j + 1).drop_last() == es.take(j as int));
            proof {
                lemma_kind_le(es.take(j + 1), DiffKind::Added);
                lemma_kind_le(es.take(j + 1), DiffKind::Removed);
                lemma_kind_le(es.take(j + 1), DiffKind::Modified);
            }
            match p.entries[j].kind {
                DiffKind::Added => stats.added_entries = stats.added_entries + 1,
                DiffKind::Removed => stats.removed_entries = stats.removed_entries + 1,
                DiffKind::Modified => stats.modified_entries = stats.modified_entries + 1,
                DiffKind::Unchanged => {},
            }
        }
        assert(es.take(m as int) == es);
    }
    assert(ps.take(n as int) == ps);
    stats
}

/// The entry count over a prefix never exceeds the count over all pages.
proof fn lemma_entries_prefix_le(ps: Seq<PageView>, k: int)
    requires
        0 <= k <= ps.len(),
    ensures
        count_entries(ps.take(k)) <= count_entries(ps),
    decreases ps.len() - k,
{
    if k < ps.len() {
        lemma_entries_prefix_le(ps, k + 1);
        assert(ps.take(k + 1).drop_last() == ps.take(k));
    } else {
        assert(ps.take(k) == ps);
    }
}

/// The page diffs of the pages beyond the shorter document: pages
/// `common..old_count` are removed, pages `common..new_count` are added.
pub open spec fn surplus_pages(common: nat, old_count: nat, new_count: nat) -> Seq<PageView> {
    Seq::new(
        (if old_count > common { old_count - common } else { 0 }) as nat,
        |i: int| PageView { page_index: (common + i) as usize, status: PageStatus::Removed, entries: Seq::empty() },
    ) + Seq::new(
        (if new_count > common { new_count - common } else { 0 }) as nat,
        |i: int| PageView { page_index: (common + i) as usize, status: PageStatus::Added, entries: Seq::empty() },
    )
}

/// The smaller of two counts.
pub open spec fn min_count(a: usize, b: usize) -> usize {
    if a < b { a } else { b }
}

proof fn lemma_entries_concat(a: Seq<PageView>, b: Seq<PageView>)
    ensures
        count_entries(a + b) == count_entries(a) + count_entries(b),
    decreases b.len(),
{
    if b.len() > 0 {
        lemma_entries_concat(a, b.drop_last());
        assert((a + b).drop_last() == a + b.drop_last());
    } else {
        assert(a + b == a);
    }
}

proof fn lemma_no_entries(ps: Seq<PageView>)
    requires
        forall|i: int| 0 <= i < ps.len() ==> (#[trigger] ps[i]).entries.len() == 0,
    ensures
        count_entries(ps) == 0,
    decreases ps.len(),
{
    if ps.len() > 0 {
        lemma_no_entries(ps.drop_last());
    }
}

/// Assemble the report from the compared page pairs: the pages beyond the
/// shorter document are appended as removed (old only) or added (new only),
/// and the statistics are counted over all pages.
pub fn build_report(
    old: DocSummary,
    new: DocSummary,
    mode: DiffMode,
    generated_at: String,
    common: Vec<PageDiff>,
) -> (r: DiffReport)
    requires
        common@.len() == min_count(old.page_count, new.page_count),
        count_entries(pages_view(common@)) <= usize::MAX,
    ensures
        r.old == old,
        r.new == new,
        r.mode == mode,
        r.generated_at == generated_at,
        pages_view(r.pages@) == pages_view(common@) + surplus_pages(
            common@.len() as nat,
            old.page_count as nat,
            new.page_count as nat,
        ),
        r.stats == stats_of(pages_view(r.pages@)),
{
    let old_count = old.page_count;
    let new_count = new.page_count;
    let c = common.len();
    let mut pages = common;
    let ghost base = pages_view(pages@);
    let ghost sur = surplus_pages(c as nat, old_count as nat, new_count as nat);
    let mut i = c;
    while i < old_count
        invariant
            c <= i,
            c <= old_count ==> i <= old_count,
            c == min_count(old_count, new_count),
            pages_view(pages@) == base + sur.take((if i > c { i - c } else { 0 }) as int),
            sur == surplus_pages(c as nat, old_count as nat, new_count as nat),
        decreases old_count - i,
    {
        let ghost before = pages@;
        let p = PageDiff { page_index: i, status: PageStatus::Removed, entries: Vec::new() };
        assert(entries_view(p.entries@) =~= Seq::<EntryView>::empty());
        pages.push(p);
        assert(pages_view(pages@) =~= pages_view(before).push(p@));
        assert(sur[(i - c) as int] == p@);
        assert(sur.take((i + 1 - c) as int) =~= sur.take((i - c) as int).push(sur[(i - c) as int]));
        assert(pages_view(pages@) =~= base + sur.take((i + 1 - c) as int));
        i = i + 1;
    }
    let mut j = c;
    let ghost removed_len: int = if old_count > c { old_count - c } else { 0 };
    assert(pages_view(pages@) == base + sur.take(removed_len));
    while j < new_count
        invariant
            c <= j,
            c <= new_count ==> j <= new_count,
            c == min_count(old_count, new_count),
            removed_len == (if old_count > c { old_count - c } else { 0 }),
            pages_view(pages@) == base + sur.take(removed_len + (if j > c { j - c } else { 0 })),
            sur == surplus_pages(c as nat, old_count as nat, new_count as nat),
        decreases new_count - j,
    {
        let ghost before = pages@;
        let p = PageDiff { page_index: j, status: PageStatus::Added, entries: Vec::new() };
        assert(entries_view(p.entries@) =~= Seq::<EntryView>::empty());
        pages.push(p);
        assert(pages_view(pages@) =~= pages_view(before).push(p@));
        assert(sur[removed_len + (j - c)] == p@);
        assert(sur.take(removed_len + (j + 1 - c)) =~= sur.take(removed_len + (j - c)).push(sur[removed_len + (j - c)]));
        assert(pages_view(pages@) =~= base + sur.take(removed_len + (j + 1 - c)));
        j = j + 1;
    }
    assert(sur.take(sur.len() as int) == sur);
    proof {
        lemma_no_entries(sur);
        lemma_entries_concat(base, sur);
    }
    let stats = compute_stats(&pages);
    DiffReport { old, new, mode, generated_at, pages, stats }
}

// ---- laws ------------------------------------------------------------------

proof fn lemma_status_partition(ps: Seq<PageView>)
    ensures
        count_status(ps, PageStatus::Added) + count_status(ps, PageStatus::Removed)
            + count_status(ps, PageStatus::Modified) + count_status(ps, PageStatus::Match) == ps.len(),
    decreases ps.len(),
{
    if ps.len() > 0 {
        lemma_status_partition(ps.drop_last());
    }
}

proof fn lemma_kinds_total(ps: Seq<PageView>)
    ensures
        count_kind_pages(ps, DiffKind::Added) + count_kind_pages(ps, DiffKind::Removed)
            + count_kind_pages(ps, DiffKind::Modified) == total_changes_of(ps),
    decreases ps.len(),
{
    if ps.len() > 0 {
        lemma_kinds_total(ps.drop_last());
        lemma_kind_le(ps.last().entries, DiffKind::Added);
    }
}

/// Every page is counted under exactly one status, and the added, removed
/// and modified entry counts add up to the total number of changes.
pub proof fn law_stats_account_for_everything(pages: Seq<PageView>)
    ensures
        count_status(pages, PageStatus::Added) + count_status(pages, PageStatus::Removed)
            + count_status(pages, PageStatus::Modified) + count_status(pages, PageStatus::Match)
            == pages.len(),
        count_kind_pages(pages, DiffKind::Added) + count_kind_pages(pages, DiffKind::Removed)
            + count_kind_pages(pages, DiffKind::Modified) == total_changes_of(pages),
{
    lemma_status_partition(pages);
    lemma_kinds_total(pages);
}

/// A page pair compared in both documents is either matched or modified.
pub open spec fn compared_status(s: PageStatus) -> bool {
    s == PageStatus::Match || s == PageStatus::Modified
}

proof fn lemma_status_absent(ps: Seq<PageView>, s: PageStatus)
    requires
        forall|i: int| 0 <= i < ps.len() ==> (#[trigger] ps[i]).status != s,
    ensures
        count_status(ps, s) == 0,
    decreases ps.len(),
{
    if ps.len() > 0 {
        lemma_status_absent(ps.drop_last(), s);
    }
}

proof fn lemma_status_concat(a: Seq<PageView>, b: Seq<PageView>, s: PageStatus)
    ensures
        count_status(a + b, s) == count_status(a, s) + count_status(b, s),
    decreases b.len(),
{
    if b.len() > 0 {
        lemma_status_concat(a, b.drop_last(), s);
        assert((a + b).drop_last() == a + b.drop_last());
    } else {
        assert(a + b == a);
    }
}

proof fn lemma_status_all(ps: Seq<PageView>, s: PageStatus)
    requires
        forall|i: int| 0 <= i < ps.len() ==> (#[trigger] ps[i]).status == s,
    ensures
        count_status(ps, s) == ps.len(),
    decreases ps.len(),
{
    if ps.len() > 0 {
        lemma_status_all(ps.drop_last(), s);
    }
}

/// A compared page whose status follows its entries: matched or modified,
/// and matched exactly when it holds no change.
pub open spec fn status_follows_entries(p: PageView) -> bool {
    &&& compared_status(p.status)
    &&& (p.status == PageStatus::Match <==> count_changes(p.entries) == 0)
}

/// For a report assembled as `build_report` assembles it, from compared
/// pages whose statuses follow their entries (as the pages of
/// `compare_text_page`, `compare_visual_page` and `compare_hybrid_page` do):
/// it shows differences (as
/// `has_differences` decides) exactly when some page is not a match, and a
/// report that shows none holds no change at all.
pub proof fn law_assembled_report_differences(r: DiffReport, common: Seq<PageView>)
    requires
        common.len() == min_count(r.old.page_count, r.new.page_count),
        forall|i: int| 0 <= i < common.len() ==> status_follows_entries(#[trigger] common[i]),
        pages_view(r.pages@) == common + surplus_pages(
            common.len() as nat,
            r.old.page_count as nat,
            r.new.page_count as nat,
        ),
        r.stats == stats_of(pages_view(r.pages@)),
    ensures
        ({
            let pv = pages_view(r.pages@);
            let shows = some_page_changed(pv) || r.stats.added_pages > 0 || r.stats.removed_pages > 0;
            &&& shows <==> exists|i: int| 0 <= i < r.pages@.len() && (#[trigger] r.pages@[i]).status != PageStatus::Match
            &&& !shows ==> total_changes_of(pv) == 0
        }),
{
    let pv = pages_view(r.pages@);
    let c = common.len();
    let (oc, nc) = (r.old.page_count as nat, r.new.page_count as nat);
    let sur = surplus_pages(c as nat, oc, nc);
    assert forall|i: int| 0 <= i < c implies compared_status(#[trigger] common[i].status) by {
        assert(status_follows_entries(common[i]));
    }
    law_report_differences(common, oc, nc);
    law_stats_account_for_everything(pv);
    assert(pv.len() <= usize::MAX) by {
        assert(pv.len() == c + sur.len());
    }
    assert(r.stats.added_pages == count_status(pv, PageStatus::Added));
    assert(r.stats.removed_pages == count_status(pv, PageStatus::Removed));
    let shows = some_page_changed(pv) || r.stats.added_pages > 0 || r.stats.removed_pages > 0;
    let unmatched = exists|i: int| 0 <= i < r.pages@.len() && (#[trigger] r.pages@[i]).status != PageStatus::Match;
    if unmatched {
        let i = choose|i: int| 0 <= i < r.pages@.len() && (#[trigger] r.pages@[i]).status != PageStatus::Match;
        assert(pv[i] == r.pages@[i]@);
        if i < c {
            assert(pv[i] == common[i]);
            assert(status_follows_entries(common[i]));
            assert(count_changes(common[i].entries) > 0);
            assert(some_page_changed(common));
        } else {
            assert(sur.len() > 0);
        }
    }
    if shows {
        if some_page_changed(common) {
            let i = choose|i: int| 0 <= i < common.len() && count_changes(#[trigger] common[i].entries) > 0;
            assert(status_follows_entries(common[i]));
            assert(pv[i] == common[i]);
            assert(pv[i] == r.pages@[i]@);
            assert(r.pages@[i].status != PageStatus::Match);
        } else {
            assert(oc != nc);
            assert(sur.len() > 0);
            assert(pv[c as int] == sur[0]);
            assert(pv[c as int] == r.pages@[c as int]@);
            assert(r.pages@[c as int].status != PageStatus::Match);
        }
    }
    crate::report::lemma_total_positive(pv);
}

/// A report assembled from matched-or-modified page pairs shows differences
/// exactly when some compared page holds a change or the page counts differ.
pub proof fn law_report_differences(common: Seq<PageView>, old_count: nat, new_count: nat)
    requires
        common.len() == (if old_count < new_count { old_count } else { new_count }),
        forall|i: int| 0 <= i < common.len() ==> compared_status(#[trigger] common[i].status),
    ensures
        ({
            let pages = common + surplus_pages(common.len(), old_count, new_count);
            (some_page_changed(pages) || count_status(pages, PageStatus::Added) > 0
                || count_status(pages, PageStatus::Removed) > 0)
                <==> (some_page_changed(common) || old_count != new_count)
        }),
{
    let c = common.len();
    let sur = surplus_pages(c, old_count, new_count);
    let pages = common + sur;
    lemma_status_absent(common, PageStatus::Added);
    lemma_status_absent(common, PageStatus::Removed);
    lemma_status_concat(common, sur, PageStatus::Added);
    lemma_status_concat(common, sur, PageStatus::Removed);
    let rem = Seq::new(
        (if old_count > c { old_count - c } else { 0 }) as nat,
        |i: int| PageView { page_index: (c + i) as usize, status: PageStatus::Removed, entries: Seq::empty() },
    );
    let add = Seq::new(
        (if new_count > c { new_count - c } else { 0 }) as nat,
        |i: int| PageView { page_index: (c + i) as usize, status: PageStatus::Added, entries: Seq::empty() },
    );
    assert(sur == rem + add);
    lemma_status_concat(rem, add, PageStatus::Added);
    lemma_status_concat(rem, add, PageStatus::Removed);
    lemma_status_absent(rem, PageStatus::Added);
    lemma_status_absent(add, PageStatus::Removed);
    lemma_status_all(rem, PageStatus::Removed);
    lemma_status_all(add, PageStatus::Added);
    // changes live only in the compared pages
    if some_page_changed(pages) {
        let i = choose|i: int| 0 <= i < pages.len() && count_changes(#[trigger] pages[i].entries) > 0;
        if i >= c {
            assert(pages[i] == sur[i - c]);
            assert(sur[i - c].entries == Seq::<EntryView>::empty());
            assert(count_changes(Seq::<EntryView>::empty()) == 0);
        } else {
            assert(pages[i] == common[i]);
        }
    }
    if some_page_changed(common) {
        let i = choose|i: int| 0 <= i < common.len() && count_changes(#[trigger] common[i].entries) > 0;
        assert(pages[i] == common[i]);
    }
}

// ---- timestamps -------------------------------------------------------------

/// Whether `y` is a leap year of the proleptic Gregorian calendar.
pub open spec fn is_leap(y: int) -> bool {
    y % 4 == 0 && (y % 100 != 0 || y % 400 == 0)
}

/// Number of days of year `y`.
pub open spec fn year_days(y: int) -> int {
    if is_leap(y) {
        366
    } else {
        365
    }
}

/// Number of days of month `m` (1 to 12) of year `y`.
pub open spec fn month_days(y: int, m: int) -> int {
    if m == 2 {
        if is_leap(y) {
            29
        } else {
            28
        }
    } else if m == 4 || m == 6 || m == 9 || m == 11 {
        30
    } else {
        31
    }
}

/// Month and day of the date `n` days after the first of month `m` of year
/// `y`, for a date within that year.
pub open spec fn month_and_day(y: int, m: int, n: int) -> (int, int)
    decreases 12 - m,
{
    if m >= 12 || n < month_days(y, m) {
        (m, n + 1)
    } else {
        month_and_day(y, m + 1, n - month_days(y, m))
    }
}

/// Year, month and day of the date `n` days after 1 January of year `y`.
pub open spec fn date_after(y: int, n: nat) -> (int, int, int)
    decreases n,
{
    if n < year_days(y) {
        let (m, d) = month_and_day(y, 1, n as int);
        (y, m, d)
    } else {
        date_after(y + 1, (n - year_days(y)) as nat)
    }
}

/// The UTC time `secs` seconds after 1970-01-01T00:00:00Z, written as
/// `YYYY-MM-DDTHH:MM:SSZ` (the year takes more digits past 9999).
pub open spec fn rfc3339_text(secs: nat) -> Seq<char> {
    let (y, m, d) = date_after(1970, secs / 86400);
    let rem = secs % 86400;
    crate::strings::padded(y as nat, 4) + "-"@ + crate::strings::padded(m as nat, 2) + "-"@
        + crate::strings::padded(d as nat, 2) + "T"@ + crate::strings::padded(rem / 3600, 2) + ":"@
        + crate::strings::padded((rem % 3600) / 60, 2) + ":"@ + crate::strings::padded(rem % 60, 2) + "Z"@
}

fn is_leap_year(y: u64) -> (b: bool)
    ensures
        b == is_leap(y as int),
{
    y % 4 == 0 && (y % 100 != 0 || y % 400 == 0)
}

fn days_of_month(y: u64, m: u64) -> (r: u64)
    ensures
        r == month_days(y as int, m as int),
{
    if m == 2 {
        if is_leap_year(y) {
            29
        } else {
            28
        }
    } else if m == 4 || m == 6 || m == 9 || m == 11 {
        30
    } else {
        31
    }
}

/// The calendar date `days` days after 1970-01-01.
fn civil_date(days: u64) -> (r: (u64, u64, u64))
    requires
        days <= u64::MAX / 86400,
    ensures
        (r.0 as int, r.1 as int, r.2 as int) == date_after(1970, days as nat),
{
    let mut y: u64 = 1970;
    let mut n: u64 = days;
    loop
        invariant
            date_after(1970, days as nat) == date_after(y as int, n as nat),
            1970 <= y <= 1970 + (days - n),
            n <= days,
            days <= u64::MAX / 86400,
        ensures
            date_after(1970, days as nat) == date_after(y as int, n as nat),
            n < year_days(y as int),
        decreases n,
    {
        let len: u64 = if is_leap_year(y) { 366 } else { 365 };
        if n < len {
            break;
        }
        n = n - len;
        y = y + 1;
    }
    let mut m: u64 = 1;
    let ghost n0 = n;
    while m < 12 && n >= days_of_month(y, m)
        invariant
            1 <= m <= 12,
            n <= n0 < 366,
            month_and_day(y as int, 1, n0 as int) == month_and_day(y as int, m as int, n as int),
        decreases 12 - m,
    {
        n = n - days_of_month(y, m);
        m = m + 1;
    }
    (y, m, n + 1)
}

/// Calls `SystemTime::now` and measures it from `UNIX_EPOCH`: the whole
/// seconds since the Unix epoch, or none when the clock is set before it.
/// The value is the machine's clock; nothing is stated of it.
#[verifier::external_body]
fn seconds_since_epoch() -> (r: Option<u64>) {
    match std::time::SystemTime::now().duration_since(std::time::UNIX_EPOCH) {
        Ok(d) => Some(d.as_secs()),
        Err(_) => None,
    }
}

/// Render the time `secs` seconds after the Unix epoch as an RFC 3339 UTC
/// timestamp, `YYYY-MM-DDTHH:MM:SSZ`.
pub fn format_rfc3339(secs: u64) -> (r: String)
    ensures
        r@ == rfc3339_text(secs as nat),
{
    let days = secs / 86400;
    let rem = secs % 86400;
    let (y, m, d) = civil_date(days);
    let mut out = String::new();
    push_padded(&mut out, y, 4);
    push_str(&mut out, "-");
    push_padded(&mut out, m, 2);
    push_str(&mut out, "-");
    push_padded(&mut out, d, 2);
    push_str(&mut out, "T");
    push_padded(&mut out, rem / 3600, 2);
    push_str(&mut out, ":");
    push_padded(&mut out, (rem % 3600) / 60, 2);
    push_str(&mut out, ":");
    push_padded(&mut out, rem % 60, 2);
    push_str(&mut out, "Z");
    assert(out@ =~= rfc3339_text(secs as nat));
    out
}

/// The seconds a clock reading stands for: the reading itself, or the
/// Unix epoch when the clock reads earlier than that (`None`).
pub open spec fn clock_seconds(reading: Option<u64>) -> nat {
    match reading {
        Some(s) => s as nat,
        None => 0,
    }
}

/// The RFC 3339 timestamp of a clock reading in whole seconds since the Unix
/// epoch; the epoch itself for a clock set before it.
pub fn timestamp_of_reading(reading: Option<u64>) -> (r: String)
    ensures
        r@ == rfc3339_text(clock_seconds(reading)),
{
    let secs = match reading {
        Some(s) => s,
        None => 0,
    };
    format_rfc3339(secs)
}

/// The current UTC time as an RFC 3339 timestamp; the Unix epoch itself when
/// the clock reads earlier than that.
pub fn timestamp_rfc3339() -> (r: String)
    ensures
        exists|reading: Option<u64>| r@ == rfc3339_text(clock_seconds(reading)),
{
    let reading = seconds_since_epoch();
    timestamp_of_reading(reading)
}

proof fn lemma_month_and_day_valid(y: int, m: int, n: int)
    requires
        1 <= m <= 12,
        0 <= n,
        n < days_left_from(y, m),
    ensures
        1 <= month_and_day(y, m, n).0 <= 12,
        1 <= month_and_day(y, m, n).1 <= month_days(y, month_and_day(y, m, n).0),
    decreases 12 - m,
{
    if m < 12 && n >= month_days(y, m) {
        lemma_month_and_day_valid(y, m + 1, n - month_days(y, m));
    } else if m == 12 {
        assert(days_left_from(y, 13) == 0);
    }
}

/// Days from the first of month `m` of year `y` to the end of that year.
pub open spec fn days_left_from(y: int, m: int) -> int
    decreases 13 - m,
{
    if m > 12 {
        0
    } else {
        month_days(y, m) + days_left_from(y, m + 1)
    }
}

/// Every day number names a valid calendar date from 1970 on: the month
/// lies in 1..=12 and the day within the month's length.
pub proof fn law_civil_date_valid(y: int, n: nat)
    requires
        y >= 1970,
    ensures
        date_after(y, n).0 >= 1970,
        1 <= date_after(y, n).1 <= 12,
        1 <= date_after(y, n).2 <= month_days(date_after(y, n).0, date_after(y, n).1),
    decreases n,
{
    if n < year_days(y) {
        assert(days_left_from(y, 1) == year_days(y)) by {
            reveal_with_fuel(days_left_from, 13);
        }
        lemma_month_and_day_valid(y, 1, n as int);
    } else {
        law_civil_date_valid(y + 1, (n - year_days(y)) as nat);
    }
}

/// A timestamp whose year has at most four digits is 20 characters long,
/// with `-` at offsets 4 and 7, `T` at 10, `:` at 13 and 16 and `Z` at 19.
pub proof fn law_timestamp_shape(secs: nat)
    requires
        date_after(1970, secs / 86400).0 < 10000,
    ensures
        rfc3339_text(secs).len() == 20,
        rfc3339_text(secs)[4] == '-',
        rfc3339_text(secs)[7] == '-',
        rfc3339_text(secs)[10] == 'T',
        rfc3339_text(secs)[13] == ':',
        rfc3339_text(secs)[16] == ':',
        rfc3339_text(secs)[19] == 'Z',
{
    let (y, m, d) = date_after(1970, secs / 86400);
    let rem = secs % 86400;
    law_civil_date_valid(1970, secs / 86400);
    assert(crate::strings::pow10(2) == 100 && crate::strings::pow10(4) == 10000) by {
        reveal_with_fuel(crate::strings::pow10, 5);
    }
    crate::strings::lemma_padded_len(y as nat, 4);
    crate::strings::lemma_padded_len(m as nat, 2);
    crate::strings::lemma_padded_len(d as nat, 2);
    crate::strings::lemma_padded_len(rem / 3600, 2);
    crate::strings::lemma_padded_len((rem % 3600) / 60, 2);
    crate::strings::lemma_padded_len(rem % 60, 2);
    reveal_strlit("-");
    reveal_strlit("T");
    reveal_strlit(":");
    reveal_strlit("Z");
}

} // verus!
