//! Diff report data model.
//!
//! `DiffReport` is the single result of a comparison, shared by the viewer
//! and by the exporters. Page coordinates are carried as the IEEE-754 bit
//! patterns of single-precision PDF point values: this library copies them
//! but never computes with them.

use vstd::prelude::*;

verus! {

/// Comparison mode selected by the user.
#[derive(Debug, Clone, Copy, PartialEq, Eq, Structural)]
pub enum DiffMode {
    /// Line-by-line text comparison (data sheets, specifications).
    Text,
    /// Rasterised pixel comparison (schematics, layouts).
    Visual,
    /// Text diff annotated with visual highlight regions.
    Hybrid,
}

/// The name of a mode, as written in reports and on the command line.
pub open spec fn mode_name(m: DiffMode) -> Seq<char> {
    match m {
        DiffMode::Text => "text"@,
        DiffMode::Visual => "visual"@,
        DiffMode::Hybrid => "hybrid"@,
    }
}

/// The mode a lower-cased name selects: `visual`, `hybrid`, anything else text.
pub open spec fn mode_from_lower(t: Seq<char>) -> DiffMode {
    if t == "visual"@ {
        DiffMode::Visual
    } else if t == "hybrid"@ {
        DiffMode::Hybrid
    } else {
        DiffMode::Text
    }
}

impl DiffMode {
    pub fn as_str(&self) -> (r: &'static str)
        ensures
            r@ == mode_name(*self),
    {
        match self {
            DiffMode::Text => "text",
            DiffMode::Visual => "visual",
            DiffMode::Hybrid => "hybrid",
        }
    }

    /// Parse a mode name, case-insensitively for ASCII; unknown names give
    /// `Text`.
    pub fn from_str(s: &str) -> (m: DiffMode)
        ensures
            m == mode_from_lower(crate::strings::ascii_lower(s@)),
    {
        let lower = crate::strings::to_ascii_lowercase(s);
        if lower == String::from_str("visual") {
            DiffMode::Visual
        } else if lower == String::from_str("hybrid") {
            DiffMode::Hybrid
        } else {
            DiffMode::Text
        }
    }
}

/// Parsing the name of a mode gives the mode back.
pub proof fn law_mode_name_roundtrip(m: DiffMode)
    ensures
        mode_from_lower(crate::strings::ascii_lower(mode_name(m))) == m,
{
    reveal_strlit("text");
    reveal_strlit("visual");
    reveal_strlit("hybrid");
    assert(crate::strings::ascii_lower("text"@) =~= "text"@);
    assert(crate::strings::ascii_lower("visual"@) =~= "visual"@);
    assert(crate::strings::ascii_lower("hybrid"@) =~= "hybrid"@);
    assert("text"@ != "visual"@);
    assert("text"@ != "hybrid"@);
    assert("hybrid"@[0] != "visual"@[0]);
}

/// The kind of change a single diff entry represents.
#[derive(Debug, Clone, Copy, PartialEq, Eq, Structural)]
pub enum DiffKind {
    /// Present only in the new document.
    Added,
    /// Present only in the old document.
    Removed,
    /// Content changed between the two documents.
    Modified,
    /// Content identical in both documents.
    Unchanged,
}

pub open spec fn kind_name(k: DiffKind) -> Seq<char> {
    match k {
        DiffKind::Added => "added"@,
        DiffKind::Removed => "removed"@,
        DiffKind::Modified => "modified"@,
        DiffKind::Unchanged => "unchanged"@,
    }
}

impl DiffKind {
    pub fn as_str(&self) -> (r: &'static str)
        ensures
            r@ == kind_name(*self),
    {
        match self {
            DiffKind::Added => "added",
            DiffKind::Removed => "removed",
            DiffKind::Modified => "modified",
            DiffKind::Unchanged => "unchanged",
        }
    }
}

/// Status of an individual page pair.
#[derive(Debug, Clone, Copy, PartialEq, Eq, Structural)]
pub enum PageStatus {
    /// Page exists in both documents and is identical.
    Match,
    /// Page content changed.
    Modified,
    /// Page exists only in the new document.
    Added,
    /// Page exists only in the old document.
    Removed,
}

pub open spec fn status_name(s: PageStatus) -> Seq<char> {
    match s {
        PageStatus::Match => "match"@,
        PageStatus::Modified => "modified"@,
        PageStatus::Added => "added"@,
        PageStatus::Removed => "removed"@,
    }
}

impl PageStatus {
    pub fn as_str(&self) -> (r: &'static str)
        ensures
            r@ == status_name(*self),
    {
        match self {
            PageStatus::Match => "match",
            PageStatus::Modified => "modified",
            PageStatus::Added => "added",
            PageStatus::Removed => "removed",
        }
    }
}

/// Axis-aligned rectangle in PDF point space, origin at the top-left of the
/// page. Each coordinate is the bit pattern of an `f32` point value.
#[derive(Debug, Clone, Copy, PartialEq, Eq, Structural)]
pub struct Rect {
    pub left: u32,
    pub top: u32,
    pub right: u32,
    pub bottom: u32,
}

impl Rect {
    /// A rectangle from the bit patterns of its four coordinates.
    pub fn from_bits(left: u32, top: u32, right: u32, bottom: u32) -> (r: Rect)
        ensures
            r == (Rect { left, top, right, bottom }),
    {
        Rect { left, top, right, bottom }
    }
}

/// A single row of the diff report (one line / one visual region).
#[derive(Debug)]
pub struct DiffEntry {
    pub kind: DiffKind,
    /// 0-based line index within the old page (text mode).
    pub old_line: Option<usize>,
    /// 0-based line index within the new page (text mode).
    pub new_line: Option<usize>,
    pub old_text: Option<String>,
    pub new_text: Option<String>,
    pub old_rect: Option<Rect>,
    pub new_rect: Option<Rect>,
    /// Highlighted regions on the new page (visual / hybrid mode).
    pub visual_rects: Vec<Rect>,
}

/// The value of an optional string.
pub open spec fn opt_text(o: Option<String>) -> Option<Seq<char>> {
    match o {
        Some(s) => Some(s@),
        None => None,
    }
}

/// The mathematical value of a diff entry.
pub struct EntryView {
    pub kind: DiffKind,
    pub old_line: Option<usize>,
    pub new_line: Option<usize>,
    pub old_text: Option<Seq<char>>,
    pub new_text: Option<Seq<char>>,
    pub old_rect: Option<Rect>,
    pub new_rect: Option<Rect>,
    pub visual_rects: Seq<Rect>,
}

impl View for DiffEntry {
    type V = EntryView;

    open spec fn view(&self) -> EntryView {
        EntryView {
            kind: self.kind,
            old_line: self.old_line,
            new_line: self.new_line,
            old_text: opt_text(self.old_text),
            new_text: opt_text(self.new_text),
            old_rect: self.old_rect,
            new_rect: self.new_rect,
            visual_rects: self.visual_rects@,
        }
    }
}

/// Whether an entry of this kind is a change.
pub open spec fn is_change_kind(k: DiffKind) -> bool {
    k != DiffKind::Unchanged
}

impl DiffEntry {
    pub fn is_change(&self) -> (b: bool)
        ensures
            b == is_change_kind(self.kind),
    {
        !matches!(self.kind, DiffKind::Unchanged)
    }
}

/// The values of a sequence of entries.
pub open spec fn entries_view(es: Seq<DiffEntry>) -> Seq<EntryView> {
    es.map_values(|e: DiffEntry| e@)
}

/// Number of entries that are changes.
pub open spec fn count_changes(es: Seq<EntryView>) -> nat
    decreases es.len(),
{
    if es.len() == 0 {
        0
    } else {
        count_changes(es.drop_last()) + if is_change_kind(es.last().kind) { 1nat } else { 0nat }
    }
}

/// Number of entries of the given kind.
pub open spec fn count_kind(es: Seq<EntryView>, k: DiffKind) -> nat
    decreases es.len(),
{
    if es.len() == 0 {
        0
    } else {
        count_kind(es.drop_last(), k) + if es.last().kind == k { 1nat } else { 0nat }
    }
}

/// Diff results for a single page.
#[derive(Debug)]
pub struct PageDiff {
    /// 0-based page index in the document it belongs to.
    pub page_index: usize,
    pub status: PageStatus,
    pub entries: Vec<DiffEntry>,
}

/// The mathematical value of a page diff.
pub struct PageView {
    pub page_index: usize,
    pub status: PageStatus,
    pub entries: Seq<EntryView>,
}

impl View for PageDiff {
    type V = PageView;

    open spec fn view(&self) -> PageView {
        PageView { page_index: self.page_index, status: self.status, entries: entries_view(self.entries@) }
    }
}

impl PageDiff {
    pub fn change_count(&self) -> (n: usize)
        ensures
            n == count_changes(self@.entries),
    {
        let mut n: usize = 0;
        let len = self.entries.len();
        for i in 0..len
            invariant
                len == self.entries@.len(),
                n == count_changes(entries_view(self.entries@).take(i as int)),
                n <= i,
        {
            assert(entries_view(self.entries@).take(i + 1).drop_last() == entries_view(self.entries@).take(i as int));
            if self.entries[i].is_change() {
                n = n + 1;
            }
        }
        assert(entries_view(self.entries@).take(len as int) == entries_view(self.entries@));
        n
    }
}

/// Summary of a compared file.
#[derive(Debug)]
pub struct DocSummary {
    pub path: String,
    pub page_count: usize,
    pub title: Option<String>,
}

/// Aggregate statistics for a comparison.
#[derive(Debug, Clone, Copy, PartialEq, Eq, Structural)]
pub struct DiffStats {
    pub added_pages: usize,
    pub removed_pages: usize,
    pub modified_pages: usize,
    pub matched_pages: usize,
    pub added_entries: usize,
    pub removed_entries: usize,
    pub modified_entries: usize,
}

impl Default for DiffStats {
    fn default() -> (s: DiffStats)
        ensures
            s == (DiffStats {
                added_pages: 0,
                removed_pages: 0,
                modified_pages: 0,
                matched_pages: 0,
                added_entries: 0,
                removed_entries: 0,
                modified_entries: 0,
            }),
    {
        DiffStats {
            added_pages: 0,
            removed_pages: 0,
            modified_pages: 0,
            matched_pages: 0,
            added_entries: 0,
            removed_entries: 0,
            modified_entries: 0,
        }
    }
}

/// The complete result of comparing two PDF documents.
#[derive(Debug)]
pub struct DiffReport {
    pub old: DocSummary,
    pub new: DocSummary,
    pub mode: DiffMode,
    /// RFC3339 timestamp of when the comparison was run.
    pub generated_at: String,
    pub pages: Vec<PageDiff>,
    pub stats: DiffStats,
}

/// The values of a sequence of pages.
pub open spec fn pages_view(ps: Seq<PageDiff>) -> Seq<PageView> {
    ps.map_values(|p: PageDiff| p@)
}

/// Total number of change entries over all pages.
pub open spec fn total_changes_of(ps: Seq<PageView>) -> nat
    decreases ps.len(),
{
    if ps.len() == 0 {
        0
    } else {
        total_changes_of(ps.drop_last()) + count_changes(ps.last().entries)
    }
}

/// Whether some page holds a change entry.
pub open spec fn some_page_changed(ps: Seq<PageView>) -> bool {
    exists|i: int| 0 <= i < ps.len() && count_changes(#[trigger] ps[i].entries) > 0
}

pub(crate) proof fn lemma_total_positive(ps: Seq<PageView>)
    ensures
        (total_changes_of(ps) > 0) == some_page_changed(ps),
    decreases ps.len(),
{
    if ps.len() > 0 {
        lemma_total_positive(ps.drop_last());
        if some_page_changed(ps.drop_last()) {
            let i = choose|i: int| 0 <= i < ps.drop_last().len() && count_changes(#[trigger] ps.drop_last()[i].entries) > 0;
            assert(ps[i] == ps.drop_last()[i]);
        }
        if some_page_changed(ps) {
            let i = choose|i: int| 0 <= i < ps.len() && count_changes(#[trigger] ps[i].entries) > 0;
            if i < ps.len() - 1 {
                assert(ps[i] == ps.drop_last()[i]);
            }
        }
    }
}

impl DiffReport {
    /// Whether any differences at all were detected.
    pub fn has_differences(&self) -> (b: bool)
        ensures
            b == (some_page_changed(pages_view(self.pages@)) || self.stats.added_pages > 0
                || self.stats.removed_pages > 0),
    {
        let n = self.pages.len();
        let ghost ps = pages_view(self.pages@);
        let mut i: usize = 0;
        while i < n
            invariant
                n == self.pages@.len(),
                ps == pages_view(self.pages@),
                i <= n,
                forall|k: int| 0 <= k < i ==> count_changes(#[trigger] ps[k].entries) == 0,
            decreases n - i,
        {
            if self.pages[i].change_count() > 0 {
                assert(count_changes(ps[i as int].entries) > 0);
                return true;
            }
            i = i + 1;
        }
        self.stats.added_pages > 0 || self.stats.removed_pages > 0
    }

    /// Total number of changed entries across all pages.
    pub fn total_changes(&self) -> (n: usize)
        requires
            total_changes_of(pages_view(self.pages@)) <= usize::MAX,
        ensures
            n == total_changes_of(pages_view(self.pages@)),
    {
        let len = self.pages.len();
        let ghost ps = pages_view(self.pages@);
        let mut n: usize = 0;
        for i in 0..len
            invariant
                len == self.pages@.len(),
                ps == pages_view(self.pages@),
                n == total_changes_of(ps.take(i as int)),
                total_changes_of(ps) <= usize::MAX,
        {
            assert(ps.take(i + 1).drop_last() == ps.take(i as int));
            proof { lemma_total_prefix_le(ps, i + 1); }
            n = n + self.pages[i].change_count();
        }
        assert(ps.take(len as int) == ps);
        n
    }
}

/// The total over a prefix never exceeds the total.
pub proof fn lemma_total_prefix_le(ps: Seq<PageView>, k: int)
    requires
        0 <= k <= ps.len(),
    ensures
        total_changes_of(ps.take(k)) <= total_changes_of(ps),
    decreases ps.len() - k,
{
    if k < ps.len() {
        lemma_total_prefix_le(ps, k + 1);
        assert(ps.take(k + 1).drop_last() == ps.take(k));
    } else {
        assert(ps.take(k) == ps);
    }
}

} // verus!
