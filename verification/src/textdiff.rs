//! Line-based text diff.
//!
//! The trimmed text lines of two pages are compared with the Myers diff of
//! the `similar` crate; each edit operation is then mapped back onto the
//! untrimmed lines, with their text and coordinates, as report entries.

use vstd::prelude::*;
use crate::report::{
    count_changes, entries_view, is_change_kind, DiffEntry, DiffKind, EntryView, PageDiff,
    PageStatus, Rect,
};
use crate::strings::trim_spec;

verus! {

/// A single visual line of text on a page.
#[derive(Debug, Clone)]
pub struct TextLine {
    pub text: String,
    /// Union of the bounding boxes of the segments forming this line.
    pub rect: Rect,
}

/// What an edit operation does.
#[derive(Debug, Clone, Copy, PartialEq, Eq, Structural)]
pub enum EditTag {
    Equal,
    Delete,
    Insert,
    Replace,
}

/// One edit operation over index ranges of the old and the new sequence.
#[derive(Debug, Clone, Copy, PartialEq, Eq, Structural)]
pub struct EditOp {
    pub tag: EditTag,
    pub old_start: usize,
    pub old_end: usize,
    pub new_start: usize,
    pub new_end: usize,
}

/// The edit operations that `similar`'s Myers line diff (with its default
/// configuration: no deadline) produces for two sequences of lines.
pub uninterp spec fn myers_line_ops(old: Seq<Seq<char>>, new: Seq<Seq<char>>) -> Seq<EditOp>;

/// Every range lies within its sequence, and the ranges fit the tag: a
/// deletion has an empty new range, an insertion an empty old range, a
/// replacement two non-empty ranges, an equal run two ranges of one length.
pub open spec fn ops_well_formed(ops: Seq<EditOp>, old_len: nat, new_len: nat) -> bool {
    forall|k: int| 0 <= k < ops.len() ==> op_well_formed(#[trigger] ops[k], old_len, new_len)
}

/// One operation's ranges lie within the sequences and fit its tag.
pub open spec fn op_well_formed(op: EditOp, old_len: nat, new_len: nat) -> bool {
    &&& op.old_start <= op.old_end <= old_len
    &&& op.new_start <= op.new_end <= new_len
    &&& op.tag == EditTag::Equal ==> op.old_end - op.old_start == op.new_end - op.new_start
    &&& op.tag == EditTag::Delete ==> op.new_start == op.new_end
    &&& op.tag == EditTag::Insert ==> op.old_start == op.old_end
    &&& op.tag == EditTag::Replace ==> op.old_start < op.old_end && op.new_start < op.new_end
}

/// Lines inside an equal run are equal.
pub open spec fn equal_runs_match(ops: Seq<EditOp>, old: Seq<Seq<char>>, new: Seq<Seq<char>>) -> bool {
    forall|k: int, i: int|
        0 <= k < ops.len() && (#[trigger] ops[k]).tag == EditTag::Equal && 0 <= i < ops[k].old_end - ops[k].old_start
            ==> old[ops[k].old_start + i] == #[trigger] new[ops[k].new_start + i]
}

/// Every operation is an equal run.
pub open spec fn all_equal(ops: Seq<EditOp>) -> bool {
    forall|k: int| 0 <= k < ops.len() ==> (#[trigger] ops[k]).tag == EditTag::Equal
}

/// Operation `k` ends, on both sides, where operation `k + 1` starts.
pub open spec fn meets_next(ops: Seq<EditOp>, k: int) -> bool {
    ops[k].old_end == ops[k + 1].old_start && ops[k].new_end == ops[k + 1].new_start
}

/// The operations tile both sequences in order: the first starts at the
/// beginning of both, each starts where the previous one ended, and the
/// last ends at both lengths (no operations for two empty sequences).
pub open spec fn ops_tile(ops: Seq<EditOp>, old_len: nat, new_len: nat) -> bool {
    &&& ops.len() == 0 ==> old_len == 0 && new_len == 0
    &&& ops.len() > 0 ==> {
        &&& ops[0].old_start == 0 && ops[0].new_start == 0
        &&& ops.last().old_end == old_len && ops.last().new_end == new_len
    }
    &&& forall|k: int| 0 <= k < ops.len() - 1 ==> #[trigger] meets_next(ops, k)
}

/// The values of a sequence of strings.
pub open spec fn strings_view(v: Seq<String>) -> Seq<Seq<char>> {
    v.map_values(|s: String| s@)
}

/// Calls `similar::TextDiff::from_slices(..).ops()` on the two line
/// sequences and returns each operation by its tag and index ranges
/// (`DiffOp::as_tag_tuple`). The result is named `myers_line_ops`. The
/// contract further claims what the crate's source shows: the ranges lie in
/// bounds and fit their tag, the operations tile both sequences in order,
/// lines inside an equal run are equal, and two equal sequences give equal
/// runs only.
#[verifier::external_body]
fn similar_line_ops(old: &Vec<String>, new: &Vec<String>) -> (ops: Vec<EditOp>)
    ensures
        ops@ == myers_line_ops(strings_view(old@), strings_view(new@)),
        ops_well_formed(ops@, old@.len(), new@.len()),
        ops_tile(ops@, old@.len(), new@.len()),
        equal_runs_match(ops@, strings_view(old@), strings_view(new@)),
        strings_view(old@) == strings_view(new@) ==> all_equal(ops@),
{
    let o: Vec<&str> = old.iter().map(|s| s.as_str()).collect();
    let n: Vec<&str> = new.iter().map(|s| s.as_str()).collect();
    similar::TextDiff::from_slices(&o, &n).ops().iter().map(|op| {
        let (tag, or, nr) = op.as_tag_tuple();
        let tag = match tag {
            similar::DiffTag::Equal => EditTag::Equal,
            similar::DiffTag::Delete => EditTag::Delete,
            similar::DiffTag::Insert => EditTag::Insert,
            similar::DiffTag::Replace => EditTag::Replace,
        };
        EditOp { tag, old_start: or.start, old_end: or.end, new_start: nr.start, new_end: nr.end }
    }).collect()
}

// ---- entries -----------------------------------------------------------------

/// The value of a text line: its text and its rectangle.
pub open spec fn line_view(l: TextLine) -> (Seq<char>, Rect) {
    (l.text@, l.rect)
}

pub open spec fn lines_view(ls: Seq<TextLine>) -> Seq<(Seq<char>, Rect)> {
    ls.map_values(|l: TextLine| line_view(l))
}

/// The trimmed texts of a sequence of lines.
pub open spec fn trimmed_texts(ls: Seq<(Seq<char>, Rect)>) -> Seq<Seq<char>> {
    ls.map_values(|l: (Seq<char>, Rect)| trim_spec(l.0))
}

pub open spec fn entry_of(
    kind: DiffKind,
    old: Option<(Seq<char>, Rect)>,
    new: Option<(Seq<char>, Rect)>,
    old_i: Option<usize>,
    new_i: Option<usize>,
) -> EntryView {
    EntryView {
        kind,
        old_line: old_i,
        new_line: new_i,
        old_text: match old { Some(l) => Some(l.0), None => None },
        new_text: match new { Some(l) => Some(l.0), None => None },
        old_rect: match old { Some(l) => Some(l.1), None => None },
        new_rect: match new { Some(l) => Some(l.1), None => None },
        visual_rects: Seq::empty(),
    }
}

/// Line index used for the `k`-th pair of a replacement of `len` lines from
/// `start`: the lines pair up in order and the last line of the shorter side
/// is repeated.
pub open spec fn replace_index(start: usize, len: usize, k: int) -> int {
    start + if len == 1 { 0 } else if k < len - 1 { k } else { len - 1 }
}

/// The entries one edit operation contributes.
pub open spec fn op_entries(
    old: Seq<(Seq<char>, Rect)>,
    new: Seq<(Seq<char>, Rect)>,
    op: EditOp,
) -> Seq<EntryView> {
    match op.tag {
        EditTag::Equal => Seq::new((op.old_end - op.old_start) as nat, |i: int|
            entry_of(DiffKind::Unchanged, Some(old[op.old_start + i]), Some(new[op.new_start + i]),
                Some((op.old_start + i) as usize), Some((op.new_start + i) as usize))),
        EditTag::Delete => Seq::new((op.old_end - op.old_start) as nat, |i: int|
            entry_of(DiffKind::Removed, Some(old[op.old_start + i]), None,
                Some((op.old_start + i) as usize), None)),
        EditTag::Insert => Seq::new((op.new_end - op.new_start) as nat, |i: int|
            entry_of(DiffKind::Added, None, Some(new[op.new_start + i]),
                None, Some((op.new_start + i) as usize))),
        EditTag::Replace => {
            let ol = (op.old_end - op.old_start) as usize;
            let nl = (op.new_end - op.new_start) as usize;
            let pairs = if ol > nl { ol } else { nl };
            Seq::new(pairs as nat, |k: int| {
                let oi = replace_index(op.old_start, ol, k);
                let ni = replace_index(op.new_start, nl, k);
                entry_of(DiffKind::Modified, Some(old[oi]), Some(new[ni]), Some(oi as usize), Some(ni as usize))
            })
        },
    }
}

/// The entries of a whole edit script, operation after operation.
pub open spec fn script_entries(
    old: Seq<(Seq<char>, Rect)>,
    new: Seq<(Seq<char>, Rect)>,
    ops: Seq<EditOp>,
) -> Seq<EntryView>
    decreases ops.len(),
{
    if ops.len() == 0 {
        Seq::empty()
    } else {
        script_entries(old, new, ops.drop_last()) + op_entries(old, new, ops.last())
    }
}

fn line_entry(
    kind: DiffKind,
    old: Option<&TextLine>,
    new: Option<&TextLine>,
    old_i: Option<usize>,
    new_i: Option<usize>,
) -> (e: DiffEntry)
    ensures
        e@ == entry_of(
            kind,
            match old { Some(l) => Some(line_view(*l)), None => None },
            match new { Some(l) => Some(line_view(*l)), None => None },
            old_i,
            new_i,
        ),
{
    let (old_text, old_rect) = match old {
        Some(l) => (Some(l.text.clone()), Some(l.rect)),
        None => (None, None),
    };
    let (new_text, new_rect) = match new {
        Some(l) => (Some(l.text.clone()), Some(l.rect)),
        None => (None, None),
    };
    let e = DiffEntry {
        kind,
        old_line: old_i,
        new_line: new_i,
        old_text,
        new_text,
        old_rect,
        new_rect,
        visual_rects: Vec::new(),
    };
    assert(e.visual_rects@ =~= Seq::<Rect>::empty());
    e
}

/// Map an edit script back onto the lines it was computed from.
pub fn entries_from_ops(old_lines: &[TextLine], new_lines: &[TextLine], ops: &Vec<EditOp>) -> (entries: Vec<DiffEntry>)
    requires
        ops_well_formed(ops@, old_lines@.len(), new_lines@.len()),
    ensures
        entries_view(entries@) == script_entries(lines_view(old_lines@), lines_view(new_lines@), ops@),
{
    let ghost ov = lines_view(old_lines@);
    let ghost nv = lines_view(new_lines@);
    let mut entries: Vec<DiffEntry> = Vec::new();
    let nops = ops.len();
    for k in 0..nops
        invariant
            nops == ops@.len(),
            ov == lines_view(old_lines@),
            nv == lines_view(new_lines@),
            ops_well_formed(ops@, old_lines@.len(), new_lines@.len()),
            entries_view(entries@) == script_entries(ov, nv, ops@.take(k as int)),
    {
        let op = ops[k];
        assert(ops@[k as int] == op);
        assert(op_well_formed(op, old_lines@.len() as nat, new_lines@.len() as nat));
        assert(ops@.take(k + 1).drop_last() == ops@.take(k as int));
        let ghost base = entries_view(entries@);
        let ghost want = op_entries(ov, nv, op);
        assert(script_entries(ov, nv, ops@.take(k + 1)) == base + want);
        match op.tag {
            EditTag::Equal => {
                let len = op.old_end - op.old_start;
                for i in 0..len
                    invariant
                        len == op.old_end - op.old_start,
                        op_well_formed(op, old_lines@.len() as nat, new_lines@.len() as nat),
                        op.tag == EditTag::Equal,
                        ov == lines_view(old_lines@),
                        nv == lines_view(new_lines@),
                        want == op_entries(ov, nv, op),
                        entries_view(entries@) == base + want.take(i as int),
                {
                    let oi = op.old_start + i;
                    let ni = op.new_start + i;
                    let e = line_entry(DiffKind::Unchanged, Some(&old_lines[oi]), Some(&new_lines[ni]), Some(oi), Some(ni));
                    let ghost before = entries@;
                    entries.push(e);
                    assert(entries_view(entries@) =~= entries_view(before).push(e@));
                    assert(want.take(i + 1) =~= want.take(i as int).push(want[i as int]));
                }
                assert(want.take(len as int) =~= want);
            },
            EditTag::Delete => {
                let len = op.old_end - op.old_start;
                for i in 0..len
                    invariant
                        len == op.old_end - op.old_start,
                        op_well_formed(op, old_lines@.len() as nat, new_lines@.len() as nat),
                        op.tag == EditTag::Delete,
                        ov == lines_view(old_lines@),
                        nv == lines_view(new_lines@),
                        want == op_entries(ov, nv, op),
                        entries_view(entries@) == base + want.take(i as int),
                {
                    let oi = op.old_start + i;
                    let e = line_entry(DiffKind::Removed, Some(&old_lines[oi]), None, Some(oi), None);
                    let ghost before = entries@;
                    entries.push(e);
                    assert(entries_view(entries@) =~= entries_view(before).push(e@));
                    assert(want.take(i + 1) =~= want.take(i as int).push(want[i as int]));
                }
                assert(want.take(len as int) =~= want);
            },
            EditTag::Insert => {
                let len = op.new_end - op.new_start;
                for i in 0..len
                    invariant
                        len == op.new_end - op.new_start,
                        op_well_formed(op, old_lines@.len() as nat, new_lines@.len() as nat),
                        op.tag == EditTag::Insert,
                        ov == lines_view(old_lines@),
                        nv == lines_view(new_lines@),
                        want == op_entries(ov, nv, op),
                        entries_view(entries@) == base + want.take(i as int),
                {
                    let ni = op.new_start + i;
                    let e = line_entry(DiffKind::Added, None, Some(&new_lines[ni]), None, Some(ni));
                    let ghost before = entries@;
                    entries.push(e);
                    assert(entries_view(entries@) =~= entries_view(before).push(e@));
                    assert(want.take(i + 1) =~= want.take(i as int).push(want[i as int]));
                }
                assert(want.take(len as int) =~= want);
            },
            EditTag::Replace => {
                let ol = op.old_end - op.old_start;
                let nl = op.new_end - op.new_start;
                let pairs = if ol > nl { ol } else { nl };
                for p in 0..pairs
                    invariant
                        ol == op.old_end - op.old_start,
                        nl == op.new_end - op.new_start,
                        pairs == (if ol > nl { ol } else { nl }),
                        op_well_formed(op, old_lines@.len() as nat, new_lines@.len() as nat),
                        op.tag == EditTag::Replace,
                        ov == lines_view(old_lines@),
                        nv == lines_view(new_lines@),
                        want == op_entries(ov, nv, op),
                        entries_view(entries@) == base + want.take(p as int),
                {
                    let oi = op.old_start + if ol == 1 { 0 } else if p < ol - 1 { p } else { ol - 1 };
                    let ni = op.new_start + if nl == 1 { 0 } else if p < nl - 1 { p } else { nl - 1 };
                    let e = line_entry(DiffKind::Modified, Some(&old_lines[oi]), Some(&new_lines[ni]), Some(oi), Some(ni));
                    let ghost before = entries@;
                    entries.push(e);
                    assert(entries_view(entries@) =~= entries_view(before).push(e@));
                    assert(want.take(p + 1) =~= want.take(p as int).push(want[p as int]));
                }
                assert(want.take(pairs as int) =~= want);
            },
        }
    }
    assert(ops@.take(nops as int) == ops@);
    entries
}

/// An unchanged entry pairs two lines whose trimmed texts are equal.
pub open spec fn unchanged_lines_equal(e: EntryView) -> bool {
    e.kind == DiffKind::Unchanged ==> (e.old_text matches Some(a) && e.new_text matches Some(b)
        && trim_spec(a) == trim_spec(b))
}

proof fn lemma_unchanged_equal(
    old: Seq<(Seq<char>, Rect)>,
    new: Seq<(Seq<char>, Rect)>,
    ops: Seq<EditOp>,
)
    requires
        ops_well_formed(ops, old.len(), new.len()),
        equal_runs_match(ops, trimmed_texts(old), trimmed_texts(new)),
    ensures
        forall|j: int| 0 <= j < script_entries(old, new, ops).len()
            ==> unchanged_lines_equal(#[trigger] script_entries(old, new, ops)[j]),
    decreases ops.len(),
{
    if ops.len() > 0 {
        let pre = ops.drop_last();
        assert(ops_well_formed(pre, old.len(), new.len())) by {
            assert forall|k: int| 0 <= k < pre.len() implies op_well_formed(#[trigger] pre[k], old.len(), new.len()) by {
                assert(pre[k] == ops[k]);
            }
        }
        assert(equal_runs_match(pre, trimmed_texts(old), trimmed_texts(new))) by {
            assert forall|k: int, i: int|
                0 <= k < pre.len() && (#[trigger] pre[k]).tag == EditTag::Equal && 0 <= i < pre[k].old_end - pre[k].old_start
                implies trimmed_texts(old)[pre[k].old_start + i] == #[trigger] trimmed_texts(new)[pre[k].new_start + i] by {
                assert(pre[k] == ops[k]);
            }
        }
        lemma_unchanged_equal(old, new, pre);
        let a = script_entries(old, new, pre);
        let last = ops.last();
        let b = op_entries(old, new, last);
        assert(op_well_formed(ops[ops.len() - 1], old.len(), new.len()));
        assert forall|j: int| 0 <= j < (a + b).len() implies unchanged_lines_equal(#[trigger] (a + b)[j]) by {
            if j >= a.len() {
                let i = j - a.len();
                if last.tag == EditTag::Equal {
                    let k = ops.len() - 1;
                    assert(ops[k] == last);
                    assert(trimmed_texts(old)[ops[k].old_start + i] == trimmed_texts(new)[ops[k].new_start + i]);
                }
            }
        }
    }
}

proof fn lemma_all_equal_unchanged(
    old: Seq<(Seq<char>, Rect)>,
    new: Seq<(Seq<char>, Rect)>,
    ops: Seq<EditOp>,
)
    requires
        all_equal(ops),
    ensures
        forall|j: int| 0 <= j < script_entries(old, new, ops).len()
            ==> (#[trigger] script_entries(old, new, ops)[j]).kind == DiffKind::Unchanged,
    decreases ops.len(),
{
    if ops.len() > 0 {
        let pre = ops.drop_last();
        assert(all_equal(pre)) by {
            assert forall|k: int| 0 <= k < pre.len() implies (#[trigger] pre[k]).tag == EditTag::Equal by {
                assert(pre[k] == ops[k]);
            }
        }
        lemma_all_equal_unchanged(old, new, pre);
        assert(ops[ops.len() - 1].tag == EditTag::Equal);
    }
}

/// The line index an entry carries on the old side (`old_side`) or the new.
pub open spec fn side_line(e: EntryView, old_side: bool) -> Option<usize> {
    if old_side {
        e.old_line
    } else {
        e.new_line
    }
}

/// Where an operation starts on one side.
pub open spec fn op_start(op: EditOp, old_side: bool) -> int {
    if old_side {
        op.old_start as int
    } else {
        op.new_start as int
    }
}

/// Where an operation ends on one side.
pub open spec fn op_end(op: EditOp, old_side: bool) -> int {
    if old_side {
        op.old_end as int
    } else {
        op.new_end as int
    }
}

/// Whether some entry carries line `i` on one side.
pub open spec fn carried(es: Seq<EntryView>, old_side: bool, i: int) -> bool {
    exists|j: int| 0 <= j < es.len() && side_line(#[trigger] es[j], old_side) == Some(i as usize)
}

/// On one side, the entries' line indices lie in `lo..hi`, every index of
/// `lo..hi` is carried by some entry, and the indices never decrease along
/// the entries.
pub open spec fn lines_span(es: Seq<EntryView>, old_side: bool, lo: int, hi: int) -> bool {
    &&& forall|j: int| 0 <= j < es.len() ==> (side_line(#[trigger] es[j], old_side) matches Some(i) ==> lo <= i < hi)
    &&& forall|i: int| lo <= i < hi ==> #[trigger] carried(es, old_side, i)
    &&& forall|j1: int, j2: int|
        #![trigger es[j1], es[j2]]
        0 <= j1 < j2 < es.len() && side_line(es[j1], old_side) is Some && side_line(es[j2], old_side) is Some
            ==> side_line(es[j1], old_side)->0 <= side_line(es[j2], old_side)->0
}

proof fn lemma_concat_span(a: Seq<EntryView>, b: Seq<EntryView>, old_side: bool, lo: int, mid: int, hi: int)
    requires
        lo <= mid <= hi,
        lines_span(a, old_side, lo, mid),
        lines_span(b, old_side, mid, hi),
    ensures
        lines_span(a + b, old_side, lo, hi),
{
    let c = a + b;
    assert forall|j: int| 0 <= j < c.len() implies (side_line(#[trigger] c[j], old_side) matches Some(i) ==> lo <= i < hi) by {
        if j < a.len() {
            assert(c[j] == a[j]);
        } else {
            assert(c[j] == b[j - a.len()]);
        }
    }
    assert forall|i: int| lo <= i < hi implies carried(c, old_side, i) by {
        if i < mid {
            assert(carried(a, old_side, i));
            let j = choose|j: int| 0 <= j < a.len() && side_line(#[trigger] a[j], old_side) == Some(i as usize);
            assert(c[j] == a[j]);
        } else {
            assert(carried(b, old_side, i));
            let j = choose|j: int| 0 <= j < b.len() && side_line(#[trigger] b[j], old_side) == Some(i as usize);
            assert(c[j + a.len()] == b[j]);
        }
    }
    assert forall|j1: int, j2: int|
        #![trigger c[j1], c[j2]]
        0 <= j1 < j2 < c.len() && side_line(c[j1], old_side) is Some && side_line(c[j2], old_side) is Some
            implies side_line(c[j1], old_side)->0 <= side_line(c[j2], old_side)->0 by {
        if j2 < a.len() {
            assert(c[j1] == a[j1] && c[j2] == a[j2]);
        } else if j1 >= a.len() {
            assert(c[j1] == b[j1 - a.len()] && c[j2] == b[j2 - a.len()]);
        } else {
            assert(c[j1] == a[j1] && c[j2] == b[j2 - a.len()]);
        }
    }
}

proof fn lemma_op_span(old: Seq<(Seq<char>, Rect)>, new: Seq<(Seq<char>, Rect)>, op: EditOp, old_side: bool)
    requires
        op_well_formed(op, old.len(), new.len()),
    ensures
        lines_span(op_entries(old, new, op), old_side, op_start(op, old_side), op_end(op, old_side)),
{
    let es = op_entries(old, new, op);
    let lo = op_start(op, old_side);
    let hi = op_end(op, old_side);
    match op.tag {
        EditTag::Replace => {
            let ol = (op.old_end - op.old_start) as usize;
            let nl = (op.new_end - op.new_start) as usize;
            let (st, len) = if old_side { (op.old_start, ol) } else { (op.new_start, nl) };
            assert forall|k: int| 0 <= k < es.len() implies side_line(#[trigger] es[k], old_side) == Some(
                replace_index(st, len, k) as usize,
            ) by {}
            assert forall|i: int| lo <= i < hi implies carried(es, old_side, i) by {
                let k = i - lo;
                assert(side_line(es[k], old_side) == Some(replace_index(st, len, k) as usize));
            }
        },
        EditTag::Equal => {
            assert forall|i: int| lo <= i < hi implies carried(es, old_side, i) by {
                let k = i - lo;
                assert(side_line(es[k], old_side) == Some(i as usize));
            }
        },
        EditTag::Delete => {
            if old_side {
                assert forall|i: int| lo <= i < hi implies carried(es, old_side, i) by {
                    let k = i - lo;
                    assert(side_line(es[k], old_side) == Some(i as usize));
                }
            }
        },
        EditTag::Insert => {
            if !old_side {
                assert forall|i: int| lo <= i < hi implies carried(es, old_side, i) by {
                    let k = i - lo;
                    assert(side_line(es[k], old_side) == Some(i as usize));
                }
            }
        },
    }
}

proof fn lemma_script_span(old: Seq<(Seq<char>, Rect)>, new: Seq<(Seq<char>, Rect)>, ops: Seq<EditOp>, old_side: bool)
    requires
        ops.len() > 0,
        ops_well_formed(ops, old.len(), new.len()),
        op_start(ops[0], old_side) == 0,
        forall|k: int| 0 <= k < ops.len() - 1 ==> #[trigger] meets_next(ops, k),
    ensures
        lines_span(script_entries(old, new, ops), old_side, 0, op_end(ops.last(), old_side)),
    decreases ops.len(),
{
    let last = ops.last();
    assert(op_well_formed(ops[ops.len() - 1], old.len(), new.len()));
    lemma_op_span(old, new, last, old_side);
    if ops.len() == 1 {
        assert(script_entries(old, new, ops.drop_last()) =~= Seq::<EntryView>::empty());
        assert(script_entries(old, new, ops) =~= Seq::<EntryView>::empty() + op_entries(old, new, last));
        lemma_concat_span(Seq::<EntryView>::empty(), op_entries(old, new, last), old_side, 0, 0, op_end(last, old_side));
    } else {
        let pre = ops.drop_last();
        assert(ops_well_formed(pre, old.len(), new.len())) by {
            assert forall|k: int| 0 <= k < pre.len() implies op_well_formed(#[trigger] pre[k], old.len(), new.len()) by {
                assert(pre[k] == ops[k]);
            }
        }
        assert forall|k: int| 0 <= k < pre.len() - 1 implies #[trigger] meets_next(pre, k) by {
            assert(meets_next(ops, k));
            assert(pre[k] == ops[k] && pre[k + 1] == ops[k + 1]);
        }
        assert(pre[0] == ops[0]);
        lemma_script_span(old, new, pre, old_side);
        assert(meets_next(ops, ops.len() - 2));
        assert(pre.last() == ops[ops.len() - 2]);
        lemma_concat_span(
            script_entries(old, new, pre),
            op_entries(old, new, last),
            old_side,
            0,
            op_end(pre.last(), old_side),
            op_end(last, old_side),
        );
    }
}

/// A line diff accounts for every line of both pages, in order: the old
/// line indices of its entries are exactly `0..old.len()`, the new ones
/// exactly `0..new.len()`, and along the entries neither ever decreases.
pub proof fn law_script_covers_lines(old: Seq<(Seq<char>, Rect)>, new: Seq<(Seq<char>, Rect)>, ops: Seq<EditOp>)
    requires
        ops_well_formed(ops, old.len(), new.len()),
        ops_tile(ops, old.len(), new.len()),
    ensures
        lines_span(script_entries(old, new, ops), true, 0, old.len() as int),
        lines_span(script_entries(old, new, ops), false, 0, new.len() as int),
{
    if ops.len() == 0 {
        assert(script_entries(old, new, ops) =~= Seq::<EntryView>::empty());
    } else {
        lemma_script_span(old, new, ops, true);
        lemma_script_span(old, new, ops, false);
    }
}

/// Compute line-level differences between the text of two pages.
///
/// Lines are compared on their trimmed text so that leading or trailing
/// white space left by extraction causes no difference.
pub fn diff_text_lines(old_lines: &[TextLine], new_lines: &[TextLine]) -> (entries: Vec<DiffEntry>)
    ensures
        entries_view(entries@) == script_entries(
            lines_view(old_lines@),
            lines_view(new_lines@),
            myers_line_ops(trimmed_texts(lines_view(old_lines@)), trimmed_texts(lines_view(new_lines@))),
        ),
        forall|j: int| 0 <= j < entries@.len() ==> unchanged_lines_equal(#[trigger] entries@[j]@),
        trimmed_texts(lines_view(old_lines@)) == trimmed_texts(lines_view(new_lines@)) ==> forall|j: int|
            0 <= j < entries@.len() ==> (#[trigger] entries@[j]).kind == DiffKind::Unchanged,
        lines_span(entries_view(entries@), true, 0, old_lines@.len() as int),
        lines_span(entries_view(entries@), false, 0, new_lines@.len() as int),
{
    let old_t = trimmed(old_lines);
    let new_t = trimmed(new_lines);
    let ops = similar_line_ops(&old_t, &new_t);
    let entries = entries_from_ops(old_lines, new_lines, &ops);
    let ghost ov = lines_view(old_lines@);
    let ghost nv = lines_view(new_lines@);
    proof {
        law_script_covers_lines(ov, nv, ops@);
        lemma_unchanged_equal(ov, nv, ops@);
        if trimmed_texts(ov) == trimmed_texts(nv) {
            lemma_all_equal_unchanged(ov, nv, ops@);
        }
        assert forall|j: int| 0 <= j < entries@.len() implies unchanged_lines_equal(#[trigger] entries@[j]@) by {
            assert(entries_view(entries@)[j] == entries@[j]@);
        }
        assert forall|j: int| 0 <= j < entries@.len() && trimmed_texts(ov) == trimmed_texts(nv)
            implies (#[trigger] entries@[j]).kind == DiffKind::Unchanged by {
            assert(entries_view(entries@)[j] == entries@[j]@);
        }
    }
    entries
}

/// The trimmed texts of the lines.
fn trimmed(lines: &[TextLine]) -> (t: Vec<String>)
    ensures
        strings_view(t@) == trimmed_texts(lines_view(lines@)),
        t@.len() == lines@.len(),
{
    let mut t: Vec<String> = Vec::new();
    let n = lines.len();
    for i in 0..n
        invariant
            n == lines@.len(),
            strings_view(t@) == trimmed_texts(lines_view(lines@)).take(i as int),
            t@.len() == i,
    {
        let s = crate::strings::trim(lines[i].text.as_str());
        let ghost before = t@;
        t.push(s);
        assert(strings_view(t@) =~= strings_view(before).push(s@));
        assert(trimmed_texts(lines_view(lines@)).take(i + 1) =~= trimmed_texts(lines_view(lines@)).take(i as int).push(s@));
    }
    assert(trimmed_texts(lines_view(lines@)).take(n as int) =~= trimmed_texts(lines_view(lines@)));
    t
}

/// The status of a compared page: a match when no entry is a change.
pub open spec fn page_status_of(es: Seq<EntryView>) -> PageStatus {
    if count_changes(es) == 0 {
        PageStatus::Match
    } else {
        PageStatus::Modified
    }
}

/// Whether no entry is a change.
pub fn no_changes(entries: &Vec<DiffEntry>) -> (b: bool)
    ensures
        b == (count_changes(entries_view(entries@)) == 0),
{
    let n = entries.len();
    let ghost es = entries_view(entries@);
    for i in 0..n
        invariant
            n == entries@.len(),
            es == entries_view(entries@),
            count_changes(es.take(i as int)) == 0,
    {
        assert(es.take(i + 1).drop_last() == es.take(i as int));
        if entries[i].is_change() {
            proof { lemma_changes_prefix_le(es, i + 1); }
            return false;
        }
    }
    assert(es.take(n as int) == es);
    true
}

proof fn lemma_changes_prefix_le(es: Seq<EntryView>, k: int)
    requires
        0 <= k <= es.len(),
    ensures
        count_changes(es.take(k)) <= count_changes(es),
    decreases es.len() - k,
{
    if k < es.len() {
        lemma_changes_prefix_le(es, k + 1);
        assert(es.take(k + 1).drop_last() == es.take(k));
    } else {
        assert(es.take(k) == es);
    }
}

/// Compare the text lines of two pages and classify the page.
pub fn compare_text_page(old_lines: &[TextLine], new_lines: &[TextLine], page_index: usize) -> (p: PageDiff)
    ensures
        p.page_index == page_index,
        p@.entries == script_entries(
            lines_view(old_lines@),
            lines_view(new_lines@),
            myers_line_ops(trimmed_texts(lines_view(old_lines@)), trimmed_texts(lines_view(new_lines@))),
        ),
        p.status == page_status_of(p@.entries),
        trimmed_texts(lines_view(old_lines@)) == trimmed_texts(lines_view(new_lines@)) ==> p.status
            == PageStatus::Match,
        lines_span(p@.entries, true, 0, old_lines@.len() as int),
        lines_span(p@.entries, false, 0, new_lines@.len() as int),
        crate::loader::status_follows_entries(p@),
{
    let entries = diff_text_lines(old_lines, new_lines);
    let status = if no_changes(&entries) { PageStatus::Match } else { PageStatus::Modified };
    proof {
        if trimmed_texts(lines_view(old_lines@)) == trimmed_texts(lines_view(new_lines@)) {
            lemma_no_change_kinds(entries_view(entries@));
        }
    }
    PageDiff { page_index, status, entries }
}

proof fn lemma_no_change_kinds(es: Seq<EntryView>)
    requires
        forall|j: int| 0 <= j < es.len() ==> (#[trigger] es[j]).kind == DiffKind::Unchanged,
    ensures
        count_changes(es) == 0,
    decreases es.len(),
{
    if es.len() > 0 {
        lemma_no_change_kinds(es.drop_last());
    }
}

} // verus!
