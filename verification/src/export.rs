//! Report text for the exporters: HTML page, CSV table, spreadsheet rows.
//!
//! Files are written by the caller; this module decides their content.
//! Coordinates are rendered by the caller too, since they are floating-point
//! values.

use vstd::prelude::*;
use crate::report::{
    count_changes, count_kind, entries_view, is_change_kind, kind_name, mode_name, pages_view,
    status_name, total_changes_of, DiffEntry, DiffKind, DiffReport, EntryView, PageDiff,
    PageStatus, PageView,
};
use crate::strings::{decimal, push_char, push_str};

verus! {

// ---- HTML escaping ---------------------------------------------------------------

/// The escaped form of one character.
pub open spec fn html_escape_char(c: char) -> Seq<char> {
    if c == '&' {
        "&amp;"@
    } else if c == '<' {
        "&lt;"@
    } else if c == '>' {
        "&gt;"@
    } else if c == '"' {
        "&quot;"@
    } else {
        seq![c]
    }
}

/// `s` with `&`, `<`, `>` and `"` replaced by their HTML entities.
pub open spec fn html_escape_spec(s: Seq<char>) -> Seq<char>
    decreases s.len(),
{
    if s.len() == 0 {
        Seq::empty()
    } else {
        html_escape_spec(s.drop_last()) + html_escape_char(s.last())
    }
}

/// Append the HTML-escaped form of `t`.
fn push_escaped(s: &mut String, t: &str)
    ensures
        final(s)@ == old(s)@ + html_escape_spec(t@),
{
    let v = crate::strings::chars_of(t);
    let ghost start = s@;
    let n = v.len();
    for i in 0..n
        invariant
            n == v@.len(),
            v@ == t@,
            s@ == start + html_escape_spec(v@.take(i as int)),
    {
        let c = v[i];
        assert(v@.take(i + 1).drop_last() == v@.take(i as int));
        if c == '&' {
            push_str(s, "&amp;");
        } else if c == '<' {
            push_str(s, "&lt;");
        } else if c == '>' {
            push_str(s, "&gt;");
        } else if c == '"' {
            push_str(s, "&quot;");
        } else {
            push_char(s, c);
        }
    }
    assert(v@.take(n as int) == v@);
}

/// Escape `s` for inclusion in HTML text.
pub fn html_escape(s: &str) -> (r: String)
    ensures
        r@ == html_escape_spec(s@),
{
    let mut r = String::new();
    push_escaped(&mut r, s);
    r
}

/// Escaped text holds no `<`, `>` or `"`, so it cannot open or close markup
/// or leave an attribute value.
pub proof fn law_escaped_text_has_no_markup(s: Seq<char>)
    ensures
        forall|i: int| 0 <= i < html_escape_spec(s).len() ==> {
            let c = #[trigger] html_escape_spec(s)[i];
            c != '<' && c != '>' && c != '"'
        },
    decreases s.len(),
{
    reveal_strlit("&amp;");
    reveal_strlit("&lt;");
    reveal_strlit("&gt;");
    reveal_strlit("&quot;");
    if s.len() > 0 {
        law_escaped_text_has_no_markup(s.drop_last());
        let a = html_escape_spec(s.drop_last());
        let b = html_escape_char(s.last());
        assert forall|i: int| 0 <= i < (a + b).len() implies {
            let c = #[trigger] (a + b)[i];
            c != '<' && c != '>' && c != '"'
        } by {
            if i >= a.len() {
                assert((a + b)[i] == b[i - a.len()]);
            } else {
                assert((a + b)[i] == a[i]);
            }
        }
    }
}

// ---- HTML report ------------------------------------------------------------------

/// Everything of the HTML page before the comparison mode.
pub const HTML_HEAD: &'static str = "<!doctype html>\n<html lang=\"ja\">\n<head>\n<meta charset=\"utf-8\">\n<title>PDF Diff Report</title>\n<style>\n  body { font-family: -apple-system, \"Segoe UI\", sans-serif; margin: 2rem; color: #222; }\n  h1 { font-size: 1.4rem; }\n  table { border-collapse: collapse; width: 100%; font-size: 0.85rem; }\n  td { border-bottom: 1px solid #eee; padding: 2px 6px; }\n  td.line { color: #999; width: 2.5em; text-align: right; user-select: none; }\n  .grid { display: flex; gap: 1rem; }\n  .col { flex: 1; min-width: 0; }\n  .status { font-size: 0.7rem; border-radius: 4px; padding: 1px 6px; vertical-align: middle; }\n  .status.added { background: #c6efce; color: #1d5b2a; }\n  .status.removed { background: #ffc7ce; color: #8a1a1a; }\n  .status.modified { background: #ffeb9c; color: #6b5200; }\n  tr.added td { background: #eaffef; }\n  tr.removed td { background: #ffe9ec; }\n  tr.modified td { background: #fff7dc; }\n  section { margin-bottom: 2rem; }\n</style>\n</head>\n<body>\n<h1>PDF Diff Report</h1>\n<p>Mode: <strong>";

/// The 1-based line number of an optional 0-based index, or nothing.
pub open spec fn line_text(l: Option<usize>) -> Seq<char> {
    match l {
        Some(i) => decimal((i + 1) as nat),
        None => Seq::empty(),
    }
}

/// The text of an optional string, or nothing.
pub open spec fn text_or_empty(t: Option<Seq<char>>) -> Seq<char> {
    match t {
        Some(s) => s,
        None => Seq::empty(),
    }
}

/// One table row of a change, old side (`old == true`) or new side.
pub open spec fn html_row(e: EntryView, old: bool) -> Seq<char> {
    if e.kind == DiffKind::Unchanged {
        Seq::empty()
    } else {
        "<tr class=\""@ + kind_name(e.kind) + "\"><td class=\"line\">"@
            + line_text(if old { e.old_line } else { e.new_line }) + "</td><td>"@
            + html_escape_spec(text_or_empty(if old { e.old_text } else { e.new_text })) + "</td></tr>"@
    }
}

/// Whether `t` occurs in `s` starting at index `k`.
pub open spec fn occurs_in_at(s: Seq<char>, t: Seq<char>, k: int) -> bool {
    0 <= k && k + t.len() <= s.len() && s.subrange(k, k + t.len()) == t
}

/// The row of a change entry in the Old column shows the entry's old text,
/// and its row in the New column its new text, escaped (an absent text
/// shows as nothing).
pub proof fn law_rows_show_their_side(e: EntryView)
    requires
        is_change_kind(e.kind),
    ensures
        exists|k: int| occurs_in_at(html_row(e, true), html_escape_spec(text_or_empty(e.old_text)), k),
        exists|k: int| occurs_in_at(html_row(e, false), html_escape_spec(text_or_empty(e.new_text)), k),
        exists|k: int| occurs_in_at(html_row(e, true), line_text(e.old_line), k),
        exists|k: int| occurs_in_at(html_row(e, false), line_text(e.new_line), k),
{
    let head = |l: Option<usize>|
        "<tr class=\""@ + kind_name(e.kind) + "\"><td class=\"line\">"@ + line_text(l) + "</td><td>"@;
    let t_old = html_escape_spec(text_or_empty(e.old_text));
    let t_new = html_escape_spec(text_or_empty(e.new_text));
    assert(html_row(e, true) == head(e.old_line) + t_old + "</td></tr>"@);
    assert(html_row(e, false) == head(e.new_line) + t_new + "</td></tr>"@);
    let ko = head(e.old_line).len() as int;
    let kn = head(e.new_line).len() as int;
    assert((head(e.old_line) + t_old + "</td></tr>"@).subrange(ko, ko + t_old.len()) =~= t_old);
    assert((head(e.new_line) + t_new + "</td></tr>"@).subrange(kn, kn + t_new.len()) =~= t_new);
    assert(occurs_in_at(html_row(e, true), t_old, ko));
    assert(occurs_in_at(html_row(e, false), t_new, kn));
    let pre = "<tr class=\""@ + kind_name(e.kind) + "\"><td class=\"line\">"@;
    assert(head(e.old_line) == pre + line_text(e.old_line) + "</td><td>"@);
    assert(head(e.new_line) == pre + line_text(e.new_line) + "</td><td>"@);
    assert(html_row(e, true).subrange(pre.len() as int, (pre.len() + line_text(e.old_line).len()) as int) =~= line_text(e.old_line));
    assert(html_row(e, false).subrange(pre.len() as int, (pre.len() + line_text(e.new_line).len()) as int) =~= line_text(e.new_line));
    assert(occurs_in_at(html_row(e, true), line_text(e.old_line), pre.len() as int));
    assert(occurs_in_at(html_row(e, false), line_text(e.new_line), pre.len() as int));
}

proof fn lemma_occurs_trans(s: Seq<char>, t: Seq<char>, u: Seq<char>, k1: int, k2: int)
    requires
        occurs_in_at(s, t, k1),
        occurs_in_at(t, u, k2),
    ensures
        occurs_in_at(s, u, k1 + k2),
{
    assert(s.subrange(k1 + k2, k1 + k2 + u.len()) =~= t.subrange(k2, k2 + u.len()));
}

proof fn lemma_html_rows_concat(a: Seq<EntryView>, b: Seq<EntryView>, old: bool)
    ensures
        html_rows(a + b, old) == html_rows(a, old) + html_rows(b, old),
    decreases b.len(),
{
    if b.len() == 0 {
        assert(a + b =~= a);
        assert(html_rows(b, old) =~= Seq::<char>::empty());
    } else {
        lemma_html_rows_concat(a, b.drop_last(), old);
        assert((a + b).drop_last() =~= a + b.drop_last());
        assert((a + b).last() == b.last());
    }
}

proof fn lemma_row_in_rows(es: Seq<EntryView>, j: int, old: bool)
    requires
        0 <= j < es.len(),
    ensures
        occurs_in_at(html_rows(es, old), html_row(es[j], old), html_rows(es.take(j), old).len() as int),
{
    let a = es.take(j);
    let b = es.skip(j);
    assert(es =~= a + b);
    lemma_html_rows_concat(a, b, old);
    let one = seq![es[j]];
    let rest = es.skip(j + 1);
    assert(b =~= one + rest);
    lemma_html_rows_concat(one, rest, old);
    assert(one.drop_last() =~= Seq::<EntryView>::empty());
    assert(html_rows(one.drop_last(), old) =~= Seq::<char>::empty());
    assert(one.last() == es[j]);
    assert(html_rows(one, old) =~= html_row(es[j], old));
    let whole = html_rows(a, old) + (html_row(es[j], old) + html_rows(rest, old));
    assert(html_rows(es, old) == whole);
    let k = html_rows(a, old).len() as int;
    assert(whole.subrange(k, k + html_row(es[j], old).len()) =~= html_row(es[j], old));
}

/// In the section of a shown page, the Old column lists the old-side rows
/// of its entries and the New column the new-side rows, and the old-side
/// rows hold every change's old text while the new-side rows hold every
/// change's new text.
pub proof fn law_section_columns(p: PageView)
    requires
        count_changes(p.entries) > 0 || p.status == PageStatus::Modified,
    ensures
        exists|k: int| occurs_in_at(html_section(p), "<h3>Old</h3><table>"@ + html_rows(p.entries, true), k),
        exists|k: int| occurs_in_at(html_section(p), "<h3>New</h3><table>"@ + html_rows(p.entries, false), k),
        forall|j: int|
            0 <= j < p.entries.len() && is_change_kind(#[trigger] p.entries[j].kind) ==> {
                &&& exists|k: int| occurs_in_at(html_rows(p.entries, true), html_escape_spec(text_or_empty(p.entries[j].old_text)), k)
                &&& exists|k: int| occurs_in_at(html_rows(p.entries, false), html_escape_spec(text_or_empty(p.entries[j].new_text)), k)
            },
{
    reveal_strlit("</span></h2><div class=\"grid\"><div class=\"col\"><h3>Old</h3><table>");
    reveal_strlit("</table></div><div class=\"col\"><h3>New</h3><table>");
    reveal_strlit("<h3>Old</h3><table>");
    reveal_strlit("<h3>New</h3><table>");
    let es = p.entries;
    let a = "<section><h2>Page "@ + decimal((p.page_index + 1) as nat) + " <span class=\"status "@
        + status_name(p.status) + "\">"@ + status_name(p.status);
    let l1 = "</span></h2><div class=\"grid\"><div class=\"col\"><h3>Old</h3><table>"@;
    let l2 = "</table></div><div class=\"col\"><h3>New</h3><table>"@;
    let ho = "<h3>Old</h3><table>"@;
    let hn = "<h3>New</h3><table>"@;
    let ro = html_rows(es, true);
    let rn = html_rows(es, false);
    let sec = html_section(p);
    assert(sec == a + l1 + ro + l2 + rn + "</table></div></div></section>"@);
    assert(l1 =~= l1.subrange(0, l1.len() - ho.len()) + ho);
    assert(l2 =~= l2.subrange(0, l2.len() - hn.len()) + hn);
    let k1 = a.len() + l1.len() - ho.len();
    assert(sec.subrange(k1, k1 + (ho + ro).len()) =~= ho + ro);
    assert(occurs_in_at(sec, ho + ro, k1));
    let k2 = a.len() + l1.len() + ro.len() + l2.len() - hn.len();
    assert(sec.subrange(k2, k2 + (hn + rn).len()) =~= hn + rn);
    assert(occurs_in_at(sec, hn + rn, k2));
    assert forall|j: int| 0 <= j < es.len() && is_change_kind(#[trigger] es[j].kind) implies {
        &&& exists|k: int| occurs_in_at(ro, html_escape_spec(text_or_empty(es[j].old_text)), k)
        &&& exists|k: int| occurs_in_at(rn, html_escape_spec(text_or_empty(es[j].new_text)), k)
    } by {
        law_rows_show_their_side(es[j]);
        lemma_row_in_rows(es, j, true);
        lemma_row_in_rows(es, j, false);
        let to = html_escape_spec(text_or_empty(es[j].old_text));
        let tn = html_escape_spec(text_or_empty(es[j].new_text));
        let qo = choose|k: int| occurs_in_at(html_row(es[j], true), to, k);
        let qn = choose|k: int| occurs_in_at(html_row(es[j], false), tn, k);
        lemma_occurs_trans(ro, html_row(es[j], true), to, html_rows(es.take(j), true).len() as int, qo);
        lemma_occurs_trans(rn, html_row(es[j], false), tn, html_rows(es.take(j), false).len() as int, qn);
    }
}

pub open spec fn html_rows(es: Seq<EntryView>, old: bool) -> Seq<char>
    decreases es.len(),
{
    if es.len() == 0 {
        Seq::empty()
    } else {
        html_rows(es.drop_last(), old) + html_row(es.last(), old)
    }
}

/// The section of one page: shown when the page has a change or is marked
/// modified, with the old and the new side of every change.
pub open spec fn html_section(p: PageView) -> Seq<char> {
    if count_changes(p.entries) == 0 && p.status != PageStatus::Modified {
        Seq::empty()
    } else {
        "<section><h2>Page "@ + decimal((p.page_index + 1) as nat) + " <span class=\"status "@
            + status_name(p.status) + "\">"@ + status_name(p.status)
            + "</span></h2><div class=\"grid\"><div class=\"col\"><h3>Old</h3><table>"@
            + html_rows(p.entries, true) + "</table></div><div class=\"col\"><h3>New</h3><table>"@
            + html_rows(p.entries, false) + "</table></div></div></section>"@
    }
}

pub open spec fn html_sections(ps: Seq<PageView>) -> Seq<char>
    decreases ps.len(),
{
    if ps.len() == 0 {
        Seq::empty()
    } else {
        html_sections(ps.drop_last()) + html_section(ps.last())
    }
}

/// The complete HTML report.
pub open spec fn html_report(r: DiffReport) -> Seq<char> {
    let ps = pages_view(r.pages@);
    HTML_HEAD@ + mode_name(r.mode) + "</strong> — generated "@ + r.generated_at@ + "</p>\n<p>Old: "@
        + html_escape_spec(r.old.path@) + " ("@ + decimal(r.old.page_count as nat)
        + " pages) &nbsp;|&nbsp; New: "@ + html_escape_spec(r.new.path@) + " ("@
        + decimal(r.new.page_count as nat) + " pages)</p>\n<p>Total changes: <strong>"@
        + decimal(total_changes_of(ps)) + "</strong> (added "@ + decimal(r.stats.added_entries as nat)
        + ", removed "@ + decimal(r.stats.removed_entries as nat) + ", modified "@
        + decimal(r.stats.modified_entries as nat) + ")</p>\n"@ + html_sections(ps) + "\n</body>\n</html>"@
}

fn push_line(s: &mut String, l: Option<usize>)
    requires
        l matches Some(i) ==> i < usize::MAX,
    ensures
        final(s)@ == old(s)@ + line_text(l),
{
    match l {
        Some(i) => crate::strings::push_decimal(s, (i + 1) as u64),
        None => {},
    }
}

fn push_opt_escaped(s: &mut String, t: &Option<String>)
    ensures
        final(s)@ == old(s)@ + html_escape_spec(text_or_empty(crate::report::opt_text(*t))),
{
    match t {
        Some(x) => push_escaped(s, x.as_str()),
        None => { assert(html_escape_spec(Seq::<char>::empty()) =~= Seq::<char>::empty()); },
    }
}

/// Line indices can be shown 1-based without overflow.
pub open spec fn lines_in_range(e: EntryView) -> bool {
    &&& e.old_line matches Some(l) ==> l < usize::MAX
    &&& e.new_line matches Some(l) ==> l < usize::MAX
}

fn push_row(s: &mut String, e: &DiffEntry, old_side: bool)
    requires
        lines_in_range(e@),
    ensures
        final(s)@ == old(s)@ + html_row(e@, old_side),
{
    if e.kind != DiffKind::Unchanged {
        let ghost start = s@;
        push_str(s, "<tr class=\"");
        push_str(s, e.kind.as_str());
        push_str(s, "\"><td class=\"line\">");
        push_line(s, if old_side { e.old_line } else { e.new_line });
        push_str(s, "</td><td>");
        push_opt_escaped(s, if old_side { &e.old_text } else { &e.new_text });
        push_str(s, "</td></tr>");
        assert(s@ =~= start + html_row(e@, old_side));
    } else {
        assert(html_row(e@, old_side) =~= Seq::<char>::empty());
        assert(s@ =~= old(s)@ + html_row(e@, old_side));
    }
}

fn push_rows(s: &mut String, entries: &Vec<DiffEntry>, old_side: bool)
    requires
        forall|i: int| 0 <= i < entries@.len() ==> lines_in_range(#[trigger] entries@[i]@),
    ensures
        final(s)@ == old(s)@ + html_rows(entries_view(entries@), old_side),
{
    let ghost start = s@;
    let ghost es = entries_view(entries@);
    let n = entries.len();
    for i in 0..n
        invariant
            n == entries@.len(),
            es == entries_view(entries@),
            forall|i: int| 0 <= i < entries@.len() ==> lines_in_range(#[trigger] entries@[i]@),
            s@ == start + html_rows(es.take(i as int), old_side),
    {
        assert(es.take(i + 1).drop_last() == es.take(i as int));
        let e = &entries[i];
        assert(es[i as int] == e@);
        assert(lines_in_range(entries@[i as int]@));
        push_row(s, e, old_side);
        assert(s@ =~= start + html_rows(es.take(i + 1), old_side));
    }
    assert(es.take(n as int) == es);
}

/// Page numbers and line numbers can be shown 1-based without overflow, and
/// the change total fits a machine word.
pub open spec fn page_printable(p: PageDiff) -> bool {
    &&& p.page_index < usize::MAX
    &&& forall|i: int| 0 <= i < p.entries@.len() ==> lines_in_range(#[trigger] p.entries@[i]@)
}

pub open spec fn report_printable(r: DiffReport) -> bool {
    &&& forall|i: int| 0 <= i < r.pages@.len() ==> page_printable(#[trigger] r.pages@[i])
    &&& total_changes_of(pages_view(r.pages@)) <= usize::MAX
}

fn push_section(s: &mut String, p: &PageDiff)
    requires
        page_printable(*p),
    ensures
        final(s)@ == old(s)@ + html_section(p@),
{
    let ghost start = s@;
    if p.change_count() == 0 && p.status != PageStatus::Modified {
        return;
    }
    push_str(s, "<section><h2>Page ");
    crate::strings::push_decimal(s, (p.page_index + 1) as u64);
    push_str(s, " <span class=\"status ");
    push_str(s, p.status.as_str());
    push_str(s, "\">");
    push_str(s, p.status.as_str());
    push_str(s, "</span></h2><div class=\"grid\"><div class=\"col\"><h3>Old</h3><table>");
    push_rows(s, &p.entries, true);
    push_str(s, "</table></div><div class=\"col\"><h3>New</h3><table>");
    push_rows(s, &p.entries, false);
    push_str(s, "</table></div></div></section>");
    assert(s@ =~= start + html_section(p@));
}

/// Render the report as a self-contained side-by-side HTML page.
pub fn build_html(report: &DiffReport) -> (html: String)
    requires
        report_printable(*report),
    ensures
        html@ == html_report(*report),
{
    let mut sections = String::new();
    let ghost ps = pages_view(report.pages@);
    let n = report.pages.len();
    for i in 0..n
        invariant
            n == report.pages@.len(),
            ps == pages_view(report.pages@),
            report_printable(*report),
            sections@ == html_sections(ps.take(i as int)),
    {
        assert(ps.take(i + 1).drop_last() == ps.take(i as int));
        assert(page_printable(report.pages@[i as int]));
        push_section(&mut sections, &report.pages[i]);
    }
    assert(ps.take(n as int) == ps);
    let total = report.total_changes();
    let mut h = String::new();
    push_str(&mut h, HTML_HEAD);
    push_str(&mut h, report.mode.as_str());
    push_str(&mut h, "</strong> — generated ");
    push_str(&mut h, report.generated_at.as_str());
    push_str(&mut h, "</p>\n<p>Old: ");
    push_escaped(&mut h, report.old.path.as_str());
    push_str(&mut h, " (");
    crate::strings::push_decimal(&mut h, report.old.page_count as u64);
    push_str(&mut h, " pages) &nbsp;|&nbsp; New: ");
    push_escaped(&mut h, report.new.path.as_str());
    push_str(&mut h, " (");
    crate::strings::push_decimal(&mut h, report.new.page_count as u64);
    push_str(&mut h, " pages)</p>\n<p>Total changes: <strong>");
    crate::strings::push_decimal(&mut h, total as u64);
    push_str(&mut h, "</strong> (added ");
    crate::strings::push_decimal(&mut h, report.stats.added_entries as u64);
    push_str(&mut h, ", removed ");
    crate::strings::push_decimal(&mut h, report.stats.removed_entries as u64);
    push_str(&mut h, ", modified ");
    crate::strings::push_decimal(&mut h, report.stats.modified_entries as u64);
    push_str(&mut h, ")</p>\n");
    push_str(&mut h, sections.as_str());
    push_str(&mut h, "\n</body>\n</html>");
    assert(h@ =~= html_report(*report));
    h
}

// ---- change list (CSV and spreadsheet) -------------------------------------------

/// The positions `(page, entry)` of the change entries, page after page.
pub open spec fn change_positions(ps: Seq<PageView>) -> Seq<(int, int)>
    decreases ps.len(),
{
    if ps.len() == 0 {
        Seq::empty()
    } else {
        change_positions(ps.drop_last()) + entry_change_positions(ps.len() - 1, ps.last().entries)
    }
}

pub open spec fn entry_change_positions(p: int, es: Seq<EntryView>) -> Seq<(int, int)>
    decreases es.len(),
{
    if es.len() == 0 {
        Seq::empty()
    } else {
        entry_change_positions(p, es.drop_last()) + if is_change_kind(es.last().kind) {
            seq![(p, es.len() - 1)]
        } else {
            Seq::empty()
        }
    }
}

proof fn lemma_entry_positions_count(p: int, es: Seq<EntryView>)
    ensures
        entry_change_positions(p, es).len() == count_changes(es),
    decreases es.len(),
{
    if es.len() > 0 {
        lemma_entry_positions_count(p, es.drop_last());
    }
}

/// The change list (CSV and spreadsheet) has exactly one row per change of
/// the report.
pub proof fn law_one_row_per_change(ps: Seq<PageView>)
    ensures
        change_positions(ps).len() == total_changes_of(ps),
    decreases ps.len(),
{
    if ps.len() > 0 {
        law_one_row_per_change(ps.drop_last());
        lemma_entry_positions_count(ps.len() - 1, ps.last().entries);
    }
}

/// The positions `(page, entry)` of every change entry of the report, in
/// report order: the rows of the change list.
pub fn changed_entries(report: &DiffReport) -> (out: Vec<(usize, usize)>)
    ensures
        out@.len() == change_positions(pages_view(report.pages@)).len(),
        forall|k: int| 0 <= k < out@.len() ==> (#[trigger] out@[k]).0 as int == change_positions(pages_view(report.pages@))[k].0
            && out@[k].1 as int == change_positions(pages_view(report.pages@))[k].1,
{
    let mut out: Vec<(usize, usize)> = Vec::new();
    let ghost ps = pages_view(report.pages@);
    let n = report.pages.len();
    for i in 0..n
        invariant
            n == report.pages@.len(),
            ps == pages_view(report.pages@),
            out@.map_values(|q: (usize, usize)| (q.0 as int, q.1 as int)) == change_positions(ps.take(i as int)),
    {
        assert(ps.take(i + 1).drop_last() == ps.take(i as int));
        let es = &report.pages[i].entries;
        let ghost ev = entries_view(es@);
        assert(ps[i as int].entries == ev);
        assert(ps.take(i + 1).len() - 1 == i);
        let m = es.len();
        let ghost base = change_positions(ps.take(i as int));
        for j in 0..m
            invariant
                m == es@.len(),
                ev == entries_view(es@),
                out@.map_values(|q: (usize, usize)| (q.0 as int, q.1 as int)) == base + entry_change_positions(i as int, ev.take(j as int)),
        {
            assert(ev.take(j + 1).drop_last() == ev.take(j as int));
            assert(ev[j as int] == es@[j as int]@);
            let ghost before = out@;
            if es[j].is_change() {
                out.push((i, j));
                assert(out@.map_values(|q: (usize, usize)| (q.0 as int, q.1 as int))
                    =~= before.map_values(|q: (usize, usize)| (q.0 as int, q.1 as int)).push((i as int, j as int)));
            }
            assert(out@.map_values(|q: (usize, usize)| (q.0 as int, q.1 as int)) =~= base + entry_change_positions(i as int, ev.take(j + 1)));
        }
        assert(ev.take(m as int) == ev);
    }
    assert(ps.take(n as int) == ps);
    assert forall|k: int| 0 <= k < out@.len() implies (#[trigger] out@[k]).0 as int == change_positions(ps)[k].0
        && out@[k].1 as int == change_positions(ps)[k].1 by {
        assert(out@.map_values(|q: (usize, usize)| (q.0 as int, q.1 as int))[k] == (out@[k].0 as int, out@[k].1 as int));
    }
    out
}

proof fn lemma_positions_valid(ps: Seq<PageView>)
    ensures
        forall|q: int| 0 <= q < change_positions(ps).len() ==> {
            let pos = #[trigger] change_positions(ps)[q];
            0 <= pos.0 < ps.len() && 0 <= pos.1 < ps[pos.0].entries.len()
        },
    decreases ps.len(),
{
    if ps.len() > 0 {
        lemma_positions_valid(ps.drop_last());
        let a = change_positions(ps.drop_last());
        let b = entry_change_positions(ps.len() - 1, ps.last().entries);
        lemma_entry_positions_valid(ps.len() - 1, ps.last().entries);
        assert forall|q: int| 0 <= q < (a + b).len() implies {
            let pos = #[trigger] (a + b)[q];
            0 <= pos.0 < ps.len() && 0 <= pos.1 < ps[pos.0].entries.len()
        } by {
            if q < a.len() {
                assert((a + b)[q] == a[q]);
                assert(ps.drop_last()[a[q].0] == ps[a[q].0]);
            } else {
                assert((a + b)[q] == b[q - a.len()]);
            }
        }
    }
}

proof fn lemma_entry_positions_valid(p: int, es: Seq<EntryView>)
    ensures
        forall|q: int| 0 <= q < entry_change_positions(p, es).len() ==> {
            let pos = #[trigger] entry_change_positions(p, es)[q];
            pos.0 == p && 0 <= pos.1 < es.len()
        },
    decreases es.len(),
{
    if es.len() > 0 {
        lemma_entry_positions_valid(p, es.drop_last());
        let a = entry_change_positions(p, es.drop_last());
        let b = if is_change_kind(es.last().kind) { seq![(p, es.len() - 1)] } else { Seq::empty() };
        assert forall|q: int| 0 <= q < (a + b).len() implies {
            let pos = #[trigger] (a + b)[q];
            pos.0 == p && 0 <= pos.1 < es.len()
        } by {
            if q < a.len() {
                assert((a + b)[q] == a[q]);
            } else {
                assert((a + b)[q] == b[q - a.len()]);
            }
        }
    }
}

// ---- spreadsheet -------------------------------------------------------------------

/// One row of the page summary sheet.
#[derive(Debug, Clone, Copy, PartialEq, Eq, Structural)]
pub struct SummaryRow {
    /// 1-based page number.
    pub page_number: usize,
    pub status: PageStatus,
    pub added: usize,
    pub removed: usize,
    pub modified: usize,
    /// Added, removed and modified entries together.
    pub changes: usize,
}

/// The summary row of a page.
pub open spec fn summary_row(p: PageView) -> SummaryRow {
    let a = count_kind(p.entries, DiffKind::Added);
    let r = count_kind(p.entries, DiffKind::Removed);
    let m = count_kind(p.entries, DiffKind::Modified);
    SummaryRow {
        page_number: (p.page_index + 1) as usize,
        status: p.status,
        added: a as usize,
        removed: r as usize,
        modified: m as usize,
        changes: (a + r + m) as usize,
    }
}

proof fn lemma_changes_by_kind(es: Seq<EntryView>)
    ensures
        count_changes(es) == count_kind(es, DiffKind::Added) + count_kind(es, DiffKind::Removed) + count_kind(
            es,
            DiffKind::Modified,
        ),
    decreases es.len(),
{
    if es.len() > 0 {
        lemma_changes_by_kind(es.drop_last());
    }
}

/// A page's summary counts every change once: it shows the 1-based page
/// number, the numbers of added, removed and modified entries, and a change
/// total that is the number of the page's change entries, which is also the
/// sum of the three.
pub proof fn law_summary_counts_every_change(p: PageView)
    requires
        p.entries.len() <= usize::MAX,
        p.page_index < usize::MAX,
    ensures
        summary_row(p).page_number == p.page_index + 1,
        summary_row(p).added == count_kind(p.entries, DiffKind::Added),
        summary_row(p).removed == count_kind(p.entries, DiffKind::Removed),
        summary_row(p).modified == count_kind(p.entries, DiffKind::Modified),
        summary_row(p).changes == count_changes(p.entries),
        summary_row(p).changes == summary_row(p).added + summary_row(p).removed + summary_row(p).modified,
{
    lemma_changes_by_kind(p.entries);
    lemma_kinds_bounded(p.entries);
}

proof fn lemma_kinds_bounded(es: Seq<EntryView>)
    ensures
        count_kind(es, DiffKind::Added) + count_kind(es, DiffKind::Removed) + count_kind(es, DiffKind::Modified)
            <= es.len(),
    decreases es.len(),
{
    if es.len() > 0 {
        lemma_kinds_bounded(es.drop_last());
    }
}

/// Count the entries of each change kind on a page.
fn summarize_page(p: &PageDiff) -> (row: SummaryRow)
    requires
        p.page_index < usize::MAX,
    ensures
        row == summary_row(p@),
{
    let mut added: usize = 0;
    let mut removed: usize = 0;
    let mut modified: usize = 0;
    let ghost es = p@.entries;
    let n = p.entries.len();
    for i in 0..n
        invariant
            n == p.entries@.len(),
            es == p@.entries,
            added == count_kind(es.take(i as int), DiffKind::Added),
            removed == count_kind(es.take(i as int), DiffKind::Removed),
            modified == count_kind(es.take(i as int), DiffKind::Modified),
            added + removed + modified <= i,
    {
        assert(es.take(i + 1).drop_last() == es.take(i as int));
        assert(es[i as int] == p.entries@[i as int]@);
        match p.entries[i].kind {
            DiffKind::Added => added = added + 1,
            DiffKind::Removed => removed = removed + 1,
            DiffKind::Modified => modified = modified + 1,
            DiffKind::Unchanged => {},
        }
    }
    assert(es.take(n as int) == es);
    SummaryRow {
        page_number: p.page_index + 1,
        status: p.status,
        added,
        removed,
        modified,
        changes: added + removed + modified,
    }
}

/// The rows of the page summary sheet, one per page in report order.
pub fn page_summary_rows(report: &DiffReport) -> (rows: Vec<SummaryRow>)
    requires
        forall|i: int| 0 <= i < report.pages@.len() ==> (#[trigger] report.pages@[i]).page_index < usize::MAX,
    ensures
        rows@ == pages_view(report.pages@).map_values(|p: PageView| summary_row(p)),
{
    let mut rows: Vec<SummaryRow> = Vec::new();
    let n = report.pages.len();
    for i in 0..n
        invariant
            n == report.pages@.len(),
            forall|k: int| 0 <= k < report.pages@.len() ==> (#[trigger] report.pages@[k]).page_index < usize::MAX,
            rows@ == pages_view(report.pages@).take(i as int).map_values(|p: PageView| summary_row(p)),
    {
        let r = summarize_page(&report.pages[i]);
        rows.push(r);
        assert(pages_view(report.pages@).take(i + 1).map_values(|p: PageView| summary_row(p)) =~= pages_view(
            report.pages@,
        ).take(i as int).map_values(|p: PageView| summary_row(p)).push(r));
    }
    assert(pages_view(report.pages@).take(n as int) == pages_view(report.pages@));
    rows
}

/// The overview sheet: label and value of each row.
pub open spec fn overview_spec(r: DiffReport) -> Seq<(Seq<char>, Seq<char>)> {
    seq![
        ("比較モード"@, mode_name(r.mode)),
        ("実行日時"@, r.generated_at@),
        ("旧ファイル"@, r.old.path@),
        ("新ファイル"@, r.new.path@),
        ("旧ページ数"@, decimal(r.old.page_count as nat)),
        ("新ページ数"@, decimal(r.new.page_count as nat)),
        ("追加ページ"@, decimal(r.stats.added_pages as nat)),
        ("削除ページ"@, decimal(r.stats.removed_pages as nat)),
        ("変更ページ"@, decimal(r.stats.modified_pages as nat)),
        ("一致ページ"@, decimal(r.stats.matched_pages as nat)),
        ("追加行"@, decimal(r.stats.added_entries as nat)),
        ("削除行"@, decimal(r.stats.removed_entries as nat)),
        ("変更行"@, decimal(r.stats.modified_entries as nat)),
        ("総変更数"@, decimal(total_changes_of(pages_view(r.pages@)))),
    ]
}

/// Label and value pairs as values.
pub open spec fn labelled_view(v: Seq<(&'static str, String)>) -> Seq<(Seq<char>, Seq<char>)> {
    v.map_values(|q: (&'static str, String)| (q.0@, q.1@))
}

fn labelled(v: &mut Vec<(&'static str, String)>, label: &'static str, value: String)
    ensures
        labelled_view(final(v)@) == labelled_view(old(v)@).push((label@, value@)),
{
    let ghost before = v@;
    v.push((label, value));
    assert(labelled_view(v@) =~= labelled_view(before).push((label@, value@)));
}

/// The rows of the overview sheet: mode, time, files, page counts and the
/// statistics.
pub fn overview_rows(report: &DiffReport) -> (rows: Vec<(&'static str, String)>)
    requires
        total_changes_of(pages_view(report.pages@)) <= usize::MAX,
    ensures
        labelled_view(rows@) == overview_spec(*report),
{
    let mut rows: Vec<(&'static str, String)> = Vec::new();
    labelled(&mut rows, "比較モード", String::from_str(report.mode.as_str()));
    labelled(&mut rows, "実行日時", report.generated_at.clone());
    labelled(&mut rows, "旧ファイル", report.old.path.clone());
    labelled(&mut rows, "新ファイル", report.new.path.clone());
    labelled(&mut rows, "旧ページ数", crate::strings::decimal_string(report.old.page_count as u64));
    labelled(&mut rows, "新ページ数", crate::strings::decimal_string(report.new.page_count as u64));
    labelled(&mut rows, "追加ページ", crate::strings::decimal_string(report.stats.added_pages as u64));
    labelled(&mut rows, "削除ページ", crate::strings::decimal_string(report.stats.removed_pages as u64));
    labelled(&mut rows, "変更ページ", crate::strings::decimal_string(report.stats.modified_pages as u64));
    labelled(&mut rows, "一致ページ", crate::strings::decimal_string(report.stats.matched_pages as u64));
    labelled(&mut rows, "追加行", crate::strings::decimal_string(report.stats.added_entries as u64));
    labelled(&mut rows, "削除行", crate::strings::decimal_string(report.stats.removed_entries as u64));
    labelled(&mut rows, "変更行", crate::strings::decimal_string(report.stats.modified_entries as u64));
    labelled(&mut rows, "総変更数", crate::strings::decimal_string(report.total_changes() as u64));
    assert(labelled_view(rows@) =~= overview_spec(*report));
    rows
}

/// The change-list cell of an optional 0-based line index: the index as a
/// number with one decimal (`3.0`), or nothing.
pub open spec fn xlsx_line_cell(l: Option<usize>) -> Seq<char> {
    match l {
        Some(i) => decimal(i as nat) + ".0"@,
        None => Seq::empty(),
    }
}

/// Largest line index whose one-decimal rendering is exact.
pub open spec fn max_exact_line() -> int {
    9007199254740992
}

/// Whether the line indices of `e` render exactly.
pub open spec fn lines_exact(e: EntryView) -> bool {
    &&& (e.old_line matches Some(i) ==> i <= max_exact_line())
    &&& (e.new_line matches Some(i) ==> i <= max_exact_line())
}

/// The cells of the change-list row of entry `e` on page `p`, given the
/// eight rendered coordinate cells (old x, y, width, height, new x, y,
/// width, height).
pub open spec fn xlsx_row(p: PageView, e: EntryView, coords: Seq<Seq<char>>) -> Seq<Seq<char>> {
    seq![
        decimal((p.page_index + 1) as nat),
        kind_name(e.kind),
        xlsx_line_cell(e.old_line),
        xlsx_line_cell(e.new_line),
        text_or_empty(e.old_text),
        text_or_empty(e.new_text),
    ] + coords + seq![decimal(e.visual_rects.len())]
}

/// The change-list rows of a report: for the `k`-th change its kind (which
/// selects the row's colour) and its cells.
pub open spec fn xlsx_rows(ps: Seq<PageView>, coords: Seq<Seq<Seq<char>>>) -> Seq<(DiffKind, Seq<Seq<char>>)> {
    Seq::new(
        change_positions(ps).len(),
        |k: int|
            {
                let pos = change_positions(ps)[k];
                (ps[pos.0].entries[pos.1].kind, xlsx_row(ps[pos.0], ps[pos.0].entries[pos.1], coords[k]))
            },
    )
}

/// Cells as values.
pub open spec fn cells_view(v: Seq<String>) -> Seq<Seq<char>> {
    v.map_values(|c: String| c@)
}

/// Rows as values.
pub open spec fn rows_view(v: Seq<(DiffKind, Vec<String>)>) -> Seq<(DiffKind, Seq<Seq<char>>)> {
    v.map_values(|q: (DiffKind, Vec<String>)| (q.0, cells_view(q.1@)))
}

fn push_cell(v: &mut Vec<String>, c: String)
    ensures
        cells_view(final(v)@) == cells_view(old(v)@).push(c@),
{
    let ghost before = v@;
    v.push(c);
    assert(cells_view(v@) =~= cells_view(before).push(c@));
}

fn line_cell(l: Option<usize>) -> (c: String)
    requires
        l matches Some(i) ==> i <= max_exact_line(),
    ensures
        c@ == xlsx_line_cell(l),
{
    let mut c = String::new();
    match l {
        Some(i) => {
            crate::strings::push_decimal(&mut c, i as u64);
            push_str(&mut c, ".0");
        },
        None => {},
    }
    c
}

fn text_cell(t: &Option<String>) -> (c: String)
    ensures
        c@ == text_or_empty(crate::report::opt_text(*t)),
{
    match t {
        Some(x) => x.clone(),
        None => String::new(),
    }
}

/// The cells of one change-list row.
fn xlsx_row_cells(p: &PageDiff, e: &DiffEntry, coords: &Vec<String>) -> (cells: Vec<String>)
    requires
        p.page_index < usize::MAX,
        lines_exact(e@),
    ensures
        cells_view(cells@) == xlsx_row(p@, e@, cells_view(coords@)),
{
    let mut cells: Vec<String> = Vec::new();
    push_cell(&mut cells, crate::strings::decimal_string((p.page_index + 1) as u64));
    push_cell(&mut cells, String::from_str(e.kind.as_str()));
    push_cell(&mut cells, line_cell(e.old_line));
    push_cell(&mut cells, line_cell(e.new_line));
    push_cell(&mut cells, text_cell(&e.old_text));
    push_cell(&mut cells, text_cell(&e.new_text));
    let ghost head = cells_view(cells@);
    let n = coords.len();
    for i in 0..n
        invariant
            n == coords@.len(),
            cells_view(cells@) == head + cells_view(coords@).take(i as int),
    {
        push_cell(&mut cells, coords[i].clone());
        assert(cells_view(coords@).take(i + 1) == cells_view(coords@).take(i as int).push(coords@[i as int]@));
    }
    assert(cells_view(coords@).take(n as int) == cells_view(coords@));
    push_cell(&mut cells, crate::strings::decimal_string(e.visual_rects.len() as u64));
    assert(cells_view(cells@) =~= xlsx_row(p@, e@, cells_view(coords@)));
    cells
}

/// Whether every change entry of the report can be written to the change
/// list: page numbers fit and line indices render exactly.
pub open spec fn report_tabulable(r: DiffReport) -> bool {
    forall|i: int, j: int|
        0 <= i < r.pages@.len() && 0 <= j < r.pages@[i].entries@.len() ==> {
            &&& #[trigger] r.pages@[i].page_index < usize::MAX
            &&& lines_exact(#[trigger] r.pages@[i].entries@[j]@)
        }
}

/// The change-list sheet: one row per change entry, in report order, with
/// the entry's kind and cells. `coords[k]` holds the eight rendered
/// coordinate cells of the `k`-th change.
pub fn xlsx_change_rows(report: &DiffReport, coords: &Vec<Vec<String>>) -> (rows: Vec<(DiffKind, Vec<String>)>)
    requires
        report_tabulable(*report),
        coords@.len() == change_positions(pages_view(report.pages@)).len(),
    ensures
        rows_view(rows@) == xlsx_rows(
            pages_view(report.pages@),
            coords@.map_values(|c: Vec<String>| cells_view(c@)),
        ),
{
    let positions = changed_entries(report);
    let ghost ps = pages_view(report.pages@);
    let ghost cv = coords@.map_values(|c: Vec<String>| cells_view(c@));
    let mut rows: Vec<(DiffKind, Vec<String>)> = Vec::new();
    let n = positions.len();
    proof { lemma_positions_valid(ps); }
    for k in 0..n
        invariant
            n == positions@.len(),
            n == coords@.len(),
            ps == pages_view(report.pages@),
            cv == coords@.map_values(|c: Vec<String>| cells_view(c@)),
            report_tabulable(*report),
            positions@.len() == change_positions(ps).len(),
            forall|q: int| 0 <= q < positions@.len() ==> (#[trigger] positions@[q]).0 as int == change_positions(ps)[q].0
                && positions@[q].1 as int == change_positions(ps)[q].1,
            forall|q: int| 0 <= q < change_positions(ps).len() ==> {
                let pos = #[trigger] change_positions(ps)[q];
                0 <= pos.0 < ps.len() && 0 <= pos.1 < ps[pos.0].entries.len()
            },
            rows_view(rows@) == xlsx_rows(ps, cv).take(k as int),
    {
        let (pi, ei) = positions[k];
        let ghost pos = change_positions(ps)[k as int];
        assert(positions@[k as int].0 as int == pos.0);
        let p = &report.pages[pi];
        assert(ps[pi as int] == p@);
        let e = &p.entries[ei];
        assert(p@.entries[ei as int] == e@);
        assert(report.pages@[pi as int].page_index < usize::MAX && lines_exact(report.pages@[pi as int].entries@[ei as int]@));
        let cells = xlsx_row_cells(p, e, &coords[k]);
        assert(cv[k as int] == cells_view(coords@[k as int]@));
        let ghost before = rows@;
        rows.push((e.kind, cells));
        assert(rows_view(rows@) =~= rows_view(before).push(xlsx_rows(ps, cv)[k as int]));
        assert(xlsx_rows(ps, cv).take(k + 1) =~= xlsx_rows(ps, cv).take(k as int).push(xlsx_rows(ps, cv)[k as int]));
    }
    assert(xlsx_rows(ps, cv).take(n as int) =~= xlsx_rows(ps, cv));
    rows
}

// ---- CSV ---------------------------------------------------------------------------

/// The column titles of the change list, shared by the spreadsheet and the
/// CSV export.
pub open spec fn change_list_header() -> Seq<Seq<char>> {
    seq![
        "ページ"@, "変更種別"@, "行(旧)"@, "行(新)"@, "変更前テキスト"@, "変更後テキスト"@,
        "変更前 X"@, "変更前 Y"@, "変更前 W"@, "変更前 H"@,
        "変更後 X"@, "変更後 Y"@, "変更後 W"@, "変更後 H"@, "ビジュアル領域数"@,
    ]
}

/// The column titles of the change list.
pub fn change_list_header_cells() -> (v: Vec<String>)
    ensures
        cells_view(v@) == change_list_header(),
{
    let mut v: Vec<String> = Vec::new();
    push_cell(&mut v, String::from_str("ページ"));
    push_cell(&mut v, String::from_str("変更種別"));
    push_cell(&mut v, String::from_str("行(旧)"));
    push_cell(&mut v, String::from_str("行(新)"));
    push_cell(&mut v, String::from_str("変更前テキスト"));
    push_cell(&mut v, String::from_str("変更後テキスト"));
    push_cell(&mut v, String::from_str("変更前 X"));
    push_cell(&mut v, String::from_str("変更前 Y"));
    push_cell(&mut v, String::from_str("変更前 W"));
    push_cell(&mut v, String::from_str("変更前 H"));
    push_cell(&mut v, String::from_str("変更後 X"));
    push_cell(&mut v, String::from_str("変更後 Y"));
    push_cell(&mut v, String::from_str("変更後 W"));
    push_cell(&mut v, String::from_str("変更後 H"));
    push_cell(&mut v, String::from_str("ビジュアル領域数"));
    assert(cells_view(v@) =~= change_list_header());
    v
}

/// Characters that force a CSV field into quotes.
pub open spec fn csv_special(c: char) -> bool {
    c == ',' || c == '"' || c == '\n' || c == '\r'
}

/// Whether a CSV field must be quoted.
pub open spec fn needs_quotes(s: Seq<char>) -> bool {
    exists|i: int| 0 <= i < s.len() && csv_special(#[trigger] s[i])
}

/// `s` with every `"` doubled.
pub open spec fn double_quotes(s: Seq<char>) -> Seq<char>
    decreases s.len(),
{
    if s.len() == 0 {
        Seq::empty()
    } else {
        double_quotes(s.drop_last()) + if s.last() == '"' { seq!['"', '"'] } else { seq![s.last()] }
    }
}

/// One CSV field (RFC 4180): as it is, or, when it holds a comma, a quote or
/// a line break, in quotes with every inner quote doubled.
pub open spec fn csv_field(s: Seq<char>) -> Seq<char> {
    if needs_quotes(s) {
        seq!['"'] + double_quotes(s) + seq!['"']
    } else {
        s
    }
}

/// The fields of a record joined by commas.
pub open spec fn csv_record(cells: Seq<Seq<char>>) -> Seq<char>
    decreases cells.len(),
{
    if cells.len() == 0 {
        Seq::empty()
    } else if cells.len() == 1 {
        csv_field(cells[0])
    } else {
        csv_record(cells.drop_last()) + seq![','] + csv_field(cells.last())
    }
}

/// The records of the change-list rows, one line each.
pub open spec fn csv_lines(rows: Seq<(DiffKind, Seq<Seq<char>>)>) -> Seq<char>
    decreases rows.len(),
{
    if rows.len() == 0 {
        Seq::empty()
    } else {
        csv_lines(rows.drop_last()) + csv_record(rows.last().1) + seq!['\n']
    }
}

/// The CSV export: the change list's header line, then one record per
/// change with the change list's cells.
pub open spec fn csv_text(ps: Seq<PageView>, coords: Seq<Seq<Seq<char>>>) -> Seq<char> {
    csv_record(change_list_header()) + seq!['\n'] + csv_lines(xlsx_rows(ps, coords))
}

fn push_csv_field(s: &mut String, t: &String)
    ensures
        final(s)@ == old(s)@ + csv_field(t@),
{
    let v = crate::strings::chars_of(t.as_str());
    let n = v.len();
    let mut quote = false;
    for i in 0..n
        invariant
            n == v@.len(),
            v@ == t@,
            quote == exists|q: int| 0 <= q < i && csv_special(#[trigger] v@[q]),
    {
        let c = v[i];
        if c == ',' || c == '"' || c == '\n' || c == '\r' {
            quote = true;
        }
    }
    if !quote {
        push_str(s, t.as_str());
        return;
    }
    let ghost start = s@;
    push_char(s, '"');
    for i in 0..n
        invariant
            n == v@.len(),
            v@ == t@,
            s@ == start + seq!['"'] + double_quotes(v@.take(i as int)),
    {
        let c = v[i];
        assert(v@.take(i + 1).drop_last() == v@.take(i as int));
        if c == '"' {
            push_char(s, '"');
            push_char(s, '"');
        } else {
            push_char(s, c);
        }
        assert(s@ =~= start + seq!['"'] + double_quotes(v@.take(i + 1)));
    }
    assert(v@.take(n as int) == v@);
    push_char(s, '"');
    assert(s@ =~= start + csv_field(t@));
}

fn push_csv_record(s: &mut String, cells: &Vec<String>)
    ensures
        final(s)@ == old(s)@ + csv_record(cells_view(cells@)),
{
    let ghost start = s@;
    let n = cells.len();
    for i in 0..n
        invariant
            n == cells@.len(),
            s@ == start + csv_record(cells_view(cells@).take(i as int)),
    {
        let ghost cv = cells_view(cells@).take(i + 1);
        assert(cv.drop_last() == cells_view(cells@).take(i as int));
        assert(cv.last() == cells@[i as int]@);
        if i > 0 {
            push_char(s, ',');
        } else {
            assert(cells_view(cells@).take(0) =~= Seq::<Seq<char>>::empty());
        }
        push_csv_field(s, &cells[i]);
        assert(s@ =~= start + csv_record(cv));
    }
    assert(cells_view(cells@).take(n as int) == cells_view(cells@));
}

/// Render the change list as CSV, with the change list's columns.
/// `coords[k]` holds the eight rendered coordinate cells of the `k`-th change
/// (see `changed_entries`).
pub fn build_csv(report: &DiffReport, coords: &Vec<Vec<String>>) -> (csv: String)
    requires
        report_tabulable(*report),
        coords@.len() == change_positions(pages_view(report.pages@)).len(),
    ensures
        csv@ == csv_text(pages_view(report.pages@), coords@.map_values(|c: Vec<String>| cells_view(c@))),
{
    let rows = xlsx_change_rows(report, coords);
    let ghost want = xlsx_rows(pages_view(report.pages@), coords@.map_values(|c: Vec<String>| cells_view(c@)));
    let mut out = String::new();
    let header = change_list_header_cells();
    push_csv_record(&mut out, &header);
    push_char(&mut out, '\n');
    let ghost head = out@;
    let n = rows.len();
    assert(rows_view(rows@).len() == rows@.len());
    for k in 0..n
        invariant
            n == rows@.len(),
            rows_view(rows@) == want,
            out@ == head + csv_lines(want.take(k as int)),
    {
        assert(want.take(k + 1).drop_last() == want.take(k as int));
        assert(want[k as int].1 == cells_view(rows@[k as int].1@));
        push_csv_record(&mut out, &rows[k].1);
        push_char(&mut out, '\n');
        assert(out@ =~= head + csv_lines(want.take(k + 1)));
    }
    assert(want.take(n as int) == want);
    out
}

} // verus!
