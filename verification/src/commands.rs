//! What the application's commands decide: checks on their arguments, the
//! messages they answer with, the export format and file name they pick, and
//! the mode lists the command line accepts.

use vstd::prelude::*;
use crate::report::{mode_from_lower, pages_view, total_changes_of, DiffMode, DiffReport};
use crate::strings::{ascii_lower, decimal, push_decimal, push_str, to_ascii_lowercase, trim, trim_spec};

verus! {

// ---- comparing -------------------------------------------------------------------

/// Arguments of a comparison request.
#[derive(Debug, Clone)]
pub struct CompareArgs {
    pub old_path: String,
    pub new_path: String,
    pub mode: String,
}

/// Answer to a comparison request.
#[derive(Debug)]
pub struct CompareResponse {
    pub ok: bool,
    pub message: String,
    /// The full diff report, if the comparison succeeded.
    pub report: Option<DiffReport>,
}

/// The answer when a path is missing.
pub open spec fn missing_paths_message() -> Seq<char> {
    "Both old and new file paths are required."@
}

/// The summary line of a comparison with `total` changes over `pages` pages.
pub open spec fn compare_message(total: nat, pages: nat) -> Seq<char> {
    if total == 0 {
        "No differences found."@
    } else {
        "Found "@ + decimal(total) + " change(s) across "@ + decimal(pages) + " page(s)."@
    }
}

/// Check a comparison request before any file is read: both paths must be
/// given. On success the selected mode is returned, otherwise the answer
/// to send back.
pub fn check_compare_args(args: &CompareArgs) -> (r: Result<DiffMode, CompareResponse>)
    ensures
        r is Err <==> (args.old_path@.len() == 0 || args.new_path@.len() == 0),
        r matches Ok(m) ==> m == mode_from_lower(ascii_lower(args.mode@)),
        r matches Err(resp) ==> !resp.ok && resp.message@ == missing_paths_message() && resp.report is None,
{
    if args.old_path.as_str().is_empty() || args.new_path.as_str().is_empty() {
        return Err(
            CompareResponse {
                ok: false,
                message: String::from_str("Both old and new file paths are required."),
                report: None,
            },
        );
    }
    Ok(DiffMode::from_str(args.mode.as_str()))
}

/// The answer to a comparison that produced `report`.
pub fn compare_response(report: DiffReport) -> (r: CompareResponse)
    requires
        total_changes_of(pages_view(report.pages@)) <= usize::MAX,
    ensures
        r.ok,
        r.message@ == compare_message(total_changes_of(pages_view(report.pages@)), report.pages@.len()),
        r.report == Some(report),
{
    let total = report.total_changes();
    let mut message = String::new();
    if total == 0 {
        push_str(&mut message, "No differences found.");
    } else {
        push_str(&mut message, "Found ");
        push_decimal(&mut message, total as u64);
        push_str(&mut message, " change(s) across ");
        push_decimal(&mut message, report.pages.len() as u64);
        push_str(&mut message, " page(s).");
        assert(message@ =~= compare_message(total as nat, report.pages@.len()));
    }
    CompareResponse { ok: true, message, report: Some(report) }
}

// ---- exporting ---------------------------------------------------------------------

/// Arguments of an export request.
#[derive(Debug, Clone)]
pub struct ExportArgs {
    /// Destination path. Its extension selects the format unless `format`
    /// is given.
    pub path: String,
    pub format: Option<String>,
}

/// Answer to an export request.
#[derive(Debug, Clone)]
pub struct ExportResponse {
    pub ok: bool,
    pub message: String,
}

/// The file formats a report can be exported to.
#[derive(Debug, Clone, Copy, PartialEq, Eq, Structural)]
pub enum ExportFormat {
    Xlsx,
    Csv,
    Json,
    Html,
}

/// The format a name selects, if any.
pub open spec fn export_format_named(f: Seq<char>) -> Option<ExportFormat> {
    if f == "xlsx"@ {
        Some(ExportFormat::Xlsx)
    } else if f == "csv"@ {
        Some(ExportFormat::Csv)
    } else if f == "json"@ {
        Some(ExportFormat::Json)
    } else if f == "html"@ {
        Some(ExportFormat::Html)
    } else {
        None
    }
}

/// Whether `a` and `b` hold the same text.
fn same_text(a: &str, b: &str) -> (r: bool)
    ensures
        r == (a@ == b@),
{
    a.to_owned() == b.to_owned()
}

impl ExportFormat {
    /// The format of an exact (already lower-cased) name.
    pub fn from_name(f: &str) -> (r: Option<ExportFormat>)
        ensures
            r == export_format_named(f@),
    {
        if same_text(f, "xlsx") {
            Some(ExportFormat::Xlsx)
        } else if same_text(f, "csv") {
            Some(ExportFormat::Csv)
        } else if same_text(f, "json") {
            Some(ExportFormat::Json)
        } else if same_text(f, "html") {
            Some(ExportFormat::Html)
        } else {
            None
        }
    }
}

/// The format name an export uses: the one asked for, else the lower-cased
/// extension of the destination, else `xlsx`.
pub open spec fn chosen_format(format: Option<Seq<char>>, ext: Option<Seq<char>>) -> Seq<char> {
    match format {
        Some(f) => f,
        None => match ext {
            Some(e) => ascii_lower(e),
            None => "xlsx"@,
        },
    }
}

/// Pick the export format name from the requested format and the
/// destination's extension.
pub fn choose_export_format(format: &Option<String>, ext: &Option<String>) -> (f: String)
    ensures
        f@ == chosen_format(crate::report::opt_text(*format), crate::report::opt_text(*ext)),
{
    match format {
        Some(x) => x.clone(),
        None => match ext {
            Some(e) => to_ascii_lowercase(e.as_str()),
            None => String::from_str("xlsx"),
        },
    }
}

/// Whether `e` directly follows a `.` somewhere in `path` and holds no `.`.
pub open spec fn follows_a_dot(path: Seq<char>, e: Seq<char>) -> bool {
    &&& exists|k: int|
        0 <= k && k + 1 + e.len() <= path.len() && #[trigger] path[k] == '.' && path.subrange(
            k + 1,
            k + 1 + e.len(),
        ) == e
    &&& forall|i: int| 0 <= i < e.len() ==> #[trigger] e[i] != '.'
}

/// A character some platform reads as separating path parts: `/`, `\` (a
/// separator on Windows) or `:` (ending a drive prefix on Windows).
pub open spec fn path_separator(c: char) -> bool {
    c == '/' || c == '\\' || c == ':'
}

/// Index of the last separator of `p`, or -1.
pub open spec fn last_separator(p: Seq<char>) -> int
    decreases p.len(),
{
    if p.len() == 0 {
        -1
    } else if path_separator(p.last()) {
        p.len() - 1
    } else {
        last_separator(p.drop_last())
    }
}

/// The part of `p` after its last separator (all of `p` without one).
pub open spec fn path_tail(p: Seq<char>) -> Seq<char> {
    p.subrange(last_separator(p) + 1, p.len() as int)
}

/// Whether `p` starts with two slashes or backslashes, the start of a
/// Windows network or device path, whose first parts are a prefix rather
/// than directories.
pub open spec fn starts_like_network_path(p: Seq<char>) -> bool {
    p.len() >= 2 && (p[0] == '/' || p[0] == '\\') && (p[1] == '/' || p[1] == '\\')
}

/// Whether every platform agrees that the file name of `p` ends with
/// `path_tail(p)` and has its last `.` where the tail has it:
/// - without a separator: `p` is the file name itself, unless it is `..`;
/// - otherwise, when `p` is no network path and its tail is a real name
///   (not empty, `.` or `..`), and either the tail holds a `.` past its first
///   character, or the last separator is `/`, which every platform honours
///   so that the tail is the whole file name.
pub open spec fn extension_settled(p: Seq<char>) -> bool {
    if last_separator(p) < 0 {
        p != ".."@
    } else {
        let t = path_tail(p);
        &&& !starts_like_network_path(p)
        &&& t != ""@ && t != "."@ && t != ".."@
        &&& (last_dot(t) > 0 || p[last_separator(p)] == '/')
    }
}

/// Index of the last `.` of `p`, or -1.
pub open spec fn last_dot(p: Seq<char>) -> int
    decreases p.len(),
{
    if p.len() == 0 {
        -1
    } else if p.last() == '.' {
        p.len() - 1
    } else {
        last_dot(p.drop_last())
    }
}

/// The extension of a file name: what follows its last `.`, when that `.`
/// is not the first character.
pub open spec fn plain_extension(p: Seq<char>) -> Option<Seq<char>> {
    if last_dot(p) > 0 {
        Some(p.subrange(last_dot(p) + 1, p.len() as int))
    } else {
        None
    }
}

/// Calls `Path::extension` on `path`. Its documentation defines the
/// extension as the part of the file name after its last `.`, and none when
/// there is no file name or the file name holds no `.` other than a leading
/// one. Stated here: an extension follows a `.` of the path and holds no
/// `.`; a path without `.` has none; and wherever every platform agrees on
/// the file name's end (`extension_settled`), the extension is what follows
/// the last `.` of the path's tail past its first character. Left unsaid:
/// paths whose file name depends on whether `\` and `:` separate (such as
/// `a.b\c` on Unix), network paths, and tails that are empty, `.` or `..`.
#[verifier::external_body]
fn extension_of(path: &str) -> (r: Option<String>)
    ensures
        r matches Some(e) ==> follows_a_dot(path@, e@),
        (forall|i: int| 0 <= i < path@.len() ==> path@[i] != '.') ==> r is None,
        extension_settled(path@) ==> crate::report::opt_text(r) == plain_extension(path_tail(path@)),
{
    match std::path::Path::new(path).extension() {
        Some(e) => match e.to_str() {
            Some(t) => Some(t.to_string()),
            None => None,
        },
        None => None,
    }
}

/// The export format name for a request: the requested one, else the
/// lower-cased extension of its path, else `xlsx`.
pub fn export_format(args: &ExportArgs) -> (f: String)
    ensures
        args.format matches Some(x) ==> f@ == x@,
        args.format is None ==> (f@ == "xlsx"@ || exists|e: Seq<char>|
            follows_a_dot(args.path@, e) && f@ == #[trigger] ascii_lower(e)),
        extension_settled(args.path@) ==> f@ == chosen_format(
            crate::report::opt_text(args.format),
            plain_extension(path_tail(args.path@)),
        ),
{
    let ext = extension_of(args.path.as_str());
    choose_export_format(&args.format, &ext)
}

/// The message for a format that cannot be exported.
pub open spec fn unsupported_format_message(f: Seq<char>) -> Seq<char> {
    "Unsupported export format: "@ + f
}

/// Select the exporter for a format name.
pub fn export_target(format: &str) -> (r: Result<ExportFormat, String>)
    ensures
        r is Ok <==> export_format_named(format@) is Some,
        r matches Ok(k) ==> export_format_named(format@) == Some(k),
        r matches Err(e) ==> e@ == unsupported_format_message(format@),
{
    match ExportFormat::from_name(format) {
        Some(k) => Ok(k),
        None => {
            let mut e = String::new();
            push_str(&mut e, "Unsupported export format: ");
            push_str(&mut e, format);
            Err(e)
        },
    }
}

/// The message for a format the command line cannot export.
pub open spec fn cli_unsupported_message(f: Seq<char>) -> Seq<char> {
    "unsupported export format: '"@ + f + "'"@
}

/// Select the exporter for a format name given on the command line.
pub fn export_report_target(format: &str) -> (r: Result<ExportFormat, String>)
    ensures
        r is Ok <==> export_format_named(format@) is Some,
        r matches Ok(k) ==> export_format_named(format@) == Some(k),
        r matches Err(e) ==> e@ == cli_unsupported_message(format@),
{
    match ExportFormat::from_name(format) {
        Some(k) => Ok(k),
        None => {
            let mut e = String::new();
            push_str(&mut e, "unsupported export format: '");
            push_str(&mut e, format);
            push_str(&mut e, "'");
            Err(e)
        },
    }
}

/// The answer to an export written to `path`.
pub fn export_response(path: &str) -> (r: ExportResponse)
    ensures
        r.ok,
        r.message@ == "Report exported to "@ + path@,
{
    let mut message = String::new();
    push_str(&mut message, "Report exported to ");
    push_str(&mut message, path);
    ExportResponse { ok: true, message }
}

/// The error of an export requested before any comparison.
pub open spec fn no_report_message() -> Seq<char> {
    "No diff report available. Run a comparison first."@
}

/// The error of an export requested before any comparison.
pub fn no_report_error() -> (e: String)
    ensures
        e@ == no_report_message(),
{
    String::from_str("No diff report available. Run a comparison first.")
}

/// Format, suggested file name and filter label of the save dialog.
pub open spec fn save_target(format: Option<Seq<char>>) -> (Seq<char>, Seq<char>, Seq<char>) {
    let f = match format {
        Some(f) => f,
        None => "xlsx"@,
    };
    if f == "csv"@ {
        (f, "diff-report.csv"@, "CSV (*.csv)"@)
    } else if f == "json"@ {
        (f, "diff-report.json"@, "JSON (*.json)"@)
    } else if f == "html"@ {
        (f, "diff-report.html"@, "HTML (*.html)"@)
    } else {
        (f, "diff-report.xlsx"@, "Excel (*.xlsx)"@)
    }
}

/// What the save dialog offers for a requested format: the format (default
/// `xlsx`), the suggested file name and the filter label.
pub fn save_dialog_target(format: &Option<String>) -> (t: (String, &'static str, &'static str))
    ensures
        (t.0@, t.1@, t.2@) == save_target(crate::report::opt_text(*format)),
{
    let f = match format {
        Some(f) => f.clone(),
        None => String::from_str("xlsx"),
    };
    if same_text(f.as_str(), "csv") {
        (f, "diff-report.csv", "CSV (*.csv)")
    } else if same_text(f.as_str(), "json") {
        (f, "diff-report.json", "JSON (*.json)")
    } else if same_text(f.as_str(), "html") {
        (f, "diff-report.html", "HTML (*.html)")
    } else {
        (f, "diff-report.xlsx", "Excel (*.xlsx)")
    }
}

// ---- mode lists ------------------------------------------------------------------

/// Scan state of splitting at commas: the pieces completed so far and the
/// piece being read.
pub open spec fn split_state(s: Seq<char>) -> (Seq<Seq<char>>, Seq<char>)
    decreases s.len(),
{
    if s.len() == 0 {
        (Seq::empty(), Seq::empty())
    } else {
        let (done, cur) = split_state(s.drop_last());
        if s.last() == ',' {
            (done.push(cur), Seq::empty())
        } else {
            (done, cur.push(s.last()))
        }
    }
}

/// The pieces of `s` between commas, as `str::split(',')` yields them.
pub open spec fn comma_pieces(s: Seq<char>) -> Seq<Seq<char>> {
    split_state(s).0.push(split_state(s).1)
}

/// The mode an exact name selects, if any.
pub open spec fn mode_named(t: Seq<char>) -> Option<DiffMode> {
    if t == "text"@ {
        Some(DiffMode::Text)
    } else if t == "visual"@ {
        Some(DiffMode::Visual)
    } else if t == "hybrid"@ {
        Some(DiffMode::Hybrid)
    } else {
        None
    }
}

/// The modes named by a list of pieces: each piece is trimmed, empty ones are
/// skipped, the rest lower-cased (ASCII) and looked up; the first unknown
/// name is the error.
pub open spec fn modes_of(ps: Seq<Seq<char>>) -> Result<Seq<DiffMode>, Seq<char>>
    decreases ps.len(),
{
    if ps.len() == 0 {
        Ok(Seq::empty())
    } else {
        match modes_of(ps.drop_last()) {
            Err(e) => Err(e),
            Ok(ms) => {
                let t = trim_spec(ps.last());
                if t.len() == 0 {
                    Ok(ms)
                } else {
                    match mode_named(ascii_lower(t)) {
                        Some(m) => Ok(ms.push(m)),
                        None => Err("unknown mode: '"@ + ascii_lower(t) + "'"@),
                    }
                }
            },
        }
    }
}

/// A parse result as values.
pub open spec fn modes_result_view(r: Result<Vec<DiffMode>, String>) -> Result<Seq<DiffMode>, Seq<char>> {
    match r {
        Ok(v) => Ok(v@),
        Err(e) => Err(e@),
    }
}

/// Split `s` at commas.
fn split_commas(s: &str) -> (ps: Vec<String>)
    ensures
        ps@.map_values(|p: String| p@) == comma_pieces(s@),
{
    let v = crate::strings::chars_of(s);
    let mut done: Vec<String> = Vec::new();
    let mut cur = String::new();
    let n = v.len();
    for i in 0..n
        invariant
            n == v@.len(),
            v@ == s@,
            (done@.map_values(|p: String| p@), cur@) == split_state(v@.take(i as int)),
    {
        let c = v[i];
        assert(v@.take(i + 1).drop_last() == v@.take(i as int));
        if c == ',' {
            let piece = cur;
            let ghost before = done@;
            done.push(piece);
            assert(done@.map_values(|p: String| p@) =~= before.map_values(|p: String| p@).push(piece@));
            cur = String::new();
        } else {
            crate::strings::push_char(&mut cur, c);
        }
    }
    assert(v@.take(n as int) == v@);
    let ghost before = done@;
    done.push(cur);
    assert(done@.map_values(|p: String| p@) =~= before.map_values(|p: String| p@).push(cur@));
    done
}

/// The mode of an exact name.
fn mode_of_name(t: &str) -> (r: Option<DiffMode>)
    ensures
        r == mode_named(t@),
{
    if same_text(t, "text") {
        Some(DiffMode::Text)
    } else if same_text(t, "visual") {
        Some(DiffMode::Visual)
    } else if same_text(t, "hybrid") {
        Some(DiffMode::Hybrid)
    } else {
        None
    }
}

/// Parse a comma-separated list of modes such as `text, Visual`. Blank
/// entries are skipped; names are matched without regard to ASCII case; an
/// unknown name is an error that quotes it (lower-cased).
pub fn parse_modes(s: &str) -> (r: Result<Vec<DiffMode>, String>)
    ensures
        modes_result_view(r) == modes_of(comma_pieces(s@)),
{
    let pieces = split_commas(s);
    let ghost ps = pieces@.map_values(|p: String| p@);
    let mut modes: Vec<DiffMode> = Vec::new();
    let n = pieces.len();
    for i in 0..n
        invariant
            n == pieces@.len(),
            ps == pieces@.map_values(|p: String| p@),
            ps == comma_pieces(s@),
            modes_of(ps.take(i as int)) == Ok::<Seq<DiffMode>, Seq<char>>(modes@),
    {
        assert(ps.take(i + 1).drop_last() == ps.take(i as int));
        assert(ps.take(i + 1).last() == pieces@[i as int]@);
        let t = trim(pieces[i].as_str());
        if !t.as_str().is_empty() {
            let lower = to_ascii_lowercase(t.as_str());
            match mode_of_name(lower.as_str()) {
                Some(m) => {
                    modes.push(m);
                },
                None => {
                    let mut e = String::new();
                    push_str(&mut e, "unknown mode: '");
                    push_str(&mut e, lower.as_str());
                    push_str(&mut e, "'");
                    proof {
                        lemma_modes_error_sticks(ps, i as int + 1, e@);
                        assert(ps.take(n as int) == ps);
                    }
                    return Err(e);
                },
            }
        }
    }
    assert(ps.take(n as int) == ps);
    Ok(modes)
}

/// Once a prefix of the pieces fails, every longer prefix fails the same way.
proof fn lemma_modes_error_sticks(ps: Seq<Seq<char>>, k: int, e: Seq<char>)
    requires
        0 <= k <= ps.len(),
        modes_of(ps.take(k)) == Err::<Seq<DiffMode>, Seq<char>>(e),
    ensures
        modes_of(ps) == Err::<Seq<DiffMode>, Seq<char>>(e),
    decreases ps.len() - k,
{
    if k == ps.len() {
        assert(ps.take(k) == ps);
    } else {
        assert(ps.take(k + 1).drop_last() == ps.take(k));
        lemma_modes_error_sticks(ps, k + 1, e);
    }
}

} // verus!
