//! Text search over the pages of a document: case-insensitive match counts
//! and a short snippet around the first match of each page.
//!
//! Offsets are byte offsets into the UTF-8 encoding of the texts, as the
//! standard string searches report them.

use vstd::prelude::*;
use vstd::string::StringSliceAdditionalSpecFns;
use vstd::utf8::{decode_utf8, encode_utf8, is_char_boundary};
use crate::strings::{all_ws, char_is_whitespace, chars_of, is_blank, is_unicode_whitespace, push_str, string_of, trim, trim_spec};

verus! {

broadcast use vstd::utf8::encode_utf8_valid_utf8, vstd::utf8::encode_utf8_decode_utf8, vstd::slice::group_slice_axioms;

/// One page on which the query was found.
#[derive(Debug, Clone)]
pub struct SearchResult {
    pub page_index: usize,
    pub snippet: String,
    pub match_count: usize,
}

/// Whether `n` occurs in `h` at byte offset `i`.
pub open spec fn occurs_at(h: Seq<u8>, n: Seq<u8>, i: int) -> bool {
    0 <= i && i + n.len() <= h.len() && h.subrange(i, i + n.len()) == n
}

/// Whether `i` is the first offset at which `n` occurs in `h`.
pub open spec fn first_occurrence(h: Seq<u8>, n: Seq<u8>, i: int) -> bool {
    occurs_at(h, n, i) && forall|j: int| 0 <= j < i ==> !#[trigger] occurs_at(h, n, j)
}

/// Number of non-overlapping occurrences of a non-empty `n` in `h`, taken
/// from the left.
pub open spec fn match_count(h: Seq<u8>, n: Seq<u8>) -> nat
    decreases h.len(),
{
    if n.len() > 0 && exists|i: int| first_occurrence(h, n, i) {
        let p = choose|i: int| first_occurrence(h, n, i);
        1 + match_count(h.subrange(p + n.len(), h.len() as int), n)
    } else {
        0
    }
}

/// The lower-case form of `s` under the full Unicode case mapping, as
/// `str::to_lowercase` computes it.
pub uninterp spec fn unicode_lower(s: Seq<char>) -> Seq<char>;

/// Calls `str::to_lowercase`; its result, a function of `s` alone, is named
/// `unicode_lower`.
#[verifier::external_body]
pub(crate) fn lowercase(s: &str) -> (r: String)
    ensures
        r@ == unicode_lower(s@),
{
    s.to_lowercase()
}

/// Calls `str::find` with a string pattern, which gives the byte offset of
/// the first occurrence of `needle` in `hay`, or none.
#[verifier::external_body]
fn find_str(hay: &str, needle: &str) -> (r: Option<usize>)
    ensures
        r matches Some(p) ==> first_occurrence(hay.spec_bytes(), needle.spec_bytes(), p as int),
        r is None ==> forall|i: int| !#[trigger] occurs_at(hay.spec_bytes(), needle.spec_bytes(), i),
{
    hay.find(needle)
}

/// Calls `str::matches(..).count()` with a non-empty string pattern: the
/// number of disjoint matches, found from the left.
#[verifier::external_body]
fn count_matches(hay: &str, needle: &str) -> (r: usize)
    requires
        needle@.len() > 0,
    ensures
        r == match_count(hay.spec_bytes(), needle.spec_bytes()),
{
    hay.matches(needle).count()
}

// ---- snippets ------------------------------------------------------------------------

/// Start of the snippet window around a match at `p`: 40 bytes before it.
pub open spec fn window_start(p: int) -> int {
    if p >= 40 {
        p - 40
    } else {
        0
    }
}

/// End of the snippet window: 40 bytes after the match, within the text.
pub open spec fn window_end(p: int, qlen: int, tlen: int) -> int {
    if p + qlen + 40 < tlen {
        p + qlen + 40
    } else {
        tlen
    }
}

/// Whether the window around a match at `p` can be cut from the text with
/// bytes `tb`: it is not reversed and both ends are character boundaries.
pub open spec fn window_fits(tb: Seq<u8>, p: int, qlen: int) -> bool {
    let s = window_start(p);
    let e = window_end(p, qlen, tb.len() as int);
    s <= e && is_char_boundary(tb, s) && is_char_boundary(tb, e)
}

/// `s` with every white-space character replaced by a space.
pub open spec fn blank_ws(s: Seq<char>) -> Seq<char> {
    s.map_values(|c: char| if is_unicode_whitespace(c) { ' ' } else { c })
}

/// The snippet for a match at `p`: the window's text with white space
/// blanked and trimmed, prefixed with `...` when the window does not start
/// the text.
pub open spec fn snippet_text(tb: Seq<u8>, p: int, qlen: int) -> Seq<char> {
    let s = window_start(p);
    let e = window_end(p, qlen, tb.len() as int);
    let clean = trim_spec(blank_ws(decode_utf8(tb.subrange(s, e))));
    if s > 0 {
        "..."@ + clean
    } else {
        clean
    }
}

/// A boundary of a byte sequence before `end` stays one in its prefix up to
/// `end`, when `end` is a boundary too.
proof fn lemma_boundary_in_prefix(b: Seq<u8>, s: int, end: int)
    requires
        vstd::utf8::valid_utf8(b),
        0 <= s <= end <= b.len(),
        is_char_boundary(b, s),
        is_char_boundary(b, end),
    ensures
        vstd::utf8::valid_utf8(b.subrange(0, end)),
        is_char_boundary(b.subrange(0, end), s),
{
    let pre = b.subrange(0, end);
    vstd::utf8::valid_utf8_split(b, end);
    if s < end {
        vstd::utf8::is_char_boundary_iff_not_is_continuation_byte(b, s);
        vstd::utf8::is_char_boundary_iff_not_is_continuation_byte(pre, s);
        assert(pre[s] == b[s]);
    } else {
        vstd::utf8::is_char_boundary_start_end_of_seq(pre);
    }
}

/// The text of `text` between two character boundaries.
fn cut(text: &str, s: usize, e: usize) -> (r: &str)
    requires
        s <= e <= text.spec_bytes().len(),
        is_char_boundary(text.spec_bytes(), s as int),
        is_char_boundary(text.spec_bytes(), e as int),
    ensures
        r@ == decode_utf8(text.spec_bytes().subrange(s as int, e as int)),
{
    proof {
        lemma_boundary_in_prefix(text.spec_bytes(), s as int, e as int);
    }
    let (head, _) = text.split_at(e);
    let (_, raw) = head.split_at(s);
    assert(raw.spec_bytes() =~= text.spec_bytes().subrange(s as int, e as int));
    raw
}

/// `t` with every white-space character replaced by a space.
fn blank_white_space(t: &str) -> (r: String)
    ensures
        r@ == blank_ws(t@),
{
    let v = chars_of(t);
    let mut w: Vec<char> = Vec::new();
    let n = v.len();
    for i in 0..n
        invariant
            n == v@.len(),
            v@ == t@,
            w@ == blank_ws(v@.take(i as int)),
    {
        let c = v[i];
        let d = if char_is_whitespace(c) { ' ' } else { c };
        w.push(d);
        assert(blank_ws(v@.take(i + 1)) =~= blank_ws(v@.take(i as int)).push(d));
    }
    assert(v@.take(n as int) == v@);
    string_of(&w)
}

/// Whether `q` occurs nowhere in `h`.
pub open spec fn no_occurrence(h: Seq<u8>, q: Seq<u8>) -> bool {
    forall|i: int| !#[trigger] occurs_at(h, q, i)
}

/// The snippet around the first match of `query_lower` in `text_lower`, cut
/// from `text` (the text before lower-casing). `None` when the window around the
/// match cannot be cut from `text` on character boundaries.
pub fn snippet_checked(text: &str, text_lower: &str, query_lower: &str) -> (r: Option<String>)
    ensures
        no_occurrence(text_lower.spec_bytes(), query_lower.spec_bytes()) ==> (r matches Some(x) && x@
            == Seq::<char>::empty()),
        r is None ==> exists|p: int|
            first_occurrence(text_lower.spec_bytes(), query_lower.spec_bytes(), p) && !window_fits(
                text.spec_bytes(),
                p,
                query_lower.spec_bytes().len() as int,
            ),
        forall|p: int|
            first_occurrence(text_lower.spec_bytes(), query_lower.spec_bytes(), p) ==> {
                &&& (r is Some <==> window_fits(text.spec_bytes(), p, query_lower.spec_bytes().len() as int))
                &&& (r matches Some(x) ==> x@ == snippet_text(
                    text.spec_bytes(),
                    p,
                    query_lower.spec_bytes().len() as int,
                ))
            },
{
    match find_str(text_lower, query_lower) {
        None => Some(String::new()),
        Some(pos) => {
            proof {
                assert forall|p: int|
                    first_occurrence(text_lower.spec_bytes(), query_lower.spec_bytes(), p) implies p == pos by {
                    if p < pos {
                        assert(!occurs_at(text_lower.spec_bytes(), query_lower.spec_bytes(), p));
                    } else if p > pos {
                        assert(!occurs_at(text_lower.spec_bytes(), query_lower.spec_bytes(), pos as int));
                    }
                }
            }
            let start = if pos >= 40 { pos - 40 } else { 0 };
            let qlen = query_lower.as_bytes().len();
            let tlen = text.as_bytes().len();
            let hlen = text_lower.as_bytes().len();
            let reach = (pos + qlen).saturating_add(40);
            let end = if reach < tlen { reach } else { tlen };
            if start > end || !text.is_char_boundary(start) || !text.is_char_boundary(end) {
                assert(!window_fits(text.spec_bytes(), pos as int, query_lower.spec_bytes().len() as int));
                return None;
            }
            let raw = cut(text, start, end);
            let blanked = blank_white_space(raw);
            let clean = trim(blanked.as_str());
            if start > 0 {
                let mut out = String::new();
                push_str(&mut out, "...");
                push_str(&mut out, clean.as_str());
                Some(out)
            } else {
                Some(clean)
            }
        },
    }
}

/// The snippet around the first match of `query_lower` in `text_lower`, cut
/// from `text`: up to 40 bytes either side of the match, white space
/// blanked and trimmed, `...` in front when the text goes on before it.
/// Empty when there is no match.
pub fn build_snippet(text: &str, text_lower: &str, query_lower: &str) -> (r: String)
    requires
        forall|p: int|
            first_occurrence(text_lower.spec_bytes(), query_lower.spec_bytes(), p) ==> window_fits(
                text.spec_bytes(),
                p,
                query_lower.spec_bytes().len() as int,
            ),
    ensures
        no_occurrence(text_lower.spec_bytes(), query_lower.spec_bytes()) ==> r@ == Seq::<char>::empty(),
        forall|p: int|
            first_occurrence(text_lower.spec_bytes(), query_lower.spec_bytes(), p) ==> r@ == snippet_text(
                text.spec_bytes(),
                p,
                query_lower.spec_bytes().len() as int,
            ),
{
    match snippet_checked(text, text_lower, query_lower) {
        Some(s) => s,
        None => {
            proof {
                let p = choose|p: int| first_occurrence(text_lower.spec_bytes(), query_lower.spec_bytes(), p)
                    && !window_fits(text.spec_bytes(), p, query_lower.spec_bytes().len() as int);
                assert(false);
            }
            String::new()
        },
    }
}

// ---- searching pages ----------------------------------------------------------------

/// A hit as values: page index, snippet, match count.
pub open spec fn hit_view(r: SearchResult) -> (int, Seq<char>, nat) {
    (r.page_index as int, r.snippet@, r.match_count as nat)
}

/// What the search finds on page `i` with text `t`, for the lower-cased
/// query `ql`: `Some(None)` when the query does not occur, `None` when the
/// snippet window cannot be cut from the page text.
pub open spec fn page_hit(i: int, t: Seq<char>, ql: Seq<char>) -> Option<Option<(int, Seq<char>, nat)>> {
    let tb = encode_utf8(t);
    let lb = encode_utf8(unicode_lower(t));
    let qb = encode_utf8(ql);
    let c = match_count(lb, qb);
    if c == 0 {
        Some(None)
    } else {
        let p = choose|p: int| first_occurrence(lb, qb, p);
        if window_fits(tb, p, qb.len() as int) {
            Some(Some((i, snippet_text(tb, p, qb.len() as int), c)))
        } else {
            None
        }
    }
}

/// The hits over all pages, in page order; pages without text are skipped.
/// `None` when some page's snippet cannot be cut.
pub open spec fn search_hits(texts: Seq<Option<Seq<char>>>, ql: Seq<char>) -> Option<Seq<(int, Seq<char>, nat)>>
    decreases texts.len(),
{
    if texts.len() == 0 {
        Some(Seq::empty())
    } else {
        match search_hits(texts.drop_last(), ql) {
            None => None,
            Some(hs) => match texts.last() {
                None => Some(hs),
                Some(t) => match page_hit(texts.len() - 1, t, ql) {
                    None => None,
                    Some(None) => Some(hs),
                    Some(Some(h)) => Some(hs.push(h)),
                },
            },
        }
    }
}

/// The page texts as values.
pub open spec fn texts_view(ts: Seq<Option<String>>) -> Seq<Option<Seq<char>>> {
    ts.map_values(|t: Option<String>| crate::report::opt_text(t))
}

/// The message of a search whose snippet would split a character.
pub open spec fn split_character_message() -> Seq<char> {
    "snippet window is not on a character boundary"@
}

/// Search the page texts (`None` for a page without extractable text) for
/// `query`, ignoring case. A blank query finds nothing. Each page where the
/// query occurs gives its index, the number of matches and a snippet
/// around the first one. The error is the case where the snippet window
/// would cut a character of the page text in two.
pub fn search_pages(query: &str, texts: &Vec<Option<String>>) -> (r: Result<Vec<SearchResult>, String>)
    ensures
        all_ws(query@) ==> (r matches Ok(v) && v@.len() == 0),
        !all_ws(query@) ==> match search_hits(texts_view(texts@), unicode_lower(query@)) {
            None => r matches Err(e) && e@ == split_character_message(),
            Some(hs) => r matches Ok(v) && v@.map_values(|x: SearchResult| hit_view(x)) == hs,
        },
{
    let mut out: Vec<SearchResult> = Vec::new();
    if is_blank(query) {
        return Ok(out);
    }
    let ql = lowercase(query);
    let ghost tv = texts_view(texts@);
    let n = texts.len();
    for i in 0..n
        invariant
            n == texts@.len(),
            tv == texts_view(texts@),
            ql@ == unicode_lower(query@),
            !all_ws(query@),
            search_hits(tv.take(i as int), ql@) == Some(out@.map_values(|x: SearchResult| hit_view(x))),
    {
        assert(tv.take(i + 1).drop_last() == tv.take(i as int));
        assert(tv.take(i + 1).last() == crate::report::opt_text(texts@[i as int]));
        match &texts[i] {
            None => {},
            Some(t) => {
                let tl = lowercase(t.as_str());
                let c = if ql.as_str().is_empty() {
                    0
                } else {
                    count_matches(tl.as_str(), ql.as_str())
                };
                if c > 0 {
                    match snippet_checked(t.as_str(), tl.as_str(), ql.as_str()) {
                        None => {
                            proof {
                                lemma_hits_fail_sticks(tv, i as int + 1, ql@);
                                assert(tv.take(n as int) == tv);
                            }
                            return Err(String::from_str("snippet window is not on a character boundary"));
                        },
                        Some(snippet) => {
                            let ghost before = out@;
                            out.push(SearchResult { page_index: i, snippet, match_count: c });
                            assert(out@.map_values(|x: SearchResult| hit_view(x)) =~= before.map_values(
                                |x: SearchResult| hit_view(x),
                            ).push(hit_view(out@.last())));
                        },
                    }
                }
            },
        }
    }
    assert(tv.take(n as int) == tv);
    Ok(out)
}

/// Once the search fails on a prefix of the pages it fails on all of them.
proof fn lemma_hits_fail_sticks(ts: Seq<Option<Seq<char>>>, k: int, ql: Seq<char>)
    requires
        0 <= k <= ts.len(),
        search_hits(ts.take(k), ql) is None,
    ensures
        search_hits(ts, ql) is None,
    decreases ts.len() - k,
{
    if k == ts.len() {
        assert(ts.take(k) == ts);
    } else {
        assert(ts.take(k + 1).drop_last() == ts.take(k));
        lemma_hits_fail_sticks(ts, k + 1, ql);
    }
}

} // verus!
