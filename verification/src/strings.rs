//! Character-level text helpers: white space, trimming, normalisation,
//! ASCII lower-casing and decimal rendering.

use vstd::prelude::*;

verus! {

/// Whether a character is white space: it carries the Unicode `White_Space`
/// property, which `char::is_whitespace` tests. Those are tab, line feed,
/// vertical tab, form feed, carriage return, space, next line, no-break
/// space, the Ogham space mark, the spaces from en quad to hair space, the
/// line and paragraph separators, the narrow no-break space, the medium
/// mathematical space and the ideographic space.
pub open spec fn is_unicode_whitespace(c: char) -> bool {
    ||| ('\u{9}' <= c && c <= '\u{d}')
    ||| c == ' '
    ||| c == '\u{85}'
    ||| c == '\u{a0}'
    ||| c == '\u{1680}'
    ||| ('\u{2000}' <= c && c <= '\u{200a}')
    ||| c == '\u{2028}'
    ||| c == '\u{2029}'
    ||| c == '\u{202f}'
    ||| c == '\u{205f}'
    ||| c == '\u{3000}'
}

/// Whether `c` is white space.
pub fn char_is_whitespace(c: char) -> (b: bool)
    ensures
        b == is_unicode_whitespace(c),
{
    ('\u{9}' <= c && c <= '\u{d}') || c == ' ' || c == '\u{85}' || c == '\u{a0}' || c == '\u{1680}'
        || ('\u{2000}' <= c && c <= '\u{200a}') || c == '\u{2028}' || c == '\u{2029}' || c == '\u{202f}'
        || c == '\u{205f}' || c == '\u{3000}'
}

/// Calls `String::push`, which appends one character at the end.
#[verifier::external_body]
pub fn push_char(s: &mut String, c: char)
    ensures
        final(s)@ == old(s)@.push(c),
{
    s.push(c)
}

/// Append `t` to `s`.
pub fn push_str(s: &mut String, t: &str)
    ensures
        final(s)@ == old(s)@ + t@,
{
    s.append(t);
}

/// The characters of `s`, in order.
pub fn chars_of(s: &str) -> (v: Vec<char>)
    ensures
        v@ == s@,
{
    let len = s.unicode_len();
    let mut v: Vec<char> = Vec::new();
    for c in it: s.chars()
        invariant
            v@ == it.seq().take(it.index() as int),
            it.seq() == s@,
            len == s@.len(),
    {
        v.push(c);
    }
    v
}

/// A string made of the characters of `v`.
pub fn string_of(v: &Vec<char>) -> (s: String)
    ensures
        s@ == v@,
{
    let mut s = String::new();
    let n = v.len();
    for i in 0..n
        invariant
            n == v@.len(),
            s@ == v@.take(i as int),
    {
        push_char(&mut s, v[i]);
        assert(v@.take(i + 1) == v@.take(i as int).push(v@[i as int]));
    }
    assert(v@.take(n as int) == v@);
    s
}

/// Number of leading white-space characters of `s`.
pub open spec fn lead_ws(s: Seq<char>) -> nat
    decreases s.len(),
{
    if s.len() > 0 && is_unicode_whitespace(s[0]) {
        1 + lead_ws(s.drop_first())
    } else {
        0
    }
}

/// Number of trailing white-space characters of `s`.
pub open spec fn trail_ws(s: Seq<char>) -> nat
    decreases s.len(),
{
    if s.len() > 0 && is_unicode_whitespace(s.last()) {
        1 + trail_ws(s.drop_last())
    } else {
        0
    }
}

/// Whether every character of `s` is white space.
pub open spec fn all_ws(s: Seq<char>) -> bool {
    forall|i: int| 0 <= i < s.len() ==> is_unicode_whitespace(#[trigger] s[i])
}

/// `s` without its leading and trailing white space (what `str::trim` gives).
pub open spec fn trim_spec(s: Seq<char>) -> Seq<char> {
    if all_ws(s) {
        Seq::empty()
    } else {
        s.subrange(lead_ws(s) as int, s.len() - trail_ws(s))
    }
}

proof fn lemma_lead_ws(s: Seq<char>)
    ensures
        lead_ws(s) <= s.len(),
        forall|i: int| 0 <= i < lead_ws(s) ==> is_unicode_whitespace(#[trigger] s[i]),
        lead_ws(s) < s.len() ==> !is_unicode_whitespace(s[lead_ws(s) as int]),
    decreases s.len(),
{
    if s.len() > 0 && is_unicode_whitespace(s[0]) {
        lemma_lead_ws(s.drop_first());
        assert forall|i: int| 0 <= i < lead_ws(s) implies is_unicode_whitespace(#[trigger] s[i]) by {
            if i > 0 {
                assert(s[i] == s.drop_first()[i - 1]);
            }
        }
    }
}

proof fn lemma_trail_ws(s: Seq<char>)
    ensures
        trail_ws(s) <= s.len(),
        forall|i: int| s.len() - trail_ws(s) <= i < s.len() ==> is_unicode_whitespace(#[trigger] s[i]),
        trail_ws(s) < s.len() ==> !is_unicode_whitespace(s[s.len() - trail_ws(s) - 1]),
    decreases s.len(),
{
    if s.len() > 0 && is_unicode_whitespace(s.last()) {
        lemma_trail_ws(s.drop_last());
        assert forall|i: int| s.len() - trail_ws(s) <= i < s.len() implies is_unicode_whitespace(#[trigger] s[i]) by {
            if i < s.len() - 1 {
                assert(s[i] == s.drop_last()[i]);
            }
        }
    }
}

/// Number of leading white-space characters of `v`, computed.
fn count_lead_ws(v: &Vec<char>) -> (n: usize)
    ensures
        n == lead_ws(v@),
{
    let mut i: usize = 0;
    proof { lemma_lead_ws(v@); }
    while i < v.len() && char_is_whitespace(v[i])
        invariant
            i <= v@.len(),
            i <= lead_ws(v@),
            lead_ws(v@) <= v@.len(),
            forall|k: int| 0 <= k < lead_ws(v@) ==> is_unicode_whitespace(#[trigger] v@[k]),
            lead_ws(v@) < v@.len() ==> !is_unicode_whitespace(v@[lead_ws(v@) as int]),
        decreases v.len() - i,
    {
        i = i + 1;
    }
    i
}

/// Number of trailing white-space characters of `v`, computed.
fn count_trail_ws(v: &Vec<char>) -> (n: usize)
    ensures
        n == trail_ws(v@),
{
    let mut i: usize = 0;
    proof { lemma_trail_ws(v@); }
    while i < v.len() && char_is_whitespace(v[v.len() - 1 - i])
        invariant
            i <= v@.len(),
            i <= trail_ws(v@),
            trail_ws(v@) <= v@.len(),
            forall|k: int| v@.len() - trail_ws(v@) <= k < v@.len() ==> is_unicode_whitespace(#[trigger] v@[k]),
            trail_ws(v@) < v@.len() ==> !is_unicode_whitespace(v@[v@.len() - trail_ws(v@) - 1]),
        decreases v.len() - i,
    {
        i = i + 1;
    }
    i
}

proof fn lemma_all_ws_lead(s: Seq<char>)
    ensures
        all_ws(s) <==> lead_ws(s) == s.len(),
{
    lemma_lead_ws(s);
}

/// `s` with leading and trailing white space removed, as `str::trim` does.
pub fn trim(s: &str) -> (r: String)
    ensures
        r@ == trim_spec(s@),
{
    let v = chars_of(s);
    let lead = count_lead_ws(&v);
    proof {
        lemma_all_ws_lead(v@);
        lemma_lead_ws(v@);
        lemma_trail_ws(v@);
    }
    if lead == v.len() {
        return String::new();
    }
    let trail = count_trail_ws(&v);
    let mut r = String::new();
    let end = v.len() - trail;
    let mut i = lead;
    while i < end
        invariant
            lead <= i <= end <= v@.len(),
            r@ == v@.subrange(lead as int, i as int),
        decreases end - i,
    {
        push_char(&mut r, v[i]);
        assert(v@.subrange(lead as int, i + 1) == v@.subrange(lead as int, i as int).push(v@[i as int]));
        i = i + 1;
    }
    r
}

/// Whether `s` is empty once trimmed, i.e. holds only white space.
pub fn is_blank(s: &str) -> (b: bool)
    ensures
        b == all_ws(s@),
        b == (trim_spec(s@).len() == 0),
{
    let v = chars_of(s);
    let lead = count_lead_ws(&v);
    proof {
        lemma_all_ws_lead(v@);
        lemma_lead_ws(v@);
        lemma_trail_ws(v@);
    }
    lead == v.len()
}

// ---- white-space normalisation ----------------------------------------------

/// State of the normalising scan: text so far, and whether a word has been
/// seen followed by white space not yet written out.
pub open spec fn norm_state(s: Seq<char>) -> (Seq<char>, bool)
    decreases s.len(),
{
    if s.len() == 0 {
        (Seq::empty(), false)
    } else {
        let (out, pending) = norm_state(s.drop_last());
        let c = s.last();
        if is_unicode_whitespace(c) {
            (out, out.len() > 0)
        } else if pending {
            (out.push(' ').push(c), false)
        } else {
            (out.push(c), false)
        }
    }
}

/// The words of `s` (maximal runs of non-white-space) joined by single
/// spaces: every run of white space collapses to one space, and leading and
/// trailing white space is dropped.
pub open spec fn norm_spec(s: Seq<char>) -> Seq<char> {
    norm_state(s).0
}

/// Collapse white space: the words of `s` joined with single spaces.
pub fn norm(s: &str) -> (r: String)
    ensures
        r@ == norm_spec(s@),
{
    let v = chars_of(s);
    let mut out = String::new();
    let mut pending = false;
    let mut has_out = false;
    let n = v.len();
    for i in 0..n
        invariant
            n == v@.len(),
            (out@, pending) == norm_state(v@.take(i as int)),
            has_out == (out@.len() > 0),
    {
        let c = v[i];
        assert(v@.take(i + 1).drop_last() == v@.take(i as int));
        if char_is_whitespace(c) {
            pending = has_out;
        } else {
            if pending {
                push_char(&mut out, ' ');
                pending = false;
            }
            push_char(&mut out, c);
            has_out = true;
        }
    }
    assert(v@.take(n as int) == v@);
    out
}

/// One step of the normalising scan from state `st` over character `c`.
pub open spec fn norm_step(st: (Seq<char>, bool), c: char) -> (Seq<char>, bool) {
    if is_unicode_whitespace(c) {
        (st.0, st.0.len() > 0)
    } else if st.1 {
        (st.0.push(' ').push(c), false)
    } else {
        (st.0.push(c), false)
    }
}

/// The normalising scan from state `st` over `s`.
pub open spec fn norm_run(st: (Seq<char>, bool), s: Seq<char>) -> (Seq<char>, bool)
    decreases s.len(),
{
    if s.len() == 0 {
        st
    } else {
        norm_step(norm_run(st, s.drop_last()), s.last())
    }
}

proof fn lemma_norm_state_run(s: Seq<char>)
    ensures
        norm_state(s) == norm_run((Seq::<char>::empty(), false), s),
    decreases s.len(),
{
    if s.len() > 0 {
        lemma_norm_state_run(s.drop_last());
    }
}

proof fn lemma_norm_run_concat(st: (Seq<char>, bool), a: Seq<char>, b: Seq<char>)
    ensures
        norm_run(st, a + b) == norm_run(norm_run(st, a), b),
    decreases b.len(),
{
    if b.len() > 0 {
        assert((a + b).drop_last() == a + b.drop_last());
        assert((a + b).last() == b.last());
        lemma_norm_run_concat(st, a, b.drop_last());
    } else {
        assert(a + b == a);
    }
}

proof fn lemma_norm_run_ws(st: (Seq<char>, bool), x: Seq<char>)
    requires
        x.len() > 0,
        all_ws(x),
    ensures
        norm_run(st, x) == (st.0, st.0.len() > 0),
    decreases x.len(),
{
    assert(is_unicode_whitespace(x[x.len() - 1]));
    assert(x.last() == x[x.len() - 1]);
    if x.len() == 1 {
        assert(x.drop_last().len() == 0);
        assert(norm_run(st, x.drop_last()) == st);
    } else {
        assert forall|i: int| 0 <= i < x.drop_last().len() implies is_unicode_whitespace(#[trigger] x.drop_last()[i]) by {
            assert(x.drop_last()[i] == x[i]);
        }
        lemma_norm_run_ws(st, x.drop_last());
    }
}

/// White space does not matter beyond separating words: leading and
/// trailing runs vanish, and any non-empty run of white space between two
/// parts can be replaced by any other.
pub proof fn law_norm_ignores_whitespace_runs(a: Seq<char>, x: Seq<char>, y: Seq<char>, b: Seq<char>)
    requires
        x.len() > 0,
        y.len() > 0,
        all_ws(x),
        all_ws(y),
    ensures
        norm_spec(a + x + b) == norm_spec(a + y + b),
        norm_spec(x + b) == norm_spec(b),
        norm_spec(a + x) == norm_spec(a),
{
    let init = (Seq::<char>::empty(), false);
    lemma_norm_state_run(a + x + b);
    lemma_norm_state_run(a + y + b);
    lemma_norm_state_run(x + b);
    lemma_norm_state_run(b);
    lemma_norm_state_run(a + x);
    lemma_norm_state_run(a);
    lemma_norm_run_concat(init, a + x, b);
    lemma_norm_run_concat(init, a + y, b);
    lemma_norm_run_concat(init, a, x);
    lemma_norm_run_concat(init, a, y);
    lemma_norm_run_ws(norm_run(init, a), x);
    lemma_norm_run_ws(norm_run(init, a), y);
    lemma_norm_run_concat(init, x, b);
    lemma_norm_run_ws(init, x);
}

proof fn lemma_norm_fixed(s: Seq<char>)
    ensures
        norm_state(s).1 ==> norm_state(s).0.len() > 0,
        norm_state(norm_spec(s)) == (norm_spec(s), false),
    decreases s.len(),
{
    if s.len() > 0 {
        let p = s.drop_last();
        lemma_norm_fixed(p);
        let (o, pending) = norm_state(p);
        let c = s.last();
        if !is_unicode_whitespace(c) {
            if pending {
                let o1 = o.push(' ');
                assert(o1.drop_last() == o);
                assert(o1.last() == ' ');
                assert(norm_state(o1) == (o, true));
                let o2 = o1.push(c);
                assert(o2.drop_last() == o1);
                assert(o2.last() == c);
            } else {
                let o1 = o.push(c);
                assert(o1.drop_last() == o);
                assert(o1.last() == c);
            }
        }
    }
}

/// The characters of `s` that are not white space, in order.
pub open spec fn visible_chars(s: Seq<char>) -> Seq<char>
    decreases s.len(),
{
    if s.len() == 0 {
        Seq::empty()
    } else if is_unicode_whitespace(s.last()) {
        visible_chars(s.drop_last())
    } else {
        visible_chars(s.drop_last()).push(s.last())
    }
}

/// Every white-space character of `r` is a single space with a
/// non-white-space character on either side: so `r` neither starts nor ends
/// with white space and holds no two white-space characters in a row.
pub open spec fn single_spaced(r: Seq<char>) -> bool {
    forall|i: int|
        0 <= i < r.len() && is_unicode_whitespace(#[trigger] r[i]) ==> {
            &&& r[i] == ' '
            &&& 0 < i < r.len() - 1
            &&& !is_unicode_whitespace(r[i - 1])
            &&& !is_unicode_whitespace(r[i + 1])
        }
}

proof fn lemma_norm_shape(s: Seq<char>)
    ensures
        norm_state(s).1 ==> norm_state(s).0.len() > 0,
        single_spaced(norm_state(s).0),
        visible_chars(norm_state(s).0) == visible_chars(s),
    decreases s.len(),
{
    if s.len() > 0 {
        let p = s.drop_last();
        lemma_norm_shape(p);
        let (o, pending) = norm_state(p);
        let c = s.last();
        if !is_unicode_whitespace(c) {
            if o.len() > 0 {
                assert(o.last() == o[o.len() - 1]);
                assert(!is_unicode_whitespace(o[o.len() - 1]));
            }
            if pending {
                let o1 = o.push(' ');
                let o2 = o1.push(c);
                assert(o1.drop_last() == o);
                assert(o2.drop_last() == o1);
                assert(is_unicode_whitespace(' '));
                assert(visible_chars(o1) == visible_chars(o));
                assert forall|i: int| 0 <= i < o2.len() && is_unicode_whitespace(#[trigger] o2[i]) implies {
                    &&& o2[i] == ' '
                    &&& 0 < i < o2.len() - 1
                    &&& !is_unicode_whitespace(o2[i - 1])
                    &&& !is_unicode_whitespace(o2[i + 1])
                } by {
                    if i < o.len() {
                        assert(o2[i] == o[i]);
                        assert(o2[i - 1] == o[i - 1]);
                        assert(o2[i + 1] == o[i + 1]);
                    } else if i == o.len() {
                        assert(o2[i - 1] == o[o.len() - 1]);
                        assert(o2[i + 1] == c);
                    } else {
                        assert(o2[i] == c);
                    }
                }
            } else {
                let o1 = o.push(c);
                assert(o1.drop_last() == o);
                assert forall|i: int| 0 <= i < o1.len() && is_unicode_whitespace(#[trigger] o1[i]) implies {
                    &&& o1[i] == ' '
                    &&& 0 < i < o1.len() - 1
                    &&& !is_unicode_whitespace(o1[i - 1])
                    &&& !is_unicode_whitespace(o1[i + 1])
                } by {
                    if i < o.len() {
                        assert(o1[i] == o[i]);
                        assert(o1[i - 1] == o[i - 1]);
                        assert(o1[i + 1] == o[i + 1]);
                    } else {
                        assert(o1[i] == c);
                    }
                }
            }
        }
    }
}

/// The shape of a normalised text: its white space is single spaces between
/// words only (none leading, trailing or doubled), and its other
/// characters are those of `s`, in order, unchanged.
pub proof fn law_norm_shape(s: Seq<char>)
    ensures
        single_spaced(norm_spec(s)),
        visible_chars(norm_spec(s)) == visible_chars(s),
{
    lemma_norm_shape(s);
}

/// Normalising twice gives what normalising once gives.
pub proof fn law_norm_idempotent(s: Seq<char>)
    ensures
        norm_spec(norm_spec(s)) == norm_spec(s),
{
    lemma_norm_fixed(s);
}

// ---- ASCII lower case ---------------------------------------------------------

/// `c` with `A`..`Z` mapped to `a`..`z`.
pub open spec fn ascii_lower_char(c: char) -> char {
    if 'A' <= c && c <= 'Z' {
        ((c as u32) + 32) as char
    } else {
        c
    }
}

/// `s` with ASCII upper-case letters lowered, as `str::to_ascii_lowercase` does.
pub open spec fn ascii_lower(s: Seq<char>) -> Seq<char> {
    s.map_values(|c: char| ascii_lower_char(c))
}

/// Lower-case the ASCII letters of `s`; other characters are kept.
pub fn to_ascii_lowercase(s: &str) -> (r: String)
    ensures
        r@ == ascii_lower(s@),
{
    let v = chars_of(s);
    let mut r = String::new();
    let n = v.len();
    for i in 0..n
        invariant
            n == v@.len(),
            r@ == ascii_lower(v@.take(i as int)),
    {
        let c = v[i];
        let lc = if 'A' <= c && c <= 'Z' {
            ((c as u8) + 32) as char
        } else {
            c
        };
        push_char(&mut r, lc);
        assert(ascii_lower(v@.take(i + 1)) == ascii_lower(v@.take(i as int)).push(ascii_lower_char(c)));
    }
    assert(v@.take(n as int) == v@);
    r
}

// ---- decimal rendering -------------------------------------------------------

/// The decimal digit character of `d` (`d < 10`).
pub open spec fn digit_char(d: nat) -> char {
    (('0' as u32) + d) as char
}

/// Decimal rendering of `n`, without leading zeros (`"0"` for zero).
pub open spec fn decimal(n: nat) -> Seq<char>
    decreases n,
{
    if n < 10 {
        seq![digit_char(n)]
    } else {
        decimal(n / 10).push(digit_char(n % 10))
    }
}

/// `decimal(n)` left-padded with zeros to at least `width` characters.
pub open spec fn padded(n: nat, width: nat) -> Seq<char> {
    let d = decimal(n);
    if d.len() >= width {
        d
    } else {
        Seq::new((width - d.len()) as nat, |i: int| '0') + d
    }
}

/// `10` to the power `k`.
pub open spec fn pow10(k: nat) -> nat
    decreases k,
{
    if k == 0 {
        1
    } else {
        10 * pow10((k - 1) as nat)
    }
}

proof fn lemma_decimal_len(n: nat, k: nat)
    requires
        k >= 1,
        n < pow10(k),
    ensures
        1 <= decimal(n).len() <= k,
    decreases n,
{
    if n >= 10 {
        assert(k >= 2) by {
            if k == 1 {
                assert(pow10(1) == 10) by { reveal_with_fuel(pow10, 2); }
            }
        }
        assert(n / 10 < pow10((k - 1) as nat));
        lemma_decimal_len(n / 10, (k - 1) as nat);
    }
}

/// `padded(n, w)` has exactly `w` characters when `n` has at most `w` digits.
pub proof fn lemma_padded_len(n: nat, w: nat)
    requires
        w >= 1,
        n < pow10(w),
    ensures
        padded(n, w).len() == w,
{
    lemma_decimal_len(n, w);
}

proof fn lemma_u64_digits(n: u64)
    ensures
        1 <= decimal(n as nat).len() <= 20,
{
    assert(pow10(20) == 100000000000000000000) by { reveal_with_fuel(pow10, 21); }
    lemma_decimal_len(n as nat, 20);
}

/// Append the decimal rendering of `n`.
pub fn push_decimal(s: &mut String, n: u64)
    ensures
        final(s)@ == old(s)@ + decimal(n as nat),
    decreases n,
{
    if n < 10 {
        push_char(s, ((n as u8) + 48) as char);
    } else {
        push_decimal(s, n / 10);
        push_char(s, (((n % 10) as u8) + 48) as char);
    }
}

/// Number of characters of the decimal rendering of `n`.
fn decimal_width(n: u64) -> (r: usize)
    ensures
        r == decimal(n as nat).len(),
    decreases n,
{
    proof { lemma_u64_digits(n); }
    if n < 10 {
        1
    } else {
        1 + decimal_width(n / 10)
    }
}

/// The decimal rendering of `n`.
pub fn decimal_string(n: u64) -> (r: String)
    ensures
        r@ == decimal(n as nat),
{
    let mut r = String::new();
    push_decimal(&mut r, n);
    r
}

/// Append the decimal rendering of `n`, zero-padded to `width` characters.
pub fn push_padded(s: &mut String, n: u64, width: usize)
    ensures
        final(s)@ == old(s)@ + padded(n as nat, width as nat),
{
    let w = decimal_width(n);
    let ghost start = s@;
    if w < width {
        let mut k = w;
        while k < width
            invariant
                w <= k <= width,
                s@ == start + Seq::new((k - w) as nat, |i: int| '0'),
            decreases width - k,
        {
            push_char(s, '0');
            assert(Seq::new((k + 1 - w) as nat, |i: int| '0') == Seq::new((k - w) as nat, |i: int| '0').push('0'));
            k = k + 1;
        }
    }
    push_decimal(s, n);
    assert(s@ == start + padded(n as nat, width as nat));
}

} // verus!
