//! Pairing the text lines of two pages for alignment: a line of the old page
//! is paired with every line of the new page that reads the same once white
//! space is collapsed and case is folded. The offsets between paired lines,
//! and their medians, are floating-point work done by the caller.

use vstd::prelude::*;
use crate::search::{lowercase, unicode_lower};
use crate::strings::{norm, norm_spec};

verus! {

/// The comparison key of a line's text: collapsed white space, lower case.
pub open spec fn line_key(t: Seq<char>) -> Seq<char> {
    unicode_lower(norm_spec(t))
}

/// The pairs `(i, j)` for old key `k` at index `i`, one per new key equal
/// to it, in order of `j`; none when `k` is empty.
pub open spec fn row_pairs(i: int, k: Seq<char>, nk: Seq<Seq<char>>) -> Seq<(int, int)>
    decreases nk.len(),
{
    if nk.len() == 0 || k.len() == 0 {
        Seq::empty()
    } else {
        row_pairs(i, k, nk.drop_last()) + if nk.last() == k { seq![(i, nk.len() - 1)] } else { Seq::empty() }
    }
}

/// All pairs of equal non-empty keys, old index major, new index minor.
pub open spec fn key_pairs(ok: Seq<Seq<char>>, nk: Seq<Seq<char>>) -> Seq<(int, int)>
    decreases ok.len(),
{
    if ok.len() == 0 {
        Seq::empty()
    } else {
        key_pairs(ok.drop_last(), nk) + row_pairs(ok.len() - 1, ok.last(), nk)
    }
}

/// The keys of a sequence of texts.
pub open spec fn keys_of(ts: Seq<String>) -> Seq<Seq<char>> {
    ts.map_values(|t: String| line_key(t@))
}

fn keys(texts: &Vec<String>) -> (k: Vec<String>)
    ensures
        k@.map_values(|s: String| s@) == keys_of(texts@),
{
    let mut k: Vec<String> = Vec::new();
    let n = texts.len();
    for i in 0..n
        invariant
            n == texts@.len(),
            k@.map_values(|s: String| s@) == keys_of(texts@).take(i as int),
    {
        let key = lowercase(norm(texts[i].as_str()).as_str());
        let ghost before = k@;
        k.push(key);
        assert(k@.map_values(|s: String| s@) =~= before.map_values(|s: String| s@).push(key@));
        assert(keys_of(texts@).take(i + 1) =~= keys_of(texts@).take(i as int).push(line_key(texts@[i as int]@)));
    }
    assert(keys_of(texts@).take(n as int) =~= keys_of(texts@));
    k
}

/// Pair old line `i` (text `old_texts[i]`) with new line `j` whenever their
/// keys are equal and not empty; old index major, new index minor.
pub fn matching_line_pairs(old_texts: &Vec<String>, new_texts: &Vec<String>) -> (pairs: Vec<(usize, usize)>)
    ensures
        pairs@.map_values(|p: (usize, usize)| (p.0 as int, p.1 as int)) == key_pairs(
            keys_of(old_texts@),
            keys_of(new_texts@),
        ),
{
    let ok = keys(old_texts);
    let nk = keys(new_texts);
    let ghost okv = keys_of(old_texts@);
    let ghost nkv = keys_of(new_texts@);
    let mut pairs: Vec<(usize, usize)> = Vec::new();
    let n = ok.len();
    let m = nk.len();
    assert(okv.len() == n && nkv.len() == m);
    for i in 0..n
        invariant
            n == ok@.len(),
            m == nk@.len(),
            ok@.map_values(|s: String| s@) == okv,
            nk@.map_values(|s: String| s@) == nkv,
            okv.len() == n,
            nkv.len() == m,
            pairs@.map_values(|p: (usize, usize)| (p.0 as int, p.1 as int)) == key_pairs(okv.take(i as int), nkv),
    {
        let ghost base = pairs@.map_values(|p: (usize, usize)| (p.0 as int, p.1 as int));
        assert(okv.take(i + 1).drop_last() == okv.take(i as int));
        assert(okv.take(i + 1).last() == ok@[i as int]@);
        let empty = ok[i].as_str().is_empty();
        if empty {
            assert(ok@[i as int]@.len() == 0);
            assert(row_pairs(i as int, ok@[i as int]@, nkv) =~= Seq::<(int, int)>::empty());
        } else {
            for j in 0..m
                invariant
                    n == ok@.len(),
                    m == nk@.len(),
                    i < n,
                    ok@.map_values(|s: String| s@) == okv,
                    nk@.map_values(|s: String| s@) == nkv,
                    okv.len() == n,
                    nkv.len() == m,
                    ok@[i as int]@.len() > 0,
                    pairs@.map_values(|p: (usize, usize)| (p.0 as int, p.1 as int)) == base + row_pairs(
                        i as int,
                        ok@[i as int]@,
                        nkv.take(j as int),
                    ),
            {
                assert(nkv.take(j + 1).drop_last() == nkv.take(j as int));
                assert(nkv.take(j + 1).last() == nk@[j as int]@);
                let ghost before = pairs@;
                if nk[j] == ok[i] {
                    pairs.push((i, j));
                    assert(pairs@.map_values(|p: (usize, usize)| (p.0 as int, p.1 as int))
                        =~= before.map_values(|p: (usize, usize)| (p.0 as int, p.1 as int)).push((i as int, j as int)));
                }
                assert(pairs@.map_values(|p: (usize, usize)| (p.0 as int, p.1 as int)) =~= base + row_pairs(
                    i as int,
                    ok@[i as int]@,
                    nkv.take(j + 1),
                ));
            }
            assert(nkv.take(m as int) == nkv);
        }
        assert(key_pairs(okv.take(i + 1), nkv) == key_pairs(okv.take(i as int), nkv) + row_pairs(
            i as int,
            ok@[i as int]@,
            nkv,
        ));
    }
    assert(okv.take(n as int) == okv);
    pairs
}

} // verus!
