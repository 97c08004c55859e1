//! Decisions of an evaluation run: which cases and modes run, and what its
//! errors say. Reading the corpus and comparing documents is the caller's
//! part.

use vstd::prelude::*;
use crate::report::{mode_name, DiffMode};
use crate::strings::push_str;

verus! {

/// Whether `filter` names `name`.
pub open spec fn named_in(filter: Seq<Seq<char>>, name: Seq<char>) -> bool {
    exists|k: int| 0 <= k < filter.len() && filter[k] == name
}

/// The indices of the cases that run: all of them without a filter, else
/// those whose name the filter holds, in order.
pub open spec fn selected(names: Seq<Seq<char>>, filter: Seq<Seq<char>>) -> Seq<int>
    decreases names.len(),
{
    if names.len() == 0 {
        Seq::empty()
    } else {
        selected(names.drop_last(), filter) + if filter.len() == 0 || named_in(filter, names.last()) {
            seq![names.len() - 1]
        } else {
            Seq::empty()
        }
    }
}

/// Texts as values.
pub open spec fn texts(v: Seq<String>) -> Seq<Seq<char>> {
    v.map_values(|s: String| s@)
}

fn is_named(filter: &Vec<String>, name: &String) -> (b: bool)
    ensures
        b == named_in(texts(filter@), name@),
{
    let n = filter.len();
    for k in 0..n
        invariant
            n == filter@.len(),
            forall|q: int| 0 <= q < k ==> texts(filter@)[q] != name@,
    {
        if filter[k] == *name {
            assert(texts(filter@)[k as int] == name@);
            return true;
        }
    }
    false
}

/// The indices of the cases to run, given the case names and the filter.
pub fn select_cases(names: &Vec<String>, filter: &Vec<String>) -> (sel: Vec<usize>)
    ensures
        sel@.map_values(|i: usize| i as int) == selected(texts(names@), texts(filter@)),
{
    let mut sel: Vec<usize> = Vec::new();
    let n = names.len();
    for i in 0..n
        invariant
            n == names@.len(),
            sel@.map_values(|i: usize| i as int) == selected(texts(names@.take(i as int)), texts(filter@)),
    {
        assert(texts(names@.take(i + 1)).drop_last() == texts(names@.take(i as int)));
        assert(texts(names@.take(i + 1)).last() == names@[i as int]@);
        let keep = filter.len() == 0 || is_named(filter, &names[i]);
        if keep {
            sel.push(i);
        }
        assert(sel@.map_values(|i: usize| i as int) =~= selected(texts(names@.take(i + 1)), texts(filter@)));
    }
    assert(names@.take(n as int) == names@);
    sel
}

/// The modes to run: those asked for, or all three in the order text,
/// visual, hybrid.
pub fn eval_modes(modes: &Vec<DiffMode>) -> (r: Vec<DiffMode>)
    ensures
        r@ == (if modes@.len() == 0 { seq![DiffMode::Text, DiffMode::Visual, DiffMode::Hybrid] } else { modes@ }),
{
    if modes.len() == 0 {
        let r = vec![DiffMode::Text, DiffMode::Visual, DiffMode::Hybrid];
        assert(r@ =~= seq![DiffMode::Text, DiffMode::Visual, DiffMode::Hybrid]);
        r
    } else {
        modes.clone()
    }
}

/// The runs of an evaluation, case-major: for each selected case in order,
/// one run per mode in order.
pub open spec fn plan_spec(cases: Seq<usize>, modes: Seq<DiffMode>) -> Seq<(usize, DiffMode)>
    decreases cases.len(),
{
    if cases.len() == 0 {
        Seq::empty()
    } else {
        plan_spec(cases.drop_last(), modes) + modes.map_values(|m: DiffMode| (cases.last(), m))
    }
}

proof fn lemma_case_major_index(i: int, j: int, m: int, n: int)
    requires
        0 <= i < n,
        0 <= j < m,
    ensures
        0 <= i * m + j < n * m,
        i < n - 1 ==> i * m + j < (n - 1) * m,
        i == n - 1 ==> i * m + j - (n - 1) * m == j,
{
    assert(0 <= i * m) by (nonlinear_arith)
        requires
            0 <= i,
            0 <= m,
    ;
    assert(i * m + j < n * m) by (nonlinear_arith)
        requires
            0 <= i < n,
            0 <= j < m,
    ;
    assert(i < n - 1 ==> i * m + j < (n - 1) * m) by (nonlinear_arith)
        requires
            0 <= i,
            0 <= j < m,
    ;
}

/// The runs of an evaluation are case-major: there is one per case and mode,
/// and run `i * modes.len() + j` runs case `cases[i]` in mode `modes[j]`.
pub proof fn law_plan_is_case_major(cases: Seq<usize>, modes: Seq<DiffMode>)
    ensures
        plan_spec(cases, modes).len() == cases.len() * modes.len(),
        forall|i: int, j: int|
            0 <= i < cases.len() && 0 <= j < modes.len() ==> #[trigger] plan_spec(cases, modes)[i * modes.len() + j]
                == (cases[i], modes[j]),
    decreases cases.len(),
{
    let n = cases.len() as int;
    let m = modes.len() as int;
    if n > 0 {
        let pre = cases.drop_last();
        law_plan_is_case_major(pre, modes);
        assert((n - 1) * m + m == n * m) by (nonlinear_arith);
        let p = plan_spec(cases, modes);
        let q = plan_spec(pre, modes);
        assert(p == q + modes.map_values(|md: DiffMode| (cases.last(), md)));
        assert forall|i: int, j: int| 0 <= i < n && 0 <= j < m implies #[trigger] p[i * m + j] == (cases[i], modes[j]) by {
            lemma_case_major_index(i, j, m, n);
            if i < n - 1 {
                assert(pre[i] == cases[i]);
                assert(q[i * m + j] == (pre[i], modes[j]));
            } else {
                assert(p[i * m + j] == modes.map_values(|md: DiffMode| (cases.last(), md))[j]);
            }
        }
    }
}

/// The (case, mode) runs of an evaluation, in the order they are run.
pub fn eval_plan(cases: &Vec<usize>, modes: &Vec<DiffMode>) -> (plan: Vec<(usize, DiffMode)>)
    ensures
        plan@ == plan_spec(cases@, modes@),
{
    let mut plan: Vec<(usize, DiffMode)> = Vec::new();
    let n = cases.len();
    let m = modes.len();
    for i in 0..n
        invariant
            n == cases@.len(),
            m == modes@.len(),
            plan@ == plan_spec(cases@.take(i as int), modes@),
    {
        let c = cases[i];
        assert(cases@.take(i + 1).drop_last() == cases@.take(i as int));
        assert(cases@.take(i + 1).last() == c);
        let ghost base = plan@;
        for j in 0..m
            invariant
                m == modes@.len(),
                plan@ == base + modes@.take(j as int).map_values(|md: DiffMode| (c, md)),
        {
            let md = modes[j];
            plan.push((c, md));
            assert(modes@.take(j + 1).map_values(|x: DiffMode| (c, x))
                =~= modes@.take(j as int).map_values(|x: DiffMode| (c, x)).push((c, md)));
        }
        assert(modes@.take(m as int) == modes@);
        assert(plan@ =~= plan_spec(cases@.take(i + 1), modes@));
    }
    assert(cases@.take(n as int) == cases@);
    plan
}

/// The names joined with `, `.
pub open spec fn joined(v: Seq<Seq<char>>) -> Seq<char>
    decreases v.len(),
{
    if v.len() == 0 {
        Seq::empty()
    } else if v.len() == 1 {
        v[0]
    } else {
        joined(v.drop_last()) + ", "@ + v.last()
    }
}

/// The error of a run that found no case.
pub open spec fn no_cases_text(corpus: Seq<char>, filter: Seq<Seq<char>>) -> Seq<char> {
    "no cases found in '"@ + corpus + "'"@ + (if filter.len() == 0 {
        Seq::empty()
    } else {
        " (filter: "@ + joined(filter) + ")"@
    }) + " — run `gen` to create the corpus"@
}

/// The error of a run that found no case in `corpus` (shown as given).
pub fn no_cases_message(corpus: &str, filter: &Vec<String>) -> (m: String)
    ensures
        m@ == no_cases_text(corpus@, texts(filter@)),
{
    let mut m = String::new();
    push_str(&mut m, "no cases found in '");
    push_str(&mut m, corpus);
    push_str(&mut m, "'");
    let n = filter.len();
    if n > 0 {
        push_str(&mut m, " (filter: ");
        let ghost base = m@;
        for k in 0..n
            invariant
                n == filter@.len(),
                n > 0,
                m@ == base + joined(texts(filter@).take(k as int)),
        {
            assert(texts(filter@).take(k + 1).drop_last() == texts(filter@).take(k as int));
            assert(texts(filter@).take(k + 1).last() == filter@[k as int]@);
            if k > 0 {
                push_str(&mut m, ", ");
            }
            push_str(&mut m, filter[k].as_str());
            proof {
                if k == 0 {
                    assert(texts(filter@).take(1)[0] == filter@[0]@);
                }
            }
            assert(m@ =~= base + joined(texts(filter@).take(k + 1)));
        }
        assert(texts(filter@).take(n as int) == texts(filter@));
        push_str(&mut m, ")");
    }
    push_str(&mut m, " — run `gen` to create the corpus");
    assert(m@ =~= no_cases_text(corpus@, texts(filter@)));
    m
}

/// The error of a comparison that failed during an evaluation.
pub fn case_failure_message(case: &str, mode: DiffMode, err: &str) -> (m: String)
    ensures
        m@ == "Case '"@ + case@ + "' mode '"@ + mode_name(mode) + "' failed: "@ + err@,
{
    let mut m = String::new();
    push_str(&mut m, "Case '");
    push_str(&mut m, case);
    push_str(&mut m, "' mode '");
    push_str(&mut m, mode.as_str());
    push_str(&mut m, "' failed: ");
    push_str(&mut m, err);
    m
}

} // verus!
