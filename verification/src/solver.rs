//! Memory layout solver: the linear problems that size the maximized sections and place the
//! sections in the free regions, and how a solution is read back.
use crate::layout::{section_views, total_section_pages};
use crate::problem::{
    constraint_views, exact, holds, satisfies, terms_value, Constraint, ConstraintView, LinearProblem, LpFailure, ProblemView,
    Relation, Sense, SolvedValue, VarKind, Variable, EXACT_LIMIT,
};
use crate::section::{Section, SectionError, SectionView};
use itertools::Itertools;
use vstd::prelude::*;

verus! {

/// Errors of the solver stage.
#[derive(Debug, Clone, Copy, PartialEq, Eq, Structural)]
pub enum SolverError {
    /// The solver failed.
    Solver(LpFailure),
    /// A number of the problem is too large for the solver.
    TooManyFlashPages,
    /// There is no free region to place sections in.
    NoAllocationRegions,
    /// Section related error.
    SectionError(SectionError),
    /// The time budget ran out.
    TimeExceeded,
    /// A solution value is not a whole number of pages.
    ConversionError,
}

/// Why a problem was not built.
#[derive(Debug, Clone, Copy, PartialEq, Eq, Structural)]
pub enum BuildFailure {
    /// The problem is refused with this error.
    Rejected(SolverError),
    /// An integer operation on the inputs leaves its range.
    Overflow,
}

/// The content of a built problem.
pub open spec fn built_view(r: Result<LinearProblem, BuildFailure>) -> Result<
    ProblemView,
    BuildFailure,
> {
    match r {
        Ok(p) => Ok(p@),
        Err(e) => Err(e),
    }
}

/// The pairs `(i, j)` with `i < j`, for `i` below `m` and `j` below `n`, in lexicographic order.
pub open spec fn pairs_upto(m: nat, n: nat) -> Seq<(usize, usize)>
    decreases m,
{
    if m == 0 {
        Seq::empty()
    } else {
        let i = (m - 1) as int;
        pairs_upto((m - 1) as nat, n) + Seq::new(
            if n > i + 1 {
                (n - i - 1) as nat
            } else {
                0nat
            },
            |t: int| (i as usize, (i + 1 + t) as usize),
        )
    }
}

/// The pairs `(i, j)` with `i < j < n`, in lexicographic order.
pub open spec fn pair_list(n: nat) -> Seq<(usize, usize)> {
    pairs_upto(n, n)
}

/// Calls `Itertools::array_combinations` on `0..n`: every pair `(i, j)` with `i < j < n`, in
/// lexicographic order.
#[verifier::external_body]
fn index_pairs(n: usize) -> (r: Vec<(usize, usize)>)
    ensures
        r@ == pair_list(n as nat),
{
    (0..n).array_combinations::<2>().map(|[i, j]| (i, j)).collect()
}

/// Difference of the relative page counts of the sections of a pair.
pub open spec fn pair_diff(secs: Seq<SectionView>, p: (usize, usize)) -> int {
    secs[p.0 as int].relative_pages - secs[p.1 as int].relative_pages
}

/// The first pair whose difference leaves `i64` or the solver's exact range.
pub open spec fn first_pair_failure(secs: Seq<SectionView>, pairs: Seq<(usize, usize)>) -> Option<
    BuildFailure,
>
    decreases pairs.len(),
{
    if pairs.len() == 0 {
        None
    } else {
        let d = pair_diff(secs, pairs[0]);
        if !(i64::MIN <= d && d <= i64::MAX) {
            Some(BuildFailure::Overflow)
        } else if !exact(d) {
            Some(BuildFailure::Rejected(SolverError::TooManyFlashPages))
        } else {
            first_pair_failure(secs, pairs.drop_first())
        }
    }
}

/// The requested pages of `s` are too large for the solver.
pub open spec fn pages_inexact(s: SectionView) -> bool {
    match s.pages {
        Some(p) => !exact(p as int),
        None => false,
    }
}

/// Lower bound on the pages of a maximized section: its pages, else one page.
pub open spec fn free_lower(k: int, s: SectionView) -> ConstraintView {
    ConstraintView {
        terms: seq![(k as usize, 1i64)],
        relation: Relation::AtLeast,
        rhs: match s.pages {
            Some(p) => p as i64,
            None => 1i64,
        },
    }
}

/// All maximized sections together take at most the free pages.
pub open spec fn free_total(n: nat, set_pages: u64) -> ConstraintView {
    ConstraintView {
        terms: Seq::new(n, |k: int| (k as usize, 1i64)),
        relation: Relation::AtMost,
        rhs: set_pages as i64,
    }
}

/// Two maximized sections differ by the difference of their relative pages.
pub open spec fn free_pair(secs: Seq<SectionView>, p: (usize, usize)) -> ConstraintView {
    ConstraintView {
        terms: seq![(p.0, 1i64), (p.1, -1i64)],
        relation: Relation::Equal,
        rhs: pair_diff(secs, p) as i64,
    }
}

/// The problem that shares `set_pages` free pages among the maximized sections `secs`,
/// maximizing the pages they get.
pub open spec fn free_problem_spec(secs: Seq<SectionView>, set_pages: u64) -> Result<
    ProblemView,
    BuildFailure,
> {
    let n = secs.len();
    if (n > 0 && set_pages > i32::MAX) || (exists|i: int|
        0 <= i < n && pages_inexact(#[trigger] secs[i])) || set_pages > EXACT_LIMIT {
        Err(BuildFailure::Rejected(SolverError::TooManyFlashPages))
    } else {
        match first_pair_failure(secs, pair_list(n)) {
            Some(f) => Err(f),
            None => Ok(
                ProblemView {
                    sense: Sense::Maximize,
                    time_limit_ms: None,
                    variables: Seq::new(
                        n,
                        |k: int| Variable { cost: 1, kind: VarKind::Integer(0, set_pages as i64) },
                    ),
                    constraints: Seq::new(n, |k: int| free_lower(k, secs[k])) + seq![
                        free_total(n, set_pages),
                    ] + pair_list(n).map_values(|p: (usize, usize)| free_pair(secs, p)),
                },
            ),
        }
    }
}

/// Builds the problem that shares `set_pages` free pages among the maximized `sections`.
pub fn free_problem<MetaData: Clone>(sections: &Vec<Section<MetaData>>, set_pages: u64) -> (r:
    Result<LinearProblem, BuildFailure>)
    ensures
        built_view(r) == free_problem_spec(section_views(sections@), set_pages),
{
    let ghost secs = section_views(sections@);
    let n = sections.len();
    let mut variables: Vec<Variable> = Vec::new();
    let mut constraints: Vec<Constraint> = Vec::new();
    let mut total: Vec<(usize, i64)> = Vec::new();
    for k in 0..n
        invariant
            n == secs.len(),
            secs == section_views(sections@),
            k > 0 ==> set_pages <= i32::MAX,
            forall|i: int| 0 <= i < k ==> !pages_inexact(#[trigger] secs[i]),
            variables@ == Seq::new(
                k as nat,
                |t: int| Variable { cost: 1, kind: VarKind::Integer(0, set_pages as i64) },
            ),
            constraint_views(constraints@) == Seq::new(k as nat, |t: int| free_lower(t, secs[t])),
            total@ == Seq::new(k as nat, |t: int| (t as usize, 1i64)),
    {
        if set_pages > 2147483647u64 {
            return Err(BuildFailure::Rejected(SolverError::TooManyFlashPages));
        }
        variables.push(Variable { cost: 1, kind: VarKind::Integer(0, set_pages as i64) });
        let rhs: i64 = match sections[k].pages() {
            Some(p) => {
                if p > EXACT_LIMIT {
                    assert(pages_inexact(secs[k as int]));
                    return Err(BuildFailure::Rejected(SolverError::TooManyFlashPages));
                }
                p as i64
            },
            None => 1,
        };
        let mut terms: Vec<(usize, i64)> = Vec::new();
        terms.push((k, 1));
        let ghost row_terms = terms@;
        let ghost before = constraints@;
        constraints.push(Constraint { terms, relation: Relation::AtLeast, rhs });
        total.push((k, 1));
        proof {
            assert(row_terms =~= seq![(k as usize, 1i64)]);
            assert(constraints@ == before.push(constraints@.last()));
            assert(constraints@.last()@ == free_lower(k as int, secs[k as int]));
            assert(constraint_views(constraints@) =~= constraint_views(before).push(
                free_lower(k as int, secs[k as int]),
            ));
            assert(variables@ =~= Seq::new(
                (k + 1) as nat,
                |t: int| Variable { cost: 1, kind: VarKind::Integer(0, set_pages as i64) },
            ));
            assert(constraint_views(constraints@) =~= Seq::new(
                (k + 1) as nat,
                |t: int| free_lower(t, secs[t]),
            ));
            assert(total@ =~= Seq::new((k + 1) as nat, |t: int| (t as usize, 1i64)));
        }
    }
    if set_pages > EXACT_LIMIT {
        return Err(BuildFailure::Rejected(SolverError::TooManyFlashPages));
    }
    constraints.push(Constraint { terms: total, relation: Relation::AtMost, rhs: set_pages as i64 });
    let ghost base = constraint_views(constraints@);
    proof {
        assert(base =~= Seq::new(n as nat, |t: int| free_lower(t, secs[t])) + seq![
            free_total(n as nat, set_pages),
        ]);
    }
    let pairs = index_pairs(n);
    let m = pairs.len();
    proof {
        assert(pairs@.skip(0) =~= pairs@);
    }
    for q in 0..m
        invariant
            m == pairs@.len(),
            pairs@ == pair_list(n as nat),
            n == secs.len(),
            secs == section_views(sections@),
            n > 0 ==> set_pages <= i32::MAX,
            set_pages <= EXACT_LIMIT,
            forall|i: int| 0 <= i < n ==> !pages_inexact(#[trigger] secs[i]),
            first_pair_failure(secs, pairs@) == first_pair_failure(secs, pairs@.skip(q as int)),
            constraint_views(constraints@) == base + pairs@.take(q as int).map_values(
                |p: (usize, usize)| free_pair(secs, p),
            ),
    {
        let (i, j) = pairs[q];
        proof {
            lemma_pair_list_bounds(n as nat, q as int);
            assert(pairs@.skip(q as int)[0] == pairs@[q as int]);
            assert(pairs@.skip(q as int).drop_first() =~= pairs@.skip(q + 1));
        }
        let a = sections[i].relative_pages();
        let b = sections[j].relative_pages();
        assert(secs[i as int].relative_pages == a && secs[j as int].relative_pages == b);
        let diff = match a.checked_sub(b) {
            Some(d) => d,
            None => {
                return Err(BuildFailure::Overflow);
            },
        };
        if diff > EXACT_LIMIT as i64 || diff < -(EXACT_LIMIT as i64) {
            return Err(BuildFailure::Rejected(SolverError::TooManyFlashPages));
        }
        let mut terms: Vec<(usize, i64)> = Vec::new();
        terms.push((i, 1));
        terms.push((j, -1));
        let ghost row_terms = terms@;
        let ghost before = constraints@;
        constraints.push(Constraint { terms, relation: Relation::Equal, rhs: diff });
        proof {
            assert(row_terms =~= seq![(i, 1i64), (j, -1i64)]);
            assert(constraints@.last()@ == free_pair(secs, pairs@[q as int]));
            assert(constraint_views(constraints@) =~= constraint_views(before).push(
                free_pair(secs, pairs@[q as int]),
            ));
            assert(pairs@.take(q + 1) =~= pairs@.take(q as int).push(pairs@[q as int]));
            assert(pairs@.take(q + 1).map_values(|p: (usize, usize)| free_pair(secs, p))
                =~= pairs@.take(q as int).map_values(
                |p: (usize, usize)| free_pair(secs, p),
            ).push(free_pair(secs, pairs@[q as int])));
            assert(constraint_views(constraints@) =~= base + pairs@.take(q + 1).map_values(
                |p: (usize, usize)| free_pair(secs, p),
            ));
        }
    }
    proof {
        assert(pairs@.take(m as int) =~= pairs@);
        assert(pairs@.skip(m as int).len() == 0);
    }
    let problem = LinearProblem {
        sense: Sense::Maximize,
        time_limit_ms: None,
        variables,
        constraints,
    };
    proof {
        assert(problem@.constraints =~= Seq::new(n as nat, |k: int| free_lower(k, secs[k])) + seq![
            free_total(n as nat, set_pages),
        ] + pair_list(n as nat).map_values(|p: (usize, usize)| free_pair(secs, p)));
    }
    Ok(problem)
}

/// Every pair of `pair_list(n)` is a pair of positions below `n`, the first below the second.
pub proof fn lemma_pair_list_bounds(n: nat, q: int)
    requires
        0 <= q < pair_list(n).len(),
        n <= usize::MAX,
    ensures
        pair_list(n)[q].0 < pair_list(n)[q].1 < n,
{
    lemma_pairs_upto_bounds(n, n, q);
}

/// Every pair of `pairs_upto(m, n)` is ordered and below `n`.
pub proof fn lemma_pairs_upto_bounds(m: nat, n: nat, q: int)
    requires
        0 <= q < pairs_upto(m, n).len(),
        m <= n,
        n <= usize::MAX,
    ensures
        pairs_upto(m, n)[q].0 < pairs_upto(m, n)[q].1 < n,
    decreases m,
{
    if m > 0 {
        let prev = pairs_upto((m - 1) as nat, n);
        let i = (m - 1) as int;
        let tail = Seq::new(
            if n > i + 1 {
                (n - i - 1) as nat
            } else {
                0nat
            },
            |t: int| (i as usize, (i + 1 + t) as usize),
        );
        assert(pairs_upto(m, n) == prev + tail);
        if q < prev.len() {
            lemma_pairs_upto_bounds((m - 1) as nat, n, q);
            assert(pairs_upto(m, n)[q] == prev[q]);
        } else {
            assert(pairs_upto(m, n)[q] == tail[q - prev.len()]);
        }
    }
}

} // verus!

verus! {

/// The values of a solution of the free problem, as whole numbers of pages, one per
/// maximized section; an error when one is not a whole number.
pub open spec fn free_readout_spec(secs: Seq<SectionView>, values: Seq<SolvedValue>) -> Result<
    Seq<SectionView>,
    SolverError,
> {
    if exists|i: int| 0 <= i < secs.len() && (#[trigger] values[i]).whole is None {
        Err(SolverError::ConversionError)
    } else {
        Ok(
            Seq::new(
                secs.len(),
                |i: int| SectionView { pages: Some(values[i].whole.unwrap()), ..secs[i] },
            ),
        )
    }
}

/// The maximized `sections` with the page counts the solver gave them.
pub fn free_readout<MetaData: Clone>(
    sections: &Vec<Section<MetaData>>,
    values: &Vec<SolvedValue>,
) -> (r: Result<Vec<Section<MetaData>>, SolverError>)
    requires
        values@.len() == sections@.len(),
    ensures
        match (r, free_readout_spec(section_views(sections@), values@)) {
            (Ok(v), Ok(w)) => section_views(v@) == w && forall|i: int|
                0 <= i < v@.len() ==> cloned(
                    (#[trigger] sections@[i]).spec_metadata(),
                    v@[i].spec_metadata(),
                ),
            (Err(e), Err(f)) => e == f,
            _ => false,
        },
{
    let ghost secs = section_views(sections@);
    let n = sections.len();
    let mut out: Vec<Section<MetaData>> = Vec::new();
    for i in 0..n
        invariant
            n == sections@.len(),
            values@.len() == n,
            secs == section_views(sections@),
            forall|j: int| 0 <= j < i ==> (#[trigger] values@[j]).whole is Some,
            section_views(out@) == Seq::new(
                i as nat,
                |j: int| SectionView { pages: Some(values@[j].whole.unwrap()), ..secs[j] },
            ),
            out@.len() == i,
            forall|j: int|
                0 <= j < i ==> cloned(
                    (#[trigger] sections@[j]).spec_metadata(),
                    out@[j].spec_metadata(),
                ),
    {
        match values[i].whole {
            None => {
                assert(values@[i as int].whole is None);
                return Err(SolverError::ConversionError);
            },
            Some(pages) => {
                let s = sections[i].duplicate().set_pages(pages);
                let ghost prev = out@;
                out.push(s);
                proof {
                    assert(secs[i as int] == sections@[i as int]@);
                    assert(out@[i as int]@ == SectionView { pages: Some(pages), ..secs[i as int] });
                    assert(section_views(out@) =~= section_views(prev).push(out@[i as int]@));
                    assert(section_views(out@) =~= Seq::new(
                        (i + 1) as nat,
                        |j: int| SectionView { pages: Some(values@[j].whole.unwrap()), ..secs[j] },
                    ));
                }
            },
        }
    }
    proof {
        assert(section_views(out@) =~= Seq::new(
            secs.len(),
            |j: int| SectionView { pages: Some(values@[j].whole.unwrap()), ..secs[j] },
        ));
    }
    Ok(out)
}


/// The whole numbers of pages of a solution, zero where a value is not one.
pub open spec fn whole_pages(values: Seq<SolvedValue>) -> Seq<int> {
    values.map_values(
        |v: SolvedValue|
            match v.whole {
                Some(p) => p as int,
                None => 0int,
            },
    )
}

/// The least number of pages a maximized section takes: those it asks for, else one.
pub open spec fn least_pages(s: SectionView) -> int {
    match s.pages {
        Some(p) => p as int,
        None => 1,
    }
}

/// Every pair `(i, j)` with `i < m` and `i < j < n` is listed by `pairs_upto(m, n)`.
proof fn lemma_pairs_upto_has(m: nat, n: nat, i: int, j: int)
    requires
        0 <= i < m,
        i < j < n,
        m <= n,
        n <= usize::MAX,
    ensures
        exists|q: int|
            0 <= q < pairs_upto(m, n).len() && #[trigger] pairs_upto(m, n)[q] == (
                i as usize,
                j as usize,
            ),
    decreases m,
{
    let prev = pairs_upto((m - 1) as nat, n);
    let k = (m - 1) as int;
    let tail = Seq::new(
        if n > k + 1 {
            (n - k - 1) as nat
        } else {
            0nat
        },
        |t: int| (k as usize, (k + 1 + t) as usize),
    );
    assert(pairs_upto(m, n) == prev + tail);
    if i < k {
        lemma_pairs_upto_has((m - 1) as nat, n, i, j);
        let q = choose|q: int|
            0 <= q < prev.len() && #[trigger] prev[q] == (i as usize, j as usize);
        assert(pairs_upto(m, n)[q] == prev[q]);
    } else {
        let t = j - i - 1;
        assert(tail[t] == (i as usize, j as usize));
        assert(pairs_upto(m, n)[prev.len() + t] == tail[t]);
    }
}

/// The sum of the first `n` entries of `x`, as terms of the problem, is the pages of the first
/// `n` sections of `w` when section `k` has `x[k]` pages.
proof fn lemma_total_terms(n: nat, w: Seq<SectionView>, x: Seq<int>)
    requires
        n <= w.len(),
        n <= usize::MAX,
        forall|k: int| 0 <= k < n ==> (#[trigger] w[k]).page_bound() == x[k],
    ensures
        terms_value(Seq::new(n, |k: int| (k as usize, 1i64)), x) == total_section_pages(
            w.take(n as int),
        ),
    decreases n,
{
    if n > 0 {
        lemma_total_terms((n - 1) as nat, w, x);
        assert(Seq::new(n, |k: int| (k as usize, 1i64)).drop_last() =~= Seq::new(
            (n - 1) as nat,
            |k: int| (k as usize, 1i64),
        ));
        assert(w.take(n as int).drop_last() =~= w.take(n - 1));
        let t = Seq::new(n, |k: int| (k as usize, 1i64));
        assert(t.last() == ((n - 1) as usize, 1i64));
        assert(w.take(n as int).last() == w[n - 1]);
        assert(w[n - 1].page_bound() == x[n - 1]);
    }
}

/// A solution of the free problem shares the free pages as the problem states: every
/// maximized section gets at least the pages it asks for (one page when it asks for none),
/// together they get at most the free pages, and any two of them get page counts that differ
/// by the difference of their relative pages.
pub proof fn lemma_free_shares(secs: Seq<SectionView>, set_pages: u64, values: Seq<SolvedValue>)
    requires
        secs.len() <= usize::MAX,
        free_problem_spec(secs, set_pages) is Ok,
        values.len() == secs.len(),
        satisfies(free_problem_spec(secs, set_pages)->Ok_0, whole_pages(values)),
        free_readout_spec(secs, values) is Ok,
    ensures
        ({
            let w = free_readout_spec(secs, values)->Ok_0;
            &&& w.len() == secs.len()
            &&& forall|i: int|
                0 <= i < secs.len() ==> (#[trigger] w[i]).page_bound() >= least_pages(secs[i])
            &&& total_section_pages(w) <= set_pages
            &&& forall|i: int, j: int|
                0 <= i < secs.len() && 0 <= j < secs.len() ==> (#[trigger] w[i]).page_bound()
                    - (#[trigger] w[j]).page_bound() == secs[i].relative_pages
                    - secs[j].relative_pages
        }),
{
    let n = secs.len();
    let p = free_problem_spec(secs, set_pages)->Ok_0;
    let w = free_readout_spec(secs, values)->Ok_0;
    let x = whole_pages(values);
    let lower = Seq::new(n, |k: int| free_lower(k, secs[k]));
    let pairs = pair_list(n);
    assert(p.constraints == lower + seq![free_total(n, set_pages)] + pairs.map_values(
        |q: (usize, usize)| free_pair(secs, q),
    ));
    assert forall|i: int| 0 <= i < n implies (#[trigger] w[i]).page_bound() == x[i] by {
        assert(values[i].whole is Some);
    }
    assert forall|i: int| 0 <= i < n implies (#[trigger] w[i]).page_bound() >= least_pages(
        secs[i],
    ) by {
        assert(p.constraints[i] == free_lower(i, secs[i]));
        assert(holds(p.constraints[i], x));
        let t = seq![(i as usize, 1i64)];
        assert(terms_value(t.drop_last(), x) == 0);
        assert(t.last() == (i as usize, 1i64));
        assert((i as usize) as int == i);
        lemma_coefficient(t.last().1, x[i]);
        assert(terms_value(t, x) == terms_value(t.drop_last(), x) + t.last().1 * x[i]);
        assert(terms_value(t, x) == x[i]);
        assert(!pages_inexact(secs[i]));
    }
    assert(p.constraints[n as int] == free_total(n, set_pages));
    assert(holds(p.constraints[n as int], x));
    lemma_total_terms(n, w, x);
    assert(w.take(n as int) =~= w);
    assert forall|i: int, j: int| 0 <= i < n && 0 <= j < n implies (#[trigger] w[i]).page_bound()
        - (#[trigger] w[j]).page_bound() == secs[i].relative_pages - secs[j].relative_pages by {
        if i != j {
            let (a, b) = if i < j {
                (i, j)
            } else {
                (j, i)
            };
            lemma_pairs_upto_has(n, n, a, b);
            let q = choose|q: int|
                0 <= q < pairs.len() && #[trigger] pairs[q] == (a as usize, b as usize);
            let c = free_pair(secs, pairs[q]);
            assert(p.constraints[n + 1 + q] == c);
            assert(holds(c, x));
            let t = seq![(a as usize, 1i64), (b as usize, -1i64)];
            assert(t.drop_last() =~= seq![(a as usize, 1i64)]);
            assert(terms_value(t.drop_last().drop_last(), x) == 0);
            assert(t.drop_last().last() == (a as usize, 1i64));
            assert((a as usize) as int == a && (b as usize) as int == b);
            lemma_coefficient(t.drop_last().last().1, x[a]);
            assert(terms_value(t.drop_last(), x) == terms_value(t.drop_last().drop_last(), x)
                + t.drop_last().last().1 * x[a]);
            assert(terms_value(t.drop_last(), x) == x[a]);
            assert(t.last() == (b as usize, -1i64));
            lemma_coefficient(t.last().1, x[b]);
            assert(terms_value(t, x) == terms_value(t.drop_last(), x) + t.last().1 * x[b]);
            assert(terms_value(t, x) == x[a] - x[b]);
            lemma_no_pair_failure(secs, pairs, q);
        }
    }
}

/// A coefficient of one or minus one keeps or negates the value it multiplies.
proof fn lemma_coefficient(c: i64, y: int)
    ensures
        c == 1 ==> c * y == y,
        c == -1 ==> c * y == -y,
{
}

/// When no pair of `pairs` fails, the difference of every pair fits the right side.
proof fn lemma_no_pair_failure(secs: Seq<SectionView>, pairs: Seq<(usize, usize)>, q: int)
    requires
        first_pair_failure(secs, pairs) is None,
        0 <= q < pairs.len(),
    ensures
        i64::MIN <= pair_diff(secs, pairs[q]) <= i64::MAX,
    decreases q,
{
    if q > 0 {
        lemma_no_pair_failure(secs, pairs.drop_first(), q - 1);
        assert(pairs.drop_first()[q - 1] == pairs[q]);
    }
}

} // verus!
