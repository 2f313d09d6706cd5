//! The fit algorithm stated over a node-to-area assignment: which area a
//! round dissolves, where each of its nodes goes, and when fitting stops.
use vstd::prelude::*;
use vstd::set_lib::{lemma_int_range, lemma_len_subset, set_int_range};
use crate::model::{containment, demand, from_set, mask, supply, to_set};
use crate::graph::{col_total, row_total};
use crate::score::{attach_term, attachment, frac_eq, frac_lt, frac_ok, lemma_frac_order, score};

verus! {

/// The assignment of a node that belongs to no area.
pub const UNASSIGNED: usize = usize::MAX;

/// The quality score of area `a`.
pub open spec fn x_of(m: Seq<Seq<u32>>, s: Seq<usize>, a: int) -> (int, int) {
    score(demand(m, s, a), supply(m, s, a), containment(m, s, a))
}

/// Some node belongs to area `a`.
pub open spec fn present(s: Seq<usize>, a: int) -> bool {
    exists|u: int| 0 <= u < s.len() && s[u] == a
}

/// No flow crosses the boundary of area `a`: dissolving it could not place
/// its nodes anywhere else.
pub open spec fn is_closed(m: Seq<Seq<u32>>, s: Seq<usize>, a: int) -> bool {
    demand(m, s, a) == containment(m, s, a) && supply(m, s, a) == containment(m, s, a)
}

/// Area `a` takes part in the choice of the worst area.
pub open spec fn eligible(m: Seq<Seq<u32>>, s: Seq<usize>, a: int) -> bool {
    0 <= a < s.len() && present(s, a) && !is_closed(m, s, a)
}

/// The eligible area of lowest score among ids below `k` (the smallest id
/// among equal scores), or -1 when there is none.
pub open spec fn worst_upto(m: Seq<Seq<u32>>, s: Seq<usize>, k: int) -> int
    decreases k,
{
    if k <= 0 {
        -1
    } else {
        let w = worst_upto(m, s, k - 1);
        if eligible(m, s, k - 1) && (w < 0 || frac_lt(x_of(m, s, k - 1), x_of(m, s, w))) {
            k - 1
        } else {
            w
        }
    }
}

/// The worst area, or -1 when no area is eligible.
pub open spec fn worst(m: Seq<Seq<u32>>, s: Seq<usize>) -> int {
    worst_upto(m, s, s.len() as int)
}

/// The members of area `a` among the first `k` nodes, in increasing order.
pub open spec fn members_upto(s: Seq<usize>, a: int, k: int) -> Seq<usize>
    decreases k,
{
    if k <= 0 {
        seq![]
    } else if s[k - 1] == a {
        members_upto(s, a, k - 1).push((k - 1) as usize)
    } else {
        members_upto(s, a, k - 1)
    }
}

/// The members of area `a`, in increasing order.
pub open spec fn members(s: Seq<usize>, a: int) -> Seq<usize> {
    members_upto(s, a, s.len() as int)
}

/// The assignment with the members of `a` unassigned.
pub open spec fn clear(s: Seq<usize>, a: int) -> Seq<usize> {
    Seq::new(s.len(), |u: int| if s[u] == a { UNASSIGNED } else { s[u] })
}

/// Nodes `u` and `v` are joined by an edge in either direction.
pub open spec fn linked(m: Seq<Seq<u32>>, u: int, v: int) -> bool {
    m[u][v] > 0 || m[v][u] > 0
}

/// Area `b` holds a neighbour of node `v`.
pub open spec fn candidate(m: Seq<Seq<u32>>, s: Seq<usize>, v: int, b: int) -> bool {
    b != UNASSIGNED && exists|u: int| 0 <= u < s.len() && linked(m, u, v) && s[u] == b
}

/// Some area holds a neighbour of node `v`.
pub open spec fn has_candidate(m: Seq<Seq<u32>>, s: Seq<usize>, v: int) -> bool {
    exists|b: int| candidate(m, s, v, b)
}

/// The attachment index of node `v` to area `b`.
pub open spec fn tij2(m: Seq<Seq<u32>>, s: Seq<usize>, v: int, b: int) -> (int, int) {
    attachment(
        to_set(m, mask(s, b), v, m.len() as int),
        row_total(m, v),
        demand(m, s, b),
        from_set(m, mask(s, b), v, m.len() as int),
        supply(m, s, b),
        col_total(m, v),
    )
}

/// `b` is the candidate of highest attachment index for `v`, the smallest
/// id among equal indices.
pub open spec fn is_best(m: Seq<Seq<u32>>, s: Seq<usize>, v: int, b: int) -> bool {
    &&& candidate(m, s, v, b)
    &&& forall|c: int|
        #![trigger candidate(m, s, v, c)]
        candidate(m, s, v, c) ==> frac_lt(tij2(m, s, v, c), tij2(m, s, v, b)) || (frac_eq(
            tij2(m, s, v, c),
            tij2(m, s, v, b),
        ) && b <= c)
}

/// The best candidate area for `v` (meaningful when `v` has a candidate).
pub open spec fn best(m: Seq<Seq<u32>>, s: Seq<usize>, v: int) -> int {
    choose|b: int| is_best(m, s, v, b)
}

/// First placement of a node of the dissolved area: into its best candidate
/// when that one's attachment index is positive; otherwise it waits.
pub open spec fn first_step(m: Seq<Seq<u32>>, s: Seq<usize>, v: int) -> Seq<usize> {
    if has_candidate(m, s, v) && tij2(m, s, v, best(m, s, v)).0 > 0 {
        s.update(v, best(m, s, v) as usize)
    } else {
        s
    }
}

/// The first placements of `vs[0..i]`, in order.
pub open spec fn first_pass(m: Seq<Seq<u32>>, s: Seq<usize>, vs: Seq<usize>, i: int) -> Seq<usize>
    decreases i,
{
    if i <= 0 {
        s
    } else {
        first_step(m, first_pass(m, s, vs, i - 1), vs[i - 1] as int)
    }
}

/// Later placement of a waiting node: into its best candidate, if any.
pub open spec fn late_step(m: Seq<Seq<u32>>, s: Seq<usize>, v: int) -> Seq<usize> {
    if s[v] == UNASSIGNED && has_candidate(m, s, v) {
        s.update(v, best(m, s, v) as usize)
    } else {
        s
    }
}

/// The later placements of `vs[0..i]`, in order.
pub open spec fn late_pass(m: Seq<Seq<u32>>, s: Seq<usize>, vs: Seq<usize>, i: int) -> Seq<usize>
    decreases i,
{
    if i <= 0 {
        s
    } else {
        late_step(m, late_pass(m, s, vs, i - 1), vs[i - 1] as int)
    }
}

/// Repeated later passes over `vs`, until one places nobody or `fuel`
/// passes have run.
pub open spec fn settle(m: Seq<Seq<u32>>, s: Seq<usize>, vs: Seq<usize>, fuel: nat) -> Seq<usize>
    decreases fuel,
{
    if fuel == 0 {
        s
    } else {
        let t = late_pass(m, s, vs, vs.len() as int);
        if t == s {
            s
        } else {
            settle(m, t, vs, (fuel - 1) as nat)
        }
    }
}

/// Nodes that could not be placed stay in area `a`.
pub open spec fn restore(s: Seq<usize>, a: int) -> Seq<usize> {
    Seq::new(s.len(), |u: int| if s[u] == UNASSIGNED { a as usize } else { s[u] })
}

/// Dissolution of area `a`: its members, in increasing order, get a first
/// placement each, then waiting ones are placed pass after pass, and those
/// that are left stay in `a`.
pub open spec fn dissolve(m: Seq<Seq<u32>>, s: Seq<usize>, a: int) -> Seq<usize> {
    let vs = members(s, a);
    let first = first_pass(m, clear(s, a), vs, vs.len() as int);
    restore(settle(m, first, vs, vs.len()), a)
}

/// One round: the worst area is dissolved if its score is negative;
/// `None` when fitting is done.
pub open spec fn round(m: Seq<Seq<u32>>, s: Seq<usize>) -> Option<Seq<usize>> {
    let w = worst(m, s);
    if w >= 0 && x_of(m, s, w).0 < 0 {
        Some(dissolve(m, s, w))
    } else {
        None
    }
}

/// The assignment after fitting with at most `k` rounds, and whether
/// fitting finished (rather than running out of rounds).
pub open spec fn fit_result(m: Seq<Seq<u32>>, s: Seq<usize>, k: nat) -> (Seq<usize>, bool)
    decreases k,
{
    match round(m, s) {
        None => (s, true),
        Some(t) => if k == 0 {
            (s, false)
        } else {
            fit_result(m, t, (k - 1) as nat)
        },
    }
}

/// Attachment indices have positive denominators.
pub proof fn lemma_tij2_ok(m: Seq<Seq<u32>>, s: Seq<usize>, v: int, b: int)
    ensures
        frac_ok(tij2(m, s, v, b)),
{
    let t = tij2(m, s, v, b);
    let t1 = attach_term(
        to_set(m, mask(s, b), v, m.len() as int),
        row_total(m, v),
        demand(m, s, b),
    );
    let t2 = attach_term(
        from_set(m, mask(s, b), v, m.len() as int),
        supply(m, s, b),
        col_total(m, v),
    );
    assert(t1.1 > 0 && t2.1 > 0);
    assert(t1.1 * t2.1 > 0) by (nonlinear_arith)
        requires
            t1.1 > 0 && t2.1 > 0,
    ;
}

/// At most one area is the best candidate of a node, so `best` names it.
pub proof fn lemma_best_unique(m: Seq<Seq<u32>>, s: Seq<usize>, v: int, b: int)
    requires
        is_best(m, s, v, b),
    ensures
        best(m, s, v) == b,
{
    let c = best(m, s, v);
    assert(is_best(m, s, v, c));
    lemma_tij2_ok(m, s, v, b);
    lemma_tij2_ok(m, s, v, c);
    lemma_frac_order(tij2(m, s, v, b), tij2(m, s, v, c), tij2(m, s, v, b));
    lemma_frac_order(tij2(m, s, v, c), tij2(m, s, v, b), tij2(m, s, v, c));
}

/// The worst area, when there is one, is an eligible id below `k`.
pub proof fn lemma_worst_eligible(m: Seq<Seq<u32>>, s: Seq<usize>, k: int)
    ensures
        worst_upto(m, s, k) >= 0 ==> worst_upto(m, s, k) < k && eligible(m, s, worst_upto(m, s, k)),
        worst_upto(m, s, k) >= -1,
    decreases k,
{
    if k > 0 {
        lemma_worst_eligible(m, s, k - 1);
    }
}

/// `members_upto` lists, in strictly increasing order, exactly the nodes
/// below `k` that belong to `a`.
pub proof fn lemma_members(s: Seq<usize>, a: int, k: int)
    requires
        0 <= k <= s.len(),
        s.len() <= usize::MAX,
    ensures
        forall|j: int|
            0 <= j < members_upto(s, a, k).len() ==> (#[trigger] members_upto(s, a, k)[j]) < k
                && s[members_upto(s, a, k)[j] as int] == a,
        forall|i: int, j: int|
            0 <= i < j < members_upto(s, a, k).len() ==> members_upto(s, a, k)[i] < members_upto(
                s,
                a,
                k,
            )[j],
        forall|u: int| 0 <= u < k && s[u] == a ==> #[trigger] members_upto(s, a, k).contains(u as usize),
    decreases k,
{
    if k > 0 {
        lemma_members(s, a, k - 1);
        let prev = members_upto(s, a, k - 1);
        let cur = members_upto(s, a, k);
        if s[k - 1] == a {
            assert forall|u: int| 0 <= u < k && s[u] == a implies #[trigger] cur.contains(u as usize) by {
                if u == k - 1 {
                    assert(cur[cur.len() - 1] == u as usize);
                } else {
                    assert(prev.contains(u as usize));
                    let j = choose|j: int| 0 <= j < prev.len() && prev[j] == u as usize;
                    assert(cur[j] == u as usize);
                }
            }
        }
    }
}

/// Scores have positive denominators.
pub proof fn lemma_x_ok(m: Seq<Seq<u32>>, s: Seq<usize>, a: int)
    ensures
        frac_ok(x_of(m, s, a)),
{
}

/// No eligible area below `k` scores lower than `worst_upto(m, s, k)`.
pub proof fn lemma_worst_minimal(m: Seq<Seq<u32>>, s: Seq<usize>, k: int)
    ensures
        forall|b: int|
            0 <= b < k && #[trigger] eligible(m, s, b) ==> worst_upto(m, s, k) >= 0 && !frac_lt(
                x_of(m, s, b),
                x_of(m, s, worst_upto(m, s, k)),
            ),
    decreases k,
{
    if k > 0 {
        lemma_worst_minimal(m, s, k - 1);
        let w = worst_upto(m, s, k - 1);
        let w2 = worst_upto(m, s, k);
        assert forall|b: int| 0 <= b < k && #[trigger] eligible(m, s, b) implies w2 >= 0 && !frac_lt(
            x_of(m, s, b),
            x_of(m, s, w2),
        ) by {
            lemma_x_ok(m, s, b);
            lemma_x_ok(m, s, w);
            lemma_x_ok(m, s, k - 1);
            lemma_frac_order(x_of(m, s, b), x_of(m, s, k - 1), x_of(m, s, w));
            lemma_frac_order(x_of(m, s, b), x_of(m, s, b), x_of(m, s, b));
        }
    }
}

/// When a round finds nothing to dissolve, every area is closed or scores
/// at least zero.
pub proof fn lemma_done_scores(m: Seq<Seq<u32>>, s: Seq<usize>)
    requires
        round(m, s).is_none(),
    ensures
        forall|a: int|
            0 <= a < s.len() && #[trigger] present(s, a) ==> is_closed(m, s, a) || x_of(m, s, a).0
                >= 0,
{
    lemma_worst_minimal(m, s, s.len() as int);
    let w = worst(m, s);
    assert forall|a: int| 0 <= a < s.len() && #[trigger] present(s, a) implies is_closed(m, s, a)
        || x_of(m, s, a).0 >= 0 by {
        if !is_closed(m, s, a) {
            assert(eligible(m, s, a));
            lemma_x_ok(m, s, a);
            lemma_x_ok(m, s, w);
            let xa = x_of(m, s, a);
            let xw = x_of(m, s, w);
            assert(xa.0 >= 0) by (nonlinear_arith)
                requires
                    !(xa.0 * xw.1 < xw.0 * xa.1),
                    xw.0 >= 0,
                    xa.1 > 0,
                    xw.1 > 0,
            ;
        }
    }
}

/// A fit that finished ends where a round finds nothing to dissolve.
pub proof fn lemma_fit_finished(m: Seq<Seq<u32>>, s: Seq<usize>, k: nat)
    requires
        fit_result(m, s, k).1,
    ensures
        round(m, fit_result(m, s, k).0).is_none(),
    decreases k,
{
    match round(m, s) {
        None => {},
        Some(t) => {
            if k > 0 {
                lemma_fit_finished(m, t, (k - 1) as nat);
            }
        },
    }
}

/// Once fitting has finished without running out of rounds, every present
/// area is closed (no flow crosses its boundary) or scores at least zero.
pub proof fn lemma_fit_scores(m: Seq<Seq<u32>>, s: Seq<usize>, k: nat)
    requires
        fit_result(m, s, k).1,
    ensures
        forall|a: int|
            0 <= a < fit_result(m, s, k).0.len() && #[trigger] present(fit_result(m, s, k).0, a) ==> is_closed(
                m,
                fit_result(m, s, k).0,
                a,
            ) || x_of(m, fit_result(m, s, k).0, a).0 >= 0,
{
    lemma_fit_finished(m, s, k);
    lemma_done_scores(m, fit_result(m, s, k).0);
}

/// Fitting again what has finished returns at once, leaving the partition
/// as it is.
pub proof fn lemma_fit_idempotent(m: Seq<Seq<u32>>, s: Seq<usize>, k: nat, j: nat)
    requires
        fit_result(m, s, k).1,
    ensures
        fit_result(m, fit_result(m, s, k).0, j) == (fit_result(m, s, k).0, true),
{
    lemma_fit_finished(m, s, k);
}

/// With no rounds allowed, fitting leaves the partition as it is.
pub proof fn lemma_fit_no_rounds(m: Seq<Seq<u32>>, s: Seq<usize>)
    ensures
        fit_result(m, s, 0).0 == s,
{
}

/// Fitting is a function of the matrix, the starting partition and the
/// round limit: two fits of the same input give the same partition and the
/// same outcome.
pub proof fn lemma_fit_deterministic(
    m: Seq<Seq<u32>>,
    s: Seq<usize>,
    k: nat,
    r1: (Seq<usize>, bool),
    r2: (Seq<usize>, bool),
)
    requires
        r1 == fit_result(m, s, k),
        r2 == fit_result(m, s, k),
    ensures
        r1 == r2,
{
}

/// Candidate `c` is preferred to candidate `b`: a higher attachment index,
/// or an equal one and a smaller id.
pub open spec fn preferred(m: Seq<Seq<u32>>, s: Seq<usize>, v: int, c: int, b: int) -> bool {
    frac_lt(tij2(m, s, v, b), tij2(m, s, v, c)) || (frac_eq(tij2(m, s, v, c), tij2(m, s, v, b)) && c
        < b)
}

/// The preferred area among those of the neighbours of `v` below `k`, or -1.
pub open spec fn best_upto(m: Seq<Seq<u32>>, s: Seq<usize>, v: int, k: int) -> int
    decreases k,
{
    if k <= 0 {
        -1
    } else {
        let w = best_upto(m, s, v, k - 1);
        let u = k - 1;
        if s[u] != UNASSIGNED && linked(m, u, v) && (w < 0 || preferred(m, s, v, s[u] as int, w)) {
            s[u] as int
        } else {
            w
        }
    }
}

proof fn lemma_best_upto(m: Seq<Seq<u32>>, s: Seq<usize>, v: int, k: int)
    requires
        0 <= k <= s.len(),
    ensures
        best_upto(m, s, v, k) >= 0 ==> candidate(m, s, v, best_upto(m, s, v, k)),
        forall|u: int|
            0 <= u < k && s[u] != UNASSIGNED && #[trigger] linked(m, u, v) ==> best_upto(m, s, v, k)
                >= 0 && !preferred(m, s, v, s[u] as int, best_upto(m, s, v, k)),
    decreases k,
{
    if k > 0 {
        lemma_best_upto(m, s, v, k - 1);
        let w = best_upto(m, s, v, k - 1);
        let b = best_upto(m, s, v, k);
        assert forall|u: int|
            0 <= u < k && s[u] != UNASSIGNED && #[trigger] linked(m, u, v) implies b >= 0
                && !preferred(m, s, v, s[u] as int, b) by {
            let c = s[u] as int;
            lemma_tij2_ok(m, s, v, c);
            lemma_tij2_ok(m, s, v, w);
            lemma_tij2_ok(m, s, v, b);
            lemma_frac_order(tij2(m, s, v, c), tij2(m, s, v, w), tij2(m, s, v, b));
            lemma_frac_order(tij2(m, s, v, w), tij2(m, s, v, b), tij2(m, s, v, c));
            lemma_frac_order(tij2(m, s, v, b), tij2(m, s, v, w), tij2(m, s, v, c));
            lemma_frac_order(tij2(m, s, v, c), tij2(m, s, v, b), tij2(m, s, v, w));
            lemma_frac_order(tij2(m, s, v, b), tij2(m, s, v, c), tij2(m, s, v, b));
        }
        if b >= 0 && b != w {
            assert(s[k - 1] == b && linked(m, k - 1, v));
        }
    }
}

/// A node with a candidate area has a best one.
pub proof fn lemma_best_exists(m: Seq<Seq<u32>>, s: Seq<usize>, v: int)
    requires
        has_candidate(m, s, v),
    ensures
        is_best(m, s, v, best(m, s, v)),
        candidate(m, s, v, best(m, s, v)),
{
    let n = s.len() as int;
    lemma_best_upto(m, s, v, n);
    let b = best_upto(m, s, v, n);
    let c0 = choose|c: int| candidate(m, s, v, c);
    let u0 = choose|u: int| 0 <= u < s.len() && linked(m, u, v) && s[u] == c0;
    assert(linked(m, u0, v));
    assert forall|c: int| #[trigger] candidate(m, s, v, c) implies frac_lt(tij2(m, s, v, c), tij2(m, s, v, b))
        || (frac_eq(tij2(m, s, v, c), tij2(m, s, v, b)) && b <= c) by {
        let u = choose|u: int| 0 <= u < s.len() && linked(m, u, v) && s[u] == c;
        assert(linked(m, u, v));
        lemma_tij2_ok(m, s, v, c);
        lemma_tij2_ok(m, s, v, b);
        lemma_frac_order(tij2(m, s, v, c), tij2(m, s, v, b), tij2(m, s, v, c));
    }
    assert(is_best(m, s, v, b));
    lemma_best_unique(m, s, v, b);
}

/// The ids of the areas that hold some node.
pub open spec fn area_ids(s: Seq<usize>) -> Set<int> {
    Set::new(|a: int| 0 <= a < s.len() && present(s, a))
}

pub proof fn lemma_step_areas(m: Seq<Seq<u32>>, s: Seq<usize>, v: int)
    requires
        0 <= v < s.len(),
    ensures
        first_step(m, s, v).len() == s.len(),
        late_step(m, s, v).len() == s.len(),
        forall|a: int|
            a != UNASSIGNED && #[trigger] present(first_step(m, s, v), a) ==> present(s, a),
        forall|a: int|
            a != UNASSIGNED && #[trigger] present(late_step(m, s, v), a) ==> present(s, a),
{
    if has_candidate(m, s, v) {
        lemma_best_exists(m, s, v);
        let b = best(m, s, v);
        let u = choose|u: int| 0 <= u < s.len() && linked(m, u, v) && s[u] == b;
        assert(s[u] == b);
    }
    assert forall|a: int|
        a != UNASSIGNED && #[trigger] present(first_step(m, s, v), a) implies present(s, a) by {
        let t = first_step(m, s, v);
        let x = choose|x: int| 0 <= x < t.len() && t[x] == a;
        if x != v {
            assert(s[x] == a);
        }
    }
    assert forall|a: int|
        a != UNASSIGNED && #[trigger] present(late_step(m, s, v), a) implies present(s, a) by {
        let t = late_step(m, s, v);
        let x = choose|x: int| 0 <= x < t.len() && t[x] == a;
        if x != v {
            assert(s[x] == a);
        }
    }
}

pub proof fn lemma_passes_areas(m: Seq<Seq<u32>>, s: Seq<usize>, vs: Seq<usize>, i: int)
    requires
        0 <= i <= vs.len(),
        forall|j: int| 0 <= j < vs.len() ==> #[trigger] vs[j] < s.len(),
    ensures
        first_pass(m, s, vs, i).len() == s.len(),
        late_pass(m, s, vs, i).len() == s.len(),
        forall|a: int|
            a != UNASSIGNED && #[trigger] present(first_pass(m, s, vs, i), a) ==> present(s, a),
        forall|a: int|
            a != UNASSIGNED && #[trigger] present(late_pass(m, s, vs, i), a) ==> present(s, a),
    decreases i,
{
    if i > 0 {
        lemma_passes_areas(m, s, vs, i - 1);
        lemma_step_areas(m, first_pass(m, s, vs, i - 1), vs[i - 1] as int);
        lemma_step_areas(m, late_pass(m, s, vs, i - 1), vs[i - 1] as int);
    }
}

pub proof fn lemma_settle_areas(m: Seq<Seq<u32>>, s: Seq<usize>, vs: Seq<usize>, fuel: nat)
    requires
        forall|j: int| 0 <= j < vs.len() ==> #[trigger] vs[j] < s.len(),
    ensures
        settle(m, s, vs, fuel).len() == s.len(),
        forall|a: int|
            a != UNASSIGNED && #[trigger] present(settle(m, s, vs, fuel), a) ==> present(s, a),
    decreases fuel,
{
    if fuel > 0 {
        lemma_passes_areas(m, s, vs, vs.len() as int);
        let t = late_pass(m, s, vs, vs.len() as int);
        lemma_settle_areas(m, t, vs, (fuel - 1) as nat);
    }
}

/// A round never adds an area: the areas after it are among those before
/// it, and when the dissolved area has kept no node there is one fewer.
pub proof fn lemma_round_progress(m: Seq<Seq<u32>>, s: Seq<usize>)
    requires
        s.len() <= usize::MAX,
        round(m, s).is_some(),
    ensures
        area_ids(round(m, s).unwrap()).subset_of(area_ids(s)),
        area_ids(round(m, s).unwrap()).len() <= area_ids(s).len(),
        !present(round(m, s).unwrap(), worst(m, s)) ==> area_ids(round(m, s).unwrap()).len()
            < area_ids(s).len(),
{
    let n = s.len() as int;
    let w = worst(m, s);
    lemma_worst_eligible(m, s, n);
    let vs = members(s, w);
    lemma_members(s, w, n);
    let c0 = clear(s, w);
    let first = first_pass(m, c0, vs, vs.len() as int);
    assert forall|j: int| 0 <= j < vs.len() implies #[trigger] vs[j] < c0.len() by {}
    lemma_passes_areas(m, c0, vs, vs.len() as int);
    lemma_settle_areas(m, first, vs, vs.len());
    let settled = settle(m, first, vs, vs.len());
    let t = round(m, s).unwrap();
    assert(t == restore(settled, w));
    let before = area_ids(s);
    let after = area_ids(t);
    assert forall|a: int| #[trigger] after.contains(a) implies before.contains(a) by {
        let x = choose|x: int| 0 <= x < t.len() && t[x] == a;
        if a != w {
            assert(settled[x] == a);
            assert(a != UNASSIGNED);
            assert(present(settled, a));
            assert(present(first, a));
            assert(present(c0, a));
            let y = choose|y: int| 0 <= y < c0.len() && c0[y] == a;
            assert(s[y] == a);
        }
    }
    lemma_int_range(0, n);
    assert(before.subset_of(set_int_range(0, n)));
    lemma_len_subset(before, set_int_range(0, n));
    lemma_len_subset(after, before);
    if !present(t, w) {
        assert forall|a: int| #[trigger] after.contains(a) implies before.remove(w).contains(a) by {
            assert(before.contains(a));
        }
        assert(after.subset_of(before.remove(w)));
        lemma_len_subset(after, before.remove(w));
    }
}

} // verus!
