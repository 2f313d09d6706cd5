//! Areas stay connected, so that dissolving an area that is not closed
//! places every one of its nodes elsewhere.
use vstd::prelude::*;
use crate::graph::{col_sum, is_square, prefix_sum};
use crate::model::{flow_in, flow_out, from_set, inner_cols, inner_rows, mask, to_set};
use crate::rules::{
    area_ids, best, candidate, clear, dissolve, eligible, first_pass, first_step, fit_result,
    has_candidate, is_closed, late_pass, late_step, lemma_best_exists, lemma_members,
    lemma_passes_areas, lemma_round_progress, lemma_settle_areas, lemma_worst_eligible, linked,
    members, present, restore, round, settle, worst, UNASSIGNED,
};

verus! {

/// The nodes of area `a`.
pub open spec fn area_set(s: Seq<usize>, a: int) -> Set<int> {
    Set::new(|u: int| 0 <= u < s.len() && s[u] == a)
}

/// Area `a` cannot be cut in two parts without an edge between them.
pub open spec fn connected(m: Seq<Seq<u32>>, s: Seq<usize>, a: int) -> bool {
    forall|t: Set<int>|
        #![trigger t.subset_of(area_set(s, a))]
        t.subset_of(area_set(s, a)) && t != Set::<int>::empty() && t != area_set(s, a) ==> exists|
            x: int,
            y: int,
        | t.contains(x) && area_set(s, a).contains(y) && !t.contains(y) && linked(m, x, y)
}

/// Every area is connected.
pub open spec fn all_connected(m: Seq<Seq<u32>>, s: Seq<usize>) -> bool {
    forall|a: int| a != UNASSIGNED ==> #[trigger] connected(m, s, a)
}

/// Every node is in an area with an id below the number of nodes.
pub open spec fn assigned(s: Seq<usize>) -> bool {
    forall|u: int| 0 <= u < s.len() ==> #[trigger] s[u] < s.len()
}

proof fn lemma_single_connected(m: Seq<Seq<u32>>, s: Seq<usize>, a: int)
    requires
        forall|u: int, w: int|
            0 <= u < s.len() && 0 <= w < s.len() && s[u] == a && s[w] == a ==> u == w,
    ensures
        connected(m, s, a),
{
    assert forall|t: Set<int>|
        #![trigger t.subset_of(area_set(s, a))]
        t.subset_of(area_set(s, a)) && t != Set::<int>::empty() && t != area_set(s, a) implies exists|
            x: int,
            y: int,
        | t.contains(x) && area_set(s, a).contains(y) && !t.contains(y) && linked(m, x, y) by {
        let x = t.choose();
        assert(t.contains(x)) by {
            if !t.contains(x) {
                assert(t =~= Set::<int>::empty());
            }
        }
        assert(t =~= area_set(s, a)) by {
            assert forall|u: int| area_set(s, a).contains(u) implies t.contains(u) by {
                assert(area_set(s, a).contains(x));
            }
        }
    }
}

proof fn lemma_same_set_connected(m: Seq<Seq<u32>>, s1: Seq<usize>, s2: Seq<usize>, a: int)
    requires
        area_set(s1, a) == area_set(s2, a),
        connected(m, s1, a),
    ensures
        connected(m, s2, a),
{
    assert forall|t: Set<int>|
        #![trigger t.subset_of(area_set(s2, a))]
        t.subset_of(area_set(s2, a)) && t != Set::<int>::empty() && t != area_set(s2, a) implies exists|
            x: int,
            y: int,
        | t.contains(x) && area_set(s2, a).contains(y) && !t.contains(y) && linked(m, x, y) by {
        assert(t.subset_of(area_set(s1, a)));
    }
}

proof fn lemma_empty_connected(m: Seq<Seq<u32>>, s: Seq<usize>, a: int)
    requires
        area_set(s, a) == Set::<int>::empty(),
    ensures
        connected(m, s, a),
{
    assert forall|t: Set<int>|
        #![trigger t.subset_of(area_set(s, a))]
        t.subset_of(area_set(s, a)) && t != Set::<int>::empty() && t != area_set(s, a) implies exists|
            x: int,
            y: int,
        | t.contains(x) && area_set(s, a).contains(y) && !t.contains(y) && linked(m, x, y) by {
        assert(t =~= Set::<int>::empty());
    }
}

/// In the singleton partition every area is connected.
pub proof fn lemma_singletons_connected(m: Seq<Seq<u32>>, n: nat)
    requires
        n <= usize::MAX,
    ensures
        all_connected(m, Seq::new(n, |u: int| u as usize)),
{
    let s = Seq::new(n, |u: int| u as usize);
    assert forall|a: int| a != UNASSIGNED implies #[trigger] connected(m, s, a) by {
        assert forall|u: int, w: int|
            0 <= u < s.len() && 0 <= w < s.len() && s[u] == a && s[w] == a implies u == w by {}
        lemma_single_connected(m, s, a);
    }
}

/// Attaching the unassigned node `v` to area `b`, which holds a neighbour of
/// `v`, keeps every area connected.
proof fn lemma_attach_connected(m: Seq<Seq<u32>>, s: Seq<usize>, v: int, b: int)
    requires
        0 <= v < s.len(),
        s[v] == UNASSIGNED,
        candidate(m, s, v, b),
        all_connected(m, s),
    ensures
        all_connected(m, s.update(v, b as usize)),
{
    let s2 = s.update(v, b as usize);
    let u = choose|u: int| 0 <= u < s.len() && linked(m, u, v) && s[u] == b;
    assert forall|c: int| c != UNASSIGNED implies #[trigger] connected(m, s2, c) by {
        if c != b {
            assert(area_set(s2, c) =~= area_set(s, c));
            assert(connected(m, s, c));
            lemma_same_set_connected(m, s, s2, c);
        } else {
            let big = area_set(s2, b);
            let small = area_set(s, b);
            assert(big =~= small.insert(v));
            assert(connected(m, s, b));
            assert forall|t: Set<int>|
                #![trigger t.subset_of(area_set(s2, c))]
                t.subset_of(area_set(s2, c)) && t != Set::<int>::empty() && t != area_set(s2, c)
                    implies exists|x: int, y: int|
                t.contains(x) && area_set(s2, c).contains(y) && !t.contains(y) && linked(m, x, y) by {
                let t0 = t.remove(v);
                assert(t0.subset_of(small));
                if !t.contains(v) {
                    assert(t0 =~= t);
                    if t0 =~= small {
                        assert(t.contains(u) && big.contains(v) && !t.contains(v) && linked(m, u, v));
                    } else {
                        assert(t0.subset_of(area_set(s, b)));
                        let (x, y) = choose|x: int, y: int|
                            t0.contains(x) && small.contains(y) && !t0.contains(y) && linked(m, x, y);
                        assert(t.contains(x) && big.contains(y) && !t.contains(y) && linked(m, x, y));
                    }
                } else {
                    if t0 =~= Set::<int>::empty() {
                        assert(u != v);
                        assert(!t.contains(u)) by {
                            if t.contains(u) {
                                assert(t0.contains(u));
                            }
                        }
                        assert(t.contains(v) && big.contains(u) && !t.contains(u) && linked(m, v, u));
                    } else if t0 =~= small {
                        assert(t =~= big);
                    } else {
                        assert(t0.subset_of(area_set(s, b)));
                        let (x, y) = choose|x: int, y: int|
                            t0.contains(x) && small.contains(y) && !t0.contains(y) && linked(m, x, y);
                        assert(y != v);
                        assert(t.contains(x) && big.contains(y) && !t.contains(y) && linked(m, x, y));
                    }
                }
            }
        }
    }
}

proof fn lemma_first_step_connected(m: Seq<Seq<u32>>, s: Seq<usize>, v: int)
    requires
        0 <= v < s.len(),
        s[v] == UNASSIGNED,
        all_connected(m, s),
    ensures
        all_connected(m, first_step(m, s, v)),
        all_connected(m, late_step(m, s, v)),
{
    if has_candidate(m, s, v) {
        lemma_best_exists(m, s, v);
        lemma_attach_connected(m, s, v, best(m, s, v));
    }
}

/// The first placements keep areas connected and leave later members
/// unassigned.
proof fn lemma_first_pass_connected(m: Seq<Seq<u32>>, s: Seq<usize>, vs: Seq<usize>, i: int)
    requires
        0 <= i <= vs.len(),
        forall|j: int| 0 <= j < vs.len() ==> #[trigger] vs[j] < s.len() && s[vs[j] as int] == UNASSIGNED,
        forall|j: int, k: int| 0 <= j < k < vs.len() ==> vs[j] < vs[k],
        all_connected(m, s),
    ensures
        all_connected(m, first_pass(m, s, vs, i)),
        first_pass(m, s, vs, i).len() == s.len(),
        forall|j: int| i <= j < vs.len() ==> #[trigger] first_pass(m, s, vs, i)[vs[j] as int] == UNASSIGNED,
    decreases i,
{
    if i > 0 {
        lemma_first_pass_connected(m, s, vs, i - 1);
        let p = first_pass(m, s, vs, i - 1);
        lemma_first_step_connected(m, p, vs[i - 1] as int);
        assert forall|j: int| i <= j < vs.len() implies #[trigger] first_pass(m, s, vs, i)[vs[j] as int]
            == UNASSIGNED by {
            assert(vs[i - 1] < vs[j]);
            assert(p[vs[j] as int] == UNASSIGNED);
        }
    }
}

/// Later placements only fill unassigned entries.
proof fn lemma_late_pass_keeps(m: Seq<Seq<u32>>, s: Seq<usize>, vs: Seq<usize>, i: int, k: int)
    requires
        0 <= i <= k <= vs.len(),
        forall|j: int| 0 <= j < vs.len() ==> #[trigger] vs[j] < s.len(),
    ensures
        late_pass(m, s, vs, k).len() == s.len(),
        forall|u: int|
            0 <= u < s.len() && late_pass(m, s, vs, i)[u] != UNASSIGNED ==> #[trigger] late_pass(
                m,
                s,
                vs,
                k,
            )[u] == late_pass(m, s, vs, i)[u],
        forall|u: int|
            0 <= u < s.len() && #[trigger] late_pass(m, s, vs, k)[u] != late_pass(m, s, vs, i)[u]
                ==> exists|j: int| i <= j < k && vs[j] == u,
    decreases k,
{
    if k > i {
        lemma_late_pass_keeps(m, s, vs, i, k - 1);
        let p = late_pass(m, s, vs, k - 1);
        let v = vs[k - 1] as int;
        if p[v] == UNASSIGNED && has_candidate(m, p, v) {
            lemma_best_exists(m, p, v);
        }
        assert forall|u: int|
            0 <= u < s.len() && #[trigger] late_pass(m, s, vs, k)[u] != late_pass(m, s, vs, i)[u]
                implies exists|j: int| i <= j < k && vs[j] == u by {
            if u == v {
                assert(vs[k - 1] == u);
            } else {
                assert(late_pass(m, s, vs, k)[u] == p[u]);
            }
        }
    } else {
        if k > 0 {
            lemma_late_pass_keeps(m, s, vs, 0, k - 1);
        }
    }
}

proof fn lemma_late_pass_connected(m: Seq<Seq<u32>>, s: Seq<usize>, vs: Seq<usize>, i: int)
    requires
        0 <= i <= vs.len(),
        forall|j: int| 0 <= j < vs.len() ==> #[trigger] vs[j] < s.len(),
        all_connected(m, s),
    ensures
        all_connected(m, late_pass(m, s, vs, i)),
    decreases i,
{
    if i > 0 {
        lemma_late_pass_connected(m, s, vs, i - 1);
        lemma_late_pass_keeps(m, s, vs, 0, i - 1);
        let p = late_pass(m, s, vs, i - 1);
        let v = vs[i - 1] as int;
        if p[v] == UNASSIGNED {
            lemma_first_step_connected(m, p, v);
        }
    }
}

/// Number of the first `k` entries of `vs` that are unassigned.
pub open spec fn waiting(s: Seq<usize>, vs: Seq<usize>, k: int) -> int
    decreases k,
{
    if k <= 0 {
        0
    } else {
        waiting(s, vs, k - 1) + if s[vs[k - 1] as int] == UNASSIGNED {
            1int
        } else {
            0
        }
    }
}

proof fn lemma_waiting_less(s: Seq<usize>, t: Seq<usize>, vs: Seq<usize>, k: int, u: int)
    requires
        0 <= k <= vs.len(),
        forall|j: int| 0 <= j < vs.len() ==> #[trigger] vs[j] < s.len(),
        forall|x: int| 0 <= x < s.len() && #[trigger] t[x] == UNASSIGNED ==> s[x] == UNASSIGNED,
    ensures
        0 <= waiting(t, vs, k) <= waiting(s, vs, k) <= k,
        (exists|j: int| 0 <= j < k && vs[j] == u) && s[u] == UNASSIGNED && t[u] != UNASSIGNED
            ==> waiting(t, vs, k) < waiting(s, vs, k),
    decreases k,
{
    if k > 0 {
        lemma_waiting_less(s, t, vs, k - 1, u);
        if (exists|j: int| 0 <= j < k && vs[j] == u) && s[u] == UNASSIGNED && t[u] != UNASSIGNED {
            if vs[k - 1] != u {
                let j = choose|j: int| 0 <= j < k && vs[j] == u;
                assert(j < k - 1);
            }
        }
    }
}

/// After enough later passes, either no member waits or a pass places
/// nobody.
proof fn lemma_settle_done(m: Seq<Seq<u32>>, s: Seq<usize>, vs: Seq<usize>, fuel: nat)
    requires
        forall|j: int| 0 <= j < vs.len() ==> #[trigger] vs[j] < s.len(),
        waiting(s, vs, vs.len() as int) <= fuel,
    ensures
        ({
            let r = settle(m, s, vs, fuel);
            waiting(r, vs, vs.len() as int) == 0 || late_pass(m, r, vs, vs.len() as int) == r
        }),
        settle(m, s, vs, fuel).len() == s.len(),
        forall|x: int|
            0 <= x < s.len() && #[trigger] settle(m, s, vs, fuel)[x] == UNASSIGNED ==> s[x]
                == UNASSIGNED,
    decreases fuel,
{
    let n = vs.len() as int;
    lemma_waiting_less(s, s, vs, n, 0);
    if fuel > 0 {
        let t = late_pass(m, s, vs, n);
        lemma_late_pass_keeps(m, s, vs, 0, n);
        assert forall|x: int| 0 <= x < s.len() && #[trigger] t[x] == UNASSIGNED implies s[x]
            == UNASSIGNED by {
            assert(late_pass(m, s, vs, 0) == s);
        }
        if t != s {
            assert(late_pass(m, s, vs, 0) == s);
            assert(t.len() == s.len());
            assert(exists|u: int| 0 <= u < s.len() && t[u] != s[u]) by {
                if !(exists|u: int| 0 <= u < s.len() && t[u] != s[u]) {
                    assert(t =~= s);
                }
            }
            let u = choose|u: int| 0 <= u < s.len() && t[u] != s[u];
            assert(s[u] == UNASSIGNED);
            lemma_waiting_less(s, t, vs, n, u);
            lemma_settle_done(m, t, vs, (fuel - 1) as nat);
        }
    }
}

/// At a pass that places nobody, no waiting member has a candidate area.
proof fn lemma_fixpoint(m: Seq<Seq<u32>>, r: Seq<usize>, vs: Seq<usize>, j: int)
    requires
        forall|k: int| 0 <= k < vs.len() ==> #[trigger] vs[k] < r.len(),
        late_pass(m, r, vs, vs.len() as int) == r,
        0 <= j < vs.len(),
        r[vs[j] as int] == UNASSIGNED,
    ensures
        !has_candidate(m, r, vs[j] as int),
{
    let n = vs.len() as int;
    let v = vs[j] as int;
    lemma_late_pass_keeps(m, r, vs, 0, j);
    lemma_late_pass_keeps(m, r, vs, j + 1, n);
    lemma_late_pass_keeps(m, r, vs, 0, j + 1);
    let p = late_pass(m, r, vs, j);
    assert(p =~= r) by {
        assert forall|u: int| 0 <= u < r.len() implies p[u] == r[u] by {
            if p[u] != r[u] {
                assert(late_pass(m, r, vs, 0) == r);
                assert(r[u] == UNASSIGNED);
                assert(late_pass(m, r, vs, n)[u] == p[u]);
            }
        }
    }
    if has_candidate(m, r, v) {
        lemma_best_exists(m, r, v);
        let q = late_pass(m, r, vs, j + 1);
        assert(q[v] != UNASSIGNED);
        assert(late_pass(m, r, vs, n)[v] == q[v]);
    }
}

proof fn lemma_no_crossing_rows(m: Seq<Seq<u32>>, p: Seq<bool>, u: int, k: int)
    requires
        is_square(m),
        p.len() == m.len(),
        0 <= u < m.len(),
        p[u],
        0 <= k <= m.len(),
        forall|y: int| 0 <= y < m.len() && !p[y] ==> m[u][y] == 0 && m[y][u] == 0,
    ensures
        to_set(m, p, u, k) == prefix_sum(m[u], k),
        from_set(m, p, u, k) == col_sum(m, u, k),
    decreases k,
{
    if k > 0 {
        lemma_no_crossing_rows(m, p, u, k - 1);
    }
}

proof fn lemma_no_crossing_sums(m: Seq<Seq<u32>>, p: Seq<bool>, k: int)
    requires
        is_square(m),
        p.len() == m.len(),
        0 <= k <= m.len(),
        forall|x: int, y: int|
            0 <= x < m.len() && 0 <= y < m.len() && p[x] && !p[y] ==> m[x][y] == 0 && m[y][x] == 0,
    ensures
        inner_rows(m, p, k, m.len() as int) == flow_out(m, p, k),
        inner_cols(m, p, m.len() as int, k) == flow_in(m, p, k),
    decreases k,
{
    if k > 0 {
        lemma_no_crossing_sums(m, p, k - 1);
        if p[k - 1] {
            lemma_no_crossing_rows(m, p, k - 1, m.len() as int);
        }
    }
}

/// A node set with no edge leaving or entering it keeps all its flow inside.
proof fn lemma_no_crossing_closed(m: Seq<Seq<u32>>, s: Seq<usize>, a: int)
    requires
        is_square(m),
        s.len() == m.len(),
        forall|x: int, y: int|
            0 <= x < s.len() && 0 <= y < s.len() && s[x] == a && s[y] != a ==> !linked(m, x, y),
    ensures
        is_closed(m, s, a),
{
    let p = mask(s, a);
    assert forall|x: int, y: int|
        0 <= x < m.len() && 0 <= y < m.len() && p[x] && !p[y] implies m[x][y] == 0 && m[y][x] == 0 by {
        assert(!linked(m, x, y));
    }
    lemma_no_crossing_sums(m, p, m.len() as int);
    crate::model::lemma_inner_bounds(m, p);
    crate::model::lemma_inner_by_columns(m, p);
}

/// Dissolving an eligible area of a partition into connected areas places
/// every one of its nodes in another area and keeps the areas connected.
pub proof fn lemma_dissolve_complete(m: Seq<Seq<u32>>, s: Seq<usize>, w: int)
    requires
        is_square(m),
        s.len() == m.len(),
        s.len() <= usize::MAX,
        assigned(s),
        all_connected(m, s),
        eligible(m, s, w),
    ensures
        !present(dissolve(m, s, w), w),
        all_connected(m, dissolve(m, s, w)),
        assigned(dissolve(m, s, w)),
{
    let n = s.len() as int;
    let vs = members(s, w);
    lemma_members(s, w, n);
    let c0 = clear(s, w);
    assert forall|j: int| 0 <= j < vs.len() implies #[trigger] vs[j] < c0.len() && c0[vs[j] as int]
        == UNASSIGNED by {}
    assert(all_connected(m, c0)) by {
        assert forall|c: int| c != UNASSIGNED implies #[trigger] connected(m, c0, c) by {
            if c != w {
                assert(area_set(c0, c) =~= area_set(s, c));
                assert(connected(m, s, c));
                lemma_same_set_connected(m, s, c0, c);
            } else {
                assert(area_set(c0, c) =~= Set::<int>::empty());
                lemma_empty_connected(m, c0, c);
            }
        }
    }
    lemma_first_pass_connected(m, c0, vs, vs.len() as int);
    let first = first_pass(m, c0, vs, vs.len() as int);
    lemma_passes_areas(m, c0, vs, vs.len() as int);
    lemma_waiting_less(first, first, vs, vs.len() as int, 0);
    lemma_settle_done(m, first, vs, vs.len());
    let r = settle(m, first, vs, vs.len());
    lemma_settle_areas(m, first, vs, vs.len());
    lemma_settle_connected(m, first, vs, vs.len());
    // Every waiting node was a member of `w`, and so is listed in `vs`.
    assert forall|x: int| 0 <= x < n && #[trigger] r[x] == UNASSIGNED implies s[x] == w && vs.contains(
        x as usize,
    ) by {
        lemma_first_pass_unassigned(m, c0, vs, vs.len() as int, x);
        assert(s[x] < n);
    }
    let waiting_set = Set::new(|x: int| 0 <= x < n && r[x] == UNASSIGNED);
    let area = area_set(s, w);
    assert(waiting_set.subset_of(area));
    if waiting(r, vs, vs.len() as int) != 0 {
        assert(late_pass(m, r, vs, vs.len() as int) == r);
        // Waiting nodes have all their neighbours waiting too.
        assert forall|x: int, y: int|
            waiting_set.contains(x) && 0 <= y < n && linked(m, x, y) implies waiting_set.contains(y) by {
            let j = choose|j: int| 0 <= j < vs.len() && vs[j] == x as usize;
            lemma_fixpoint(m, r, vs, j);
            if r[y] != UNASSIGNED {
                assert(linked(m, y, x));
                assert(candidate(m, r, x, r[y] as int));
            }
        }
        lemma_waiting_nonempty(r, vs, vs.len() as int);
        let j0 = choose|j: int| 0 <= j < vs.len() && r[vs[j] as int] == UNASSIGNED;
        assert(waiting_set.contains(vs[j0] as int));
        if waiting_set =~= area {
            assert forall|x: int, y: int|
                0 <= x < s.len() && 0 <= y < s.len() && s[x] == w && s[y] != w implies !linked(m, x, y) by {
                if linked(m, x, y) {
                    assert(waiting_set.contains(x));
                    assert(waiting_set.contains(y));
                }
            }
            lemma_no_crossing_closed(m, s, w);
        } else {
            assert(connected(m, s, w));
            assert(waiting_set.subset_of(area_set(s, w)));
            assert(waiting_set != Set::<int>::empty());
            assert(waiting_set != area);
            let (x, y) = choose|x: int, y: int|
                waiting_set.contains(x) && area.contains(y) && !waiting_set.contains(y) && linked(m, x, y);
            assert(waiting_set.contains(y));
        }
    }
    assert forall|x: int| 0 <= x < n implies #[trigger] r[x] != UNASSIGNED by {
        if r[x] == UNASSIGNED {
            lemma_waiting_positive(r, vs, vs.len() as int, x);
        }
    }
    assert(restore(r, w) =~= r);
    assert(!present(r, w)) by {
        if present(r, w) {
            assert(present(c0, w));
        }
    }
    assert forall|u: int| 0 <= u < n implies #[trigger] r[u] < n by {
        assert(present(r, r[u] as int));
        assert(present(c0, r[u] as int));
        let y = choose|y: int| 0 <= y < c0.len() && c0[y] == r[u] as int;
        assert(s[y] == c0[y]);
    }
}

proof fn lemma_settle_connected(m: Seq<Seq<u32>>, s: Seq<usize>, vs: Seq<usize>, fuel: nat)
    requires
        forall|j: int| 0 <= j < vs.len() ==> #[trigger] vs[j] < s.len(),
        all_connected(m, s),
    ensures
        all_connected(m, settle(m, s, vs, fuel)),
    decreases fuel,
{
    if fuel > 0 {
        lemma_late_pass_connected(m, s, vs, vs.len() as int);
        lemma_late_pass_keeps(m, s, vs, 0, vs.len() as int);
        lemma_settle_connected(m, late_pass(m, s, vs, vs.len() as int), vs, (fuel - 1) as nat);
    }
}

proof fn lemma_first_pass_unassigned(m: Seq<Seq<u32>>, s: Seq<usize>, vs: Seq<usize>, i: int, x: int)
    requires
        0 <= i <= vs.len(),
        0 <= x < s.len(),
        forall|j: int| 0 <= j < vs.len() ==> #[trigger] vs[j] < s.len(),
        first_pass(m, s, vs, i)[x] == UNASSIGNED,
    ensures
        s[x] == UNASSIGNED,
    decreases i,
{
    if i > 0 {
        let p = first_pass(m, s, vs, i - 1);
        let v = vs[i - 1] as int;
        lemma_passes_areas(m, s, vs, i - 1);
        if has_candidate(m, p, v) {
            lemma_best_exists(m, p, v);
        }
        lemma_first_pass_unassigned(m, s, vs, i - 1, x);
    }
}

proof fn lemma_waiting_nonempty(r: Seq<usize>, vs: Seq<usize>, k: int)
    requires
        0 <= k <= vs.len(),
        waiting(r, vs, k) != 0,
    ensures
        exists|j: int| 0 <= j < k && r[vs[j] as int] == UNASSIGNED,
    decreases k,
{
    if k > 0 && r[vs[k - 1] as int] != UNASSIGNED {
        lemma_waiting_nonempty(r, vs, k - 1);
    }
}

proof fn lemma_waiting_positive(r: Seq<usize>, vs: Seq<usize>, k: int, x: int)
    requires
        0 <= k <= vs.len(),
        r[x] == UNASSIGNED,
        exists|j: int| 0 <= j < k && vs[j] == x,
    ensures
        waiting(r, vs, k) > 0,
    decreases k,
{
    if k > 0 {
        if vs[k - 1] != x {
            let j = choose|j: int| 0 <= j < k && vs[j] == x;
            lemma_waiting_positive(r, vs, k - 1, x);
        }
        lemma_waiting_nonneg(r, vs, k - 1);
    }
}

proof fn lemma_waiting_nonneg(r: Seq<usize>, vs: Seq<usize>, k: int)
    ensures
        waiting(r, vs, k) >= 0,
    decreases k,
{
    if k > 0 {
        lemma_waiting_nonneg(r, vs, k - 1);
    }
}

/// In a partition into connected areas, every round that dissolves an area
/// leaves strictly fewer areas, again connected.
pub proof fn lemma_round_shrinks(m: Seq<Seq<u32>>, s: Seq<usize>)
    requires
        is_square(m),
        s.len() == m.len(),
        s.len() <= usize::MAX,
        assigned(s),
        all_connected(m, s),
        round(m, s).is_some(),
    ensures
        area_ids(round(m, s).unwrap()).len() < area_ids(s).len(),
        all_connected(m, round(m, s).unwrap()),
        assigned(round(m, s).unwrap()),
{
    lemma_worst_eligible(m, s, s.len() as int);
    lemma_dissolve_complete(m, s, worst(m, s));
    lemma_round_progress(m, s);
}

/// Over a whole fit from a partition into connected areas (such as the
/// singleton partition), the number of areas never grows, and the areas stay
/// connected.
pub proof fn lemma_fit_area_count(m: Seq<Seq<u32>>, s: Seq<usize>, k: nat)
    requires
        is_square(m),
        s.len() == m.len(),
        s.len() <= usize::MAX,
        assigned(s),
        all_connected(m, s),
    ensures
        area_ids(fit_result(m, s, k).0).len() <= area_ids(s).len(),
        all_connected(m, fit_result(m, s, k).0),
        assigned(fit_result(m, s, k).0),
        fit_result(m, s, k).0.len() == s.len(),
    decreases k,
{
    match round(m, s) {
        None => {},
        Some(t) => {
            if k > 0 {
                lemma_round_shrinks(m, s);
                lemma_dissolve_len(m, s, worst(m, s));
                lemma_fit_area_count(m, t, (k - 1) as nat);
            }
        },
    }
}

proof fn lemma_dissolve_len(m: Seq<Seq<u32>>, s: Seq<usize>, w: int)
    requires
        s.len() <= usize::MAX,
    ensures
        dissolve(m, s, w).len() == s.len(),
{
    let vs = members(s, w);
    lemma_members(s, w, s.len() as int);
    let c0 = clear(s, w);
    assert forall|j: int| 0 <= j < vs.len() implies #[trigger] vs[j] < c0.len() by {}
    lemma_passes_areas(m, c0, vs, vs.len() as int);
    lemma_settle_areas(m, first_pass(m, c0, vs, vs.len() as int), vs, vs.len());
}

} // verus!
