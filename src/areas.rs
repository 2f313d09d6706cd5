//! The fit engine: a partition of the graph's nodes into areas with cached
//! aggregates, refined by dissolving the worst-scoring area round by round.
use vstd::prelude::*;
use crate::graph::{
    col_total, in_edges_upto, is_square, matrix_total, out_edges_upto, row_total, Edge,
    EdgeDirection, Graph, MAX_TOTAL_FLOW,
};
use crate::model::{
    containment, demand, flow_in, flow_out, from_set, inner_rows, lemma_add_node,
    lemma_flows_le_total, lemma_inner_bounds, lemma_node_set_flow_bounds, mask, supply, to_set,
};
use rustc_hash::{FxBuildHasher, FxHashSet};
use crate::connect::{all_connected, lemma_fit_area_count, lemma_singletons_connected};
use crate::rules::{
    best, candidate, clear, dissolve, eligible, first_pass, first_step, fit_result, has_candidate,
    is_best, late_pass, late_step, lemma_best_unique, lemma_members, lemma_tij2_ok, linked,
    area_ids, members, members_upto, present, restore, settle, tij2, worst, worst_upto, x_of,
    UNASSIGNED,
};
use crate::score::{
    attachment_eq, attachment_gt, attachment_index, frac_eq, frac_lt, lemma_frac_order,
    score_bounded, score_lt, x_score,
};

verus! {

/// Declares `rustc_hash::FxBuildHasher`, the hasher of `FxHashSet`, as an
/// opaque type.
#[verifier::external_type_specification]
#[verifier::external_body]
pub struct ExFxBuildHasher(FxBuildHasher);

/// Relies on `HashSet::insert` under rustc-hash's `FxBuildHasher` (a
/// stateless, deterministic hasher): afterwards the set also holds `v`.
#[verifier::external_body]
fn fx_insert(set: &mut FxHashSet<usize>, v: usize)
    ensures
        final(set)@ == old(set)@.insert(v),
{
    set.insert(v);
}

/// Relies on `HashSet::remove` under rustc-hash's `FxBuildHasher`:
/// afterwards the set no longer holds `v`.
#[verifier::external_body]
fn fx_remove(set: &mut FxHashSet<usize>, v: usize)
    ensures
        final(set)@ == old(set)@.remove(v),
{
    set.remove(&v);
}

/// Relies on `HashSet::contains` under rustc-hash's `FxBuildHasher`: whether
/// the set holds `v`.
#[verifier::external_body]
fn fx_contains(set: &FxHashSet<usize>, v: usize) -> (r: bool)
    ensures
        r == set@.contains(v),
{
    set.contains(&v)
}

/// An area: its id, its members and the cached aggregates over them.
#[derive(PartialEq, Eq, Debug)]
pub struct Area {
    pub id: usize,
    /// The member nodes.
    pub nodes: FxHashSet<usize>,
    /// Total demand: the in-degrees of the members.
    pub flow_to_area: u64,
    /// Total supply: the out-degrees of the members.
    pub flow_from_area: u64,
    /// Flow between members, each self-loop counted once.
    pub self_containment: u64,
}

impl Area {
    /// An area without members.
    fn new(id: usize) -> (a: Area)
        ensures
            a.id == id,
            a.nodes@ == Set::<usize>::empty(),
            a.flow_to_area == 0,
            a.flow_from_area == 0,
            a.self_containment == 0,
    {
        Area { id, nodes: FxHashSet::default(), flow_to_area: 0, flow_from_area: 0, self_containment: 0 }
    }
}

/// The nodes that the assignment `s` puts in area `a`.
pub open spec fn member_set(s: Seq<usize>, a: int) -> Set<usize> {
    Set::new(|u: usize| (u as int) < s.len() && s[u as int] == a)
}

/// Membership in a set of node ids, for the first `n` nodes.
pub open spec fn set_mask(set: Set<usize>, n: int) -> Seq<bool> {
    Seq::new(n as nat, |u: int| set.contains(u as usize))
}

proof fn lemma_set_mask(s: Seq<usize>, a: int)
    requires
        s.len() <= usize::MAX,
    ensures
        set_mask(member_set(s, a), s.len() as int) == mask(s, a),
{
    assert(set_mask(member_set(s, a), s.len() as int) =~= mask(s, a));
}

/// A partition of a graph's nodes into areas held in slots indexed by area
/// id; a dissolved area leaves its slot empty.
pub struct AreaCollection {
    pub areas: Vec<Option<Area>>,
    pub node_to_area: Vec<usize>,
    graph: Graph,
}

// ---------------------------------------------------------------------------
// Sums over edge lists
// ---------------------------------------------------------------------------

/// Weight of the edges of `es` whose target lies in `p`.
pub open spec fn out_sum(es: Seq<Edge>, p: Seq<bool>) -> int
    decreases es.len(),
{
    if es.len() == 0 {
        0
    } else {
        out_sum(es.drop_last(), p) + if p[es.last().target as int] {
            es.last().weight as int
        } else {
            0
        }
    }
}

/// Weight of the edges of `es` whose source lies in `p`.
pub open spec fn in_sum(es: Seq<Edge>, p: Seq<bool>) -> int
    decreases es.len(),
{
    if es.len() == 0 {
        0
    } else {
        in_sum(es.drop_last(), p) + if p[es.last().source as int] {
            es.last().weight as int
        } else {
            0
        }
    }
}

proof fn lemma_out_sum_matches(m: Seq<Seq<u32>>, p: Seq<bool>, v: int, k: int)
    requires
        is_square(m),
        m.len() <= usize::MAX,
        0 <= v < m.len(),
        0 <= k <= m.len(),
    ensures
        out_sum(out_edges_upto(m, v, k), p) == to_set(m, p, v, k),
    decreases k,
{
    if k > 0 {
        lemma_out_sum_matches(m, p, v, k - 1);
        if m[v][k - 1] > 0 {
            assert(out_edges_upto(m, v, k).drop_last() =~= out_edges_upto(m, v, k - 1));
        }
    }
}

proof fn lemma_in_sum_matches(m: Seq<Seq<u32>>, p: Seq<bool>, v: int, k: int)
    requires
        is_square(m),
        m.len() <= usize::MAX,
        0 <= v < m.len(),
        0 <= k <= m.len(),
    ensures
        in_sum(in_edges_upto(m, v, k), p) == from_set(m, p, v, k),
    decreases k,
{
    if k > 0 {
        lemma_in_sum_matches(m, p, v, k - 1);
        if m[k - 1][v] > 0 {
            assert(in_edges_upto(m, v, k).drop_last() =~= in_edges_upto(m, v, k - 1));
        }
    }
}

proof fn lemma_edge_sums_prefix(es: Seq<Edge>, p: Seq<bool>, i: int, j: int)
    requires
        0 <= i <= j <= es.len(),
    ensures
        0 <= out_sum(es.take(i), p) <= out_sum(es.take(j), p),
        0 <= in_sum(es.take(i), p) <= in_sum(es.take(j), p),
    decreases j,
{
    if j > 0 {
        assert(es.take(j).drop_last() =~= es.take(j - 1));
        if i < j {
            lemma_edge_sums_prefix(es, p, i, j - 1);
        } else {
            lemma_edge_sums_prefix(es, p, j - 1, j - 1);
        }
    } else {
        assert(es.take(0).len() == 0);
    }
}

proof fn lemma_empty_area(m: Seq<Seq<u32>>, p: Seq<bool>, k: int)
    requires
        p.len() == m.len(),
        0 <= k <= m.len(),
        forall|u: int| 0 <= u < p.len() ==> !p[u],
    ensures
        flow_in(m, p, k) == 0,
        flow_out(m, p, k) == 0,
        inner_rows(m, p, k, m.len() as int) == 0,
    decreases k,
{
    if k > 0 {
        lemma_empty_area(m, p, k - 1);
    }
}

impl AreaCollection {
    /// The flow matrix of the graph being partitioned.
    pub closed spec fn matrix(&self) -> Seq<Seq<u32>> {
        self.graph@
    }

    /// The area of each node.
    pub closed spec fn assignment(&self) -> Seq<usize> {
        self.node_to_area@
    }

    /// The slot of area id `a`.
    pub closed spec fn slot(&self, a: int) -> Option<Area> {
        self.areas@[a]
    }

    /// All slots, indexed by area id.
    pub closed spec fn slots(&self) -> Seq<Option<Area>> {
        self.areas@
    }

    /// The graph is well formed and there is one slot and one assignment
    /// per node.
    closed spec fn shape_ok(&self) -> bool {
        &&& self.graph.wf()
        &&& self.areas@.len() == self.graph@.len()
        &&& self.node_to_area@.len() == self.graph@.len()
    }

    /// Every filled slot holds its own id and the exact aggregates of its
    /// members; every assigned node points at a filled slot.
    closed spec fn slots_ok(&self) -> bool {
        let m = self.graph@;
        let s = self.node_to_area@;
        let n = m.len();
        &&& self.shape_ok()
        &&& forall|a: int|
            0 <= a < n && (#[trigger] self.areas@[a]).is_some() ==> {
                let ar = self.areas@[a].unwrap();
                &&& ar.id == a
                &&& ar.nodes@ == member_set(s, a)
                &&& ar.flow_to_area == demand(m, s, a)
                &&& ar.flow_from_area == supply(m, s, a)
                &&& ar.self_containment == containment(m, s, a)
            }
        &&& forall|u: int|
            0 <= u < n ==> #[trigger] s[u] == UNASSIGNED || (s[u] < n && self.areas@[s[u] as int].is_some())
    }

    /// The collection is a partition of the nodes with exact aggregates: each
    /// node is in a filled slot, and a slot is filled exactly when some node
    /// is in it.
    pub closed spec fn wf(&self) -> bool {
        let s = self.node_to_area@;
        let n = self.graph@.len();
        &&& self.slots_ok()
        &&& forall|u: int| 0 <= u < n ==> #[trigger] s[u] < n
        &&& forall|a: int|
            0 <= a < n ==> ((#[trigger] self.areas@[a]).is_some() <==> crate::rules::present(s, a))
    }

    /// Flow from node `v` into the node set `set`: its out-edges whose target
    /// is in the set.
    fn flow_from_node_to_area(&self, v: usize, set: &FxHashSet<usize>) -> (r: u64)
        requires
            self.shape_ok(),
            v < self.graph@.len(),
        ensures
            r == to_set(self.graph@, set_mask(set@, self.graph@.len() as int), v as int, self.graph@.len() as int),
    {
        let ghost m = self.graph@;
        let ghost p = set_mask(set@, m.len() as int);
        let es = self.graph.get_edges(v, EdgeDirection::Out);
        proof {
            self.graph.lemma_wf_matrix();
            lemma_out_sum_matches(m, p, v as int, m.len() as int);
            lemma_node_set_flow_bounds(m, p, v as int);
            crate::graph::lemma_degrees_le_total(m, v as int);
        }
        let mut acc: u64 = 0;
        let mut i: usize = 0;
        while i < es.len()
            invariant
                self.shape_ok(),
                m == self.graph@,
                is_square(m),
                m.len() <= usize::MAX,
                p == set_mask(set@, m.len() as int),
                v < m.len(),
                es@ == out_edges_upto(m, v as int, m.len() as int),
                out_sum(es@, p) == to_set(m, p, v as int, m.len() as int),
                to_set(m, p, v as int, m.len() as int) <= row_total(m, v as int),
                row_total(m, v as int) <= MAX_TOTAL_FLOW,
                i <= es.len(),
                acc == out_sum(es@.take(i as int), p),
            decreases es.len() - i,
        {
            let e = es[i];
            proof {
                lemma_out_edge_facts(m, v as int, m.len() as int, i as int);
                assert(es@.take(i as int + 1).drop_last() =~= es@.take(i as int));
                lemma_edge_sums_prefix(es@, p, i as int + 1, es@.len() as int);
                assert(es@.take(es@.len() as int) =~= es@);
            }
            if fx_contains(set, e.target) {
                acc = acc + e.weight as u64;
            }
            i = i + 1;
        }
        proof {
            assert(es@.take(es@.len() as int) =~= es@);
        }
        acc
    }

    /// Flow into node `v` from the members of the node set `set` other
    /// than `v`.
    fn flow_from_area_to_node(&self, v: usize, set: &FxHashSet<usize>) -> (r: u64)
        requires
            self.shape_ok(),
            v < self.graph@.len(),
        ensures
            r == from_set(
                self.graph@,
                set_mask(set@, self.graph@.len() as int).update(v as int, false),
                v as int,
                self.graph@.len() as int,
            ),
    {
        let ghost m = self.graph@;
        let ghost p = set_mask(set@, m.len() as int).update(v as int, false);
        let es = self.graph.get_edges(v, EdgeDirection::In);
        proof {
            self.graph.lemma_wf_matrix();
            lemma_in_sum_matches(m, p, v as int, m.len() as int);
            lemma_node_set_flow_bounds(m, p, v as int);
            crate::graph::lemma_degrees_le_total(m, v as int);
        }
        let mut acc: u64 = 0;
        let mut i: usize = 0;
        while i < es.len()
            invariant
                self.shape_ok(),
                m == self.graph@,
                is_square(m),
                m.len() <= usize::MAX,
                p == set_mask(set@, m.len() as int).update(v as int, false),
                v < m.len(),
                es@ == in_edges_upto(m, v as int, m.len() as int),
                in_sum(es@, p) == from_set(m, p, v as int, m.len() as int),
                from_set(m, p, v as int, m.len() as int) <= col_total(m, v as int),
                col_total(m, v as int) <= MAX_TOTAL_FLOW,
                i <= es.len(),
                acc == in_sum(es@.take(i as int), p),
            decreases es.len() - i,
        {
            let e = es[i];
            proof {
                lemma_in_edge_facts(m, v as int, m.len() as int, i as int);
                assert(es@.take(i as int + 1).drop_last() =~= es@.take(i as int));
                lemma_edge_sums_prefix(es@, p, i as int + 1, es@.len() as int);
                assert(es@.take(es@.len() as int) =~= es@);
            }
            if fx_contains(set, e.source) && e.source != v {
                acc = acc + e.weight as u64;
            }
            i = i + 1;
        }
        proof {
            assert(es@.take(es@.len() as int) =~= es@);
        }
        acc
    }
}

impl AreaCollection {
    /// Puts the unassigned node `v` into the filled slot `b`, updating the
    /// slot's members and aggregates incrementally.
    fn add_node_to_area(&mut self, v: usize, b: usize)
        requires
            old(self).slots_ok(),
            v < old(self).graph@.len(),
            b < old(self).graph@.len(),
            old(self).node_to_area@[v as int] == UNASSIGNED,
            old(self).areas@[b as int].is_some(),
        ensures
            final(self).slots_ok(),
            final(self).graph@ == old(self).graph@,
            final(self).node_to_area@ == old(self).node_to_area@.update(v as int, b),
            forall|c: int| 0 <= c < old(self).areas@.len() ==> (#[trigger] final(self).areas@[c]).is_some()
                == old(self).areas@[c].is_some(),
    {
        let ghost m = self.graph@;
        let ghost s0 = self.node_to_area@;
        let ghost n = m.len() as int;
        let ghost before_mask = mask(s0, b as int);
        let ghost areas0 = self.areas@;
        let mut slot: Option<Area> = None;
        std::mem::swap(&mut slot, &mut self.areas[b]);
        let mut area = slot.unwrap();
        self.node_to_area.set(v, b);
        let ghost s1 = self.node_to_area@;
        fx_insert(&mut area.nodes, v);
        proof {
            assert(area.nodes@ =~= member_set(s1, b as int));
            self.graph.lemma_wf_matrix();
            lemma_set_mask(s1, b as int);
        }
        let out_part = self.flow_from_node_to_area(v, &area.nodes);
        let in_part = self.flow_from_area_to_node(v, &area.nodes);
        proof {
            self.graph.lemma_wf_matrix();
            assert(mask(s1, b as int) =~= before_mask.update(v as int, true));
            assert(mask(s1, b as int).update(v as int, false) =~= before_mask);
            lemma_add_node(m, before_mask, v as int);
            lemma_flows_le_total(m, mask(s1, b as int));
            lemma_inner_bounds(m, mask(s1, b as int));
        }
        area.flow_to_area = area.flow_to_area + self.graph.in_degree(v) as u64;
        area.flow_from_area = area.flow_from_area + self.graph.out_degree(v) as u64;
        area.self_containment = area.self_containment + out_part + in_part;
        self.areas.set(b, Some(area));
        proof {
            let s = self.node_to_area@;
            assert forall|c: int| 0 <= c < n && (#[trigger] self.areas@[c]).is_some() implies {
                let ar = self.areas@[c].unwrap();
                &&& ar.id == c
                &&& ar.nodes@ == member_set(s, c)
                &&& ar.flow_to_area == demand(m, s, c)
                &&& ar.flow_from_area == supply(m, s, c)
                &&& ar.self_containment == containment(m, s, c)
            } by {
                if c != b {
                    assert(self.areas@[c] == areas0[c]);
                    assert(mask(s, c) =~= mask(s0, c));
                    assert(member_set(s, c) =~= member_set(s0, c));
                }
            }
        }
    }

    /// Takes node `v` out of its area `a`, updating the slot's members and
    /// aggregates incrementally; the node becomes unassigned.
    fn remove_node_from_area(&mut self, v: usize, a: usize)
        requires
            old(self).slots_ok(),
            v < old(self).graph@.len(),
            old(self).node_to_area@[v as int] == a,
            a != UNASSIGNED,
        ensures
            final(self).slots_ok(),
            final(self).graph@ == old(self).graph@,
            final(self).node_to_area@ == old(self).node_to_area@.update(v as int, UNASSIGNED),
            final(self).areas@.len() == old(self).areas@.len(),
            forall|c: int| 0 <= c < old(self).areas@.len() ==> (#[trigger] final(self).areas@[c]).is_some()
                == old(self).areas@[c].is_some(),
    {
        let ghost m = self.graph@;
        let ghost s0 = self.node_to_area@;
        let ghost n = m.len() as int;
        let ghost s1 = s0.update(v as int, UNASSIGNED);
        let ghost after_mask = mask(s1, a as int);
        let ghost areas0 = self.areas@;
        let mut slot: Option<Area> = None;
        std::mem::swap(&mut slot, &mut self.areas[a]);
        let mut area = slot.unwrap();
        proof {
            self.graph.lemma_wf_matrix();
            lemma_set_mask(s0, a as int);
        }
        let out_part = self.flow_from_node_to_area(v, &area.nodes);
        let in_part = self.flow_from_area_to_node(v, &area.nodes);
        proof {
            self.graph.lemma_wf_matrix();
            assert(mask(s0, a as int) =~= after_mask.update(v as int, true));
            assert(mask(s0, a as int).update(v as int, false) =~= after_mask);
            lemma_add_node(m, after_mask, v as int);
            lemma_node_set_flow_bounds(m, mask(s0, a as int), v as int);
            lemma_node_set_flow_bounds(m, after_mask, v as int);
            lemma_inner_bounds(m, after_mask);
        }
        fx_remove(&mut area.nodes, v);
        area.flow_to_area = area.flow_to_area - self.graph.in_degree(v) as u64;
        area.flow_from_area = area.flow_from_area - self.graph.out_degree(v) as u64;
        area.self_containment = area.self_containment - out_part - in_part;
        self.areas.set(a, Some(area));
        self.node_to_area.set(v, UNASSIGNED);
        proof {
            let s = self.node_to_area@;
            assert(s == s1);
            assert(area.nodes@ =~= member_set(s, a as int));
            assert forall|c: int| 0 <= c < n && (#[trigger] self.areas@[c]).is_some() implies {
                let ar = self.areas@[c].unwrap();
                &&& ar.id == c
                &&& ar.nodes@ == member_set(s, c)
                &&& ar.flow_to_area == demand(m, s, c)
                &&& ar.flow_from_area == supply(m, s, c)
                &&& ar.self_containment == containment(m, s, c)
            } by {
                if c != a {
                    assert(self.areas@[c] == areas0[c]);
                    assert(mask(s, c) =~= mask(s0, c));
                    assert(member_set(s, c) =~= member_set(s0, c));
                }
            }
        }
    }

    /// The singleton partition of a graph: node `v` alone in area `v`, with
    /// its in-degree, out-degree and self-loop as the area's aggregates.
    pub fn new(graph: Graph) -> (r: AreaCollection)
        requires
            graph.wf(),
        ensures
            r.wf(),
            r.matrix() == graph@,
            r.assignment() == Seq::new(graph@.len(), |u: int| u as usize),
            all_connected(r.matrix(), r.assignment()),
    {
        let n = graph.num_nodes();
        let mut areas: Vec<Option<Area>> = Vec::new();
        let mut node_to_area: Vec<usize> = Vec::new();
        let mut i: usize = 0;
        while i < n
            invariant
                i <= n,
                areas@.len() == i,
                node_to_area@.len() == i,
                forall|a: int|
                    0 <= a < i ==> (#[trigger] areas@[a]).is_some() && areas@[a].unwrap().id == a
                        && areas@[a].unwrap().nodes@ == Set::<usize>::empty()
                        && areas@[a].unwrap().flow_to_area == 0
                        && areas@[a].unwrap().flow_from_area == 0
                        && areas@[a].unwrap().self_containment == 0,
                forall|u: int| 0 <= u < i ==> #[trigger] node_to_area@[u] == UNASSIGNED,
            decreases n - i,
        {
            areas.push(Some(Area::new(i)));
            node_to_area.push(UNASSIGNED);
            i = i + 1;
        }
        let mut r = AreaCollection { areas, node_to_area, graph };
        let ghost m = r.graph@;
        proof {
            r.graph.lemma_wf_matrix();
            assert forall|a: int| 0 <= a < n implies #[trigger] demand(m, r.node_to_area@, a) == 0
                && supply(m, r.node_to_area@, a) == 0 && containment(m, r.node_to_area@, a) == 0 by {
                lemma_empty_area(m, mask(r.node_to_area@, a), n as int);
            }
            assert(r.shape_ok());
            assert forall|u: int| 0 <= u < n implies #[trigger] r.node_to_area@[u] == UNASSIGNED by {}
            assert forall|a: int| 0 <= a < n && (#[trigger] r.areas@[a]).is_some() implies {
                let ar = r.areas@[a].unwrap();
                &&& ar.id == a
                &&& ar.nodes@ == member_set(r.node_to_area@, a)
                &&& ar.flow_to_area == demand(m, r.node_to_area@, a)
                &&& ar.flow_from_area == supply(m, r.node_to_area@, a)
                &&& ar.self_containment == containment(m, r.node_to_area@, a)
            } by {
                assert(demand(m, r.node_to_area@, a) == 0);
                assert(member_set(r.node_to_area@, a) =~= Set::<usize>::empty());
            }
            assert(r.slots_ok());
        }
        let mut v: usize = 0;
        while v < n
            invariant
                v <= n,
                n == m.len(),
                r.slots_ok(),
                r.graph@ == m,
                r.graph@ == graph@,
                forall|a: int| 0 <= a < n ==> (#[trigger] r.areas@[a]).is_some(),
                forall|u: int|
                    0 <= u < n ==> #[trigger] r.node_to_area@[u] == if u < v {
                        u as usize
                    } else {
                        UNASSIGNED
                    },
            decreases n - v,
        {
            r.add_node_to_area(v, v);
            v = v + 1;
        }
        proof {
            assert(r.node_to_area@ =~= Seq::new(n as nat, |u: int| u as usize));
            assert forall|a: int| 0 <= a < n implies ((#[trigger] r.areas@[a]).is_some()
                <==> crate::rules::present(r.node_to_area@, a)) by {
                assert(r.node_to_area@[a] == a);
            }
            lemma_singletons_connected(m, n as nat);
        }
        r
    }
}

/// Whether `b` occurs in `cs`.
fn vec_contains(cs: &Vec<usize>, b: usize) -> (r: bool)
    ensures
        r == cs@.contains(b),
{
    let mut i: usize = 0;
    while i < cs.len()
        invariant
            i <= cs.len(),
            forall|j: int| 0 <= j < i ==> cs@[j] != b,
        decreases cs.len() - i,
    {
        if cs[i] == b {
            return true;
        }
        i = i + 1;
    }
    false
}

impl AreaCollection {
    /// The areas holding a neighbour of `v`, each once.
    fn candidates(&self, v: usize) -> (cs: Vec<usize>)
        requires
            self.slots_ok(),
            v < self.graph@.len(),
        ensures
            forall|j: int| 0 <= j < cs@.len() ==> candidate(self.graph@, self.node_to_area@, v as int, #[trigger] cs@[j] as int),
            forall|b: int| candidate(self.graph@, self.node_to_area@, v as int, b) ==> cs@.contains(b as usize),
    {
        let ghost m = self.graph@;
        let ghost s = self.node_to_area@;
        let ghost n = m.len() as int;
        proof {
            self.graph.lemma_wf_matrix();
        }
        let mut cs: Vec<usize> = Vec::new();
        let ins = self.graph.get_edges(v, EdgeDirection::In);
        let outs = self.graph.get_edges(v, EdgeDirection::Out);
        proof {
            assert forall|j: int| 0 <= j < ins@.len() implies (#[trigger] ins@[j]).source < n by {
                lemma_in_edge_facts(m, v as int, n, j);
            }
            assert forall|j: int| 0 <= j < outs@.len() implies (#[trigger] outs@[j]).target < n by {
                lemma_out_edge_facts(m, v as int, n, j);
            }
        }
        let mut i: usize = 0;
        while i < ins.len()
            invariant
                self.slots_ok(),
                m == self.graph@,
                s == self.node_to_area@,
                n == m.len(),
                is_square(m),
                m.len() <= usize::MAX,
                v < n,
                ins@ == in_edges_upto(m, v as int, n),
                forall|j: int| 0 <= j < ins@.len() ==> (#[trigger] ins@[j]).source < n,
                i <= ins.len(),
                forall|j: int| 0 <= j < cs@.len() ==> candidate(m, s, v as int, #[trigger] cs@[j] as int),
                forall|j: int|
                    0 <= j < i ==> s[#[trigger] ins@[j].source as int] == UNASSIGNED || cs@.contains(
                        s[ins@[j].source as int],
                    ),
            decreases ins.len() - i,
        {
            let e = ins[i];
            proof {
                lemma_in_edge_facts(m, v as int, n, i as int);
            }
            let b = self.node_to_area[e.source];
            if b != UNASSIGNED && !vec_contains(&cs, b) {
                proof {
                    assert(linked(m, e.source as int, v as int));
                    assert(candidate(m, s, v as int, b as int));
                }
                let ghost old_cs = cs@;
                cs.push(b);
                proof {
                    assert forall|x: usize| old_cs.contains(x) implies cs@.contains(x) by {
                        let k = choose|k: int| 0 <= k < old_cs.len() && old_cs[k] == x;
                        assert(cs@[k] == x);
                    }
                    assert(cs@[cs@.len() - 1] == b);
                }
            }
            i = i + 1;
        }
        let mut i: usize = 0;
        while i < outs.len()
            invariant
                self.slots_ok(),
                m == self.graph@,
                s == self.node_to_area@,
                n == m.len(),
                is_square(m),
                m.len() <= usize::MAX,
                v < n,
                ins@ == in_edges_upto(m, v as int, n),
                outs@ == out_edges_upto(m, v as int, n),
                forall|j: int| 0 <= j < ins@.len() ==> (#[trigger] ins@[j]).source < n,
                forall|j: int| 0 <= j < outs@.len() ==> (#[trigger] outs@[j]).target < n,
                i <= outs.len(),
                forall|j: int| 0 <= j < cs@.len() ==> candidate(m, s, v as int, #[trigger] cs@[j] as int),
                forall|j: int|
                    0 <= j < ins@.len() ==> s[#[trigger] ins@[j].source as int] == UNASSIGNED
                        || cs@.contains(s[ins@[j].source as int]),
                forall|j: int|
                    0 <= j < i ==> s[#[trigger] outs@[j].target as int] == UNASSIGNED || cs@.contains(
                        s[outs@[j].target as int],
                    ),
            decreases outs.len() - i,
        {
            let e = outs[i];
            proof {
                lemma_out_edge_facts(m, v as int, n, i as int);
            }
            let b = self.node_to_area[e.target];
            if b != UNASSIGNED && !vec_contains(&cs, b) {
                proof {
                    assert(linked(m, e.target as int, v as int));
                    assert(candidate(m, s, v as int, b as int));
                }
                let ghost old_cs = cs@;
                cs.push(b);
                proof {
                    assert forall|x: usize| old_cs.contains(x) implies cs@.contains(x) by {
                        let k = choose|k: int| 0 <= k < old_cs.len() && old_cs[k] == x;
                        assert(cs@[k] == x);
                    }
                    assert(cs@[cs@.len() - 1] == b);
                }
            }
            i = i + 1;
        }
        proof {
            assert forall|b: int| candidate(m, s, v as int, b) implies cs@.contains(b as usize) by {
                let u = choose|u: int| 0 <= u < s.len() && linked(m, u, v as int) && s[u] == b;
                if m[u][v as int] > 0 {
                    let j = lemma_in_edge_complete(m, v as int, n, u);
                    assert(ins@[j].source == u);
                } else {
                    let j = lemma_out_edge_complete(m, v as int, n, u);
                    assert(outs@[j].target == u);
                }
            }
        }
        cs
    }

    /// The attachment index of the unassigned node `v` to the filled slot `b`.
    fn tij2_index(&self, v: usize, b: usize) -> (r: (u128, u128))
        requires
            self.slots_ok(),
            v < self.graph@.len(),
            b < self.graph@.len(),
            self.areas@[b as int].is_some(),
            self.node_to_area@[v as int] != b,
        ensures
            (r.0 as int, r.1 as int) == tij2(self.graph@, self.node_to_area@, v as int, b as int),
    {
        let ghost m = self.graph@;
        let ghost s = self.node_to_area@;
        let area = self.areas[b].as_ref().unwrap();
        proof {
            self.graph.lemma_wf_matrix();
            lemma_set_mask(s, b as int);
        }
        let f_out = self.flow_from_node_to_area(v, &area.nodes);
        let f_in = self.flow_from_area_to_node(v, &area.nodes);
        proof {
            self.graph.lemma_wf_matrix();
            assert(mask(s, b as int).update(v as int, false) =~= mask(s, b as int));
            lemma_node_set_flow_bounds(m, mask(s, b as int), v as int);
            crate::graph::lemma_degrees_le_total(m, v as int);
            lemma_flows_le_total(m, mask(s, b as int));
        }
        attachment_index(
            f_out,
            self.graph.out_degree(v) as u64,
            area.flow_to_area,
            f_in,
            area.flow_from_area,
            self.graph.in_degree(v) as u64,
        )
    }

    /// The best of the candidate areas `cs` of the unassigned node `v`, with
    /// its attachment index; `None` when there are none.
    fn best_candidate(&self, v: usize, cs: &Vec<usize>) -> (r: Option<(usize, (u128, u128))>)
        requires
            self.slots_ok(),
            v < self.graph@.len(),
            self.node_to_area@[v as int] == UNASSIGNED,
            forall|j: int| 0 <= j < cs@.len() ==> candidate(self.graph@, self.node_to_area@, v as int, #[trigger] cs@[j] as int),
            forall|b: int| candidate(self.graph@, self.node_to_area@, v as int, b) ==> cs@.contains(b as usize),
        ensures
            r.is_none() <==> !has_candidate(self.graph@, self.node_to_area@, v as int),
            r.is_some() ==> {
                &&& is_best(self.graph@, self.node_to_area@, v as int, r.unwrap().0 as int)
                &&& r.unwrap().0 == best(self.graph@, self.node_to_area@, v as int)
                &&& (r.unwrap().1.0 as int, r.unwrap().1.1 as int) == tij2(self.graph@, self.node_to_area@, v as int, r.unwrap().0 as int)
                &&& r.unwrap().0 < self.graph@.len()
                &&& self.areas@[r.unwrap().0 as int].is_some()
            },
    {
        let ghost m = self.graph@;
        let ghost s = self.node_to_area@;
        let ghost n = m.len() as int;
        let mut cur: Option<(usize, (u128, u128))> = None;
        let mut i: usize = 0;
        while i < cs.len()
            invariant
                self.slots_ok(),
                m == self.graph@,
                s == self.node_to_area@,
                n == m.len(),
                v < n,
                s[v as int] == UNASSIGNED,
                i <= cs.len(),
                forall|j: int| 0 <= j < cs@.len() ==> candidate(m, s, v as int, #[trigger] cs@[j] as int),
                cur.is_none() <==> i == 0,
                cur.is_some() ==> {
                    let (b, t) = cur.unwrap();
                    &&& candidate(m, s, v as int, b as int)
                    &&& (t.0 as int, t.1 as int) == tij2(m, s, v as int, b as int)
                    &&& forall|j: int|
                        0 <= j < i ==> frac_lt(tij2(m, s, v as int, #[trigger] cs@[j] as int), tij2(m, s, v as int, b as int))
                            || (frac_eq(tij2(m, s, v as int, cs@[j] as int), tij2(m, s, v as int, b as int)) && b <= cs@[j])
                },
            decreases cs.len() - i,
        {
            let c = cs[i];
            proof {
                assert(candidate(m, s, v as int, c as int));
                let u = choose|u: int| 0 <= u < s.len() && linked(m, u, v as int) && s[u] == c as int;
                assert(s[u] == c);
            }
            let tc = self.tij2_index(v, c);
            match cur {
                None => {
                    cur = Some((c, tc));
                    proof {
                        lemma_tij2_ok(m, s, v as int, c as int);
                        lemma_frac_order(tij2(m, s, v as int, c as int), tij2(m, s, v as int, c as int), tij2(m, s, v as int, c as int));
                    }
                },
                Some((b, tb)) => {
                    let better = attachment_gt(tc, tb) || (attachment_eq(tc, tb) && c < b);
                    proof {
                        let xb = tij2(m, s, v as int, b as int);
                        let xc = tij2(m, s, v as int, c as int);
                        lemma_tij2_ok(m, s, v as int, b as int);
                        lemma_tij2_ok(m, s, v as int, c as int);
                        lemma_frac_order(xb, xc, xb);
                        lemma_frac_order(xc, xb, xc);
                        assert forall|j: int| 0 <= j < i implies {
                            let xj = tij2(m, s, v as int, #[trigger] cs@[j] as int);
                            if better {
                                frac_lt(xj, xc) || (frac_eq(xj, xc) && c <= cs@[j])
                            } else {
                                frac_lt(xj, xb) || (frac_eq(xj, xb) && b <= cs@[j])
                            }
                        } by {
                            let xj = tij2(m, s, v as int, cs@[j] as int);
                            lemma_tij2_ok(m, s, v as int, cs@[j] as int);
                            lemma_frac_order(xj, xb, xc);
                        }
                    }
                    if better {
                        cur = Some((c, tc));
                    }
                },
            }
            i = i + 1;
        }
        proof {
            if cur.is_some() {
                let b = cur.unwrap().0;
                assert forall|c: int| #[trigger] candidate(m, s, v as int, c) implies frac_lt(tij2(m, s, v as int, c), tij2(m, s, v as int, b as int))
                    || (frac_eq(tij2(m, s, v as int, c), tij2(m, s, v as int, b as int)) && b <= c) by {
                    assert(cs@.contains(c as usize));
                    let j = choose|j: int| 0 <= j < cs@.len() && cs@[j] == c as usize;
                    assert(cs@[j] == c as usize);
                    let u = choose|u: int| 0 <= u < s.len() && linked(m, u, v as int) && s[u] == c;
                    assert(c as usize as int == c);
                }
                assert(is_best(m, s, v as int, b as int));
                lemma_best_unique(m, s, v as int, b as int);
                let u = choose|u: int| 0 <= u < s.len() && linked(m, u, v as int) && s[u] == b as int;
                assert(s[u] == b);
            } else {
                assert forall|c: int| !candidate(m, s, v as int, c) by {
                    if candidate(m, s, v as int, c) {
                        assert(cs@.contains(c as usize));
                    }
                }
            }
        }
        cur
    }
}

impl AreaCollection {
    /// The worst area with its score: the eligible area (filled, not closed)
    /// of lowest score, the smallest id among equal scores.
    fn find_worst(&self) -> (r: Option<(usize, (i128, i128))>)
        requires
            self.wf(),
        ensures
            r.is_none() <==> worst(self.graph@, self.node_to_area@) < 0,
            r.is_some() ==> {
                &&& r.unwrap().0 == worst(self.graph@, self.node_to_area@)
                &&& (r.unwrap().1.0 as int, r.unwrap().1.1 as int) == x_of(
                    self.graph@,
                    self.node_to_area@,
                    r.unwrap().0 as int,
                )
            },
    {
        let ghost m = self.graph@;
        let ghost s = self.node_to_area@;
        let n = self.areas.len();
        proof {
            self.graph.lemma_wf_matrix();
        }
        let mut cur: Option<(usize, (i128, i128))> = None;
        let mut a: usize = 0;
        while a < n
            invariant
                self.wf(),
                m == self.graph@,
                s == self.node_to_area@,
                n == m.len(),
                is_square(m),
                matrix_total(m) <= MAX_TOTAL_FLOW,
                a <= n,
                cur.is_none() <==> worst_upto(m, s, a as int) < 0,
                cur.is_some() ==> {
                    &&& cur.unwrap().0 == worst_upto(m, s, a as int)
                    &&& (cur.unwrap().1.0 as int, cur.unwrap().1.1 as int) == x_of(m, s, cur.unwrap().0 as int)
                    &&& score_bounded((cur.unwrap().1.0 as int, cur.unwrap().1.1 as int))
                },
            decreases n - a,
        {
            proof {
                crate::rules::lemma_worst_eligible(m, s, a as int);
            }
            match &self.areas[a] {
                Some(area) => {
                    if !(area.flow_to_area == area.self_containment
                        && area.flow_from_area == area.self_containment) {
                        proof {
                            lemma_flows_le_total(m, mask(s, a as int));
                            lemma_inner_bounds(m, mask(s, a as int));
                            assert(eligible(m, s, a as int));
                        }
                        let x = x_score(area.flow_to_area, area.flow_from_area, area.self_containment);
                        match cur {
                            None => {
                                cur = Some((a, x));
                            },
                            Some((w, xw)) => {
                                if score_lt(x, xw) {
                                    cur = Some((a, x));
                                }
                            },
                        }
                    } else {
                        proof {
                            assert(!eligible(m, s, a as int));
                        }
                    }
                },
                None => {
                    proof {
                        assert(!eligible(m, s, a as int));
                    }
                },
            }
            a = a + 1;
        }
        cur
    }

    /// The first placement of the unassigned node `v`.
    fn place_first(&mut self, v: usize)
        requires
            old(self).slots_ok(),
            v < old(self).graph@.len(),
            old(self).node_to_area@[v as int] == UNASSIGNED,
        ensures
            final(self).slots_ok(),
            final(self).graph@ == old(self).graph@,
            final(self).node_to_area@ == first_step(old(self).graph@, old(self).node_to_area@, v as int),
            final(self).node_to_area@[v as int] == UNASSIGNED || present(old(self).node_to_area@, final(self).node_to_area@[v as int] as int),
            forall|c: int| 0 <= c < old(self).areas@.len() ==> (#[trigger] final(self).areas@[c]).is_some()
                == old(self).areas@[c].is_some(),
    {
        let cs = self.candidates(v);
        match self.best_candidate(v, &cs) {
            None => {},
            Some((b, t)) => {
                if t.0 > 0 {
                    proof {
                        let u = choose|u: int| 0 <= u < self.node_to_area@.len() && linked(self.graph@, u, v as int) && self.node_to_area@[u] == b as int;
                        assert(self.node_to_area@[u] == b);
                    }
                    self.add_node_to_area(v, b);
                }
            },
        }
    }

    /// A later placement of node `v`, which happens when `v` is unassigned
    /// and has a candidate area; returns whether it happened.
    fn place_late(&mut self, v: usize) -> (placed: bool)
        requires
            old(self).slots_ok(),
            v < old(self).graph@.len(),
        ensures
            final(self).slots_ok(),
            final(self).graph@ == old(self).graph@,
            final(self).node_to_area@ == late_step(old(self).graph@, old(self).node_to_area@, v as int),
            placed <==> (old(self).node_to_area@[v as int] == UNASSIGNED && has_candidate(old(self).graph@, old(self).node_to_area@, v as int)),
            placed ==> final(self).node_to_area@[v as int] != UNASSIGNED && present(old(self).node_to_area@, final(self).node_to_area@[v as int] as int),
            forall|c: int| 0 <= c < old(self).areas@.len() ==> (#[trigger] final(self).areas@[c]).is_some()
                == old(self).areas@[c].is_some(),
    {
        if self.node_to_area[v] != UNASSIGNED {
            return false;
        }
        let cs = self.candidates(v);
        match self.best_candidate(v, &cs) {
            None => false,
            Some((b, t)) => {
                proof {
                    let u = choose|u: int| 0 <= u < self.node_to_area@.len() && linked(self.graph@, u, v as int) && self.node_to_area@[u] == b as int;
                    assert(self.node_to_area@[u] == b);
                }
                self.add_node_to_area(v, b);
                true
            },
        }
    }
}

impl AreaCollection {
    /// The members of area `a`, in increasing order.
    pub fn members(&self, a: usize) -> (vs: Vec<usize>)
        requires
            self.wf(),
        ensures
            vs@ == members(self.assignment(), a as int),
    {
        let n = self.node_to_area.len();
        let mut vs: Vec<usize> = Vec::new();
        let mut u: usize = 0;
        while u < n
            invariant
                n == self.node_to_area@.len(),
                u <= n,
                vs@ == members_upto(self.node_to_area@, a as int, u as int),
            decreases n - u,
        {
            if self.node_to_area[u] == a {
                vs.push(u);
            }
            u = u + 1;
        }
        vs
    }

    /// Dissolves the eligible area `w`: its members are unassigned, placed
    /// one by one in increasing order, then waiting ones pass after pass;
    /// those that cannot be placed stay in `w`.
    fn dissolve(&mut self, w: usize)
        requires
            old(self).wf(),
            eligible(old(self).graph@, old(self).node_to_area@, w as int),
        ensures
            final(self).wf(),
            final(self).graph@ == old(self).graph@,
            final(self).node_to_area@ == dissolve(old(self).graph@, old(self).node_to_area@, w as int),
    {
        let ghost m = self.graph@;
        let ghost s0 = self.node_to_area@;
        let ghost areas0 = self.areas@;
        let n = self.node_to_area.len();
        let ghost c0 = clear(s0, w as int);
        let vs = self.members(w);
        proof {
            self.graph.lemma_wf_matrix();
            lemma_members(s0, w as int, n as int);
        }

        // Unassign every member.
        let mut u: usize = 0;
        while u < n
            invariant
                self.slots_ok(),
                self.graph@ == m,
                n == m.len(),
                u <= n,
                w < n,
                forall|x: int| 0 <= x < n ==> s0[x] < n,
                forall|x: int|
                    0 <= x < n ==> #[trigger] self.node_to_area@[x] == if x < u && s0[x] == w {
                        UNASSIGNED
                    } else {
                        s0[x]
                    },
                forall|c: int| 0 <= c < n ==> (#[trigger] self.areas@[c]).is_some() == areas0[c].is_some(),
            decreases n - u,
        {
            if self.node_to_area[u] == w {
                self.remove_node_from_area(u, w);
            }
            u = u + 1;
        }
        proof {
            assert(self.node_to_area@ =~= c0);
        }
        self.areas.set(w, None);

        // First placements, in increasing order.
        let mut i: usize = 0;
        while i < vs.len()
            invariant
                self.slots_ok(),
                self.graph@ == m,
                n == m.len(),
                w < n,
                vs@ == members(s0, w as int),
                forall|j: int| 0 <= j < vs@.len() ==> (#[trigger] vs@[j]) < n && s0[vs@[j] as int] == w,
                forall|j: int, k: int| 0 <= j < k < vs@.len() ==> vs@[j] < vs@[k],
                i <= vs.len(),
                self.node_to_area@ == first_pass(m, c0, vs@, i as int),
                forall|j: int| i <= j < vs@.len() ==> self.node_to_area@[#[trigger] vs@[j] as int] == UNASSIGNED,
                forall|x: int| 0 <= x < n && c0[x] != UNASSIGNED ==> #[trigger] self.node_to_area@[x] == c0[x],
                forall|x: int| 0 <= x < n ==> #[trigger] self.node_to_area@[x] != w,
                forall|x: int| 0 <= x < n && #[trigger] self.node_to_area@[x] == UNASSIGNED ==> s0[x] == w,
                self.areas@[w as int].is_none(),
                forall|c: int| 0 <= c < n && c != w ==> (#[trigger] self.areas@[c]).is_some() == areas0[c].is_some(),
            decreases vs.len() - i,
        {
            let v = vs[i];
            let ghost before = self.node_to_area@;
            self.place_first(v);
            proof {
                let after = self.node_to_area@;
                assert forall|x: int| 0 <= x < n implies #[trigger] after[x] != w by {
                    if x == v && after[x] != UNASSIGNED {
                        let y = choose|y: int| 0 <= y < before.len() && before[y] == after[x] as int;
                        assert(before[y] != w);
                    }
                }
            }
            i = i + 1;
        }

        // Later placements, pass after pass.
        let ghost first = self.node_to_area@;
        let mut fuel: usize = vs.len();
        let mut done = false;
        while fuel > 0 && !done
            invariant
                self.slots_ok(),
                self.graph@ == m,
                n == m.len(),
                w < n,
                vs@ == members(s0, w as int),
                forall|j: int| 0 <= j < vs@.len() ==> (#[trigger] vs@[j]) < n && s0[vs@[j] as int] == w,
                settle(m, self.node_to_area@, vs@, fuel as nat) == settle(m, first, vs@, vs@.len()),
                done ==> settle(m, self.node_to_area@, vs@, fuel as nat) == self.node_to_area@,
                forall|x: int| 0 <= x < n && c0[x] != UNASSIGNED ==> #[trigger] self.node_to_area@[x] == c0[x],
                forall|x: int| 0 <= x < n ==> #[trigger] self.node_to_area@[x] != w,
                forall|x: int| 0 <= x < n && #[trigger] self.node_to_area@[x] == UNASSIGNED ==> s0[x] == w,
                self.areas@[w as int].is_none(),
                forall|c: int| 0 <= c < n && c != w ==> (#[trigger] self.areas@[c]).is_some() == areas0[c].is_some(),
            decreases fuel as int + if done { 0int } else { 1int },
        {
            let ghost start = self.node_to_area@;
            let mut changed = false;
            let mut i: usize = 0;
            while i < vs.len()
                invariant
                    self.slots_ok(),
                    self.graph@ == m,
                    n == m.len(),
                    w < n,
                    forall|j: int| 0 <= j < vs@.len() ==> (#[trigger] vs@[j]) < n && s0[vs@[j] as int] == w,
                    i <= vs.len(),
                    start.len() == n,
                    self.node_to_area@ == late_pass(m, start, vs@, i as int),
                    forall|x: int| 0 <= x < n && start[x] != UNASSIGNED ==> #[trigger] self.node_to_area@[x] == start[x],
                    !changed ==> self.node_to_area@ == start,
                    changed ==> exists|x: int| 0 <= x < n && start[x] == UNASSIGNED && #[trigger] self.node_to_area@[x] != UNASSIGNED,
                    forall|x: int| 0 <= x < n && c0[x] != UNASSIGNED ==> #[trigger] self.node_to_area@[x] == c0[x],
                    forall|x: int| 0 <= x < n ==> #[trigger] self.node_to_area@[x] != w,
                    forall|x: int| 0 <= x < n && #[trigger] self.node_to_area@[x] == UNASSIGNED ==> s0[x] == w,
                    self.areas@[w as int].is_none(),
                    forall|c: int| 0 <= c < n && c != w ==> (#[trigger] self.areas@[c]).is_some() == areas0[c].is_some(),
                decreases vs.len() - i,
            {
                let v = vs[i];
                let ghost before = self.node_to_area@;
                let placed = self.place_late(v);
                proof {
                    let after = self.node_to_area@;
                    assert forall|x: int| 0 <= x < n implies #[trigger] after[x] != w by {
                        if x == v && placed {
                            let y = choose|y: int| 0 <= y < before.len() && before[y] == after[x] as int;
                            assert(before[y] != w);
                        }
                    }
                    if placed {
                        assert(start[v as int] == UNASSIGNED);
                        assert(after[v as int] != UNASSIGNED);
                    }
                    if changed && !placed {
                        let x = choose|x: int| 0 <= x < n && start[x] == UNASSIGNED && before[x] != UNASSIGNED;
                        assert(after[x] != UNASSIGNED);
                    }
                }
                if placed {
                    changed = true;
                }
                i = i + 1;
            }
            proof {
                if changed {
                    let x = choose|x: int| 0 <= x < n && start[x] == UNASSIGNED && self.node_to_area@[x] != UNASSIGNED;
                    assert(self.node_to_area@ != start);
                }
            }
            if !changed {
                done = true;
            } else {
                fuel = fuel - 1;
            }
        }
        let ghost settled = self.node_to_area@;
        proof {
            assert(settled == settle(m, first, vs@, vs@.len()));
        }

        // Nodes that could not be placed stay in `w`.
        let mut any = false;
        let mut u: usize = 0;
        while u < n
            invariant
                n == self.node_to_area@.len(),
                self.node_to_area@ == settled,
                u <= n,
                any <==> exists|x: int| 0 <= x < u && #[trigger] settled[x] == UNASSIGNED,
            decreases n - u,
        {
            if self.node_to_area[u] == UNASSIGNED {
                any = true;
            }
            u = u + 1;
        }
        if any {
            proof {
                lemma_empty_area(m, mask(settled, w as int), n as int);
                assert(member_set(settled, w as int) =~= Set::<usize>::empty());
            }
            self.areas.set(w, Some(Area::new(w)));
            let mut u: usize = 0;
            while u < n
                invariant
                    self.slots_ok(),
                    self.graph@ == m,
                    n == m.len(),
                    w < n,
                    u <= n,
                    forall|x: int|
                        0 <= x < n ==> #[trigger] self.node_to_area@[x] == if x < u && settled[x] == UNASSIGNED {
                            w
                        } else {
                            settled[x]
                        },
                    self.areas@[w as int].is_some(),
                    forall|c: int| 0 <= c < n && c != w ==> (#[trigger] self.areas@[c]).is_some() == areas0[c].is_some(),
                decreases n - u,
            {
                if self.node_to_area[u] == UNASSIGNED {
                    self.add_node_to_area(u, w);
                }
                u = u + 1;
            }
        }
        proof {
            let fin = self.node_to_area@;
            assert(fin =~= restore(settled, w as int));
            assert forall|x: int| 0 <= x < n implies #[trigger] fin[x] < n by {}
            assert forall|c: int| 0 <= c < n implies ((#[trigger] self.areas@[c]).is_some() <==> present(fin, c)) by {
                if c == w {
                    if any {
                        let x = choose|x: int| 0 <= x < n && settled[x] == UNASSIGNED;
                        assert(fin[x] == w);
                    }
                } else {
                    if areas0[c].is_some() {
                        let x = choose|x: int| 0 <= x < s0.len() && s0[x] == c;
                        assert(c0[x] == c);
                        assert(fin[x] == c);
                    }
                }
            }
        }
    }

    /// Refines the partition: round after round, the worst area is
    /// dissolved while its score is negative, for at most `max_iter` rounds.
    /// Returns whether fitting finished, rather than running out of rounds.
    pub fn fit(&mut self, max_iter: usize) -> (converged: bool)
        requires
            old(self).wf(),
        ensures
            final(self).wf(),
            final(self).matrix() == old(self).matrix(),
            (final(self).assignment(), converged) == fit_result(
                old(self).matrix(),
                old(self).assignment(),
                max_iter as nat,
            ),
            all_connected(old(self).matrix(), old(self).assignment()) ==> {
                &&& all_connected(final(self).matrix(), final(self).assignment())
                &&& area_ids(final(self).assignment()).len() <= area_ids(old(self).assignment()).len()
            },
    {
        let ghost m = self.graph@;
        let ghost s0 = self.node_to_area@;
        proof {
            self.graph.lemma_wf_matrix();
            if all_connected(m, s0) {
                lemma_fit_area_count(m, s0, max_iter as nat);
            }
        }
        let mut iter: usize = 0;
        loop
            invariant
                self.wf(),
                self.graph@ == m,
                m == old(self).graph@,
                s0 == old(self).node_to_area@,
                iter <= max_iter,
                fit_result(m, self.node_to_area@, (max_iter - iter) as nat) == fit_result(m, s0, max_iter as nat),
                all_connected(m, s0) ==> {
                    &&& all_connected(m, fit_result(m, s0, max_iter as nat).0)
                    &&& area_ids(fit_result(m, s0, max_iter as nat).0).len() <= area_ids(s0).len()
                },
            decreases max_iter - iter,
        {
            let found = self.find_worst();
            match found {
                None => {
                    return true;
                },
                Some((w, x)) => {
                    if x.0 >= 0 {
                        return true;
                    }
                    if iter == max_iter {
                        return false;
                    }
                    proof {
                        crate::rules::lemma_worst_eligible(m, self.node_to_area@, self.node_to_area@.len() as int);
                    }
                    self.dissolve(w);
                    iter = iter + 1;
                },
            }
        }
    }
}

/// Total supply of the areas with ids below `k`.
pub open spec fn supply_upto(m: Seq<Seq<u32>>, s: Seq<usize>, k: int) -> int
    decreases k,
{
    if k <= 0 {
        0
    } else {
        supply_upto(m, s, k - 1) + supply(m, s, k - 1)
    }
}

/// Cached supply of the filled slots with ids below `k`.
pub open spec fn slot_supply_upto(slots: Seq<Option<Area>>, k: int) -> int
    decreases k,
{
    if k <= 0 {
        0
    } else {
        slot_supply_upto(slots, k - 1) + match slots[k - 1] {
            Some(a) => a.flow_from_area as int,
            None => 0,
        }
    }
}

/// Supply of the first `ka` areas counted over the first `ku` nodes.
spec fn supply_grid(m: Seq<Seq<u32>>, s: Seq<usize>, ka: int, ku: int) -> int
    decreases ka,
{
    if ka <= 0 {
        0
    } else {
        supply_grid(m, s, ka - 1, ku) + flow_out(m, mask(s, ka - 1), ku)
    }
}

proof fn lemma_supply_grid_step(m: Seq<Seq<u32>>, s: Seq<usize>, ka: int, ku: int)
    requires
        0 <= ku < s.len(),
        0 <= ka,
    ensures
        supply_grid(m, s, ka, ku + 1) == supply_grid(m, s, ka, ku) + if s[ku] < ka {
            row_total(m, ku)
        } else {
            0
        },
    decreases ka,
{
    if ka > 0 {
        lemma_supply_grid_step(m, s, ka - 1, ku);
    }
}

proof fn lemma_supply_grid(m: Seq<Seq<u32>>, s: Seq<usize>, ku: int)
    requires
        s.len() == m.len(),
        0 <= ku <= s.len(),
        forall|u: int| 0 <= u < s.len() ==> #[trigger] s[u] < s.len(),
    ensures
        supply_grid(m, s, s.len() as int, ku) == crate::graph::total_upto(m, ku),
    decreases ku,
{
    if ku > 0 {
        lemma_supply_grid(m, s, ku - 1);
        lemma_supply_grid_step(m, s, s.len() as int, ku - 1);
    } else {
        lemma_supply_grid_zero(m, s, s.len() as int);
    }
}

proof fn lemma_supply_grid_zero(m: Seq<Seq<u32>>, s: Seq<usize>, ka: int)
    ensures
        supply_grid(m, s, ka, 0) == 0,
    decreases ka,
{
    if ka > 0 {
        lemma_supply_grid_zero(m, s, ka - 1);
    }
}

proof fn lemma_supply_upto_grid(m: Seq<Seq<u32>>, s: Seq<usize>, ka: int)
    ensures
        supply_upto(m, s, ka) == supply_grid(m, s, ka, m.len() as int),
    decreases ka,
{
    if ka > 0 {
        lemma_supply_upto_grid(m, s, ka - 1);
    }
}

/// When every node is in an area with an id below the number of nodes, the
/// supplies of all areas add up to the total flow.
pub proof fn lemma_supply_conserved(m: Seq<Seq<u32>>, s: Seq<usize>)
    requires
        s.len() == m.len(),
        forall|u: int| 0 <= u < s.len() ==> #[trigger] s[u] < s.len(),
    ensures
        supply_upto(m, s, s.len() as int) == matrix_total(m),
{
    lemma_supply_upto_grid(m, s, s.len() as int);
    lemma_supply_grid(m, s, s.len() as int);
}

impl AreaCollection {
    /// A well-formed collection is a partition of the nodes into the filled
    /// slots: each node's area is a filled slot; a slot is filled exactly
    /// when some node is in it; each filled slot holds its own id, its
    /// members, and the demand, supply and self-containment of its members, and its
    /// self-containment is at most both its demand and its supply.
    pub proof fn lemma_partition(&self)
        requires
            self.wf(),
        ensures
            self.assignment().len() == self.matrix().len(),
            is_square(self.matrix()),
            forall|u: int|
                0 <= u < self.matrix().len() ==> #[trigger] self.assignment()[u] < self.matrix().len()
                    && self.slot(self.assignment()[u] as int).is_some(),
            forall|a: int|
                0 <= a < self.matrix().len() ==> (#[trigger] self.slot(a).is_some() <==> present(
                    self.assignment(),
                    a,
                )),
            forall|a: int|
                0 <= a < self.matrix().len() && #[trigger] self.slot(a).is_some() ==> {
                    let ar = self.slot(a).unwrap();
                    &&& ar.id == a
                    &&& ar.nodes@ == member_set(self.assignment(), a)
                    &&& ar.flow_to_area == demand(self.matrix(), self.assignment(), a)
                    &&& ar.flow_from_area == supply(self.matrix(), self.assignment(), a)
                    &&& ar.self_containment == containment(self.matrix(), self.assignment(), a)
                    &&& ar.self_containment <= ar.flow_to_area
                    &&& ar.self_containment <= ar.flow_from_area
                },
    {
        self.graph.lemma_wf_matrix();
        let m = self.graph@;
        let s = self.node_to_area@;
        assert forall|u: int| 0 <= u < m.len() implies #[trigger] s[u] < m.len() && self.slot(
            s[u] as int,
        ).is_some() by {
            assert(s[u] < m.len());
        }
        assert forall|a: int| 0 <= a < m.len() && #[trigger] self.slot(a).is_some() implies {
            let ar = self.slot(a).unwrap();
            &&& ar.self_containment <= ar.flow_to_area
            &&& ar.self_containment <= ar.flow_from_area
        } by {
            assert(self.areas@[a].is_some());
            lemma_inner_bounds(m, mask(s, a));
        }
    }

    /// The cached supplies of the filled slots add up to the total flow of
    /// the graph: every worker is counted in exactly one area.
    pub proof fn lemma_supply_total(&self)
        requires
            self.wf(),
        ensures
            slot_supply_upto(self.slots(), self.matrix().len() as int) == matrix_total(self.matrix()),
            supply_upto(self.matrix(), self.assignment(), self.matrix().len() as int) == matrix_total(
                self.matrix(),
            ),
    {
        let m = self.graph@;
        let s = self.node_to_area@;
        let n = m.len() as int;
        lemma_supply_conserved(m, s);
        lemma_slot_supply(self, n);
    }
}

proof fn lemma_slot_supply(c: &AreaCollection, k: int)
    requires
        c.wf(),
        0 <= k <= c.graph@.len(),
    ensures
        slot_supply_upto(c.areas@, k) == supply_upto(c.graph@, c.node_to_area@, k),
    decreases k,
{
    if k > 0 {
        lemma_slot_supply(c, k - 1);
        let a = k - 1;
        if c.areas@[a].is_none() {
            assert(!present(c.node_to_area@, a));
            lemma_empty_area(c.graph@, mask(c.node_to_area@, a), c.graph@.len() as int);
        }
    }
}

/// Fits the singleton partition of a graph until no area scores below zero
/// (or no round limit below `usize::MAX` would have stopped it).
pub fn travel_to_work_areas(graph: Graph) -> (r: (AreaCollection, bool))
    requires
        graph.wf(),
    ensures
        r.0.wf(),
        r.0.matrix() == graph@,
        (r.0.assignment(), r.1) == fit_result(
            graph@,
            Seq::new(graph@.len(), |u: int| u as usize),
            usize::MAX as nat,
        ),
{
    let mut areas = AreaCollection::new(graph);
    let converged = areas.fit(usize::MAX);
    (areas, converged)
}

/// Every positive cell of column `v` appears among its in-edges.
proof fn lemma_in_edge_complete(m: Seq<Seq<u32>>, v: int, k: int, u: int) -> (j: int)
    requires
        is_square(m),
        m.len() <= usize::MAX,
        0 <= v < m.len(),
        0 <= u < k <= m.len(),
        m[u][v] > 0,
    ensures
        0 <= j < in_edges_upto(m, v, k).len(),
        in_edges_upto(m, v, k)[j].source == u,
    decreases k,
{
    if u == k - 1 {
        (in_edges_upto(m, v, k).len() - 1) as int
    } else {
        let j = lemma_in_edge_complete(m, v, k - 1, u);
        if m[k - 1][v] > 0 {
            assert(in_edges_upto(m, v, k)[j] == in_edges_upto(m, v, k - 1)[j]);
        }
        j
    }
}

/// Every positive cell of row `v` appears among its out-edges.
proof fn lemma_out_edge_complete(m: Seq<Seq<u32>>, v: int, k: int, u: int) -> (j: int)
    requires
        is_square(m),
        m.len() <= usize::MAX,
        0 <= v < m.len(),
        0 <= u < k <= m.len(),
        m[v][u] > 0,
    ensures
        0 <= j < out_edges_upto(m, v, k).len(),
        out_edges_upto(m, v, k)[j].target == u,
    decreases k,
{
    if u == k - 1 {
        (out_edges_upto(m, v, k).len() - 1) as int
    } else {
        let j = lemma_out_edge_complete(m, v, k - 1, u);
        if m[v][k - 1] > 0 {
            assert(out_edges_upto(m, v, k)[j] == out_edges_upto(m, v, k - 1)[j]);
        }
        j
    }
}

/// Each out-edge of `v` is a positive cell of row `v`.
proof fn lemma_out_edge_facts(m: Seq<Seq<u32>>, v: int, k: int, i: int)
    requires
        is_square(m),
        m.len() <= usize::MAX,
        0 <= v < m.len(),
        0 <= k <= m.len(),
        0 <= i < out_edges_upto(m, v, k).len(),
    ensures
        out_edges_upto(m, v, k)[i].source == v,
        out_edges_upto(m, v, k)[i].target < k,
        out_edges_upto(m, v, k)[i].weight == m[v][out_edges_upto(m, v, k)[i].target as int],
        out_edges_upto(m, v, k)[i].weight > 0,
    decreases k,
{
    if k > 0 {
        if i < out_edges_upto(m, v, k - 1).len() {
            lemma_out_edge_facts(m, v, k - 1, i);
        }
    }
}

/// Each in-edge of `v` is a positive cell of column `v`.
proof fn lemma_in_edge_facts(m: Seq<Seq<u32>>, v: int, k: int, i: int)
    requires
        is_square(m),
        m.len() <= usize::MAX,
        0 <= v < m.len(),
        0 <= k <= m.len(),
        0 <= i < in_edges_upto(m, v, k).len(),
    ensures
        in_edges_upto(m, v, k)[i].target == v,
        in_edges_upto(m, v, k)[i].source < k,
        in_edges_upto(m, v, k)[i].weight == m[in_edges_upto(m, v, k)[i].source as int][v],
        in_edges_upto(m, v, k)[i].weight > 0,
    decreases k,
{
    if k > 0 {
        if i < in_edges_upto(m, v, k - 1).len() {
            lemma_in_edge_facts(m, v, k - 1, i);
        }
    }
}

} // verus!
