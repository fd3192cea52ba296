//! The capacity planner: a cluster of nodes and the decisions taken on it.

use vstd::prelude::*;
use crate::node::{Node, NodeModel};
use crate::ratio::{Ratio, frac_le};
use crate::signal::{TernarySignal, classify};
use crate::ordering::{sort_by_memory_desc, sorted_by_memory, memory_descending, lemma_sorted_by_memory};
use crate::packing::{
    best_fit_among, place_all, with_workload, compute_totals_fit, extends, added_workloads,
    lemma_best_fit_among, lemma_place_all_extends, lemma_place_all_conserves,
    lemma_place_all_unplaced_descending, lemma_place_all_unplaced_fit_nowhere,
    lemma_place_all_capacity, lemma_place_all_gaining_within_capacity, lemma_place_all_singly,
    place_singly,
};
use crate::workload::{Dim, Workload, lemma_total_push, lemma_total_bounds};

verus! {

/// Tracks per-node utilization and classifies ternary signals.
#[derive(Debug, Clone)]
pub struct CapacityPlanner {
    pub nodes: Vec<Node>,
}

impl View for CapacityPlanner {
    type V = Seq<NodeModel>;

    open spec fn view(&self) -> Seq<NodeModel> {
        self.nodes@.map_values(|n: Node| n@)
    }
}

/// Total GPU memory capacity of the nodes.
pub open spec fn cluster_capacity(nodes: Seq<NodeModel>) -> int
    decreases nodes.len(),
{
    if nodes.len() == 0 {
        0
    } else {
        cluster_capacity(nodes.drop_last()) + nodes.last().profile.capacity(Dim::Memory)
    }
}

/// Total GPU memory allocated on the nodes.
pub open spec fn cluster_allocated(nodes: Seq<NodeModel>) -> int
    decreases nodes.len(),
{
    if nodes.len() == 0 {
        0
    } else {
        cluster_allocated(nodes.drop_last()) + nodes.last().allocated(Dim::Memory)
    }
}

/// The cluster's total allocated GPU memory fits in a `u128`.
pub open spec fn cluster_total_fits(nodes: Seq<NodeModel>) -> bool {
    cluster_allocated(nodes) <= u128::MAX
}

/// Allocated over capacity for the whole cluster's GPU memory; `0 / 1`
/// for an empty cluster or one without capacity.
pub open spec fn cluster_ratio(nodes: Seq<NodeModel>) -> (int, int) {
    if nodes.len() == 0 || cluster_capacity(nodes) == 0 {
        (0, 1)
    } else {
        (cluster_allocated(nodes), cluster_capacity(nodes))
    }
}

/// Cost efficiency of a utilization `u`: `0` when nothing is used, the
/// utilization itself up to `1`, and its inverse when overcommitted.
pub open spec fn efficiency(u: (int, int)) -> (int, int) {
    if u.0 <= 0 {
        (0, 1)
    } else if u.0 <= u.1 {
        u
    } else {
        (u.1, u.0)
    }
}

/// The recommendation that goes with each cluster signal.
pub open spec fn recommendation_text(s: TernarySignal) -> Seq<char> {
    match s {
        TernarySignal::Underutilized => "scale-down: cluster is underutilized, consider removing nodes"@,
        TernarySignal::Balanced => "hold: cluster utilization is balanced"@,
        TernarySignal::Overloaded => "scale-up: cluster is overloaded, consider adding nodes"@,
    }
}

proof fn lemma_cluster_allocated_prefix(nodes: Seq<NodeModel>, i: int)
    requires
        0 <= i <= nodes.len(),
    ensures
        0 <= cluster_allocated(nodes.take(i)) <= cluster_allocated(nodes),
    decreases nodes.len(),
{
    if i == nodes.len() {
        assert(nodes.take(i) =~= nodes);
        lemma_cluster_allocated_nonneg(nodes);
    } else {
        let t = nodes.drop_last();
        assert(t.take(i) =~= nodes.take(i));
        lemma_cluster_allocated_prefix(t, i);
        lemma_total_bounds(nodes.last().workloads, Dim::Memory);
    }
}

proof fn lemma_cluster_allocated_nonneg(nodes: Seq<NodeModel>)
    ensures
        0 <= cluster_allocated(nodes),
    decreases nodes.len(),
{
    if nodes.len() > 0 {
        lemma_cluster_allocated_nonneg(nodes.drop_last());
        lemma_total_bounds(nodes.last().workloads, Dim::Memory);
    }
}

/// Cost efficiency is never above one; it is the utilization itself for
/// a utilization of at most one, its inverse above one, and exactly one
/// only at full utilization.
pub proof fn lemma_efficiency(u: (int, int))
    requires
        u.0 >= 0,
        u.1 > 0,
    ensures
        efficiency(u).1 > 0,
        0 <= efficiency(u).0 <= efficiency(u).1,
        u.0 <= u.1 ==> efficiency(u) == (if u.0 == 0 { (0int, 1int) } else { u }),
        u.0 > u.1 ==> efficiency(u).0 * u.0 == efficiency(u).1 * u.1,
        efficiency(u).0 == efficiency(u).1 <==> u.0 == u.1,
{
}

/// When every node's memory is within its capacity, so is the cluster's:
/// its utilization is at most one.
pub proof fn lemma_cluster_within_capacity(nodes: Seq<NodeModel>)
    requires
        forall|i: int| 0 <= i < nodes.len() ==> (#[trigger] nodes[i]).within_capacity(),
    ensures
        cluster_allocated(nodes) <= cluster_capacity(nodes),
        cluster_ratio(nodes).0 <= cluster_ratio(nodes).1,
    decreases nodes.len(),
{
    if nodes.len() > 0 {
        let t = nodes.drop_last();
        assert forall|i: int| 0 <= i < t.len() implies (#[trigger] t[i]).within_capacity() by {
            assert(t[i] == nodes[i]);
        }
        lemma_cluster_within_capacity(t);
        assert(nodes.last().within_capacity());
    }
}

/// What best-fit decreasing packing of `ws` onto `nodes` guarantees: the
/// nodes stay the same nodes and keep what they held; what they gained
/// together with what is returned is exactly `ws`; the returned workloads
/// come in descending order of memory demand and none of them fits on any
/// node as the nodes end up; no node within capacity is put over it, and
/// every node that gains a workload ends within capacity; and the result is
/// the same as packing the sorted workloads one call at a time.
pub proof fn lemma_best_fit_decreasing(nodes: Seq<NodeModel>, ws: Seq<Workload>)
    ensures
        extends(nodes, place_all(nodes, sorted_by_memory(ws)).0),
        added_workloads(nodes, place_all(nodes, sorted_by_memory(ws)).0, nodes.len() as int).add(
            place_all(nodes, sorted_by_memory(ws)).1.to_multiset(),
        ) == ws.to_multiset(),
        memory_descending(place_all(nodes, sorted_by_memory(ws)).1),
        forall|j: int, i: int|
            0 <= j < place_all(nodes, sorted_by_memory(ws)).1.len() && 0 <= i < nodes.len()
                ==> !(#[trigger] place_all(nodes, sorted_by_memory(ws)).0[i]).fits(
                #[trigger] place_all(nodes, sorted_by_memory(ws)).1[j],
            ),
        forall|i: int|
            0 <= i < nodes.len() && (#[trigger] nodes[i]).within_capacity()
                ==> place_all(nodes, sorted_by_memory(ws)).0[i].within_capacity(),
        forall|i: int|
            0 <= i < nodes.len() && (#[trigger] place_all(nodes, sorted_by_memory(ws)).0[i]).workloads.len()
                > nodes[i].workloads.len()
                ==> place_all(nodes, sorted_by_memory(ws)).0[i].within_capacity(),
        place_singly(nodes, sorted_by_memory(ws)) == place_all(nodes, sorted_by_memory(ws)),
{
    let s = sorted_by_memory(ws);
    lemma_sorted_by_memory(ws);
    lemma_place_all_extends(nodes, s);
    lemma_place_all_conserves(nodes, s);
    lemma_place_all_unplaced_descending(nodes, s);
    lemma_place_all_unplaced_fit_nowhere(nodes, s);
    assert forall|i: int| 0 <= i < nodes.len() && (#[trigger] nodes[i]).within_capacity() implies
        place_all(nodes, s).0[i].within_capacity() by {
        lemma_place_all_capacity(nodes, s, i);
    }
    assert forall|i: int|
        0 <= i < nodes.len() && (#[trigger] place_all(nodes, s).0[i]).workloads.len() > nodes[i].workloads.len()
        implies place_all(nodes, s).0[i].within_capacity() by {
        lemma_place_all_gaining_within_capacity(nodes, s, i);
    }
    lemma_place_all_singly(nodes, s);
}

/// Sums of per-node inequalities `a_i * q ? p * c_i` over the nodes'
/// allocated and capacity memory.
proof fn lemma_cluster_weighted(nodes: Seq<NodeModel>, p: int, q: int)
    ensures
        (forall|i: int| 0 <= i < nodes.len() ==>
            (#[trigger] nodes[i]).allocated(Dim::Memory) * q >= p * nodes[i].profile.capacity(Dim::Memory))
            ==> cluster_allocated(nodes) * q >= p * cluster_capacity(nodes),
        (forall|i: int| 0 <= i < nodes.len() ==>
            (#[trigger] nodes[i]).allocated(Dim::Memory) * q <= p * nodes[i].profile.capacity(Dim::Memory))
            ==> cluster_allocated(nodes) * q <= p * cluster_capacity(nodes),
        nodes.len() > 0 && (forall|i: int| 0 <= i < nodes.len() ==>
            (#[trigger] nodes[i]).allocated(Dim::Memory) * q > p * nodes[i].profile.capacity(Dim::Memory))
            ==> cluster_allocated(nodes) * q > p * cluster_capacity(nodes),
        nodes.len() > 0 && (forall|i: int| 0 <= i < nodes.len() ==>
            (#[trigger] nodes[i]).allocated(Dim::Memory) * q < p * nodes[i].profile.capacity(Dim::Memory))
            ==> cluster_allocated(nodes) * q < p * cluster_capacity(nodes),
    decreases nodes.len(),
{
    if nodes.len() > 0 {
        let t = nodes.drop_last();
        lemma_cluster_weighted(t, p, q);
        let a = nodes.last().allocated(Dim::Memory);
        let c = nodes.last().profile.capacity(Dim::Memory);
        let sa = cluster_allocated(t);
        let sc = cluster_capacity(t);
        assert((sa + a) * q == sa * q + a * q && p * (sc + c) == p * sc + p * c) by (nonlinear_arith);
        assert forall|i: int| 0 <= i < t.len() implies #[trigger] t[i] == nodes[i] by {}
        if t.len() == 0 {
            assert(sa == 0 && sc == 0);
            assert(sa * q == 0 && p * sc == 0) by (nonlinear_arith)
                requires
                    sa == 0,
                    sc == 0,
            ;
        }
    }
}

/// When every node has GPU memory, the cluster's memory utilization lies
/// between the smallest and the largest of the nodes' memory utilizations:
/// some node is at or below it, some node at or above it, and any bound
/// that holds for every node holds for the cluster.
pub proof fn lemma_cluster_between_nodes(nodes: Seq<NodeModel>, r: (int, int))
    requires
        nodes.len() > 0,
        forall|i: int| 0 <= i < nodes.len() ==> (#[trigger] nodes[i]).profile.capacity(Dim::Memory) > 0,
        r.1 > 0,
    ensures
        exists|i: int| 0 <= i < nodes.len() && frac_le((#[trigger] nodes[i]).ratio(Dim::Memory), cluster_ratio(nodes)),
        exists|j: int| 0 <= j < nodes.len() && frac_le(cluster_ratio(nodes), (#[trigger] nodes[j]).ratio(Dim::Memory)),
        (forall|i: int| 0 <= i < nodes.len() ==> frac_le(r, (#[trigger] nodes[i]).ratio(Dim::Memory)))
            ==> frac_le(r, cluster_ratio(nodes)),
        (forall|i: int| 0 <= i < nodes.len() ==> frac_le((#[trigger] nodes[i]).ratio(Dim::Memory), r))
            ==> frac_le(cluster_ratio(nodes), r),
{
    lemma_cluster_capacity_positive(nodes);
    let big_a = cluster_allocated(nodes);
    let big_c = cluster_capacity(nodes);
    assert(cluster_ratio(nodes) == (big_a, big_c));
    // Bounds by r: frac_le(r, (a_i, c_i)) is r.0 * c_i <= a_i * r.1.
    lemma_cluster_weighted(nodes, r.0, r.1);
    assert((forall|i: int| 0 <= i < nodes.len() ==> frac_le(r, (#[trigger] nodes[i]).ratio(Dim::Memory)))
        ==> frac_le(r, cluster_ratio(nodes))) by {
        if forall|i: int| 0 <= i < nodes.len() ==> frac_le(r, (#[trigger] nodes[i]).ratio(Dim::Memory)) {
            assert forall|i: int| 0 <= i < nodes.len() implies
                (#[trigger] nodes[i]).allocated(Dim::Memory) * r.1 >= r.0 * nodes[i].profile.capacity(Dim::Memory) by {
                assert(frac_le(r, nodes[i].ratio(Dim::Memory)));
            }
        }
    }
    assert((forall|i: int| 0 <= i < nodes.len() ==> frac_le((#[trigger] nodes[i]).ratio(Dim::Memory), r))
        ==> frac_le(cluster_ratio(nodes), r)) by {
        if forall|i: int| 0 <= i < nodes.len() ==> frac_le((#[trigger] nodes[i]).ratio(Dim::Memory), r) {
            assert forall|i: int| 0 <= i < nodes.len() implies
                (#[trigger] nodes[i]).allocated(Dim::Memory) * r.1 <= r.0 * nodes[i].profile.capacity(Dim::Memory) by {
                assert(frac_le(nodes[i].ratio(Dim::Memory), r));
            }
        }
    }
    // Some node at or below: otherwise every a_i * C > A * c_i, and summing
    // gives A * C > A * C.
    lemma_cluster_weighted(nodes, big_a, big_c);
    if !exists|i: int| 0 <= i < nodes.len() && frac_le((#[trigger] nodes[i]).ratio(Dim::Memory), cluster_ratio(nodes)) {
        assert forall|i: int| 0 <= i < nodes.len() implies
            (#[trigger] nodes[i]).allocated(Dim::Memory) * big_c > big_a * nodes[i].profile.capacity(Dim::Memory) by {
            assert(!frac_le(nodes[i].ratio(Dim::Memory), cluster_ratio(nodes)));
        }
        assert(big_a * big_c > big_a * big_c);
    }
    if !exists|j: int| 0 <= j < nodes.len() && frac_le(cluster_ratio(nodes), (#[trigger] nodes[j]).ratio(Dim::Memory)) {
        assert forall|i: int| 0 <= i < nodes.len() implies
            (#[trigger] nodes[i]).allocated(Dim::Memory) * big_c < big_a * nodes[i].profile.capacity(Dim::Memory) by {
            assert(!frac_le(cluster_ratio(nodes), nodes[i].ratio(Dim::Memory)));
        }
        assert(big_a * big_c < big_a * big_c);
    }
}

proof fn lemma_cluster_capacity_positive(nodes: Seq<NodeModel>)
    requires
        nodes.len() > 0,
        forall|i: int| 0 <= i < nodes.len() ==> (#[trigger] nodes[i]).profile.capacity(Dim::Memory) > 0,
    ensures
        cluster_capacity(nodes) > 0,
    decreases nodes.len(),
{
    let t = nodes.drop_last();
    assert(nodes.last().profile.capacity(Dim::Memory) > 0);
    if t.len() > 0 {
        assert forall|i: int| 0 <= i < t.len() implies (#[trigger] t[i]).profile.capacity(Dim::Memory) > 0 by {
            assert(t[i] == nodes[i]);
        }
        lemma_cluster_capacity_positive(t);
    } else {
        assert(cluster_capacity(t) == 0);
    }
    lemma_cluster_capacity_nonneg(t);
}

proof fn lemma_cluster_capacity_nonneg(nodes: Seq<NodeModel>)
    ensures
        cluster_capacity(nodes) >= 0,
    decreases nodes.len(),
{
    if nodes.len() > 0 {
        lemma_cluster_capacity_nonneg(nodes.drop_last());
    }
}

/// Adding a node with no workloads never raises the cluster's utilization,
/// for a cluster that is empty or has some GPU memory.
pub proof fn lemma_idle_node_never_raises(nodes: Seq<NodeModel>, n: NodeModel)
    requires
        n.workloads.len() == 0,
        nodes.len() == 0 || cluster_capacity(nodes) > 0,
    ensures
        frac_le(cluster_ratio(nodes.push(n)), cluster_ratio(nodes)),
{
    let bigger = nodes.push(n);
    assert(bigger.drop_last() =~= nodes);
    assert(n.allocated(Dim::Memory) == 0);
    lemma_cluster_allocated_nonneg(nodes);
    lemma_cluster_capacity_nonneg(nodes);
    let a = cluster_allocated(nodes);
    let c = cluster_capacity(nodes);
    let cn = n.profile.capacity(Dim::Memory);
    if nodes.len() == 0 {
        assert(a == 0 && c == 0);
    } else {
        assert(a * c <= a * (c + cn)) by (nonlinear_arith)
            requires
                a >= 0,
                c > 0,
                cn >= 0,
        ;
    }
}

/// Scale recommendation: ternary signal for the whole cluster.
#[derive(Debug, Clone)]
pub struct ScaleRecommendation {
    pub signal: TernarySignal,
    pub recommendation: String,
    pub utilization: Ratio,
}

impl CapacityPlanner {
    pub fn new() -> (p: Self)
        ensures
            p@ == Seq::<NodeModel>::empty(),
    {
        let p = CapacityPlanner { nodes: Vec::new() };
        assert(p@ =~= Seq::<NodeModel>::empty());
        p
    }

    pub fn add_node(&mut self, node: Node)
        ensures
            final(self)@ == old(self)@.push(node@),
    {
        self.nodes.push(node);
        assert(self@ =~= old(self)@.push(node@));
    }

    /// Overall cluster utilization ratio.
    pub fn cluster_utilization(&self) -> (r: Ratio)
        requires
            cluster_total_fits(self@),
        ensures
            r.wf(),
            r@ == cluster_ratio(self@),
    {
        if self.nodes.len() == 0 {
            return Ratio::zero();
        }
        let mut total_cap: u128 = 0;
        let mut total_alloc: u128 = 0;
        let mut i: usize = 0;
        while i < self.nodes.len()
            invariant
                i <= self@.len(),
                self@.len() == self.nodes@.len(),
                cluster_total_fits(self@),
                total_cap == cluster_capacity(self@.take(i as int)),
                total_cap <= i * 0xffff_ffff,
                total_alloc == cluster_allocated(self@.take(i as int)),
            decreases self.nodes@.len() - i,
        {
            proof {
                assert(self@.take(i as int + 1).drop_last() =~= self@.take(i as int));
                assert(self@[i as int] == self.nodes@[i as int]@);
                lemma_cluster_allocated_prefix(self@, i as int + 1);
            }
            total_cap = total_cap + self.nodes[i].profile.gpu_memory_gib as u128;
            total_alloc = total_alloc + self.nodes[i].allocated_gpu_memory();
            i = i + 1;
        }
        assert(self@.take(i as int) =~= self@);
        if total_cap == 0 {
            return Ratio::zero();
        }
        Ratio { num: total_alloc, den: total_cap }
    }

    /// Aggregate ternary signal across all nodes.
    pub fn aggregate_signal(&self) -> (s: TernarySignal)
        requires
            cluster_total_fits(self@),
        ensures
            s == classify(cluster_ratio(self@)),
    {
        TernarySignal::from_utilization(self.cluster_utilization())
    }

    /// Scale recommendation: ternary signal for the whole cluster.
    pub fn scale_recommendation(&self) -> (r: ScaleRecommendation)
        requires
            cluster_total_fits(self@),
        ensures
            r.signal == classify(cluster_ratio(self@)),
            r.recommendation@ == recommendation_text(r.signal),
            r.utilization.wf(),
            r.utilization@ == cluster_ratio(self@),
    {
        let signal = self.aggregate_signal();
        let recommendation = match signal {
            TernarySignal::Underutilized => "scale-down: cluster is underutilized, consider removing nodes",
            TernarySignal::Balanced => "hold: cluster utilization is balanced",
            TernarySignal::Overloaded => "scale-up: cluster is overloaded, consider adding nodes",
        };
        ScaleRecommendation {
            signal,
            recommendation: recommendation.to_owned(),
            utilization: self.cluster_utilization(),
        }
    }

    /// Cost efficiency: ratio of actual utilization to total allocation.
    /// Returns (utilization_ratio, cost_efficiency_score).
    pub fn cost_efficiency(&self) -> (r: (Ratio, Ratio))
        requires
            cluster_total_fits(self@),
        ensures
            r.0.wf(),
            r.1.wf(),
            r.0@ == cluster_ratio(self@),
            r.1@ == efficiency(cluster_ratio(self@)),
    {
        let util = self.cluster_utilization();
        // Cost efficiency: 1.0 is perfect utilization, penalize under and over
        let score = if util.num == 0 {
            Ratio::zero()
        } else if util.num <= util.den {
            // Higher utilization = better cost efficiency
            util
        } else {
            // Overcommitted: penalize
            Ratio { num: util.den, den: util.num }
        };
        (util, score)
    }

    /// Per-node signals for detailed analysis.
    pub fn node_signals(&self) -> (v: Vec<(String, TernarySignal, Ratio)>)
        requires
            compute_totals_fit(self@),
        ensures
            v@.len() == self@.len(),
            forall|i: int| 0 <= i < v@.len() ==> {
                &&& (#[trigger] v@[i]).0@ == self@[i].id
                &&& v@[i].1 == self@[i].signal()
                &&& v@[i].2.wf()
                &&& v@[i].2@ == self@[i].composite()
            },
    {
        let mut v: Vec<(String, TernarySignal, Ratio)> = Vec::new();
        let mut i: usize = 0;
        while i < self.nodes.len()
            invariant
                i <= self@.len(),
                self@.len() == self.nodes@.len(),
                compute_totals_fit(self@),
                v@.len() == i,
                forall|j: int| 0 <= j < i ==> {
                    &&& (#[trigger] v@[j]).0@ == self@[j].id
                    &&& v@[j].1 == self@[j].signal()
                    &&& v@[j].2.wf()
                    &&& v@[j].2@ == self@[j].composite()
                },
            decreases self.nodes@.len() - i,
        {
            proof {
                assert(self@[i as int] == self.nodes@[i as int]@);
            }
            let n = &self.nodes[i];
            v.push((n.id.clone(), n.ternary_signal(), n.composite_utilization()));
            i = i + 1;
        }
        v
    }

    /// Bin-pack workloads onto nodes using best-fit decreasing.
    ///
    /// Sorts workloads by GPU memory descending, then places each workload on
    /// the node with the *least* remaining memory that still fits.
    pub fn bin_pack_best_fit_decreasing(&mut self, workloads: Vec<Workload>) -> (unplaced: Vec<Workload>)
        requires
            workloads@.len() > 0 ==> compute_totals_fit(old(self)@),
        ensures
            (final(self)@, unplaced@) == place_all(old(self)@, sorted_by_memory(workloads@)),
    {
        proof {
            lemma_sorted_by_memory(workloads@);
        }
        let sorted = sort_by_memory_desc(workloads);
        let ghost ws = sorted@;
        let ghost start = self@;
        let n = sorted.len();
        let mut rest = sorted;
        let mut unplaced: Vec<Workload> = Vec::new();
        let mut done: usize = 0;
        while rest.len() > 0
            invariant
                done + rest@.len() == n,
                n == ws.len(),
                rest@ == ws.subrange(done as int, n as int),
                (self@, unplaced@) == place_all(start, ws.take(done as int)),
                n > 0 ==> compute_totals_fit(self@),
            decreases rest@.len(),
        {
            let wl = rest.remove(0);
            let ghost before = self@;
            proof {
                assert(ws.take(done as int + 1).drop_last() =~= ws.take(done as int));
                assert(ws.take(done as int + 1).last() == wl);
            }
            let mut best_idx: Option<usize> = None;
            let mut best_remaining: u32 = 0;
            let mut i: usize = 0;
            while i < self.nodes.len()
                invariant
                    self@ == before,
                    compute_totals_fit(self@),
                    i <= self.nodes@.len(),
                    self.nodes@.len() == before.len(),
                    best_idx matches Some(b) ==> b < i,
                    best_idx == match best_fit_among(before, wl, i as int) {
                        Some(b) => Some(b as usize),
                        None => None::<usize>,
                    },
                    best_fit_among(before, wl, i as int) matches Some(b) ==> 0 <= b < i
                        && best_remaining + wl.gpu_memory_gib == before[b].remaining_memory(),
                decreases self.nodes@.len() - i,
            {
                proof {
                    assert(before[i as int] == self.nodes@[i as int]@);
                }
                if self.nodes[i].can_fit(&wl) {
                    let rem = self.nodes[i].remaining_gpu_memory() - wl.gpu_memory_gib;
                    if best_idx.is_none() || rem < best_remaining {
                        best_idx = Some(i);
                        best_remaining = rem;
                    }
                }
                i = i + 1;
            }
            match best_idx {
                Some(idx) => {
                    proof {
                        assert(before[idx as int] == self.nodes@[idx as int]@);
                    }
                    self.nodes[idx].assign(wl);
                    proof {
                        let target = before[idx as int];
                        lemma_best_fit_among(before, wl, before.len() as int);
                        assert(self@ =~= before.update(idx as int, with_workload(target, wl)));
                        lemma_total_push(target.workloads, wl, Dim::Compute);
                        assert forall|k: int| 0 <= k < self@.len() implies (#[trigger] self@[k]).compute_total_fits() by {
                            if k != idx {
                                assert(self@[k] == before[k]);
                            }
                        }
                    }
                },
                None => {
                    unplaced.push(wl);
                },
            }
            done = done + 1;
            proof {
                assert(rest@ =~= ws.subrange(done as int, n as int));
            }
        }
        assert(ws.take(n as int) =~= ws);
        unplaced
    }
}

impl Default for CapacityPlanner {
    fn default() -> (p: Self)
        ensures
            p@ == Seq::<NodeModel>::empty(),
    {
        Self::new()
    }
}

} // verus!
