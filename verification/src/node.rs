//! A single GPU node and its utilization.

use vstd::prelude::*;
use crate::ratio::Ratio;
use crate::signal::{TernarySignal, classify};
use crate::workload::{Dim, ResourceProfile, Workload, total, sum_demand, lemma_total_push, lemma_total_bounds};

verus! {

/// A single GPU node in the cluster.
#[derive(Debug, Clone)]
pub struct Node {
    pub id: String,
    pub profile: ResourceProfile,
    pub workloads: Vec<Workload>,
}

/// What a node holds, as mathematical values.
pub struct NodeModel {
    pub id: Seq<char>,
    pub profile: ResourceProfile,
    pub workloads: Seq<Workload>,
}

impl View for Node {
    type V = NodeModel;

    open spec fn view(&self) -> NodeModel {
        NodeModel { id: self.id@, profile: self.profile, workloads: self.workloads@ }
    }
}

/// The mean of two fractions `(a/b + c/d) / 2`, as `(a*d + c*b) / (2*b*d)`.
pub open spec fn mean_of(m: (int, int), c: (int, int)) -> (int, int) {
    (m.0 * c.1 + c.0 * m.1, 2 * m.1 * c.1)
}

impl NodeModel {
    /// Total demand of the assigned workloads along `d`.
    pub open spec fn allocated(self, d: Dim) -> int {
        total(self.workloads, d)
    }

    /// The assigned compute total fits the `u32` that reports it.
    pub open spec fn compute_total_fits(self) -> bool {
        self.allocated(Dim::Compute) <= u32::MAX
    }

    /// Accepting `w` keeps every dimension within the node's capacity.
    pub open spec fn fits(self, w: Workload) -> bool {
        &&& self.allocated(Dim::Memory) + w.demand(Dim::Memory) <= self.profile.capacity(Dim::Memory)
        &&& self.allocated(Dim::Compute) + w.demand(Dim::Compute) <= self.profile.capacity(Dim::Compute)
        &&& self.allocated(Dim::Bandwidth) + w.demand(Dim::Bandwidth) <= self.profile.capacity(Dim::Bandwidth)
    }

    /// Every dimension is within the node's capacity.
    pub open spec fn within_capacity(self) -> bool {
        &&& self.allocated(Dim::Memory) <= self.profile.capacity(Dim::Memory)
        &&& self.allocated(Dim::Compute) <= self.profile.capacity(Dim::Compute)
        &&& self.allocated(Dim::Bandwidth) <= self.profile.capacity(Dim::Bandwidth)
    }

    /// GPU memory left unallocated, never below zero.
    pub open spec fn remaining_memory(self) -> int {
        let r = self.profile.capacity(Dim::Memory) - self.allocated(Dim::Memory);
        if r < 0 { 0 } else { r }
    }

    /// Allocated over capacity along `d`; `0 / 1` for a zero capacity.
    pub open spec fn ratio(self, d: Dim) -> (int, int) {
        if self.profile.capacity(d) == 0 {
            (0, 1)
        } else {
            (self.allocated(d), self.profile.capacity(d))
        }
    }

    /// Mean of the memory and compute utilizations.
    pub open spec fn composite(self) -> (int, int) {
        mean_of(self.ratio(Dim::Memory), self.ratio(Dim::Compute))
    }

    /// The node's ternary classification.
    pub open spec fn signal(self) -> TernarySignal {
        classify(self.composite())
    }
}

/// Assigning `w` adds its demand to the node's allocation in every
/// dimension, and keeps the node's id and profile.
pub proof fn lemma_assign_adds_demand(n: NodeModel, w: Workload, d: Dim)
    ensures
        (NodeModel { id: n.id, profile: n.profile, workloads: n.workloads.push(w) }).allocated(d)
            == n.allocated(d) + w.demand(d),
{
    lemma_total_push(n.workloads, w, d);
}

/// A workload the node can take leaves it within capacity once assigned,
/// with its remaining memory lowered by exactly the workload's demand.
pub proof fn lemma_assign_fitting(n: NodeModel, w: Workload)
    requires
        n.fits(w),
    ensures
        (NodeModel { id: n.id, profile: n.profile, workloads: n.workloads.push(w) }).within_capacity(),
        (NodeModel { id: n.id, profile: n.profile, workloads: n.workloads.push(w) }).remaining_memory()
            == n.remaining_memory() - w.gpu_memory_gib,
{
    lemma_total_push(n.workloads, w, Dim::Memory);
    lemma_total_push(n.workloads, w, Dim::Compute);
    lemma_total_push(n.workloads, w, Dim::Bandwidth);
}

/// A node's utilization along each dimension is its total demand over its
/// capacity, with no cap when overcommitted: for a positive capacity the
/// fraction equals `total / capacity` (so it is above one exactly when the
/// node is overcommitted), and it is zero for a zero capacity.
pub proof fn lemma_utilization_is_demand_over_capacity(n: NodeModel)
    ensures
        n.ratio(Dim::Memory).1 > 0,
        n.ratio(Dim::Compute).1 > 0,
        n.profile.gpu_memory_gib > 0 ==> n.ratio(Dim::Memory).0 * n.profile.gpu_memory_gib
            == total(n.workloads, Dim::Memory) * n.ratio(Dim::Memory).1,
        n.profile.compute_units > 0 ==> n.ratio(Dim::Compute).0 * n.profile.compute_units
            == total(n.workloads, Dim::Compute) * n.ratio(Dim::Compute).1,
        n.profile.gpu_memory_gib > 0 ==> (n.ratio(Dim::Memory).0 > n.ratio(Dim::Memory).1
            <==> total(n.workloads, Dim::Memory) > n.profile.gpu_memory_gib),
        n.profile.compute_units > 0 ==> (n.ratio(Dim::Compute).0 > n.ratio(Dim::Compute).1
            <==> total(n.workloads, Dim::Compute) > n.profile.compute_units),
        n.profile.gpu_memory_gib == 0 ==> n.ratio(Dim::Memory).0 == 0,
        n.profile.compute_units == 0 ==> n.ratio(Dim::Compute).0 == 0,
{
}

/// A node's composite utilization is the mean of its memory and compute
/// utilizations, each being total demand over capacity without any cap:
/// with both capacities positive it equals
/// `(mem/cap_m + cmp/cap_c) / 2 = (mem*cap_c + cmp*cap_m) / (2*cap_m*cap_c)`,
/// and a zero capacity contributes zero.
pub proof fn lemma_composite_is_mean(n: NodeModel)
    ensures
        n.composite().1 > 0,
        ({
            let am = total(n.workloads, Dim::Memory);
            let ac = total(n.workloads, Dim::Compute);
            let cm = n.profile.gpu_memory_gib as int;
            let cc = n.profile.compute_units as int;
            &&& cm > 0 && cc > 0 ==> n.composite().0 * (2 * cm * cc) == n.composite().1 * (am * cc + ac * cm)
            &&& cm == 0 && cc > 0 ==> n.composite().0 * (2 * cc) == n.composite().1 * ac
            &&& cm > 0 && cc == 0 ==> n.composite().0 * (2 * cm) == n.composite().1 * am
            &&& cm == 0 && cc == 0 ==> n.composite().0 == 0
        }),
{
    let am = total(n.workloads, Dim::Memory);
    let ac = total(n.workloads, Dim::Compute);
    let cm = n.profile.gpu_memory_gib as int;
    let cc = n.profile.compute_units as int;
    let c = n.composite();
    assert(c.1 > 0) by (nonlinear_arith)
        requires
            c.1 == 2 * n.ratio(Dim::Memory).1 * n.ratio(Dim::Compute).1,
            n.ratio(Dim::Memory).1 > 0,
            n.ratio(Dim::Compute).1 > 0,
    ;
    if cm > 0 && cc > 0 {
        assert(c == (am * cc + ac * cm, 2 * cm * cc));
        assert(c.0 * (2 * cm * cc) == c.1 * (am * cc + ac * cm)) by (nonlinear_arith)
            requires
                c == (am * cc + ac * cm, 2 * cm * cc),
        ;
    } else if cm == 0 && cc > 0 {
        assert(c == (0 * cc + ac * 1, 2 * 1 * cc));
        assert(c.0 * (2 * cc) == c.1 * ac) by (nonlinear_arith)
            requires
                c == (ac, 2 * cc),
        ;
    } else if cm > 0 && cc == 0 {
        assert(c == (am * 1 + 0 * cm, 2 * cm * 1));
        assert(c.0 * (2 * cm) == c.1 * am) by (nonlinear_arith)
            requires
                c == (am, 2 * cm),
        ;
    } else {
        assert(c == (0int, 2int));
    }
}

/// More memory in use, with the same profile and compute, gives a strictly
/// higher composite utilization (for a node with memory capacity).
pub proof fn lemma_composite_increases_with_memory(n1: NodeModel, n2: NodeModel)
    requires
        n1.profile == n2.profile,
        n1.profile.gpu_memory_gib > 0,
        total(n1.workloads, Dim::Compute) == total(n2.workloads, Dim::Compute),
        total(n1.workloads, Dim::Memory) < total(n2.workloads, Dim::Memory),
    ensures
        n1.composite().0 * n2.composite().1 < n2.composite().0 * n1.composite().1,
{
    let cm = n1.profile.gpu_memory_gib as int;
    let cc = n1.profile.compute_units as int;
    let a1 = total(n1.workloads, Dim::Memory);
    let a2 = total(n2.workloads, Dim::Memory);
    let ac = total(n1.workloads, Dim::Compute);
    let d = n1.composite().1;
    assert(n2.composite().1 == d);
    let cc1 = if cc == 0 { 1 } else { cc };
    let ac1 = if cc == 0 { 0 } else { ac };
    assert(n1.composite() == (a1 * cc1 + ac1 * cm, 2 * cm * cc1));
    assert(n2.composite() == (a2 * cc1 + ac1 * cm, 2 * cm * cc1));
    assert((a1 * cc1 + ac1 * cm) * (2 * cm * cc1) < (a2 * cc1 + ac1 * cm) * (2 * cm * cc1)) by (nonlinear_arith)
        requires
            a1 < a2,
            cc1 > 0,
            cm > 0,
    ;
}

/// A node's signal classifies the mean of its memory and compute
/// utilizations, written out from totals and capacities (both positive):
/// underutilized below 2/5, overloaded above 4/5, balanced in between.
pub proof fn lemma_node_signal_thresholds(n: NodeModel)
    requires
        n.profile.gpu_memory_gib > 0,
        n.profile.compute_units > 0,
    ensures
        ({
            let am = total(n.workloads, Dim::Memory);
            let ac = total(n.workloads, Dim::Compute);
            let cm = n.profile.gpu_memory_gib as int;
            let cc = n.profile.compute_units as int;
            &&& n.signal() == TernarySignal::Underutilized <==> 5 * (am * cc + ac * cm) < 2 * (2 * cm * cc)
            &&& n.signal() == TernarySignal::Overloaded <==> 5 * (am * cc + ac * cm) > 4 * (2 * cm * cc)
            &&& n.signal() == TernarySignal::Balanced <==> 2 * (2 * cm * cc) <= 5 * (am * cc + ac * cm)
                <= 4 * (2 * cm * cc)
        }),
{
}

/// With the same profile and compute, using more memory never gives a lower
/// signal.
pub proof fn lemma_node_signal_monotone_in_memory(n1: NodeModel, n2: NodeModel)
    requires
        n1.profile == n2.profile,
        total(n1.workloads, Dim::Compute) == total(n2.workloads, Dim::Compute),
        total(n1.workloads, Dim::Memory) <= total(n2.workloads, Dim::Memory),
    ensures
        crate::signal::load_rank(n1.signal()) <= crate::signal::load_rank(n2.signal()),
{
    lemma_total_bounds(n1.workloads, Dim::Memory);
    lemma_total_bounds(n1.workloads, Dim::Compute);
    lemma_composite_is_mean(n1);
    lemma_composite_is_mean(n2);
    if n1.profile.gpu_memory_gib > 0 && total(n1.workloads, Dim::Memory) < total(n2.workloads, Dim::Memory) {
        lemma_composite_increases_with_memory(n1, n2);
    }
    let c1 = n1.composite();
    let c2 = n2.composite();
    assert(c1.0 >= 0) by (nonlinear_arith)
        requires
            c1 == mean_of(n1.ratio(Dim::Memory), n1.ratio(Dim::Compute)),
            n1.ratio(Dim::Memory).0 >= 0,
            n1.ratio(Dim::Memory).1 > 0,
            n1.ratio(Dim::Compute).0 >= 0,
            n1.ratio(Dim::Compute).1 > 0,
    ;
    assert(c1.0 * c2.1 <= c2.0 * c1.1);
    crate::signal::lemma_classify_monotone(c1, c2);
}

impl Node {
    pub fn new(id: &str, profile: ResourceProfile) -> (n: Self)
        ensures
            n@.id == id@,
            n@.profile == profile,
            n@.workloads == Seq::<Workload>::empty(),
    {
        Node { id: id.to_owned(), profile, workloads: Vec::new() }
    }

    /// How much GPU memory is currently allocated (sum of workload demands).
    pub fn allocated_gpu_memory(&self) -> (m: u128)
        ensures
            m == self@.allocated(Dim::Memory),
            m <= 0xffff_ffff_ffff_ffff * 0xffff_ffff,
    {
        sum_demand(&self.workloads, &Dim::Memory)
    }

    /// How much compute is currently allocated.
    pub fn allocated_compute(&self) -> (c: u32)
        requires
            self@.compute_total_fits(),
        ensures
            c == self@.allocated(Dim::Compute),
    {
        let c = sum_demand(&self.workloads, &Dim::Compute);
        c as u32
    }

    /// How much bandwidth is currently allocated.
    pub fn allocated_bandwidth(&self) -> (b: u128)
        ensures
            b == self@.allocated(Dim::Bandwidth),
            b <= 0xffff_ffff_ffff_ffff * 0xffff_ffff,
    {
        sum_demand(&self.workloads, &Dim::Bandwidth)
    }

    /// Utilization ratio: allocated / capacity (above 1 if overcommitted).
    pub fn memory_utilization(&self) -> (r: Ratio)
        ensures
            r.wf(),
            r@ == self@.ratio(Dim::Memory),
            r.num <= 0xffff_ffff_ffff_ffff * 0xffff_ffff,
            r.den <= 0xffff_ffff,
    {
        if self.profile.gpu_memory_gib == 0 {
            return Ratio::zero();
        }
        Ratio { num: self.allocated_gpu_memory(), den: self.profile.gpu_memory_gib as u128 }
    }

    pub fn compute_utilization(&self) -> (r: Ratio)
        requires
            self@.compute_total_fits(),
        ensures
            r.wf(),
            r@ == self@.ratio(Dim::Compute),
            r.num <= 0xffff_ffff,
            r.den <= 0xffff_ffff,
    {
        if self.profile.compute_units == 0 {
            return Ratio::zero();
        }
        Ratio { num: self.allocated_compute() as u128, den: self.profile.compute_units as u128 }
    }

    /// Composite utilization: average of memory and compute ratios.
    pub fn composite_utilization(&self) -> (r: Ratio)
        requires
            self@.compute_total_fits(),
        ensures
            r.wf(),
            r@ == self@.composite(),
    {
        let m = self.memory_utilization();
        let c = self.compute_utilization();
        proof {
            assert(m.num * c.den + c.num * m.den <= u128::MAX && 0 < 2 * m.den * c.den <= u128::MAX)
                by (nonlinear_arith)
                requires
                    0 <= m.num <= 0xffff_ffff_ffff_ffff * 0xffff_ffff,
                    1 <= m.den <= 0xffff_ffff,
                    0 <= c.num <= 0xffff_ffff,
                    1 <= c.den <= 0xffff_ffff,
            ;
        }
        Ratio { num: m.num * c.den + c.num * m.den, den: 2 * m.den * c.den }
    }

    /// Ternary classification of this node.
    pub fn ternary_signal(&self) -> (s: TernarySignal)
        requires
            self@.compute_total_fits(),
        ensures
            s == self@.signal(),
    {
        TernarySignal::from_utilization(self.composite_utilization())
    }

    /// Can this node accept the workload without exceeding capacity?
    pub fn can_fit(&self, workload: &Workload) -> (b: bool)
        requires
            self@.compute_total_fits(),
        ensures
            b == self@.fits(*workload),
    {
        self.allocated_gpu_memory() + workload.gpu_memory_gib as u128
            <= self.profile.gpu_memory_gib as u128
            && self.allocated_compute() as u64 + workload.compute_units as u64
            <= self.profile.compute_units as u64
            && self.allocated_bandwidth() + workload.bandwidth_gib_s as u128
            <= self.profile.bandwidth_gib_s as u128
    }

    /// Assign a workload to this node.
    pub fn assign(&mut self, workload: Workload)
        ensures
            final(self)@.id == old(self)@.id,
            final(self)@.profile == old(self)@.profile,
            final(self)@.workloads == old(self)@.workloads.push(workload),
    {
        self.workloads.push(workload);
    }

    /// Remaining GPU memory.
    pub fn remaining_gpu_memory(&self) -> (r: u32)
        ensures
            r == self@.remaining_memory(),
    {
        let alloc = self.allocated_gpu_memory();
        let cap = self.profile.gpu_memory_gib as u128;
        if alloc >= cap {
            0
        } else {
            (cap - alloc) as u32
        }
    }
}

} // verus!
