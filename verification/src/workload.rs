//! Hardware profiles, workloads and the totals of their demands.

use vstd::prelude::*;

verus! {

/// Hardware resource profile for a GPU node.
#[derive(Debug, Clone, Copy, PartialEq, Eq, Structural)]
pub struct ResourceProfile {
    /// GPU memory in GiB.
    pub gpu_memory_gib: u32,
    /// Number of compute units (e.g. SMs, CUs).
    pub compute_units: u32,
    /// Memory bandwidth in GiB/s.
    pub bandwidth_gib_s: u32,
}

impl ResourceProfile {
    pub fn new(gpu_memory_gib: u32, compute_units: u32, bandwidth_gib_s: u32) -> (p: Self)
        ensures
            p.gpu_memory_gib == gpu_memory_gib,
            p.compute_units == compute_units,
            p.bandwidth_gib_s == bandwidth_gib_s,
    {
        ResourceProfile { gpu_memory_gib, compute_units, bandwidth_gib_s }
    }

    /// The capacity along one dimension.
    pub open spec fn capacity(self, d: Dim) -> int {
        match d {
            Dim::Memory => self.gpu_memory_gib as int,
            Dim::Compute => self.compute_units as int,
            Dim::Bandwidth => self.bandwidth_gib_s as int,
        }
    }
}

/// A workload requesting GPU resources.
#[derive(Debug, Clone, PartialEq)]
pub struct Workload {
    pub id: String,
    pub gpu_memory_gib: u32,
    pub compute_units: u32,
    pub bandwidth_gib_s: u32,
}

impl Workload {
    pub fn new(id: &str, gpu_memory_gib: u32, compute_units: u32, bandwidth_gib_s: u32) -> (w: Self)
        ensures
            w.id@ == id@,
            w.gpu_memory_gib == gpu_memory_gib,
            w.compute_units == compute_units,
            w.bandwidth_gib_s == bandwidth_gib_s,
    {
        Workload { id: id.to_owned(), gpu_memory_gib, compute_units, bandwidth_gib_s }
    }

    /// The demand along one dimension.
    pub open spec fn demand(self, d: Dim) -> int {
        match d {
            Dim::Memory => self.gpu_memory_gib as int,
            Dim::Compute => self.compute_units as int,
            Dim::Bandwidth => self.bandwidth_gib_s as int,
        }
    }
}

/// The three resource dimensions that are planned.
pub enum Dim {
    Memory,
    Compute,
    Bandwidth,
}

/// The sum of the workloads' demands along `d`.
pub open spec fn total(ws: Seq<Workload>, d: Dim) -> int
    decreases ws.len(),
{
    if ws.len() == 0 {
        0
    } else {
        total(ws.drop_last(), d) + ws.last().demand(d)
    }
}

/// The total is non-negative and at most `u32::MAX` per workload.
pub proof fn lemma_total_bounds(ws: Seq<Workload>, d: Dim)
    ensures
        0 <= total(ws, d) <= ws.len() * 0xffff_ffff,
    decreases ws.len(),
{
    if ws.len() > 0 {
        lemma_total_bounds(ws.drop_last(), d);
    }
}

/// Appending a workload adds its demand to the total.
pub proof fn lemma_total_push(ws: Seq<Workload>, w: Workload, d: Dim)
    ensures
        total(ws.push(w), d) == total(ws, d) + w.demand(d),
{
    assert(ws.push(w).drop_last() =~= ws);
}

/// The total of a concatenation is the sum of the totals.
pub proof fn lemma_total_concat(a: Seq<Workload>, b: Seq<Workload>, d: Dim)
    ensures
        total(a + b, d) == total(a, d) + total(b, d),
    decreases b.len(),
{
    if b.len() == 0 {
        assert(a + b =~= a);
    } else {
        lemma_total_concat(a, b.drop_last(), d);
        assert((a + b).drop_last() =~= a + b.drop_last());
    }
}

/// The total demand of `ws` along `d`, in exact arithmetic.
pub(crate) fn sum_demand(ws: &Vec<Workload>, d: &Dim) -> (s: u128)
    ensures
        s == total(ws@, *d),
        s <= 0xffff_ffff_ffff_ffff * 0xffff_ffff,
{
    let mut acc: u128 = 0;
    let mut i: usize = 0;
    while i < ws.len()
        invariant
            i <= ws.len(),
            acc == total(ws@.take(i as int), *d),
            acc <= i * 0xffff_ffff,
        decreases ws.len() - i,
    {
        proof {
            assert(ws@.take(i as int + 1).drop_last() =~= ws@.take(i as int));
        }
        let w = &ws[i];
        let v: u32 = match d {
            Dim::Memory => w.gpu_memory_gib,
            Dim::Compute => w.compute_units,
            Dim::Bandwidth => w.bandwidth_gib_s,
        };
        acc = acc + v as u128;
        i = i + 1;
    }
    assert(ws@.take(i as int) =~= ws@);
    acc
}

} // verus!
