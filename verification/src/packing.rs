//! Best-fit decreasing placement, as mathematical functions.

use vstd::prelude::*;
use vstd::multiset::Multiset;
use crate::node::{NodeModel, lemma_assign_fitting};
use crate::ordering::{memory_descending, sorted_by_memory};
use crate::workload::{Dim, Workload, lemma_total_concat, lemma_total_bounds};

verus! {

/// `n` with `w` appended to its workloads.
pub open spec fn with_workload(n: NodeModel, w: Workload) -> NodeModel {
    NodeModel { id: n.id, profile: n.profile, workloads: n.workloads.push(w) }
}

/// The best fit for `w` among `nodes[0..k]`: a node that can take `w`
/// with the least remaining memory, the first such one on ties.
pub open spec fn best_fit_among(nodes: Seq<NodeModel>, w: Workload, k: int) -> Option<int>
    decreases k,
{
    if k <= 0 {
        None
    } else {
        let b = best_fit_among(nodes, w, k - 1);
        if nodes[k - 1].fits(w) && (b is None || nodes[k - 1].remaining_memory()
            < nodes[b->0].remaining_memory()) {
            Some(k - 1)
        } else {
            b
        }
    }
}

/// What the best fit among `nodes[0..k]` is: a node that can take `w`,
/// with no more remaining memory than any other that can, and with strictly
/// less than every earlier one that can; none only when no node can take `w`.
pub proof fn lemma_best_fit_among(nodes: Seq<NodeModel>, w: Workload, k: int)
    requires
        0 <= k <= nodes.len(),
    ensures
        best_fit_among(nodes, w, k) matches Some(b) ==> {
            &&& 0 <= b < k
            &&& nodes[b].fits(w)
            &&& forall|j: int| 0 <= j < k && #[trigger] nodes[j].fits(w)
                ==> nodes[b].remaining_memory() <= nodes[j].remaining_memory()
            &&& forall|j: int| 0 <= j < b && #[trigger] nodes[j].fits(w)
                ==> nodes[b].remaining_memory() < nodes[j].remaining_memory()
        },
        best_fit_among(nodes, w, k) is None ==> forall|j: int| 0 <= j < k ==> !(#[trigger] nodes[j].fits(w)),
    decreases k,
{
    if k > 0 {
        lemma_best_fit_among(nodes, w, k - 1);
    }
}

/// The best fit for `w` among all `nodes`.
pub open spec fn best_fit(nodes: Seq<NodeModel>, w: Workload) -> Option<int> {
    best_fit_among(nodes, w, nodes.len() as int)
}

/// Place `ws` one after another, each on its best fit; those that fit
/// nowhere are returned in order. The result is `(nodes, unplaced)`.
pub open spec fn place_all(nodes: Seq<NodeModel>, ws: Seq<Workload>) -> (Seq<NodeModel>, Seq<Workload>)
    decreases ws.len(),
{
    if ws.len() == 0 {
        (nodes, Seq::empty())
    } else {
        let (ns, un) = place_all(nodes, ws.drop_last());
        let w = ws.last();
        match best_fit(ns, w) {
            Some(i) => (ns.update(i, with_workload(ns[i], w)), un),
            None => (ns, un.push(w)),
        }
    }
}

/// The assigned compute total of every node fits in a `u32`.
pub open spec fn compute_totals_fit(nodes: Seq<NodeModel>) -> bool {
    forall|i: int| 0 <= i < nodes.len() ==> (#[trigger] nodes[i]).compute_total_fits()
}

/// `after` holds the same nodes as `before`, in the same order, with the
/// same ids and profiles, each keeping its workloads as a prefix.
pub open spec fn extends(before: Seq<NodeModel>, after: Seq<NodeModel>) -> bool {
    &&& after.len() == before.len()
    &&& forall|i: int| 0 <= i < before.len() ==> {
        &&& (#[trigger] after[i]).id == before[i].id
        &&& after[i].profile == before[i].profile
        &&& before[i].workloads.len() <= after[i].workloads.len()
        &&& after[i].workloads.subrange(0, before[i].workloads.len() as int) == before[i].workloads
    }
}

/// The workloads that `after` holds beyond `before`, on `after[0..k]`.
pub open spec fn added_workloads(before: Seq<NodeModel>, after: Seq<NodeModel>, k: int) -> Multiset<Workload>
    decreases k,
{
    if k <= 0 {
        Multiset::empty()
    } else {
        added_workloads(before, after, k - 1).add(
            after[k - 1].workloads.skip(before[k - 1].workloads.len() as int).to_multiset(),
        )
    }
}

proof fn lemma_extends_trans(a: Seq<NodeModel>, b: Seq<NodeModel>, c: Seq<NodeModel>)
    requires
        extends(a, b),
        extends(b, c),
    ensures
        extends(a, c),
{
    assert forall|i: int| 0 <= i < a.len() implies
        c[i].workloads.subrange(0, a[i].workloads.len() as int) == a[i].workloads by {
        assert(c[i].workloads.subrange(0, a[i].workloads.len() as int)
            =~= c[i].workloads.subrange(0, b[i].workloads.len() as int).subrange(0, a[i].workloads.len() as int));
    }
}

proof fn lemma_extends_refl(a: Seq<NodeModel>)
    ensures
        extends(a, a),
{
    assert forall|i: int| 0 <= i < a.len() implies
        a[i].workloads.subrange(0, a[i].workloads.len() as int) == a[i].workloads by {
        assert(a[i].workloads.subrange(0, a[i].workloads.len() as int) =~= a[i].workloads);
    }
}

/// A node that keeps its workloads as a prefix never has less allocated.
proof fn lemma_prefix_allocated(before: NodeModel, after: NodeModel, d: Dim)
    requires
        before.workloads.len() <= after.workloads.len(),
        after.workloads.subrange(0, before.workloads.len() as int) == before.workloads,
    ensures
        before.allocated(d) <= after.allocated(d),
{
    let k = before.workloads.len() as int;
    let rest = after.workloads.subrange(k, after.workloads.len() as int);
    assert(after.workloads =~= before.workloads + rest);
    lemma_total_concat(before.workloads, rest, d);
    lemma_total_bounds(rest, d);
}

proof fn lemma_place_one(ns: Seq<NodeModel>, w: Workload)
    ensures
        best_fit(ns, w) matches Some(b) ==> extends(ns, ns.update(b, with_workload(ns[b], w))),
{
    lemma_best_fit_among(ns, w, ns.len() as int);
    if let Some(b) = best_fit(ns, w) {
        let after = ns.update(b, with_workload(ns[b], w));
        assert forall|i: int| 0 <= i < ns.len() implies
            after[i].workloads.subrange(0, ns[i].workloads.len() as int) == ns[i].workloads by {
            assert(after[i].workloads.subrange(0, ns[i].workloads.len() as int) =~= ns[i].workloads);
        }
    }
}

/// Packing keeps the nodes, their order, ids and profiles, and the
/// workloads they already held; it only appends workloads to them.
pub proof fn lemma_place_all_extends(nodes: Seq<NodeModel>, ws: Seq<Workload>)
    ensures
        extends(nodes, place_all(nodes, ws).0),
    decreases ws.len(),
{
    if ws.len() == 0 {
        lemma_extends_refl(nodes);
    } else {
        lemma_place_all_extends(nodes, ws.drop_last());
        let ns = place_all(nodes, ws.drop_last()).0;
        lemma_place_one(ns, ws.last());
        if best_fit(ns, ws.last()) is Some {
            lemma_extends_trans(nodes, ns, place_all(nodes, ws).0);
        }
    }
}

/// Packing never puts a node over capacity: a node within capacity before
/// is within capacity after.
pub proof fn lemma_place_all_capacity(nodes: Seq<NodeModel>, ws: Seq<Workload>, i: int)
    requires
        0 <= i < nodes.len(),
        nodes[i].within_capacity(),
    ensures
        place_all(nodes, ws).0[i].within_capacity(),
    decreases ws.len(),
{
    if ws.len() > 0 {
        lemma_place_all_capacity(nodes, ws.drop_last(), i);
        lemma_place_all_extends(nodes, ws.drop_last());
        let ns = place_all(nodes, ws.drop_last()).0;
        let w = ws.last();
        lemma_best_fit_among(ns, w, ns.len() as int);
        if let Some(b) = best_fit(ns, w) {
            if b == i {
                lemma_assign_fitting(ns[b], w);
            }
        }
    }
}

/// Every node that gains a workload in packing ends within capacity, even
/// one that started over it.
pub proof fn lemma_place_all_gaining_within_capacity(nodes: Seq<NodeModel>, ws: Seq<Workload>, i: int)
    requires
        0 <= i < nodes.len(),
        place_all(nodes, ws).0[i].workloads.len() > nodes[i].workloads.len(),
    ensures
        place_all(nodes, ws).0[i].within_capacity(),
    decreases ws.len(),
{
    if ws.len() > 0 {
        lemma_place_all_extends(nodes, ws.drop_last());
        let ns = place_all(nodes, ws.drop_last()).0;
        let w = ws.last();
        lemma_best_fit_among(ns, w, ns.len() as int);
        if best_fit(ns, w) == Some(i) {
            lemma_assign_fitting(ns[i], w);
        } else {
            lemma_place_all_gaining_within_capacity(nodes, ws.drop_last(), i);
        }
    }
}

/// Packing one workload at a time, as separate calls whose leftovers are
/// concatenated in call order: the result is `(nodes, unplaced)`.
pub open spec fn place_singly(nodes: Seq<NodeModel>, ws: Seq<Workload>) -> (Seq<NodeModel>, Seq<Workload>)
    decreases ws.len(),
{
    if ws.len() == 0 {
        (nodes, Seq::empty())
    } else {
        let (ns, un) = place_singly(nodes, ws.drop_last());
        let (ns2, un2) = place_all(ns, sorted_by_memory(seq![ws.last()]));
        (ns2, un + un2)
    }
}

/// Packing a list is the same as packing its items one call at a time, in
/// the list's order; for the stably sorted input this is what packing the
/// whole input does.
pub proof fn lemma_place_all_singly(nodes: Seq<NodeModel>, ws: Seq<Workload>)
    ensures
        place_singly(nodes, ws) == place_all(nodes, ws),
    decreases ws.len(),
{
    if ws.len() > 0 {
        lemma_place_all_singly(nodes, ws.drop_last());
        let w = ws.last();
        let one = seq![w];
        assert(one.drop_last() =~= Seq::<Workload>::empty());
        assert(sorted_by_memory(one.drop_last()) =~= Seq::<Workload>::empty());
        assert(sorted_by_memory(one) =~= one);
        let (ns, un) = place_all(nodes, ws.drop_last());
        assert(place_all(ns, one.drop_last()) == (ns, Seq::<Workload>::empty()));
        if best_fit(ns, w) is Some {
            assert(un + Seq::<Workload>::empty() =~= un);
        } else {
            assert(un + Seq::<Workload>::empty().push(w) =~= un.push(w));
        }
    }
}

/// Packing compute totals stay within `u32` when they start there.
pub proof fn lemma_place_all_compute_fits(nodes: Seq<NodeModel>, ws: Seq<Workload>)
    requires
        compute_totals_fit(nodes),
    ensures
        compute_totals_fit(place_all(nodes, ws).0),
    decreases ws.len(),
{
    if ws.len() > 0 {
        lemma_place_all_compute_fits(nodes, ws.drop_last());
        lemma_place_all_extends(nodes, ws.drop_last());
        let ns = place_all(nodes, ws.drop_last()).0;
        let w = ws.last();
        lemma_best_fit_among(ns, w, ns.len() as int);
        if let Some(b) = best_fit(ns, w) {
            lemma_assign_fitting(ns[b], w);
            let after = place_all(nodes, ws).0;
            assert forall|k: int| 0 <= k < after.len() implies (#[trigger] after[k]).compute_total_fits() by {
                if k != b {
                    assert(after[k] == ns[k]);
                }
            }
        }
    }
}

/// A workload left unplaced fits on none of the nodes as they end up.
pub proof fn lemma_place_all_unplaced_fit_nowhere(nodes: Seq<NodeModel>, ws: Seq<Workload>)
    ensures
        forall|j: int, i: int|
            0 <= j < place_all(nodes, ws).1.len() && 0 <= i < place_all(nodes, ws).0.len()
                ==> !(#[trigger] place_all(nodes, ws).0[i]).fits(#[trigger] place_all(nodes, ws).1[j]),
    decreases ws.len(),
{
    if ws.len() > 0 {
        let prev = place_all(nodes, ws.drop_last());
        let (ns, un) = prev;
        let w = ws.last();
        lemma_place_all_unplaced_fit_nowhere(nodes, ws.drop_last());
        lemma_best_fit_among(ns, w, ns.len() as int);
        lemma_place_one(ns, w);
        let after = place_all(nodes, ws);
        if let Some(b) = best_fit(ns, w) {
            assert forall|j: int, i: int|
                0 <= j < after.1.len() && 0 <= i < after.0.len()
                    implies !(#[trigger] after.0[i]).fits(#[trigger] after.1[j]) by {
                assert(after.1[j] == un[j]);
                assert(!ns[i].fits(un[j]));
                lemma_prefix_allocated(ns[i], after.0[i], Dim::Memory);
                lemma_prefix_allocated(ns[i], after.0[i], Dim::Compute);
                lemma_prefix_allocated(ns[i], after.0[i], Dim::Bandwidth);
            }
        } else {
            assert forall|j: int, i: int|
                0 <= j < after.1.len() && 0 <= i < after.0.len()
                    implies !(#[trigger] after.0[i]).fits(#[trigger] after.1[j]) by {
                if j < un.len() {
                    assert(after.1[j] == un[j]);
                } else {
                    assert(after.1[j] == w);
                }
            }
        }
    }
}

/// Every unplaced workload is one of the input workloads.
proof fn lemma_place_all_unplaced_from_input(nodes: Seq<NodeModel>, ws: Seq<Workload>)
    ensures
        forall|j: int| 0 <= j < place_all(nodes, ws).1.len()
            ==> ws.contains(#[trigger] place_all(nodes, ws).1[j]),
    decreases ws.len(),
{
    if ws.len() > 0 {
        let t = ws.drop_last();
        lemma_place_all_unplaced_from_input(nodes, t);
        let un = place_all(nodes, t).1;
        let after = place_all(nodes, ws);
        assert forall|j: int| 0 <= j < after.1.len() implies ws.contains(#[trigger] after.1[j]) by {
            if j < un.len() {
                assert(after.1[j] == un[j]);
                let k = choose|k: int| 0 <= k < t.len() && t[k] == un[j];
                assert(ws[k] == t[k]);
            } else {
                assert(after.1[j] == ws[ws.len() - 1]);
            }
        }
    }
}

/// Workloads taken in descending order of memory demand are left unplaced
/// in descending order too.
pub proof fn lemma_place_all_unplaced_descending(nodes: Seq<NodeModel>, ws: Seq<Workload>)
    requires
        memory_descending(ws),
    ensures
        memory_descending(place_all(nodes, ws).1),
    decreases ws.len(),
{
    if ws.len() > 0 {
        let t = ws.drop_last();
        let w = ws.last();
        assert(memory_descending(t)) by {
            assert forall|i: int, j: int| 0 <= i < j < t.len() implies
                #[trigger] t[i].gpu_memory_gib >= #[trigger] t[j].gpu_memory_gib by {
                assert(t[i] == ws[i] && t[j] == ws[j]);
            }
        }
        lemma_place_all_unplaced_descending(nodes, t);
        lemma_place_all_unplaced_from_input(nodes, t);
        let un = place_all(nodes, t).1;
        let after = place_all(nodes, ws);
        assert forall|i: int, j: int| 0 <= i < j < after.1.len() implies
            #[trigger] after.1[i].gpu_memory_gib >= #[trigger] after.1[j].gpu_memory_gib by {
            assert(after.1[i] == un[i]);
            if j < un.len() {
                assert(after.1[j] == un[j]);
            } else {
                assert(after.1[j] == w);
                assert(t.contains(un[i]));
                let k = choose|k: int| 0 <= k < t.len() && t[k] == un[i];
                assert(ws[k] == t[k]);
                assert(ws[k].gpu_memory_gib >= ws[ws.len() - 1].gpu_memory_gib);
            }
        }
    }
}

proof fn lemma_added_update(before: Seq<NodeModel>, ns: Seq<NodeModel>, b: int, w: Workload, k: int)
    requires
        extends(before, ns),
        0 <= b < ns.len(),
        0 <= k <= ns.len(),
    ensures
        added_workloads(before, ns.update(b, with_workload(ns[b], w)), k) == if k > b {
            added_workloads(before, ns, k).insert(w)
        } else {
            added_workloads(before, ns, k)
        },
    decreases k,
{
    broadcast use vstd::seq_lib::group_to_multiset_ensures, vstd::multiset::group_multiset_axioms;
    let after = ns.update(b, with_workload(ns[b], w));
    if k > 0 {
        lemma_added_update(before, ns, b, w, k - 1);
        let l = before[k - 1].workloads.len() as int;
        if k - 1 == b {
            assert(after[b].workloads.skip(l) =~= ns[b].workloads.skip(l).push(w));
        } else {
            assert(after[k - 1] == ns[k - 1]);
        }
        let a = added_workloads(before, ns, k - 1);
        let m = ns[k - 1].workloads.skip(l).to_multiset();
        if k - 1 == b {
            assert(a.add(m.insert(w)) =~= a.add(m).insert(w));
        } else if k - 1 > b {
            assert(a.insert(w).add(m) =~= a.add(m).insert(w));
        }
    }
}

/// Packing loses and invents no workload: what the nodes gained, together
/// with what was left unplaced, is exactly the input.
pub proof fn lemma_place_all_conserves(nodes: Seq<NodeModel>, ws: Seq<Workload>)
    ensures
        added_workloads(nodes, place_all(nodes, ws).0, nodes.len() as int).add(
            place_all(nodes, ws).1.to_multiset(),
        ) == ws.to_multiset(),
    decreases ws.len(),
{
    broadcast use vstd::seq_lib::group_to_multiset_ensures, vstd::multiset::group_multiset_axioms;
    if ws.len() == 0 {
        lemma_added_none(nodes, nodes.len() as int);
        assert(ws.to_multiset().len() == 0);
        assert(ws.to_multiset() =~= Multiset::<Workload>::empty());
        let u: Seq<Workload> = Seq::empty();
        assert(u.to_multiset().len() == 0);
        assert(u.to_multiset() =~= Multiset::<Workload>::empty());
        assert(Multiset::<Workload>::empty().add(Multiset::<Workload>::empty())
            =~= Multiset::<Workload>::empty());
    } else {
        let t = ws.drop_last();
        let w = ws.last();
        assert(t.push(w) =~= ws);
        lemma_place_all_conserves(nodes, t);
        lemma_place_all_extends(nodes, t);
        let (ns, un) = place_all(nodes, t);
        let a = added_workloads(nodes, ns, nodes.len() as int);
        lemma_best_fit_among(ns, w, ns.len() as int);
        if let Some(b) = best_fit(ns, w) {
            lemma_added_update(nodes, ns, b, w, nodes.len() as int);
            assert(a.insert(w).add(un.to_multiset()) =~= a.add(un.to_multiset()).insert(w));
        } else {
            assert(a.add(un.to_multiset().insert(w)) =~= a.add(un.to_multiset()).insert(w));
        }
    }
}

proof fn lemma_added_none(nodes: Seq<NodeModel>, k: int)
    requires
        0 <= k <= nodes.len(),
    ensures
        added_workloads(nodes, nodes, k) == Multiset::<Workload>::empty(),
    decreases k,
{
    broadcast use vstd::seq_lib::group_to_multiset_ensures, vstd::multiset::group_multiset_axioms;
    if k > 0 {
        lemma_added_none(nodes, k - 1);
        let s = nodes[k - 1].workloads.skip(nodes[k - 1].workloads.len() as int);
        assert(s.len() == 0);
        assert(s.to_multiset().len() == 0);
        assert(s.to_multiset() =~= Multiset::<Workload>::empty());
        assert(Multiset::<Workload>::empty().add(Multiset::<Workload>::empty())
            =~= Multiset::<Workload>::empty());
    }
}

} // verus!
