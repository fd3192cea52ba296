//! Stable ordering of workloads by descending GPU memory demand.

use vstd::prelude::*;
use vstd::multiset::Multiset;
use crate::workload::Workload;

verus! {

/// No workload demands more memory than one before it.
pub open spec fn memory_descending(s: Seq<Workload>) -> bool {
    forall|i: int, j: int|
        0 <= i < j < s.len() ==> #[trigger] s[i].gpu_memory_gib >= #[trigger] s[j].gpu_memory_gib
}

/// The workloads of `s` whose memory demand is `k`, in their order in `s`.
pub open spec fn with_memory(s: Seq<Workload>, k: u32) -> Seq<Workload>
    decreases s.len(),
{
    if s.len() == 0 {
        Seq::empty()
    } else if s.last().gpu_memory_gib == k {
        with_memory(s.drop_last(), k).push(s.last())
    } else {
        with_memory(s.drop_last(), k)
    }
}

/// The index after the last workload of `s` that demands at least `m`
/// (counted from the back, so on a descending `s` it follows every such one).
pub open spec fn insertion_point(s: Seq<Workload>, m: u32) -> int
    decreases s.len(),
{
    if s.len() == 0 {
        0
    } else if s.last().gpu_memory_gib >= m {
        s.len() as int
    } else {
        insertion_point(s.drop_last(), m)
    }
}

/// `ws` in descending order of memory demand; equal demands keep their order.
pub open spec fn sorted_by_memory(ws: Seq<Workload>) -> Seq<Workload>
    decreases ws.len(),
{
    if ws.len() == 0 {
        Seq::empty()
    } else {
        let s = sorted_by_memory(ws.drop_last());
        s.insert(insertion_point(s, ws.last().gpu_memory_gib), ws.last())
    }
}

proof fn lemma_insertion_point(s: Seq<Workload>, m: u32)
    requires
        memory_descending(s),
    ensures
        0 <= insertion_point(s, m) <= s.len(),
        forall|i: int| 0 <= i < insertion_point(s, m) ==> #[trigger] s[i].gpu_memory_gib >= m,
        forall|i: int| insertion_point(s, m) <= i < s.len() ==> #[trigger] s[i].gpu_memory_gib < m,
    decreases s.len(),
{
    if s.len() > 0 {
        if s.last().gpu_memory_gib >= m {
            assert forall|i: int| 0 <= i < s.len() implies #[trigger] s[i].gpu_memory_gib >= m by {
                if i < s.len() - 1 {
                    assert(s[i].gpu_memory_gib >= s[s.len() - 1].gpu_memory_gib);
                }
            }
        } else {
            let t = s.drop_last();
            assert(memory_descending(t)) by {
                assert forall|i: int, j: int| 0 <= i < j < t.len() implies
                    #[trigger] t[i].gpu_memory_gib >= #[trigger] t[j].gpu_memory_gib by {
                    assert(t[i] == s[i] && t[j] == s[j]);
                }
            }
            lemma_insertion_point(t, m);
            assert forall|i: int| insertion_point(s, m) <= i < s.len() implies
                #[trigger] s[i].gpu_memory_gib < m by {
                if i < s.len() - 1 {
                    assert(s[i] == t[i]);
                }
            }
            assert forall|i: int| 0 <= i < insertion_point(s, m) implies
                #[trigger] s[i].gpu_memory_gib >= m by {
                assert(s[i] == t[i]);
            }
        }
    }
}

proof fn lemma_with_memory_concat(a: Seq<Workload>, b: Seq<Workload>, k: u32)
    ensures
        with_memory(a + b, k) == with_memory(a, k) + with_memory(b, k),
    decreases b.len(),
{
    if b.len() == 0 {
        assert(a + b =~= a);
        assert(with_memory(a, k) + with_memory(b, k) =~= with_memory(a, k));
    } else {
        lemma_with_memory_concat(a, b.drop_last(), k);
        assert((a + b).drop_last() =~= a + b.drop_last());
        assert((a + b).last() == b.last());
        if b.last().gpu_memory_gib == k {
            assert(with_memory(a, k) + with_memory(b.drop_last(), k).push(b.last())
                =~= (with_memory(a, k) + with_memory(b.drop_last(), k)).push(b.last()));
        }
    }
}

proof fn lemma_with_memory_none(s: Seq<Workload>, k: u32)
    requires
        forall|i: int| 0 <= i < s.len() ==> #[trigger] s[i].gpu_memory_gib < k,
    ensures
        with_memory(s, k) == Seq::<Workload>::empty(),
    decreases s.len(),
{
    if s.len() > 0 {
        let t = s.drop_last();
        assert forall|i: int| 0 <= i < t.len() implies #[trigger] t[i].gpu_memory_gib < k by {
            assert(t[i] == s[i]);
        }
        lemma_with_memory_none(t, k);
    }
}

proof fn lemma_insert_sorted(s: Seq<Workload>, w: Workload)
    requires
        memory_descending(s),
    ensures
        memory_descending(s.insert(insertion_point(s, w.gpu_memory_gib), w)),
        s.insert(insertion_point(s, w.gpu_memory_gib), w).to_multiset() == s.to_multiset().insert(w),
        forall|k: u32|
            #[trigger] with_memory(s.insert(insertion_point(s, w.gpu_memory_gib), w), k) == if w.gpu_memory_gib == k {
                with_memory(s, k).push(w)
            } else {
                with_memory(s, k)
            },
{
    let m = w.gpu_memory_gib;
    let p = insertion_point(s, m);
    lemma_insertion_point(s, m);
    let r = s.insert(p, w);
    s.insert_ensures(p, w);
    assert forall|i: int, j: int| 0 <= i < j < r.len() implies
        #[trigger] r[i].gpu_memory_gib >= #[trigger] r[j].gpu_memory_gib by {
        if j < p {
        } else if j == p {
        } else if i < p {
            assert(r[j] == s[j - 1]);
        } else if i == p {
            assert(r[j] == s[j - 1]);
        } else {
            assert(r[i] == s[i - 1] && r[j] == s[j - 1]);
        }
    }
    broadcast use vstd::seq_lib::group_to_multiset_ensures;
    // same-demand subsequences
    let pre = s.subrange(0, p);
    let post = s.subrange(p, s.len() as int);
    assert(s =~= pre + post);
    assert(r =~= pre.push(w) + post);
    assert forall|k: u32|
        #[trigger] with_memory(r, k) == if m == k {
            with_memory(s, k).push(w)
        } else {
            with_memory(s, k)
        } by {
        lemma_with_memory_concat(pre, post, k);
        lemma_with_memory_concat(pre.push(w), post, k);
        assert(pre.push(w).drop_last() =~= pre);
        if m == k {
            assert forall|i: int| 0 <= i < post.len() implies #[trigger] post[i].gpu_memory_gib < k by {
                assert(post[i] == s[p + i]);
            }
            lemma_with_memory_none(post, k);
            assert(with_memory(pre, k).push(w) + Seq::<Workload>::empty() =~= with_memory(pre, k).push(w));
            assert(with_memory(pre, k) + Seq::<Workload>::empty() =~= with_memory(pre, k));
        }
    }
}

/// What the ordering is: a rearrangement of the same workloads, descending
/// in memory demand, in which the workloads of each equal demand keep the
/// order they had.
pub proof fn lemma_sorted_by_memory(ws: Seq<Workload>)
    ensures
        memory_descending(sorted_by_memory(ws)),
        sorted_by_memory(ws).len() == ws.len(),
        sorted_by_memory(ws).to_multiset() == ws.to_multiset(),
        forall|k: u32| #[trigger] with_memory(sorted_by_memory(ws), k) == with_memory(ws, k),
    decreases ws.len(),
{
    broadcast use vstd::seq_lib::group_to_multiset_ensures, vstd::multiset::group_multiset_axioms;
    if ws.len() == 0 {
        assert(ws.to_multiset().len() == 0);
        assert(sorted_by_memory(ws).to_multiset().len() == 0);
        assert(ws.to_multiset() =~= Multiset::<Workload>::empty());
        assert(sorted_by_memory(ws).to_multiset() =~= Multiset::<Workload>::empty());
    } else {
        let t = ws.drop_last();
        let w = ws.last();
        lemma_sorted_by_memory(t);
        let s = sorted_by_memory(t);
        lemma_insert_sorted(s, w);
        assert(t.push(w) =~= ws);
        lemma_insertion_point(s, w.gpu_memory_gib);
        s.insert_ensures(insertion_point(s, w.gpu_memory_gib), w);
        assert forall|k: u32| #[trigger] with_memory(sorted_by_memory(ws), k) == with_memory(ws, k) by {
            assert(with_memory(s.insert(insertion_point(s, w.gpu_memory_gib), w), k) == if w.gpu_memory_gib == k {
                with_memory(s, k).push(w)
            } else {
                with_memory(s, k)
            });
        }
    }
}

/// Stable ordering of `workloads` by descending memory demand.
pub fn sort_by_memory_desc(workloads: Vec<Workload>) -> (sorted: Vec<Workload>)
    ensures
        sorted@ == sorted_by_memory(workloads@),
{
    let ghost input = workloads@;
    let mut rest = workloads;
    let mut sorted: Vec<Workload> = Vec::new();
    let mut done: usize = 0;
    let n = rest.len();
    while rest.len() > 0
        invariant
            done + rest@.len() == n,
            n == input.len(),
            rest@ == input.subrange(done as int, n as int),
            sorted@ == sorted_by_memory(input.take(done as int)),
            sorted@.len() == done,
        decreases rest@.len(),
    {
        let w = rest.remove(0);
        proof {
            assert(input.take(done as int + 1).drop_last() =~= input.take(done as int));
            assert(input.take(done as int + 1).last() == w);
            lemma_sorted_by_memory(input.take(done as int));
        }
        let m = w.gpu_memory_gib;
        let mut j = sorted.len();
        assert(sorted@.take(j as int) =~= sorted@);
        while j > 0 && sorted[j - 1].gpu_memory_gib < m
            invariant
                j <= sorted@.len(),
                insertion_point(sorted@, m) == insertion_point(sorted@.take(j as int), m),
            decreases j,
        {
            proof {
                let t = sorted@.take(j as int);
                assert(t.drop_last() =~= sorted@.take(j - 1));
            }
            j = j - 1;
        }
        proof {
            let t = sorted@.take(j as int);
            if j > 0 {
                assert(t.last() == sorted@[j - 1]);
            }
        }
        sorted.insert(j, w);
        done = done + 1;
        proof {
            assert(rest@ =~= input.subrange(done as int, n as int));
        }
    }
    assert(input.take(n as int) =~= input);
    sorted
}

} // verus!
