use oxide_capacity::node::Node;
use oxide_capacity::ordering::sort_by_memory_desc;
use oxide_capacity::planner::CapacityPlanner;
use oxide_capacity::ratio::{relation_to_fraction, Ratio};
use oxide_capacity::signal::TernarySignal;
use oxide_capacity::workload::{ResourceProfile, Workload};

fn ratio(num: u128, den: u128) -> Ratio {
    Ratio::new(num, den).unwrap()
}

fn rank(s: TernarySignal) -> i32 {
    match s {
        TernarySignal::Underutilized => 0,
        TernarySignal::Balanced => 1,
        TernarySignal::Overloaded => 2,
    }
}

fn ids(ws: &[Workload]) -> Vec<String> {
    ws.iter().map(|w| w.id.clone()).collect()
}

#[test]
fn thresholds_are_inclusive_for_balanced() {
    assert_eq!(TernarySignal::from_utilization(ratio(2, 5)), TernarySignal::Balanced);
    assert_eq!(TernarySignal::from_utilization(ratio(4, 5)), TernarySignal::Balanced);
    assert_eq!(TernarySignal::from_utilization(ratio(39_999, 100_000)), TernarySignal::Underutilized);
    assert_eq!(TernarySignal::from_utilization(ratio(80_001, 100_000)), TernarySignal::Overloaded);
    assert_eq!(TernarySignal::from_utilization(ratio(0, 1)), TernarySignal::Underutilized);
    assert_eq!(TernarySignal::from_utilization(ratio(3, 1)), TernarySignal::Overloaded);
}

#[test]
fn classification_is_exact_for_huge_values() {
    let max = u128::MAX;
    assert_eq!(TernarySignal::from_utilization(ratio(max, max)), TernarySignal::Overloaded);
    assert_eq!(TernarySignal::from_utilization(ratio(max / 5 * 2, max / 5 * 5)), TernarySignal::Balanced);
    assert_eq!(TernarySignal::from_utilization(ratio(max / 5 * 2 - 1, max / 5 * 5)), TernarySignal::Underutilized);
    assert_eq!(relation_to_fraction(max, max, 4, 5), 1);
    assert_eq!(relation_to_fraction(4, 5, 4, 5), 0);
    assert_eq!(relation_to_fraction(max / 5 * 4, max / 5 * 5, 4, 5), 0);
    assert_eq!(relation_to_fraction(1, max, 2, 5), -1);
}

#[test]
fn classification_is_monotone() {
    let samples = [(0u128, 10u128), (1, 10), (39, 100), (2, 5), (1, 2), (4, 5), (81, 100), (2, 1)];
    for pair in samples.windows(2) {
        let a = TernarySignal::from_utilization(ratio(pair[0].0, pair[0].1));
        let b = TernarySignal::from_utilization(ratio(pair[1].0, pair[1].1));
        assert!(rank(a) <= rank(b));
    }
}

#[test]
fn signal_values_and_text() {
    assert_eq!(TernarySignal::Underutilized.value(), 1);
    assert_eq!(TernarySignal::Balanced.value(), 0);
    assert_eq!(TernarySignal::Overloaded.value(), -1);
    assert_eq!(TernarySignal::Underutilized.to_string(), "+1 (underutilized)");
    assert_eq!(TernarySignal::Balanced.to_string(), " 0 (balanced)");
    assert_eq!(TernarySignal::Overloaded.to_string(), "-1 (overloaded)");
}

#[test]
fn ratio_needs_a_denominator() {
    assert!(Ratio::new(1, 0).is_none());
    let r = Ratio::new(3, 4).unwrap();
    assert_eq!((r.num, r.den), (3, 4));
    let z = Ratio::zero();
    assert_eq!((z.num, z.den), (0, 1));
}

#[test]
fn assign_adds_demand_in_every_dimension() {
    let mut node = Node::new("n", ResourceProfile::new(100, 100, 1000));
    node.assign(Workload::new("a", 30, 20, 100));
    node.assign(Workload::new("b", 15, 5, 250));
    assert_eq!(node.allocated_gpu_memory(), 45);
    assert_eq!(node.allocated_compute(), 25);
    assert_eq!(node.allocated_bandwidth(), 350);
    assert_eq!(node.id, "n");
    assert_eq!(ids(&node.workloads), vec!["a", "b"]);
}

#[test]
fn assigning_a_fitting_workload_lowers_remaining_memory_by_its_demand() {
    let mut node = Node::new("n", ResourceProfile::new(40, 10, 100));
    let w = Workload::new("w", 15, 5, 50);
    assert!(node.can_fit(&w));
    let before = node.remaining_gpu_memory();
    node.assign(w);
    assert_eq!(node.remaining_gpu_memory(), before - 15);
    assert_eq!(node.remaining_gpu_memory(), 25);
}

#[test]
fn remaining_memory_never_goes_below_zero() {
    let mut node = Node::new("n", ResourceProfile::new(10, 10, 10));
    node.assign(Workload::new("w", 25, 1, 1));
    assert_eq!(node.remaining_gpu_memory(), 0);
    assert!(!node.can_fit(&Workload::new("z", 0, 0, 0)));
}

#[test]
fn can_fit_checks_each_dimension() {
    let node = Node::new("n", ResourceProfile::new(10, 10, 10));
    assert!(node.can_fit(&Workload::new("exact", 10, 10, 10)));
    assert!(!node.can_fit(&Workload::new("mem", 11, 1, 1)));
    assert!(!node.can_fit(&Workload::new("cmp", 1, 11, 1)));
    assert!(!node.can_fit(&Workload::new("bw", 1, 1, 11)));
}

#[test]
fn zero_capacity_gives_zero_utilization() {
    let mut node = Node::new("n", ResourceProfile::new(0, 0, 0));
    node.assign(Workload::new("w", 5, 5, 5));
    let m = node.memory_utilization();
    let c = node.compute_utilization();
    assert_eq!(m.num, 0);
    assert_eq!(c.num, 0);
    assert_eq!(node.ternary_signal(), TernarySignal::Underutilized);
}

#[test]
fn composite_is_the_exact_mean() {
    let mut node = Node::new("n", ResourceProfile::new(80, 108, 1000));
    node.assign(Workload::new("w", 40, 27, 10));
    // (40/80 + 27/108) / 2 = (1/2 + 1/4) / 2 = 3/8
    let r = node.composite_utilization();
    assert_eq!(r.num * 8, r.den * 3);
    assert_eq!(node.ternary_signal(), TernarySignal::Underutilized);
}

#[test]
fn best_fit_prefers_the_tightest_node() {
    let mut planner = CapacityPlanner::new();
    let mut roomy = Node::new("roomy", ResourceProfile::new(100, 100, 1000));
    roomy.assign(Workload::new("r0", 10, 1, 1));
    let mut tight = Node::new("tight", ResourceProfile::new(100, 100, 1000));
    tight.assign(Workload::new("t0", 70, 1, 1));
    planner.add_node(roomy);
    planner.add_node(tight);
    let unplaced = planner.bin_pack_best_fit_decreasing(vec![Workload::new("w", 20, 1, 1)]);
    assert!(unplaced.is_empty());
    assert_eq!(ids(&planner.nodes[0].workloads), vec!["r0"]);
    assert_eq!(ids(&planner.nodes[1].workloads), vec!["t0", "w"]);
}

#[test]
fn best_fit_takes_the_first_node_on_ties() {
    let mut planner = CapacityPlanner::new();
    planner.add_node(Node::new("a", ResourceProfile::new(50, 100, 1000)));
    planner.add_node(Node::new("b", ResourceProfile::new(50, 100, 1000)));
    let unplaced = planner.bin_pack_best_fit_decreasing(vec![Workload::new("w", 20, 1, 1)]);
    assert!(unplaced.is_empty());
    assert_eq!(planner.nodes[0].workloads.len(), 1);
    assert_eq!(planner.nodes[1].workloads.len(), 0);
}

#[test]
fn sort_is_descending_and_stable() {
    let ws = vec![
        Workload::new("a", 5, 0, 0),
        Workload::new("b", 9, 0, 0),
        Workload::new("c", 5, 0, 0),
        Workload::new("d", 7, 0, 0),
        Workload::new("e", 9, 0, 0),
    ];
    let sorted = sort_by_memory_desc(ws);
    assert_eq!(ids(&sorted), vec!["b", "e", "d", "a", "c"]);
}

#[test]
fn unplaced_come_back_descending_and_fit_nowhere() {
    let mut planner = CapacityPlanner::new();
    planner.add_node(Node::new("n0", ResourceProfile::new(10, 100, 100)));
    planner.add_node(Node::new("n1", ResourceProfile::new(6, 100, 100)));
    let workloads = vec![
        Workload::new("small", 3, 1, 1),
        Workload::new("big", 12, 1, 1),
        Workload::new("mid", 8, 1, 1),
        Workload::new("mid2", 8, 1, 1),
        Workload::new("five", 5, 1, 1),
    ];
    let unplaced = planner.bin_pack_best_fit_decreasing(workloads);
    // Sorted: big(12), mid(8), mid2(8), five(5), small(3).
    // big fits nowhere; mid → n0 (2 left); mid2 fits nowhere; five → n1 (1 left);
    // small fits nowhere.
    assert_eq!(ids(&unplaced), vec!["big", "mid2", "small"]);
    assert_eq!(ids(&planner.nodes[0].workloads), vec!["mid"]);
    assert_eq!(ids(&planner.nodes[1].workloads), vec!["five"]);
    for u in &unplaced {
        for n in &planner.nodes {
            assert!(!n.can_fit(u));
        }
    }
    // Nothing lost, nothing invented.
    let placed: usize = planner.nodes.iter().map(|n| n.workloads.len()).sum();
    assert_eq!(placed + unplaced.len(), 5);
}

#[test]
fn packing_keeps_existing_workloads_and_capacity() {
    let mut planner = CapacityPlanner::new();
    let mut n0 = Node::new("n0", ResourceProfile::new(20, 20, 20));
    n0.assign(Workload::new("old", 5, 5, 5));
    planner.add_node(n0);
    let unplaced = planner.bin_pack_best_fit_decreasing(vec![
        Workload::new("x", 10, 10, 10),
        Workload::new("y", 6, 6, 6),
    ]);
    assert_eq!(ids(&unplaced), vec!["y"]);
    assert_eq!(ids(&planner.nodes[0].workloads), vec!["old", "x"]);
    assert_eq!(planner.nodes[0].id, "n0");
    assert!(planner.nodes[0].allocated_gpu_memory() <= 20);
    assert!(planner.nodes[0].allocated_compute() <= 20);
    assert!(planner.nodes[0].allocated_bandwidth() <= 20);
}

#[test]
fn packing_onto_no_nodes_returns_everything_sorted() {
    let mut planner = CapacityPlanner::default();
    let unplaced = planner.bin_pack_best_fit_decreasing(vec![
        Workload::new("a", 1, 0, 0),
        Workload::new("b", 3, 0, 0),
        Workload::new("c", 2, 0, 0),
    ]);
    assert_eq!(ids(&unplaced), vec!["b", "c", "a"]);
    assert!(planner.nodes.is_empty());
}

#[test]
fn cluster_utilization_edges() {
    let planner = CapacityPlanner::new();
    let u = planner.cluster_utilization();
    assert_eq!((u.num, u.den), (0, 1));

    let mut zero = CapacityPlanner::new();
    zero.add_node(Node::new("z", ResourceProfile::new(0, 1, 1)));
    let u = zero.cluster_utilization();
    assert_eq!((u.num, u.den), (0, 1));

    let mut two = CapacityPlanner::new();
    let mut a = Node::new("a", ResourceProfile::new(100, 1, 1));
    a.assign(Workload::new("w", 30, 0, 0));
    let mut b = Node::new("b", ResourceProfile::new(60, 1, 1));
    b.assign(Workload::new("v", 50, 0, 0));
    two.add_node(a);
    two.add_node(b);
    let u = two.cluster_utilization();
    assert_eq!((u.num, u.den), (80, 160));
    assert_eq!(two.aggregate_signal(), TernarySignal::Balanced);
}

#[test]
fn cost_efficiency_penalizes_overcommit_and_idleness() {
    let mut over = CapacityPlanner::new();
    let mut n = Node::new("n", ResourceProfile::new(100, 100, 100));
    n.assign(Workload::new("w", 150, 1, 1));
    over.add_node(n);
    let (util, score) = over.cost_efficiency();
    assert_eq!((util.num, util.den), (150, 100));
    assert_eq!((score.num, score.den), (100, 150));

    let mut idle = CapacityPlanner::new();
    idle.add_node(Node::new("n", ResourceProfile::new(100, 100, 100)));
    let (util, score) = idle.cost_efficiency();
    assert_eq!(util.num, 0);
    assert_eq!((score.num, score.den), (0, 1));

    let mut full = CapacityPlanner::new();
    let mut f = Node::new("f", ResourceProfile::new(100, 100, 100));
    f.assign(Workload::new("w", 100, 1, 1));
    full.add_node(f);
    let (_, score) = full.cost_efficiency();
    assert_eq!(score.num, score.den);
}

#[test]
fn scale_recommendation_follows_the_signal() {
    let mut busy = CapacityPlanner::new();
    let mut n = Node::new("n", ResourceProfile::new(10, 10, 10));
    n.assign(Workload::new("w", 9, 1, 1));
    busy.add_node(n);
    let rec = busy.scale_recommendation();
    assert_eq!(rec.signal, TernarySignal::Overloaded);
    assert_eq!(rec.recommendation, "scale-up: cluster is overloaded, consider adding nodes");
    assert_eq!((rec.utilization.num, rec.utilization.den), (9, 10));

    let mut held = CapacityPlanner::new();
    let mut m = Node::new("m", ResourceProfile::new(10, 10, 10));
    m.assign(Workload::new("w", 5, 1, 1));
    held.add_node(m);
    let rec = held.scale_recommendation();
    assert_eq!(rec.signal, TernarySignal::Balanced);
    assert_eq!(rec.recommendation, "hold: cluster utilization is balanced");

    let empty = CapacityPlanner::new();
    let rec = empty.scale_recommendation();
    assert_eq!(rec.recommendation, "scale-down: cluster is underutilized, consider removing nodes");
}

#[test]
fn prediction_is_linear_and_clamped() {
    let rising = [1000u64, 1500];
    assert_eq!(CapacityPlanner::predict_utilization(&rising, 0), 1500);
    for h in 0..10usize {
        let a = CapacityPlanner::predict_utilization(&rising, h);
        let b = CapacityPlanner::predict_utilization(&rising, h + 1);
        assert_eq!(b, a + 500);
    }
    let falling = [5000u64, 4000];
    assert_eq!(CapacityPlanner::predict_utilization(&falling, 2), 2000);
    assert_eq!(CapacityPlanner::predict_utilization(&falling, 5), 0);
    assert_eq!(CapacityPlanner::predict_utilization(&falling, 50), 0);
    let flat = [7u64, 7, 7];
    assert_eq!(CapacityPlanner::predict_utilization(&flat, 1_000_000), 7);
    let huge = [0u64, u64::MAX];
    assert_eq!(
        CapacityPlanner::predict_utilization(&huge, usize::MAX),
        u64::MAX as u128 + (u64::MAX as u128) * (usize::MAX as u128)
    );
}

#[test]
fn node_signals_cover_every_node() {
    let mut planner = CapacityPlanner::new();
    let mut a = Node::new("a", ResourceProfile::new(10, 10, 10));
    a.assign(Workload::new("w", 5, 5, 5));
    planner.add_node(a);
    planner.add_node(Node::new("b", ResourceProfile::new(10, 10, 10)));
    let signals = planner.node_signals();
    assert_eq!(signals.len(), 2);
    assert_eq!(signals[0].0, "a");
    assert_eq!(signals[0].1, TernarySignal::Balanced);
    assert_eq!(signals[0].2.num * 2, signals[0].2.den);
    assert_eq!(signals[1].0, "b");
    assert_eq!(signals[1].1, TernarySignal::Underutilized);
    assert_eq!(signals[1].2.num, 0);
}

#[test]
fn readme_packing_example_places_everything() {
    let a100 = ResourceProfile::new(80, 108, 2039);
    let mut planner = CapacityPlanner::new();
    planner.add_node(Node::new("gpu-0", a100));
    planner.add_node(Node::new("gpu-1", a100));
    let workloads = vec![
        Workload::new("training-run-42", 40, 54, 1000),
        Workload::new("inference-api", 20, 30, 500),
        Workload::new("data-pipeline", 30, 40, 800),
        Workload::new("analytics", 15, 20, 300),
    ];
    let unplaced = planner.bin_pack_best_fit_decreasing(workloads);
    assert!(unplaced.is_empty());
    let (util, score) = planner.cost_efficiency();
    assert_eq!((util.num, util.den), (105, 160));
    assert_eq!((score.num, score.den), (105, 160));
}

#[test]
fn readme_prediction_example() {
    // 0.2, 0.3, 0.4, 0.5, 0.6 in basis points; three steps ahead ≈ 0.9.
    let history = vec![2000u64, 3000, 4000, 5000, 6000];
    assert_eq!(CapacityPlanner::predict_utilization(&history, 3), 9000);
}

#[test]
fn cluster_utilization_lies_between_node_utilizations() {
    let mut planner = CapacityPlanner::new();
    let mut a = Node::new("a", ResourceProfile::new(100, 1, 1));
    a.assign(Workload::new("w", 20, 0, 0));
    let mut b = Node::new("b", ResourceProfile::new(50, 1, 1));
    b.assign(Workload::new("v", 40, 0, 0));
    let mut c = Node::new("c", ResourceProfile::new(10, 1, 1));
    c.assign(Workload::new("u", 5, 0, 0));
    planner.add_node(a);
    planner.add_node(b);
    planner.add_node(c);
    let u = planner.cluster_utilization();
    // Nodes: 1/5, 4/5, 1/2; cluster 65/160.
    assert_eq!((u.num, u.den), (65, 160));
    let mut lo = false;
    let mut hi = false;
    for n in &planner.nodes {
        let r = n.memory_utilization();
        lo |= r.num * u.den <= u.num * r.den;
        hi |= u.num * r.den <= r.num * u.den;
    }
    assert!(lo && hi);
}

#[test]
fn adding_an_idle_node_never_raises_utilization() {
    let mut planner = CapacityPlanner::new();
    let mut a = Node::new("a", ResourceProfile::new(40, 1, 1));
    a.assign(Workload::new("w", 30, 0, 0));
    planner.add_node(a);
    let before = planner.cluster_utilization();
    planner.add_node(Node::new("idle", ResourceProfile::new(60, 1, 1)));
    let after = planner.cluster_utilization();
    assert!(after.num * before.den <= before.num * after.den);
    assert_eq!((after.num, after.den), (30, 100));
}

#[test]
fn a_node_that_gains_ends_within_capacity() {
    let mut planner = CapacityPlanner::new();
    // Over capacity in compute, with memory to spare: it can take nothing.
    let mut over = Node::new("over", ResourceProfile::new(100, 10, 100));
    over.assign(Workload::new("hog", 10, 20, 10));
    planner.add_node(over);
    planner.add_node(Node::new("fresh", ResourceProfile::new(30, 30, 30)));
    let unplaced = planner.bin_pack_best_fit_decreasing(vec![Workload::new("w", 20, 5, 5)]);
    assert!(unplaced.is_empty());
    assert_eq!(planner.nodes[0].workloads.len(), 1);
    assert_eq!(planner.nodes[1].workloads.len(), 1);
    let n = &planner.nodes[1];
    assert!(n.allocated_gpu_memory() <= 30 && n.allocated_compute() <= 30 && n.allocated_bandwidth() <= 30);
}

#[test]
fn packing_one_call_at_a_time_matches_packing_at_once() {
    let make = || {
        let mut p = CapacityPlanner::new();
        p.add_node(Node::new("n0", ResourceProfile::new(12, 100, 100)));
        p.add_node(Node::new("n1", ResourceProfile::new(9, 100, 100)));
        p
    };
    let input = || {
        vec![
            Workload::new("a", 4, 1, 1),
            Workload::new("b", 8, 1, 1),
            Workload::new("c", 4, 1, 1),
            Workload::new("d", 7, 1, 1),
            Workload::new("e", 2, 1, 1),
        ]
    };
    let mut at_once = make();
    let unplaced_once = at_once.bin_pack_best_fit_decreasing(input());
    let mut singly = make();
    let mut unplaced_singly = Vec::new();
    for w in sort_by_memory_desc(input()) {
        unplaced_singly.extend(singly.bin_pack_best_fit_decreasing(vec![w]));
    }
    assert_eq!(ids(&unplaced_once), ids(&unplaced_singly));
    for (x, y) in at_once.nodes.iter().zip(singly.nodes.iter()) {
        assert_eq!(ids(&x.workloads), ids(&y.workloads));
    }
}

#[test]
fn packing_nothing_leaves_the_planner_unchanged() {
    let mut planner = CapacityPlanner::new();
    let mut n = Node::new("n", ResourceProfile::new(1, 1, 1));
    n.assign(Workload::new("w", 2, 2, 2));
    planner.add_node(n);
    let unplaced = planner.bin_pack_best_fit_decreasing(Vec::new());
    assert!(unplaced.is_empty());
    assert_eq!(ids(&planner.nodes[0].workloads), vec!["w"]);
}

#[test]
fn relation_to_fraction_takes_wide_denominators() {
    let q: u128 = u64::MAX as u128;
    assert_eq!(relation_to_fraction(1, 2, q - 1, q), -1);
    assert_eq!(relation_to_fraction(q - 1, q, q - 1, q), 0);
    assert_eq!(relation_to_fraction(u128::MAX, u128::MAX, q - 1, q), 1);
    assert_eq!(relation_to_fraction(3, 7, 3, 7), 0);
}
