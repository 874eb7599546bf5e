use rawgrep::topology::{hybrid_topology, uniform_topology, CoreTopology};

#[test]
fn claim_takes_a_prefix_and_leaves_one_core() {
    let t = CoreTopology { ordered_lps: vec![0, 2, 4, 8, 9], p_core_count: 3 };
    assert_eq!(t.claim(3), (vec![0, 2, 4], Some(8)));
    assert_eq!(t.claim(5), (vec![0, 2, 4, 8, 9], None));
    assert_eq!(t.claim(0), (vec![], Some(0)));
}

#[test]
fn claim_wraps_when_oversubscribed() {
    let t = CoreTopology { ordered_lps: vec![0, 2, 4, 8, 9], p_core_count: 3 };
    assert_eq!(t.claim(8), (vec![0, 2, 4, 8, 9, 0, 2, 4], None));
}

#[test]
fn hybrid_orders_performance_cores_first() {
    let all = [0, 1, 2, 3, 4, 5, 6, 7];
    let primary = [0, 2, 4, 5, 6, 7];
    let perf = [0, 1, 2, 3];
    let eff = [4, 5, 6, 7];
    let t = hybrid_topology(&all, &primary, &perf, &eff).unwrap();
    assert_eq!(t.ordered_lps, vec![0, 2, 4, 5, 6, 7]);
    assert_eq!(t.p_core_count, 2);
    assert!(hybrid_topology(&all, &primary, &[], &eff).is_none());
}

#[test]
fn uniform_counts_every_core() {
    let t = uniform_topology(4);
    assert_eq!(t.ordered_lps, vec![0, 1, 2, 3]);
    assert_eq!(t.p_core_count, 4);
}
