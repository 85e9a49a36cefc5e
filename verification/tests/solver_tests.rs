use nemesis::graph::{ClusterGraph, LinkKind};
use nemesis::parser::parse;
use nemesis::solver::{solve_on, PlacementResult};

fn nvlink_cluster(n: usize, bandwidth: u32) -> ClusterGraph {
    let mut g = ClusterGraph::new();
    for i in 0..n {
        g.add_gpu(&format!("gpu-{i}"), "node-0", 0);
    }
    for i in 0..n {
        for j in (i + 1)..n {
            g.add_link(&format!("gpu-{i}"), &format!("gpu-{j}"), LinkKind::NvLink, bandwidth, 0);
        }
    }
    g
}

/// Eight GPUs on a single node fully meshed with NVLink at 600 GB/s each.
fn eight_gpu_nvlink_cluster() -> ClusterGraph {
    nvlink_cluster(8, 600)
}

/// Four GPUs on four nodes chained by InfiniBand at 200 GB/s, one hop each.
fn four_gpu_ib_chain() -> ClusterGraph {
    let mut g = ClusterGraph::new();
    for i in 0..4usize {
        g.add_gpu(&format!("gpu-{i}"), &format!("node-{i}"), 0);
    }
    for i in 0..3usize {
        g.add_link(&format!("gpu-{i}"), &format!("gpu-{}", i + 1), LinkKind::InfiniBand, 200, 1);
    }
    g
}

fn solve(g: &ClusterGraph, dsl: &str) -> PlacementResult {
    solve_on(g, &parse(dsl).unwrap())
}

#[test]
fn solve_tp8_nvl_succeeds() {
    let r = solve(&eight_gpu_nvlink_cluster(), "TP8_NVL12");
    assert!(r.placed, "rejection: {}", r.rejection_reason);
    assert_eq!(r.gpu_ids.len(), 8);
}

#[test]
fn solve_tp8_nvl_fails_on_small_graph() {
    // Only 2 GPUs: no 8-GPU clique.
    let mut g = ClusterGraph::new();
    g.add_gpu("gpu-0", "node-0", 0);
    g.add_gpu("gpu-1", "node-0", 0);
    g.add_link("gpu-0", "gpu-1", LinkKind::NvLink, 600, 0);
    let r = solve(&g, "TP8_NVL12");
    assert!(!r.placed);
    assert!(!r.rejection_reason.is_empty());
}

#[test]
fn solve_pp4_ib_succeeds() {
    let r = solve(&four_gpu_ib_chain(), "PP4_IB2");
    assert!(r.placed, "rejection: {}", r.rejection_reason);
    assert_eq!(r.gpu_ids.len(), 4);
}

#[test]
fn solve_conjunction_tp4_pp2() {
    // A 4-GPU NVLink clique plus a 2-GPU IB path on the same graph.
    let mut g = ClusterGraph::new();
    for i in 0..4usize {
        g.add_gpu(&format!("gpu-{i}"), "node-0", 0);
    }
    for i in 0..4usize {
        for j in (i + 1)..4 {
            g.add_link(&format!("gpu-{i}"), &format!("gpu-{j}"), LinkKind::NvLink, 600, 0);
        }
    }
    g.add_gpu("gpu-4", "node-1", 0);
    g.add_gpu("gpu-5", "node-2", 0);
    g.add_link("gpu-4", "gpu-5", LinkKind::InfiniBand, 200, 1);
    let r = solve(&g, "TP4+PP2");
    assert!(r.placed, "rejection: {}", r.rejection_reason);
    assert_eq!(r.gpu_ids.len(), 6);
}

#[test]
fn solve_disjunction_takes_first() {
    // Both alternatives can be placed; the first wins.
    let r = solve(&eight_gpu_nvlink_cluster(), "TP8_NVL12|TP8_NVL50");
    assert!(r.placed, "rejection: {}", r.rejection_reason);
    assert_eq!(r.gpu_ids.len(), 8);
}

#[test]
fn solve_dp_any() {
    let r = solve(&eight_gpu_nvlink_cluster(), "DP4");
    assert!(r.placed, "rejection: {}", r.rejection_reason);
    assert_eq!(r.gpu_ids.len(), 4);
}

#[test]
fn tp8_nvl12_placed_on_nvlink_cluster() {
    let result = solve(&eight_gpu_nvlink_cluster(), "TP8_NVL12");
    assert!(result.placed, "expected placement; rejection: {}", result.rejection_reason);
    assert_eq!(result.gpu_ids.len(), 8);
}

#[test]
fn tp8_high_bandwidth_rejected_on_low_bandwidth_cluster() {
    // All links are 100 GB/s; TP8_NVL600 requires 600 GB/s.
    let result = solve(&nvlink_cluster(8, 100), "TP8_NVL600");
    assert!(!result.placed, "expected rejection");
    assert!(!result.rejection_reason.is_empty(), "rejection_reason must not be empty");
}

#[test]
fn pp4_ib2_placed_on_ib_chain() {
    let result = solve(&four_gpu_ib_chain(), "PP4_IB2");
    assert!(result.placed, "expected placement; rejection: {}", result.rejection_reason);
    assert_eq!(result.gpu_ids.len(), 4);
}

#[test]
fn pp4_ib0_rejected_on_multi_hop_chain() {
    // Each link has one IB hop; IB0 allows none.
    let result = solve(&four_gpu_ib_chain(), "PP4_IB0");
    assert!(!result.placed, "expected rejection for IB0 on a 1-hop chain");
    assert!(!result.rejection_reason.is_empty());
}

#[test]
fn disjunction_falls_back_to_second_alternative() {
    // NVLink at 100 GB/s: NVL600 fails, NVL50 succeeds.
    let result = solve(&nvlink_cluster(8, 100), "TP8_NVL600|TP8_NVL50");
    assert!(result.placed, "second alternative should have been placed");
    assert_eq!(result.gpu_ids.len(), 8);
}

#[test]
fn disjunction_all_fail_returns_rejection() {
    // All links at 10 GB/s: both NVL600 and NVL50 fail.
    let result = solve(&nvlink_cluster(8, 10), "TP8_NVL600|TP8_NVL50");
    assert!(!result.placed, "no alternative should succeed with 10 GB/s links");
    assert!(!result.rejection_reason.is_empty());
}

#[test]
fn rejection_messages_are_exact() {
    let g = nvlink_cluster(2, 100);
    assert_eq!(
        solve(&g, "TP4_NVL600").rejection_reason,
        "no NVLink clique of size 4 with bandwidth >= 600 GB/s"
    );
    assert_eq!(solve(&g, "TP4").rejection_reason, "no NVLink clique of size 4 with bandwidth >= 0 GB/s");
    assert_eq!(
        solve(&g, "PP2").rejection_reason,
        "no IB path of length 2 with hop count <= 4294967295"
    );
    assert_eq!(
        solve(&g, "DP3").rejection_reason,
        "insufficient healthy GPUs for DP3: need 3, have 2"
    );
    assert_eq!(
        solve(&g, "TP4|DP3").rejection_reason,
        "no alternative could be placed on the current cluster"
    );
    let r = solve(&g, "TP4_NVL600");
    assert!(r.gpu_ids.is_empty());
}

#[test]
fn conjunction_stops_at_the_first_failing_arm() {
    let g = nvlink_cluster(2, 100);
    let r = solve(&g, "DP3+TP2");
    assert_eq!(r.rejection_reason, "insufficient healthy GPUs for DP3: need 3, have 2");
    let r = solve(&g, "TP2+DP3");
    assert_eq!(r.rejection_reason, "insufficient healthy GPUs for DP3: need 3, have 2");
    let r = solve(&g, "TP2+DP1");
    assert!(r.placed);
    assert_eq!(r.gpu_ids, vec!["gpu-0", "gpu-1", "gpu-0"]);
    assert!(r.rejection_reason.is_empty());
}

#[test]
fn dp_takes_first_healthy_gpus() {
    let mut g = nvlink_cluster(4, 600);
    g.mark_unhealthy("gpu-0");
    let r = solve(&g, "DP2");
    assert_eq!(r.gpu_ids, vec!["gpu-1", "gpu-2"]);
}

#[test]
fn placement_result_constructors() {
    let ok = PlacementResult::ok(vec!["gpu-3".to_string()]);
    assert!(ok.placed);
    assert_eq!(ok.gpu_ids, vec!["gpu-3"]);
    assert!(ok.rejection_reason.is_empty());
    let no = PlacementResult::rejected("no room");
    assert!(!no.placed);
    assert!(no.gpu_ids.is_empty());
    assert_eq!(no.rejection_reason, "no room");
}

#[test]
fn degree_zero_atoms_are_rejected() {
    let g = nvlink_cluster(2, 100);
    for dsl in ["TP0", "PP0", "DP0", "TP1+DP0", "DP0|TP0"] {
        let r = solve(&g, dsl);
        assert!(!r.placed, "{dsl}");
        assert!(r.gpu_ids.is_empty(), "{dsl}");
        assert!(!r.rejection_reason.is_empty(), "{dsl}");
    }
    assert_eq!(solve(&g, "DP0").rejection_reason, "an atom of degree 0 requests no GPUs");
    assert_eq!(solve(&g, "TP0").rejection_reason, "an atom of degree 0 requests no GPUs");
    assert_eq!(solve(&g, "PP0").rejection_reason, "no IB path of length 0 with hop count <= 4294967295");
    let r = solve(&g, "DP0|DP1");
    assert!(r.placed);
    assert_eq!(r.gpu_ids, vec!["gpu-0"]);
}

#[test]
fn unhealthy_gpus_are_never_placed() {
    let mut g = nvlink_cluster(4, 600);
    g.mark_unhealthy("gpu-2");
    for dsl in ["TP2", "DP3", "TP2+DP1", "TP4|DP3"] {
        let r = solve(&g, dsl);
        assert!(r.placed, "{dsl}: {}", r.rejection_reason);
        assert!(!r.gpu_ids.contains(&"gpu-2".to_string()), "{dsl}");
    }
    assert!(!solve(&g, "TP4").placed);
}
