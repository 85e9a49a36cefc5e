use nemesis::graph::{ClusterGraph, LinkKind};

fn mesh(n: usize, bandwidth: u32) -> ClusterGraph {
    let mut g = ClusterGraph::new();
    for i in 0..n {
        g.add_gpu(&format!("gpu-{i}"), "node-0", 0);
    }
    for i in 0..n {
        for j in (i + 1)..n {
            g.add_link(&format!("gpu-{i}"), &format!("gpu-{j}"), LinkKind::NvLink, bandwidth, 0);
        }
    }
    g
}

#[test]
fn add_gpu_node_is_queryable() {
    let mut g = ClusterGraph::new();
    g.add_gpu("gpu-0", "node-0", 0);
    assert!(g.contains_gpu("gpu-0"));
    assert_eq!(g.gpu_count(), 1);
}

#[test]
fn nvlink_edge_has_correct_bandwidth() {
    let mut g = ClusterGraph::new();
    g.add_gpu("gpu-0", "node-0", 0);
    g.add_gpu("gpu-1", "node-0", 0);
    g.add_link("gpu-0", "gpu-1", LinkKind::NvLink, 600, 0);
    let bw = g.link_bandwidth("gpu-0", "gpu-1").unwrap();
    assert_eq!(bw, 600);
}

#[test]
fn mark_unhealthy_excludes_from_healthy_set() {
    let mut g = ClusterGraph::new();
    g.add_gpu("gpu-0", "node-0", 0);
    g.add_gpu("gpu-1", "node-0", 0);
    g.mark_unhealthy("gpu-0");
    let healthy = g.healthy_gpu_ids();
    assert!(!healthy.contains(&"gpu-0".to_string()));
    assert!(healthy.contains(&"gpu-1".to_string()));
}

#[test]
fn nvlink_clique_found_in_8gpu_mesh() {
    let g = mesh(8, 600);
    let clique = g.find_nvlink_clique(8, 200);
    assert!(clique.is_some());
    assert_eq!(clique.unwrap().len(), 8);
}

#[test]
fn nvlink_clique_not_found_when_bandwidth_too_low() {
    let g = mesh(8, 100);
    let clique = g.find_nvlink_clique(8, 600);
    assert!(clique.is_none());
}

#[test]
fn ib_path_found_in_linear_chain() {
    let mut g = ClusterGraph::new();
    for i in 0..4 {
        g.add_gpu(&format!("gpu-{i}"), &format!("node-{i}"), 0);
    }
    for i in 0..3usize {
        g.add_link(&format!("gpu-{i}"), &format!("gpu-{}", i + 1), LinkKind::InfiniBand, 200, 1);
    }
    let path = g.find_ib_path(4, 2);
    assert!(path.is_some());
    assert_eq!(path.unwrap().len(), 4);
}

#[test]
fn link_bandwidth_is_symmetric_and_none_without_edge() {
    let mut g = ClusterGraph::new();
    g.add_gpu("gpu-0", "node-0", 0);
    g.add_gpu("gpu-1", "node-0", 0);
    g.add_gpu("gpu-2", "node-0", 0);
    g.add_link("gpu-0", "gpu-1", LinkKind::PCIe, 64, 0);
    assert_eq!(g.link_bandwidth("gpu-1", "gpu-0"), Some(64));
    assert_eq!(g.link_bandwidth("gpu-0", "gpu-2"), None);
    assert_eq!(g.link_bandwidth("gpu-0", "gpu-9"), None);
}

#[test]
fn clique_is_lexicographically_first_among_healthy() {
    let mut g = mesh(6, 600);
    g.mark_unhealthy("gpu-1");
    let clique = g.find_nvlink_clique(3, 600).unwrap();
    assert_eq!(clique, vec!["gpu-0".to_string(), "gpu-2".to_string(), "gpu-3".to_string()]);
    assert_eq!(g.find_nvlink_clique(0, 600), Some(vec![]));
    assert_eq!(g.find_nvlink_clique(6, 600), None);
}

#[test]
fn clique_ignores_pcie_links() {
    let mut g = ClusterGraph::new();
    g.add_gpu("gpu-0", "node-0", 0);
    g.add_gpu("gpu-1", "node-0", 0);
    g.add_link("gpu-0", "gpu-1", LinkKind::PCIe, 600, 0);
    assert!(g.find_nvlink_clique(2, 0).is_none());
    g.add_link("gpu-1", "gpu-0", LinkKind::NvLink, 300, 0);
    assert_eq!(g.find_nvlink_clique(2, 300), Some(vec!["gpu-0".to_string(), "gpu-1".to_string()]));
}

#[test]
fn ib_path_respects_hops_health_and_size() {
    let mut g = ClusterGraph::new();
    for i in 0..4 {
        g.add_gpu(&format!("gpu-{i}"), &format!("node-{i}"), 0);
    }
    for i in 0..3usize {
        g.add_link(&format!("gpu-{i}"), &format!("gpu-{}", i + 1), LinkKind::InfiniBand, 200, 1);
    }
    assert!(g.find_ib_path(4, 0).is_none());
    assert!(g.find_ib_path(0, 5).is_none());
    assert!(g.find_ib_path(5, 5).is_none());
    let p = g.find_ib_path(4, 1).unwrap();
    assert_eq!(p, vec!["gpu-0", "gpu-1", "gpu-2", "gpu-3"]);
    g.mark_unhealthy("gpu-2");
    assert!(g.find_ib_path(3, 1).is_none());
    assert_eq!(g.find_ib_path(2, 1).unwrap().len(), 2);
}

#[test]
fn to_proto_lists_nodes_and_edges() {
    let mut g = ClusterGraph::new();
    g.add_gpu("gpu-0", "node-0", 1);
    g.add_gpu("gpu-1", "node-1", 2);
    g.add_link("gpu-1", "gpu-0", LinkKind::InfiniBand, 200, 3);
    g.add_link("gpu-0", "gpu-1", LinkKind::PCIe, 64, 0);
    g.mark_unhealthy("gpu-1");
    let t = g.to_proto();
    assert_eq!(t.nodes.len(), 2);
    assert_eq!(t.nodes[1].gpu_id, "gpu-1");
    assert_eq!(t.nodes[1].node_id, "node-1");
    assert_eq!(t.nodes[1].numa_domain, 2);
    assert!(!t.nodes[1].healthy);
    assert!(t.nodes[0].healthy);
    assert_eq!(t.edges.len(), 2);
    assert_eq!((t.edges[0].src.as_str(), t.edges[0].dst.as_str()), ("gpu-1", "gpu-0"));
    assert_eq!(t.edges[0].kind, 2);
    assert_eq!(t.edges[0].bandwidth_gbps, 200);
    assert_eq!(t.edges[0].ib_hop_count, 3);
    assert_eq!(t.edges[1].kind, 1);
}

#[test]
fn ib_path_follows_depth_first_edge_order() {
    // A star around gpu-0 plus a tail: from gpu-0 the search first follows
    // the most recently added edge, gpu-0 -> gpu-3, which is a dead end for
    // three GPUs, then gpu-0 -> gpu-2 -> gpu-4.
    let mut g = ClusterGraph::new();
    for i in 0..5 {
        g.add_gpu(&format!("gpu-{i}"), &format!("node-{i}"), 0);
    }
    g.add_link("gpu-0", "gpu-1", LinkKind::InfiniBand, 200, 1);
    g.add_link("gpu-0", "gpu-2", LinkKind::InfiniBand, 200, 1);
    g.add_link("gpu-0", "gpu-3", LinkKind::InfiniBand, 200, 1);
    g.add_link("gpu-4", "gpu-2", LinkKind::InfiniBand, 200, 1);
    assert_eq!(g.find_ib_path(3, 1), Some(vec!["gpu-0".to_string(), "gpu-2".to_string(), "gpu-4".to_string()]));
    assert_eq!(g.find_ib_path(2, 1), Some(vec!["gpu-0".to_string(), "gpu-3".to_string()]));
    g.mark_unhealthy("gpu-0");
    assert_eq!(g.find_ib_path(2, 1), Some(vec!["gpu-2".to_string(), "gpu-4".to_string()]));
}
