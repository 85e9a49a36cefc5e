use nemesis::simcluster::{build_cluster, TopologyKind};
use nemesis::text::t_seconds;

#[test]
fn zero_gpus_is_refused() {
    match build_cluster(0, TopologyKind::NvlinkFull, 600, 200) {
        Err(e) => assert_eq!(e, "gpu_count must be > 0, got 0"),
        Ok(_) => panic!("expected an error"),
    }
}

#[test]
fn nvlink_full_mesh() {
    let (g, ids) = build_cluster(4, TopologyKind::NvlinkFull, 600, 200).unwrap();
    assert_eq!(ids, vec!["gpu-0", "gpu-1", "gpu-2", "gpu-3"]);
    assert_eq!(g.gpu_count(), 4);
    let t = g.to_proto();
    assert_eq!(t.edges.len(), 6);
    assert!(t.edges.iter().all(|e| e.kind == 0 && e.bandwidth_gbps == 600 && e.ib_hop_count == 0));
    assert_eq!((t.edges[5].src.as_str(), t.edges[5].dst.as_str()), ("gpu-2", "gpu-3"));
    assert!(t.nodes.iter().all(|n| n.node_id == "node-0" && n.healthy));
    assert_eq!(g.find_nvlink_clique(4, 600).unwrap().len(), 4);
}

#[test]
fn pcie_mesh_and_ib_chain() {
    let (g, _) = build_cluster(3, TopologyKind::PcieCrossNode, 600, 200).unwrap();
    let t = g.to_proto();
    assert_eq!(t.edges.len(), 3);
    assert!(t.edges.iter().all(|e| e.kind == 1 && e.bandwidth_gbps == 64));
    let (g, _) = build_cluster(5, TopologyKind::IbChain, 600, 200).unwrap();
    let t = g.to_proto();
    assert_eq!(t.edges.len(), 4);
    assert!(t.edges.iter().all(|e| e.kind == 2 && e.bandwidth_gbps == 200 && e.ib_hop_count == 1));
    assert_eq!(g.find_ib_path(5, 1).unwrap().len(), 5);
    let (g, _) = build_cluster(1, TopologyKind::IbChain, 600, 200).unwrap();
    assert_eq!(g.to_proto().edges.len(), 0);
}

#[test]
fn timeline_seconds_parse() {
    assert_eq!(t_seconds("30s"), 30);
    assert_eq!(t_seconds("45"), 45);
    assert_eq!(t_seconds("5ss"), 5);
    assert_eq!(t_seconds("+7s"), 7);
    assert_eq!(t_seconds(" 3s"), 0);
    assert_eq!(t_seconds("1m"), 0);
    assert_eq!(t_seconds("s"), 0);
    assert_eq!(t_seconds("18446744073709551615s"), u64::MAX);
    assert_eq!(t_seconds("18446744073709551616s"), 0);
}
