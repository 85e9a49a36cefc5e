use nemesis::telemetry::RingStore;

#[test]
fn store_keeps_one_ring_per_gpu() {
    let mut s: RingStore<u64> = RingStore::new();
    assert!(s.gpu_ids().is_empty());
    assert!(s.window("gpu-0", 3).is_empty());
    s.ingest("gpu-1", 10);
    s.ingest("gpu-0", 20);
    s.ingest("gpu-1", 11);
    s.ingest("gpu-1", 12);
    assert_eq!(s.gpu_ids(), vec!["gpu-1".to_string(), "gpu-0".to_string()]);
    assert_eq!(s.window("gpu-1", 2), vec![11, 12]);
    assert_eq!(s.window("gpu-1", 10), vec![10, 11, 12]);
    assert_eq!(s.window("gpu-0", 1), vec![20]);
    assert!(s.window("gpu-9", 1).is_empty());
}

#[test]
fn store_reports_latest_sample_per_gpu() {
    let mut s: RingStore<u64> = RingStore::new();
    assert!(s.latest_samples().is_empty());
    s.ingest("gpu-a", 1);
    s.ingest("gpu-b", 2);
    s.ingest("gpu-a", 3);
    assert_eq!(s.latest_samples(), vec![3, 2]);
}

#[test]
fn defaults_are_empty() {
    let g = nemesis::graph::ClusterGraph::default();
    assert_eq!(g.gpu_count(), 0);
    let r: nemesis::ring::MetricRing<u8> = Default::default();
    assert!(r.window(10).is_empty());
}
