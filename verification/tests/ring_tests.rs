use nemesis::ring::MetricRing;

#[derive(Clone, Debug)]
struct MetricSample {
    gpu_id: String,
    timestamp_ns: u64,
    ecc_correctable_rate: f32,
    temperature_celsius: f32,
}

fn make_sample(gpu_id: &str, ecc_corr: f32) -> MetricSample {
    MetricSample {
        gpu_id: gpu_id.to_string(),
        timestamp_ns: 0,
        ecc_correctable_rate: ecc_corr,
        temperature_celsius: 40.0,
    }
}

#[test]
fn ring_stores_and_retrieves_sample() {
    let mut ring = MetricRing::new();
    ring.push(make_sample("gpu-0", 0.1));
    let window = ring.window(1);
    assert_eq!(window.len(), 1);
    assert!(
        (window[0].ecc_correctable_rate - 0.1).abs() < f32::EPSILON,
        "expected 0.1, got {}",
        window[0].ecc_correctable_rate,
    );
}

#[test]
fn ring_returns_at_most_available_samples() {
    let mut ring = MetricRing::new();
    ring.push(make_sample("gpu-0", 1.0));
    ring.push(make_sample("gpu-0", 2.0));
    let window = ring.window(100);
    assert_eq!(window.len(), 2);
}

#[test]
fn ring_preserves_insertion_order() {
    let mut ring = MetricRing::new();
    ring.push(make_sample("gpu-0", 1.0));
    ring.push(make_sample("gpu-0", 2.0));
    ring.push(make_sample("gpu-0", 3.0));
    let window = ring.window(3);
    // Oldest first.
    assert!(
        (window[0].ecc_correctable_rate - 1.0).abs() < f32::EPSILON,
        "first element should be oldest (1.0), got {}",
        window[0].ecc_correctable_rate,
    );
    assert!(
        (window[2].ecc_correctable_rate - 3.0).abs() < f32::EPSILON,
        "last element should be newest (3.0), got {}",
        window[2].ecc_correctable_rate,
    );
}

#[test]
fn ring_window_zero_is_empty() {
    let mut ring = MetricRing::new();
    ring.push(make_sample("gpu-0", 1.0));
    assert!(ring.window(0).is_empty());
    let empty: MetricRing<MetricSample> = MetricRing::new();
    assert!(empty.window(5).is_empty());
}

#[test]
fn ring_keeps_only_the_latest_window() {
    let mut ring = MetricRing::new();
    let total: u64 = 36_000 + 5;
    for t in 0..total {
        ring.push(MetricSample {
            gpu_id: "gpu-0".to_string(),
            timestamp_ns: t,
            ecc_correctable_rate: 0.0,
            temperature_celsius: 40.0,
        });
    }
    let all = ring.window(usize::MAX);
    assert_eq!(all.len(), 36_000);
    assert_eq!(all[0].timestamp_ns, 5);
    assert_eq!(all[35_999].timestamp_ns, total - 1);
    let last_two = ring.window(2);
    assert_eq!(last_two[0].timestamp_ns, total - 2);
    assert_eq!(last_two[1].timestamp_ns, total - 1);
    assert_eq!(last_two[1].gpu_id, "gpu-0");
    assert!(last_two[1].temperature_celsius > 39.0);
}
