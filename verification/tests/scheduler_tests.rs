use nemesis::graph::{ClusterGraph, LinkKind};
use nemesis::scheduler::{join_strings, validate, validate_checked, Reservations};

fn cluster() -> ClusterGraph {
    let mut g = ClusterGraph::new();
    for i in 0..8usize {
        g.add_gpu(&format!("gpu-{i}"), "node-0", 0);
    }
    for i in 0..8usize {
        for j in (i + 1)..8 {
            g.add_link(&format!("gpu-{i}"), &format!("gpu-{j}"), LinkKind::NvLink, 600, 0);
        }
    }
    g
}

#[test]
fn validate_reports_parse_and_type_errors() {
    let v = validate("TP8_NVL12");
    assert!(v.valid);
    assert!(v.errors.is_empty());
    let v = validate("XP8");
    assert!(!v.valid);
    assert_eq!(v.errors, vec!["unknown parallel dim XP".to_string()]);
    let v = validate("TP3");
    assert!(!v.valid);
    assert_eq!(v.errors.len(), 1);
}

#[test]
fn schedule_reserves_and_release_frees() {
    let g = cluster();
    let mut r = Reservations::new();
    let p = r.schedule(&g, "job-a", "TP4").unwrap();
    assert!(p.placed);
    assert_eq!(p.gpu_ids, vec!["gpu-0", "gpu-1", "gpu-2", "gpu-3"]);
    // The solver does not see reservations, so the same GPUs come back and
    // the second job is refused.
    let q = r.schedule(&g, "job-b", "TP4").unwrap();
    assert!(!q.placed);
    assert!(q.gpu_ids.is_empty());
    assert_eq!(q.rejection_reason, "GPUs already reserved by a concurrent job");
    r.release("job-a");
    let q = r.schedule(&g, "job-b", "TP4").unwrap();
    assert!(q.placed);
    // Releasing an unknown job is a no-op.
    r.release("job-zzz");
    let q = r.schedule(&g, "job-c", "DP2").unwrap();
    assert!(!q.placed);
}

#[test]
fn schedule_rejects_type_errors_and_parse_errors() {
    let g = cluster();
    let mut r = Reservations::new();
    let p = r.schedule(&g, "job", "TP3_NVL12|TP16_NVL1").unwrap();
    assert!(!p.placed);
    assert_eq!(
        p.rejection_reason,
        "TP degree 3 must be a power of 2 (e.g. 1, 2, 4, 8, 16 …); TP16 with NVLink constraint exceeds NVLink mesh maximum of 8 GPUs per NVSwitch domain; disjunction alternatives have mismatched gpu_count: [3, 16]"
    );
    assert!(r.schedule(&g, "job", "TP8+").is_err());
    let p = r.schedule(&g, "job", "TP8").unwrap();
    assert!(p.placed);
}

#[test]
fn unplaceable_jobs_reserve_nothing() {
    let g = cluster();
    let mut r = Reservations::new();
    let p = r.schedule(&g, "big", "DP9").unwrap();
    assert!(!p.placed);
    assert_eq!(p.rejection_reason, "insufficient healthy GPUs for DP9: need 9, have 8");
    assert!(r.schedule(&g, "small", "DP8").unwrap().placed);
}

#[test]
fn strings_join_with_separator() {
    assert_eq!(join_strings(&vec![], "; "), "");
    assert_eq!(join_strings(&vec!["a".to_string()], "; "), "a");
    assert_eq!(join_strings(&vec!["a".to_string(), "b".to_string()], "; "), "a; b");
}

#[test]
fn release_is_idempotent_and_restores_capacity() {
    let g = cluster();
    let mut r = Reservations::new();
    assert!(r.schedule(&g, "a", "DP8").unwrap().placed);
    r.release("a");
    r.release("a");
    let p = r.schedule(&g, "b", "DP8").unwrap();
    assert!(p.placed);
    assert_eq!(p.gpu_ids.len(), 8);
}

#[test]
fn checked_entry_points_refuse_overflowing_counts() {
    assert!(validate_checked("DP65536+DP65536|DP1").is_none());
    let v = validate_checked("TP8_NVL12").unwrap();
    assert!(v.valid);
    let v = validate_checked("XP8").unwrap();
    assert_eq!(v.errors, vec!["unknown parallel dim XP".to_string()]);
    let g = cluster();
    let mut r = Reservations::new();
    assert!(r.schedule_checked(&g, "job-a", "DP65536+DP65536|DP1").is_none());
    let p = r.schedule_checked(&g, "job-a", "TP2").unwrap().unwrap();
    assert!(p.placed);
    assert_eq!(p.gpu_ids, vec!["gpu-0", "gpu-1"]);
    let q = r.schedule_checked(&g, "job-b", "TP2").unwrap().unwrap();
    assert!(!q.placed);
    assert_eq!(q.rejection_reason, "GPUs already reserved by a concurrent job");
}
