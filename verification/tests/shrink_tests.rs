use nemesis::nccl::{
    join_ranks, ExpandRequest, NcclBackend, NcclReal, NcclSim, ShrinkAction, ShrinkEvent, ShrinkPhase, ShrinkPlan,
    ShrinkRequest,
};

fn shrink_request(exclude_ranks: Vec<u32>) -> ShrinkRequest {
    ShrinkRequest {
        communicator_id: "comm-0".to_string(),
        job_id: "job-0".to_string(),
        exclude_ranks,
    }
}

#[test]
fn sim_shrink_succeeds_and_returns_duration() {
    let mut sim = NcclSim::new(8, 42);
    let req = shrink_request(vec![7]);
    let result = sim.shrink(&req).unwrap();
    assert!(result.success);
    assert!(result.duration_ns > 0);
    assert_eq!(result.active_rank_count, 7);
}

#[test]
fn sim_expand_succeeds_after_shrink() {
    let mut sim = NcclSim::new(8, 42);
    let shrink_req = shrink_request(vec![7]);
    sim.shrink(&shrink_req).unwrap();
    let expand_req = ExpandRequest {
        communicator_id: "comm-0".to_string(),
        job_id: "job-0".to_string(),
        new_gpu_ids: vec!["gpu-8".to_string()],
    };
    let result = sim.expand(&expand_req).unwrap();
    assert!(result.success);
    assert_eq!(result.active_rank_count, 8);
}

#[test]
fn sim_shrink_duration_under_30_seconds() {
    let mut sim = NcclSim::new(64, 42);
    let req = shrink_request(vec![63]);
    let result = sim.shrink(&req).unwrap();
    assert!(result.duration_ns < 30_000_000_000, "duration {}ns exceeds 30s", result.duration_ns);
}

#[test]
fn sim_shrink_exhausting_all_ranks_returns_error() {
    let mut sim = NcclSim::new(4, 42);
    let req = shrink_request(vec![0, 1, 2, 3]); // all 4 ranks
    let result = sim.shrink(&req).unwrap();
    assert!(!result.success, "shrinking all ranks must fail");
    assert!(!result.error.is_empty(), "error message must be present");
    assert_eq!(result.active_rank_count, 4, "rank count must be unchanged on failure");
}

#[test]
fn sim_durations_follow_the_seeded_generator() {
    let mut sim = NcclSim::new(8, 42);
    let seed: u64 = 42u64.wrapping_mul(6_364_136_223_846_793_005).wrapping_add(1_442_695_040_888_963_407);
    let expected = 4_000_000_000 + (seed >> 33) % 500_000_000;
    let m = sim.shrink(&shrink_request(vec![1, 2])).unwrap();
    assert_eq!(m.duration_ns, expected);
    assert_eq!(m.active_rank_count, 6);
    assert_eq!(sim.active_rank_count(), 6);
    let mut again = NcclSim::new(8, 42);
    assert_eq!(again.seeded_duration_ns(), expected);
    let second = again.seeded_duration_ns();
    assert!(second >= 4_000_000_000 && second < 4_500_000_000);
}

#[test]
fn sim_refusal_leaves_state_unchanged() {
    let mut sim = NcclSim::new(2, 7);
    let m = sim.shrink(&shrink_request(vec![0, 1, 2])).unwrap();
    assert_eq!(m.error, "cannot exclude 3 ranks from communicator with 2 active");
    assert_eq!(m.duration_ns, 0);
    assert_eq!(sim.active_rank_count(), 2);
    let mut fresh = NcclSim::new(2, 7);
    let a = sim.shrink(&shrink_request(vec![0])).unwrap();
    let b = fresh.shrink(&shrink_request(vec![0])).unwrap();
    assert_eq!(a.duration_ns, b.duration_ns);
}

#[test]
fn sim_expand_saturates() {
    let mut sim = NcclSim::new(u32::MAX, 1);
    let req = ExpandRequest {
        communicator_id: "c".to_string(),
        job_id: "j".to_string(),
        new_gpu_ids: vec!["gpu-9".to_string()],
    };
    assert_eq!(sim.expand(&req).unwrap().active_rank_count, u32::MAX);
}

#[test]
fn real_sleep_is_capped() {
    assert_eq!(NcclSim::real_sleep_ns(5), 5);
    assert_eq!(NcclSim::real_sleep_ns(4_000_000_000), 10_000_000);
}

#[test]
fn real_backend_construction() {
    let r = NcclReal::for_job(0xdead, 8, "job-001");
    assert_eq!(r.socket_path(), "/tmp/nemesis-hook-job-001.sock");
    assert_eq!(r.comm_ptr(), 0xdead);
    assert_eq!(r.active_rank_count(), 8);
    let n = NcclReal::new(1, 4, "/tmp/hook.sock");
    assert_eq!(n.socket_path(), "/tmp/hook.sock");
    assert_eq!(n.active_rank_count(), 4);
}

#[test]
fn real_backend_plans_shrinks() {
    let mut r = NcclReal::new(1, 4, "/tmp/hook.sock");
    match r.plan_shrink(&shrink_request(vec![3, 1])) {
        ShrinkPlan::Handshake { request, new_active } => {
            assert_eq!(request, "SAFE_POINT_REQUEST exclude=3,1\n");
            assert_eq!(new_active, 2);
            r.commit_shrink(new_active);
        }
        ShrinkPlan::Refuse(_) => panic!("expected a handshake"),
    }
    assert_eq!(r.active_rank_count(), 2);
    match r.plan_shrink(&shrink_request(vec![0, 1])) {
        ShrinkPlan::Refuse(m) => {
            assert!(!m.success);
            assert_eq!(m.active_rank_count, 2);
            assert_eq!(m.error, "cannot exclude 2 ranks from communicator with 2 active");
        }
        ShrinkPlan::Handshake { .. } => panic!("expected a refusal"),
    }
    let e = NcclReal::expand_error(&ExpandRequest {
        communicator_id: "comm-7".to_string(),
        job_id: "j".to_string(),
        new_gpu_ids: vec!["a".to_string(), "b".to_string()],
    });
    assert_eq!(
        e,
        "expand via ncclCommMerge (NCCL 2.27+) not yet implemented; adding 2 ranks to communicator comm-7 requires rank-bootstrapping protocol"
    );
}

#[test]
fn rank_lists_join_with_commas() {
    assert_eq!(join_ranks(&vec![]), "");
    assert_eq!(join_ranks(&vec![5]), "5");
    assert_eq!(join_ranks(&vec![3, 40, 0]), "3,40,0");
}

#[test]
fn hardware_shrink_success_metrics() {
    let m = NcclReal::shrink_success(6, 4_200_000_000);
    assert!(m.success);
    assert_eq!(m.active_rank_count, 6);
    assert_eq!(m.duration_ns, 4_200_000_000);
    assert!(m.error.is_empty());
}

fn shrink_req(ranks: Vec<u32>) -> ShrinkRequest {
    ShrinkRequest { communicator_id: "comm-1".to_string(), job_id: "job-1".to_string(), exclude_ranks: ranks }
}

#[test]
fn hardware_shrink_protocol_runs_handshake_split_resume() {
    let mut real = NcclReal::new(0x1000, 8, "/tmp/hook.sock");
    let req = shrink_req(vec![2, 5]);
    let then = match real.shrink_step(&req, ShrinkPhase::Start, ShrinkEvent::Requested, 0) {
        ShrinkAction::Exchange { message, expected_ack, timeout_secs, then } => {
            assert_eq!(message, "SAFE_POINT_REQUEST exclude=2,5\n");
            assert_eq!(expected_ack, "SAFE_POINT_ACK");
            assert_eq!(timeout_secs, 30);
            then
        }
        _ => panic!("expected the safe-point exchange"),
    };
    assert_eq!(then, ShrinkPhase::SafePointSent { new_active: 6 });
    let then = match real.shrink_step(&req, then, ShrinkEvent::HookAnswered(true), 10) {
        ShrinkAction::Split { then } => then,
        _ => panic!("expected the split"),
    };
    assert_eq!(real.active_rank_count(), 8);
    let then = match real.shrink_step(&req, then, ShrinkEvent::SplitReturned(Some(0)), 20) {
        ShrinkAction::Exchange { message, expected_ack, timeout_secs, then } => {
            assert_eq!(message, "RESUME\n");
            assert_eq!(expected_ack, "RESUMED");
            assert_eq!(timeout_secs, 5);
            then
        }
        _ => panic!("expected the resume exchange"),
    };
    assert_eq!(real.active_rank_count(), 6);
    match real.shrink_step(&req, then, ShrinkEvent::HookAnswered(true), 4_500) {
        ShrinkAction::Finish(Ok(m)) => {
            assert!(m.success);
            assert_eq!(m.active_rank_count, 6);
            assert_eq!(m.duration_ns, 4_500);
            assert!(m.error.is_empty());
        }
        _ => panic!("expected success"),
    }
}

#[test]
fn hardware_shrink_protocol_failures() {
    let mut real = NcclReal::new(0x1000, 2, "/tmp/hook.sock");
    match real.shrink_step(&shrink_req(vec![0, 1]), ShrinkPhase::Start, ShrinkEvent::Requested, 0) {
        ShrinkAction::Finish(Ok(m)) => {
            assert!(!m.success);
            assert_eq!(m.error, "cannot exclude 2 ranks from communicator with 2 active");
        }
        _ => panic!("expected a refusal"),
    }
    let req = shrink_req(vec![1]);
    let p = ShrinkPhase::SafePointSent { new_active: 1 };
    match real.shrink_step(&req, p, ShrinkEvent::HookAnswered(false), 0) {
        ShrinkAction::Finish(Err(e)) => assert_eq!(e, "safe-point handshake failed"),
        _ => panic!("expected a handshake error"),
    }
    let p = ShrinkPhase::SplitStarted { new_active: 1 };
    match real.shrink_step(&req, p, ShrinkEvent::SplitReturned(Some(3)), 0) {
        ShrinkAction::Finish(Err(e)) => assert_eq!(e, "ncclCommSplit returned error"),
        _ => panic!("expected a split error"),
    }
    match real.shrink_step(&req, p, ShrinkEvent::SplitReturned(None), 0) {
        ShrinkAction::Finish(Err(e)) => assert_eq!(e, "ncclCommSplit task panicked"),
        _ => panic!("expected a panicked split"),
    }
    assert_eq!(real.active_rank_count(), 2);
    let p = ShrinkPhase::ResumeSent { new_active: 1 };
    match real.shrink_step(&req, p, ShrinkEvent::HookAnswered(false), 0) {
        ShrinkAction::Finish(Err(e)) => assert_eq!(e, "resume handshake failed"),
        _ => panic!("expected a resume error"),
    }
}
