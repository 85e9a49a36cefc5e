use nemesis::healer::{
    expand_template, JobRegistry, get_param, parse_ranks, plan_step, run_playbook, shrink_action, sort_playbooks, PlaybookInfo,
    PlaybookStep, StepPlan,
};
use nemesis::nccl::{NcclSim, ShrinkMetrics};

fn params(pairs: &[(&str, &str)]) -> Vec<(String, String)> {
    pairs.iter().map(|(k, v)| (k.to_string(), v.to_string())).collect()
}

fn step(action: &str, description: &str, ps: &[(&str, &str)]) -> PlaybookStep {
    PlaybookStep { action: action.to_string(), description: description.to_string(), params: params(ps) }
}

#[test]
fn parse_ranks_skips_bad_pieces() {
    assert_eq!(parse_ranks("3,4"), vec![3, 4]);
    assert_eq!(parse_ranks(" 3 , x, +5,,-1,4294967296,4294967295"), vec![3, 5, 4294967295]);
    assert_eq!(parse_ranks(""), Vec::<u32>::new());
    assert_eq!(parse_ranks("\t7\n"), vec![7]);
}

#[test]
fn templates_expand_each_key() {
    let p = params(&[("gpu", "gpu-3"), ("job", "j1")]);
    assert_eq!(expand_template("{{gpu}} of {{job}} ({{gpu}}) {{other}}", &p), "gpu-3 of j1 (gpu-3) {{other}}");
    assert_eq!(expand_template("plain", &p), "plain");
}

#[test]
fn params_are_looked_up_by_key() {
    let p = params(&[("a", "1"), ("b", "2")]);
    assert_eq!(get_param(&p, "b"), Some("2".to_string()));
    assert_eq!(get_param(&p, "c"), None);
}

#[test]
fn record_steps_format_their_action() {
    let req = params(&[("gpu_id", "gpu-9"), ("active_job_ids", "j1,j2")]);
    let reg = None;
    let text = |s: &PlaybookStep| match plan_step(s, &req, &reg) {
        StepPlan::Record(t) => t,
        StepPlan::Shrink { .. } => panic!("expected a record"),
    };
    assert_eq!(text(&step("drain_gpu", "drain it", &[])), "drain_gpu gpu=gpu-9: drain it");
    assert_eq!(text(&step("drain_gpu", "d", &[("gpu_id", "{{gpu_id}}-x")])), "drain_gpu gpu=gpu-9-x: d");
    assert_eq!(text(&step("checkpoint_jobs", "save", &[])), "checkpoint_jobs jobs=[j1,j2]: save");
    assert_eq!(text(&step("notify", "", &[])), "notify event=UNSPECIFIED gpu=gpu-9");
    assert_eq!(text(&step("notify", "", &[("event_kind", "XID")])), "notify event=XID gpu=gpu-9");
    assert_eq!(text(&step("reboot", "later", &[])), "reboot: later");
}

#[test]
fn shrink_steps_resolve_their_target() {
    let req = params(&[("job_id", "job-1"), ("bad", "{{bad}}")]);
    let reg = Some("comm-reg".to_string());
    match plan_step(&step("shrink_communicator", "", &[("exclude_ranks", "{{job_id}},2, 3")]), &req, &reg) {
        StepPlan::Shrink { comm_id, job_id, exclude_ranks } => {
            assert_eq!(comm_id, "comm-reg");
            assert_eq!(job_id, "job-1");
            assert_eq!(exclude_ranks, vec![2, 3]);
        }
        StepPlan::Record(_) => panic!("expected a shrink"),
    }
    let req = params(&[("comm_id", "comm-req")]);
    match plan_step(&step("shrink_communicator", "", &[]), &req, &None) {
        StepPlan::Shrink { comm_id, job_id, exclude_ranks } => {
            assert_eq!(comm_id, "comm-req");
            assert_eq!(job_id, "");
            assert!(exclude_ranks.is_empty());
        }
        StepPlan::Record(_) => panic!("expected a shrink"),
    }
}

#[test]
fn shrink_action_texts() {
    let ok = ShrinkMetrics { success: true, duration_ns: 5, active_rank_count: 6, error: String::new() };
    assert_eq!(
        shrink_action("comm-1", &vec![3, 4], &Ok(ok)),
        "shrink_communicator comm=comm-1 exclude=3,4 active_after=6"
    );
    let failed = ShrinkMetrics { success: false, duration_ns: 0, active_rank_count: 2, error: "nope".to_string() };
    assert_eq!(shrink_action("c", &vec![], &Ok(failed)), "shrink_communicator FAILED: nope");
    assert_eq!(shrink_action("c", &vec![], &Err("boom".to_string())), "shrink_communicator ERROR: boom");
}

#[test]
fn playbook_runs_every_step_in_order() {
    let mut sim = NcclSim::new(8, 42);
    let steps = vec![
        step("drain_gpu", "drain", &[("gpu_id", "{{gpu}}")]),
        step("shrink_communicator", "shrink", &[("exclude_ranks", "7"), ("comm_id", "comm-a")]),
        step("shrink_communicator", "again", &[("exclude_ranks", "0,1,2,3,4,5,6,7,8")]),
        step("notify", "tell", &[]),
    ];
    let req = params(&[("gpu", "gpu-7"), ("gpu_id", "gpu-7")]);
    let actions = run_playbook(&mut sim, &steps, &req, &None);
    assert_eq!(
        actions,
        vec![
            "drain_gpu gpu=gpu-7: drain".to_string(),
            "shrink_communicator comm=comm-a exclude=7 active_after=7".to_string(),
            "shrink_communicator FAILED: cannot exclude 9 ranks from communicator with 7 active".to_string(),
            "notify event=UNSPECIFIED gpu=gpu-7".to_string(),
        ]
    );
    assert_eq!(sim.active_rank_count(), 7);
}

#[test]
fn playbooks_sort_by_name_stably() {
    let info = |n: &str, d: &str| PlaybookInfo { name: n.to_string(), description: d.to_string(), trigger: String::new() };
    let sorted = sort_playbooks(vec![info("xid", "1"), info("ecc", "2"), info("b", "3"), info("ecc", "4"), info("ec", "5")]);
    let got: Vec<(String, String)> = sorted.into_iter().map(|p| (p.name, p.description)).collect();
    assert_eq!(
        got,
        vec![
            ("b".to_string(), "3".to_string()),
            ("ec".to_string(), "5".to_string()),
            ("ecc".to_string(), "2".to_string()),
            ("ecc".to_string(), "4".to_string()),
            ("xid".to_string(), "1".to_string()),
        ]
    );
}

#[test]
fn registry_issues_uuid_communicators() {
    let mut r = JobRegistry::new();
    assert_eq!(r.communicator_of("job-1"), None);
    let a = r.register_job("job-1", 8);
    assert_eq!(a.len(), 36);
    assert_eq!(a.as_bytes()[14], b'4');
    assert_eq!(&a[8..9], "-");
    assert!(a.chars().all(|c| c == '-' || c.is_ascii_digit() || ('a'..='f').contains(&c)));
    assert_eq!(r.communicator_of("job-1"), Some(a.clone()));
    let b = r.register_job("job-2", 4);
    let c = r.register_job("job-1", 16);
    assert_ne!(a, c);
    assert_eq!(r.communicator_of("job-1"), Some(c));
    assert_eq!(r.communicator_of("job-2"), Some(b));
}
