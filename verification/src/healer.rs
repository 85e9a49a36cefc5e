//! Playbook execution for the healer service.
//!
//! A playbook is an ordered list of steps. Each step's parameter values may
//! hold `{{key}}` tokens, which are replaced by the request's parameters.
//! A `shrink_communicator` step calls the NCCL backend; `drain_gpu`,
//! `checkpoint_jobs`, `notify` and any other action are recorded as text.
//! Every step yields exactly one entry of `actions_taken`, in step order;
//! a failing step does not stop the ones after it.

use vstd::prelude::*;
use crate::nccl::{
    push_ranks, ranks_text, shrink_outcome_view, shrink_request_view, shrink_view, MetricsV, NcclBackend, ShrinkMetrics,
    ShrinkRequest, ShrinkRequestV,
};
use crate::text::{
    chars_of, dec, parse_unsigned, parse_unsigned_range, push_decimal, push_str,
    replace_all, replace_chars, split_on, string_from_chars, trim_bounds, trimmed,
};

verus! {

/// Parameters as plain values: (key, value) pairs.
pub type ParamsV = Seq<(Seq<char>, Seq<char>)>;

pub open spec fn params_view(ps: Seq<(String, String)>) -> ParamsV {
    ps.map_values(|p: (String, String)| (p.0@, p.1@))
}

/// The value of the first pair with key `k`.
pub open spec fn lookup(ps: ParamsV, k: Seq<char>) -> Option<Seq<char>>
    decreases ps.len(),
{
    if ps.len() == 0 {
        None
    } else if ps[0].0 == k {
        Some(ps[0].1)
    } else {
        lookup(ps.drop_first(), k)
    }
}

pub open spec fn or_else(a: Option<Seq<char>>, b: Option<Seq<char>>) -> Option<Seq<char>> {
    if a is Some { a } else { b }
}

pub open spec fn or_default(a: Option<Seq<char>>, d: Seq<char>) -> Seq<char> {
    match a {
        Some(x) => x,
        None => d,
    }
}

/// The template token for key `k`: `{{k}}`.
pub open spec fn braces(k: Seq<char>) -> Seq<char> {
    "{{"@ + k + "}}"@
}

/// `s` with `{{key}}` replaced by its value, for each pair in order.
pub open spec fn expand_spec(s: Seq<char>, ps: ParamsV) -> Seq<char>
    decreases ps.len(),
{
    if ps.len() == 0 {
        s
    } else {
        replace_all(expand_spec(s, ps.drop_last()), braces(ps.last().0), ps.last().1)
    }
}

/// A step's parameters with their values expanded against the request's.
pub open spec fn resolve_spec(step_params: ParamsV, req: ParamsV) -> ParamsV {
    step_params.map_values(|p: (Seq<char>, Seq<char>)| (p.0, expand_spec(p.1, req)))
}

/// The rank a comma-separated piece names, if it parses as a `u32` once
/// trimmed.
pub open spec fn parse_rank(piece: Seq<char>) -> Option<u32> {
    match parse_unsigned(trimmed(piece), u32::MAX as nat) {
        Some(n) => Some(n as u32),
        None => None,
    }
}

/// The ranks of the pieces that parse, in order.
pub open spec fn ranks_from(pieces: Seq<Seq<char>>) -> Seq<u32>
    decreases pieces.len(),
{
    if pieces.len() == 0 {
        Seq::empty()
    } else {
        let r = ranks_from(pieces.drop_last());
        match parse_rank(pieces.last()) {
            Some(n) => r.push(n),
            None => r,
        }
    }
}

/// The ranks listed in `s` (`"3,4"`), skipping pieces that are not numbers.
pub open spec fn parse_ranks_spec(s: Seq<char>) -> Seq<u32> {
    ranks_from(split_on(s, ','))
}

/// The value for key `k` in `ps`.
pub fn get_param(ps: &Vec<(String, String)>, k: &str) -> (r: Option<String>)
    ensures
        opt_view(r) == lookup(params_view(ps@), k@),
{
    let key = String::from_str(k);
    let ghost pv = params_view(ps@);
    let mut i: usize = 0;
    assert(pv.skip(0) =~= pv);
    while i < ps.len()
        invariant
            i <= ps@.len(),
            pv == params_view(ps@),
            key@ == k@,
            lookup(pv, k@) == lookup(pv.skip(i as int), k@),
        decreases ps@.len() - i,
    {
        let ghost rest = pv.skip(i as int);
        assert(rest[0] == (ps@[i as int].0@, ps@[i as int].1@));
        if ps[i].0 == key {
            return Some(ps[i].1.clone());
        }
        assert(rest.drop_first() =~= pv.skip(i + 1));
        i = i + 1;
    }
    assert(pv.skip(i as int).len() == 0);
    None
}

/// Replace `{{key}}` by its value in `s`, for each parameter in order.
pub fn expand_template(s: &str, params: &Vec<(String, String)>) -> (r: String)
    ensures
        r@ == expand_spec(s@, params_view(params@)),
{
    let ghost pv = params_view(params@);
    let mut out = chars_of(s);
    let mut i: usize = 0;
    assert(pv.take(0) =~= Seq::<(Seq<char>, Seq<char>)>::empty());
    while i < params.len()
        invariant
            i <= params@.len(),
            pv == params_view(params@),
            out@ == expand_spec(s@, pv.take(i as int)),
        decreases params@.len() - i,
    {
        let mut pat: Vec<char> = Vec::new();
        push_str(&mut pat, "{{");
        push_str(&mut pat, params[i].0.as_str());
        push_str(&mut pat, "}}");
        let rep = chars_of(params[i].1.as_str());
        let ghost next = pv.take(i + 1);
        assert(next.drop_last() =~= pv.take(i as int));
        assert(next.last() == (params@[i as int].0@, params@[i as int].1@));
        assert(pat@ =~= braces(params@[i as int].0@));
        out = replace_chars(&out, &pat, &rep);
        i = i + 1;
    }
    assert(pv.take(params@.len() as int) =~= pv);
    string_from_chars(&out)
}

fn parse_piece(v: &Vec<char>, from: usize, to: usize) -> (r: Option<u32>)
    requires
        from <= to <= v@.len(),
    ensures
        r == parse_rank(v@.subrange(from as int, to as int)),
{
    let (a, b) = trim_bounds(v, from, to);
    match parse_unsigned_range(v, a, b, u32::MAX as u64) {
        Some(n) => Some(n as u32),
        None => None,
    }
}

/// Parse a comma-separated rank list such as `"3,4"`; pieces that are not
/// (after trimming) a `u32` are skipped.
pub fn parse_ranks(s: &str) -> (r: Vec<u32>)
    ensures
        r@ == parse_ranks_spec(s@),
{
    let v = chars_of(s);
    let mut out: Vec<u32> = Vec::new();
    let mut start: usize = 0;
    let mut i: usize = 0;
    let ghost mut done: Seq<Seq<char>> = Seq::empty();
    assert(v@.take(0) =~= Seq::<char>::empty());
    assert(v@.subrange(0, 0) =~= Seq::<char>::empty());
    while i < v.len()
        invariant
            v@ == s@,
            start <= i <= v@.len(),
            split_on(v@.take(i as int), ',') == done.push(v@.subrange(start as int, i as int)),
            out@ == ranks_from(done),
        decreases v@.len() - i,
    {
        let ghost pre = v@.take(i as int);
        let ghost next = v@.take(i + 1);
        assert(next.drop_last() =~= pre);
        assert(next.last() == v@[i as int]);
        if v[i] == ',' {
            let p = parse_piece(&v, start, i);
            proof {
                let piece = v@.subrange(start as int, i as int);
                let nd = done.push(piece);
                assert(nd.drop_last() =~= done);
                done = nd;
            }
            if let Some(n) = p {
                out.push(n);
            }
            start = i + 1;
            i = i + 1;
            assert(v@.subrange(start as int, i as int) =~= Seq::<char>::empty());
        } else {
            let ghost sp = split_on(pre, ',');
            assert(sp.last() == v@.subrange(start as int, i as int));
            assert(v@.subrange(start as int, i + 1) =~= v@.subrange(start as int, i as int).push(v@[i as int]));
            i = i + 1;
            assert(split_on(v@.take(i as int), ',') =~= done.push(v@.subrange(start as int, i as int)));
        }
    }
    assert(v@.take(v@.len() as int) =~= v@);
    let p = parse_piece(&v, start, v.len());
    let ghost all = done.push(v@.subrange(start as int, v@.len() as int));
    assert(all.drop_last() =~= done);
    if let Some(n) = p {
        out.push(n);
    }
    out
}

// ---------------------------------------------------------------------------
// Steps
// ---------------------------------------------------------------------------

/// One playbook step.
pub struct PlaybookStep {
    pub action: String,
    pub description: String,
    pub params: Vec<(String, String)>,
}

/// What a step does.
pub enum StepPlan {
    /// Shrink `comm_id` of `job_id` by `exclude_ranks`.
    Shrink { comm_id: String, job_id: String, exclude_ranks: Vec<u32> },
    /// Record this action text.
    Record(String),
}

/// A step plan as plain values.
pub enum StepPlanV {
    Shrink(Seq<char>, Seq<char>, Seq<u32>),
    Record(Seq<char>),
}

pub open spec fn plan_view(p: StepPlan) -> StepPlanV {
    match p {
        StepPlan::Shrink { comm_id, job_id, exclude_ranks } => StepPlanV::Shrink(comm_id@, job_id@, exclude_ranks@),
        StepPlan::Record(t) => StepPlanV::Record(t@),
    }
}

/// The plan of a step with action `action`, description `desc` and
/// parameters `step_params`, for a request with parameters `req`.
/// `registered` is the communicator the job registry holds for the
/// request's `job_id` (`None` when there is none or no `job_id` was given).
pub open spec fn plan_spec(
    action: Seq<char>,
    desc: Seq<char>,
    step_params: ParamsV,
    req: ParamsV,
    registered: Option<Seq<char>>,
) -> StepPlanV {
    let res = resolve_spec(step_params, req);
    if action == "shrink_communicator"@ {
        StepPlanV::Shrink(
            or_default(or_else(or_else(lookup(res, "comm_id"@), lookup(req, "comm_id"@)), registered), Seq::empty()),
            or_default(lookup(req, "job_id"@), Seq::empty()),
            match lookup(res, "exclude_ranks"@) {
                Some(t) => parse_ranks_spec(t),
                None => Seq::empty(),
            },
        )
    } else if action == "drain_gpu"@ {
        let gpu = or_default(or_else(lookup(res, "gpu_id"@), lookup(req, "gpu_id"@)), Seq::empty());
        StepPlanV::Record("drain_gpu gpu="@ + gpu + ": "@ + desc)
    } else if action == "checkpoint_jobs"@ {
        let jobs = or_default(or_else(lookup(res, "job_ids"@), lookup(req, "active_job_ids"@)), Seq::empty());
        StepPlanV::Record("checkpoint_jobs jobs=["@ + jobs + "]: "@ + desc)
    } else if action == "notify"@ {
        let kind = or_default(lookup(res, "event_kind"@), "UNSPECIFIED"@);
        let gpu = or_default(or_else(lookup(res, "gpu_id"@), lookup(req, "gpu_id"@)), Seq::empty());
        StepPlanV::Record("notify event="@ + kind + " gpu="@ + gpu)
    } else {
        StepPlanV::Record(action + ": "@ + desc)
    }
}

/// The value of `k` in `ps` is that of the first pair with key `k`.
pub proof fn lemma_lookup_first(ps: ParamsV, k: Seq<char>)
    ensures
        forall|i: int| 0 <= i < ps.len() && (#[trigger] ps[i]).0 == k && (forall|j: int| 0 <= j < i ==> (#[trigger] ps[j]).0 != k)
            ==> lookup(ps, k) == Some(ps[i].1),
        (forall|i: int| 0 <= i < ps.len() ==> (#[trigger] ps[i]).0 != k) ==> lookup(ps, k) is None,
    decreases ps.len(),
{
    if ps.len() > 0 {
        let t = ps.drop_first();
        lemma_lookup_first(t, k);
        assert forall|i: int| 0 <= i < ps.len() && (#[trigger] ps[i]).0 == k && (forall|j: int| 0 <= j < i ==> (#[trigger] ps[j]).0 != k)
            implies lookup(ps, k) == Some(ps[i].1) by {
            if i > 0 {
                assert(ps[0].0 != k);
                assert(t[i - 1] == ps[i]);
                assert forall|j: int| 0 <= j < i - 1 implies (#[trigger] t[j]).0 != k by {
                    assert(t[j] == ps[j + 1]);
                }
            }
        }
        if forall|i: int| 0 <= i < ps.len() ==> (#[trigger] ps[i]).0 != k {
            assert(ps[0].0 != k);
            assert forall|i: int| 0 <= i < t.len() implies (#[trigger] t[i]).0 != k by {
                assert(t[i] == ps[i + 1]);
            }
        }
    }
}

proof fn lemma_lookup_resolved(step_params: ParamsV, req: ParamsV, k: Seq<char>)
    ensures
        lookup(resolve_spec(step_params, req), k) == match lookup(step_params, k) {
            Some(v) => Some(expand_spec(v, req)),
            None => None::<Seq<char>>,
        },
    decreases step_params.len(),
{
    if step_params.len() > 0 {
        let r = resolve_spec(step_params, req);
        assert(r.drop_first() =~= resolve_spec(step_params.drop_first(), req));
        lemma_lookup_resolved(step_params.drop_first(), req, k);
    }
}

/// A shrink step targets the communicator its own `comm_id` parameter names
/// (templates expanded against the request); a step without one, the
/// communicator the request's `comm_id` names; only when neither is given,
/// the one registered for the job (and the empty id when there is none).
/// The job is the request's `job_id`, and the excluded ranks are those the
/// step's `exclude_ranks` parameter lists once expanded (none without it).
pub proof fn lemma_shrink_step_target(desc: Seq<char>, step_params: ParamsV, req: ParamsV, registered: Option<Seq<char>>)
    ensures
        plan_spec("shrink_communicator"@, desc, step_params, req, registered) matches StepPlanV::Shrink(comm, job, ranks) && {
            &&& comm == match lookup(step_params, "comm_id"@) {
                Some(c) => expand_spec(c, req),
                None => match lookup(req, "comm_id"@) {
                    Some(c) => c,
                    None => match registered {
                        Some(c) => c,
                        None => Seq::<char>::empty(),
                    },
                },
            }
            &&& job == match lookup(req, "job_id"@) {
                Some(j) => j,
                None => Seq::<char>::empty(),
            }
            &&& ranks == match lookup(step_params, "exclude_ranks"@) {
                Some(t) => parse_ranks_spec(expand_spec(t, req)),
                None => Seq::<u32>::empty(),
            }
        },
{
    lemma_lookup_resolved(step_params, req, "comm_id"@);
    lemma_lookup_resolved(step_params, req, "exclude_ranks"@);
}

/// The GPU a `drain_gpu` or `notify` step names is its own `gpu_id`
/// parameter (templates expanded against the request), else the request's
/// `gpu_id`, else none; the jobs a `checkpoint_jobs` step names are its own
/// `job_ids`, else the request's `active_job_ids`; a `notify` step's event is
/// its own `event_kind`, else `UNSPECIFIED`. Any other action is recorded as
/// its name and description.
pub proof fn lemma_record_step_texts(action: Seq<char>, desc: Seq<char>, step_params: ParamsV, req: ParamsV, registered: Option<Seq<char>>)
    ensures
        action == "drain_gpu"@ ==> plan_spec(action, desc, step_params, req, registered) == StepPlanV::Record(
            "drain_gpu gpu="@ + first_given(step_value(step_params, req, "gpu_id"@), lookup(req, "gpu_id"@), Seq::empty()) + ": "@ + desc),
        action == "checkpoint_jobs"@ ==> plan_spec(action, desc, step_params, req, registered) == StepPlanV::Record(
            "checkpoint_jobs jobs=["@ + first_given(step_value(step_params, req, "job_ids"@), lookup(req, "active_job_ids"@), Seq::empty())
                + "]: "@ + desc),
        action == "notify"@ ==> plan_spec(action, desc, step_params, req, registered) == StepPlanV::Record(
            "notify event="@ + first_given(step_value(step_params, req, "event_kind"@), None, "UNSPECIFIED"@)
                + " gpu="@ + first_given(step_value(step_params, req, "gpu_id"@), lookup(req, "gpu_id"@), Seq::empty())),
        action != "shrink_communicator"@ && action != "drain_gpu"@ && action != "checkpoint_jobs"@ && action != "notify"@
            ==> plan_spec(action, desc, step_params, req, registered) == StepPlanV::Record(action + ": "@ + desc),
{
    lemma_lookup_resolved(step_params, req, "gpu_id"@);
    lemma_lookup_resolved(step_params, req, "job_ids"@);
    lemma_lookup_resolved(step_params, req, "event_kind"@);
    reveal_strlit("shrink_communicator");
    reveal_strlit("drain_gpu");
    reveal_strlit("checkpoint_jobs");
    reveal_strlit("notify");
    if action == "drain_gpu"@ {
        assert(action.len() != "shrink_communicator"@.len());
        assert(action != "shrink_communicator"@);
    }
    if action == "checkpoint_jobs"@ {
        assert(action.len() != "shrink_communicator"@.len());
        assert(action != "shrink_communicator"@);
        assert(action[0] != "drain_gpu"@[0]);
        assert(action != "drain_gpu"@);
    }
    if action == "notify"@ {
        assert(action.len() != "shrink_communicator"@.len());
        assert(action != "shrink_communicator"@);
        assert(action.len() != "drain_gpu"@.len());
        assert(action != "drain_gpu"@);
        assert(action.len() != "checkpoint_jobs"@.len());
        assert(action != "checkpoint_jobs"@);
    }
}

/// The value of the step's own parameter `k`, templates expanded against the
/// request's parameters.
pub open spec fn step_value(step_params: ParamsV, req: ParamsV, k: Seq<char>) -> Option<Seq<char>> {
    match lookup(step_params, k) {
        Some(v) => Some(expand_spec(v, req)),
        None => None,
    }
}

/// `a` when given, else `b` when given, else `d`.
pub open spec fn first_given(a: Option<Seq<char>>, b: Option<Seq<char>>, d: Seq<char>) -> Seq<char> {
    match a {
        Some(x) => x,
        None => match b {
            Some(y) => y,
            None => d,
        },
    }
}

/// The action text of a shrink step, given what the backend answered.
pub open spec fn shrink_action_text(comm: Seq<char>, ranks: Seq<u32>, outcome: Result<MetricsV, Seq<char>>) -> Seq<char> {
    match outcome {
        Ok(m) => if m.0 {
            "shrink_communicator comm="@ + comm + " exclude="@ + ranks_text(ranks) + " active_after="@ + dec(m.2 as nat)
        } else {
            "shrink_communicator FAILED: "@ + m.3
        },
        Err(e) => "shrink_communicator ERROR: "@ + e,
    }
}

fn resolve_params(step_params: &Vec<(String, String)>, req: &Vec<(String, String)>) -> (r: Vec<(String, String)>)
    ensures
        params_view(r@) == resolve_spec(params_view(step_params@), params_view(req@)),
{
    let mut r: Vec<(String, String)> = Vec::new();
    let mut i: usize = 0;
    while i < step_params.len()
        invariant
            i <= step_params@.len(),
            params_view(r@) == resolve_spec(params_view(step_params@), params_view(req@)).take(i as int),
        decreases step_params@.len() - i,
    {
        let k = step_params[i].0.clone();
        let v = expand_template(step_params[i].1.as_str(), req);
        let ghost before = r@;
        r.push((k, v));
        proof {
            let rs = resolve_spec(params_view(step_params@), params_view(req@));
            assert(r@ == before.push((k, v)));
            assert(params_view(step_params@)[i as int] == (step_params@[i as int].0@, step_params@[i as int].1@));
            assert(rs[i as int] == (k@, v@));
            assert(params_view(r@) =~= params_view(before).push((k@, v@)));
            assert(rs.take(i + 1) =~= rs.take(i as int).push(rs[i as int]));
        }
        i = i + 1;
    }
    assert(resolve_spec(params_view(step_params@), params_view(req@)).take(step_params@.len() as int)
        =~= resolve_spec(params_view(step_params@), params_view(req@)));
    r
}

fn first_of(a: Option<String>, b: Option<String>) -> (r: Option<String>)
    ensures
        opt_view(r) == or_else(opt_view(a), opt_view(b)),
{
    match a {
        Some(x) => Some(x),
        None => b,
    }
}

fn text_or(a: Option<String>, d: &str) -> (r: String)
    ensures
        r@ == or_default(opt_view(a), d@),
{
    match a {
        Some(x) => x,
        None => String::from_str(d),
    }
}

pub open spec fn opt_view(a: Option<String>) -> Option<Seq<char>> {
    match a {
        Some(y) => Some(y@),
        None => None,
    }
}

fn copy_opt(a: &Option<String>) -> (r: Option<String>)
    ensures
        opt_view(r) == opt_view(*a),
{
    match a {
        Some(x) => Some(x.clone()),
        None => None,
    }
}

fn same(s: &String, lit: &str) -> (b: bool)
    ensures
        b == (s@ == lit@),
{
    *s == String::from_str(lit)
}

/// The plan of one step (see `plan_spec`).
pub fn plan_step(step: &PlaybookStep, req: &Vec<(String, String)>, registered: &Option<String>) -> (p: StepPlan)
    ensures
        plan_view(p) == plan_spec(step.action@, step.description@, params_view(step.params@), params_view(req@), opt_view(*registered)),
{
    let res = resolve_params(&step.params, req);
    proof {
        reveal_strlit("shrink_communicator");
        reveal_strlit("drain_gpu");
        reveal_strlit("checkpoint_jobs");
        reveal_strlit("notify");
    }
    if same(&step.action, "shrink_communicator") {
        let comm = first_of(first_of(get_param(&res, "comm_id"), get_param(req, "comm_id")), copy_opt(registered));
        let comm_id = text_or(comm, "");
        let job_id = text_or(get_param(req, "job_id"), "");
        let exclude_ranks = match get_param(&res, "exclude_ranks") {
            Some(t) => parse_ranks(t.as_str()),
            None => Vec::new(),
        };
        proof {
            reveal_strlit("");
        }
        let ghost res_v = resolve_spec(params_view(step.params@), params_view(req@));
        assert(comm_id@ == or_default(or_else(or_else(lookup(res_v, "comm_id"@), lookup(params_view(req@), "comm_id"@)), opt_view(*registered)), Seq::<char>::empty()));
        assert(job_id@ == or_default(lookup(params_view(req@), "job_id"@), Seq::<char>::empty()));
        assert(exclude_ranks@ == match lookup(res_v, "exclude_ranks"@) {
            Some(t) => parse_ranks_spec(t),
            None => Seq::<u32>::empty(),
        });
        let p = StepPlan::Shrink { comm_id, job_id, exclude_ranks };
        assert(plan_view(p) == plan_spec(step.action@, step.description@, params_view(step.params@), params_view(req@), opt_view(*registered)));
        p
    } else if same(&step.action, "drain_gpu") {
        let gpu = text_or(first_of(get_param(&res, "gpu_id"), get_param(req, "gpu_id")), "");
        let mut v: Vec<char> = Vec::new();
        push_str(&mut v, "drain_gpu gpu=");
        push_str(&mut v, gpu.as_str());
        push_str(&mut v, ": ");
        push_str(&mut v, step.description.as_str());
        proof {
            reveal_strlit("");
        }
        assert(v@ =~= "drain_gpu gpu="@ + gpu@ + ": "@ + step.description@);
        let p = StepPlan::Record(string_from_chars(&v));
        assert(plan_view(p) == plan_spec(step.action@, step.description@, params_view(step.params@), params_view(req@), opt_view(*registered)));
        p
    } else if same(&step.action, "checkpoint_jobs") {
        let jobs = text_or(first_of(get_param(&res, "job_ids"), get_param(req, "active_job_ids")), "");
        let mut v: Vec<char> = Vec::new();
        push_str(&mut v, "checkpoint_jobs jobs=[");
        push_str(&mut v, jobs.as_str());
        push_str(&mut v, "]: ");
        push_str(&mut v, step.description.as_str());
        proof {
            reveal_strlit("");
        }
        assert(v@ =~= "checkpoint_jobs jobs=["@ + jobs@ + "]: "@ + step.description@);
        let p = StepPlan::Record(string_from_chars(&v));
        assert(plan_view(p) == plan_spec(step.action@, step.description@, params_view(step.params@), params_view(req@), opt_view(*registered)));
        p
    } else if same(&step.action, "notify") {
        let kind = text_or(get_param(&res, "event_kind"), "UNSPECIFIED");
        let gpu = text_or(first_of(get_param(&res, "gpu_id"), get_param(req, "gpu_id")), "");
        let mut v: Vec<char> = Vec::new();
        push_str(&mut v, "notify event=");
        push_str(&mut v, kind.as_str());
        push_str(&mut v, " gpu=");
        push_str(&mut v, gpu.as_str());
        proof {
            reveal_strlit("");
        }
        assert(v@ =~= "notify event="@ + kind@ + " gpu="@ + gpu@);
        let p = StepPlan::Record(string_from_chars(&v));
        assert(plan_view(p) == plan_spec(step.action@, step.description@, params_view(step.params@), params_view(req@), opt_view(*registered)));
        p
    } else {
        let mut v: Vec<char> = Vec::new();
        push_str(&mut v, step.action.as_str());
        push_str(&mut v, ": ");
        push_str(&mut v, step.description.as_str());
        assert(v@ =~= step.action@ + ": "@ + step.description@);
        let p = StepPlan::Record(string_from_chars(&v));
        assert(plan_view(p) == plan_spec(step.action@, step.description@, params_view(step.params@), params_view(req@), opt_view(*registered)));
        p
    }
}

/// The action text of a shrink step (see `shrink_action_text`).
pub fn shrink_action(comm_id: &str, exclude_ranks: &Vec<u32>, outcome: &Result<ShrinkMetrics, String>) -> (t: String)
    ensures
        t@ == shrink_action_text(comm_id@, exclude_ranks@, match outcome {
            Ok(m) => Ok(shrink_view(*m)),
            Err(e) => Err(e@),
        }),
{
    let mut v: Vec<char> = Vec::new();
    match outcome {
        Ok(m) => {
            if m.success {
                push_str(&mut v, "shrink_communicator comm=");
                push_str(&mut v, comm_id);
                push_str(&mut v, " exclude=");
                push_ranks(&mut v, exclude_ranks);
                push_str(&mut v, " active_after=");
                push_decimal(&mut v, m.active_rank_count as u64);
                assert(v@ =~= "shrink_communicator comm="@ + comm_id@ + " exclude="@ + ranks_text(exclude_ranks@) + " active_after="@ + dec(m.active_rank_count as nat));
            } else {
                push_str(&mut v, "shrink_communicator FAILED: ");
                push_str(&mut v, m.error.as_str());
                assert(v@ =~= "shrink_communicator FAILED: "@ + m.error@);
            }
        },
        Err(e) => {
            push_str(&mut v, "shrink_communicator ERROR: ");
            push_str(&mut v, e.as_str());
            assert(v@ =~= "shrink_communicator ERROR: "@ + e@);
        },
    }
    string_from_chars(&v)
}

/// The plans of `steps` under the request parameters and the registered
/// communicator id.
pub open spec fn step_plans(steps: Seq<PlaybookStep>, params: Seq<(String, String)>, registered: Option<String>) -> Seq<StepPlanV> {
    Seq::new(steps.len(), |i: int| plan_spec(
        steps[i].action@, steps[i].description@, params_view(steps[i].params@), params_view(params), opt_view(registered),
    ))
}

/// How many of the first `i` plans shrink.
pub open spec fn shrinks_before(plans: Seq<StepPlanV>, i: int) -> nat
    decreases i,
{
    if i <= 0 {
        0
    } else {
        shrinks_before(plans, i - 1) + if plans[i - 1] is Shrink { 1nat } else { 0nat }
    }
}

/// The action text of step `i` of `plans`, given the shrinks `calls` that the
/// steps made (request and answer, in step order): a recorded text as it is,
/// a shrink's text from that step's own call, which carried its request.
pub open spec fn step_action(plans: Seq<StepPlanV>, calls: Seq<(ShrinkRequestV, Result<MetricsV, Seq<char>>)>, i: int, text: Seq<char>) -> bool {
    match plans[i] {
        StepPlanV::Record(t) => text == t,
        StepPlanV::Shrink(comm, job, ranks) => {
            let call = calls[shrinks_before(plans, i) as int];
            &&& call.0 == (comm, job, ranks)
            &&& text == shrink_action_text(comm, ranks, call.1)
        },
    }
}

/// Run the steps in order against `backend` and return one action text per
/// step. Each shrink step sends its request to `backend` once, in step
/// order, and its text reports that call's answer; no other shrink is sent.
pub fn run_playbook<B: NcclBackend>(
    backend: &mut B,
    steps: &Vec<PlaybookStep>,
    params: &Vec<(String, String)>,
    registered: &Option<String>,
) -> (actions: Vec<String>)
    ensures
        actions@.len() == steps@.len(),
        ({
            let plans = step_plans(steps@, params@, *registered);
            let before = old(backend).shrink_history();
            let calls = final(backend).shrink_history().skip(before.len() as int);
            &&& final(backend).shrink_history() == before + calls
            &&& calls.len() == shrinks_before(plans, plans.len() as int)
            &&& forall|i: int| 0 <= i < steps@.len() ==> step_action(plans, calls, i, #[trigger] actions@[i]@)
        }),
{
    let ghost plans = step_plans(steps@, params@, *registered);
    let ghost before = backend.shrink_history();
    let mut actions: Vec<String> = Vec::new();
    let mut i: usize = 0;
    while i < steps.len()
        invariant
            i <= steps@.len(),
            actions@.len() == i,
            plans == step_plans(steps@, params@, *registered),
            before == old(backend).shrink_history(),
            backend.shrink_history().len() == before.len() + shrinks_before(plans, i as int),
            backend.shrink_history().take(before.len() as int) == before,
            forall|j: int| 0 <= j < i ==> step_action(
                plans,
                backend.shrink_history().skip(before.len() as int),
                j,
                #[trigger] actions@[j]@,
            ),
        decreases steps@.len() - i,
    {
        let plan = plan_step(&steps[i], params, registered);
        let ghost pv = plan_view(plan);
        assert(pv == plans[i as int]);
        let ghost h0 = backend.shrink_history();
        let text = match plan {
            StepPlan::Record(t) => t,
            StepPlan::Shrink { comm_id, job_id, exclude_ranks } => {
                let req = ShrinkRequest { communicator_id: comm_id.clone(), job_id, exclude_ranks };
                let outcome = backend.shrink(&req);
                let t = shrink_action(comm_id.as_str(), &req.exclude_ranks, &outcome);
                assert(pv == StepPlanV::Shrink(comm_id@, req.job_id@, req.exclude_ranks@));
                assert(backend.shrink_history() == h0.push((shrink_request_view(req), shrink_outcome_view(outcome))));
                assert(t@ == shrink_action_text(comm_id@, req.exclude_ranks@, shrink_outcome_view(outcome)));
                t
            },
        };
        proof {
            let h1 = backend.shrink_history();
            assert(h1.take(before.len() as int) =~= before) by {
                assert forall|k: int| 0 <= k < before.len() implies h1[k] == before[k] by {
                    assert(h1[k] == h0[k]);
                    assert(h0.take(before.len() as int)[k] == h0[k]);
                }
            }
            assert forall|j: int| 0 <= j < i implies step_action(plans, h1.skip(before.len() as int), j, #[trigger] actions@[j]@) by {
                assert(step_action(plans, h0.skip(before.len() as int), j, actions@[j]@));
                if plans[j] is Shrink {
                    let k = shrinks_before(plans, j) as int;
                    lemma_shrinks_before_mono(plans, j + 1, i as int);
                    assert(h1.skip(before.len() as int)[k] == h0.skip(before.len() as int)[k]);
                }
            }
            assert(step_action(plans, h1.skip(before.len() as int), i as int, text@));
        }
        actions.push(text);
        i = i + 1;
    }
    proof {
        let h = backend.shrink_history();
        assert(h =~= before + h.skip(before.len() as int));
    }
    actions
}

proof fn lemma_shrinks_before_mono(plans: Seq<StepPlanV>, a: int, b: int)
    requires
        0 <= a <= b,
    ensures
        shrinks_before(plans, a) <= shrinks_before(plans, b),
    decreases b - a,
{
    if a < b {
        lemma_shrinks_before_mono(plans, a, b - 1);
    }
}

// ---------------------------------------------------------------------------
// Playbook library listing
// ---------------------------------------------------------------------------

/// One entry of the playbook library.
pub struct PlaybookInfo {
    pub name: String,
    pub description: String,
    pub trigger: String,
}

/// `a` comes no later than `b` in the lexicographic order of characters
/// (the order of `String`'s `Ord`).
pub open spec fn name_le(a: Seq<char>, b: Seq<char>) -> bool
    decreases a.len(),
{
    if a.len() == 0 {
        true
    } else if b.len() == 0 {
        false
    } else if a[0] != b[0] {
        a[0] < b[0]
    } else {
        name_le(a.drop_first(), b.drop_first())
    }
}

pub proof fn lemma_name_le_refl(a: Seq<char>)
    ensures
        name_le(a, a),
    decreases a.len(),
{
    if a.len() > 0 {
        lemma_name_le_refl(a.drop_first());
    }
}

/// Selects the library entries named `n`.
pub open spec fn named(n: Seq<char>) -> spec_fn(PlaybookInfo) -> bool {
    |p: PlaybookInfo| p.name@ == n
}

proof fn lemma_filter_none<A>(s: Seq<A>, pred: spec_fn(A) -> bool)
    requires
        forall|i: int| 0 <= i < s.len() ==> !pred(#[trigger] s[i]),
    ensures
        s.filter(pred) == Seq::<A>::empty(),
    decreases s.len(),
{
    reveal(Seq::filter);
    if s.len() > 0 {
        assert(!pred(s[s.len() - 1]));
        assert forall|i: int| 0 <= i < s.drop_last().len() implies !pred(#[trigger] s.drop_last()[i]) by {
            assert(s.drop_last()[i] == s[i]);
        }
        lemma_filter_none(s.drop_last(), pred);
    }
}

pub proof fn lemma_name_le_total(a: Seq<char>, b: Seq<char>)
    ensures
        name_le(a, b) || name_le(b, a),
    decreases a.len(),
{
    if a.len() > 0 && b.len() > 0 && a[0] == b[0] {
        lemma_name_le_total(a.drop_first(), b.drop_first());
    }
}

pub proof fn lemma_name_le_trans(a: Seq<char>, b: Seq<char>, c: Seq<char>)
    requires
        name_le(a, b),
        name_le(b, c),
    ensures
        name_le(a, c),
    decreases a.len(),
{
    if a.len() > 0 && b.len() > 0 && c.len() > 0 && a[0] == b[0] && b[0] == c[0] {
        lemma_name_le_trans(a.drop_first(), b.drop_first(), c.drop_first());
    }
}

/// Names are ordered lexicographically by character: `a` comes no later than
/// `b` exactly when `a` is a prefix of `b`, or at the first position where
/// they differ `a`'s character is the smaller.
pub proof fn lemma_name_le_lexicographic(a: Seq<char>, b: Seq<char>)
    ensures
        name_le(a, b) <==> (a.is_prefix_of(b) || exists|k: int| 0 <= k < a.len() && k < b.len() && a[k] < b[k]
            && forall|i: int| 0 <= i < k ==> #[trigger] a[i] == b[i]),
    decreases a.len(),
{
    if a.len() == 0 {
    } else if b.len() == 0 {
    } else if a[0] != b[0] {
        if a[0] < b[0] {
            assert(forall|i: int| 0 <= i < 0 ==> #[trigger] a[i] == b[i]);
        } else {
            if exists|k: int| 0 <= k < a.len() && k < b.len() && a[k] < b[k]
                && forall|i: int| 0 <= i < k ==> #[trigger] a[i] == b[i] {
                let k = choose|k: int| 0 <= k < a.len() && k < b.len() && a[k] < b[k]
                    && forall|i: int| 0 <= i < k ==> #[trigger] a[i] == b[i];
                if k > 0 {
                    assert(a[0] == b[0]);
                }
            }
        }
    } else {
        let a1 = a.drop_first();
        let b1 = b.drop_first();
        lemma_name_le_lexicographic(a1, b1);
        assert(a.is_prefix_of(b) <==> a1.is_prefix_of(b1)) by {
            if a1.is_prefix_of(b1) {
                assert forall|i: int| 0 <= i < a.len() implies a[i] == b[i] by {
                    if i > 0 {
                        assert(a[i] == a1[i - 1] && b[i] == b1[i - 1]);
                    }
                }
            }
            if a.is_prefix_of(b) {
                assert forall|i: int| 0 <= i < a1.len() implies a1[i] == b1[i] by {
                    assert(a[i + 1] == b[i + 1]);
                }
            }
        }
        if exists|k: int| 0 <= k < a1.len() && k < b1.len() && a1[k] < b1[k]
            && forall|i: int| 0 <= i < k ==> #[trigger] a1[i] == b1[i] {
            let k = choose|k: int| 0 <= k < a1.len() && k < b1.len() && a1[k] < b1[k]
                && forall|i: int| 0 <= i < k ==> #[trigger] a1[i] == b1[i];
            assert forall|i: int| 0 <= i < k + 1 implies #[trigger] a[i] == b[i] by {
                if i > 0 {
                    assert(a[i] == a1[i - 1] && b[i] == b1[i - 1]);
                }
            }
            assert(a[k + 1] == a1[k] && b[k + 1] == b1[k]);
        }
        if exists|k: int| 0 <= k < a.len() && k < b.len() && a[k] < b[k]
            && forall|i: int| 0 <= i < k ==> #[trigger] a[i] == b[i] {
            let k = choose|k: int| 0 <= k < a.len() && k < b.len() && a[k] < b[k]
                && forall|i: int| 0 <= i < k ==> #[trigger] a[i] == b[i];
            assert(k > 0);
            assert forall|i: int| 0 <= i < k - 1 implies #[trigger] a1[i] == b1[i] by {
                assert(a[i + 1] == b[i + 1]);
            }
            assert(a1[k - 1] == a[k] && b1[k - 1] == b[k]);
        }
    }
}

pub open spec fn info_names(v: Seq<PlaybookInfo>) -> Seq<Seq<char>> {
    v.map_values(|p: PlaybookInfo| p.name@)
}

/// Names in non-decreasing order.
pub open spec fn names_sorted(ns: Seq<Seq<char>>) -> bool {
    forall|i: int, j: int| 0 <= i < j < ns.len() ==> name_le(#[trigger] ns[i], #[trigger] ns[j])
}

fn name_le_exec(a: &String, b: &String) -> (r: bool)
    ensures
        r == name_le(a@, b@),
{
    let x = chars_of(a.as_str());
    let y = chars_of(b.as_str());
    let mut i: usize = 0;
    assert(x@.skip(0) =~= x@);
    assert(y@.skip(0) =~= y@);
    while i < x.len() && i < y.len() && x[i] == y[i]
        invariant
            i <= x@.len(),
            i <= y@.len(),
            name_le(a@, b@) == name_le(x@.skip(i as int), y@.skip(i as int)),
            x@ == a@,
            y@ == b@,
        decreases x@.len() - i,
    {
        assert(x@.skip(i as int).drop_first() =~= x@.skip(i + 1));
        assert(y@.skip(i as int).drop_first() =~= y@.skip(i + 1));
        i = i + 1;
    }
    if i == x.len() {
        true
    } else if i == y.len() {
        false
    } else {
        assert(x@.skip(i as int)[0] == x@[i as int]);
        assert(y@.skip(i as int)[0] == y@[i as int]);
        x[i] < y[i]
    }
}

/// Sort the library by name, keeping the given order among equal names:
/// the entries of each name come out in the order they came in.
pub fn sort_playbooks(v: Vec<PlaybookInfo>) -> (r: Vec<PlaybookInfo>)
    ensures
        r@.to_multiset() == v@.to_multiset(),
        names_sorted(info_names(r@)),
        forall|n: Seq<char>| #[trigger] r@.filter(named(n)) == v@.filter(named(n)),
{
    broadcast use vstd::seq_lib::to_multiset_insert;
    let mut out: Vec<PlaybookInfo> = Vec::new();
    let mut rest = v;
    let ghost orig = rest@;
    // Take items from the front of `rest` one at a time.
    let mut src: Vec<PlaybookInfo> = Vec::new();
    let mut k: usize = rest.len();
    while k > 0
        invariant
            k == rest@.len(),
            rest@ + src@.reverse() == orig,
        decreases k,
    {
        let item = rest.pop().unwrap();
        src.push(item);
        k = k - 1;
        proof {
            assert(rest@ + src@.reverse() =~= orig);
        }
    }
    assert(src@.reverse() =~= orig);
    // `src` holds the items last-first; insert them in their given order.
    let n = src.len();
    let mut i: usize = 0;
    assert(out@.to_multiset() =~= src@.reverse().take(0).to_multiset()) by {
        assert(src@.reverse().take(0) =~= Seq::<PlaybookInfo>::empty());
        assert(out@ =~= Seq::<PlaybookInfo>::empty());
    }
    while i < n
        invariant
            n == src@.len() + i,
            src@.reverse() == orig.skip(i as int),
            out@.to_multiset() == orig.take(i as int).to_multiset(),
            names_sorted(info_names(out@)),
            forall|n: Seq<char>| #[trigger] out@.filter(named(n)) == orig.take(i as int).filter(named(n)),
            i <= orig.len(),
            orig.len() == n,
        decreases n - i,
    {
        let ghost src_old = src@;
        let item = src.pop().unwrap();
        let ghost x = item;
        assert(src@ == src_old.drop_last());
        assert(x == src_old.last());
        assert(src_old.reverse()[0] == src_old.last());
        assert(x == orig[i as int]) by {
            assert(orig.skip(i as int)[0] == orig[i as int]);
        }
        assert(src@.reverse() =~= src_old.reverse().drop_first());
        let mut p = out.len();
        while p > 0 && !name_le_exec(&out[p - 1].name, &item.name)
            invariant
                p <= out@.len(),
                forall|q: int| p <= q < out@.len() ==> !name_le((#[trigger] out@[q]).name@, item.name@),
            decreases p,
        {
            p = p - 1;
        }
        let ghost before = out@;
        out.insert(p, item);
        proof {
            let ns = info_names(out@);
            assert(out@ == before.insert(p as int, x));
            assert forall|a: int, b: int| 0 <= a < b < ns.len() implies name_le(#[trigger] ns[a], #[trigger] ns[b]) by {
                let bn = info_names(before);
                if a < p && b < p {
                    assert(ns[a] == bn[a] && ns[b] == bn[b]);
                } else if a < p && b == p {
                    assert(ns[a] == bn[a]);
                    assert(name_le(before[p - 1].name@, x.name@));
                    if a < p - 1 {
                        assert(name_le(bn[a], bn[p - 1]));
                        lemma_name_le_trans(bn[a], bn[p - 1], x.name@);
                    }
                } else if a < p && b > p {
                    assert(ns[a] == bn[a] && ns[b] == bn[b - 1]);
                } else if a == p {
                    assert(ns[b] == bn[b - 1]);
                    assert(!name_le(before[b - 1].name@, x.name@));
                    lemma_name_le_total(before[b - 1].name@, x.name@);
                } else {
                    assert(ns[a] == bn[a - 1] && ns[b] == bn[b - 1]);
                }
            }
            assert(orig.take(i + 1) =~= orig.take(i as int).push(x));
            vstd::seq_lib::to_multiset_build(orig.take(i as int), x);
            lemma_name_le_refl(x.name@);
            let head = before.take(p as int);
            let tail = before.skip(p as int);
            assert(before =~= head + tail);
            assert(out@ =~= head + seq![x] + tail);
            assert forall|n: Seq<char>| #[trigger] out@.filter(named(n)) == orig.take(i + 1).filter(named(n)) by {
                reveal(Seq::filter);
                let f = named(n);
                Seq::filter_distributes_over_add(head, tail, f);
                Seq::filter_distributes_over_add(head + seq![x], tail, f);
                Seq::filter_distributes_over_add(head, seq![x], f);
                assert(seq![x].drop_last() =~= Seq::<PlaybookInfo>::empty());
                assert(Seq::<PlaybookInfo>::empty().filter(f) =~= Seq::<PlaybookInfo>::empty());
                assert(seq![x].last() == x);
                assert(seq![x].filter(f) == (if f(x) { seq![x] } else { Seq::<PlaybookInfo>::empty() }));
                assert(out@.filter(f) == head.filter(f) + seq![x].filter(f) + tail.filter(f));
                assert(before.filter(f) == head.filter(f) + tail.filter(f));
                assert(orig.take(i + 1).filter(f) == (if f(x) { orig.take(i as int).filter(f).push(x) } else { orig.take(i as int).filter(f) })) by {
                    assert(orig.take(i + 1).drop_last() =~= orig.take(i as int));
                    assert(orig.take(i + 1).last() == x);
                }
                assert(orig.take(i as int).filter(f) == before.filter(f));
                if n == x.name@ {
                    assert forall|q: int| 0 <= q < tail.len() implies !f(#[trigger] tail[q]) by {
                        assert(tail[q] == before[p + q]);
                        assert(!name_le(before[p + q].name@, x.name@));
                    }
                    lemma_filter_none(tail, f);
                    assert(out@.filter(f) =~= head.filter(f).push(x));
                    assert(before.filter(f) =~= head.filter(f));
                } else {
                    assert(out@.filter(f) =~= head.filter(f) + tail.filter(f));
                }
            }
            vstd::seq_lib::to_multiset_insert(before, p as int, x);
            assert(orig.skip(i as int).drop_first() =~= orig.skip(i + 1));
        }
        i = i + 1;
    }
    assert(orig.take(n as int) =~= orig);
    out
}

// ---------------------------------------------------------------------------
// Job registry
// ---------------------------------------------------------------------------

/// `s` is a UUID in lowercase hyphenated form: 36 characters, hyphens at
/// positions 8, 13, 18 and 23, version digit `4` at position 14, and
/// lowercase hexadecimal digits elsewhere.
pub open spec fn uuid_v4_text(s: Seq<char>) -> bool {
    &&& s.len() == 36
    &&& forall|i: int| 0 <= i < 36 ==> {
        let c = #[trigger] s[i];
        if i == 8 || i == 13 || i == 18 || i == 23 {
            c == '-'
        } else if i == 14 {
            c == '4'
        } else {
            ('0' <= c <= '9') || ('a' <= c <= 'f')
        }
    }
}

/// Calls `uuid::Uuid::new_v4` and renders it with `to_string` (its
/// `Display`, the lowercase hyphenated form). The value is random; only its
/// shape is stated. `new_v4` panics if the operating system's random source
/// fails.
#[verifier::external_body]
fn new_communicator_id() -> (s: String)
    ensures
        uuid_v4_text(s@),
{
    uuid::Uuid::new_v4().to_string()
}

/// (job id, communicator id, world size) entries as plain values.
pub type JobsV = Seq<(Seq<char>, Seq<char>, u32)>;

/// The communicator id and world size registered for job `j`.
pub open spec fn job_entry(es: JobsV, j: Seq<char>) -> Option<(Seq<char>, u32)> {
    if exists|i: int| 0 <= i < es.len() && (#[trigger] es[i]).0 == j {
        let i = choose|i: int| 0 <= i < es.len() && (#[trigger] es[i]).0 == j;
        Some((es[i].1, es[i].2))
    } else {
        None
    }
}

pub open spec fn keys_unique(es: JobsV) -> bool {
    forall|a: int, b: int| 0 <= a < b < es.len() ==> (#[trigger] es[a]).0 != (#[trigger] es[b]).0
}

/// Entries kept in place, and no new entry under another key, leave every
/// other job's entry as it was.
proof fn lemma_other_jobs_kept(oe: JobsV, ne: JobsV, key: Seq<char>)
    requires
        keys_unique(oe),
        keys_unique(ne),
        forall|k: int| 0 <= k < oe.len() && (#[trigger] oe[k]).0 != key ==> k < ne.len() && ne[k] == oe[k],
        forall|k: int| 0 <= k < ne.len() && (#[trigger] ne[k]).0 != key ==> k < oe.len() && ne[k] == oe[k],
    ensures
        forall|j: Seq<char>| j != key ==> #[trigger] job_entry(ne, j) == job_entry(oe, j),
{
    assert forall|j: Seq<char>| j != key implies #[trigger] job_entry(ne, j) == job_entry(oe, j) by {
        if exists|k: int| 0 <= k < oe.len() && (#[trigger] oe[k]).0 == j {
            let k = choose|k: int| 0 <= k < oe.len() && (#[trigger] oe[k]).0 == j;
            assert(ne[k] == oe[k]);
            lemma_job_entry(oe, k);
            lemma_job_entry(ne, k);
        } else {
            assert forall|k: int| 0 <= k < ne.len() implies (#[trigger] ne[k]).0 != j by {
                if ne[k].0 == j {
                    assert(ne[k] == oe[k]);
                }
            }
        }
    }
}

proof fn lemma_job_entry(es: JobsV, i: int)
    requires
        0 <= i < es.len(),
        keys_unique(es),
    ensures
        job_entry(es, es[i].0) == Some((es[i].1, es[i].2)),
{
    let k = choose|k: int| 0 <= k < es.len() && (#[trigger] es[k]).0 == es[i].0;
    if k < i {
        assert(es[k].0 != es[i].0);
    } else if i < k {
        assert(es[i].0 != es[k].0);
    }
}

/// Training jobs and the communicators registered for them.
pub struct JobRegistry {
    jobs: Vec<(String, String, u32)>,
}

impl JobRegistry {
    pub closed spec fn entries(&self) -> JobsV {
        self.jobs@.map_values(|e: (String, String, u32)| (e.0@, e.1@, e.2))
    }

    /// The communicator id and world size registered for job `j`.
    pub open spec fn job(&self, j: Seq<char>) -> Option<(Seq<char>, u32)> {
        job_entry(self.entries(), j)
    }

    pub open spec fn wf(&self) -> bool {
        keys_unique(self.entries())
    }

    /// No registered job.
    pub fn new() -> (r: Self)
        ensures
            r.wf(),
            forall|j: Seq<char>| r.job(j) is None,
    {
        let r = JobRegistry { jobs: Vec::new() };
        assert(r.entries() =~= Seq::<(Seq<char>, Seq<char>, u32)>::empty());
        r
    }

    /// Register job `job_id` with a fresh communicator id, replacing an
    /// earlier registration of the same job; returns the id.
    pub fn register_job(&mut self, job_id: &str, world_size: u32) -> (comm_id: String)
        requires
            old(self).wf(),
        ensures
            final(self).wf(),
            uuid_v4_text(comm_id@),
            final(self).job(job_id@) == Some((comm_id@, world_size)),
            forall|j: Seq<char>| j != job_id@ ==> #[trigger] final(self).job(j) == old(self).job(j),
    {
        let comm_id = new_communicator_id();
        let key = String::from_str(job_id);
        let ghost oe = self.entries();
        let found = self.index_of(job_id);
        let i: usize = match found {
            Some(k) => k,
            None => self.jobs.len(),
        };
        let entry = (key, comm_id.clone(), world_size);
        if i < self.jobs.len() {
            assert(oe[i as int].0 == job_id@);
            self.jobs.set(i, entry);
            proof {
                let ne = self.entries();
                assert(ne =~= oe.update(i as int, (job_id@, comm_id@, world_size)));
                assert forall|a: int, b: int| 0 <= a < b < ne.len() implies (#[trigger] ne[a]).0 != (#[trigger] ne[b]).0 by {
                    if a == i {
                        assert(oe[i as int].0 != oe[b].0);
                    } else if b == i {
                        assert(oe[a].0 != oe[i as int].0);
                    } else {
                        assert(ne[a] == oe[a] && ne[b] == oe[b]);
                    }
                }
                lemma_job_entry(ne, i as int);
                assert forall|k: int| 0 <= k < ne.len() && (#[trigger] ne[k]).0 != job_id@ implies ne[k] == oe[k] by {
                    assert(k != i);
                }
                lemma_other_jobs_kept(oe, ne, job_id@);
            }
        } else {
            self.jobs.push(entry);
            proof {
                let ne = self.entries();
                assert(ne =~= oe.push((job_id@, comm_id@, world_size)));
                assert forall|a: int, b: int| 0 <= a < b < ne.len() implies (#[trigger] ne[a]).0 != (#[trigger] ne[b]).0 by {
                    if b == oe.len() {
                        assert(ne[a] == oe[a]);
                    } else {
                        assert(ne[a] == oe[a] && ne[b] == oe[b]);
                    }
                }
                lemma_job_entry(ne, oe.len() as int);
                assert forall|k: int| 0 <= k < ne.len() && (#[trigger] ne[k]).0 != job_id@ implies k < oe.len() && ne[k] == oe[k] by {
                    if k < oe.len() {
                        assert(ne[k] == oe[k]);
                    }
                }
                lemma_other_jobs_kept(oe, ne, job_id@);
            }
        }
        comm_id
    }

    fn index_of(&self, job_id: &str) -> (r: Option<usize>)
        ensures
            match r {
                Some(i) => i < self.entries().len() && self.entries()[i as int].0 == job_id@,
                None => forall|k: int| 0 <= k < self.entries().len() ==> (#[trigger] self.entries()[k]).0 != job_id@,
            },
    {
        let key = String::from_str(job_id);
        let mut i: usize = 0;
        while i < self.jobs.len()
            invariant
                i <= self.jobs@.len(),
                key@ == job_id@,
                forall|k: int| 0 <= k < i ==> (#[trigger] self.entries()[k]).0 != job_id@,
            decreases self.jobs@.len() - i,
        {
            if self.jobs[i].0 == key {
                return Some(i);
            }
            i = i + 1;
        }
        None
    }

    /// The communicator registered for `job_id`.
    pub fn communicator_of(&self, job_id: &str) -> (r: Option<String>)
        requires
            self.wf(),
        ensures
            match self.job(job_id@) {
                Some(e) => r matches Some(c) && c@ == e.0,
                None => r is None,
            },
    {
        let key = String::from_str(job_id);
        let mut i: usize = 0;
        while i < self.jobs.len()
            invariant
                self.wf(),
                i <= self.jobs@.len(),
                key@ == job_id@,
                forall|k: int| 0 <= k < i ==> (#[trigger] self.entries()[k]).0 != job_id@,
            decreases self.jobs@.len() - i,
        {
            if self.jobs[i].0 == key {
                proof {
                    lemma_job_entry(self.entries(), i as int);
                }
                return Some(self.jobs[i].1.clone());
            }
            i = i + 1;
        }
        None
    }
}

} // verus!
