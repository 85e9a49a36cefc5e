//! NCCL communicator management: the backend interface, the deterministic
//! simulated backend, and the decisions of the hardware backend's shrink
//! protocol.
//!
//! A backend shrinks a communicator by excluding ranks and expands it by
//! admitting GPUs. On success `active_rank_count` is the previous count minus
//! the excluded ranks (plus the admitted GPUs for an expand), `duration_ns` is
//! positive and `error` is empty; a failure carries a non-empty `error`.

use vstd::prelude::*;
use crate::text::{dec, push_decimal, push_str, string_from_chars};

verus! {

/// Outcome of a communicator shrink.
#[derive(Debug, Clone)]
pub struct ShrinkMetrics {
    /// Whether the shrink succeeded.
    pub success: bool,
    /// Duration of the whole operation in nanoseconds.
    pub duration_ns: u64,
    /// Number of ranks that remain active afterwards.
    pub active_rank_count: u32,
    /// Human-readable error; empty on success.
    pub error: String,
}

/// Outcome of a communicator expand.
#[derive(Debug, Clone)]
pub struct ExpandMetrics {
    /// Whether the expand succeeded.
    pub success: bool,
    /// Duration of the whole operation in nanoseconds.
    pub duration_ns: u64,
    /// Number of ranks active afterwards.
    pub active_rank_count: u32,
    /// Human-readable error; empty on success.
    pub error: String,
}

/// Request to drop ranks from a communicator.
#[derive(Debug, Clone)]
pub struct ShrinkRequest {
    pub communicator_id: String,
    pub job_id: String,
    pub exclude_ranks: Vec<u32>,
}

/// Request to admit GPUs into a communicator.
#[derive(Debug, Clone)]
pub struct ExpandRequest {
    pub communicator_id: String,
    pub job_id: String,
    pub new_gpu_ids: Vec<String>,
}

/// Metrics as plain values: (success, duration_ns, active_rank_count, error).
pub type MetricsV = (bool, u64, u32, Seq<char>);

pub open spec fn shrink_view(m: ShrinkMetrics) -> MetricsV {
    (m.success, m.duration_ns, m.active_rank_count, m.error@)
}

pub open spec fn expand_view(m: ExpandMetrics) -> MetricsV {
    (m.success, m.duration_ns, m.active_rank_count, m.error@)
}

/// A shrink request as plain values: (communicator_id, job_id, exclude_ranks).
pub type ShrinkRequestV = (Seq<char>, Seq<char>, Seq<u32>);

pub open spec fn shrink_request_view(r: ShrinkRequest) -> ShrinkRequestV {
    (r.communicator_id@, r.job_id@, r.exclude_ranks@)
}

/// The answer of a shrink as plain values.
pub open spec fn shrink_outcome_view(r: Result<ShrinkMetrics, String>) -> Result<MetricsV, Seq<char>> {
    match r {
        Ok(m) => Ok(shrink_view(m)),
        Err(e) => Err(e@),
    }
}

/// Communicator operations shared by the simulated and hardware backends.
pub trait NcclBackend {
    /// The number of ranks the communicator holds.
    spec fn ranks(&self) -> nat;

    /// Every shrink this backend has served, oldest first: the request and
    /// the answer it gave.
    spec fn shrink_history(&self) -> Seq<(ShrinkRequestV, Result<MetricsV, Seq<char>>)>;

    /// Shrink the communicator by excluding `req.exclude_ranks`.
    fn shrink(&mut self, req: &ShrinkRequest) -> (r: Result<ShrinkMetrics, String>)
        ensures
            final(self).shrink_history() == old(self).shrink_history().push(
                (shrink_request_view(*req), shrink_outcome_view(r)),
            ),
            r matches Ok(m) ==> {
                &&& m.success ==> {
                    &&& old(self).ranks() >= req.exclude_ranks@.len()
                    &&& m.active_rank_count == old(self).ranks() - req.exclude_ranks@.len()
                    &&& final(self).ranks() == m.active_rank_count
                    &&& m.duration_ns > 0
                    &&& m.error@.len() == 0
                }
                &&& !m.success ==> {
                    &&& m.error@.len() > 0
                    &&& m.active_rank_count == old(self).ranks()
                    &&& final(self).ranks() == old(self).ranks()
                }
            },
    ;

    /// Expand the communicator by admitting `req.new_gpu_ids`.
    fn expand(&mut self, req: &ExpandRequest) -> (r: Result<ExpandMetrics, String>)
        ensures
            final(self).shrink_history() == old(self).shrink_history(),
            r matches Ok(m) ==> {
                &&& m.success ==> {
                    &&& old(self).ranks() + req.new_gpu_ids@.len() <= u32::MAX
                        ==> m.active_rank_count == old(self).ranks() + req.new_gpu_ids@.len()
                    &&& final(self).ranks() == m.active_rank_count
                    &&& m.duration_ns > 0
                    &&& m.error@.len() == 0
                }
                &&& !m.success ==> m.error@.len() > 0
            },
    ;
}

// ---------------------------------------------------------------------------
// Rank lists
// ---------------------------------------------------------------------------

/// The ranks in decimal, separated by commas.
pub open spec fn ranks_text(rs: Seq<u32>) -> Seq<char>
    decreases rs.len(),
{
    if rs.len() == 0 {
        Seq::empty()
    } else if rs.len() == 1 {
        dec(rs[0] as nat)
    } else {
        ranks_text(rs.drop_last()) + ","@ + dec(rs.last() as nat)
    }
}

/// Appends `ranks_text(ranks)` to `out`.
pub fn push_ranks(out: &mut Vec<char>, ranks: &Vec<u32>)
    ensures
        final(out)@ == old(out)@ + ranks_text(ranks@),
{
    let mut i: usize = 0;
    assert(ranks@.take(0) =~= Seq::<u32>::empty());
    while i < ranks.len()
        invariant
            i <= ranks@.len(),
            out@ == old(out)@ + ranks_text(ranks@.take(i as int)),
        decreases ranks@.len() - i,
    {
        let ghost pre = ranks@.take(i as int);
        let ghost next = ranks@.take(i + 1);
        assert(next.drop_last() =~= pre);
        if i > 0 {
            push_str(out, ",");
        }
        push_decimal(out, ranks[i] as u64);
        i = i + 1;
        proof {
            if pre.len() == 0 {
                assert(out@ =~= old(out)@ + ranks_text(next));
            } else {
                assert(out@ =~= old(out)@ + ranks_text(next));
            }
        }
    }
    assert(ranks@.take(ranks@.len() as int) =~= ranks@);
}

/// `ranks_text(ranks)` as a `String`.
pub fn join_ranks(ranks: &Vec<u32>) -> (s: String)
    ensures
        s@ == ranks_text(ranks@),
{
    let mut v: Vec<char> = Vec::new();
    push_ranks(&mut v, ranks);
    assert(v@ =~= ranks_text(ranks@));
    string_from_chars(&v)
}

// ---------------------------------------------------------------------------
// Simulated backend
// ---------------------------------------------------------------------------

/// Mean simulated latency (4 s).
pub const SHRINK_MEAN_NS: u64 = 4_000_000_000;
/// Spread of the simulated latency (0.5 s).
pub const SHRINK_SIGMA_NS: u64 = 500_000_000;
/// Floor of the simulated latency (100 ms).
pub const SHRINK_FLOOR_NS: u64 = 100_000_000;
/// Longest real sleep a caller should inject for one simulated operation (10 ms).
pub const MAX_REAL_SLEEP_NS: u64 = 10_000_000;

/// One step of Knuth's MMIX linear congruential generator.
pub open spec fn lcg_next(seed: u64) -> u64 {
    seed.wrapping_mul(6_364_136_223_846_793_005).wrapping_add(1_442_695_040_888_963_407)
}

/// The simulated latency drawn from generator state `seed`: the mean plus a
/// jitter taken from the state's upper 31 bits, at least the floor.
pub open spec fn sim_duration(seed: u64) -> u64 {
    let raw = SHRINK_MEAN_NS + (seed >> 33u64) % SHRINK_SIGMA_NS;
    if raw < SHRINK_FLOOR_NS { SHRINK_FLOOR_NS } else { raw as u64 }
}

/// A count of ranks as a `u32`, saturated at `u32::MAX`.
pub open spec fn clamp_count(n: nat) -> nat {
    if n > u32::MAX { u32::MAX as nat } else { n }
}

fn count_of(n: usize) -> (c: u32)
    ensures
        c == clamp_count(n as nat),
{
    if n > u32::MAX as usize { u32::MAX } else { n as u32 }
}

/// Every simulated latency lies within half a second above the 4 s mean
/// (so above the floor and well under 30 s).
pub proof fn lemma_sim_duration_bounds(seed: u64)
    ensures
        SHRINK_MEAN_NS <= sim_duration(seed) < SHRINK_MEAN_NS + SHRINK_SIGMA_NS,
{
}

pub open spec fn refusal_message(excluded: nat, current: nat) -> Seq<char> {
    "cannot exclude "@ + dec(excluded) + " ranks from communicator with "@ + dec(current) + " active"@
}

/// Deterministic simulated communicator: a rank count and a generator state.
pub struct NcclSim {
    active_ranks: u32,
    seed: u64,
    history: Ghost<Seq<(ShrinkRequestV, Result<MetricsV, Seq<char>>)>>,
}

impl NcclSim {
    pub closed spec fn served(&self) -> Seq<(ShrinkRequestV, Result<MetricsV, Seq<char>>)> {
        self.history@
    }

    pub closed spec fn active(&self) -> u32 {
        self.active_ranks
    }

    pub closed spec fn seed_state(&self) -> u64 {
        self.seed
    }

    /// A simulator for a communicator of `world_size` ranks; `seed` fixes the
    /// latency sequence.
    pub fn new(world_size: u32, seed: u64) -> (s: Self)
        ensures
            s.active() == world_size,
            s.seed_state() == seed,
            s.served() == Seq::<(ShrinkRequestV, Result<MetricsV, Seq<char>>)>::empty(),
    {
        NcclSim { active_ranks: world_size, seed, history: Ghost(Seq::empty()) }
    }

    /// The current rank count.
    pub fn active_rank_count(&self) -> (n: u32)
        ensures
            n == self.active(),
    {
        self.active_ranks
    }

    /// Advance the generator and return the latency it gives.
    pub fn seeded_duration_ns(&mut self) -> (d: u64)
        ensures
            final(self).seed_state() == lcg_next(old(self).seed_state()),
            final(self).active() == old(self).active(),
            final(self).served() == old(self).served(),
            d == sim_duration(final(self).seed_state()),
            d >= SHRINK_MEAN_NS,
    {
        self.seed = self.seed.wrapping_mul(6_364_136_223_846_793_005).wrapping_add(1_442_695_040_888_963_407);
        let hi: u64 = self.seed >> 33u64;
        let jitter: u64 = hi % SHRINK_SIGMA_NS;
        let raw: u64 = SHRINK_MEAN_NS + jitter;
        if raw < SHRINK_FLOOR_NS { SHRINK_FLOOR_NS } else { raw }
    }

    /// How long a caller sleeps for a simulated operation of `duration_ns`:
    /// the duration, capped at `MAX_REAL_SLEEP_NS`.
    pub fn real_sleep_ns(duration_ns: u64) -> (s: u64)
        ensures
            s == (if duration_ns < MAX_REAL_SLEEP_NS { duration_ns } else { MAX_REAL_SLEEP_NS }),
    {
        if duration_ns < MAX_REAL_SLEEP_NS { duration_ns } else { MAX_REAL_SLEEP_NS }
    }
}

/// The refusal metrics for excluding `excluded` of `current` ranks.
fn refusal(excluded: u32, current: u32) -> (m: ShrinkMetrics)
    ensures
        shrink_view(m) == (false, 0u64, current, refusal_message(excluded as nat, current as nat)),
{
    let mut v: Vec<char> = Vec::new();
    push_str(&mut v, "cannot exclude ");
    push_decimal(&mut v, excluded as u64);
    push_str(&mut v, " ranks from communicator with ");
    push_decimal(&mut v, current as u64);
    push_str(&mut v, " active");
    assert(v@ =~= refusal_message(excluded as nat, current as nat));
    ShrinkMetrics { success: false, duration_ns: 0, active_rank_count: current, error: string_from_chars(&v) }
}

impl NcclBackend for NcclSim {
    open spec fn ranks(&self) -> nat {
        self.active() as nat
    }

    open spec fn shrink_history(&self) -> Seq<(ShrinkRequestV, Result<MetricsV, Seq<char>>)> {
        self.served()
    }

    /// Excluding at least as many ranks as are active is refused and changes
    /// nothing; otherwise a latency is drawn and the ranks are dropped.
    fn shrink(&mut self, req: &ShrinkRequest) -> (r: Result<ShrinkMetrics, String>)
        ensures
            r matches Ok(m) && {
                let n = req.exclude_ranks@.len();
                if n >= old(self).active() {
                    &&& shrink_view(m) == (false, 0u64, old(self).active(), refusal_message(clamp_count(n), old(self).active() as nat))
                    &&& final(self).active() == old(self).active()
                    &&& final(self).seed_state() == old(self).seed_state()
                } else {
                    &&& final(self).seed_state() == lcg_next(old(self).seed_state())
                    &&& final(self).active() == old(self).active() - n
                    &&& shrink_view(m) == (true, sim_duration(final(self).seed_state()), final(self).active(), Seq::<char>::empty())
                }
            },
    {
        let excluded = count_of(req.exclude_ranks.len());
        let current = self.active_ranks;
        let r = if excluded >= current {
            Ok(refusal(excluded, current))
        } else {
            let duration_ns = self.seeded_duration_ns();
            self.active_ranks = current - excluded;
            Ok(ShrinkMetrics {
                success: true,
                duration_ns,
                active_rank_count: self.active_ranks,
                error: String::new(),
            })
        };
        proof {
            self.history@ = self.history@.push((shrink_request_view(*req), shrink_outcome_view(r)));
        }
        r
    }

    /// Draws a latency and adds the admitted GPUs to the rank count,
    /// saturating at `u32::MAX`.
    fn expand(&mut self, req: &ExpandRequest) -> (r: Result<ExpandMetrics, String>)
        ensures
            r matches Ok(m) && {
                let sum = old(self).active() + req.new_gpu_ids@.len();
                &&& final(self).seed_state() == lcg_next(old(self).seed_state())
                &&& final(self).active() == (if sum > u32::MAX { u32::MAX } else { sum as u32 })
                &&& expand_view(m) == (true, sim_duration(final(self).seed_state()), final(self).active(), Seq::<char>::empty())
            },
    {
        let duration_ns = self.seeded_duration_ns();
        let added = count_of(req.new_gpu_ids.len());
        self.active_ranks = self.active_ranks.saturating_add(added);
        Ok(ExpandMetrics {
            success: true,
            duration_ns,
            active_rank_count: self.active_ranks,
            error: String::new(),
        })
    }
}

// ---------------------------------------------------------------------------
// Hardware backend: construction and the decisions of its shrink protocol
// ---------------------------------------------------------------------------

/// The hardware backend's state. The communicator handle is the raw
/// `ncclComm_t` address of the co-resident training process; the socket is
/// the one its training hook listens on.
pub struct NcclReal {
    comm_ptr: u64,
    world_size: u32,
    active_ranks: u32,
    socket_path: String,
}

/// What a hardware shrink does next.
pub enum ShrinkPlan {
    /// Refused before any I/O; these are the metrics to report.
    Refuse(ShrinkMetrics),
    /// Send `request` to the hook, await its acknowledgement, split the
    /// communicator and then commit `new_active` ranks.
    Handshake { request: String, new_active: u32 },
}

/// Where a hardware shrink stands between two outside steps.
#[derive(Debug, Clone, Copy, PartialEq, Eq, Structural)]
pub enum ShrinkPhase {
    /// Nothing has been done yet.
    Start,
    /// The safe-point request was sent; `new_active` ranks will remain.
    SafePointSent { new_active: u32 },
    /// `ncclCommSplit` was started.
    SplitStarted { new_active: u32 },
    /// The split succeeded and the resume message was sent.
    ResumeSent { new_active: u32 },
}

/// What the outside step just taken reported.
#[derive(Debug, Clone, Copy, PartialEq, Eq, Structural)]
pub enum ShrinkEvent {
    /// The shrink was asked for.
    Requested,
    /// The hook answered with the expected line (`true`), or the exchange
    /// failed or got another answer (`false`).
    HookAnswered(bool),
    /// `ncclCommSplit` returned this code, or its task panicked (`None`).
    SplitReturned(Option<i32>),
}

/// What a hardware shrink does next.
pub enum ShrinkAction {
    /// Send `message` on the hook's socket and expect the line
    /// `expected_ack` within `timeout_secs` seconds; then go on in `then`.
    Exchange { message: String, expected_ack: String, timeout_secs: u64, then: ShrinkPhase },
    /// Call `ncclCommSplit(comm, 0, 0, &new_comm, NULL)`; then go on in `then`.
    Split { then: ShrinkPhase },
    /// The shrink is over with this result.
    Finish(Result<ShrinkMetrics, String>),
}

/// A shrink action as plain values.
pub enum ShrinkActionV {
    Exchange(Seq<char>, Seq<char>, u64, ShrinkPhase),
    Split(ShrinkPhase),
    Finish(Result<MetricsV, Seq<char>>),
}

pub open spec fn shrink_action_view(a: ShrinkAction) -> ShrinkActionV {
    match a {
        ShrinkAction::Exchange { message, expected_ack, timeout_secs, then } => ShrinkActionV::Exchange(message@, expected_ack@, timeout_secs, then),
        ShrinkAction::Split { then } => ShrinkActionV::Split(then),
        ShrinkAction::Finish(r) => ShrinkActionV::Finish(shrink_outcome_view(r)),
    }
}

/// The event can follow an action taken in this phase.
pub open spec fn shrink_event_fits(phase: ShrinkPhase, event: ShrinkEvent) -> bool {
    match phase {
        ShrinkPhase::Start => event is Requested,
        ShrinkPhase::SafePointSent { .. } => event is HookAnswered,
        ShrinkPhase::SplitStarted { .. } => event is SplitReturned,
        ShrinkPhase::ResumeSent { .. } => event is HookAnswered,
    }
}

/// The protocol of a hardware shrink of `ranks` from a communicator with
/// `active` ranks: refuse before any I/O when too many ranks are excluded;
/// else ask the hook for a safe point (30 s), split the communicator, commit
/// the new rank count, tell the hook to resume (5 s), and report success
/// with the time elapsed. A failed step ends the shrink with its error.
pub open spec fn shrink_protocol(active: u32, ranks: Seq<u32>, phase: ShrinkPhase, event: ShrinkEvent, elapsed_ns: u64) -> ShrinkActionV {
    match phase {
        ShrinkPhase::Start => if ranks.len() >= active {
            ShrinkActionV::Finish(Ok((false, 0u64, active, refusal_message(clamp_count(ranks.len()), active as nat))))
        } else {
            ShrinkActionV::Exchange(
                safe_point_request(ranks),
                "SAFE_POINT_ACK"@,
                30,
                ShrinkPhase::SafePointSent { new_active: (active - ranks.len()) as u32 },
            )
        },
        ShrinkPhase::SafePointSent { new_active } => if event == ShrinkEvent::HookAnswered(true) {
            ShrinkActionV::Split(ShrinkPhase::SplitStarted { new_active })
        } else {
            ShrinkActionV::Finish(Err("safe-point handshake failed"@))
        },
        ShrinkPhase::SplitStarted { new_active } => match event {
            ShrinkEvent::SplitReturned(Some(rc)) => if rc == 0 {
                ShrinkActionV::Exchange("RESUME\n"@, "RESUMED"@, 5, ShrinkPhase::ResumeSent { new_active })
            } else {
                ShrinkActionV::Finish(Err("ncclCommSplit returned error"@))
            },
            _ => ShrinkActionV::Finish(Err("ncclCommSplit task panicked"@)),
        },
        ShrinkPhase::ResumeSent { new_active } => if event == ShrinkEvent::HookAnswered(true) {
            ShrinkActionV::Finish(Ok((true, elapsed_ns, new_active, Seq::<char>::empty())))
        } else {
            ShrinkActionV::Finish(Err("resume handshake failed"@))
        },
    }
}

pub open spec fn safe_point_request(ranks: Seq<u32>) -> Seq<char> {
    "SAFE_POINT_REQUEST exclude="@ + ranks_text(ranks) + "\n"@
}

pub open spec fn hook_socket_path(job_id: Seq<char>) -> Seq<char> {
    "/tmp/nemesis-hook-"@ + job_id + ".sock"@
}

pub open spec fn expand_unsupported_message(added: nat, communicator_id: Seq<char>) -> Seq<char> {
    "expand via ncclCommMerge (NCCL 2.27+) not yet implemented; adding "@ + dec(added)
        + " ranks to communicator "@ + communicator_id + " requires rank-bootstrapping protocol"@
}

impl NcclReal {
    pub closed spec fn comm(&self) -> u64 {
        self.comm_ptr
    }

    pub closed spec fn world(&self) -> u32 {
        self.world_size
    }

    pub closed spec fn active(&self) -> u32 {
        self.active_ranks
    }

    pub closed spec fn socket(&self) -> Seq<char> {
        self.socket_path@
    }

    /// A backend for the communicator at `comm_ptr` of `world_size` ranks,
    /// all active, whose hook listens on `socket_path`.
    pub fn new(comm_ptr: u64, world_size: u32, socket_path: &str) -> (r: Self)
        ensures
            r.comm() == comm_ptr,
            r.world() == world_size,
            r.active() == world_size,
            r.socket() == socket_path@,
    {
        NcclReal { comm_ptr, world_size, active_ranks: world_size, socket_path: String::from_str(socket_path) }
    }

    /// `new` with the socket path `/tmp/nemesis-hook-{job_id}.sock`.
    pub fn for_job(comm_ptr: u64, world_size: u32, job_id: &str) -> (r: Self)
        ensures
            r.comm() == comm_ptr,
            r.world() == world_size,
            r.active() == world_size,
            r.socket() == hook_socket_path(job_id@),
    {
        let mut v: Vec<char> = Vec::new();
        push_str(&mut v, "/tmp/nemesis-hook-");
        push_str(&mut v, job_id);
        push_str(&mut v, ".sock");
        assert(v@ =~= hook_socket_path(job_id@));
        let path = string_from_chars(&v);
        NcclReal { comm_ptr, world_size, active_ranks: world_size, socket_path: path }
    }

    /// The hook's socket path.
    pub fn socket_path(&self) -> (s: &String)
        ensures
            s@ == self.socket(),
    {
        &self.socket_path
    }

    /// The communicator handle.
    pub fn comm_ptr(&self) -> (p: u64)
        ensures
            p == self.comm(),
    {
        self.comm_ptr
    }

    /// The current rank count.
    pub fn active_rank_count(&self) -> (n: u32)
        ensures
            n == self.active(),
    {
        self.active_ranks
    }

    /// First step of a shrink: refuse when at least as many ranks are
    /// excluded as are active, else the safe-point request to send and the
    /// rank count to commit once the split has succeeded.
    pub fn plan_shrink(&self, req: &ShrinkRequest) -> (p: ShrinkPlan)
        ensures
            req.exclude_ranks@.len() >= self.active() ==> (p matches ShrinkPlan::Refuse(m)
                && shrink_view(m) == (false, 0u64, self.active(), refusal_message(clamp_count(req.exclude_ranks@.len()), self.active() as nat))),
            req.exclude_ranks@.len() < self.active() ==> (p matches ShrinkPlan::Handshake { request, new_active }
                && request@ == safe_point_request(req.exclude_ranks@)
                && new_active == self.active() - req.exclude_ranks@.len()),
    {
        let excluded = count_of(req.exclude_ranks.len());
        let current = self.active_ranks;
        if excluded >= current {
            return ShrinkPlan::Refuse(refusal(excluded, current));
        }
        let mut v: Vec<char> = Vec::new();
        push_str(&mut v, "SAFE_POINT_REQUEST exclude=");
        push_ranks(&mut v, &req.exclude_ranks);
        push_str(&mut v, "\n");
        assert(v@ =~= safe_point_request(req.exclude_ranks@));
        ShrinkPlan::Handshake { request: string_from_chars(&v), new_active: current - excluded }
    }

    /// Record the rank count after a successful split.
    pub fn commit_shrink(&mut self, new_active: u32)
        ensures
            final(self).active() == new_active,
            final(self).comm() == old(self).comm(),
            final(self).world() == old(self).world(),
            final(self).socket() == old(self).socket(),
    {
        self.active_ranks = new_active;
    }

    /// One decision of a hardware shrink (see `shrink_protocol`): given the
    /// phase reached and what its outside step reported, the next action.
    /// The new rank count is committed when the split returns 0.
    pub fn shrink_step(&mut self, req: &ShrinkRequest, phase: ShrinkPhase, event: ShrinkEvent, elapsed_ns: u64) -> (a: ShrinkAction)
        requires
            shrink_event_fits(phase, event),
        ensures
            shrink_action_view(a) == shrink_protocol(old(self).active(), req.exclude_ranks@, phase, event, elapsed_ns),
            final(self).active() == match (phase, event) {
                (ShrinkPhase::SplitStarted { new_active }, ShrinkEvent::SplitReturned(Some(0i32))) => new_active,
                _ => old(self).active(),
            },
            final(self).comm() == old(self).comm(),
            final(self).world() == old(self).world(),
            final(self).socket() == old(self).socket(),
    {
        match phase {
            ShrinkPhase::Start => match self.plan_shrink(req) {
                ShrinkPlan::Refuse(m) => ShrinkAction::Finish(Ok(m)),
                ShrinkPlan::Handshake { request, new_active } => ShrinkAction::Exchange {
                    message: request,
                    expected_ack: String::from_str("SAFE_POINT_ACK"),
                    timeout_secs: 30,
                    then: ShrinkPhase::SafePointSent { new_active },
                },
            },
            ShrinkPhase::SafePointSent { new_active } => {
                if event == ShrinkEvent::HookAnswered(true) {
                    ShrinkAction::Split { then: ShrinkPhase::SplitStarted { new_active } }
                } else {
                    ShrinkAction::Finish(Err(String::from_str("safe-point handshake failed")))
                }
            },
            ShrinkPhase::SplitStarted { new_active } => match event {
                ShrinkEvent::SplitReturned(Some(rc)) => {
                    if rc == 0 {
                        self.commit_shrink(new_active);
                        ShrinkAction::Exchange {
                            message: String::from_str("RESUME\n"),
                            expected_ack: String::from_str("RESUMED"),
                            timeout_secs: 5,
                            then: ShrinkPhase::ResumeSent { new_active },
                        }
                    } else {
                        ShrinkAction::Finish(Err(String::from_str("ncclCommSplit returned error")))
                    }
                },
                _ => ShrinkAction::Finish(Err(String::from_str("ncclCommSplit task panicked"))),
            },
            ShrinkPhase::ResumeSent { new_active } => {
                if event == ShrinkEvent::HookAnswered(true) {
                    ShrinkAction::Finish(Ok(NcclReal::shrink_success(new_active, elapsed_ns)))
                } else {
                    ShrinkAction::Finish(Err(String::from_str("resume handshake failed")))
                }
            },
        }
    }

    /// The metrics of a shrink whose split succeeded and whose hook resumed:
    /// `new_active` ranks remain, and the whole operation took `duration_ns`.
    pub fn shrink_success(new_active: u32, duration_ns: u64) -> (m: ShrinkMetrics)
        ensures
            shrink_view(m) == (true, duration_ns, new_active, Seq::<char>::empty()),
    {
        ShrinkMetrics { success: true, duration_ns, active_rank_count: new_active, error: String::new() }
    }

    /// The error an expand reports: admitting ranks needs a bootstrapping
    /// protocol that the hook does not offer.
    pub fn expand_error(req: &ExpandRequest) -> (e: String)
        ensures
            e@ == expand_unsupported_message(req.new_gpu_ids@.len(), req.communicator_id@),
    {
        let mut v: Vec<char> = Vec::new();
        push_str(&mut v, "expand via ncclCommMerge (NCCL 2.27+) not yet implemented; adding ");
        push_decimal(&mut v, req.new_gpu_ids.len() as u64);
        push_str(&mut v, " ranks to communicator ");
        push_str(&mut v, req.communicator_id.as_str());
        push_str(&mut v, " requires rank-bootstrapping protocol");
        assert(v@ =~= expand_unsupported_message(req.new_gpu_ids@.len(), req.communicator_id@));
        string_from_chars(&v)
    }
}

} // verus!
