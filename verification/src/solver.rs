//! Topology solver: maps a `TopologySpec` onto a `ClusterGraph`.
//!
//!   - Atom: TP asks for an NVLink clique, PP for an InfiniBand path, DP for
//!     the first healthy GPUs in vertex order. An atom of degree 0 asks for
//!     no GPU and is rejected (PP0 because no path has no GPU), so a
//!     placement names a GPU exactly when it succeeds.
//!   - Conjunction: both arms must be placed; their GPU lists are
//!     concatenated, left first. A failed arm is returned as it is.
//!   - Disjunction: the alternatives are tried in order and the first
//!     placement wins.
//!
//! The graph is only read.

use vstd::prelude::*;
use crate::graph::{
    clique_choice, first_clique, graph_wf, has_gpu, healthy_ids, ib_linked, lemma_first_clique_unique,
    lemma_gpu_index, lemma_healthy_prefix, lemma_ib_linked_iff_edge, lemma_nv_linked_iff_edge, marked_unhealthy, names,
    ib_joined, nv_linked, nvlink_joined, picked, string_views, ClusterGraph, GraphView,
};
use crate::path_search::{ib_search, lemma_ib_search_sound};
use crate::parser::{
    dim_degree, lemma_topo_views_index, lemma_topo_views_len, topo_views, Constraint, ParallelDim,
    TopoView, TopologySpec,
};
use crate::text::{dec, push_decimal, push_str, string_from_chars};

verus! {

/// The outcome of placing one spec.
pub struct PlacementResult {
    /// True when the solver found a GPU assignment.
    pub placed: bool,
    /// The gpu_ids assigned; empty when `placed` is false.
    pub gpu_ids: Vec<String>,
    /// Why the placement failed; empty when `placed` is true.
    pub rejection_reason: String,
}

/// A placement as plain values: (placed, gpu_ids, rejection reason).
pub type PlacementV = (bool, Seq<Seq<char>>, Seq<char>);

impl View for PlacementResult {
    type V = PlacementV;

    open spec fn view(&self) -> PlacementV {
        (self.placed, string_views(self.gpu_ids@), self.rejection_reason@)
    }
}

impl PlacementResult {
    /// A successful placement on `gpu_ids`.
    pub fn ok(gpu_ids: Vec<String>) -> (r: Self)
        ensures
            r.placed,
            r.gpu_ids@ == gpu_ids@,
            r.rejection_reason@ == Seq::<char>::empty(),
    {
        PlacementResult { placed: true, gpu_ids, rejection_reason: String::new() }
    }

    /// A failed placement with its reason.
    pub fn rejected(reason: &str) -> (r: Self)
        ensures
            !r.placed,
            r.gpu_ids@ == Seq::<String>::empty(),
            r.rejection_reason@ == reason@,
    {
        PlacementResult { placed: false, gpu_ids: Vec::new(), rejection_reason: String::from_str(reason) }
    }
}

/// The bandwidth of the first `NvlMin` constraint, or 0 when there is none.
pub open spec fn first_nvl_min(cs: Seq<Constraint>) -> u64
    decreases cs.len(),
{
    if cs.len() == 0 {
        0
    } else {
        match cs[0] {
            Constraint::NvlMin(bw) => bw,
            _ => first_nvl_min(cs.drop_first()),
        }
    }
}

/// The hop limit of the first `IbMax` constraint, or `u32::MAX` when there is none.
pub open spec fn first_ib_max(cs: Seq<Constraint>) -> u32
    decreases cs.len(),
{
    if cs.len() == 0 {
        u32::MAX
    } else {
        match cs[0] {
            Constraint::IbMax(h) => h,
            _ => first_ib_max(cs.drop_first()),
        }
    }
}

pub open spec fn tp_message(n: u32, bw: u64) -> Seq<char> {
    "no NVLink clique of size "@ + dec(n as nat) + " with bandwidth >= "@ + dec(bw as nat) + " GB/s"@
}

pub open spec fn pp_message(n: u32, hops: u32) -> Seq<char> {
    "no IB path of length "@ + dec(n as nat) + " with hop count <= "@ + dec(hops as nat)
}

pub open spec fn dp_message(n: u32, have: nat) -> Seq<char> {
    "insufficient healthy GPUs for DP"@ + dec(n as nat) + ": need "@ + dec(n as nat) + ", have "@ + dec(have)
}

pub open spec fn zero_degree_message() -> Seq<char> {
    "an atom of degree 0 requests no GPUs"@
}

pub open spec fn no_alternative_message() -> Seq<char> {
    "no alternative could be placed on the current cluster"@
}

pub open spec fn rejection(reason: Seq<char>) -> PlacementV {
    (false, Seq::<Seq<char>>::empty(), reason)
}

/// TP placement: the lexicographically first NVLink clique among the healthy
/// GPUs, when one exists.
pub open spec fn tp_placement(v: GraphView, n: u32, bw: u64) -> PlacementV {
    let c = healthy_ids(v);
    if exists|p: Seq<int>| #[trigger] first_clique(v, c, p, n as nat, bw) {
        let p = choose|p: Seq<int>| #[trigger] first_clique(v, c, p, n as nat, bw);
        (true, names(v, picked(c, p)), Seq::<char>::empty())
    } else {
        rejection(tp_message(n, bw))
    }
}

/// PP placement: the InfiniBand path that the depth-first search finds (see
/// `ib_search`), when one exists.
pub open spec fn pp_placement(v: GraphView, n: u32, hops: u32) -> PlacementV {
    match ib_search(v, n as int, hops) {
        Some(p) => (true, names(v, p), Seq::<char>::empty()),
        None => rejection(pp_message(n, hops)),
    }
}

/// DP placement: the first `n` healthy GPUs in vertex order.
pub open spec fn dp_placement(v: GraphView, n: u32) -> PlacementV {
    let h = healthy_ids(v);
    if h.len() >= n {
        (true, names(v, h.take(n as int)), Seq::<char>::empty())
    } else {
        rejection(dp_message(n, h.len()))
    }
}

/// The atom's kind decides. A TP or DP atom of degree 0 asks for no GPU and
/// is rejected; a PP atom of degree 0 is rejected because no path has no
/// GPU (see `pp_placement`).
pub open spec fn atom_placement(v: GraphView, d: ParallelDim, cs: Seq<Constraint>) -> PlacementV {
    match d {
        ParallelDim::Tp(n) => if n == 0 { rejection(zero_degree_message()) } else { tp_placement(v, n, first_nvl_min(cs)) },
        ParallelDim::Pp(n) => pp_placement(v, n, first_ib_max(cs)),
        ParallelDim::Dp(n) => if n == 0 { rejection(zero_degree_message()) } else { dp_placement(v, n) },
    }
}

/// The placement of `s` on `v`. A conjunction places its left arm, then its
/// right arm, and names the GPUs of both, left first; the first arm that
/// fails is the result. A disjunction is placed by its first alternative that
/// places.
pub open spec fn placement(v: GraphView, s: TopoView) -> PlacementV
    decreases s, 0nat,
{
    match s {
        TopoView::Atom(d, cs) => atom_placement(v, d, cs),
        TopoView::Conjunction(l, r) => {
            let a = placement(v, *l);
            if !a.0 {
                a
            } else {
                let b = placement(v, *r);
                if !b.0 {
                    b
                } else {
                    (true, a.1 + b.1, Seq::<char>::empty())
                }
            }
        },
        TopoView::Disjunction(alts) => alts_placement(v, alts),
    }
}

/// The first alternative that places gives the result; when none does, the
/// disjunction is rejected.
pub open spec fn alts_placement(v: GraphView, alts: Seq<TopoView>) -> PlacementV
    decreases alts, 1nat,
{
    if alts.len() == 0 {
        rejection(no_alternative_message())
    } else {
        let a = placement(v, alts[0]);
        if a.0 {
            a
        } else {
            alts_placement(v, alts.drop_first())
        }
    }
}

fn nvl_min_of(cs: &Vec<Constraint>) -> (bw: u64)
    ensures
        bw == first_nvl_min(cs@),
{
    let mut i: usize = 0;
    assert(cs@.subrange(0, cs@.len() as int) =~= cs@);
    while i < cs.len()
        invariant
            i <= cs@.len(),
            first_nvl_min(cs@) == first_nvl_min(cs@.subrange(i as int, cs@.len() as int)),
        decreases cs@.len() - i,
    {
        let ghost rest = cs@.subrange(i as int, cs@.len() as int);
        if let Constraint::NvlMin(bw) = cs[i] {
            assert(rest[0] == cs@[i as int]);
            return bw;
        }
        assert(rest[0] == cs@[i as int]);
        assert(rest.drop_first() =~= cs@.subrange(i + 1, cs@.len() as int));
        i = i + 1;
    }
    assert(cs@.subrange(i as int, cs@.len() as int).len() == 0);
    0
}

fn ib_max_of(cs: &Vec<Constraint>) -> (h: u32)
    ensures
        h == first_ib_max(cs@),
{
    let mut i: usize = 0;
    assert(cs@.subrange(0, cs@.len() as int) =~= cs@);
    while i < cs.len()
        invariant
            i <= cs@.len(),
            first_ib_max(cs@) == first_ib_max(cs@.subrange(i as int, cs@.len() as int)),
        decreases cs@.len() - i,
    {
        let ghost rest = cs@.subrange(i as int, cs@.len() as int);
        if let Constraint::IbMax(h) = cs[i] {
            assert(rest[0] == cs@[i as int]);
            return h;
        }
        assert(rest[0] == cs@[i as int]);
        assert(rest.drop_first() =~= cs@.subrange(i + 1, cs@.len() as int));
        i = i + 1;
    }
    assert(cs@.subrange(i as int, cs@.len() as int).len() == 0);
    u32::MAX
}

fn solve_tp(graph: &ClusterGraph, n: u32, bw: u64) -> (r: PlacementResult)
    ensures
        r@ == tp_placement(graph@, n, bw),
{
    match graph.find_nvlink_clique(n as usize, bw) {
        Some(ids) => {
            let r = PlacementResult::ok(ids);
            proof {
                let c = healthy_ids(graph@);
                let p = choose|p: Seq<int>| #[trigger] first_clique(graph@, c, p, n as nat, bw)
                    && string_views(ids@) == names(graph@, picked(c, p));
                let q = choose|q: Seq<int>| #[trigger] first_clique(graph@, c, q, n as nat, bw);
                lemma_first_clique_unique(graph@, c, p, q, n as nat, bw);
            }
            r
        },
        None => {
            let mut v: Vec<char> = Vec::new();
            push_str(&mut v, "no NVLink clique of size ");
            push_decimal(&mut v, n as u64);
            push_str(&mut v, " with bandwidth >= ");
            push_decimal(&mut v, bw);
            push_str(&mut v, " GB/s");
            assert(v@ =~= tp_message(n, bw));
            let s = string_from_chars(&v);
            let r = PlacementResult::rejected(s.as_str());
            assert(string_views(r.gpu_ids@) =~= Seq::<Seq<char>>::empty());
            proof {
                let c = healthy_ids(graph@);
                if exists|p: Seq<int>| #[trigger] first_clique(graph@, c, p, n as nat, bw) {
                    let p = choose|p: Seq<int>| #[trigger] first_clique(graph@, c, p, n as nat, bw);
                    assert(clique_choice(graph@, c, p, n as nat, bw));
                }
            }
            r
        },
    }
}

fn solve_pp(graph: &ClusterGraph, n: u32, hops: u32) -> (r: PlacementResult)
    ensures
        r@ == pp_placement(graph@, n, hops),
{
    match graph.find_ib_path(n as usize, hops) {
        Some(ids) => PlacementResult::ok(ids),
        None => {
            let mut v: Vec<char> = Vec::new();
            push_str(&mut v, "no IB path of length ");
            push_decimal(&mut v, n as u64);
            push_str(&mut v, " with hop count <= ");
            push_decimal(&mut v, hops as u64);
            assert(v@ =~= pp_message(n, hops));
            let s = string_from_chars(&v);
            let r = PlacementResult::rejected(s.as_str());
            assert(string_views(r.gpu_ids@) =~= Seq::<Seq<char>>::empty());
            r
        },
    }
}

fn solve_dp(graph: &ClusterGraph, n: u32) -> (r: PlacementResult)
    ensures
        r@ == dp_placement(graph@, n),
{
    let mut ids = graph.healthy_gpu_ids();
    let ghost h = healthy_ids(graph@);
    assert(string_views(ids@).len() == ids@.len());
    assert(names(graph@, h).len() == h.len());
    if ids.len() >= n as usize {
        let ghost all = ids@;
        ids.truncate(n as usize);
        assert(string_views(ids@) =~= names(graph@, h.take(n as int))) by {
            assert forall|k: int| 0 <= k < n implies #[trigger] string_views(ids@)[k] == names(graph@, h.take(n as int))[k] by {
                assert(ids@[k] == all[k]);
                assert(string_views(all)[k] == names(graph@, h)[k]);
            }
        }
        PlacementResult::ok(ids)
    } else {
        let have = ids.len();
        let mut v: Vec<char> = Vec::new();
        push_str(&mut v, "insufficient healthy GPUs for DP");
        push_decimal(&mut v, n as u64);
        push_str(&mut v, ": need ");
        push_decimal(&mut v, n as u64);
        push_str(&mut v, ", have ");
        push_decimal(&mut v, have as u64);
        assert(v@ =~= dp_message(n, h.len()));
        let s = string_from_chars(&v);
        let r = PlacementResult::rejected(s.as_str());
        assert(string_views(r.gpu_ids@) =~= Seq::<Seq<char>>::empty());
        r
    }
}

fn solve_atom(graph: &ClusterGraph, dim: &ParallelDim, constraints: &Vec<Constraint>) -> (r: PlacementResult)
    ensures
        r@ == atom_placement(graph@, *dim, constraints@),
{
    let no_gpus = match dim {
        ParallelDim::Tp(n) => *n == 0,
        ParallelDim::Pp(_) => false,
        ParallelDim::Dp(n) => *n == 0,
    };
    if no_gpus {
        let s = String::from_str("an atom of degree 0 requests no GPUs");
        proof {
            reveal_strlit("an atom of degree 0 requests no GPUs");
        }
        let r = PlacementResult::rejected(s.as_str());
        assert(string_views(r.gpu_ids@) =~= Seq::<Seq<char>>::empty());
        return r;
    }
    match dim {
        ParallelDim::Tp(n) => {
            let bw = nvl_min_of(constraints);
            solve_tp(graph, *n, bw)
        },
        ParallelDim::Pp(n) => {
            let hops = ib_max_of(constraints);
            solve_pp(graph, *n, hops)
        },
        ParallelDim::Dp(n) => solve_dp(graph, *n),
    }
}

/// Place `spec` on `graph` (see `placement`). The graph is not changed.
#[verifier::loop_isolation(false)]
pub fn solve_on(graph: &ClusterGraph, spec: &TopologySpec) -> (r: PlacementResult)
    ensures
        r@ == placement(graph@, spec@),
    decreases spec,
{
    match spec {
        TopologySpec::Atom(dim, constraints) => solve_atom(graph, dim, constraints),
        TopologySpec::Conjunction(l, r) => {
            let left = solve_on(graph, l);
            assert(spec@ == TopoView::Conjunction(Box::new(l@), Box::new(r@)));
            if !left.placed {
                return left;
            }
            let right = solve_on(graph, r);
            if !right.placed {
                return right;
            }
            let ghost a = left@;
            let ghost b = right@;
            let mut combined = left.gpu_ids;
            let mut rest = right.gpu_ids;
            combined.append(&mut rest);
            let out = PlacementResult::ok(combined);
            assert(string_views(out.gpu_ids@) =~= a.1 + b.1);
            out
        },
        TopologySpec::Disjunction(alts) => {
            let ghost views = topo_views(alts@);
            proof {
                lemma_topo_views_len(alts@);
            }
            let mut i: usize = 0;
            assert(views.subrange(0, views.len() as int) =~= views);
            while i < alts.len()
                invariant
                    views == topo_views(alts@),
                    views.len() == alts@.len(),
                    i <= alts@.len(),
                    spec@ == TopoView::Disjunction(views),
                    alts_placement(graph@, views) == alts_placement(graph@, views.subrange(i as int, views.len() as int)),
                decreases alts@.len() - i,
            {
                proof {
                    lemma_topo_views_index(alts@, i as int);
                }
                let res = solve_on(graph, &alts[i]);
                let ghost rest = views.subrange(i as int, views.len() as int);
                assert(rest[0] == views[i as int]);
                if res.placed {
                    return res;
                }
                assert(rest.drop_first() =~= views.subrange(i + 1, views.len() as int));
                i = i + 1;
            }
            let s = String::from_str("no alternative could be placed on the current cluster");
            proof {
                reveal_strlit("no alternative could be placed on the current cluster");
            }
            let r = PlacementResult::rejected(s.as_str());
            assert(string_views(r.gpu_ids@) =~= Seq::<Seq<char>>::empty());
            assert(views.subrange(i as int, views.len() as int).len() == 0);
            r
        },
    }
}



// ---------------------------------------------------------------------------
// Laws
// ---------------------------------------------------------------------------

/// Some healthy GPU of `v` has this gpu_id.
pub open spec fn healthy_name(v: GraphView, id: Seq<char>) -> bool {
    exists|k: int| 0 <= k < v.nodes.len() && (#[trigger] v.nodes[k]).3 && v.nodes[k].0 == id
}

proof fn lemma_healthy_names(v: GraphView, idxs: Seq<int>)
    requires
        forall|i: int| 0 <= i < idxs.len() ==> 0 <= #[trigger] idxs[i] < v.nodes.len() && v.nodes[idxs[i]].3,
    ensures
        forall|i: int| 0 <= i < names(v, idxs).len() ==> healthy_name(v, #[trigger] names(v, idxs)[i]),
{
    assert forall|i: int| 0 <= i < names(v, idxs).len() implies healthy_name(v, #[trigger] names(v, idxs)[i]) by {
        let k = idxs[i];
        assert(v.nodes[k].3 && v.nodes[k].0 == names(v, idxs)[i]);
    }
}

proof fn lemma_atom_shape(v: GraphView, d: ParallelDim, cs: Seq<Constraint>)
    ensures
        ({
            let out = atom_placement(v, d, cs);
            &&& out.0 <==> out.2.len() == 0
            &&& !out.0 ==> out.1.len() == 0
            &&& out.0 ==> out.1.len() == dim_degree(d)
            &&& out.0 ==> dim_degree(d) > 0
            &&& out.0 ==> forall|i: int| 0 <= i < out.1.len() ==> healthy_name(v, #[trigger] out.1[i])
        }),
{
    reveal_strlit("an atom of degree 0 requests no GPUs");
    if d !is Pp && dim_degree(d) == 0 {
        return;
    }
    reveal_strlit("no NVLink clique of size ");
    reveal_strlit("no IB path of length ");
    reveal_strlit("insufficient healthy GPUs for DP");
    let c = healthy_ids(v);
    lemma_healthy_prefix(v.nodes, v.nodes.len() as int);
    match d {
        ParallelDim::Tp(n) => {
            let bw = first_nvl_min(cs);
            if exists|p: Seq<int>| #[trigger] first_clique(v, c, p, n as nat, bw) {
                let p = choose|p: Seq<int>| #[trigger] first_clique(v, c, p, n as nat, bw);
                let idxs = picked(c, p);
                assert forall|i: int| 0 <= i < idxs.len() implies 0 <= #[trigger] idxs[i] < v.nodes.len() && v.nodes[idxs[i]].3 by {
                    assert(0 <= p[i] < c.len());
                }
                lemma_healthy_names(v, idxs);
            }
        },
        ParallelDim::Pp(n) => {
            let h = first_ib_max(cs);
            lemma_ib_search_sound(v, n as int, h);
            if let Some(p) = ib_search(v, n as int, h) {
                lemma_healthy_names(v, p);
            }
        },
        ParallelDim::Dp(n) => {
            if c.len() >= n {
                let idxs = c.take(n as int);
                lemma_healthy_names(v, idxs);
            }
        },
    }
}

/// A placement succeeds exactly when its rejection reason is empty, and
/// exactly when it names at least one GPU.
pub proof fn lemma_placed_iff_gpus(v: GraphView, s: TopoView)
    ensures
        placement(v, s).0 <==> placement(v, s).2.len() == 0,
        placement(v, s).0 <==> placement(v, s).1.len() > 0,
    decreases s, 0nat,
{
    match s {
        TopoView::Atom(d, cs) => lemma_atom_shape(v, d, cs),
        TopoView::Conjunction(l, r) => {
            lemma_placed_iff_gpus(v, *l);
            lemma_placed_iff_gpus(v, *r);
        },
        TopoView::Disjunction(alts) => lemma_alts_placed_iff_gpus(v, alts),
    }
}

proof fn lemma_alts_placed_iff_gpus(v: GraphView, alts: Seq<TopoView>)
    ensures
        alts_placement(v, alts).0 <==> alts_placement(v, alts).2.len() == 0,
        alts_placement(v, alts).0 <==> alts_placement(v, alts).1.len() > 0,
    decreases alts, 1nat,
{
    if alts.len() == 0 {
        reveal_strlit("no alternative could be placed on the current cluster");
    } else {
        lemma_placed_iff_gpus(v, alts[0]);
        lemma_alts_placed_iff_gpus(v, alts.drop_first());
    }
}

/// Every GPU a placement names is a healthy GPU of the graph.
pub proof fn lemma_placed_gpus_healthy(v: GraphView, s: TopoView)
    ensures
        forall|i: int| 0 <= i < placement(v, s).1.len() ==> healthy_name(v, #[trigger] placement(v, s).1[i]),
    decreases s, 0nat,
{
    lemma_placed_iff_gpus(v, s);
    match s {
        TopoView::Atom(d, cs) => {
            lemma_atom_shape(v, d, cs);
            assert(placement(v, s) == atom_placement(v, d, cs));
        },
        TopoView::Conjunction(l, r) => {
            lemma_placed_gpus_healthy(v, *l);
            lemma_placed_gpus_healthy(v, *r);
            let a = placement(v, *l);
            let b = placement(v, *r);
            let out = placement(v, s);
            if a.0 && b.0 {
                assert forall|i: int| 0 <= i < out.1.len() implies healthy_name(v, #[trigger] out.1[i]) by {
                    if i < a.1.len() {
                        assert(out.1[i] == a.1[i]);
                    } else {
                        assert(out.1[i] == b.1[i - a.1.len()]);
                    }
                }
            }
        },
        TopoView::Disjunction(alts) => {
            lemma_alts_placed_gpus_healthy(v, alts);
            assert(placement(v, s) == alts_placement(v, alts));
        },
    }
}

proof fn lemma_alts_placed_gpus_healthy(v: GraphView, alts: Seq<TopoView>)
    ensures
        forall|i: int| 0 <= i < alts_placement(v, alts).1.len() ==> healthy_name(v, #[trigger] alts_placement(v, alts).1[i]),
    decreases alts, 1nat,
{
    if alts.len() > 0 {
        lemma_placed_gpus_healthy(v, alts[0]);
        lemma_alts_placed_gpus_healthy(v, alts.drop_first());
        let out = alts_placement(v, alts);
        if placement(v, alts[0]).0 {
            assert(out == placement(v, alts[0]));
        } else {
            assert(out == alts_placement(v, alts.drop_first()));
        }
    } else {
        assert(alts_placement(v, alts).1.len() == 0);
    }
}

/// A placed atom names exactly as many GPUs as its degree.
pub proof fn lemma_atom_placement_size(v: GraphView, d: ParallelDim, cs: Seq<Constraint>)
    ensures
        placement(v, TopoView::Atom(d, cs)).0 ==> placement(v, TopoView::Atom(d, cs)).1.len() == dim_degree(d),
{
    lemma_atom_shape(v, d, cs);
}

/// A conjunction is placed as its arms are placed alone: the left arm's
/// failure if it fails, else the right arm's failure if it fails, else the
/// GPUs of the left arm followed by those of the right arm.
pub proof fn lemma_conjunction_of_arms(v: GraphView, l: TopoView, r: TopoView)
    ensures
        ({
            let a = placement(v, l);
            let b = placement(v, r);
            placement(v, TopoView::Conjunction(Box::new(l), Box::new(r))) == if !a.0 {
                a
            } else if !b.0 {
                b
            } else {
                (true, a.1 + b.1, Seq::<char>::empty())
            }
        }),
{
}

/// Alternative `k` is the first of `alts` that places on its own.
pub open spec fn first_placed(v: GraphView, alts: Seq<TopoView>, k: int) -> bool {
    &&& 0 <= k < alts.len()
    &&& placement(v, alts[k]).0
    &&& forall|i: int| 0 <= i < k ==> !(#[trigger] placement(v, alts[i])).0
}

/// A disjunction is placed as its first alternative that places on its own;
/// when none does, it is rejected with `no_alternative_message`.
pub proof fn lemma_disjunction_first_placed(v: GraphView, alts: Seq<TopoView>)
    ensures
        forall|k: int| #[trigger] first_placed(v, alts, k)
            ==> placement(v, TopoView::Disjunction(alts)) == placement(v, alts[k]),
        (forall|k: int| 0 <= k < alts.len() ==> !(#[trigger] placement(v, alts[k])).0)
            ==> placement(v, TopoView::Disjunction(alts)) == rejection(no_alternative_message()),
    decreases alts.len(),
{
    assert(placement(v, TopoView::Disjunction(alts)) == alts_placement(v, alts));
    if alts.len() > 0 {
        let t = alts.drop_first();
        lemma_disjunction_first_placed(v, t);
        assert(placement(v, TopoView::Disjunction(t)) == alts_placement(v, t));
        let a = placement(v, alts[0]);
        if a.0 {
            assert forall|k: int| #[trigger] first_placed(v, alts, k)
                implies placement(v, TopoView::Disjunction(alts)) == placement(v, alts[k]) by {
                if k > 0 {
                    assert(!placement(v, alts[0]).0);
                }
            }
        } else {
            assert forall|k: int| #[trigger] first_placed(v, alts, k)
                implies placement(v, TopoView::Disjunction(alts)) == placement(v, alts[k]) by {
                assert(k != 0);
                assert(t[k - 1] == alts[k]);
                assert forall|i: int| 0 <= i < k - 1 implies !(#[trigger] placement(v, t[i])).0 by {
                    assert(t[i] == alts[i + 1]);
                }
                assert(first_placed(v, t, k - 1));
            }
            if forall|k: int| 0 <= k < alts.len() ==> !(#[trigger] placement(v, alts[k])).0 {
                assert forall|k: int| 0 <= k < t.len() implies !(#[trigger] placement(v, t[k])).0 by {
                    assert(t[k] == alts[k + 1]);
                }
            }
        }
    }
}

/// Once a GPU is marked unhealthy, no placement names it.
pub proof fn lemma_unhealthy_never_placed(v: GraphView, id: Seq<char>, s: TopoView)
    requires
        graph_wf(v),
        has_gpu(v, id),
    ensures
        !placement(GraphView { nodes: marked_unhealthy(v, id), edges: v.edges }, s).1.contains(id),
{
    let v2 = GraphView { nodes: marked_unhealthy(v, id), edges: v.edges };
    let out = placement(v2, s);
    lemma_placed_gpus_healthy(v2, s);
    if out.1.contains(id) {
        let j = choose|j: int| 0 <= j < out.1.len() && out.1[j] == id;
        assert(healthy_name(v2, out.1[j]));
        let k = choose|k: int| 0 <= k < v2.nodes.len() && (#[trigger] v2.nodes[k]).3 && v2.nodes[k].0 == id;
        assert(v.nodes[k].0 == id);
        lemma_gpu_index(v, id, k);
    }
}

/// `bw` is the bandwidth of the first `NvlMin` of `cs`, or 0 when there is none.
pub open spec fn is_first_nvl_min(cs: Seq<Constraint>, bw: u64) -> bool {
    ||| exists|k: int| 0 <= k < cs.len() && #[trigger] cs[k] == Constraint::NvlMin(bw)
            && forall|i: int| 0 <= i < k ==> !(#[trigger] cs[i] is NvlMin)
    ||| bw == 0 && forall|i: int| 0 <= i < cs.len() ==> !(#[trigger] cs[i] is NvlMin)
}

/// `h` is the hop limit of the first `IbMax` of `cs`, or `u32::MAX` when
/// there is none.
pub open spec fn is_first_ib_max(cs: Seq<Constraint>, h: u32) -> bool {
    ||| exists|k: int| 0 <= k < cs.len() && #[trigger] cs[k] == Constraint::IbMax(h)
            && forall|i: int| 0 <= i < k ==> !(#[trigger] cs[i] is IbMax)
    ||| h == u32::MAX && forall|i: int| 0 <= i < cs.len() ==> !(#[trigger] cs[i] is IbMax)
}

/// A TP atom is placed with the bandwidth of the first `NvlMin` among all of
/// its constraints, whatever precedes it; with 0 when it has none.
pub proof fn lemma_first_nvl_min(cs: Seq<Constraint>, bw: u64)
    requires
        is_first_nvl_min(cs, bw),
    ensures
        first_nvl_min(cs) == bw,
    decreases cs.len(),
{
    if cs.len() > 0 {
        let t = cs.drop_first();
        if !(cs[0] is NvlMin) {
            if exists|k: int| 0 <= k < cs.len() && #[trigger] cs[k] == Constraint::NvlMin(bw)
                && forall|i: int| 0 <= i < k ==> !(#[trigger] cs[i] is NvlMin) {
                let k = choose|k: int| 0 <= k < cs.len() && #[trigger] cs[k] == Constraint::NvlMin(bw)
                    && forall|i: int| 0 <= i < k ==> !(#[trigger] cs[i] is NvlMin);
                assert(k > 0);
                assert(t[k - 1] == cs[k]);
                assert forall|i: int| 0 <= i < k - 1 implies !(#[trigger] t[i] is NvlMin) by {
                    assert(t[i] == cs[i + 1]);
                }
            } else {
                assert forall|i: int| 0 <= i < t.len() implies !(#[trigger] t[i] is NvlMin) by {
                    assert(t[i] == cs[i + 1]);
                }
            }
            lemma_first_nvl_min(t, bw);
        } else {
            if exists|k: int| 0 <= k < cs.len() && #[trigger] cs[k] == Constraint::NvlMin(bw)
                && forall|i: int| 0 <= i < k ==> !(#[trigger] cs[i] is NvlMin) {
                let k = choose|k: int| 0 <= k < cs.len() && #[trigger] cs[k] == Constraint::NvlMin(bw)
                    && forall|i: int| 0 <= i < k ==> !(#[trigger] cs[i] is NvlMin);
                if k > 0 {
                    assert(!(cs[0] is NvlMin));
                }
            } else {
                assert(!(cs[0] is NvlMin));
            }
        }
    }
}

/// A PP atom is placed with the hop limit of the first `IbMax` among all of
/// its constraints, whatever precedes it; with `u32::MAX` when it has none.
pub proof fn lemma_first_ib_max(cs: Seq<Constraint>, h: u32)
    requires
        is_first_ib_max(cs, h),
    ensures
        first_ib_max(cs) == h,
    decreases cs.len(),
{
    if cs.len() > 0 {
        let t = cs.drop_first();
        if !(cs[0] is IbMax) {
            if exists|k: int| 0 <= k < cs.len() && #[trigger] cs[k] == Constraint::IbMax(h)
                && forall|i: int| 0 <= i < k ==> !(#[trigger] cs[i] is IbMax) {
                let k = choose|k: int| 0 <= k < cs.len() && #[trigger] cs[k] == Constraint::IbMax(h)
                    && forall|i: int| 0 <= i < k ==> !(#[trigger] cs[i] is IbMax);
                assert(k > 0);
                assert(t[k - 1] == cs[k]);
                assert forall|i: int| 0 <= i < k - 1 implies !(#[trigger] t[i] is IbMax) by {
                    assert(t[i] == cs[i + 1]);
                }
            } else {
                assert forall|i: int| 0 <= i < t.len() implies !(#[trigger] t[i] is IbMax) by {
                    assert(t[i] == cs[i + 1]);
                }
            }
            lemma_first_ib_max(t, h);
        } else {
            if exists|k: int| 0 <= k < cs.len() && #[trigger] cs[k] == Constraint::IbMax(h)
                && forall|i: int| 0 <= i < k ==> !(#[trigger] cs[i] is IbMax) {
                let k = choose|k: int| 0 <= k < cs.len() && #[trigger] cs[k] == Constraint::IbMax(h)
                    && forall|i: int| 0 <= i < k ==> !(#[trigger] cs[i] is IbMax);
                if k > 0 {
                    assert(!(cs[0] is IbMax));
                }
            } else {
                assert(!(cs[0] is IbMax));
            }
        }
    }
}

/// Every two of the GPUs `idxs` are joined by an NVLink edge of at least
/// `bw` GB/s (in either direction).
pub open spec fn pairwise_nvlink(v: GraphView, idxs: Seq<int>, bw: u64) -> bool {
    forall|i: int, j: int| 0 <= i < j < idxs.len() ==> #[trigger] nvlink_joined(v, idxs[i], idxs[j], bw)
}

/// Each two consecutive GPUs of `p` are joined by an InfiniBand edge of at
/// most `h` hops (in either direction).
pub open spec fn chained_by_ib(v: GraphView, p: Seq<int>, h: u32) -> bool {
    forall|i: int| 0 <= i < p.len() - 1 ==> #[trigger] ib_joined(v, p[i], p[i + 1], h)
}

/// Every two GPUs a placed TP atom names are joined by an NVLink edge of at
/// least the bandwidth of the atom's first `NvlMin` constraint.
pub proof fn lemma_tp_placement_bandwidth(v: GraphView, n: u32, cs: Seq<Constraint>, bw: u64)
    requires
        is_first_nvl_min(cs, bw),
    ensures
        placement(v, TopoView::Atom(ParallelDim::Tp(n), cs)).0 ==> exists|idxs: Seq<int>|
            #[trigger] names(v, idxs) == placement(v, TopoView::Atom(ParallelDim::Tp(n), cs)).1
            && pairwise_nvlink(v, idxs, bw),
{
    lemma_first_nvl_min(cs, bw);
    let out = placement(v, TopoView::Atom(ParallelDim::Tp(n), cs));
    if out.0 {
        let c = healthy_ids(v);
        let b0 = first_nvl_min(cs);
        assert(n != 0);
        let p = choose|p: Seq<int>| #[trigger] first_clique(v, c, p, n as nat, b0);
        let idxs = picked(c, p);
        assert(out.1 == names(v, idxs));
        assert forall|i: int, j: int| 0 <= i < j < idxs.len() implies #[trigger] nvlink_joined(v, idxs[i], idxs[j], bw) by {
            assert(nv_linked(v, c[p[i]], c[p[j]], b0));
            assert(idxs[i] == c[p[i]] && idxs[j] == c[p[j]]);
            lemma_nv_linked_iff_edge(v, idxs[i], idxs[j], bw);
        }
        assert(pairwise_nvlink(v, idxs, bw));
    }
}

/// A placed PP atom names a path each of whose consecutive GPUs are joined
/// by an InfiniBand edge of at most the hop limit of the atom's first
/// `IbMax` constraint.
pub proof fn lemma_pp_placement_hops(v: GraphView, n: u32, cs: Seq<Constraint>, h: u32)
    requires
        is_first_ib_max(cs, h),
    ensures
        placement(v, TopoView::Atom(ParallelDim::Pp(n), cs)).0 ==> exists|p: Seq<int>|
            #[trigger] names(v, p) == placement(v, TopoView::Atom(ParallelDim::Pp(n), cs)).1
            && chained_by_ib(v, p, h),
{
    lemma_first_ib_max(cs, h);
    let out = placement(v, TopoView::Atom(ParallelDim::Pp(n), cs));
    if out.0 {
        let h0 = first_ib_max(cs);
        lemma_ib_search_sound(v, n as int, h0);
        let p = ib_search(v, n as int, h0)->Some_0;
        assert(out.1 == names(v, p));
        assert forall|i: int| 0 <= i < p.len() - 1 implies #[trigger] ib_joined(v, p[i], p[i + 1], h) by {
            assert(ib_linked(v, p[i], p[i + 1], h0));
            lemma_ib_linked_iff_edge(v, p[i], p[i + 1], h);
        }
        assert(chained_by_ib(v, p, h));
    }
}

} // verus!
