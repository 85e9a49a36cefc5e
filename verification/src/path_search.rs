//! The depth-first search for an InfiniBand path, as a mathematical
//! function of the graph: the order in which `ClusterGraph::find_ib_path`
//! tries start GPUs and extensions, and so the path it returns.

use vstd::prelude::*;
use crate::graph::{
    healthy_ids, ib_edge_between, ib_path, incident_edges, lemma_extend_ib_path, lemma_healthy_prefix, lemma_incident, GraphView,
    LinkV,
};

verus! {

/// The next GPU `next`, reached over an edge with payload `link`, may extend
/// the path `p`: it is unvisited and healthy, and the edge is InfiniBand of
/// at most `max_hops` hops.
pub open spec fn dfs_step_ok(v: GraphView, p: Seq<int>, next: int, link: LinkV, max_hops: u32) -> bool {
    &&& !p.contains(next)
    &&& 0 <= next < v.nodes.len()
    &&& v.nodes[next].3
    &&& link.0 == 2
    &&& link.2 <= max_hops
}

/// What the depth-first search returns from the path `p`: `p` itself once it
/// has `target` GPUs, else the first result of extending it over the edges
/// at its last GPU, in `Graph::edges` order.
pub closed spec fn dfs_from(v: GraphView, p: Seq<int>, target: int, max_hops: u32) -> Option<Seq<int>>
    decreases v.nodes.len() - p.len(), 1nat, 0int,
{
    if p.len() == target {
        Some(p)
    } else if p.len() == 0 {
        None
    } else {
        dfs_edges(v, p, target, max_hops, 0)
    }
}

/// The search from `p` over the edges at its last GPU from the `j`-th on.
pub closed spec fn dfs_edges(v: GraphView, p: Seq<int>, target: int, max_hops: u32, j: int) -> Option<Seq<int>>
    decreases v.nodes.len() - p.len(), 0nat, incident_edges(v.edges, p.last()).len() - j,
{
    let inc = incident_edges(v.edges, p.last());
    if j < 0 || j >= inc.len() {
        None
    } else if dfs_step_ok(v, p, inc[j].1, inc[j].2, max_hops) && p.len() < v.nodes.len() {
        match dfs_from(v, p.push(inc[j].1), target, max_hops) {
            Some(f) => Some(f),
            None => dfs_edges(v, p, target, max_hops, j + 1),
        }
    } else {
        dfs_edges(v, p, target, max_hops, j + 1)
    }
}

/// One step of `dfs_from`.
pub proof fn lemma_dfs_from_unfold(v: GraphView, p: Seq<int>, target: int, max_hops: u32)
    ensures
        p.len() == target ==> dfs_from(v, p, target, max_hops) == Some(p),
        p.len() != target && p.len() > 0 ==> dfs_from(v, p, target, max_hops) == dfs_edges(v, p, target, max_hops, 0),
{
}

/// One step of `dfs_edges`: an edge that cannot extend the path is skipped;
/// one that can is followed, and the next edge is tried if that fails.
pub proof fn lemma_dfs_edges_unfold(v: GraphView, p: Seq<int>, target: int, max_hops: u32, j: int)
    requires
        0 <= j,
    ensures
        ({
            let inc = incident_edges(v.edges, p.last());
            &&& j >= inc.len() ==> dfs_edges(v, p, target, max_hops, j) is None
            &&& j < inc.len() && !(dfs_step_ok(v, p, inc[j].1, inc[j].2, max_hops) && p.len() < v.nodes.len())
                ==> dfs_edges(v, p, target, max_hops, j) == dfs_edges(v, p, target, max_hops, j + 1)
            &&& j < inc.len() && dfs_step_ok(v, p, inc[j].1, inc[j].2, max_hops) && p.len() < v.nodes.len()
                ==> dfs_edges(v, p, target, max_hops, j) == match dfs_from(v, p.push(inc[j].1), target, max_hops) {
                    Some(f) => Some(f),
                    None => dfs_edges(v, p, target, max_hops, j + 1),
                }
        }),
{
}

/// The first result of the searches that start at the `k`-th healthy GPU of
/// `c` or later.
pub closed spec fn dfs_starts(v: GraphView, c: Seq<int>, k: int, target: int, max_hops: u32) -> Option<Seq<int>>
    decreases c.len() - k,
{
    if k < 0 || k >= c.len() {
        None
    } else {
        match dfs_from(v, seq![c[k]], target, max_hops) {
            Some(f) => Some(f),
            None => dfs_starts(v, c, k + 1, target, max_hops),
        }
    }
}

/// The path that `find_ib_path` returns: none when fewer healthy GPUs exist
/// than asked for, else the first found by depth-first search from each
/// healthy GPU in vertex order.
pub open spec fn ib_search(v: GraphView, size: int, max_hops: u32) -> Option<Seq<int>> {
    let c = healthy_ids(v);
    if c.len() < size {
        None
    } else {
        dfs_starts(v, c, 0, size, max_hops)
    }
}

/// One step of `dfs_starts`.
pub proof fn lemma_dfs_starts_unfold(v: GraphView, c: Seq<int>, k: int, target: int, max_hops: u32)
    requires
        0 <= k,
    ensures
        k >= c.len() ==> dfs_starts(v, c, k, target, max_hops) is None,
        k < c.len() ==> dfs_starts(v, c, k, target, max_hops) == match dfs_from(v, seq![c[k]], target, max_hops) {
            Some(f) => Some(f),
            None => dfs_starts(v, c, k + 1, target, max_hops),
        },
{
}

/// What the search returns from a valid path is a valid path of `target`
/// GPUs that extends it.
pub proof fn lemma_dfs_from_sound(v: GraphView, p: Seq<int>, target: int, max_hops: u32)
    requires
        ib_path(v, p, max_hops),
    ensures
        dfs_from(v, p, target, max_hops) matches Some(f) ==> ib_path(v, f, max_hops) && f.len() == target && p.is_prefix_of(f),
    decreases v.nodes.len() - p.len(), 1nat, 0int,
{
    if p.len() != target {
        lemma_dfs_edges_sound(v, p, target, max_hops, 0);
    }
}

proof fn lemma_dfs_edges_sound(v: GraphView, p: Seq<int>, target: int, max_hops: u32, j: int)
    requires
        ib_path(v, p, max_hops),
        0 <= j,
    ensures
        dfs_edges(v, p, target, max_hops, j) matches Some(f) ==> ib_path(v, f, max_hops) && f.len() == target && p.is_prefix_of(f),
    decreases v.nodes.len() - p.len(), 0nat, incident_edges(v.edges, p.last()).len() - j,
{
    let inc = incident_edges(v.edges, p.last());
    if j < inc.len() {
        let next = inc[j].1;
        if dfs_step_ok(v, p, next, inc[j].2, max_hops) && p.len() < v.nodes.len() {
            lemma_incident(v.edges, p.last());
            let t = inc[j];
            let k = choose|k: int| 0 <= k < v.edges.len()
                && ((v.edges[k].0 == p.last() && v.edges[k].1 == t.1) || (v.edges[k].1 == p.last() && v.edges[k].0 == t.1))
                && (v.edges[k].2, v.edges[k].3, v.edges[k].4) == t.2;
            assert(ib_edge_between(v.edges[k], p[p.len() - 1], next, max_hops));
            assert forall|a: int| 0 <= a < p.len() implies p[a] != next by {
                if p[a] == next {
                    assert(p.contains(next));
                }
            }
            lemma_extend_ib_path(v, p, next, k, max_hops);
            lemma_dfs_from_sound(v, p.push(next), target, max_hops);
            if let Some(f) = dfs_from(v, p.push(next), target, max_hops) {
                assert forall|i: int| 0 <= i < p.len() implies p[i] == f[i] by {
                    assert(p.push(next)[i] == p[i]);
                }
            }
        }
        lemma_dfs_edges_sound(v, p, target, max_hops, j + 1);
    }
}

proof fn lemma_dfs_starts_sound(v: GraphView, c: Seq<int>, k: int, target: int, max_hops: u32)
    requires
        0 <= k,
        forall|i: int| 0 <= i < c.len() ==> 0 <= #[trigger] c[i] < v.nodes.len() && v.nodes[c[i]].3,
    ensures
        dfs_starts(v, c, k, target, max_hops) matches Some(f) ==> ib_path(v, f, max_hops) && f.len() == target,
    decreases c.len() - k,
{
    if k < c.len() {
        let p = seq![c[k]];
        assert(ib_path(v, p, max_hops));
        lemma_dfs_from_sound(v, p, target, max_hops);
        lemma_dfs_starts_sound(v, c, k + 1, target, max_hops);
    }
}

/// A path that the search returns is a valid path of `size` GPUs.
pub proof fn lemma_ib_search_sound(v: GraphView, size: int, max_hops: u32)
    ensures
        ib_search(v, size, max_hops) matches Some(p) ==> ib_path(v, p, max_hops) && p.len() == size,
{
    let c = healthy_ids(v);
    lemma_healthy_prefix(v.nodes, v.nodes.len() as int);
    if c.len() >= size {
        lemma_dfs_starts_sound(v, c, 0, size, max_hops);
    }
}

} // verus!
