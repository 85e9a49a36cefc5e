//! Undirected cluster topology: GPUs are vertices, interconnect links are edges.
//!
//! The vertices and edges live in a `petgraph` undirected graph. A GPU is found
//! by its `gpu_id`, which is unique within the graph. The `healthy` flag is the
//! only way to exclude a GPU from placement.

use vstd::prelude::*;
use petgraph::graph::{EdgeIndex, Graph, NodeIndex, UnGraph};
use petgraph::Undirected;
use petgraph::visit::EdgeRef;
use crate::path_search::{
    dfs_edges, dfs_from, dfs_starts, dfs_step_ok, ib_search, lemma_dfs_edges_unfold, lemma_dfs_from_unfold,
    lemma_dfs_starts_unfold,
};

verus! {

/// Physical interconnect technology of a topology edge.
#[derive(Debug, Clone, Copy, PartialEq, Eq)]
pub enum LinkKind {
    NvLink,
    PCIe,
    InfiniBand,
}

/// Per-GPU vertex payload.
#[derive(Debug)]
pub struct GpuNode {
    pub gpu_id: String,
    pub node_id: String,
    pub numa_domain: u32,
    /// False once `mark_unhealthy` is called; excluded from all searches.
    pub healthy: bool,
}

/// Per-edge payload.
#[derive(Debug, Clone, Copy)]
pub struct Link {
    pub kind: LinkKind,
    /// Bidirectional peak bandwidth in whole GB/s.
    pub bandwidth_gbps: u32,
    /// InfiniBand switch-hop count between the two endpoints (0 for NVLink/PCIe).
    pub ib_hop_count: u32,
}

#[verifier::external_type_specification]
#[verifier::external_body]
#[verifier::reject_recursive_types(N)]
#[verifier::reject_recursive_types(E)]
#[verifier::reject_recursive_types(Ty)]
#[verifier::reject_recursive_types(Ix)]
pub struct ExGraph<N, E, Ty, Ix>(Graph<N, E, Ty, Ix>);

#[verifier::external_type_specification]
#[verifier::external_body]
pub struct ExUndirected(Undirected);

/// A vertex as plain values: (gpu_id, node_id, numa_domain, healthy).
pub type NodeV = (Seq<char>, Seq<char>, u32, bool);

/// An edge as plain values: (source index, target index, kind code,
/// bandwidth, IB hop count), in the order the endpoints were given when the
/// edge was added.
pub type EdgeV = (int, int, int, u32, u32);

/// A link's payload as plain values: (kind code, bandwidth, IB hop count).
pub type LinkV = (int, u32, u32);

/// The vertex payloads of a petgraph graph, indexed by node index.
pub uninterp spec fn graph_nodes(g: UnGraph<GpuNode, Link>) -> Seq<NodeV>;

/// The edges of a petgraph graph, indexed by edge index.
pub uninterp spec fn graph_edges(g: UnGraph<GpuNode, Link>) -> Seq<EdgeV>;

pub open spec fn kind_code(k: LinkKind) -> int {
    match k {
        LinkKind::NvLink => 0,
        LinkKind::PCIe => 1,
        LinkKind::InfiniBand => 2,
    }
}

pub open spec fn node_view(n: GpuNode) -> NodeV {
    (n.gpu_id@, n.node_id@, n.numa_domain, n.healthy)
}

pub open spec fn link_view(l: Link) -> LinkV {
    (kind_code(l.kind), l.bandwidth_gbps, l.ib_hop_count)
}

pub open spec fn edge_link(e: EdgeV) -> LinkV {
    (e.2, e.3, e.4)
}

/// The edges that `Graph::edges_connecting(a, b)` yields on an undirected
/// graph: first the edges added as `(a, b)`, most recently added first, then
/// (when `a != b`) the edges added as `(b, a)`, most recently added first.
pub open spec fn connecting_edges(edges: Seq<EdgeV>, a: int, b: int) -> Seq<EdgeV> {
    let fwd = edges.filter(added_as(a, b)).reverse();
    let bwd = edges.filter(added_as(b, a)).reverse();
    if a != b { fwd + bwd } else { fwd }
}

/// The edge was added with source `a` and target `b`.
pub open spec fn added_as(a: int, b: int) -> spec_fn(EdgeV) -> bool {
    |e: EdgeV| e.0 == a && e.1 == b
}

/// The edges that `Graph::edges(a)` yields on an undirected graph, each as
/// (a, other endpoint, payload): first the edges added with `a` as source,
/// most recently added first, then the edges added with `a` as target (self
/// loops excluded, as they were already listed), most recently added first.
pub open spec fn incident_edges(edges: Seq<EdgeV>, a: int) -> Seq<(int, int, LinkV)> {
    let outs = edges.filter(leaves(a)).reverse().map_values(|e: EdgeV| (a, e.1, edge_link(e)));
    let ins = edges.filter(enters(a)).reverse().map_values(|e: EdgeV| (a, e.0, edge_link(e)));
    outs + ins
}

/// The edge was added with source `a`.
pub open spec fn leaves(a: int) -> spec_fn(EdgeV) -> bool {
    |e: EdgeV| e.0 == a
}

/// The edge was added with target `a` and is not a self loop.
pub open spec fn enters(a: int) -> spec_fn(EdgeV) -> bool {
    |e: EdgeV| e.1 == a && e.0 != a
}

/// Calls `UnGraph::new_undirected`: an empty graph.
#[verifier::external_body]
fn pg_new() -> (g: UnGraph<GpuNode, Link>)
    ensures
        graph_nodes(g) == Seq::<NodeV>::empty(),
        graph_edges(g) == Seq::<EdgeV>::empty(),
{
    UnGraph::new_undirected()
}

/// Calls `Graph::add_node`: appends the vertex and returns its index, which is
/// the previous node count. It panics once the count reaches `u32::MAX`.
#[verifier::external_body]
fn pg_add_node(g: &mut UnGraph<GpuNode, Link>, w: GpuNode) -> (i: usize)
    requires
        graph_nodes(*old(g)).len() < u32::MAX,
    ensures
        graph_nodes(*final(g)) == graph_nodes(*old(g)).push(node_view(w)),
        graph_edges(*final(g)) == graph_edges(*old(g)),
        i == graph_nodes(*old(g)).len(),
{
    g.add_node(w).index()
}

/// Calls `Graph::add_edge`: appends the edge `(a, b)`. It panics when a node
/// index is out of bounds or the edge count reaches `u32::MAX`.
#[verifier::external_body]
fn pg_add_edge(g: &mut UnGraph<GpuNode, Link>, a: usize, b: usize, w: Link)
    requires
        a < graph_nodes(*old(g)).len(),
        b < graph_nodes(*old(g)).len(),
        graph_nodes(*old(g)).len() <= u32::MAX,
        graph_edges(*old(g)).len() < u32::MAX,
    ensures
        graph_nodes(*final(g)) == graph_nodes(*old(g)),
        graph_edges(*final(g)) == graph_edges(*old(g)).push((a as int, b as int, kind_code(w.kind), w.bandwidth_gbps, w.ib_hop_count)),
{
    g.add_edge(NodeIndex::new(a), NodeIndex::new(b), w);
}

/// Calls `Graph::node_count`.
#[verifier::external_body]
fn pg_node_count(g: &UnGraph<GpuNode, Link>) -> (n: usize)
    ensures
        n == graph_nodes(*g).len(),
{
    g.node_count()
}

/// Calls `Graph::edge_count`.
#[verifier::external_body]
fn pg_edge_count(g: &UnGraph<GpuNode, Link>) -> (n: usize)
    ensures
        n == graph_edges(*g).len(),
{
    g.edge_count()
}

/// Indexes the graph by node index (`Index<NodeIndex>`), which panics out of bounds.
#[verifier::external_body]
fn pg_node(g: &UnGraph<GpuNode, Link>, i: usize) -> (n: &GpuNode)
    requires
        i < graph_nodes(*g).len(),
        graph_nodes(*g).len() <= u32::MAX,
    ensures
        node_view(*n) == graph_nodes(*g)[i as int],
{
    &g[NodeIndex::new(i)]
}

/// Replaces the payload of vertex `i` through `IndexMut<NodeIndex>`, which
/// panics out of bounds.
#[verifier::external_body]
fn pg_set_node(g: &mut UnGraph<GpuNode, Link>, i: usize, w: GpuNode)
    requires
        i < graph_nodes(*old(g)).len(),
        graph_nodes(*old(g)).len() <= u32::MAX,
    ensures
        graph_nodes(*final(g)) == graph_nodes(*old(g)).update(i as int, node_view(w)),
        graph_edges(*final(g)) == graph_edges(*old(g)),
{
    g[NodeIndex::new(i)] = w;
}

/// Calls `Graph::edge_endpoints` (unwrapped; the edge exists) and indexes the
/// graph by edge index: the edge's endpoints and payload.
#[verifier::external_body]
fn pg_edge(g: &UnGraph<GpuNode, Link>, e: usize) -> (r: (usize, usize, Link))
    requires
        e < graph_edges(*g).len(),
        graph_edges(*g).len() <= u32::MAX,
    ensures
        (r.0 as int, r.1 as int, kind_code(r.2.kind), r.2.bandwidth_gbps, r.2.ib_hop_count) == graph_edges(*g)[e as int],
{
    let (a, b) = g.edge_endpoints(EdgeIndex::new(e)).unwrap();
    (a.index(), b.index(), g[EdgeIndex::new(e)])
}

/// Calls `Graph::edges_connecting(a, b)` and collects the edge payloads, in
/// the iterator's order (see `connecting_edges`).
#[verifier::external_body]
fn pg_edges_connecting(g: &UnGraph<GpuNode, Link>, a: usize, b: usize) -> (r: Vec<Link>)
    requires
        a < graph_nodes(*g).len(),
        b < graph_nodes(*g).len(),
        graph_nodes(*g).len() <= u32::MAX,
    ensures
        r@.map_values(|l: Link| link_view(l)) == connecting_edges(graph_edges(*g), a as int, b as int).map_values(|e: EdgeV| edge_link(e)),
{
    g.edges_connecting(NodeIndex::new(a), NodeIndex::new(b)).map(|e| *e.weight()).collect()
}

/// Calls `Graph::edges(a)` and collects each edge reference's source, target
/// and payload, in the iterator's order (see `incident_edges`).
#[verifier::external_body]
fn pg_edges(g: &UnGraph<GpuNode, Link>, a: usize) -> (r: Vec<(usize, usize, Link)>)
    requires
        a < graph_nodes(*g).len(),
        graph_nodes(*g).len() <= u32::MAX,
    ensures
        r@.map_values(|t: (usize, usize, Link)| (t.0 as int, t.1 as int, link_view(t.2))) == incident_edges(graph_edges(*g), a as int),
{
    g.edges(NodeIndex::new(a)).map(|e| (e.source().index(), e.target().index(), *e.weight())).collect()
}


/// The mathematical value of a `ClusterGraph`.
pub struct GraphView {
    pub nodes: Seq<NodeV>,
    pub edges: Seq<EdgeV>,
}

/// Undirected topology graph over GPU vertices.
pub struct ClusterGraph {
    graph: UnGraph<GpuNode, Link>,
}

impl View for ClusterGraph {
    type V = GraphView;

    closed spec fn view(&self) -> GraphView {
        GraphView { nodes: graph_nodes(self.graph), edges: graph_edges(self.graph) }
    }
}

/// Well-formedness: gpu_ids are unique, every edge joins two existing
/// vertices, and the counts fit petgraph's `u32` indices.
pub open spec fn graph_wf(v: GraphView) -> bool {
    &&& v.nodes.len() <= u32::MAX
    &&& v.edges.len() <= u32::MAX
    &&& forall|i: int, j: int| 0 <= i < j < v.nodes.len() ==> (#[trigger] v.nodes[i]).0 != (#[trigger] v.nodes[j]).0
    &&& forall|k: int| 0 <= k < v.edges.len() ==> 0 <= (#[trigger] v.edges[k]).0 < v.nodes.len() && 0 <= v.edges[k].1 < v.nodes.len()
}

/// Some vertex has this gpu_id.
pub open spec fn has_gpu(v: GraphView, id: Seq<char>) -> bool {
    exists|i: int| 0 <= i < v.nodes.len() && (#[trigger] v.nodes[i]).0 == id
}

/// The index of the vertex with this gpu_id (meaningful when `has_gpu`).
pub open spec fn gpu_index(v: GraphView, id: Seq<char>) -> int {
    choose|i: int| 0 <= i < v.nodes.len() && (#[trigger] v.nodes[i]).0 == id
}

/// The vertices of `v` with the GPU `id` marked unhealthy.
pub open spec fn marked_unhealthy(v: GraphView, id: Seq<char>) -> Seq<NodeV> {
    let i = gpu_index(v, id);
    v.nodes.update(i, (id, v.nodes[i].1, v.nodes[i].2, false))
}

/// Indices of the healthy vertices among the first `n`, in ascending order.
pub open spec fn healthy_prefix(nodes: Seq<NodeV>, n: int) -> Seq<int>
    decreases n,
{
    if n <= 0 {
        Seq::empty()
    } else if nodes[n - 1].3 {
        healthy_prefix(nodes, n - 1).push(n - 1)
    } else {
        healthy_prefix(nodes, n - 1)
    }
}

/// Indices of all healthy vertices, in ascending order.
pub open spec fn healthy_ids(v: GraphView) -> Seq<int> {
    healthy_prefix(v.nodes, v.nodes.len() as int)
}

/// The gpu_ids of the vertices at `idxs`.
pub open spec fn names(v: GraphView, idxs: Seq<int>) -> Seq<Seq<char>> {
    idxs.map_values(|i: int| v.nodes[i].0)
}

/// The text of each string.
pub open spec fn string_views(v: Seq<String>) -> Seq<Seq<char>> {
    v.map_values(|s: String| s@)
}

pub proof fn lemma_gpu_index(v: GraphView, id: Seq<char>, i: int)
    requires
        graph_wf(v),
        0 <= i < v.nodes.len(),
        v.nodes[i].0 == id,
    ensures
        has_gpu(v, id),
        gpu_index(v, id) == i,
{
    assert(has_gpu(v, id));
    let j = gpu_index(v, id);
    if j < i {
        assert(v.nodes[j].0 != v.nodes[i].0);
    } else if i < j {
        assert(v.nodes[i].0 != v.nodes[j].0);
    }
}

pub proof fn lemma_healthy_prefix(nodes: Seq<NodeV>, n: int)
    requires
        0 <= n <= nodes.len(),
    ensures
        forall|k: int| 0 <= k < healthy_prefix(nodes, n).len() ==> 0 <= #[trigger] healthy_prefix(nodes, n)[k] < n
            && nodes[healthy_prefix(nodes, n)[k]].3,
        forall|k: int, l: int| 0 <= k < l < healthy_prefix(nodes, n).len() ==> #[trigger] healthy_prefix(nodes, n)[k] < #[trigger] healthy_prefix(nodes, n)[l],
        forall|i: int| 0 <= i < n && nodes[i].3 ==> healthy_prefix(nodes, n).contains(i),
    decreases n,
{
    if n > 0 {
        lemma_healthy_prefix(nodes, n - 1);
        let p = healthy_prefix(nodes, n - 1);
        let q = healthy_prefix(nodes, n);
        assert forall|i: int| 0 <= i < n && nodes[i].3 implies q.contains(i) by {
            if i < n - 1 {
                assert(p.contains(i));
                let k = choose|k: int| 0 <= k < p.len() && p[k] == i;
                if nodes[n - 1].3 {
                    assert(q == p.push(n - 1));
                    assert(q[k] == i);
                } else {
                    assert(q == p);
                }
            } else {
                assert(q == p.push(n - 1));
                assert(q[p.len() as int] == i);
            }
        }
    }
}

impl ClusterGraph {
    /// Every `ClusterGraph` is well formed.
    #[verifier::type_invariant]
    spec fn inv(self) -> bool {
        graph_wf(self@)
    }

    pub open spec fn wf(&self) -> bool {
        graph_wf(self@)
    }

    /// An empty graph.
    pub fn new() -> (g: Self)
        ensures
            g.wf(),
            g@.nodes == Seq::<NodeV>::empty(),
            g@.edges == Seq::<EdgeV>::empty(),
    {
        ClusterGraph { graph: pg_new() }
    }

    /// The index of the GPU with this id, if present.
    fn find_index(&self, gpu_id: &str) -> (r: Option<usize>)
        requires
            self.wf(),
        ensures
            match r {
                Some(i) => has_gpu(self@, gpu_id@) && i == gpu_index(self@, gpu_id@) && i < self@.nodes.len(),
                None => !has_gpu(self@, gpu_id@),
            },
    {
        let key = String::from_str(gpu_id);
        let n = pg_node_count(&self.graph);
        let mut i: usize = 0;
        while i < n
            invariant
                self.wf(),
                n == self@.nodes.len(),
                i <= n,
                key@ == gpu_id@,
                forall|j: int| 0 <= j < i ==> (#[trigger] self@.nodes[j]).0 != gpu_id@,
            decreases n - i,
        {
            let node = pg_node(&self.graph, i);
            if node.gpu_id == key {
                proof {
                    lemma_gpu_index(self@, gpu_id@, i as int);
                }
                return Some(i);
            }
            i = i + 1;
        }
        None
    }

    /// Add a GPU vertex, healthy. The gpu_id must not be present yet.
    pub fn add_gpu(&mut self, gpu_id: &str, node_id: &str, numa_domain: u32)
        requires
            !has_gpu(old(self)@, gpu_id@),
            old(self)@.nodes.len() < u32::MAX,
        ensures
            final(self).wf(),
            final(self)@.nodes == old(self)@.nodes.push((gpu_id@, node_id@, numa_domain, true)),
            final(self)@.edges == old(self)@.edges,
    {
        let node = GpuNode {
            gpu_id: String::from_str(gpu_id),
            node_id: String::from_str(node_id),
            numa_domain,
            healthy: true,
        };
        proof {
            use_type_invariant(&*self);
        }
        let mut g = pg_new();
        std::mem::swap(&mut g, &mut self.graph);
        let _ = pg_add_node(&mut g, node);
        proof {
            let v = GraphView { nodes: graph_nodes(g), edges: graph_edges(g) };
            assert forall|i: int, j: int| 0 <= i < j < v.nodes.len() implies (#[trigger] v.nodes[i]).0 != (#[trigger] v.nodes[j]).0 by {
                if j == v.nodes.len() - 1 {
                    assert(v.nodes[i] == old(self)@.nodes[i]);
                    if v.nodes[i].0 == gpu_id@ {
                        assert(has_gpu(old(self)@, gpu_id@));
                    }
                } else {
                    assert(v.nodes[i] == old(self)@.nodes[i]);
                    assert(v.nodes[j] == old(self)@.nodes[j]);
                }
            }
            assert(graph_wf(v));
        }
        self.graph = g;
    }

    /// Add an undirected link between two present GPUs. Parallel links are
    /// allowed.
    pub fn add_link(&mut self, src: &str, dst: &str, kind: LinkKind, bandwidth_gbps: u32, ib_hop_count: u32)
        requires
            has_gpu(old(self)@, src@),
            has_gpu(old(self)@, dst@),
            old(self)@.edges.len() < u32::MAX,
        ensures
            final(self).wf(),
            final(self)@.nodes == old(self)@.nodes,
            final(self)@.edges == old(self)@.edges.push(
                (gpu_index(old(self)@, src@), gpu_index(old(self)@, dst@), kind_code(kind), bandwidth_gbps, ib_hop_count),
            ),
    {
        proof {
            use_type_invariant(&*self);
        }
        let s = match self.find_index(src) {
            Some(i) => i,
            None => {
                proof {
                    assert(false);
                }
                0
            },
        };
        let d = match self.find_index(dst) {
            Some(i) => i,
            None => {
                proof {
                    assert(false);
                }
                0
            },
        };
        let mut g = pg_new();
        std::mem::swap(&mut g, &mut self.graph);
        pg_add_edge(&mut g, s, d, Link { kind, bandwidth_gbps, ib_hop_count });
        proof {
            let v = GraphView { nodes: graph_nodes(g), edges: graph_edges(g) };
            assert forall|k: int| 0 <= k < v.edges.len() implies 0 <= (#[trigger] v.edges[k]).0 < v.nodes.len() && 0 <= v.edges[k].1 < v.nodes.len() by {
                if k < v.edges.len() - 1 {
                    assert(v.edges[k] == old(self)@.edges[k]);
                }
            }
            assert(graph_wf(v));
        }
        self.graph = g;
    }

    /// Mark a GPU unhealthy; unknown ids are ignored.
    pub fn mark_unhealthy(&mut self, gpu_id: &str)
        ensures
            final(self).wf(),
            final(self)@.edges == old(self)@.edges,
            has_gpu(old(self)@, gpu_id@) ==> final(self)@.nodes == marked_unhealthy(old(self)@, gpu_id@),
            !has_gpu(old(self)@, gpu_id@) ==> final(self)@.nodes == old(self)@.nodes,
    {
        proof {
            use_type_invariant(&*self);
        }
        if let Some(i) = self.find_index(gpu_id) {
            let mut g = pg_new();
            std::mem::swap(&mut g, &mut self.graph);
            let node = pg_node(&g, i);
            let sick = GpuNode {
                gpu_id: node.gpu_id.clone(),
                node_id: node.node_id.clone(),
                numa_domain: node.numa_domain,
                healthy: false,
            };
            pg_set_node(&mut g, i, sick);
            proof {
                let v = GraphView { nodes: graph_nodes(g), edges: graph_edges(g) };
                let o = old(self)@;
                assert(o.nodes[i as int].0 == gpu_id@);
                assert forall|a: int, b: int| 0 <= a < b < v.nodes.len() implies (#[trigger] v.nodes[a]).0 != (#[trigger] v.nodes[b]).0 by {
                    assert(v.nodes[a].0 == o.nodes[a].0);
                    assert(v.nodes[b].0 == o.nodes[b].0);
                }
                assert(graph_wf(v));
            }
            self.graph = g;
        }
    }

    /// Membership test by gpu_id.
    pub fn contains_gpu(&self, gpu_id: &str) -> (r: bool)
        ensures
            r == has_gpu(self@, gpu_id@),
    {
        proof {
            use_type_invariant(self);
        }
        self.find_index(gpu_id).is_some()
    }

    /// Total GPU count (healthy and unhealthy).
    pub fn gpu_count(&self) -> (n: usize)
        ensures
            n == self@.nodes.len(),
    {
        pg_node_count(&self.graph)
    }

    /// The gpu_ids of all healthy GPUs, in vertex order.
    pub fn healthy_gpu_ids(&self) -> (r: Vec<String>)
        ensures
            string_views(r@) == names(self@, healthy_ids(self@)),
    {
        proof {
            use_type_invariant(self);
        }
        let n = pg_node_count(&self.graph);
        let mut r: Vec<String> = Vec::new();
        let mut i: usize = 0;
        while i < n
            invariant
                self.wf(),
                n == self@.nodes.len(),
                i <= n,
                string_views(r@) == names(self@, healthy_prefix(self@.nodes, i as int)),
            decreases n - i,
        {
            let node = pg_node(&self.graph, i);
            if node.healthy {
                let id = node.gpu_id.clone();
                let ghost before = r@;
                r.push(id);
                proof {
                    let hp = healthy_prefix(self@.nodes, i as int);
                    assert(healthy_prefix(self@.nodes, i + 1) == hp.push(i as int));
                    assert(names(self@, hp.push(i as int)) =~= names(self@, hp).push(self@.nodes[i as int].0));
                    assert(string_views(r@) =~= string_views(before).push(id@));
                }
            } else {
                assert(healthy_prefix(self@.nodes, i + 1) == healthy_prefix(self@.nodes, i as int));
            }
            i = i + 1;
        }
        r
    }

    /// Bandwidth of the first edge that `edges_connecting(src, dst)` yields,
    /// or `None` if a GPU is unknown or no edge joins them.
    pub fn link_bandwidth(&self, src: &str, dst: &str) -> (r: Option<u32>)
        ensures
            r == (if has_gpu(self@, src@) && has_gpu(self@, dst@)
                && connecting_edges(self@.edges, gpu_index(self@, src@), gpu_index(self@, dst@)).len() > 0 {
                Some(connecting_edges(self@.edges, gpu_index(self@, src@), gpu_index(self@, dst@))[0].3)
            } else {
                None::<u32>
            }),
    {
        proof {
            use_type_invariant(self);
        }
        let s = match self.find_index(src) {
            Some(i) => i,
            None => return None,
        };
        let d = match self.find_index(dst) {
            Some(i) => i,
            None => return None,
        };
        let links = pg_edges_connecting(&self.graph, s, d);
        let ghost c = connecting_edges(self@.edges, s as int, d as int);
        assert(links@.map_values(|l: Link| link_view(l)).len() == c.map_values(|e: EdgeV| edge_link(e)).len());
        if links.len() > 0 {
            assert(links@.map_values(|l: Link| link_view(l))[0] == c.map_values(|e: EdgeV| edge_link(e))[0]);
            Some(links[0].bandwidth_gbps)
        } else {
            None
        }
    }
}


impl Default for ClusterGraph {
    /// An empty graph.
    fn default() -> (g: Self)
        ensures
            g@.nodes == Seq::<NodeV>::empty(),
            g@.edges == Seq::<EdgeV>::empty(),
    {
        ClusterGraph::new()
    }
}

/// A GPU is present once added.
pub proof fn lemma_added_gpu_present(v: GraphView, id: Seq<char>, node: Seq<char>, numa: u32)
    ensures
        has_gpu(GraphView { nodes: v.nodes.push((id, node, numa, true)), edges: v.edges }, id),
{
    let v2 = GraphView { nodes: v.nodes.push((id, node, numa, true)), edges: v.edges };
    assert(v2.nodes[v.nodes.len() as int].0 == id);
}

/// A GPU marked unhealthy is no longer among the healthy GPUs.
pub proof fn lemma_marked_not_healthy(v: GraphView, id: Seq<char>)
    requires
        graph_wf(v),
        has_gpu(v, id),
    ensures
        !names(
            GraphView { nodes: marked_unhealthy(v, id), edges: v.edges },
            healthy_ids(GraphView { nodes: marked_unhealthy(v, id), edges: v.edges }),
        ).contains(id),
{
    let v2 = GraphView { nodes: marked_unhealthy(v, id), edges: v.edges };
    let h = healthy_ids(v2);
    lemma_healthy_prefix(v2.nodes, v2.nodes.len() as int);
    if names(v2, h).contains(id) {
        let j = choose|j: int| 0 <= j < names(v2, h).len() && names(v2, h)[j] == id;
        let k = h[j];
        assert(v2.nodes[k].3);
        assert(v.nodes[k].0 == id);
        lemma_gpu_index(v, id, k);
    }
}

/// Links are undirected: the edges joining `a` and `b` are the edges joining
/// `b` and `a` (as a multiset; the enumeration order differs when edges were
/// added in both directions).
pub proof fn lemma_edges_connecting_symmetric(edges: Seq<EdgeV>, a: int, b: int)
    ensures
        connecting_edges(edges, a, b).to_multiset() == connecting_edges(edges, b, a).to_multiset(),
        connecting_edges(edges, a, b).len() == connecting_edges(edges, b, a).len(),
{
    if a != b {
        let f = edges.filter(added_as(a, b)).reverse();
        let g = edges.filter(added_as(b, a)).reverse();
        vstd::seq_lib::lemma_seq_union_to_multiset_commutative(f, g);
        vstd::seq_lib::to_multiset_len(f + g);
        vstd::seq_lib::to_multiset_len(g + f);
    }
}

// ---------------------------------------------------------------------------
// Sequence facts used by the searches
// ---------------------------------------------------------------------------

pub proof fn lemma_filter_in<A>(s: Seq<A>, pred: spec_fn(A) -> bool, i: int)
    requires
        0 <= i < s.filter(pred).len(),
    ensures
        s.contains(s.filter(pred)[i]),
        pred(s.filter(pred)[i]),
    decreases s.len(),
{
    reveal(Seq::filter);
    if s.len() > 0 {
        let sub = s.drop_last().filter(pred);
        if i < sub.len() {
            lemma_filter_in(s.drop_last(), pred, i);
            assert(s.filter(pred)[i] == sub[i]);
            let k = choose|k: int| 0 <= k < s.drop_last().len() && s.drop_last()[k] == sub[i];
            assert(s[k] == sub[i]);
        } else {
            assert(s.filter(pred)[i] == s.last());
            assert(s[s.len() - 1] == s.last());
        }
    }
}

pub proof fn lemma_filter_has<A>(s: Seq<A>, pred: spec_fn(A) -> bool, k: int)
    requires
        0 <= k < s.len(),
        pred(s[k]),
    ensures
        exists|j: int| 0 <= j < s.filter(pred).len() && s.filter(pred)[j] == s[k],
{
    broadcast use Seq::lemma_filter_contains;
    assert(s.filter(pred).contains(s[k]));
}

pub proof fn lemma_reverse_index<A>(s: Seq<A>, i: int)
    requires
        0 <= i < s.len(),
    ensures
        s.reverse().len() == s.len(),
        s.reverse()[i] == s[s.len() - 1 - i],
        s.reverse()[s.len() - 1 - i] == s[i],
{
}

/// There is an NVLink edge of at least `min_bw` GB/s joining `a` and `b`.
pub open spec fn nv_edge_between(e: EdgeV, a: int, b: int, min_bw: u64) -> bool {
    &&& ((e.0 == a && e.1 == b) || (e.0 == b && e.1 == a))
    &&& e.2 == 0
    &&& e.3 as int >= min_bw as int
}

pub open spec fn nv_linked(v: GraphView, a: int, b: int, min_bw: u64) -> bool {
    exists|k: int| 0 <= k < v.edges.len() && #[trigger] nv_edge_between(v.edges[k], a, b, min_bw)
}

/// Edge `e` joins `a` and `b`, in either direction, and is an NVLink edge of
/// at least `min_bw` GB/s.
pub open spec fn nvlink_edge_at_least(e: EdgeV, a: int, b: int, min_bw: u64) -> bool {
    &&& (e.0 == a && e.1 == b) || (e.0 == b && e.1 == a)
    &&& e.2 == kind_code(LinkKind::NvLink)
    &&& e.3 >= min_bw
}

/// Some edge of `v` joins `a` and `b` as an NVLink edge of at least `min_bw`
/// GB/s.
pub open spec fn nvlink_joined(v: GraphView, a: int, b: int, min_bw: u64) -> bool {
    exists|k: int| 0 <= k < v.edges.len() && #[trigger] nvlink_edge_at_least(v.edges[k], a, b, min_bw)
}

/// Two GPUs count as NVLink-joined with at least `min_bw` GB/s exactly when
/// some edge between them, among all parallel edges and in either direction,
/// is an NVLink edge of at least that bandwidth.
pub proof fn lemma_nv_linked_iff_edge(v: GraphView, a: int, b: int, min_bw: u64)
    ensures
        nv_linked(v, a, b, min_bw) <==> nvlink_joined(v, a, b, min_bw),
{
    if nv_linked(v, a, b, min_bw) {
        let k = choose|k: int| 0 <= k < v.edges.len() && #[trigger] nv_edge_between(v.edges[k], a, b, min_bw);
        assert(nvlink_edge_at_least(v.edges[k], a, b, min_bw));
    }
    if exists|k: int| 0 <= k < v.edges.len() && #[trigger] nvlink_edge_at_least(v.edges[k], a, b, min_bw) {
        let k = choose|k: int| 0 <= k < v.edges.len() && #[trigger] nvlink_edge_at_least(v.edges[k], a, b, min_bw);
        assert(nv_edge_between(v.edges[k], a, b, min_bw));
    }
}

proof fn lemma_connecting_nv(edges: Seq<EdgeV>, a: int, b: int, min_bw: u64)
    ensures
        (exists|j: int| 0 <= j < connecting_edges(edges, a, b).len()
            && (#[trigger] connecting_edges(edges, a, b)[j]).2 == 0
            && connecting_edges(edges, a, b)[j].3 as int >= min_bw as int)
        == (exists|k: int| 0 <= k < edges.len() && #[trigger] nv_edge_between(edges[k], a, b, min_bw)),
{
    let pf = added_as(a, b);
    let pb = added_as(b, a);
    let f = edges.filter(pf);
    let bk = edges.filter(pb);
    let c = connecting_edges(edges, a, b);
    if exists|j: int| 0 <= j < c.len() && (#[trigger] c[j]).2 == 0 && c[j].3 as int >= min_bw as int {
        let j = choose|j: int| 0 <= j < c.len() && (#[trigger] c[j]).2 == 0 && c[j].3 as int >= min_bw as int;
        if j < f.len() {
            lemma_reverse_index(f, j);
            lemma_filter_in(edges, pf, f.len() - 1 - j);
            let k = choose|k: int| 0 <= k < edges.len() && edges[k] == f[f.len() - 1 - j];
            assert(nv_edge_between(edges[k], a, b, min_bw));
        } else {
            let jj = j - f.len();
            lemma_reverse_index(bk, jj);
            lemma_filter_in(edges, pb, bk.len() - 1 - jj);
            let k = choose|k: int| 0 <= k < edges.len() && edges[k] == bk[bk.len() - 1 - jj];
            assert(nv_edge_between(edges[k], a, b, min_bw));
        }
    }
    if exists|k: int| 0 <= k < edges.len() && #[trigger] nv_edge_between(edges[k], a, b, min_bw) {
        let k = choose|k: int| 0 <= k < edges.len() && #[trigger] nv_edge_between(edges[k], a, b, min_bw);
        if pf(edges[k]) {
            lemma_filter_has(edges, pf, k);
            let j = choose|j: int| 0 <= j < f.len() && f[j] == edges[k];
            lemma_reverse_index(f, j);
            assert(c[f.len() - 1 - j] == edges[k]);
        } else {
            assert(pb(edges[k]));
            assert(a != b);
            lemma_filter_has(edges, pb, k);
            let j = choose|j: int| 0 <= j < bk.len() && bk[j] == edges[k];
            lemma_reverse_index(bk, j);
            assert(c[f.len() + bk.len() - 1 - j] == edges[k]);
        }
    }
}

// ---------------------------------------------------------------------------
// NVLink clique search
// ---------------------------------------------------------------------------

pub open spec fn strictly_increasing(p: Seq<int>) -> bool {
    forall|i: int, j: int| 0 <= i < j < p.len() ==> #[trigger] p[i] < #[trigger] p[j]
}

/// `p` picks `size` distinct positions of the healthy-vertex list `c`, in
/// increasing order, whose vertices are pairwise joined by NVLink edges of at
/// least `min_bw` GB/s.
pub open spec fn clique_choice(v: GraphView, c: Seq<int>, p: Seq<int>, size: nat, min_bw: u64) -> bool {
    &&& p.len() == size
    &&& strictly_increasing(p)
    &&& forall|i: int| 0 <= i < p.len() ==> 0 <= #[trigger] p[i] < c.len()
    &&& forall|i: int, j: int| 0 <= i < j < p.len() ==> nv_linked(v, c[#[trigger] p[i]], c[#[trigger] p[j]], min_bw)
}

/// `p` comes strictly before `q` in lexicographic order.
pub open spec fn lex_less(p: Seq<int>, q: Seq<int>) -> bool {
    exists|k: int| 0 <= k < p.len() && k < q.len() && p[k] < q[k]
        && forall|i: int| 0 <= i < k ==> #[trigger] p[i] == q[i]
}

/// `p` is the lexicographically first clique choice of its size.
pub open spec fn first_clique(v: GraphView, c: Seq<int>, p: Seq<int>, size: nat, min_bw: u64) -> bool {
    &&& clique_choice(v, c, p, size, min_bw)
    &&& forall|q: Seq<int>| #[trigger] clique_choice(v, c, q, size, min_bw) ==> !lex_less(q, p)
}

proof fn lemma_first_diff(p: Seq<int>, q: Seq<int>) -> (k: int)
    requires
        p.len() == q.len(),
        p != q,
    ensures
        0 <= k < p.len(),
        p[k] != q[k],
        forall|i: int| 0 <= i < k ==> p[i] == q[i],
    decreases p.len(),
{
    if p.len() == 0 {
        assert(p =~= q);
        0
    } else if p[0] != q[0] {
        0
    } else {
        if p.drop_first() == q.drop_first() {
            assert(p =~= q) by {
                assert forall|i: int| 0 <= i < p.len() implies p[i] == q[i] by {
                    if i > 0 {
                        assert(p.drop_first()[i - 1] == q.drop_first()[i - 1]);
                    }
                }
            }
        }
        let k = lemma_first_diff(p.drop_first(), q.drop_first());
        assert forall|i: int| 0 <= i < k + 1 implies p[i] == q[i] by {
            if i > 0 {
                assert(p.drop_first()[i - 1] == q.drop_first()[i - 1]);
            }
        }
        assert(p[k + 1] == p.drop_first()[k]);
        k + 1
    }
}

/// There is at most one lexicographically first clique choice.
pub proof fn lemma_first_clique_unique(v: GraphView, c: Seq<int>, p: Seq<int>, q: Seq<int>, size: nat, min_bw: u64)
    requires
        first_clique(v, c, p, size, min_bw),
        first_clique(v, c, q, size, min_bw),
    ensures
        p == q,
{
    if p != q {
        let k = lemma_first_diff(p, q);
        if p[k] < q[k] {
            assert(lex_less(p, q));
            assert(clique_choice(v, c, p, size, min_bw));
        } else {
            assert(lex_less(q, p));
            assert(clique_choice(v, c, q, size, min_bw));
        }
    }
}

/// The vertex indices that positions `p` of `c` denote.
pub open spec fn picked(c: Seq<int>, p: Seq<int>) -> Seq<int> {
    p.map_values(|k: int| c[k])
}

/// `ext` extends the partial choice `cur` by positions at or after `start`.
pub open spec fn ext_ok(v: GraphView, c: Seq<int>, cur: Seq<int>, ext: Seq<int>, start: int, size: nat, min_bw: u64) -> bool {
    &&& forall|i: int| 0 <= i < ext.len() ==> #[trigger] ext[i] >= start
    &&& clique_choice(v, c, cur + ext, size, min_bw)
}

proof fn lemma_increasing_bound(p: Seq<int>, lo: int, i: int)
    requires
        strictly_increasing(p),
        forall|k: int| 0 <= k < p.len() ==> #[trigger] p[k] >= lo,
        0 <= i < p.len(),
    ensures
        p[i] >= lo + i,
    decreases i,
{
    if i > 0 {
        lemma_increasing_bound(p, lo, i - 1);
        assert(p[i - 1] < p[i]);
    }
}

impl ClusterGraph {
    /// True iff some NVLink edge between `a` and `b` has at least `min_bw` GB/s.
    fn has_nvlink_edge(&self, a: usize, b: usize, min_bw: u64) -> (r: bool)
        requires
            self.wf(),
            a < self@.nodes.len(),
            b < self@.nodes.len(),
        ensures
            r == nv_linked(self@, a as int, b as int, min_bw),
    {
        let links = pg_edges_connecting(&self.graph, a, b);
        let ghost c = connecting_edges(self@.edges, a as int, b as int);
        let ghost lv = links@.map_values(|l: Link| link_view(l));
        let ghost cv = c.map_values(|e: EdgeV| edge_link(e));
        assert(lv.len() == links@.len());
        assert(cv.len() == c.len());
        proof {
            lemma_connecting_nv(self@.edges, a as int, b as int, min_bw);
        }
        assert(nv_linked(self@, a as int, b as int, min_bw) == (exists|j: int| 0 <= j < c.len()
            && (#[trigger] c[j]).2 == 0 && c[j].3 as int >= min_bw as int));
        let mut i: usize = 0;
        while i < links.len()
            invariant
                lv == cv,
                lv == links@.map_values(|l: Link| link_view(l)),
                cv == c.map_values(|e: EdgeV| edge_link(e)),
                lv.len() == links@.len(),
                cv.len() == c.len(),
                i <= links@.len(),
                forall|j: int| 0 <= j < i ==> !((#[trigger] c[j]).2 == 0 && c[j].3 as int >= min_bw as int),
                nv_linked(self@, a as int, b as int, min_bw) == (exists|j: int| 0 <= j < c.len()
                    && (#[trigger] c[j]).2 == 0 && c[j].3 as int >= min_bw as int),
            decreases links@.len() - i,
        {
            let l = links[i];
            assert(lv[i as int] == cv[i as int]);
            if matches!(l.kind, LinkKind::NvLink) && l.bandwidth_gbps as u64 >= min_bw {
                assert(c[i as int].2 == 0 && c[i as int].3 as int >= min_bw as int);
                return true;
            }
            i = i + 1;
        }
        false
    }

    /// The gpu_ids of the vertices `idx`.
    fn ids_of(&self, idx: &Vec<usize>) -> (r: Vec<String>)
        requires
            self.wf(),
            forall|i: int| 0 <= i < idx@.len() ==> #[trigger] idx@[i] < self@.nodes.len(),
        ensures
            string_views(r@) == names(self@, idx@.map_values(|i: usize| i as int)),
    {
        let mut r: Vec<String> = Vec::new();
        let mut i: usize = 0;
        while i < idx.len()
            invariant
                self.wf(),
                forall|j: int| 0 <= j < idx@.len() ==> #[trigger] idx@[j] < self@.nodes.len(),
                i <= idx@.len(),
                string_views(r@) == names(self@, idx@.take(i as int).map_values(|i: usize| i as int)),
            decreases idx@.len() - i,
        {
            let node = pg_node(&self.graph, idx[i]);
            let id = node.gpu_id.clone();
            let ghost before = r@;
            r.push(id);
            proof {
                assert(idx@.take(i + 1).map_values(|i: usize| i as int) =~= idx@.take(i as int).map_values(|i: usize| i as int).push(idx@[i as int] as int));
                assert(string_views(r@) =~= string_views(before).push(id@));
                assert(names(self@, idx@.take(i + 1).map_values(|i: usize| i as int)) =~= names(self@, idx@.take(i as int).map_values(|i: usize| i as int)).push(self@.nodes[idx@[i as int] as int].0));
            }
            i = i + 1;
        }
        assert(idx@.take(idx@.len() as int) =~= idx@);
        r
    }

    /// The healthy vertex indices, ascending.
    fn healthy_indices(&self) -> (r: Vec<usize>)
        requires
            self.wf(),
        ensures
            r@.map_values(|i: usize| i as int) == healthy_ids(self@),
    {
        let n = pg_node_count(&self.graph);
        let mut r: Vec<usize> = Vec::new();
        let mut i: usize = 0;
        while i < n
            invariant
                self.wf(),
                n == self@.nodes.len(),
                i <= n,
                r@.map_values(|i: usize| i as int) == healthy_prefix(self@.nodes, i as int),
            decreases n - i,
        {
            let node = pg_node(&self.graph, i);
            if node.healthy {
                r.push(i);
                assert(r@.map_values(|i: usize| i as int) =~= healthy_prefix(self@.nodes, i as int).push(i as int));
            }
            i = i + 1;
        }
        r
    }

    /// Recursive backtracking over the candidate positions `start..`; `current`
    /// holds the vertices of the partial clique `cur` (positions into `cands`).
    fn clique_search(
        &self,
        cands: &Vec<usize>,
        start: usize,
        target: usize,
        min_bw: u64,
        current: &mut Vec<usize>,
        Ghost(cur): Ghost<Seq<int>>,
    ) -> (r: Option<Vec<String>>)
        requires
            self.wf(),
            cands@.map_values(|i: usize| i as int) == healthy_ids(self@),
            start <= cands@.len(),
            old(current)@.len() == cur.len(),
            cur.len() <= target,
            strictly_increasing(cur),
            forall|i: int| 0 <= i < cur.len() ==> 0 <= #[trigger] cur[i] < start,
            forall|i: int| 0 <= i < cur.len() ==> old(current)@[i] as int == healthy_ids(self@)[#[trigger] cur[i]],
            forall|i: int, j: int| 0 <= i < j < cur.len()
                ==> nv_linked(self@, healthy_ids(self@)[#[trigger] cur[i]], healthy_ids(self@)[#[trigger] cur[j]], min_bw),
        ensures
            final(current)@ == old(current)@,
            match r {
                None => forall|ext: Seq<int>| !#[trigger] ext_ok(self@, healthy_ids(self@), cur, ext, start as int, target as nat, min_bw),
                Some(ids) => exists|ext: Seq<int>| {
                    &&& #[trigger] ext_ok(self@, healthy_ids(self@), cur, ext, start as int, target as nat, min_bw)
                    &&& forall|e2: Seq<int>| #[trigger] ext_ok(self@, healthy_ids(self@), cur, e2, start as int, target as nat, min_bw) ==> !lex_less(e2, ext)
                    &&& string_views(ids@) == names(self@, picked(healthy_ids(self@), cur + ext))
                },
            },
        decreases cands@.len() - start,
    {
        let ghost c = healthy_ids(self@);
        proof {
            lemma_healthy_prefix(self@.nodes, self@.nodes.len() as int);
            assert forall|k: int| 0 <= k < cands@.len() implies #[trigger] cands@[k] as int == c[k] by {
                assert(cands@.map_values(|i: usize| i as int)[k] == c[k]);
            }
        }
        assert forall|k: int| 0 <= k < c.len() implies 0 <= #[trigger] c[k] < self@.nodes.len() by {
            assert(c == healthy_prefix(self@.nodes, self@.nodes.len() as int));
        }
        assert forall|k: int, l: int| 0 <= k < l < c.len() implies #[trigger] c[k] < #[trigger] c[l] by {
            assert(c == healthy_prefix(self@.nodes, self@.nodes.len() as int));
        }
        if current.len() == target {
            assert forall|i: int| 0 <= i < current@.len() implies #[trigger] current@[i] < self@.nodes.len() by {
                assert(current@[i] as int == c[cur[i]]);
            }
            let ids = self.ids_of(current);
            proof {
                let ext = Seq::<int>::empty();
                assert(cur + ext =~= cur);
                assert(ext_ok(self@, c, cur, ext, start as int, target as nat, min_bw));
                assert forall|e2: Seq<int>| #[trigger] ext_ok(self@, c, cur, e2, start as int, target as nat, min_bw) implies !lex_less(e2, ext) by {}
                assert(current@.map_values(|i: usize| i as int) =~= picked(c, cur + ext));
            }
            return Some(ids);
        }
        let remaining = cands.len() - start;
        if remaining < target - current.len() {
            proof {
                assert forall|ext: Seq<int>| !#[trigger] ext_ok(self@, c, cur, ext, start as int, target as nat, min_bw) by {
                    if ext_ok(self@, c, cur, ext, start as int, target as nat, min_bw) {
                        let full = cur + ext;
                        assert(ext.len() == target - cur.len());
                        assert(strictly_increasing(ext)) by {
                            assert forall|i: int, j: int| 0 <= i < j < ext.len() implies #[trigger] ext[i] < #[trigger] ext[j] by {
                                assert(full[cur.len() + i] < full[cur.len() + j]);
                            }
                        }
                        lemma_increasing_bound(ext, start as int, ext.len() - 1);
                        assert(full[cur.len() + ext.len() - 1] < c.len());
                    }
                }
            }
            return None;
        }
        let mut pos = start;
        while pos < cands.len()
            invariant
                self.wf(),
                c == healthy_ids(self@),
                cands@.map_values(|i: usize| i as int) == c,
                forall|k: int| 0 <= k < cands@.len() ==> #[trigger] cands@[k] as int == c[k],
                forall|k: int| 0 <= k < c.len() ==> 0 <= #[trigger] c[k] < self@.nodes.len(),
                forall|k: int, l: int| 0 <= k < l < c.len() ==> #[trigger] c[k] < #[trigger] c[l],
                start <= pos <= cands@.len(),
                current@ == old(current)@,
                current@.len() == cur.len(),
                cur.len() < target,
                strictly_increasing(cur),
                forall|i: int| 0 <= i < cur.len() ==> 0 <= #[trigger] cur[i] < start,
                forall|i: int| 0 <= i < cur.len() ==> current@[i] as int == c[#[trigger] cur[i]],
                forall|i: int, j: int| 0 <= i < j < cur.len() ==> nv_linked(self@, c[#[trigger] cur[i]], c[#[trigger] cur[j]], min_bw),
                forall|ext: Seq<int>| #[trigger] ext_ok(self@, c, cur, ext, start as int, target as nat, min_bw) ==> ext[0] >= pos,
            decreases cands@.len() - pos,
        {
            let node = cands[pos];
            let mut compatible = true;
            let mut j: usize = 0;
            while j < current.len()
                invariant
                    self.wf(),
                    j <= current@.len(),
                    current@.len() == cur.len(),
                    node < self@.nodes.len(),
                    forall|i: int| 0 <= i < cur.len() ==> current@[i] as int == c[#[trigger] cur[i]],
                    forall|k: int| 0 <= k < c.len() ==> 0 <= #[trigger] c[k] < self@.nodes.len(),
                    forall|i: int| 0 <= i < cur.len() ==> 0 <= #[trigger] cur[i] < start,
                    start <= cands@.len(),
                    cands@.len() == c.len(),
                    compatible == forall|i: int| 0 <= i < j ==> nv_linked(self@, #[trigger] current@[i] as int, node as int, min_bw),
                decreases current@.len() - j,
            {
                assert(current@[j as int] < self@.nodes.len()) by {
                    assert(current@[j as int] as int == c[cur[j as int]]);
                }
                if !self.has_nvlink_edge(current[j], node, min_bw) {
                    compatible = false;
                }
                j = j + 1;
            }
            if compatible {
                let ghost cur2 = cur.push(pos as int);
                current.push(node);
                proof {
                    assert forall|i: int, k: int| 0 <= i < k < cur2.len()
                        implies nv_linked(self@, c[#[trigger] cur2[i]], c[#[trigger] cur2[k]], min_bw) by {
                        if k == cur.len() {
                            assert(current@[i] as int == c[cur[i]]);
                            assert(nv_linked(self@, current@[i] as int, node as int, min_bw));
                        } else {
                            assert(cur2[i] == cur[i] && cur2[k] == cur[k]);
                        }
                    }
                    assert(strictly_increasing(cur2)) by {
                        assert forall|i: int, k: int| 0 <= i < k < cur2.len() implies #[trigger] cur2[i] < #[trigger] cur2[k] by {
                            if k == cur.len() {
                                assert(cur2[i] == cur[i]);
                            } else {
                                assert(cur2[i] == cur[i] && cur2[k] == cur[k]);
                            }
                        }
                    }
                }
                let found = self.clique_search(cands, pos + 1, target, min_bw, current, Ghost(cur2));
                let _ = current.pop();
                assert(current@ =~= old(current)@);
                match found {
                    Some(ids) => {
                        proof {
                            let ext2 = choose|ext: Seq<int>| {
                                &&& #[trigger] ext_ok(self@, c, cur2, ext, pos + 1, target as nat, min_bw)
                                &&& forall|e2: Seq<int>| #[trigger] ext_ok(self@, c, cur2, e2, pos + 1, target as nat, min_bw) ==> !lex_less(e2, ext)
                                &&& string_views(ids@) == names(self@, picked(c, cur2 + ext))
                            };
                            let ext = seq![pos as int] + ext2;
                            assert(cur + ext =~= cur2 + ext2);
                            assert(ext_ok(self@, c, cur, ext, start as int, target as nat, min_bw));
                            assert forall|e2: Seq<int>| #[trigger] ext_ok(self@, c, cur, e2, start as int, target as nat, min_bw)
                                implies !lex_less(e2, ext) by {
                                assert(e2[0] >= pos);
                                if e2[0] == pos {
                                    let t = e2.drop_first();
                                    assert(cur2 + t =~= cur + e2);
                                    assert forall|i: int| 0 <= i < t.len() implies #[trigger] t[i] >= pos + 1 by {
                                        assert((cur + e2)[cur.len() as int] < (cur + e2)[cur.len() + 1 + i]);
                                    }
                                    assert(ext_ok(self@, c, cur2, t, pos + 1, target as nat, min_bw));
                                    assert(!lex_less(t, ext2));
                                    if lex_less(e2, ext) {
                                        let k = choose|k: int| 0 <= k < e2.len() && k < ext.len() && e2[k] < ext[k]
                                            && forall|i: int| 0 <= i < k ==> #[trigger] e2[i] == ext[i];
                                        assert(k > 0);
                                        assert(t[k - 1] < ext2[k - 1]);
                                        assert forall|i: int| 0 <= i < k - 1 implies #[trigger] t[i] == ext2[i] by {
                                            assert(e2[i + 1] == ext[i + 1]);
                                        }
                                        assert(lex_less(t, ext2));
                                    }
                                } else {
                                    if lex_less(e2, ext) {
                                        let k = choose|k: int| 0 <= k < e2.len() && k < ext.len() && e2[k] < ext[k]
                                            && forall|i: int| 0 <= i < k ==> #[trigger] e2[i] == ext[i];
                                        if k > 0 {
                                            assert(e2[0] == ext[0]);
                                        }
                                    }
                                }
                            }
                        }
                        return Some(ids);
                    },
                    None => {
                        proof {
                            assert forall|ext: Seq<int>| #[trigger] ext_ok(self@, c, cur, ext, start as int, target as nat, min_bw)
                                implies ext[0] >= pos + 1 by {
                                if ext[0] == pos {
                                    let t = ext.drop_first();
                                    assert(cur2 + t =~= cur + ext);
                                    assert forall|i: int| 0 <= i < t.len() implies #[trigger] t[i] >= pos + 1 by {
                                        assert((cur + ext)[cur.len() as int] < (cur + ext)[cur.len() + 1 + i]);
                                    }
                                    assert(ext_ok(self@, c, cur2, t, pos + 1, target as nat, min_bw));
                                }
                            }
                        }
                    },
                }
            } else {
                proof {
                    let jw = choose|i: int| 0 <= i < current@.len() && !nv_linked(self@, #[trigger] current@[i] as int, node as int, min_bw);
                    assert forall|ext: Seq<int>| #[trigger] ext_ok(self@, c, cur, ext, start as int, target as nat, min_bw)
                        implies ext[0] >= pos + 1 by {
                        if ext[0] == pos {
                            let full = cur + ext;
                            assert(full[jw] == cur[jw]);
                            assert(full[cur.len() as int] == pos);
                            assert(nv_linked(self@, c[full[jw]], c[full[cur.len() as int]], min_bw));
                            assert(current@[jw] as int == c[cur[jw]]);
                        }
                    }
                }
            }
            pos = pos + 1;
        }
        proof {
            assert forall|ext: Seq<int>| !#[trigger] ext_ok(self@, c, cur, ext, start as int, target as nat, min_bw) by {
                if ext_ok(self@, c, cur, ext, start as int, target as nat, min_bw) {
                    let full = cur + ext;
                    assert(ext[0] >= pos);
                    assert(full[cur.len() as int] == ext[0]);
                }
            }
        }
        None
    }

    /// Find `size` healthy GPUs pairwise joined by NVLink edges of at least
    /// `min_bandwidth_gbps` GB/s. Candidates are the healthy GPUs in vertex
    /// order; the result is the first such clique in lexicographic order of
    /// candidate positions, or `None` when there is none.
    pub fn find_nvlink_clique(&self, size: usize, min_bandwidth_gbps: u64) -> (r: Option<Vec<String>>)
        ensures
            match r {
                None => forall|p: Seq<int>| !#[trigger] clique_choice(self@, healthy_ids(self@), p, size as nat, min_bandwidth_gbps),
                Some(ids) => exists|p: Seq<int>| #[trigger] first_clique(self@, healthy_ids(self@), p, size as nat, min_bandwidth_gbps)
                    && string_views(ids@) == names(self@, picked(healthy_ids(self@), p)),
            },
    {
        proof {
            use_type_invariant(self);
        }
        let candidates = self.healthy_indices();
        let ghost c = healthy_ids(self@);
        if candidates.len() < size {
            proof {
                assert(candidates@.map_values(|i: usize| i as int).len() == candidates@.len());
                assert forall|p: Seq<int>| !#[trigger] clique_choice(self@, c, p, size as nat, min_bandwidth_gbps) by {
                    if clique_choice(self@, c, p, size as nat, min_bandwidth_gbps) {
                        lemma_increasing_bound(p, 0, p.len() - 1);
                    }
                }
            }
            return None;
        }
        let mut current: Vec<usize> = Vec::with_capacity(size);
        let ghost empty = Seq::<int>::empty();
        let r = self.clique_search(&candidates, 0, size, min_bandwidth_gbps, &mut current, Ghost(empty));
        proof {
            assert forall|p: Seq<int>| #[trigger] clique_choice(self@, c, p, size as nat, min_bandwidth_gbps)
                implies ext_ok(self@, c, empty, p, 0, size as nat, min_bandwidth_gbps) by {
                assert(empty + p =~= p);
            }
        }
        match r {
            None => None,
            Some(ids) => {
                proof {
                    let ext = choose|ext: Seq<int>| {
                        &&& #[trigger] ext_ok(self@, c, empty, ext, 0, size as nat, min_bandwidth_gbps)
                        &&& forall|e2: Seq<int>| #[trigger] ext_ok(self@, c, empty, e2, 0, size as nat, min_bandwidth_gbps) ==> !lex_less(e2, ext)
                        &&& string_views(ids@) == names(self@, picked(c, empty + ext))
                    };
                    assert(empty + ext =~= ext);
                    assert(first_clique(self@, c, ext, size as nat, min_bandwidth_gbps));
                }
                Some(ids)
            },
        }
    }
}


// ---------------------------------------------------------------------------
// InfiniBand path search
// ---------------------------------------------------------------------------

/// An InfiniBand edge with at most `max_hops` switch hops joining `a` and `b`.
pub open spec fn ib_edge_between(e: EdgeV, a: int, b: int, max_hops: u32) -> bool {
    &&& ((e.0 == a && e.1 == b) || (e.0 == b && e.1 == a))
    &&& e.2 == 2
    &&& e.4 <= max_hops
}

pub open spec fn ib_linked(v: GraphView, a: int, b: int, max_hops: u32) -> bool {
    exists|k: int| 0 <= k < v.edges.len() && #[trigger] ib_edge_between(v.edges[k], a, b, max_hops)
}

/// `p` is a simple path of healthy GPUs, consecutive GPUs joined by an
/// InfiniBand edge of at most `max_hops` hops.
pub open spec fn ib_path(v: GraphView, p: Seq<int>, max_hops: u32) -> bool {
    &&& p.len() >= 1
    &&& forall|i: int| 0 <= i < p.len() ==> 0 <= #[trigger] p[i] < v.nodes.len() && v.nodes[p[i]].3
    &&& forall|i: int, j: int| 0 <= i < j < p.len() ==> #[trigger] p[i] != #[trigger] p[j]
    &&& forall|i: int| 0 <= i < p.len() - 1 ==> ib_linked(v, #[trigger] p[i], p[i + 1], max_hops)
}

/// Edge `e` joins `a` and `b`, in either direction, and is an InfiniBand
/// edge of at most `max_hops` hops.
pub open spec fn ib_edge_within(e: EdgeV, a: int, b: int, max_hops: u32) -> bool {
    &&& (e.0 == a && e.1 == b) || (e.0 == b && e.1 == a)
    &&& e.2 == kind_code(LinkKind::InfiniBand)
    &&& e.4 <= max_hops
}

/// Some edge of `v` joins `a` and `b` as an InfiniBand edge of at most
/// `max_hops` hops.
pub open spec fn ib_joined(v: GraphView, a: int, b: int, max_hops: u32) -> bool {
    exists|k: int| 0 <= k < v.edges.len() && #[trigger] ib_edge_within(v.edges[k], a, b, max_hops)
}

/// Two GPUs count as InfiniBand-joined within `max_hops` hops exactly when
/// some edge between them, in either direction, is an InfiniBand edge of at
/// most that many hops.
pub proof fn lemma_ib_linked_iff_edge(v: GraphView, a: int, b: int, max_hops: u32)
    ensures
        ib_linked(v, a, b, max_hops) <==> ib_joined(v, a, b, max_hops),
{
    if ib_linked(v, a, b, max_hops) {
        let k = choose|k: int| 0 <= k < v.edges.len() && #[trigger] ib_edge_between(v.edges[k], a, b, max_hops);
        assert(ib_edge_within(v.edges[k], a, b, max_hops));
    }
    if exists|k: int| 0 <= k < v.edges.len() && #[trigger] ib_edge_within(v.edges[k], a, b, max_hops) {
        let k = choose|k: int| 0 <= k < v.edges.len() && #[trigger] ib_edge_within(v.edges[k], a, b, max_hops);
        assert(ib_edge_between(v.edges[k], a, b, max_hops));
    }
}

pub open spec fn as_ints(s: Seq<usize>) -> Seq<int> {
    s.map_values(|i: usize| i as int)
}

proof fn lemma_distinct_len(p: Seq<int>, n: int)
    requires
        0 <= n,
        forall|i: int| 0 <= i < p.len() ==> 0 <= #[trigger] p[i] < n,
        forall|i: int, j: int| 0 <= i < j < p.len() ==> #[trigger] p[i] != #[trigger] p[j],
    ensures
        p.len() <= n,
{
    if p.len() > 0 {
        assert(0 <= p[0] < n);
        assert(p.no_duplicates()) by {
            assert forall|i: int, j: int| 0 <= i < p.len() && 0 <= j < p.len() && i != j
                implies p[i] != p[j] by {
                if i < j {
                } else {
                    assert(p[j] != p[i]);
                }
            }
        }
        p.unique_seq_to_set();
        vstd::set_lib::lemma_int_range(0, n);
        assert(p.to_set().subset_of(vstd::set_lib::set_int_range(0, n))) by {
            assert forall|x: int| p.to_set().contains(x)
                implies vstd::set_lib::set_int_range(0, n).contains(x) by {
                let i = choose|i: int| 0 <= i < p.len() && p[i] == x;
                assert(0 <= p[i] < n);
            }
        }
        vstd::set_lib::lemma_len_subset(p.to_set(), vstd::set_lib::set_int_range(0, n));
    }
}

/// Every incident item stands for an edge with the same endpoints and payload,
/// and every edge at `a` to another vertex is listed.
pub proof fn lemma_incident(edges: Seq<EdgeV>, a: int)
    ensures
        forall|j: int| 0 <= j < incident_edges(edges, a).len() ==> {
            let t = #[trigger] incident_edges(edges, a)[j];
            &&& t.0 == a
            &&& exists|k: int| 0 <= k < edges.len()
                && ((edges[k].0 == a && edges[k].1 == t.1) || (edges[k].1 == a && edges[k].0 == t.1))
                && edge_link(edges[k]) == t.2
        },
        forall|k: int| 0 <= k < edges.len() && (edges[k].0 == a || edges[k].1 == a) && edges[k].0 != edges[k].1 ==>
            exists|j: int| 0 <= j < incident_edges(edges, a).len()
                && #[trigger] incident_edges(edges, a)[j] == (a, if edges[k].0 == a { edges[k].1 } else { edges[k].0 }, edge_link(edges[k])),
{
    let fo = edges.filter(leaves(a));
    let fi = edges.filter(enters(a));
    let outs = fo.reverse().map_values(|e: EdgeV| (a, e.1, edge_link(e)));
    let ins = fi.reverse().map_values(|e: EdgeV| (a, e.0, edge_link(e)));
    let inc = incident_edges(edges, a);
    assert(inc == outs + ins);
    assert forall|j: int| 0 <= j < inc.len() implies {
        let t = #[trigger] inc[j];
        &&& t.0 == a
        &&& exists|k: int| 0 <= k < edges.len()
            && ((edges[k].0 == a && edges[k].1 == t.1) || (edges[k].1 == a && edges[k].0 == t.1))
            && edge_link(edges[k]) == t.2
    } by {
        if j < outs.len() {
            lemma_reverse_index(fo, j);
            lemma_filter_in(edges, leaves(a), fo.len() - 1 - j);
            let k = choose|k: int| 0 <= k < edges.len() && edges[k] == fo[fo.len() - 1 - j];
            assert(edges[k].0 == a && edges[k].1 == inc[j].1);
        } else {
            let jj = j - outs.len();
            lemma_reverse_index(fi, jj);
            lemma_filter_in(edges, enters(a), fi.len() - 1 - jj);
            let k = choose|k: int| 0 <= k < edges.len() && edges[k] == fi[fi.len() - 1 - jj];
            assert(edges[k].1 == a && edges[k].0 == inc[j].1);
        }
    }
    assert forall|k: int| 0 <= k < edges.len() && (edges[k].0 == a || edges[k].1 == a) && edges[k].0 != edges[k].1 implies
        exists|j: int| 0 <= j < inc.len()
            && #[trigger] inc[j] == (a, if edges[k].0 == a { edges[k].1 } else { edges[k].0 }, edge_link(edges[k])) by {
        if edges[k].0 == a {
            assert(leaves(a)(edges[k]));
            lemma_filter_has(edges, leaves(a), k);
            let j = choose|j: int| 0 <= j < fo.len() && fo[j] == edges[k];
            lemma_reverse_index(fo, j);
            assert(inc[fo.len() - 1 - j] == (a, edges[k].1, edge_link(edges[k])));
        } else {
            assert(enters(a)(edges[k]));
            lemma_filter_has(edges, enters(a), k);
            let j = choose|j: int| 0 <= j < fi.len() && fi[j] == edges[k];
            lemma_reverse_index(fi, j);
            assert(inc[outs.len() + fi.len() - 1 - j] == (a, edges[k].0, edge_link(edges[k])));
        }
    }
}

fn copy_indices(v: &Vec<usize>) -> (r: Vec<usize>)
    ensures
        r@ == v@,
{
    let mut r: Vec<usize> = Vec::new();
    let mut i: usize = 0;
    while i < v.len()
        invariant
            i <= v@.len(),
            r@ == v@.take(i as int),
        decreases v@.len() - i,
    {
        r.push(v[i]);
        i = i + 1;
        assert(r@ =~= v@.take(i as int));
    }
    assert(v@.take(v@.len() as int) =~= v@);
    r
}

/// Appending a healthy, unvisited GPU reached over a qualifying InfiniBand
/// edge from the last GPU keeps a path valid.
pub proof fn lemma_extend_ib_path(v: GraphView, p0: Seq<int>, x: int, k: int, max_hops: u32)
    requires
        ib_path(v, p0, max_hops),
        0 <= x < v.nodes.len(),
        v.nodes[x].3,
        forall|a: int| 0 <= a < p0.len() ==> p0[a] != x,
        0 <= k < v.edges.len(),
        ib_edge_between(v.edges[k], p0[p0.len() - 1], x, max_hops),
    ensures
        ib_path(v, p0.push(x), max_hops),
{
    let p1 = p0.push(x);
    assert(ib_linked(v, p0[p0.len() - 1], x, max_hops));
    assert forall|a: int, b: int| 0 <= a < b < p1.len() implies #[trigger] p1[a] != #[trigger] p1[b] by {
        if b == p0.len() {
            assert(p1[a] == p0[a]);
        } else {
            assert(p1[a] == p0[a] && p1[b] == p0[b]);
        }
    }
    assert forall|i: int| 0 <= i < p1.len() - 1 implies ib_linked(v, #[trigger] p1[i], p1[i + 1], max_hops) by {
        if i < p0.len() - 1 {
            assert(p1[i] == p0[i] && p1[i + 1] == p0[i + 1]);
        } else {
            assert(p1[i] == p0[p0.len() - 1] && p1[i + 1] == x);
        }
    }
    assert forall|i: int| 0 <= i < p1.len() implies 0 <= #[trigger] p1[i] < v.nodes.len() && v.nodes[p1[i]].3 by {
        if i < p0.len() {
            assert(p1[i] == p0[i]);
        }
    }
}

impl ClusterGraph {
    /// Push `next` (reached from `current` over edge `k`) onto `path`, search
    /// on from there, and pop it again.
    #[verifier::spinoff_prover]
    fn dfs_extend(&self, current: usize, next: usize, target: usize, max_hops: u32, path: &mut Vec<usize>, Ghost(k): Ghost<int>) -> (r: Option<Vec<usize>>)
        requires
            self.wf(),
            ib_path(self@, as_ints(old(path)@), max_hops),
            old(path)@.last() == current,
            0 <= next < self@.nodes.len(),
            self@.nodes[next as int].3,
            !as_ints(old(path)@).contains(next as int),
            0 <= k < self@.edges.len(),
            ib_edge_between(self@.edges[k], current as int, next as int, max_hops),
        ensures
            final(path)@ == old(path)@,
            old(path)@.len() < self@.nodes.len(),
            match r {
                Some(full) => ib_path(self@, as_ints(full@), max_hops) && full@.len() == target
                    && as_ints(old(path)@).push(next as int).is_prefix_of(as_ints(full@)),
                None => forall|q: Seq<int>| #[trigger] ib_path(self@, q, max_hops) && q.len() == target
                    ==> !as_ints(old(path)@).push(next as int).is_prefix_of(q),
            },
            dfs_from(self@, as_ints(old(path)@).push(next as int), target as int, max_hops) == match r {
                Some(full) => Some(as_ints(full@)),
                None => None::<Seq<int>>,
            },
        decreases self@.nodes.len() - old(path)@.len(), 0nat,
    {
        let ghost p0 = as_ints(path@);
        let ghost p1 = p0.push(next as int);
        path.push(next);
        proof {
            assert(as_ints(path@) =~= p1);
            assert(p0[p0.len() - 1] == current as int);
            assert forall|a: int| 0 <= a < p0.len() implies p0[a] != next as int by {
                if p0[a] == next as int {
                    assert(p0.contains(next as int));
                }
            }
            lemma_extend_ib_path(self@, p0, next as int, k, max_hops);
            lemma_distinct_len(p1, self@.nodes.len() as int);
        }
        let found = self.dfs_ib_path(next, target, max_hops, path);
        let _ = path.pop();
        assert(path@ =~= old(path)@);
        found
    }

    /// Depth-first extension of `path` (ending at `current`) by one
    /// IB-connected, healthy, unvisited GPU at a time, following the edges in
    /// `Graph::edges` order.
    #[verifier::spinoff_prover]
    #[verifier::rlimit(100)]
    fn dfs_ib_path(&self, current: usize, target: usize, max_hops: u32, path: &mut Vec<usize>) -> (r: Option<Vec<usize>>)
        requires
            self.wf(),
            ib_path(self@, as_ints(old(path)@), max_hops),
            old(path)@.last() == current,
        ensures
            final(path)@ == old(path)@,
            match r {
                Some(full) => ib_path(self@, as_ints(full@), max_hops) && full@.len() == target
                    && as_ints(old(path)@).is_prefix_of(as_ints(full@)),
                None => forall|q: Seq<int>| #[trigger] ib_path(self@, q, max_hops) && q.len() == target
                    ==> !as_ints(old(path)@).is_prefix_of(q),
            },
            dfs_from(self@, as_ints(old(path)@), target as int, max_hops) == match r {
                Some(full) => Some(as_ints(full@)),
                None => None::<Seq<int>>,
            },
        decreases self@.nodes.len() - old(path)@.len(), 1nat,
    {
        let ghost p0 = as_ints(path@);
        proof {
            lemma_distinct_len(p0, self@.nodes.len() as int);
            assert(p0[p0.len() - 1] == path@[path@.len() - 1] as int);
        }
        if path.len() == target {
            let full = copy_indices(path);
            proof {
                lemma_dfs_from_unfold(self@, p0, target as int, max_hops);
            }
            return Some(full);
        }
        proof {
            lemma_dfs_from_unfold(self@, p0, target as int, max_hops);
        }
        let incident = pg_edges(&self.graph, current);
        let ghost inc = incident_edges(self@.edges, current as int);
        proof {
            lemma_incident(self@.edges, current as int);
        }
        let ghost iv = incident@.map_values(|t: (usize, usize, Link)| (t.0 as int, t.1 as int, link_view(t.2)));
        assert(iv.len() == incident@.len());
        assert forall|jj: int| 0 <= jj < inc.len() implies {
            let t = #[trigger] inc[jj];
            &&& t.0 == current as int
            &&& exists|k: int| 0 <= k < self@.edges.len()
                && ((self@.edges[k].0 == current as int && self@.edges[k].1 == t.1) || (self@.edges[k].1 == current as int && self@.edges[k].0 == t.1))
                && edge_link(self@.edges[k]) == t.2
        } by {
            let t = incident_edges(self@.edges, current as int)[jj];
            assert(t == inc[jj]);
        }
        let mut j: usize = 0;
        while j < incident.len()
            invariant
                self.wf(),
                iv == inc,
                iv == incident@.map_values(|t: (usize, usize, Link)| (t.0 as int, t.1 as int, link_view(t.2))),
                iv.len() == incident@.len(),
                j <= incident@.len(),
                path@ == old(path)@,
                p0 == as_ints(path@),
                ib_path(self@, p0, max_hops),
                path@.last() == current,
                p0.len() != target,
                p0.len() <= self@.nodes.len(),
                p0[p0.len() - 1] == current as int,
                forall|jj: int| 0 <= jj < inc.len() ==> {
                    let t = #[trigger] inc[jj];
                    &&& t.0 == current as int
                    &&& exists|k: int| 0 <= k < self@.edges.len()
                        && ((self@.edges[k].0 == current as int && self@.edges[k].1 == t.1) || (self@.edges[k].1 == current as int && self@.edges[k].0 == t.1))
                        && edge_link(self@.edges[k]) == t.2
                },
                forall|q: Seq<int>, jj: int| #[trigger] ib_path(self@, q, max_hops) && q.len() == target && p0.is_prefix_of(q)
                    && 0 <= jj < j ==> !(#[trigger] inc[jj].1 == q[p0.len() as int] && inc[jj].2.0 == 2 && inc[jj].2.2 <= max_hops),
                inc == incident_edges(self@.edges, p0.last()),
                dfs_from(self@, p0, target as int, max_hops) == dfs_edges(self@, p0, target as int, max_hops, j as int),
            decreases incident@.len() - j,
        {
            let (src, tgt, link) = incident[j];
            assert(iv[j as int] == inc[j as int]);
            let next = if src == current { tgt } else { src };
            assert(next as int == inc[j as int].1);
            let mut visited = false;
            let mut m: usize = 0;
            while m < path.len()
                invariant
                    m <= path@.len(),
                    visited == exists|i: int| 0 <= i < m && path@[i] == next,
                decreases path@.len() - m,
            {
                if path[m] == next {
                    visited = true;
                }
                m = m + 1;
            }
            let ghost t = inc[j as int];
            let ghost k = choose|k: int| 0 <= k < self@.edges.len()
                && ((self@.edges[k].0 == current as int && self@.edges[k].1 == t.1) || (self@.edges[k].1 == current as int && self@.edges[k].0 == t.1))
                && edge_link(self@.edges[k]) == t.2;
            assert(0 <= next < self@.nodes.len()) by {
                assert(0 <= self@.edges[k].0 < self@.nodes.len() && 0 <= self@.edges[k].1 < self@.nodes.len());
            }
            if visited {
                proof {
                    assert forall|q: Seq<int>, jj: int| #[trigger] ib_path(self@, q, max_hops) && q.len() == target && p0.is_prefix_of(q)
                        && 0 <= jj < j + 1 implies !(#[trigger] inc[jj].1 == q[p0.len() as int] && inc[jj].2.0 == 2 && inc[jj].2.2 <= max_hops) by {
                        if jj == j && inc[jj].1 == q[p0.len() as int] {
                            let i = choose|i: int| 0 <= i < m && path@[i] == next;
                            assert(q[i] == p0[i]);
                            assert(q[i] == q[p0.len() as int]);
                        }
                    }
                    let i = choose|i: int| 0 <= i < m && path@[i] == next;
                    assert(p0[i] == next as int);
                    assert(p0.contains(next as int));
                    lemma_dfs_edges_unfold(self@, p0, target as int, max_hops, j as int);
                }
                j = j + 1;
                continue;
            }
            let node = pg_node(&self.graph, next);
            if !node.healthy {
                proof {
                    assert forall|q: Seq<int>, jj: int| #[trigger] ib_path(self@, q, max_hops) && q.len() == target && p0.is_prefix_of(q)
                        && 0 <= jj < j + 1 implies !(#[trigger] inc[jj].1 == q[p0.len() as int] && inc[jj].2.0 == 2 && inc[jj].2.2 <= max_hops) by {
                        if jj == j && inc[jj].1 == q[p0.len() as int] {
                            assert(self@.nodes[q[p0.len() as int]].3);
                        }
                    }
                    lemma_dfs_edges_unfold(self@, p0, target as int, max_hops, j as int);
                }
                j = j + 1;
                continue;
            }
            if matches!(link.kind, LinkKind::InfiniBand) && link.ib_hop_count <= max_hops {
                let ghost p1 = p0.push(next as int);
                proof {
                    assert(ib_edge_between(self@.edges[k], current as int, next as int, max_hops));
                    assert(!p0.contains(next as int)) by {
                        if p0.contains(next as int) {
                            let a = choose|a: int| 0 <= a < p0.len() && p0[a] == next as int;
                            assert(path@[a] == next);
                        }
                    }
                }
                let found = self.dfs_extend(current, next, target, max_hops, path, Ghost(k));
                proof {
                    assert(dfs_step_ok(self@, p0, inc[j as int].1, inc[j as int].2, max_hops));
                    lemma_dfs_edges_unfold(self@, p0, target as int, max_hops, j as int);
                }
                match found {
                    Some(full) => {
                        proof {
                            assert(p0.is_prefix_of(as_ints(full@))) by {
                                assert forall|i: int| 0 <= i < p0.len() implies p0[i] == as_ints(full@)[i] by {
                                    assert(p1[i] == p0[i]);
                                }
                            }
                        }
                        return Some(full);
                    },
                    None => {
                        proof {
                            assert forall|q: Seq<int>, jj: int| #[trigger] ib_path(self@, q, max_hops) && q.len() == target && p0.is_prefix_of(q)
                                && 0 <= jj < j + 1 implies !(#[trigger] inc[jj].1 == q[p0.len() as int] && inc[jj].2.0 == 2 && inc[jj].2.2 <= max_hops) by {
                                if jj == j && inc[jj].1 == q[p0.len() as int] {
                                    assert(p1.is_prefix_of(q)) by {
                                        assert forall|i: int| 0 <= i < p1.len() implies p1[i] == q[i] by {
                                            if i < p0.len() {
                                                assert(p0[i] == q[i]);
                                            }
                                        }
                                    }
                                }
                            }
                        }
                    },
                }
            } else {
                proof {
                    assert(link_view(link) == inc[j as int].2);
                    lemma_dfs_edges_unfold(self@, p0, target as int, max_hops, j as int);
                }
            }
            j = j + 1;
        }
        proof {
            lemma_dfs_edges_unfold(self@, p0, target as int, max_hops, j as int);
            assert forall|q: Seq<int>| #[trigger] ib_path(self@, q, max_hops) && q.len() == target
                implies !p0.is_prefix_of(q) by {
                if p0.is_prefix_of(q) {
                    let x = q[p0.len() as int];
                    assert(q[p0.len() - 1] == current as int);
                    assert(ib_linked(self@, q[p0.len() - 1], q[p0.len() as int], max_hops));
                    let k = choose|k: int| 0 <= k < self@.edges.len() && #[trigger] ib_edge_between(self@.edges[k], current as int, x, max_hops);
                    assert(x != current as int);
                    let jj = choose|jj: int| 0 <= jj < inc.len()
                        && #[trigger] inc[jj] == (current as int, if self@.edges[k].0 == current as int { self@.edges[k].1 } else { self@.edges[k].0 }, edge_link(self@.edges[k]));
                    assert(inc[jj].1 == x);
                }
            }
        }
        None
    }

    /// Find a simple path of exactly `size` healthy GPUs, consecutive GPUs
    /// joined by an InfiniBand edge with `ib_hop_count <= max_hops`.
    /// Depth-first search from each healthy GPU in vertex order (see
    /// `ib_search`); `None` when no such path exists.
    pub fn find_ib_path(&self, size: usize, max_hops: u32) -> (r: Option<Vec<String>>)
        ensures
            match r {
                None => ib_search(self@, size as int, max_hops) is None
                    && forall|p: Seq<int>| !(#[trigger] ib_path(self@, p, max_hops) && p.len() == size),
                Some(ids) => ib_search(self@, size as int, max_hops) is Some && {
                    let p = ib_search(self@, size as int, max_hops)->Some_0;
                    &&& ib_path(self@, p, max_hops)
                    &&& p.len() == size
                    &&& string_views(ids@) == names(self@, p)
                },
            },
    {
        proof {
            use_type_invariant(self);
        }
        let candidates = self.healthy_indices();
        let ghost c = healthy_ids(self@);
        proof {
            lemma_healthy_prefix(self@.nodes, self@.nodes.len() as int);
            assert(candidates@.map_values(|i: usize| i as int).len() == candidates@.len());
        }
        assert forall|k: int| 0 <= k < candidates@.len() implies #[trigger] candidates@[k] as int == c[k] by {
            assert(candidates@.map_values(|i: usize| i as int)[k] == c[k]);
        }
        if candidates.len() < size {
            proof {
                assert forall|p: Seq<int>| !(#[trigger] ib_path(self@, p, max_hops) && p.len() == size) by {
                    if ib_path(self@, p, max_hops) && p.len() == size {
                        let pos = Seq::new(p.len(), |i: int| choose|m: int| 0 <= m < c.len() && c[m] == p[i]);
                        assert forall|i: int| 0 <= i < pos.len() implies 0 <= #[trigger] pos[i] < c.len() && c[pos[i]] == p[i] by {
                            assert(c.contains(p[i]));
                        }
                        assert forall|i: int, j: int| 0 <= i < j < pos.len() implies #[trigger] pos[i] != #[trigger] pos[j] by {
                            assert(c[pos[i]] == p[i] && c[pos[j]] == p[j]);
                        }
                        lemma_distinct_len(pos, c.len() as int);
                    }
                }
            }
            return None;
        }
        let mut i: usize = 0;
        while i < candidates.len()
            invariant
                self.wf(),
                c == healthy_ids(self@),
                i <= candidates@.len(),
                candidates@.len() == c.len(),
                forall|k: int| 0 <= k < candidates@.len() ==> #[trigger] candidates@[k] as int == c[k],
                forall|k: int| 0 <= k < c.len() ==> 0 <= #[trigger] c[k] < self@.nodes.len() && self@.nodes[c[k]].3,
                forall|p: Seq<int>, k: int| #[trigger] ib_path(self@, p, max_hops) && p.len() == size && 0 <= k < i ==> p[0] != #[trigger] c[k],
                c.len() >= size,
                ib_search(self@, size as int, max_hops) == dfs_starts(self@, c, i as int, size as int, max_hops),
            decreases candidates@.len() - i,
        {
            let start = candidates[i];
            let mut path: Vec<usize> = Vec::with_capacity(size);
            path.push(start);
            proof {
                let p = as_ints(path@);
                assert(p =~= seq![start as int]);
                assert(ib_path(self@, p, max_hops));
                assert(seq![c[i as int]] =~= p);
                lemma_dfs_starts_unfold(self@, c, i as int, size as int, max_hops);
            }
            match self.dfs_ib_path(start, size, max_hops, &mut path) {
                Some(full) => {
                    proof {
                        assert forall|k: int| 0 <= k < full@.len() implies #[trigger] full@[k] < self@.nodes.len() by {
                            assert(as_ints(full@)[k] == full@[k] as int);
                        }
                    }
                    let ids = self.ids_of(&full);
                    proof {
                        assert(full@.map_values(|i: usize| i as int) == as_ints(full@));
                    }
                    return Some(ids);
                },
                None => {
                    proof {
                        assert forall|p: Seq<int>, k: int| #[trigger] ib_path(self@, p, max_hops) && p.len() == size && 0 <= k < i + 1
                            implies p[0] != #[trigger] c[k] by {
                            if k == i && p[0] == c[k] {
                                assert(as_ints(seq![start]) =~= seq![start as int]);
                                assert(seq![start as int].is_prefix_of(p));
                            }
                        }
                    }
                },
            }
            i = i + 1;
        }
        proof {
            lemma_dfs_starts_unfold(self@, c, i as int, size as int, max_hops);
            assert forall|p: Seq<int>| !(#[trigger] ib_path(self@, p, max_hops) && p.len() == size) by {
                if ib_path(self@, p, max_hops) && p.len() == size {
                    assert(c.contains(p[0]));
                    let k = choose|k: int| 0 <= k < c.len() && c[k] == p[0];
                }
            }
        }
        None
    }
}


// ---------------------------------------------------------------------------
// Snapshot
// ---------------------------------------------------------------------------

/// One topology edge named by its endpoints' gpu_ids.
pub struct TopologyLink {
    pub src: String,
    pub dst: String,
    /// 0 for NVLink, 1 for PCIe, 2 for InfiniBand.
    pub kind: i32,
    pub bandwidth_gbps: u32,
    pub ib_hop_count: u32,
}

/// Every vertex and every edge of a `ClusterGraph`, in index order.
pub struct ClusterTopology {
    pub nodes: Vec<GpuNode>,
    pub edges: Vec<TopologyLink>,
}

/// A snapshot edge as plain values: (src, dst, kind code, bandwidth, hops).
pub type TopologyLinkV = (Seq<char>, Seq<char>, int, u32, u32);

pub open spec fn topology_link_view(l: TopologyLink) -> TopologyLinkV {
    (l.src@, l.dst@, l.kind as int, l.bandwidth_gbps, l.ib_hop_count)
}

/// The snapshot record of edge `e` of graph `v`.
pub open spec fn edge_record(v: GraphView, e: EdgeV) -> TopologyLinkV {
    (v.nodes[e.0].0, v.nodes[e.1].0, e.2, e.3, e.4)
}

fn kind_number(k: LinkKind) -> (r: i32)
    ensures
        r as int == kind_code(k),
{
    match k {
        LinkKind::NvLink => 0,
        LinkKind::PCIe => 1,
        LinkKind::InfiniBand => 2,
    }
}

impl ClusterGraph {
    /// Snapshot of the whole topology: the vertices in index order, then each
    /// edge in index order with its endpoints named by gpu_id.
    pub fn to_proto(&self) -> (t: ClusterTopology)
        ensures
            t.nodes@.map_values(|n: GpuNode| node_view(n)) == self@.nodes,
            t.edges@.map_values(|l: TopologyLink| topology_link_view(l))
                == self@.edges.map_values(|e: EdgeV| edge_record(self@, e)),
    {
        proof {
            use_type_invariant(self);
        }
        let n = pg_node_count(&self.graph);
        let mut nodes: Vec<GpuNode> = Vec::new();
        let mut i: usize = 0;
        while i < n
            invariant
                self.wf(),
                n == self@.nodes.len(),
                i <= n,
                nodes@.map_values(|x: GpuNode| node_view(x)) == self@.nodes.subrange(0, i as int),
            decreases n - i,
        {
            let node = pg_node(&self.graph, i);
            let copy = GpuNode {
                gpu_id: node.gpu_id.clone(),
                node_id: node.node_id.clone(),
                numa_domain: node.numa_domain,
                healthy: node.healthy,
            };
            let ghost before = nodes@;
            assert(node_view(copy) == self@.nodes[i as int]);
            nodes.push(copy);
            assert(nodes@ == before.push(copy));
            assert(nodes@.map_values(|x: GpuNode| node_view(x)) =~= before.map_values(|x: GpuNode| node_view(x)).push(node_view(copy)));
            assert(self@.nodes.subrange(0, i + 1) =~= self@.nodes.subrange(0, i as int).push(self@.nodes[i as int]));
            assert(nodes@.map_values(|x: GpuNode| node_view(x)) =~= self@.nodes.subrange(0, i + 1));
            i = i + 1;
        }
        assert(self@.nodes.subrange(0, n as int) =~= self@.nodes);
        let m = pg_edge_count(&self.graph);
        let mut edges: Vec<TopologyLink> = Vec::new();
        let mut k: usize = 0;
        while k < m
            invariant
                self.wf(),
                m == self@.edges.len(),
                k <= m,
                edges@.map_values(|l: TopologyLink| topology_link_view(l))
                    == self@.edges.subrange(0, k as int).map_values(|e: EdgeV| edge_record(self@, e)),
            decreases m - k,
        {
            let (a, b, w) = pg_edge(&self.graph, k);
            let src = pg_node(&self.graph, a).gpu_id.clone();
            let dst = pg_node(&self.graph, b).gpu_id.clone();
            let rec = TopologyLink {
                src,
                dst,
                kind: kind_number(w.kind),
                bandwidth_gbps: w.bandwidth_gbps,
                ib_hop_count: w.ib_hop_count,
            };
            let ghost before = edges@;
            assert(topology_link_view(rec) == edge_record(self@, self@.edges[k as int]));
            edges.push(rec);
            assert(edges@ == before.push(rec));
            assert(edges@.map_values(|l: TopologyLink| topology_link_view(l))
                =~= before.map_values(|l: TopologyLink| topology_link_view(l)).push(topology_link_view(rec)));
            assert(self@.edges.subrange(0, k + 1) =~= self@.edges.subrange(0, k as int).push(self@.edges[k as int]));
            assert(self@.edges.subrange(0, k + 1).map_values(|e: EdgeV| edge_record(self@, e))
                =~= self@.edges.subrange(0, k as int).map_values(|e: EdgeV| edge_record(self@, e)).push(edge_record(self@, self@.edges[k as int])));
            assert(edges@.map_values(|l: TopologyLink| topology_link_view(l))
                =~= self@.edges.subrange(0, k + 1).map_values(|e: EdgeV| edge_record(self@, e)));
            k = k + 1;
        }
        assert(self@.edges.subrange(0, m as int) =~= self@.edges);
        ClusterTopology { nodes, edges }
    }
}

} // verus!
