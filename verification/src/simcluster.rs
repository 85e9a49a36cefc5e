//! The simulated cluster's topology: `gpu_count` GPUs named `gpu-0`,
//! `gpu-1`, ... on `node-0`, linked as the configured topology says.
//!
//!   - `NvlinkFull`: an NVLink edge between every pair, at the configured
//!     NVLink bandwidth.
//!   - `PcieCrossNode`: a PCIe edge between every pair, at 64 GB/s.
//!   - `IbChain`: an InfiniBand edge of one hop between consecutive GPUs, at
//!     the configured InfiniBand bandwidth.

use vstd::prelude::*;
use crate::graph::{gpu_index, has_gpu, kind_code, lemma_gpu_index, ClusterGraph, EdgeV, LinkKind, NodeV};
use crate::text::{dec, lemma_dec_injective, push_decimal, push_str, string_from_chars};

verus! {

/// Shape of the simulated interconnect.
#[derive(Debug, Clone, Copy, PartialEq, Eq)]
pub enum TopologyKind {
    NvlinkFull,
    PcieCrossNode,
    IbChain,
}

/// Bandwidth of the simulated PCIe links, in GB/s.
pub const PCIE_GBPS: u32 = 64;

/// The name of GPU `i`: `gpu-{i}`.
pub open spec fn gpu_name(i: nat) -> Seq<char> {
    "gpu-"@ + dec(i)
}

/// Edges `(i, j)` for `i < j < n` of row `i` of a full mesh.
pub open spec fn mesh_row(n: nat, i: nat, kind: int, bw: u32, hops: u32) -> Seq<EdgeV> {
    Seq::new((if i + 1 <= n { n - i - 1 } else { 0 }) as nat, |t: int| (i as int, i + 1 + t, kind, bw, hops))
}

/// Rows `0..i` of a full mesh over `n` vertices, row by row.
pub open spec fn mesh(n: nat, i: nat, kind: int, bw: u32, hops: u32) -> Seq<EdgeV>
    decreases i,
{
    if i == 0 {
        Seq::empty()
    } else {
        mesh(n, (i - 1) as nat, kind, bw, hops) + mesh_row(n, (i - 1) as nat, kind, bw, hops)
    }
}

/// A chain `0 - 1 - ... - (n-1)`.
pub open spec fn chain(n: nat, kind: int, bw: u32, hops: u32) -> Seq<EdgeV> {
    Seq::new((if n >= 1 { n - 1 } else { 0 }) as nat, |i: int| (i, i + 1, kind, bw, hops))
}

/// The vertices of the simulated cluster.
pub open spec fn sim_nodes(n: nat) -> Seq<NodeV> {
    Seq::new(n, |i: int| (gpu_name(i as nat), "node-0"@, 0u32, true))
}

/// The edges of the simulated cluster.
pub open spec fn sim_edges(n: nat, topology: TopologyKind, nvlink_gbps: u32, ib_gbps: u32) -> Seq<EdgeV> {
    match topology {
        TopologyKind::NvlinkFull => mesh(n, n, kind_code(LinkKind::NvLink), nvlink_gbps, 0),
        TopologyKind::PcieCrossNode => mesh(n, n, kind_code(LinkKind::PCIe), PCIE_GBPS, 0),
        TopologyKind::IbChain => chain(n, kind_code(LinkKind::InfiniBand), ib_gbps, 1),
    }
}

/// How many edges the topology has.
pub open spec fn sim_edge_count(n: nat, topology: TopologyKind) -> nat {
    match topology {
        TopologyKind::IbChain => if n >= 1 { (n - 1) as nat } else { 0 },
        _ => (n * (n - 1) / 2) as nat,
    }
}

pub open spec fn gpu_count_message(n: nat) -> Seq<char> {
    "gpu_count must be > 0, got "@ + dec(n)
}

proof fn lemma_gpu_names_distinct(i: nat, j: nat)
    requires
        gpu_name(i) == gpu_name(j),
    ensures
        i == j,
{
    reveal_strlit("gpu-");
    assert(gpu_name(i).skip(4) =~= dec(i));
    assert(gpu_name(j).skip(4) =~= dec(j));
    lemma_dec_injective(i, j);
}

proof fn lemma_mesh_len(n: nat, i: nat, kind: int, bw: u32, hops: u32)
    requires
        i <= n,
    ensures
        mesh(n, i, kind, bw, hops).len() * 2 == i * (2 * n - i - 1),
    decreases i,
{
    if i > 0 {
        lemma_mesh_len(n, (i - 1) as nat, kind, bw, hops);
        let a = mesh(n, (i - 1) as nat, kind, bw, hops).len();
        assert(mesh(n, i, kind, bw, hops).len() == a + (n - i));
        assert((a + (n - i)) * 2 == i * (2 * n - i - 1)) by (nonlinear_arith)
            requires 0 < i <= n, a * 2 == (i - 1) * (2 * n - (i - 1) - 1);
    } else {
        assert(i * (2 * n - i - 1) == 0) by (nonlinear_arith)
            requires i == 0;
    }
}

fn gpu_label(i: usize) -> (s: String)
    ensures
        s@ == gpu_name(i as nat),
{
    let mut v: Vec<char> = Vec::new();
    push_str(&mut v, "gpu-");
    push_decimal(&mut v, i as u64);
    assert(v@ =~= gpu_name(i as nat));
    string_from_chars(&v)
}

/// Build the simulated cluster's graph and its gpu_ids, in order. A GPU
/// count of zero is refused.
pub fn build_cluster(gpu_count: usize, topology: TopologyKind, nvlink_gbps: u32, ib_gbps: u32)
    -> (r: Result<(ClusterGraph, Vec<String>), String>)
    requires
        gpu_count <= u32::MAX,
        sim_edge_count(gpu_count as nat, topology) <= u32::MAX,
    ensures
        match r {
            Err(e) => gpu_count == 0 && e@ == gpu_count_message(0),
            Ok((g, ids)) => {
                &&& gpu_count > 0
                &&& g@.nodes == sim_nodes(gpu_count as nat)
                &&& g@.edges == sim_edges(gpu_count as nat, topology, nvlink_gbps, ib_gbps)
                &&& ids@.len() == gpu_count
                &&& forall|i: int| 0 <= i < gpu_count ==> (#[trigger] ids@[i])@ == gpu_name(i as nat)
            },
        },
{
    if gpu_count == 0 {
        let mut v: Vec<char> = Vec::new();
        push_str(&mut v, "gpu_count must be > 0, got ");
        push_decimal(&mut v, 0);
        assert(v@ =~= gpu_count_message(0));
        return Err(string_from_chars(&v));
    }
    let n = gpu_count;
    let mut g = ClusterGraph::new();
    let mut ids: Vec<String> = Vec::new();
    let mut i: usize = 0;
    while i < n
        invariant
            n == gpu_count,
            n <= u32::MAX,
            i <= n,
            g.wf(),
            g@.nodes == sim_nodes(i as nat),
            g@.edges == Seq::<EdgeV>::empty(),
            ids@.len() == i,
            forall|k: int| 0 <= k < i ==> (#[trigger] ids@[k])@ == gpu_name(k as nat),
        decreases n - i,
    {
        let id = gpu_label(i);
        proof {
            if has_gpu(g@, id@) {
                let k = choose|k: int| 0 <= k < g@.nodes.len() && (#[trigger] g@.nodes[k]).0 == id@;
                lemma_gpu_names_distinct(k as nat, i as nat);
            }
        }
        g.add_gpu(id.as_str(), "node-0", 0);
        ids.push(id);
        assert(g@.nodes =~= sim_nodes((i + 1) as nat));
        i = i + 1;
    }
    proof {
        assert forall|k: int| 0 <= k < n implies has_gpu(g@, #[trigger] ids@[k]@) && gpu_index(g@, ids@[k]@) == k by {
            assert(g@.nodes[k].0 == ids@[k]@);
            lemma_gpu_index(g@, ids@[k]@, k);
        }
    }
    match topology {
        TopologyKind::IbChain => {
            let mut i: usize = 0;
            while i + 1 < n
                invariant
                    n == gpu_count,
                    n >= 1,
                    i + 1 <= n,
                    g.wf(),
                    g@.nodes == sim_nodes(n as nat),
                    g@.edges == chain((i + 1) as nat, kind_code(LinkKind::InfiniBand), ib_gbps, 1),
                    ids@.len() == n,
                    forall|k: int| 0 <= k < n ==> (#[trigger] ids@[k])@ == gpu_name(k as nat),
                    forall|k: int| 0 <= k < n ==> has_gpu(g@, #[trigger] ids@[k]@) && gpu_index(g@, ids@[k]@) == k,
                decreases n - i,
            {
                g.add_link(ids[i].as_str(), ids[i + 1].as_str(), LinkKind::InfiniBand, ib_gbps, 1);
                assert(g@.edges =~= chain((i + 2) as nat, kind_code(LinkKind::InfiniBand), ib_gbps, 1));
                i = i + 1;
            }
        },
        _ => {
            let (kind, bw) = match topology {
                TopologyKind::NvlinkFull => (LinkKind::NvLink, nvlink_gbps),
                _ => (LinkKind::PCIe, PCIE_GBPS),
            };
            proof {
                lemma_mesh_len(n as nat, n as nat, kind_code(kind), bw, 0);
                let len = mesh(n as nat, n as nat, kind_code(kind), bw, 0).len();
                assert(len == n * (n - 1) / 2) by (nonlinear_arith)
                    requires len * 2 == n * (2 * n - n - 1), n >= 1;
            }
            let mut i: usize = 0;
            while i < n
                invariant
                    n == gpu_count,
                    i <= n,
                    g.wf(),
                    g@.nodes == sim_nodes(n as nat),
                    g@.edges == mesh(n as nat, i as nat, kind_code(kind), bw, 0),
                    mesh(n as nat, n as nat, kind_code(kind), bw, 0).len() <= u32::MAX,
                    ids@.len() == n,
                    forall|k: int| 0 <= k < n ==> has_gpu(g@, #[trigger] ids@[k]@) && gpu_index(g@, ids@[k]@) == k,
                decreases n - i,
            {
                let mut j: usize = i + 1;
                assert(mesh_row(n as nat, i as nat, kind_code(kind), bw, 0).take(0) =~= Seq::<EdgeV>::empty());
                assert(mesh(n as nat, i as nat, kind_code(kind), bw, 0) + Seq::<EdgeV>::empty() =~= mesh(n as nat, i as nat, kind_code(kind), bw, 0));
                while j < n
                    invariant
                        n == gpu_count,
                        i < n,
                        i + 1 <= j <= n,
                        g.wf(),
                        g@.nodes == sim_nodes(n as nat),
                        g@.edges == mesh(n as nat, i as nat, kind_code(kind), bw, 0)
                            + mesh_row(n as nat, i as nat, kind_code(kind), bw, 0).take(j - i - 1),
                        mesh(n as nat, n as nat, kind_code(kind), bw, 0).len() <= u32::MAX,
                        ids@.len() == n,
                        forall|k: int| 0 <= k < n ==> has_gpu(g@, #[trigger] ids@[k]@) && gpu_index(g@, ids@[k]@) == k,
                    decreases n - j,
                {
                    proof {
                        lemma_mesh_prefix_len(n as nat, i as nat, kind_code(kind), bw, 0);
                    }
                    g.add_link(ids[i].as_str(), ids[j].as_str(), kind, bw, 0);
                    assert(mesh_row(n as nat, i as nat, kind_code(kind), bw, 0).take(j - i)
                        =~= mesh_row(n as nat, i as nat, kind_code(kind), bw, 0).take(j - i - 1).push((i as int, j as int, kind_code(kind), bw, 0u32)));
                    assert(g@.edges =~= mesh(n as nat, i as nat, kind_code(kind), bw, 0)
                        + mesh_row(n as nat, i as nat, kind_code(kind), bw, 0).take(j + 1 - i - 1));
                    j = j + 1;
                }
                assert(mesh_row(n as nat, i as nat, kind_code(kind), bw, 0).take(n - i - 1)
                    =~= mesh_row(n as nat, i as nat, kind_code(kind), bw, 0));
                assert(g@.edges =~= mesh(n as nat, (i + 1) as nat, kind_code(kind), bw, 0));
                i = i + 1;
            }
        },
    }
    Ok((g, ids))
}

proof fn lemma_mesh_prefix_len(n: nat, i: nat, kind: int, bw: u32, hops: u32)
    requires
        i < n,
    ensures
        mesh(n, i, kind, bw, hops).len() + mesh_row(n, i, kind, bw, hops).len() <= mesh(n, n, kind, bw, hops).len(),
    decreases n - i,
{
    if i + 1 < n {
        lemma_mesh_prefix_len(n, i + 1, kind, bw, hops);
    }
    lemma_mesh_monotone(n, i + 1, n, kind, bw, hops);
}

proof fn lemma_mesh_monotone(n: nat, i: nat, k: nat, kind: int, bw: u32, hops: u32)
    requires
        i <= k,
    ensures
        mesh(n, i, kind, bw, hops).len() <= mesh(n, k, kind, bw, hops).len(),
    decreases k - i,
{
    if i < k {
        lemma_mesh_monotone(n, i, (k - 1) as nat, kind, bw, hops);
    }
}

} // verus!
