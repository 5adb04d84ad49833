//! Snapshot persistence: the plain-record form of a whole graph, produced
//! and consumed by the graph store, and a handle naming where snapshots are
//! kept.

use vstd::prelude::*;

use crate::edge::EdgeRecord;
use crate::graph::GraphView;
use crate::node::NodeRecord;

verus! {

/// A whole-graph snapshot as plain records: node and edge records, the
/// adjacency index, the core-node ids, and the fresh-edge-id counter.
pub struct GraphSnapshot {
    pub nodes: Vec<NodeRecord>,
    pub edges: Vec<EdgeRecord>,
    pub adjacency: Vec<(u64, Vec<u64>)>,
    pub core_nodes: Vec<u64>,
    pub next_edge_id: u64,
}

impl View for GraphSnapshot {
    type V = GraphView;

    open spec fn view(&self) -> GraphView {
        GraphView {
            nodes: self.nodes@.map_values(|n: NodeRecord| n@),
            edges: self.edges@.map_values(|e: EdgeRecord| e@),
            adjacency: self.adjacency@.map_values(|p: (u64, Vec<u64>)| (p.0, p.1@)),
            core_nodes: self.core_nodes@,
            next_edge_id: self.next_edge_id,
        }
    }
}

/// Copies a vector of ids.
pub fn clone_u64_vec(v: &Vec<u64>) -> (r: Vec<u64>)
    ensures
        r@ == v@,
{
    let n = v.len();
    let mut out: Vec<u64> = Vec::new();
    let mut i: usize = 0;
    while i < n
        invariant
            n == v@.len(),
            i <= n,
            out@ == v@.take(i as int),
        decreases n - i,
    {
        proof {
            assert(v@.take(i as int + 1) =~= v@.take(i as int).push(v@[i as int]));
        }
        out.push(v[i]);
        i += 1;
    }
    proof {
        assert(v@.take(n as int) =~= v@);
    }
    out
}

/// A handle naming where snapshots are kept.
pub struct Storage {
    path: String,
}

impl View for Storage {
    type V = Seq<char>;

    closed spec fn view(&self) -> Seq<char> {
        self.path@
    }
}

impl Storage {
    /// Constructs a handle for the given location.
    pub fn new(path: String) -> (r: Storage)
        ensures
            r@ == path@,
    {
        Storage { path }
    }

    /// The location this handle names.
    pub fn path(&self) -> (r: &String)
        ensures
            r@ == self@,
    {
        &self.path
    }
}

} // verus!
