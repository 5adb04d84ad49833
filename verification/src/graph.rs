//! The graph store: node and edge ownership, the adjacency index, and the
//! mutation operations that maintain its invariants.

use vstd::prelude::*;

use crate::edge::{Edge, EdgeRecord, EdgeView};
use crate::node::{Node, NodeRecord, NodeView};
use crate::storage::{clone_u64_vec, GraphSnapshot};
use crate::numbers::{dec_digits, u64_to_string};
use crate::props::opt_string_view;
use vstd::string::StringExecFns;

verus! {

/// Keep a node when deleting `id`.
pub open spec fn node_keep(id: u64) -> spec_fn(NodeView) -> bool {
    |n: NodeView| n.id != id
}

/// Keep an edge when deleting `id`.
pub open spec fn edge_keep(id: u64) -> spec_fn(EdgeView) -> bool {
    |e: EdgeView| e.from != id && e.to != id
}

/// Keep an adjacency entry when deleting `id`.
pub open spec fn entry_keep(id: u64) -> spec_fn((u64, Seq<u64>)) -> bool {
    |p: (u64, Seq<u64>)| p.0 != id
}

/// Keep a listed edge id when deleting `id` from `pre`.
pub open spec fn eid_keep(pre: GraphView, id: u64) -> spec_fn(u64) -> bool {
    |eid: u64| pre.edge_at(eid).from != id && pre.edge_at(eid).to != id
}

/// Keep a core id when deleting `id`.
pub open spec fn key_keep(id: u64) -> spec_fn(u64) -> bool {
    |c: u64| c != id
}

/// The state a graph reaches when the node `id` and everything referencing it
/// are removed: the node itself, every edge at which it is an endpoint, its
/// own adjacency entry, every adjacency reference to a removed edge, and its
/// core mark.
pub open spec fn delete_result(pre: GraphView, id: u64) -> GraphView {
    GraphView {
        nodes: pre.nodes.filter(node_keep(id)),
        edges: pre.edges.filter(edge_keep(id)),
        adjacency: pre.adjacency.filter(entry_keep(id)).map_values(
            |p: (u64, Seq<u64>)| (p.0, p.1.filter(eid_keep(pre, id))),
        ),
        core_nodes: pre.core_nodes.filter(key_keep(id)),
        next_edge_id: pre.next_edge_id,
    }
}

/// The failure text of a guarded delete on node `id`.
pub open spec fn cannot_delete_msg(id: u64) -> Seq<char> {
    "Node "@ + dec_digits(id as nat) + " cannot be safely deleted."@
}

/// One node line of the graph-visualization text.
pub open spec fn dot_node_line(id: u64) -> Seq<char> {
    "    "@ + dec_digits(id as nat) + " [label=\"Node "@ + dec_digits(id as nat) + "\"];\n"@
}

/// The node lines of the graph-visualization text, in storage order.
pub open spec fn dot_nodes(nodes: Seq<NodeView>) -> Seq<char>
    decreases nodes.len(),
{
    if nodes.len() == 0 {
        Seq::empty()
    } else {
        dot_nodes(nodes.drop_last()) + dot_node_line(nodes.last().id)
    }
}

/// One edge line of the graph-visualization text.
pub open spec fn dot_edge_line(e: EdgeView) -> Seq<char> {
    "    "@ + dec_digits(e.from as nat) + " -> "@ + dec_digits(e.to as nat) + " [label=\""@
        + (match e.label {
        Some(l) => l,
        None => Seq::<char>::empty(),
    }) + "\", weight="@ + dec_digits(e.weight as nat) + "];\n"@
}

/// The edge lines of the graph-visualization text, in storage order.
pub open spec fn dot_edges(edges: Seq<EdgeView>) -> Seq<char>
    decreases edges.len(),
{
    if edges.len() == 0 {
        Seq::empty()
    } else {
        dot_edges(edges.drop_last()) + dot_edge_line(edges.last())
    }
}

/// The whole graph-visualization text: every node, then every directed edge
/// with its label and weight.
pub open spec fn dot_text(g: GraphView) -> Seq<char> {
    "digraph G {\n"@ + dot_nodes(g.nodes) + dot_edges(g.edges) + "}\n"@
}

/// The mathematical content of a [`Graph`]: node and edge records, the
/// adjacency index as ordered (node id, outgoing edge ids) entries, the set of
/// core node ids, and the counter from which fresh edge ids are drawn.
#[verifier::ext_equal]
pub struct GraphView {
    pub nodes: Seq<NodeView>,
    pub edges: Seq<EdgeView>,
    pub adjacency: Seq<(u64, Seq<u64>)>,
    pub core_nodes: Seq<u64>,
    pub next_edge_id: u64,
}

impl GraphView {
    /// Some node with this id is stored.
    pub open spec fn has_node(self, id: u64) -> bool {
        exists|i: int| 0 <= i < self.nodes.len() && self.nodes[i].id == id
    }

    /// The position of the node with this id.
    pub open spec fn node_index(self, id: u64) -> int {
        choose|i: int| 0 <= i < self.nodes.len() && self.nodes[i].id == id
    }

    /// The node stored under this id.
    pub open spec fn node_at(self, id: u64) -> NodeView {
        self.nodes[self.node_index(id)]
    }

    /// Some edge with this id is stored.
    pub open spec fn has_edge(self, id: u64) -> bool {
        exists|i: int| 0 <= i < self.edges.len() && self.edges[i].id == id
    }

    /// The position of the edge with this id.
    pub open spec fn edge_index(self, id: u64) -> int {
        choose|i: int| 0 <= i < self.edges.len() && self.edges[i].id == id
    }

    /// The edge stored under this id.
    pub open spec fn edge_at(self, id: u64) -> EdgeView {
        self.edges[self.edge_index(id)]
    }

    /// The adjacency index holds an entry for this node id.
    pub open spec fn has_adj(self, id: u64) -> bool {
        exists|i: int| 0 <= i < self.adjacency.len() && self.adjacency[i].0 == id
    }

    /// The position of the adjacency entry for this node id.
    pub open spec fn adj_index(self, id: u64) -> int {
        choose|i: int| 0 <= i < self.adjacency.len() && self.adjacency[i].0 == id
    }

    /// The ordered outgoing edge ids recorded for this node id (empty when no
    /// entry exists).
    pub open spec fn out_edges(self, id: u64) -> Seq<u64> {
        if self.has_adj(id) {
            self.adjacency[self.adj_index(id)].1
        } else {
            Seq::empty()
        }
    }

    /// The number of outgoing adjacency entries recorded for this node id.
    pub open spec fn out_degree(self, id: u64) -> nat {
        self.out_edges(id).len()
    }

    /// This node id is marked as a core node.
    pub open spec fn is_core(self, id: u64) -> bool {
        self.core_nodes.contains(id)
    }

    /// The store's invariants: distinct node, edge, adjacency and core keys;
    /// edge ids below the fresh-id counter; every adjacency entry lists
    /// existing edges leaving its node, without repetition; every edge is
    /// listed under its source; every core id names a stored node.
    pub open spec fn wf(self) -> bool {
        &&& forall|i: int, j: int|
            0 <= i < j < self.nodes.len() ==> self.nodes[i].id != self.nodes[j].id
        &&& forall|i: int| 0 <= i < self.nodes.len() ==> self.nodes[i].wf()
        &&& forall|i: int, j: int|
            0 <= i < j < self.edges.len() ==> self.edges[i].id != self.edges[j].id
        &&& forall|i: int| 0 <= i < self.edges.len() ==> self.edges[i].wf()
        &&& forall|i: int| 0 <= i < self.edges.len() ==> self.edges[i].id < self.next_edge_id
        &&& forall|i: int, j: int|
            0 <= i < j < self.adjacency.len() ==> self.adjacency[i].0 != self.adjacency[j].0
        &&& forall|i: int, k: int|
            0 <= i < self.adjacency.len() && 0 <= k < self.adjacency[i].1.len() ==> {
                &&& self.has_edge(self.adjacency[i].1[k])
                &&& self.edge_at(self.adjacency[i].1[k]).from == self.adjacency[i].0
            }
        &&& forall|i: int, k: int, l: int|
            0 <= i < self.adjacency.len() && 0 <= k < l < self.adjacency[i].1.len()
                ==> self.adjacency[i].1[k] != self.adjacency[i].1[l]
        &&& forall|i: int|
            0 <= i < self.edges.len() ==> {
                &&& self.has_adj(self.edges[i].from)
                &&& self.out_edges(self.edges[i].from).contains(self.edges[i].id)
            }
        &&& forall|i: int, j: int|
            0 <= i < j < self.core_nodes.len() ==> self.core_nodes[i] != self.core_nodes[j]
        &&& forall|i: int| 0 <= i < self.core_nodes.len() ==> self.has_node(self.core_nodes[i])
    }
}

/// A stored node's position answers every lookup for its id.
pub proof fn lemma_node_index(g: GraphView, i: int)
    requires
        forall|a: int, b: int| 0 <= a < b < g.nodes.len() ==> g.nodes[a].id != g.nodes[b].id,
        0 <= i < g.nodes.len(),
    ensures
        g.has_node(g.nodes[i].id),
        g.node_index(g.nodes[i].id) == i,
        g.node_at(g.nodes[i].id) == g.nodes[i],
{
    let id = g.nodes[i].id;
    assert(g.has_node(id));
    let j = g.node_index(id);
    assert(0 <= j < g.nodes.len() && g.nodes[j].id == id);
    if j < i {
        assert(g.nodes[j].id != g.nodes[i].id);
    } else if i < j {
        assert(g.nodes[i].id != g.nodes[j].id);
    }
}

/// A stored edge's position answers every lookup for its id.
pub proof fn lemma_edge_index(g: GraphView, i: int)
    requires
        forall|a: int, b: int| 0 <= a < b < g.edges.len() ==> g.edges[a].id != g.edges[b].id,
        0 <= i < g.edges.len(),
    ensures
        g.has_edge(g.edges[i].id),
        g.edge_index(g.edges[i].id) == i,
        g.edge_at(g.edges[i].id) == g.edges[i],
{
    let id = g.edges[i].id;
    assert(g.has_edge(id));
    let j = g.edge_index(id);
    assert(0 <= j < g.edges.len() && g.edges[j].id == id);
    if j < i {
        assert(g.edges[j].id != g.edges[i].id);
    } else if i < j {
        assert(g.edges[i].id != g.edges[j].id);
    }
}

/// A stored adjacency entry's position answers every lookup for its key.
pub proof fn lemma_adj_index(g: GraphView, i: int)
    requires
        forall|a: int, b: int|
            0 <= a < b < g.adjacency.len() ==> g.adjacency[a].0 != g.adjacency[b].0,
        0 <= i < g.adjacency.len(),
    ensures
        g.has_adj(g.adjacency[i].0),
        g.adj_index(g.adjacency[i].0) == i,
        g.out_edges(g.adjacency[i].0) == g.adjacency[i].1,
{
    let id = g.adjacency[i].0;
    assert(g.has_adj(id));
    let j = g.adj_index(id);
    assert(0 <= j < g.adjacency.len() && g.adjacency[j].0 == id);
    if j < i {
        assert(g.adjacency[j].0 != g.adjacency[i].0);
    } else if i < j {
        assert(g.adjacency[i].0 != g.adjacency[j].0);
    }
}

/// Filtering keeps keyed elements pairwise distinct, and every kept element
/// occurs in the unfiltered sequence.
pub proof fn lemma_filter_distinct_by<A>(s: Seq<A>, pred: spec_fn(A) -> bool, key: spec_fn(A) -> u64)
    requires
        forall|i: int, j: int| 0 <= i < j < s.len() ==> key(s[i]) != key(s[j]),
    ensures
        forall|i: int, j: int|
            0 <= i < j < s.filter(pred).len() ==> key(s.filter(pred)[i]) != key(s.filter(pred)[j]),
        forall|i: int| 0 <= i < s.filter(pred).len() ==> s.contains(s.filter(pred)[i]),
    decreases s.len(),
{
    reveal(Seq::filter);
    if s.len() > 0 {
        let dl = s.drop_last();
        lemma_filter_distinct_by(dl, pred, key);
        assert(forall|i: int|
            0 <= i < dl.filter(pred).len() ==> s.contains(dl.filter(pred)[i])) by {
            assert forall|i: int|
                0 <= i < dl.filter(pred).len() implies s.contains(dl.filter(pred)[i]) by {
                assert(dl.contains(dl.filter(pred)[i]));
                let m = choose|m: int| 0 <= m < dl.len() && dl[m] == dl.filter(pred)[i];
                assert(s[m] == dl.filter(pred)[i]);
            }
        }
        if pred(s.last()) {
            let out = dl.filter(pred).push(s.last());
            assert(s.filter(pred) == out);
            assert forall|i: int, j: int|
                0 <= i < j < out.len() implies key(out[i]) != key(out[j]) by {
                if j == out.len() - 1 {
                    assert(dl.contains(out[i]));
                    let m = choose|m: int| 0 <= m < dl.len() && dl[m] == out[i];
                    assert(key(s[m]) != key(s[s.len() - 1]));
                }
            }
            assert(s.contains(s.last())) by {
                assert(s[s.len() - 1] == s.last());
            }
        }
    }
}

/// Deleting a node from a well-formed graph restores every invariant and
/// leaves nothing that references the deleted id.
pub proof fn lemma_delete_result_wf(pre: GraphView, id: u64)
    requires
        pre.wf(),
    ensures
        delete_result(pre, id).wf(),
        !delete_result(pre, id).has_node(id),
        forall|i: int|
            0 <= i < delete_result(pre, id).edges.len() ==> delete_result(pre, id).edges[i].from
                != id && delete_result(pre, id).edges[i].to != id,
        forall|i: int, k: int|
            0 <= i < delete_result(pre, id).adjacency.len() && 0 <= k < delete_result(
                pre,
                id,
            ).adjacency[i].1.len() ==> delete_result(pre, id).edge_at(
                delete_result(pre, id).adjacency[i].1[k],
            ).from != id && delete_result(pre, id).edge_at(
                delete_result(pre, id).adjacency[i].1[k],
            ).to != id,
{
    let post = delete_result(pre, id);
    let npred = node_keep(id);
    let epred = edge_keep(id);
    let apred = entry_keep(id);
    let ipred = eid_keep(pre, id);
    let cpred = key_keep(id);
    let fnodes = pre.nodes.filter(npred);
    let fedges = pre.edges.filter(epred);
    let fentries = pre.adjacency.filter(apred);

    pre.nodes.filter_lemma(npred);
    pre.edges.filter_lemma(epred);
    pre.adjacency.filter_lemma(apred);
    pre.core_nodes.filter_lemma(cpred);
    lemma_filter_distinct_by(pre.nodes, npred, |n: NodeView| n.id);
    lemma_filter_distinct_by(pre.edges, epred, |e: EdgeView| e.id);
    lemma_filter_distinct_by(pre.adjacency, apred, |p: (u64, Seq<u64>)| p.0);
    lemma_filter_distinct_by(pre.core_nodes, cpred, |c: u64| c);

    assert(post.nodes == fnodes);
    assert(post.edges == fedges);
    assert(post.core_nodes == pre.core_nodes.filter(cpred));
    assert(forall|i: int|
        0 <= i < post.adjacency.len() ==> post.adjacency[i] == (
            fentries[i].0,
            fentries[i].1.filter(ipred),
        ));

    // Nodes: well-formed, distinct, and none carries the deleted id.
    assert forall|i: int| 0 <= i < post.nodes.len() implies post.nodes[i].wf() && post.nodes[i].id
        != id by {
        assert(pre.nodes.contains(fnodes[i]));
        let m = choose|m: int| 0 <= m < pre.nodes.len() && pre.nodes[m] == fnodes[i];
        assert(pre.nodes[m].wf());
        assert(npred(fnodes[i]));
    }
    assert(!post.has_node(id)) by {
        if post.has_node(id) {
            let j = choose|j: int| 0 <= j < post.nodes.len() && post.nodes[j].id == id;
            assert(post.nodes[j].id != id);
        }
    }

    // Edges: well-formed, distinct, below the counter, and clear of `id`.
    assert forall|i: int| 0 <= i < post.edges.len() implies post.edges[i].wf() && post.edges[i].id
        < post.next_edge_id && post.edges[i].from != id && post.edges[i].to != id by {
        assert(pre.edges.contains(fedges[i]));
        let m = choose|m: int| 0 <= m < pre.edges.len() && pre.edges[m] == fedges[i];
        assert(pre.edges[m].wf() && pre.edges[m].id < pre.next_edge_id);
        assert(epred(fedges[i]));
    }

    // Adjacency keys stay pairwise distinct.
    assert forall|i: int, j: int|
        0 <= i < j < post.adjacency.len() implies post.adjacency[i].0 != post.adjacency[j].0 by {
        assert(fentries[i].0 != fentries[j].0);
    }

    // Listed edge ids in scrubbed entries: existing, matching keys, clear of
    // `id`, pairwise distinct.
    assert forall|i: int, k: int|
        0 <= i < post.adjacency.len() && 0 <= k < post.adjacency[i].1.len() implies {
        &&& post.has_edge(post.adjacency[i].1[k])
        &&& post.edge_at(post.adjacency[i].1[k]).from == post.adjacency[i].0
        &&& post.edge_at(post.adjacency[i].1[k]).from != id
        &&& post.edge_at(post.adjacency[i].1[k]).to != id
    } by {
        let p = fentries[i];
        assert(pre.adjacency.contains(p));
        let m = choose|m: int| 0 <= m < pre.adjacency.len() && pre.adjacency[m] == p;
        assert(forall|a: int, b: int|
            0 <= a < b < p.1.len() ==> p.1[a] != p.1[b]);
        p.1.filter_lemma(ipred);
        lemma_filter_distinct_by(p.1, ipred, |c: u64| c);
        let slist = p.1.filter(ipred);
        let eid = slist[k];
        assert(p.1.contains(eid));
        let t = choose|t: int| 0 <= t < p.1.len() && p.1[t] == eid;
        assert(pre.has_edge(eid) && pre.edge_at(eid).from == p.0);
        assert(ipred(eid));
        let ei = pre.edge_index(eid);
        assert(0 <= ei < pre.edges.len() && pre.edges[ei].id == eid);
        assert(epred(pre.edges[ei]));
        assert(fedges.contains(pre.edges[ei]));
        let fi = choose|fi: int| 0 <= fi < fedges.len() && fedges[fi] == pre.edges[ei];
        assert(post.has_edge(eid));
        let j = post.edge_index(eid);
        assert(0 <= j < post.edges.len() && post.edges[j].id == eid);
        if j < fi {
            assert(post.edges[j].id != post.edges[fi].id);
        } else if fi < j {
            assert(post.edges[fi].id != post.edges[j].id);
        }
        assert(post.edge_at(eid) == pre.edges[ei]);
        assert(pre.edges[ei] == pre.edge_at(eid));
    }
    assert forall|i: int, k: int, l: int|
        0 <= i < post.adjacency.len() && 0 <= k < l < post.adjacency[i].1.len() implies
        post.adjacency[i].1[k] != post.adjacency[i].1[l] by {
        let p = fentries[i];
        assert(pre.adjacency.contains(p));
        let m = choose|m: int| 0 <= m < pre.adjacency.len() && pre.adjacency[m] == p;
        assert(forall|a: int, b: int|
            0 <= a < b < p.1.len() ==> p.1[a] != p.1[b]);
        lemma_filter_distinct_by(p.1, ipred, |c: u64| c);
    }

    // Every surviving edge is still listed under its source.
    assert forall|i: int| 0 <= i < post.edges.len() implies post.has_adj(post.edges[i].from)
        && post.out_edges(post.edges[i].from).contains(post.edges[i].id) by {
        let e = post.edges[i];
        assert(pre.edges.contains(e));
        let m = choose|m: int| 0 <= m < pre.edges.len() && pre.edges[m] == e;
        assert(epred(e));
        assert(pre.has_adj(e.from) && pre.out_edges(e.from).contains(e.id));
        let am = pre.adj_index(e.from);
        assert(0 <= am < pre.adjacency.len() && pre.adjacency[am].0 == e.from);
        let entry = pre.adjacency[am];
        assert(pre.out_edges(e.from) == entry.1);
        assert(apred(entry));
        assert(fentries.contains(entry));
        let fi = choose|fi: int| 0 <= fi < fentries.len() && fentries[fi] == entry;
        assert(post.adjacency[fi] == (entry.0, entry.1.filter(ipred)));
        let t = choose|t: int| 0 <= t < entry.1.len() && entry.1[t] == e.id;
        assert(pre.has_edge(e.id));
        let ei = pre.edge_index(e.id);
        assert(0 <= ei < pre.edges.len() && pre.edges[ei].id == e.id);
        if ei < m {
            assert(pre.edges[ei].id != pre.edges[m].id);
        } else if m < ei {
            assert(pre.edges[m].id != pre.edges[ei].id);
        }
        assert(pre.edge_at(e.id) == e);
        assert(ipred(entry.1[t]));
        entry.1.filter_lemma(ipred);
        assert(entry.1.filter(ipred).contains(e.id));
        assert(post.has_adj(e.from));
        let j = post.adj_index(e.from);
        assert(0 <= j < post.adjacency.len() && post.adjacency[j].0 == e.from);
        if j < fi {
            assert(post.adjacency[j].0 != post.adjacency[fi].0);
        } else if fi < j {
            assert(post.adjacency[fi].0 != post.adjacency[j].0);
        }
        assert(post.out_edges(e.from) == entry.1.filter(ipred));
    }

    // Core marks: distinct and still naming stored nodes.
    assert forall|i: int| 0 <= i < post.core_nodes.len() implies post.has_node(
        post.core_nodes[i]) by {
        let c = post.core_nodes[i];
        assert(pre.core_nodes.contains(c));
        let m = choose|m: int| 0 <= m < pre.core_nodes.len() && pre.core_nodes[m] == c;
        assert(pre.has_node(c));
        assert(cpred(c));
        let nm = pre.node_index(c);
        assert(0 <= nm < pre.nodes.len() && pre.nodes[nm].id == c);
        assert(npred(pre.nodes[nm]));
        assert(fnodes.contains(pre.nodes[nm]));
        let fj = choose|fj: int| 0 <= fj < fnodes.len() && fnodes[fj] == pre.nodes[nm];
        assert(post.nodes[fj].id == c);
    }
}

/// Appending a fresh edge and listing it in the existing adjacency entry of
/// its source keeps the graph well-formed.
pub proof fn lemma_add_edge_wf(pre: GraphView, post: GraphView, ev: EdgeView, i: int)
    requires
        pre.wf(),
        pre.next_edge_id < u64::MAX,
        ev.id == pre.next_edge_id,
        ev.wf(),
        0 <= i < pre.adjacency.len(),
        pre.adjacency[i].0 == ev.from,
        post.nodes == pre.nodes,
        post.core_nodes == pre.core_nodes,
        post.next_edge_id == pre.next_edge_id + 1,
        post.edges == pre.edges.push(ev),
        post.adjacency == pre.adjacency.update(i, (ev.from, pre.adjacency[i].1.push(ev.id))),
    ensures
        post.wf(),
{
    let en = pre.edges.len() as int;
    assert forall|a: int, b: int|
        0 <= a < b < post.edges.len() implies post.edges[a].id != post.edges[b].id by {
        if b < en {
            assert(pre.edges[a].id != pre.edges[b].id);
        } else {
            assert(pre.edges[a].id < pre.next_edge_id);
        }
    }
    assert(forall|a: int, b: int|
        0 <= a < b < post.adjacency.len() ==> post.adjacency[a].0 != post.adjacency[b].0) by {
        assert(forall|x: int| 0 <= x < post.adjacency.len() ==> post.adjacency[x].0
            == pre.adjacency[x].0);
    }
    // Listed ids exist, match their key, and stay pairwise distinct.
    assert forall|x: int, k: int|
        0 <= x < post.adjacency.len() && 0 <= k < post.adjacency[x].1.len() implies {
        &&& post.has_edge(post.adjacency[x].1[k])
        &&& post.edge_at(post.adjacency[x].1[k]).from == post.adjacency[x].0
    } by {
        let eid2 = post.adjacency[x].1[k];
        if x == i && k == post.adjacency[x].1.len() - 1 {
            assert(eid2 == ev.id);
            lemma_edge_index(post, en);
        } else {
            assert(eid2 == pre.adjacency[x].1[k]);
            assert(pre.has_edge(eid2) && pre.edge_at(eid2).from == pre.adjacency[x].0);
            let m = pre.edge_index(eid2);
            assert(0 <= m < en && pre.edges[m].id == eid2);
            lemma_edge_index(pre, m);
            lemma_edge_index(post, m);
        }
    }
    assert forall|x: int, k: int, l: int|
        0 <= x < post.adjacency.len() && 0 <= k < l < post.adjacency[x].1.len() implies
        post.adjacency[x].1[k] != post.adjacency[x].1[l] by {
        if x == i && l == post.adjacency[x].1.len() - 1 {
            let eid2 = pre.adjacency[x].1[k];
            assert(pre.has_edge(eid2));
            let m = pre.edge_index(eid2);
            assert(pre.edges[m].id == eid2 && pre.edges[m].id < pre.next_edge_id);
        } else {
            assert(pre.adjacency[x].1[k] != pre.adjacency[x].1[l]);
        }
    }
    // Every edge is listed under its source.
    assert forall|x: int| 0 <= x < post.edges.len() implies post.has_adj(post.edges[x].from)
        && post.out_edges(post.edges[x].from).contains(post.edges[x].id) by {
        if x < en {
            let e = pre.edges[x];
            assert(pre.has_adj(e.from) && pre.out_edges(e.from).contains(e.id));
            let am = pre.adj_index(e.from);
            assert(0 <= am < pre.adjacency.len() && pre.adjacency[am].0 == e.from);
            assert(post.adjacency[am].0 == e.from);
            assert(post.has_adj(e.from));
            lemma_adj_index(post, am);
            let t = choose|t: int|
                0 <= t < pre.out_edges(e.from).len() && pre.out_edges(e.from)[t] == e.id;
            lemma_adj_index(pre, am);
            if am == i {
                assert(post.adjacency[am].1[t] == e.id);
            } else {
                assert(post.adjacency[am].1 == pre.adjacency[am].1);
                assert(post.adjacency[am].1[t] == e.id);
            }
            assert(post.out_edges(e.from).contains(e.id));
        } else {
            assert(post.edges[x] == ev);
            assert(post.adjacency[i].0 == ev.from);
            assert(post.has_adj(ev.from));
            lemma_adj_index(post, i);
            let newlist = post.adjacency[i].1;
            assert(newlist[newlist.len() - 1] == ev.id);
            assert(post.out_edges(ev.from).contains(ev.id));
        }
    }
}

/// Appending a fresh edge and opening a new adjacency entry for its source
/// keeps the graph well-formed.
pub proof fn lemma_add_edge_wf_new_entry(pre: GraphView, post: GraphView, ev: EdgeView)
    requires
        pre.wf(),
        pre.next_edge_id < u64::MAX,
        ev.id == pre.next_edge_id,
        ev.wf(),
        !pre.has_adj(ev.from),
        post.nodes == pre.nodes,
        post.core_nodes == pre.core_nodes,
        post.next_edge_id == pre.next_edge_id + 1,
        post.edges == pre.edges.push(ev),
        post.adjacency == pre.adjacency.push((ev.from, seq![ev.id])),
    ensures
        post.wf(),
{
    let en = pre.edges.len() as int;
    let an = pre.adjacency.len() as int;
    assert forall|a: int, b: int|
        0 <= a < b < post.edges.len() implies post.edges[a].id != post.edges[b].id by {
        if b < en {
            assert(pre.edges[a].id != pre.edges[b].id);
        } else {
            assert(pre.edges[a].id < pre.next_edge_id);
        }
    }
    assert forall|a: int, b: int|
        0 <= a < b < post.adjacency.len() implies post.adjacency[a].0 != post.adjacency[b].0 by {
        if b == an {
            if pre.adjacency[a].0 == ev.from {
                assert(pre.has_adj(ev.from));
            }
        } else {
            assert(pre.adjacency[a].0 != pre.adjacency[b].0);
        }
    }
    assert forall|x: int, k: int|
        0 <= x < post.adjacency.len() && 0 <= k < post.adjacency[x].1.len() implies {
        &&& post.has_edge(post.adjacency[x].1[k])
        &&& post.edge_at(post.adjacency[x].1[k]).from == post.adjacency[x].0
    } by {
        let eid2 = post.adjacency[x].1[k];
        if x == an {
            assert(eid2 == ev.id);
            lemma_edge_index(post, en);
        } else {
            assert(eid2 == pre.adjacency[x].1[k]);
            assert(pre.has_edge(eid2) && pre.edge_at(eid2).from == pre.adjacency[x].0);
            let m = pre.edge_index(eid2);
            assert(0 <= m < en && pre.edges[m].id == eid2);
            lemma_edge_index(pre, m);
            lemma_edge_index(post, m);
        }
    }
    assert forall|x: int, k: int, l: int|
        0 <= x < post.adjacency.len() && 0 <= k < l < post.adjacency[x].1.len() implies
        post.adjacency[x].1[k] != post.adjacency[x].1[l] by {
        if x < an {
            assert(pre.adjacency[x].1[k] != pre.adjacency[x].1[l]);
        }
    }
    assert forall|x: int| 0 <= x < post.edges.len() implies post.has_adj(post.edges[x].from)
        && post.out_edges(post.edges[x].from).contains(post.edges[x].id) by {
        if x < en {
            let e = pre.edges[x];
            assert(pre.has_adj(e.from) && pre.out_edges(e.from).contains(e.id));
            let am = pre.adj_index(e.from);
            assert(0 <= am < an && pre.adjacency[am].0 == e.from);
            assert(post.adjacency[am].0 == e.from);
            assert(post.has_adj(e.from));
            lemma_adj_index(post, am);
            lemma_adj_index(pre, am);
            let t = choose|t: int|
                0 <= t < pre.out_edges(e.from).len() && pre.out_edges(e.from)[t] == e.id;
            assert(post.adjacency[am].1 == pre.adjacency[am].1);
            assert(post.adjacency[am].1[t] == e.id);
            assert(post.out_edges(e.from).contains(e.id));
        } else {
            assert(post.edges[x] == ev);
            assert(post.adjacency[an].0 == ev.from);
            assert(post.has_adj(ev.from));
            lemma_adj_index(post, an);
            assert(post.adjacency[an].1[0] == ev.id);
            assert(post.out_edges(ev.from).contains(ev.id));
        }
    }
}

/// An in-memory directed, weighted graph store with adjacency indexing and
/// core-node marking.
pub struct Graph {
    nodes: Vec<Node>,
    edges: Vec<Edge>,
    adjacency: Vec<(u64, Vec<u64>)>,
    core_nodes: Vec<u64>,
    next_edge_id: u64,
}

impl View for Graph {
    type V = GraphView;

    closed spec fn view(&self) -> GraphView {
        GraphView {
            nodes: self.nodes@.map_values(|n: Node| n@),
            edges: self.edges@.map_values(|e: Edge| e@),
            adjacency: self.adjacency@.map_values(|p: (u64, Vec<u64>)| (p.0, p.1@)),
            core_nodes: self.core_nodes@,
            next_edge_id: self.next_edge_id,
        }
    }
}

/// Collects the elements of `v` other than `x`, in order.
fn remove_all_u64(v: &Vec<u64>, x: u64) -> (r: Vec<u64>)
    ensures
        r@ == v@.filter(|c: u64| c != x),
{
    let pred = |c: u64| c != x;
    let n = v.len();
    let mut out: Vec<u64> = Vec::new();
    let mut i: usize = 0;
    proof {
        assert(v@.take(0) =~= Seq::<u64>::empty());
        reveal(Seq::filter);
    }
    while i < n
        invariant
            n == v@.len(),
            i <= n,
            out@ == v@.take(i as int).filter(|c: u64| c != x),
        decreases n - i,
    {
        proof {
            reveal(Seq::filter);
            let t = v@.take(i as int);
            assert(v@.take(i as int + 1) =~= t.push(v@[i as int]));
            assert(t.push(v@[i as int]).drop_last() =~= t);
        }
        if v[i] != x {
            out.push(v[i]);
        }
        i += 1;
    }
    proof {
        assert(v@.take(n as int) =~= v@);
    }
    out
}

/// True when `v` holds `x`.
fn contains_u64(v: &Vec<u64>, x: u64) -> (r: bool)
    ensures
        r == v@.contains(x),
{
    let n = v.len();
    let mut i: usize = 0;
    while i < n
        invariant
            n == v@.len(),
            i <= n,
            forall|j: int| 0 <= j < i ==> v@[j] != x,
        decreases n - i,
    {
        if v[i] == x {
            return true;
        }
        i += 1;
    }
    false
}

impl Graph {
    /// Constructs an empty graph store.
    pub fn new() -> (r: Graph)
        ensures
            r@ == (GraphView {
                nodes: Seq::empty(),
                edges: Seq::empty(),
                adjacency: Seq::empty(),
                core_nodes: Seq::empty(),
                next_edge_id: 1,
            }),
            r@.wf(),
    {
        let r = Graph {
            nodes: Vec::new(),
            edges: Vec::new(),
            adjacency: Vec::new(),
            core_nodes: Vec::new(),
            next_edge_id: 1,
        };
        proof {
            assert(r@ =~= (GraphView {
                nodes: Seq::empty(),
                edges: Seq::empty(),
                adjacency: Seq::empty(),
                core_nodes: Seq::empty(),
                next_edge_id: 1,
            }));
        }
        r
    }

    /// The position of the node with this id, if one is stored.
    pub(crate) fn find_node_index(&self, id: u64) -> (r: Option<usize>)
        ensures
            match r {
                Some(i) => i < self@.nodes.len() && self@.nodes[i as int].id == id,
                None => !self@.has_node(id),
            },
    {
        let n = self.nodes.len();
        let mut i: usize = 0;
        while i < n
            invariant
                n == self@.nodes.len(),
                i <= n,
                forall|j: int| 0 <= j < i ==> self@.nodes[j].id != id,
            decreases n - i,
        {
            if self.nodes[i].id() == id {
                return Some(i);
            }
            i += 1;
        }
        None
    }

    /// The position of the edge with this id, if one is stored.
    fn find_edge_index(&self, id: u64) -> (r: Option<usize>)
        ensures
            match r {
                Some(i) => i < self@.edges.len() && self@.edges[i as int].id == id,
                None => !self@.has_edge(id),
            },
    {
        let n = self.edges.len();
        let mut i: usize = 0;
        while i < n
            invariant
                n == self@.edges.len(),
                i <= n,
                forall|j: int| 0 <= j < i ==> self@.edges[j].id != id,
            decreases n - i,
        {
            if self.edges[i].id() == id {
                return Some(i);
            }
            i += 1;
        }
        None
    }

    /// The position of the adjacency entry for this node id, if one exists.
    fn find_adj_index(&self, id: u64) -> (r: Option<usize>)
        ensures
            match r {
                Some(i) => i < self@.adjacency.len() && self@.adjacency[i as int].0 == id,
                None => !self@.has_adj(id),
            },
    {
        let n = self.adjacency.len();
        let mut i: usize = 0;
        while i < n
            invariant
                n == self@.adjacency.len(),
                i <= n,
                forall|j: int| 0 <= j < i ==> self@.adjacency[j].0 != id,
            decreases n - i,
        {
            if self.adjacency[i].0 == id {
                return Some(i);
            }
            i += 1;
        }
        None
    }

    /// Inserts a node, overwriting any node stored under the same id
    /// (last-write-wins).
    pub fn add_node(&mut self, node: Node)
        requires
            old(self)@.wf(),
            node@.wf(),
        ensures
            final(self)@.wf(),
            final(self)@.edges == old(self)@.edges,
            final(self)@.adjacency == old(self)@.adjacency,
            final(self)@.core_nodes == old(self)@.core_nodes,
            final(self)@.next_edge_id == old(self)@.next_edge_id,
            final(self)@.has_node(node@.id),
            final(self)@.node_at(node@.id) == node@,
            (if old(self)@.has_node(node@.id) {
                final(self)@.nodes == old(self)@.nodes.update(
                    old(self)@.node_index(node@.id),
                    node@,
                )
            } else {
                final(self)@.nodes == old(self)@.nodes.push(node@)
            }),
            forall|oid: u64|
                oid != node@.id ==> (final(self)@.has_node(oid) <==> old(self)@.has_node(oid)),
    {
        let ghost pre = self@;
        let ghost nv = node@;
        match self.find_node_index(node.id()) {
            Some(i) => {
                proof {
                    lemma_node_index(pre, i as int);
                }
                self.nodes[i] = node;
                proof {
                    assert(self@.nodes =~= pre.nodes.update(i as int, nv));
                    assert(self@ =~= (GraphView { nodes: pre.nodes.update(i as int, nv), ..pre }));
                    assert forall|a: int, b: int|
                        0 <= a < b < self@.nodes.len() implies self@.nodes[a].id
                        != self@.nodes[b].id by {
                        assert(pre.nodes[a].id != pre.nodes[b].id);
                    }
                    assert forall|oid: u64|
                        oid != nv.id && pre.has_node(oid) implies self@.has_node(oid) by {
                        let j = pre.node_index(oid);
                        assert(self@.nodes[j].id == oid);
                    }
                    assert forall|x: int|
                        0 <= x < self@.core_nodes.len() implies self@.has_node(
                        self@.core_nodes[x]) by {
                        assert(pre.has_node(pre.core_nodes[x]));
                        let j = pre.node_index(pre.core_nodes[x]);
                        assert(self@.nodes[j].id == pre.core_nodes[x]);
                    }
                    assert(self@.wf());
                    lemma_node_index(self@, i as int);
                }
            },
            None => {
                self.nodes.push(node);
                proof {
                    assert(self@.nodes =~= pre.nodes.push(nv));
                    assert(self@ =~= (GraphView { nodes: pre.nodes.push(nv), ..pre }));
                    assert forall|a: int, b: int|
                        0 <= a < b < self@.nodes.len() implies self@.nodes[a].id
                        != self@.nodes[b].id by {
                        if b < self@.nodes.len() - 1 {
                            assert(pre.nodes[a].id != pre.nodes[b].id);
                        } else {
                            assert(pre.has_node(pre.nodes[a].id));
                        }
                    }
                    assert forall|oid: u64|
                        oid != nv.id && pre.has_node(oid) implies self@.has_node(oid) by {
                        let j = pre.node_index(oid);
                        assert(self@.nodes[j].id == oid);
                    }
                    assert forall|oid: u64|
                        oid != nv.id && self@.has_node(oid) implies pre.has_node(oid) by {
                        let j = self@.node_index(oid);
                        assert(pre.nodes[j].id == oid);
                    }
                    assert forall|x: int|
                        0 <= x < self@.core_nodes.len() implies self@.has_node(
                        self@.core_nodes[x]) by {
                        assert(pre.has_node(pre.core_nodes[x]));
                        let j = pre.node_index(pre.core_nodes[x]);
                        assert(self@.nodes[j].id == pre.core_nodes[x]);
                    }
                    assert(self@.wf());
                    lemma_node_index(self@, self@.nodes.len() - 1);
                }
            },
        }
    }

    /// Looks a node up by id.
    pub fn get_node(&self, id: u64) -> (r: Option<&Node>)
        requires
            self@.wf(),
        ensures
            match r {
                Some(n) => self@.has_node(id) && n@ == self@.node_at(id),
                None => !self@.has_node(id),
            },
    {
        match self.find_node_index(id) {
            Some(i) => {
                proof {
                    lemma_node_index(self@, i as int);
                }
                Some(&self.nodes[i])
            },
            None => None,
        }
    }

    /// Looks an edge up by id.
    pub fn get_edge(&self, id: u64) -> (r: Option<&Edge>)
        requires
            self@.wf(),
        ensures
            match r {
                Some(e) => self@.has_edge(id) && e@ == self@.edge_at(id),
                None => !self@.has_edge(id),
            },
    {
        match self.find_edge_index(id) {
            Some(i) => {
                proof {
                    lemma_edge_index(self@, i as int);
                }
                Some(&self.edges[i])
            },
            None => None,
        }
    }

    /// The number of outgoing adjacency entries recorded for this node id.
    pub fn out_degree(&self, id: u64) -> (r: usize)
        requires
            self@.wf(),
        ensures
            r == self@.out_degree(id),
    {
        match self.find_adj_index(id) {
            Some(i) => {
                proof {
                    lemma_adj_index(self@, i as int);
                }
                self.adjacency[i].1.len()
            },
            None => 0,
        }
    }

    /// Allocates a fresh edge id, inserts the edge, and appends its id to the
    /// adjacency entry of its source node (creating the entry when absent).
    /// Endpoints are not validated: an edge may reference ids that name no
    /// stored node.
    pub fn add_edge(&mut self, from: u64, to: u64, weight: u64, label: Option<String>)
        requires
            old(self)@.wf(),
            old(self)@.next_edge_id < u64::MAX,
        ensures
            final(self)@.wf(),
            final(self)@.nodes == old(self)@.nodes,
            final(self)@.core_nodes == old(self)@.core_nodes,
            final(self)@.next_edge_id == old(self)@.next_edge_id + 1,
            final(self)@.edges == old(self)@.edges.push(EdgeView {
                id: old(self)@.next_edge_id,
                from,
                to,
                weight,
                label: opt_string_view(label),
                props: Seq::empty(),
            }),
            (if old(self)@.has_adj(from) {
                final(self)@.adjacency == old(self)@.adjacency.update(
                    old(self)@.adj_index(from),
                    (from, old(self)@.out_edges(from).push(old(self)@.next_edge_id)),
                )
            } else {
                final(self)@.adjacency == old(self)@.adjacency.push(
                    (from, seq![old(self)@.next_edge_id]),
                )
            }),
    {
        let ghost pre = self@;
        let eid = self.next_edge_id;
        let edge = Edge::new(eid, from, to, weight, label);
        let ghost ev = edge@;
        self.edges.push(edge);
        self.next_edge_id = eid + 1;
        proof {
            assert(self@.edges =~= pre.edges.push(ev));
            assert forall|a: int, b: int|
                0 <= a < b < self@.edges.len() implies self@.edges[a].id != self@.edges[b].id by {
                if b < self@.edges.len() - 1 {
                    assert(pre.edges[a].id != pre.edges[b].id);
                } else {
                    assert(pre.edges[a].id < pre.next_edge_id);
                }
            }
        }
        match self.find_adj_index(from) {
            Some(i) => {
                proof {
                    lemma_adj_index(pre, i as int);
                }
                self.adjacency[i].1.push(eid);
                proof {
                    assert(self@.adjacency =~= pre.adjacency.update(
                        i as int,
                        (from, pre.out_edges(from).push(eid)),
                    ));
                    lemma_add_edge_wf(pre, self@, ev, i as int);
                }
            },
            None => {
                let mut fresh: Vec<u64> = Vec::new();
                fresh.push(eid);
                self.adjacency.push((from, fresh));
                proof {
                    assert(self@.adjacency =~= pre.adjacency.push((from, seq![eid])));
                    lemma_add_edge_wf_new_entry(pre, self@, ev);
                }
            },
        }
    }

    /// Removes a node unconditionally: the node, every edge at which it is an
    /// endpoint, its adjacency entry, every adjacency reference to a removed
    /// edge, and its core mark.  Does nothing when the id names no stored
    /// node.
    pub fn delete_node(&mut self, id: u64)
        requires
            old(self)@.wf(),
        ensures
            final(self)@.wf(),
            !final(self)@.has_node(id),
            (if old(self)@.has_node(id) {
                final(self)@ == delete_result(old(self)@, id)
            } else {
                final(self)@ == old(self)@
            }),
            old(self)@.has_node(id) ==> (forall|i: int|
                0 <= i < final(self)@.edges.len() ==> final(self)@.edges[i].from != id
                    && final(self)@.edges[i].to != id),
            old(self)@.has_node(id) ==> (forall|i: int, k: int|
                0 <= i < final(self)@.adjacency.len()
                    && 0 <= k < final(self)@.adjacency[i].1.len()
                    ==> final(self)@.edge_at(final(self)@.adjacency[i].1[k]).from != id
                    && final(self)@.edge_at(final(self)@.adjacency[i].1[k]).to != id),
    {
        let ghost pre = self@;
        if self.find_node_index(id).is_none() {
            return ;
        }
        proof {
            lemma_delete_result_wf(pre, id);
        }
        let ghost npred = node_keep(id);
        let ghost epred = edge_keep(id);
        let ghost apred = entry_keep(id);
        let ghost ipred = eid_keep(pre, id);

        // Nodes.
        let mut taken_nodes: Vec<Node> = Vec::new();
        core::mem::swap(&mut taken_nodes, &mut self.nodes);
        let ghost orig_nodes = taken_nodes@;
        let ghost total = pre.nodes.len() as int;
        proof {
            assert(pre.nodes == orig_nodes.map_values(|n: Node| n@));
            assert(self@.nodes =~= Seq::<NodeView>::empty());
            assert(orig_nodes.skip(0) =~= orig_nodes);
            assert(pre.nodes.take(0) =~= Seq::<NodeView>::empty());
            reveal(Seq::filter);
        }
        while taken_nodes.len() > 0
            invariant
                taken_nodes@ == orig_nodes.skip(total - taken_nodes@.len()),
                total == pre.nodes.len(),
                total == orig_nodes.len(),
                taken_nodes@.len() <= total,
                pre.nodes == orig_nodes.map_values(|n: Node| n@),
                self@.nodes == pre.nodes.take(total - taken_nodes@.len()).filter(node_keep(id)),
                self@.edges == pre.edges,
                self@.adjacency == pre.adjacency,
                self@.core_nodes == pre.core_nodes,
                self@.next_edge_id == pre.next_edge_id,
            decreases taken_nodes@.len(),
        {
            let ghost j = total - taken_nodes@.len();
            let ghost before = taken_nodes@;
            let n = taken_nodes.remove(0);
            proof {
                before.remove_ensures(0);
                assert(taken_nodes@ =~= orig_nodes.skip(j + 1));
                assert(orig_nodes.map_values(|n: Node| n@)[j] == orig_nodes[j]@);
                assert(n@ == pre.nodes[j]);
                let t = pre.nodes.take(j);
                assert(pre.nodes.take(j + 1) =~= t.push(pre.nodes[j]));
                assert(t.push(pre.nodes[j]).drop_last() =~= t);
                reveal(Seq::filter);
            }
            if n.id() != id {
                self.nodes.push(n);
            }
        }
        proof {
            assert(pre.nodes.take(total) =~= pre.nodes);
            assert(self@.nodes == pre.nodes.filter(node_keep(id)));
        }

        // Edges.
        let mut taken_edges: Vec<Edge> = Vec::new();
        core::mem::swap(&mut taken_edges, &mut self.edges);
        let ghost orig_edges = taken_edges@;
        let ghost etotal = pre.edges.len() as int;
        proof {
            assert(pre.edges == orig_edges.map_values(|e: Edge| e@));
            assert(self@.edges =~= Seq::<EdgeView>::empty());
            assert(orig_edges.skip(0) =~= orig_edges);
            assert(pre.edges.take(0) =~= Seq::<EdgeView>::empty());
        }
        while taken_edges.len() > 0
            invariant
                taken_edges@ == orig_edges.skip(etotal - taken_edges@.len()),
                etotal == pre.edges.len(),
                etotal == orig_edges.len(),
                taken_edges@.len() <= etotal,
                pre.edges == orig_edges.map_values(|e: Edge| e@),
                self@.edges == pre.edges.take(etotal - taken_edges@.len()).filter(edge_keep(id)),
                self@.nodes == pre.nodes.filter(node_keep(id)),
                self@.adjacency == pre.adjacency,
                self@.core_nodes == pre.core_nodes,
                self@.next_edge_id == pre.next_edge_id,
            decreases taken_edges@.len(),
        {
            let ghost j = etotal - taken_edges@.len();
            let ghost before = taken_edges@;
            let e = taken_edges.remove(0);
            proof {
                before.remove_ensures(0);
                assert(taken_edges@ =~= orig_edges.skip(j + 1));
                assert(orig_edges.map_values(|e: Edge| e@)[j] == orig_edges[j]@);
                assert(e@ == pre.edges[j]);
                let t = pre.edges.take(j);
                assert(pre.edges.take(j + 1) =~= t.push(pre.edges[j]));
                assert(t.push(pre.edges[j]).drop_last() =~= t);
                reveal(Seq::filter);
            }
            if e.from() != id && e.to() != id {
                self.edges.push(e);
            }
        }
        proof {
            assert(pre.edges.take(etotal) =~= pre.edges);
            assert(self@.edges == pre.edges.filter(edge_keep(id)));
        }

        // Adjacency entries, scrubbed of removed edges.
        let mut taken_adj: Vec<(u64, Vec<u64>)> = Vec::new();
        core::mem::swap(&mut taken_adj, &mut self.adjacency);
        let ghost orig_adj = taken_adj@;
        let ghost atotal = pre.adjacency.len() as int;
        let ghost scrub = |p: (u64, Seq<u64>)| (p.0, p.1.filter(eid_keep(pre, id)));
        proof {
            assert(pre.adjacency == orig_adj.map_values(|p: (u64, Vec<u64>)| (p.0, p.1@)));
            assert(self@.adjacency =~= Seq::<(u64, Seq<u64>)>::empty());
            assert(orig_adj.skip(0) =~= orig_adj);
            assert(pre.adjacency.take(0).filter(apred).map_values(scrub) =~= Seq::<(
                u64,
                Seq<u64>,
            )>::empty());
        }
        while taken_adj.len() > 0
            invariant
                pre.wf(),
                taken_adj@ == orig_adj.skip(atotal - taken_adj@.len()),
                atotal == pre.adjacency.len(),
                atotal == orig_adj.len(),
                taken_adj@.len() <= atotal,
                pre.adjacency == orig_adj.map_values(|p: (u64, Vec<u64>)| (p.0, p.1@)),
                scrub == (|p: (u64, Seq<u64>)| (p.0, p.1.filter(eid_keep(pre, id)))),
                self@.adjacency == pre.adjacency.take(atotal - taken_adj@.len()).filter(
                    entry_keep(id),
                ).map_values(scrub),
                self@.edges == pre.edges.filter(edge_keep(id)),
                self@.nodes == pre.nodes.filter(node_keep(id)),
                self@.core_nodes == pre.core_nodes,
                self@.next_edge_id == pre.next_edge_id,
            decreases taken_adj@.len(),
        {
            let ghost j = atotal - taken_adj@.len();
            let ghost before = taken_adj@;
            let entry = taken_adj.remove(0);
            let ghost pv = pre.adjacency[j];
            proof {
                before.remove_ensures(0);
                assert(taken_adj@ =~= orig_adj.skip(j + 1));
                assert(orig_adj.map_values(|p: (u64, Vec<u64>)| (p.0, p.1@))[j] == (
                    orig_adj[j].0,
                    orig_adj[j].1@,
                ));
                assert((entry.0, entry.1@) == pv);
                let t = pre.adjacency.take(j);
                assert(pre.adjacency.take(j + 1) =~= t.push(pv));
                assert(t.push(pv).drop_last() =~= t);
                reveal(Seq::filter);
            }
            if entry.0 != id {
                let list = entry.1;
                let m = list.len();
                let mut newlist: Vec<u64> = Vec::new();
                let mut k: usize = 0;
                proof {
                    assert(list@.take(0) =~= Seq::<u64>::empty());
                    reveal(Seq::filter);
                }
                while k < m
                    invariant
                        pre.wf(),
                        m == list@.len(),
                        k <= m,
                        list@ == pv.1,
                        0 <= j < pre.adjacency.len(),
                        pv == pre.adjacency[j],
                        newlist@ == list@.take(k as int).filter(eid_keep(pre, id)),
                        self@.edges == pre.edges.filter(edge_keep(id)),
                    decreases m - k,
                {
                    let eid = list[k];
                    proof {
                        let t = list@.take(k as int);
                        assert(list@.take(k as int + 1) =~= t.push(eid));
                        assert(t.push(eid).drop_last() =~= t);
                        reveal(Seq::filter);
                        assert(pre.has_edge(eid) && pre.edge_at(eid).from == pv.0);
                        lemma_edge_index(pre, pre.edge_index(eid));
                        pre.edges.filter_lemma(edge_keep(id));
                        lemma_filter_distinct_by(
                            pre.edges,
                            edge_keep(id),
                            |e: EdgeView| e.id,
                        );
                    }
                    let survives = self.find_edge_index(eid).is_some();
                    proof {
                        let ekept = pre.edges.filter(edge_keep(id));
                        if survives {
                            let x = choose|x: int|
                                0 <= x < ekept.len() && ekept[x].id == eid;
                            assert(pre.edges.contains(ekept[x]));
                            let y = choose|y: int|
                                0 <= y < pre.edges.len() && pre.edges[y] == ekept[x];
                            lemma_edge_index(pre, y);
                            assert(pre.edge_at(eid) == ekept[x]);
                            assert(edge_keep(id)(pre.edge_at(eid)));
                            assert(eid_keep(pre, id)(eid));
                        } else {
                            if eid_keep(pre, id)(eid) {
                                let ei = pre.edge_index(eid);
                                assert(edge_keep(id)(pre.edges[ei]));
                                assert(ekept.contains(pre.edges[ei]));
                                let x = choose|x: int|
                                    0 <= x < ekept.len() && ekept[x] == pre.edges[ei];
                                assert(self@.has_edge(eid));
                            }
                            assert(!eid_keep(pre, id)(eid));
                        }
                    }
                    if survives {
                        newlist.push(eid);
                    }
                    k += 1;
                }
                proof {
                    assert(list@.take(m as int) =~= list@);
                    assert(newlist@ == pv.1.filter(eid_keep(pre, id)));
                }
                self.adjacency.push((entry.0, newlist));
                proof {
                    let t = pre.adjacency.take(j);
                    assert(self@.adjacency =~= t.filter(entry_keep(id)).map_values(scrub).push(
                        scrub(pv),
                    ));
                    assert(t.filter(entry_keep(id)).push(pv).drop_last() =~= t.filter(
                        entry_keep(id),
                    ));
                    assert(pre.adjacency.take(j + 1).filter(entry_keep(id)) =~= t.filter(
                        entry_keep(id),
                    ).push(pv));
                    assert(pre.adjacency.take(j + 1).filter(entry_keep(id)).map_values(scrub)
                        =~= t.filter(entry_keep(id)).map_values(scrub).push(scrub(pv)));
                }
            }
        }
        proof {
            assert(pre.adjacency.take(atotal) =~= pre.adjacency);
            assert(self@.adjacency == pre.adjacency.filter(entry_keep(id)).map_values(scrub));
        }

        // Core marks.
        let filtered = remove_all_u64(&self.core_nodes, id);
        self.core_nodes = filtered;
        proof {
            assert((|c: u64| c != id) =~= key_keep(id));
            assert(self@.core_nodes == pre.core_nodes.filter(key_keep(id)));
            assert(scrub =~= (|p: (u64, Seq<u64>)| (p.0, p.1.filter(eid_keep(pre, id)))));
            assert(self@ =~= delete_result(pre, id));
        }
    }

    /// A node may be deleted by the guarded path only when it has no outgoing
    /// adjacency entries.
    fn can_safely_delete(&self, id: u64) -> (r: bool)
        requires
            self@.wf(),
        ensures
            r == (self@.out_degree(id) == 0),
    {
        self.out_degree(id) == 0
    }

    /// A guarded delete: performs the same removal as [`Graph::delete_node`]
    /// when the node has no outgoing adjacency entries, and otherwise fails,
    /// naming the node, without touching the graph.
    pub fn delete_node_please(&mut self, id: u64) -> (r: Result<(), String>)
        requires
            old(self)@.wf(),
        ensures
            final(self)@.wf(),
            r.is_ok() <==> old(self)@.out_degree(id) == 0,
            r.is_ok() ==> (if old(self)@.has_node(id) {
                final(self)@ == delete_result(old(self)@, id)
            } else {
                final(self)@ == old(self)@
            }),
            r.is_ok() ==> !final(self)@.has_node(id),
            r.is_err() ==> final(self)@ == old(self)@,
            (match r {
                Err(e) => e@ == cannot_delete_msg(id),
                Ok(_) => true,
            }),
    {
        if self.can_safely_delete(id) {
            self.delete_node(id);
            Ok(())
        } else {
            let mut msg = "Node ".to_owned();
            msg.append(u64_to_string(id).as_str());
            msg.append(" cannot be safely deleted.");
            proof {
                assert(msg@ =~= cannot_delete_msg(id));
            }
            Err(msg)
        }
    }

    /// Captures the whole current state as a snapshot of plain records.
    #[verifier::loop_isolation(false)]
    pub fn to_snapshot(&self) -> (r: GraphSnapshot)
        ensures
            r@ == self@,
    {
        let mut nodes: Vec<NodeRecord> = Vec::new();
        let n = self.nodes.len();
        let mut i: usize = 0;
        while i < n
            invariant
                i <= n,
                nodes@.len() == i,
                forall|j: int| 0 <= j < i ==> (#[trigger] nodes@[j])@ == self@.nodes[j],
            decreases n - i,
        {
            nodes.push(self.nodes[i].to_record());
            i += 1;
        }
        let mut edges: Vec<EdgeRecord> = Vec::new();
        let en = self.edges.len();
        let mut i2: usize = 0;
        while i2 < en
            invariant
                i2 <= en,
                edges@.len() == i2,
                forall|j: int| 0 <= j < i2 ==> (#[trigger] edges@[j])@ == self@.edges[j],
            decreases en - i2,
        {
            edges.push(self.edges[i2].to_record());
            i2 += 1;
        }
        let mut adjacency: Vec<(u64, Vec<u64>)> = Vec::new();
        let an = self.adjacency.len();
        let mut i3: usize = 0;
        while i3 < an
            invariant
                i3 <= an,
                adjacency@.len() == i3,
                forall|j: int|
                    0 <= j < i3 ==> ((#[trigger] adjacency@[j]).0, adjacency@[j].1@)
                        == self@.adjacency[j],
            decreases an - i3,
        {
            adjacency.push((self.adjacency[i3].0, clone_u64_vec(&self.adjacency[i3].1)));
            i3 += 1;
        }
        let core_nodes = clone_u64_vec(&self.core_nodes);
        let r = GraphSnapshot {
            nodes,
            edges,
            adjacency,
            core_nodes,
            next_edge_id: self.next_edge_id,
        };
        proof {
            assert(r@.nodes =~= self@.nodes);
            assert(r@.edges =~= self@.edges);
            assert(r@.adjacency =~= self@.adjacency);
            assert(r@ =~= self@);
        }
        r
    }

    /// Validates a snapshot and rebuilds the graph it describes; fails, with
    /// the whole state untouched, exactly when the records violate the
    /// store's invariants.
    #[verifier::loop_isolation(false)]
    pub fn from_snapshot(snap: GraphSnapshot) -> (r: Result<Graph, String>)
        ensures
            (match r {
                Ok(g) => g@ == snap@ && g@.wf() && snap@.wf(),
                Err(e) => !snap@.wf() && e@ == "Invalid graph snapshot"@,
            }),
    {
        let ghost sv = snap@;
        let GraphSnapshot { nodes: mut nrecs, edges: mut erecs, adjacency, core_nodes, next_edge_id } =
            snap;
        let ghost orig_n = nrecs@;
        let mut nodes: Vec<Node> = Vec::new();
        proof {
            assert(orig_n.skip(0) =~= orig_n);
        }
        while nrecs.len() > 0
            invariant
                nrecs@ == orig_n.skip(orig_n.len() - nrecs@.len()),
                nrecs@.len() <= orig_n.len(),
                nodes@.len() == orig_n.len() - nrecs@.len(),
                forall|j: int|
                    0 <= j < nodes@.len() ==> (#[trigger] nodes@[j])@ == orig_n[j]@,
            decreases nrecs@.len(),
        {
            let ghost j = orig_n.len() - nrecs@.len();
            let ghost before = nrecs@;
            let rec = nrecs.remove(0);
            proof {
                before.remove_ensures(0);
                assert(nrecs@ =~= orig_n.skip(j + 1));
                assert(rec == orig_n[j]);
            }
            nodes.push(Node::from_record(rec));
        }
        let ghost orig_e = erecs@;
        let mut edges: Vec<Edge> = Vec::new();
        proof {
            assert(orig_e.skip(0) =~= orig_e);
        }
        while erecs.len() > 0
            invariant
                erecs@ == orig_e.skip(orig_e.len() - erecs@.len()),
                erecs@.len() <= orig_e.len(),
                edges@.len() == orig_e.len() - erecs@.len(),
                forall|j: int|
                    0 <= j < edges@.len() ==> (#[trigger] edges@[j])@ == orig_e[j]@,
            decreases erecs@.len(),
        {
            let ghost j = orig_e.len() - erecs@.len();
            let ghost before = erecs@;
            let rec = erecs.remove(0);
            proof {
                before.remove_ensures(0);
                assert(erecs@ =~= orig_e.skip(j + 1));
                assert(rec == orig_e[j]);
            }
            edges.push(Edge::from_record(rec));
        }
        let g = Graph { nodes, edges, adjacency, core_nodes, next_edge_id };
        proof {
            assert(g@.nodes =~= sv.nodes);
            assert(g@.edges =~= sv.edges);
            assert(g@ =~= sv);
        }
        if g.check_wf() {
            Ok(g)
        } else {
            Err("Invalid graph snapshot".to_owned())
        }
    }

    /// Decides every invariant of the store at once.
    #[verifier::loop_isolation(false)]
    fn check_wf(&self) -> (r: bool)
        ensures
            r == self@.wf(),
    {
        let ghost gv = self@;
        let n = self.nodes.len();
        let en = self.edges.len();
        let an = self.adjacency.len();
        let cn = self.core_nodes.len();
        // Nodes: distinct ids, well-formed property bags.
        let mut i: usize = 0;
        while i < n
            invariant
                i <= n,
                forall|a: int, b: int|
                    0 <= a < b < n && a < i ==> gv.nodes[a].id != gv.nodes[b].id,
                forall|a: int| 0 <= a < i ==> (#[trigger] gv.nodes[a]).wf(),
            decreases n - i,
        {
            if !self.nodes[i].check_props() {
                proof {
                    assert(!gv.nodes[i as int].wf());
                    assert(!gv.wf());
                }
                return false;
            }
            let mut j: usize = i + 1;
            while j < n
                invariant
                    i < j <= n,
                    forall|b: int| i < b < j ==> gv.nodes[i as int].id != gv.nodes[b].id,
                decreases n - j,
            {
                if self.nodes[j].id() == self.nodes[i].id() {
                    proof {
                        assert(gv.nodes[i as int].id == gv.nodes[j as int].id);
                        assert(!gv.wf());
                    }
                    return false;
                }
                j += 1;
            }
            i += 1;
        }
        // Edges: distinct ids below the counter, well-formed property bags.
        let mut i2: usize = 0;
        while i2 < en
            invariant
                i2 <= en,
                forall|a: int, b: int|
                    0 <= a < b < en && a < i2 ==> gv.edges[a].id != gv.edges[b].id,
                forall|a: int| 0 <= a < i2 ==> (#[trigger] gv.edges[a]).wf(),
                forall|a: int| 0 <= a < i2 ==> (#[trigger] gv.edges[a]).id < gv.next_edge_id,
            decreases en - i2,
        {
            if !self.edges[i2].check_props() {
                proof {
                    assert(!gv.edges[i2 as int].wf());
                    assert(!gv.wf());
                }
                return false;
            }
            if !(self.edges[i2].id() < self.next_edge_id) {
                proof {
                    assert(gv.edges[i2 as int].id >= gv.next_edge_id);
                    assert(!gv.wf());
                }
                return false;
            }
            let mut j: usize = i2 + 1;
            while j < en
                invariant
                    i2 < j <= en,
                    forall|b: int| i2 < b < j ==> gv.edges[i2 as int].id != gv.edges[b].id,
                decreases en - j,
            {
                if self.edges[j].id() == self.edges[i2].id() {
                    proof {
                        assert(gv.edges[i2 as int].id == gv.edges[j as int].id);
                        assert(!gv.wf());
                    }
                    return false;
                }
                j += 1;
            }
            i2 += 1;
        }
        // Adjacency: distinct keys; every listed id names an existing edge
        // leaving the entry's node; no repetitions within a list.
        let mut i3: usize = 0;
        while i3 < an
            invariant
                i3 <= an,
                forall|a: int, b: int|
                    0 <= a < b < an && a < i3 ==> gv.adjacency[a].0 != gv.adjacency[b].0,
                forall|a: int, k: int|
                    0 <= a < i3 && 0 <= k < gv.adjacency[a].1.len() ==> {
                        &&& gv.has_edge(#[trigger] gv.adjacency[a].1[k])
                        &&& gv.edge_at(gv.adjacency[a].1[k]).from == gv.adjacency[a].0
                    },
                forall|a: int, k: int, l: int|
                    0 <= a < i3 && 0 <= k < l < gv.adjacency[a].1.len()
                        ==> gv.adjacency[a].1[k] != gv.adjacency[a].1[l],
            decreases an - i3,
        {
            let mut j: usize = i3 + 1;
            while j < an
                invariant
                    i3 < j <= an,
                    forall|b: int| i3 < b < j ==> gv.adjacency[i3 as int].0 != gv.adjacency[b].0,
                decreases an - j,
            {
                if self.adjacency[j].0 == self.adjacency[i3].0 {
                    proof {
                        assert(gv.adjacency[i3 as int].0 == gv.adjacency[j as int].0);
                        assert(!gv.wf());
                    }
                    return false;
                }
                j += 1;
            }
            let ln = self.adjacency[i3].1.len();
            let mut k: usize = 0;
            while k < ln
                invariant
                    k <= ln,
                    ln == gv.adjacency[i3 as int].1.len(),
                    forall|k2: int|
                        0 <= k2 < k ==> {
                            &&& gv.has_edge(#[trigger] gv.adjacency[i3 as int].1[k2])
                            &&& gv.edge_at(gv.adjacency[i3 as int].1[k2]).from == gv.adjacency[i3 as int].0
                        },
                    forall|k2: int, l2: int|
                        0 <= k2 < k && k2 < l2 < ln ==> gv.adjacency[i3 as int].1[k2]
                            != gv.adjacency[i3 as int].1[l2],
                decreases ln - k,
            {
                let eid = self.adjacency[i3].1[k];
                match self.find_edge_index(eid) {
                    Some(m) => {
                        proof {
                            lemma_edge_index(gv, m as int);
                        }
                        if self.edges[m].from() != self.adjacency[i3].0 {
                            proof {
                                assert(gv.edge_at(gv.adjacency[i3 as int].1[k as int]).from
                                    != gv.adjacency[i3 as int].0);
                                assert(!gv.wf());
                            }
                            return false;
                        }
                    },
                    None => {
                        proof {
                            assert(!gv.has_edge(gv.adjacency[i3 as int].1[k as int]));
                            assert(!gv.wf());
                        }
                        return false;
                    },
                }
                let mut l: usize = k + 1;
                while l < ln
                    invariant
                        k < l <= ln,
                        ln == gv.adjacency[i3 as int].1.len(),
                        forall|l2: int|
                            k < l2 < l ==> gv.adjacency[i3 as int].1[k as int] != gv.adjacency[i3 as int].1[l2],
                    decreases ln - l,
                {
                    if self.adjacency[i3].1[l] == self.adjacency[i3].1[k] {
                        proof {
                            assert(gv.adjacency[i3 as int].1[k as int] == gv.adjacency[i3 as int].1[l as int]);
                            assert(!gv.wf());
                        }
                        return false;
                    }
                    l += 1;
                }
                k += 1;
            }
            i3 += 1;
        }
        // Every edge is listed under its source.
        let mut i4: usize = 0;
        while i4 < en
            invariant
                i4 <= en,
                forall|a: int|
                    0 <= a < i4 ==> {
                        &&& gv.has_adj((#[trigger] gv.edges[a]).from)
                        &&& gv.out_edges(gv.edges[a].from).contains(gv.edges[a].id)
                    },
            decreases en - i4,
        {
            match self.find_adj_index(self.edges[i4].from()) {
                Some(ai) => {
                    proof {
                        lemma_adj_index(gv, ai as int);
                    }
                    if !contains_u64(&self.adjacency[ai].1, self.edges[i4].id()) {
                        proof {
                            assert(!gv.out_edges(gv.edges[i4 as int].from).contains(
                                gv.edges[i4 as int].id,
                            ));
                            assert(!gv.wf());
                        }
                        return false;
                    }
                },
                None => {
                    proof {
                        assert(!gv.has_adj(gv.edges[i4 as int].from));
                        assert(!gv.wf());
                    }
                    return false;
                },
            }
            i4 += 1;
        }
        // Core marks: distinct, each naming a stored node.
        let mut i5: usize = 0;
        while i5 < cn
            invariant
                i5 <= cn,
                forall|a: int, b: int|
                    0 <= a < b < cn && a < i5 ==> gv.core_nodes[a] != gv.core_nodes[b],
                forall|a: int| 0 <= a < i5 ==> gv.has_node(#[trigger] gv.core_nodes[a]),
            decreases cn - i5,
        {
            if self.find_node_index(self.core_nodes[i5]).is_none() {
                proof {
                    assert(!gv.has_node(gv.core_nodes[i5 as int]));
                    assert(!gv.wf());
                }
                return false;
            }
            let mut j: usize = i5 + 1;
            while j < cn
                invariant
                    i5 < j <= cn,
                    forall|b: int| i5 < b < j ==> gv.core_nodes[i5 as int] != gv.core_nodes[b],
                decreases cn - j,
            {
                if self.core_nodes[j] == self.core_nodes[i5] {
                    proof {
                        assert(gv.core_nodes[i5 as int] == gv.core_nodes[j as int]);
                        assert(!gv.wf());
                    }
                    return false;
                }
                j += 1;
            }
            i5 += 1;
        }
        proof {
            assert(gv.wf());
        }
        true
    }

    /// Renders the graph-visualization text: every node, then every directed
    /// edge with its label and weight.
    #[verifier::loop_isolation(false)]
    #[verifier::rlimit(60)]
    pub fn dot_string(&self) -> (r: String)
        ensures
            r@ == dot_text(self@),
    {
        let ghost gv = self@;
        let mut out = "digraph G {\n".to_owned();
        let n = self.nodes.len();
        let mut i: usize = 0;
        proof {
            assert(gv.nodes.take(0) =~= Seq::<NodeView>::empty());
        }
        while i < n
            invariant
                i <= n,
                out@ == "digraph G {\n"@ + dot_nodes(gv.nodes.take(i as int)),
            decreases n - i,
        {
            let id = self.nodes[i].id();
            out.append("    ");
            out.append(u64_to_string(id).as_str());
            out.append(" [label=\"Node ");
            out.append(u64_to_string(id).as_str());
            out.append("\"];\n");
            proof {
                assert(gv.nodes.take(i as int + 1).drop_last() =~= gv.nodes.take(i as int));
                assert(gv.nodes.take(i as int + 1).last() == gv.nodes[i as int]);
                assert(out@ =~= "digraph G {\n"@ + dot_nodes(gv.nodes.take(i as int + 1)));
            }
            i += 1;
        }
        proof {
            assert(gv.nodes.take(n as int) =~= gv.nodes);
        }
        let en = self.edges.len();
        let mut i2: usize = 0;
        proof {
            assert(gv.edges.take(0) =~= Seq::<EdgeView>::empty());
            assert(out@ =~= "digraph G {\n"@ + dot_nodes(gv.nodes) + dot_edges(
                gv.edges.take(0),
            ));
        }
        while i2 < en
            invariant
                i2 <= en,
                out@ == "digraph G {\n"@ + dot_nodes(gv.nodes) + dot_edges(
                    gv.edges.take(i2 as int),
                ),
            decreases en - i2,
        {
            let e = &self.edges[i2];
            out.append("    ");
            out.append(u64_to_string(e.from()).as_str());
            out.append(" -> ");
            out.append(u64_to_string(e.to()).as_str());
            out.append(" [label=\"");
            match e.label() {
                Some(l) => {
                    out.append(l.as_str());
                },
                None => {},
            }
            out.append("\", weight=");
            out.append(u64_to_string(e.weight()).as_str());
            out.append("];\n");
            proof {
                assert(gv.edges.take(i2 as int + 1).drop_last() =~= gv.edges.take(i2 as int));
                assert(gv.edges.take(i2 as int + 1).last() == gv.edges[i2 as int]);
                assert(out@ =~= "digraph G {\n"@ + dot_nodes(gv.nodes) + dot_edges(
                    gv.edges.take(i2 as int + 1),
                ));
            }
            i2 += 1;
        }
        proof {
            assert(gv.edges.take(en as int) =~= gv.edges);
        }
        out.append("}\n");
        proof {
            assert(out@ =~= dot_text(gv));
        }
        out
    }

    /// The id the next inserted edge will receive.
    pub fn next_edge_id(&self) -> (r: u64)
        ensures
            r == self@.next_edge_id,
    {
        self.next_edge_id
    }

    /// The ids of all stored nodes, in storage order.
    pub fn node_ids(&self) -> (r: Vec<u64>)
        ensures
            r@.len() == self@.nodes.len(),
            forall|i: int| 0 <= i < r@.len() ==> r@[i] == self@.nodes[i].id,
    {
        let n = self.nodes.len();
        let mut out: Vec<u64> = Vec::new();
        let mut i: usize = 0;
        while i < n
            invariant
                n == self@.nodes.len(),
                i <= n,
                out@.len() == i,
                forall|j: int| 0 <= j < i ==> out@[j] == self@.nodes[j].id,
            decreases n - i,
        {
            out.push(self.nodes[i].id());
            i += 1;
        }
        out
    }

    /// The ordered outgoing edge ids recorded for a node, if an adjacency
    /// entry exists.
    pub fn out_edge_list(&self, id: u64) -> (r: Option<&Vec<u64>>)
        requires
            self@.wf(),
        ensures
            match r {
                Some(l) => self@.has_adj(id) && l@ == self@.out_edges(id),
                None => !self@.has_adj(id),
            },
    {
        match self.find_adj_index(id) {
            Some(i) => {
                proof {
                    lemma_adj_index(self@, i as int);
                }
                Some(&self.adjacency[i].1)
            },
            None => None,
        }
    }

    /// The stored edge with a known-present id.
    pub fn edge_by_id(&self, id: u64) -> (r: &Edge)
        requires
            self@.wf(),
            self@.has_edge(id),
        ensures
            r@ == self@.edge_at(id),
    {
        let n = self.edges.len();
        let mut i: usize = 0;
        while i < n
            invariant
                self@.wf(),
                self@.has_edge(id),
                n == self@.edges.len(),
                i <= n,
                forall|j: int| 0 <= j < i ==> self@.edges[j].id != id,
            decreases n - i,
        {
            if self.edges[i].id() == id {
                proof {
                    lemma_edge_index(self@, i as int);
                }
                return &self.edges[i];
            }
            i += 1;
        }
        proof {
            let j = self@.edge_index(id);
            assert(self@.edges[j].id == id);
            assert(false);
        }
        &self.edges[0]
    }

    /// Marks an existing node as a core node; fails when the id names no
    /// stored node.
    pub fn add_core_node(&mut self, node_id: u64) -> (r: Result<(), String>)
        requires
            old(self)@.wf(),
        ensures
            final(self)@.wf(),
            r.is_ok() <==> old(self)@.has_node(node_id),
            r.is_ok() ==> final(self)@ == (GraphView {
                core_nodes: if old(self)@.is_core(node_id) {
                    old(self)@.core_nodes
                } else {
                    old(self)@.core_nodes.push(node_id)
                },
                ..old(self)@
            }),
            r.is_ok() ==> final(self)@.is_core(node_id),
            r.is_err() ==> final(self)@ == old(self)@,
            (match r {
                Err(e) => e@ == "Node does not exist"@,
                Ok(_) => true,
            }),
    {
        let ghost pre = self@;
        match self.find_node_index(node_id) {
            Some(i) => {
                proof {
                    lemma_node_index(pre, i as int);
                }
                if !contains_u64(&self.core_nodes, node_id) {
                    self.core_nodes.push(node_id);
                    proof {
                        assert(self@ =~= (GraphView {
                            core_nodes: pre.core_nodes.push(node_id),
                            ..pre
                        }));
                        assert(self@.core_nodes[self@.core_nodes.len() - 1] == node_id);
                        assert forall|a: int, b: int|
                            0 <= a < b < self@.core_nodes.len() implies self@.core_nodes[a]
                            != self@.core_nodes[b] by {
                            if b == self@.core_nodes.len() - 1 {
                                assert(!pre.core_nodes.contains(node_id));
                                assert(pre.core_nodes[a] != node_id);
                            }
                        }
                    }
                } else {
                    proof {
                        assert(self@ =~= (GraphView { core_nodes: pre.core_nodes, ..pre }));
                    }
                }
                Ok(())
            },
            None => Err("Node does not exist".to_owned()),
        }
    }

    /// True exactly when the id is currently marked as a core node.
    pub fn is_core_node(&self, node_id: u64) -> (r: bool)
        ensures
            r == self@.is_core(node_id),
    {
        contains_u64(&self.core_nodes, node_id)
    }

    /// Unmarks a core node; fails when the id is not currently marked.
    pub fn remove_core_node(&mut self, node_id: u64) -> (r: Result<(), String>)
        requires
            old(self)@.wf(),
        ensures
            final(self)@.wf(),
            r.is_ok() <==> old(self)@.is_core(node_id),
            r.is_ok() ==> final(self)@ == (GraphView {
                core_nodes: old(self)@.core_nodes.filter(|c: u64| c != node_id),
                ..old(self)@
            }),
            r.is_err() ==> final(self)@ == old(self)@,
            (match r {
                Err(e) => e@ == "Node is not a core node"@,
                Ok(_) => true,
            }),
            !final(self)@.is_core(node_id),
    {
        let ghost pre = self@;
        if contains_u64(&self.core_nodes, node_id) {
            let filtered = remove_all_u64(&self.core_nodes, node_id);
            self.core_nodes = filtered;
            proof {
                let pred = |c: u64| c != node_id;
                assert(self@ =~= (GraphView {
                    core_nodes: pre.core_nodes.filter(pred),
                    ..pre
                }));
                lemma_filter_distinct_by(pre.core_nodes, pred, |c: u64| c);
                pre.core_nodes.filter_lemma(pred);
                assert forall|x: int|
                    0 <= x < self@.core_nodes.len() implies self@.has_node(
                    self@.core_nodes[x]) by {
                    assert(pre.core_nodes.contains(self@.core_nodes[x]));
                    let m = choose|m: int|
                        0 <= m < pre.core_nodes.len() && pre.core_nodes[m] == self@.core_nodes[x];
                    assert(pre.has_node(pre.core_nodes[m]));
                }
                assert(!self@.is_core(node_id)) by {
                    if self@.core_nodes.contains(node_id) {
                        let m = choose|m: int|
                            0 <= m < self@.core_nodes.len() && self@.core_nodes[m] == node_id;
                        assert(pred(self@.core_nodes[m]));
                    }
                }
            }
            Ok(())
        } else {
            Err("Node is not a core node".to_owned())
        }
    }
}

} // verus!
