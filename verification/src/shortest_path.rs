//! Single-source shortest distances over non-negative integer weights,
//! computed by a label-setting search over a best-known-distance frontier.

use vstd::prelude::*;

use crate::graph::{Graph, GraphView};

verus! {

/// A distance from the source: a finite total weight, or unreachable.
#[derive(Clone, Copy, Debug, PartialEq, Eq, Structural)]
pub enum Distance {
    Finite(u64),
    Infinity,
}

/// `p` is a walk of edge ids leading from `s` to `t` in `g`.
pub open spec fn is_path(g: GraphView, p: Seq<u64>, s: u64, t: u64) -> bool
    decreases p.len(),
{
    if p.len() == 0 {
        s == t
    } else {
        &&& g.has_edge(p[0])
        &&& g.edge_at(p[0]).from == s
        &&& is_path(g, p.drop_first(), g.edge_at(p[0]).to, t)
    }
}

/// The total weight of a walk of edge ids.
pub open spec fn path_cost(g: GraphView, p: Seq<u64>) -> int
    decreases p.len(),
{
    if p.len() == 0 {
        0
    } else {
        g.edge_at(p[0]).weight + path_cost(g, p.drop_first())
    }
}

/// `d` is the least total weight of any walk from `s` to `t`.
pub open spec fn is_shortest(g: GraphView, s: u64, t: u64, d: int) -> bool {
    &&& exists|p: Seq<u64>| is_path(g, p, s, t) && path_cost(g, p) == d
    &&& forall|p: Seq<u64>| is_path(g, p, s, t) ==> path_cost(g, p) >= d
}

/// Distance-table entries carry pairwise distinct node ids.
pub open spec fn dm_wf(s: Seq<(u64, Distance)>) -> bool {
    forall|i: int, j: int| 0 <= i < j < s.len() ==> s[i].0 != s[j].0
}

/// The table holds an entry for this node id.
pub open spec fn dm_contains(s: Seq<(u64, Distance)>, id: u64) -> bool {
    exists|i: int| 0 <= i < s.len() && s[i].0 == id
}

/// The position of the entry for this node id.
pub open spec fn dm_index(s: Seq<(u64, Distance)>, id: u64) -> int {
    choose|i: int| 0 <= i < s.len() && s[i].0 == id
}

/// The recorded distance for this node id.
pub open spec fn dm_dist(s: Seq<(u64, Distance)>, id: u64) -> Distance {
    s[dm_index(s, id)].1
}

/// An entry's position answers every lookup for its id.
pub proof fn lemma_dm_index(s: Seq<(u64, Distance)>, i: int)
    requires
        dm_wf(s),
        0 <= i < s.len(),
    ensures
        dm_contains(s, s[i].0),
        dm_index(s, s[i].0) == i,
        dm_dist(s, s[i].0) == s[i].1,
{
    let id = s[i].0;
    assert(dm_contains(s, id));
    let j = dm_index(s, id);
    assert(0 <= j < s.len() && s[j].0 == id);
    if j < i {
        assert(s[j].0 != s[i].0);
    } else if i < j {
        assert(s[i].0 != s[j].0);
    }
}

/// The termination weight of a distance: unreachable weighs just above the
/// largest finite distance.
pub open spec fn dweight(d: Distance) -> int {
    match d {
        Distance::Finite(v) => v as int,
        Distance::Infinity => u64::MAX + 1,
    }
}

/// The total termination weight of a distance table.
pub open spec fn sum_weights(s: Seq<(u64, Distance)>) -> int
    decreases s.len(),
{
    if s.len() == 0 {
        0
    } else {
        dweight(s.last().1) + sum_weights(s.drop_last())
    }
}

/// The total weight of a table is non-negative.
pub proof fn lemma_sum_nonneg(s: Seq<(u64, Distance)>)
    ensures
        sum_weights(s) >= 0,
    decreases s.len(),
{
    if s.len() > 0 {
        lemma_sum_nonneg(s.drop_last());
    }
}

/// Updating one entry shifts the total weight by the entry's change.
pub proof fn lemma_sum_update(s: Seq<(u64, Distance)>, i: int, d: Distance)
    requires
        0 <= i < s.len(),
    ensures
        sum_weights(s.update(i, (s[i].0, d))) == sum_weights(s) - dweight(s[i].1) + dweight(d),
    decreases s.len(),
{
    let t = s.update(i, (s[i].0, d));
    if i == s.len() - 1 {
        assert(t.drop_last() =~= s.drop_last());
        assert(t.last() == (s[i].0, d));
    } else {
        lemma_sum_update(s.drop_last(), i, d);
        assert(t.drop_last() =~= s.drop_last().update(i, (s[i].0, d)));
        assert(t.last() == s.last());
    }
}

/// The target of `v` under candidate cost `c` needs no further relaxation:
/// its recorded distance is at most `c`, or `c` exceeds every representable
/// distance.
pub open spec fn relax_ok(s: Seq<(u64, Distance)>, v: u64, c: int) -> bool {
    &&& dm_contains(s, v)
    &&& match dm_dist(s, v) {
        Distance::Finite(dv) => dv as int <= c,
        Distance::Infinity => c > u64::MAX,
    }
}

/// Every outgoing edge of `u` is relaxed with respect to distance `du`.
pub open spec fn relaxed_node(g: GraphView, s: Seq<(u64, Distance)>, u: u64, du: int) -> bool {
    forall|t: int|
        0 <= t < g.out_edges(u).len() ==> relax_ok(
            s,
            g.edge_at(#[trigger] g.out_edges(u)[t]).to,
            du + g.edge_at(g.out_edges(u)[t]).weight,
        )
}

/// Every finite entry is either pending in the frontier at exactly its
/// recorded distance, or fully relaxed; entries other than `except` only.
pub open spec fn settled_except(
    g: GraphView,
    s: Seq<(u64, Distance)>,
    q: Seq<(u64, u64)>,
    except: u64,
    skip_except: bool,
) -> bool {
    forall|j: int|
        0 <= j < s.len() && !(skip_except && (#[trigger] s[j]).0 == except) ==> match s[j].1 {
            Distance::Finite(d) => (exists|k: int| 0 <= k < q.len() && q[k] == (d, s[j].0))
                || relaxed_node(g, s, s[j].0, d as int),
            Distance::Infinity => true,
        }
}

/// Every finite entry is pending at its recorded distance or fully relaxed.
pub open spec fn settled(g: GraphView, s: Seq<(u64, Distance)>, q: Seq<(u64, u64)>) -> bool {
    settled_except(g, s, q, 0, false)
}

/// Every finite entry is witnessed by a walk of exactly its cost.
pub open spec fn sound(g: GraphView, s: Seq<(u64, Distance)>, src: u64) -> bool {
    forall|j: int|
        0 <= j < s.len() ==> match (#[trigger] s[j]).1 {
            Distance::Finite(d) => exists|p: Seq<u64>|
                is_path(g, p, src, s[j].0) && path_cost(g, p) == d,
            Distance::Infinity => true,
        }
}

/// Every frontier entry names a tabled node whose recorded distance is finite
/// and at most the entry's cost.
pub open spec fn queue_ok(s: Seq<(u64, Distance)>, q: Seq<(u64, u64)>) -> bool {
    forall|k: int|
        0 <= k < q.len() ==> dm_contains(s, (#[trigger] q[k]).1) && match dm_dist(s, q[k].1) {
            Distance::Finite(dv) => dv <= q[k].0,
            Distance::Infinity => false,
        }
}

/// The table covers exactly the stored nodes and the source.
pub open spec fn dom_ok(g: GraphView, s: Seq<(u64, Distance)>, src: u64) -> bool {
    forall|id: u64| dm_contains(s, id) <==> (g.has_node(id) || id == src)
}

/// A single-point decrease of the table preserves an established relaxation.
pub proof fn lemma_relax_ok_after_update(
    s: Seq<(u64, Distance)>,
    j: int,
    nd: Distance,
    v: u64,
    c: int,
)
    requires
        dm_wf(s),
        0 <= j < s.len(),
        relax_ok(s, v, c),
        dweight(nd) <= dweight(s[j].1),
    ensures
        relax_ok(s.update(j, (s[j].0, nd)), v, c),
{
    let t = s.update(j, (s[j].0, nd));
    assert(dm_wf(t));
    let i = dm_index(s, v);
    assert(0 <= i < s.len() && s[i].0 == v);
    assert(t[i].0 == v);
    lemma_dm_index(t, i);
    if i == j {
        assert(dm_dist(t, v) == nd);
        assert(dweight(nd) <= dweight(s[j].1));
    } else {
        assert(dm_dist(t, v) == s[i].1);
    }
}

/// Appending an edge leaving the end of a walk extends it, adding the edge's
/// weight.
pub proof fn lemma_path_snoc(g: GraphView, p: Seq<u64>, s: u64, u: u64, eid: u64)
    requires
        is_path(g, p, s, u),
        g.has_edge(eid),
        g.edge_at(eid).from == u,
    ensures
        is_path(g, p.push(eid), s, g.edge_at(eid).to),
        path_cost(g, p.push(eid)) == path_cost(g, p) + g.edge_at(eid).weight,
    decreases p.len(),
{
    reveal_with_fuel(is_path, 3);
    reveal_with_fuel(path_cost, 3);
    if p.len() == 0 {
        assert(p.push(eid)[0] == eid);
        assert(p.push(eid).drop_first() =~= Seq::<u64>::empty());
    } else {
        assert(p.push(eid)[0] == p[0]);
        assert(p.push(eid).drop_first() =~= p.drop_first().push(eid));
        lemma_path_snoc(g, p.drop_first(), g.edge_at(p[0]).to, u, eid);
    }
}

/// A walk's cost is non-negative.
pub proof fn lemma_path_cost_nonneg(g: GraphView, p: Seq<u64>)
    ensures
        path_cost(g, p) >= 0,
    decreases p.len(),
{
    if p.len() > 0 {
        lemma_path_cost_nonneg(g, p.drop_first());
    }
}

/// Once every finite entry is fully relaxed, the table bounds every walk: a
/// walk from a finitely-reached node whose total stays representable forces
/// its endpoint's entry at most that total.
pub proof fn lemma_path_bound(
    g: GraphView,
    s: Seq<(u64, Distance)>,
    u: u64,
    t: u64,
    du: u64,
    p: Seq<u64>,
)
    requires
        g.wf(),
        dm_wf(s),
        forall|i: int| 0 <= i < g.edges.len() ==> dm_contains(s, g.edges[i].to),
        forall|j: int|
            0 <= j < s.len() ==> match (#[trigger] s[j]).1 {
                Distance::Finite(d) => relaxed_node(g, s, s[j].0, d as int),
                Distance::Infinity => true,
            },
        dm_contains(s, u),
        dm_dist(s, u) == Distance::Finite(du),
        is_path(g, p, u, t),
        du + path_cost(g, p) <= u64::MAX,
    ensures
        dm_contains(s, t),
        dweight(dm_dist(s, t)) <= du + path_cost(g, p),
    decreases p.len(),
{
    if p.len() == 0 {
        assert(t == u);
    } else {
        let eid = p[0];
        let e = g.edge_at(eid);
        let m = g.edge_index(eid);
        assert(0 <= m < g.edges.len() && g.edges[m].id == eid);
        assert(g.has_adj(e.from) && g.out_edges(e.from).contains(e.id));
        let ti = choose|ti: int|
            0 <= ti < g.out_edges(u).len() && g.out_edges(u)[ti] == eid;
        let ji = dm_index(s, u);
        assert(0 <= ji < s.len() && s[ji].0 == u && s[ji].1 == Distance::Finite(du));
        assert(relaxed_node(g, s, u, du as int));
        assert(relax_ok(s, e.to, du + e.weight));
        lemma_path_cost_nonneg(g, p.drop_first());
        assert(du + e.weight <= u64::MAX);
        let dv = match dm_dist(s, e.to) {
            Distance::Finite(dv) => dv,
            Distance::Infinity => 0,
        };
        assert(dm_dist(s, e.to) == Distance::Finite(dv) && dv <= du + e.weight);
        lemma_path_bound(g, s, e.to, t, dv, p.drop_first());
    }
}

/// A surviving frontier entry can still be found after a swap-removal of a
/// different entry.
pub proof fn lemma_queue_entry_after_swap_remove(q: Seq<(u64, u64)>, m: int, pair: (u64, u64))
    requires
        0 <= m < q.len(),
        exists|k: int| 0 <= k < q.len() && q[k] == pair,
        pair != q[m],
    ensures
        exists|k: int|
            0 <= k < q.update(m, q.last()).drop_last().len() && q.update(
                m,
                q.last(),
            ).drop_last()[k] == pair,
{
    let q2 = q.update(m, q.last()).drop_last();
    let k = choose|k: int| 0 <= k < q.len() && q[k] == pair;
    if k == q.len() - 1 {
        assert(q2[m] == pair);
    } else {
        assert(q2[k] == pair);
    }
}

/// The table of distances a shortest-path computation yields, keyed by node
/// id.
pub struct DistanceMap {
    entries: Vec<(u64, Distance)>,
}

impl View for DistanceMap {
    type V = Seq<(u64, Distance)>;

    closed spec fn view(&self) -> Seq<(u64, Distance)> {
        self.entries@
    }
}

impl DistanceMap {
    /// Looks the recorded distance of a node up.
    pub fn get(&self, id: u64) -> (r: Option<Distance>)
        requires
            dm_wf(self@),
        ensures
            match r {
                Some(d) => dm_contains(self@, id) && d == dm_dist(self@, id),
                None => !dm_contains(self@, id),
            },
    {
        let n = self.entries.len();
        let mut i: usize = 0;
        while i < n
            invariant
                dm_wf(self@),
                n == self@.len(),
                i <= n,
                forall|j: int| 0 <= j < i ==> self@[j].0 != id,
            decreases n - i,
        {
            if self.entries[i].0 == id {
                proof {
                    lemma_dm_index(self@, i as int);
                }
                return Some(self.entries[i].1);
            }
            i += 1;
        }
        None
    }

    /// The number of recorded entries.
    pub fn len(&self) -> (r: usize)
        ensures
            r == self@.len(),
    {
        self.entries.len()
    }
}

impl Graph {
    /// Shortest distances from `start_node` to every node known to the graph
    /// (the source gains an entry even when it is not stored): a
    /// priority-frontier search that repeatedly extracts a smallest-cost
    /// entry, discards it when stale, and relaxes the outgoing edges of the
    /// extracted node.  Every recorded finite distance is exactly the least
    /// total weight of a walk from the source; a node is recorded as
    /// unreachable exactly when no walk of representable total weight leads
    /// to it.  Edge targets must name stored nodes.
    pub fn dijkstra(&self, start_node: u64) -> (r: DistanceMap)
        requires
            self@.wf(),
            forall|i: int| 0 <= i < self@.edges.len() ==> self@.has_node(self@.edges[i].to),
        ensures
            dm_wf(r@),
            dom_ok(self@, r@, start_node),
            dm_contains(r@, start_node),
            dm_dist(r@, start_node) == Distance::Finite(0),
            forall|id: u64|
                #![trigger dm_dist(r@, id)]
                dm_contains(r@, id) ==> match dm_dist(r@, id) {
                    Distance::Finite(d) => is_shortest(self@, start_node, id, d as int),
                    Distance::Infinity => forall|p: Seq<u64>|
                        is_path(self@, p, start_node, id) ==> path_cost(self@, p) > u64::MAX,
                },
    {
        let ghost gv = self@;
        let ids = self.node_ids();
        let mut dist: Vec<(u64, Distance)> = Vec::new();
        let n = ids.len();
        let mut i: usize = 0;
        while i < n
            invariant
                gv == self@,
                gv.wf(),
                n == ids@.len(),
                n == gv.nodes.len(),
                i <= n,
                forall|j: int| 0 <= j < n ==> ids@[j] == gv.nodes[j].id,
                dist@.len() == i,
                forall|j: int| 0 <= j < i ==> dist@[j] == (gv.nodes[j].id, Distance::Infinity),
            decreases n - i,
        {
            dist.push((ids[i], Distance::Infinity));
            i += 1;
        }
        proof {
            assert forall|a: int, b: int| 0 <= a < b < dist@.len() implies dist@[a].0
                != dist@[b].0 by {
                assert(gv.nodes[a].id != gv.nodes[b].id);
            }
        }
        match self.find_node_index(start_node) {
            Some(si) => {
                proof {
                    assert(dist@[si as int].0 == start_node);
                }
                dist[si] = (start_node, Distance::Finite(0));
                proof {
                    assert(forall|x: int|
                        0 <= x < gv.nodes.len() ==> (#[trigger] dist@[x]).0 == gv.nodes[x].id);
                    assert(dm_wf(dist@));
                    assert(dist@[si as int] == (start_node, Distance::Finite(0)));
                    assert(forall|x: int|
                        0 <= x < dist@.len() && (#[trigger] dist@[x]).1 is Finite ==> dist@[x]
                            == (start_node, Distance::Finite(0)));
                    assert(exists|x: int|
                        0 <= x < dist@.len() && #[trigger] dist@[x] == (
                        start_node,
                        Distance::Finite(0),
                        ));
                }
            },
            None => {
                dist.push((start_node, Distance::Finite(0)));
                proof {
                    assert forall|a: int, b: int| 0 <= a < b < dist@.len() implies dist@[a].0
                        != dist@[b].0 by {
                        if b == dist@.len() - 1 {
                            assert(gv.has_node(gv.nodes[a].id));
                        } else {
                            assert(gv.nodes[a].id != gv.nodes[b].id);
                        }
                    }
                    assert(forall|x: int|
                        0 <= x < gv.nodes.len() ==> (#[trigger] dist@[x]).0 == gv.nodes[x].id);
                    assert(dm_wf(dist@));
                    assert(dist@[dist@.len() - 1] == (start_node, Distance::Finite(0)));
                    assert(forall|x: int|
                        0 <= x < dist@.len() && (#[trigger] dist@[x]).1 is Finite ==> dist@[x]
                            == (start_node, Distance::Finite(0)));
                    assert(exists|x: int|
                        0 <= x < dist@.len() && #[trigger] dist@[x] == (
                        start_node,
                        Distance::Finite(0),
                        ));
                }
            },
        }
        let mut queue: Vec<(u64, u64)> = Vec::new();
        queue.push((0u64, start_node));
        proof {
            assert(dm_wf(dist@));
            let si2 = choose|x: int|
                0 <= x < dist@.len() && #[trigger] dist@[x] == (start_node, Distance::Finite(0));
            lemma_dm_index(dist@, si2);
            assert(dm_contains(dist@, start_node));
            assert(dm_dist(dist@, start_node) == Distance::Finite(0));
            assert forall|id: u64| dm_contains(dist@, id) implies (gv.has_node(id) || id
                == start_node) by {
                let x = choose|x: int| 0 <= x < dist@.len() && dist@[x].0 == id;
                if x < gv.nodes.len() {
                    assert(gv.nodes[x].id == id);
                }
            }
            assert forall|id: u64| gv.has_node(id) || id == start_node implies dm_contains(
                dist@,
                id,
            ) by {
                if gv.has_node(id) {
                    let x = gv.node_index(id);
                    assert(dist@[x].0 == id);
                }
            }
            assert(dom_ok(gv, dist@, start_node));
            assert(is_path(gv, Seq::<u64>::empty(), start_node, start_node));
            assert(path_cost(gv, Seq::<u64>::empty()) == 0);
            assert forall|j: int| 0 <= j < dist@.len() implies match (#[trigger] dist@[j]).1 {
                Distance::Finite(d) => exists|p: Seq<u64>|
                    is_path(gv, p, start_node, dist@[j].0) && path_cost(gv, p) == d,
                Distance::Infinity => true,
            } by {
                if dist@[j].1 is Finite {
                    assert(dist@[j].0 == start_node);
                    let p0 = Seq::<u64>::empty();
                    assert(is_path(gv, p0, start_node, dist@[j].0) && path_cost(gv, p0) == 0);
                }
            }
            assert(sound(gv, dist@, start_node));
            assert forall|k2: int| 0 <= k2 < queue@.len() implies dm_contains(
                dist@,
                (#[trigger] queue@[k2]).1,
            ) && match dm_dist(dist@, queue@[k2].1) {
                Distance::Finite(dv) => dv <= queue@[k2].0,
                Distance::Infinity => false,
            } by {
                assert(queue@[k2] == (0u64, start_node));
            }
            assert(queue_ok(dist@, queue@));
            assert forall|j: int|
                0 <= j < dist@.len() && !(false && (#[trigger] dist@[j]).0 == 0) implies match dist@[j].1 {
                Distance::Finite(d) => (exists|k2: int|
                    0 <= k2 < queue@.len() && queue@[k2] == (d, dist@[j].0)) || relaxed_node(
                    gv,
                    dist@,
                    dist@[j].0,
                    d as int,
                ),
                Distance::Infinity => true,
            } by {
                if dist@[j].1 is Finite {
                    assert(dist@[j].0 == start_node && dist@[j].1 == Distance::Finite(0));
                    assert(queue@[0] == (0u64, start_node));
                }
            }
            assert(settled(gv, dist@, queue@));
        }
        while queue.len() > 0
            invariant
                gv == self@,
                gv.wf(),
                forall|i2: int| 0 <= i2 < gv.edges.len() ==> gv.has_node(gv.edges[i2].to),
                dm_wf(dist@),
                dom_ok(gv, dist@, start_node),
                dm_contains(dist@, start_node),
                dm_dist(dist@, start_node) == Distance::Finite(0),
                sound(gv, dist@, start_node),
                queue_ok(dist@, queue@),
                settled(gv, dist@, queue@),
            decreases queue@.len() + sum_weights(dist@),
        {
            let ghost metric0 = queue@.len() + sum_weights(dist@);
            // Extract the frontier entry with the smallest recorded cost.
            let mut m: usize = 0;
            let mut k: usize = 1;
            while k < queue.len()
                invariant
                    queue@.len() > 0,
                    m < queue@.len(),
                    k <= queue@.len(),
                decreases queue@.len() - k,
            {
                if queue[k].0 < queue[m].0 {
                    m = k;
                }
                k += 1;
            }
            let ghost q0 = queue@;
            let popped = queue.swap_remove(m);
            let cost = popped.0;
            let u = popped.1;
            let ghost q1 = queue@;
            proof {
                assert(popped == q0[m as int]);
                assert forall|k2: int| 0 <= k2 < q1.len() implies (exists|k3: int|
                    0 <= k3 < q0.len() && q0[k3] == #[trigger] q1[k2]) by {
                    if k2 == m && m < q0.len() - 1 {
                        assert(q0[q0.len() - 1] == q1[k2]);
                    } else {
                        assert(q0[k2] == q1[k2]);
                    }
                }
                assert forall|k2: int| 0 <= k2 < q1.len() implies dm_contains(
                    dist@,
                    (#[trigger] q1[k2]).1,
                ) && match dm_dist(dist@, q1[k2].1) {
                    Distance::Finite(dv) => dv <= q1[k2].0,
                    Distance::Infinity => false,
                } by {
                    let k3 = choose|k3: int| 0 <= k3 < q0.len() && q0[k3] == q1[k2];
                    assert(dm_contains(dist@, q0[k3].1));
                }
                assert(queue_ok(dist@, q1));
                assert(dm_contains(dist@, u));
            }
            let ui = dm_index_of(&dist, u);
            proof {
                lemma_dm_index(dist@, ui as int);
            }
            let du = match dist[ui].1 {
                Distance::Finite(d) => d,
                Distance::Infinity => {
                    proof {
                        assert(dm_dist(dist@, u) is Infinity);
                        assert(false);
                    }
                    0
                },
            };
            proof {
                assert(dm_dist(dist@, u) == Distance::Finite(du));
                assert(du <= cost);
            }
            if cost <= du {
                // The entry is current: relax every outgoing edge of `u`.
                proof {
                    assert(cost == du);
                    assert forall|j: int|
                        0 <= j < dist@.len() && !((#[trigger] dist@[j]).0 == u) implies match dist@[j].1 {
                        Distance::Finite(d) => (exists|k2: int|
                            0 <= k2 < q1.len() && q1[k2] == (d, dist@[j].0)) || relaxed_node(
                            gv,
                            dist@,
                            dist@[j].0,
                            d as int,
                        ),
                        Distance::Infinity => true,
                    } by {
                        match dist@[j].1 {
                            Distance::Finite(d) => {
                                if exists|k2: int| 0 <= k2 < q0.len() && q0[k2] == (d, dist@[j].0) {
                                    lemma_queue_entry_after_swap_remove(
                                        q0,
                                        m as int,
                                        (d, dist@[j].0),
                                    );
                                }
                            },
                            Distance::Infinity => {},
                        }
                    }
                    assert(settled_except(gv, dist@, q1, u, true));
                }
                let ghost budget = q1.len() + sum_weights(dist@);
                let out = self.out_edge_list(u);
                match out {
                    None => {
                        proof {
                            assert(gv.out_edges(u) =~= Seq::<u64>::empty());
                            assert(relaxed_node(gv, dist@, u, du as int));
                            assert forall|j: int|
                                0 <= j < dist@.len() && !(false && (#[trigger] dist@[j]).0 == 0)
                                implies match dist@[j].1 {
                                Distance::Finite(d) => (exists|k2: int|
                                    0 <= k2 < queue@.len() && queue@[k2] == (d, dist@[j].0))
                                    || relaxed_node(gv, dist@, dist@[j].0, d as int),
                                Distance::Infinity => true,
                            } by {
                                if dist@[j].0 == u && dist@[j].1 is Finite {
                                    assert(dist@[j].1 == Distance::Finite(du)) by {
                                        lemma_dm_index(dist@, j);
                                    }
                                }
                            }
                            assert(settled(gv, dist@, queue@));
                        }
                    },
                    Some(list) => {
                        let listlen = list.len();
                        let mut k2: usize = 0;
                        while k2 < listlen
                            invariant
                                gv == self@,
                                gv.wf(),
                                forall|i2: int|
                                    0 <= i2 < gv.edges.len() ==> gv.has_node(gv.edges[i2].to),
                                gv.has_adj(u),
                                list@ == gv.out_edges(u),
                                listlen == list@.len(),
                                k2 <= listlen,
                                dm_wf(dist@),
                                dom_ok(gv, dist@, start_node),
                                dm_contains(dist@, start_node),
                                dm_dist(dist@, start_node) == Distance::Finite(0),
                                sound(gv, dist@, start_node),
                                queue_ok(dist@, queue@),
                                settled_except(gv, dist@, queue@, u, true),
                                (exists|p: Seq<u64>|
                                    is_path(gv, p, start_node, u) && path_cost(gv, p) == du),
                                dm_contains(dist@, u),
                                (match dm_dist(dist@, u) {
                                    Distance::Finite(d2) => d2 == du || (exists|k3: int|
                                        0 <= k3 < queue@.len() && queue@[k3] == (d2, u)),
                                    Distance::Infinity => false,
                                }),
                                forall|t: int|
                                    0 <= t < k2 ==> relax_ok(
                                        dist@,
                                        gv.edge_at(#[trigger] list@[t]).to,
                                        du + gv.edge_at(list@[t]).weight,
                                    ),
                                queue@.len() + sum_weights(dist@) <= budget,
                            decreases listlen - k2,
                        {
                            let eid = list[k2];
                            proof {
                                let ai = gv.adj_index(u);
                                assert(0 <= ai < gv.adjacency.len() && gv.adjacency[ai].0 == u);
                                assert(gv.adjacency[ai].1 == list@);
                                assert(gv.has_edge(eid) && gv.edge_at(eid).from == u);
                            }
                            let edge = self.edge_by_id(eid);
                            let w = edge.weight();
                            let v = edge.to();
                            proof {
                                let ei = gv.edge_index(eid);
                                assert(0 <= ei < gv.edges.len() && gv.edges[ei].id == eid);
                                assert(gv.has_node(gv.edges[ei].to));
                                assert(dm_contains(dist@, v));
                            }
                            let vi = dm_index_of(&dist, v);
                            proof {
                                lemma_dm_index(dist@, vi as int);
                            }
                            let cand128: u128 = du as u128 + w as u128;
                            let dcur = dist[vi].1;
                            let do_update: bool = match dcur {
                                Distance::Finite(dv) => cand128 < dv as u128,
                                Distance::Infinity => cand128 <= u64::MAX as u128,
                            };
                            if do_update {
                                let ghost dold = dist@;
                                let ghost qold = queue@;
                                let cu = cand128 as u64;
                                dist[vi] = (v, Distance::Finite(cu));
                                queue.push((cu, v));
                                proof {
                                    self.relaxation_update_facts(
                                        gv,
                                        dold,
                                        qold,
                                        dist@,
                                        queue@,
                                        start_node,
                                        u,
                                        du,
                                        eid,
                                        v,
                                        w,
                                        cu,
                                        vi as int,
                                        dcur,
                                    );
                                    lemma_sum_update(dold, vi as int, Distance::Finite(cu));
                                    assert(dweight(Distance::Finite(cu)) + 1 <= dweight(dcur));
                                    assert(queue@.len() + sum_weights(dist@) <= budget);
                                    assert forall|t: int|
                                        0 <= t < k2 + 1 implies relax_ok(
                                        dist@,
                                        gv.edge_at(#[trigger] list@[t]).to,
                                        du + gv.edge_at(list@[t]).weight,
                                    ) by {
                                        if t < k2 {
                                            lemma_relax_ok_after_update(
                                                dold,
                                                vi as int,
                                                Distance::Finite(cu),
                                                gv.edge_at(list@[t]).to,
                                                du + gv.edge_at(list@[t]).weight,
                                            );
                                            assert(dist@ =~= dold.update(
                                                vi as int,
                                                (dold[vi as int].0, Distance::Finite(cu)),
                                            ));
                                        } else {
                                            assert(gv.edge_at(list@[t]).to == v);
                                            lemma_dm_index(dist@, vi as int);
                                            assert(dm_dist(dist@, v) == Distance::Finite(cu));
                                        }
                                    }
                                }
                            } else {
                                proof {
                                    assert(relax_ok(dist@, v, du + w)) by {
                                        assert(dm_dist(dist@, v) == dcur);
                                    }
                                    assert forall|t: int|
                                        0 <= t < k2 + 1 implies relax_ok(
                                        dist@,
                                        gv.edge_at(#[trigger] list@[t]).to,
                                        du + gv.edge_at(list@[t]).weight,
                                    ) by {
                                        if t == k2 {
                                            assert(gv.edge_at(list@[t]).to == v);
                                        }
                                    }
                                }
                            }
                            k2 += 1;
                        }
                        proof {
                            assert(relaxed_node(gv, dist@, u, du as int)) by {
                                assert(forall|t: int|
                                    0 <= t < gv.out_edges(u).len() ==> relax_ok(
                                        dist@,
                                        gv.edge_at(#[trigger] gv.out_edges(u)[t]).to,
                                        du + gv.edge_at(gv.out_edges(u)[t]).weight,
                                    ));
                            }
                            assert forall|j: int|
                                0 <= j < dist@.len() && !(false && (#[trigger] dist@[j]).0 == 0)
                                implies match dist@[j].1 {
                                Distance::Finite(d) => (exists|k3: int|
                                    0 <= k3 < queue@.len() && queue@[k3] == (d, dist@[j].0))
                                    || relaxed_node(gv, dist@, dist@[j].0, d as int),
                                Distance::Infinity => true,
                            } by {
                                if dist@[j].0 == u {
                                    lemma_dm_index(dist@, j);
                                    match dm_dist(dist@, u) {
                                        Distance::Finite(d2) => {
                                            if d2 == du {
                                                assert(relaxed_node(gv, dist@, u, du as int));
                                            }
                                        },
                                        Distance::Infinity => {},
                                    }
                                }
                            }
                            assert(settled(gv, dist@, queue@));
                        }
                    },
                }
                proof {
                    lemma_sum_nonneg(dist@);
                    assert(queue@.len() + sum_weights(dist@) <= budget);
                    assert(budget < metric0);
                }
            } else {
                // Stale entry: a smaller distance was already recorded.
                proof {
                    assert forall|j: int|
                        0 <= j < dist@.len() && !(false && (#[trigger] dist@[j]).0 == 0)
                        implies match dist@[j].1 {
                        Distance::Finite(d) => (exists|k2: int|
                            0 <= k2 < q1.len() && q1[k2] == (d, dist@[j].0)) || relaxed_node(
                            gv,
                            dist@,
                            dist@[j].0,
                            d as int,
                        ),
                        Distance::Infinity => true,
                    } by {
                        match dist@[j].1 {
                            Distance::Finite(d) => {
                                if exists|k2: int| 0 <= k2 < q0.len() && q0[k2] == (d, dist@[j].0) {
                                    if dist@[j].0 == u {
                                        lemma_dm_index(dist@, j);
                                        assert(d == du);
                                    }
                                    lemma_queue_entry_after_swap_remove(
                                        q0,
                                        m as int,
                                        (d, dist@[j].0),
                                    );
                                }
                            },
                            Distance::Infinity => {},
                        }
                    }
                    assert(settled(gv, dist@, queue@));
                    lemma_sum_nonneg(dist@);
                }
            }
        }
        proof {
            assert forall|j: int| 0 <= j < dist@.len() implies match (#[trigger] dist@[j]).1 {
                Distance::Finite(d) => relaxed_node(gv, dist@, dist@[j].0, d as int),
                Distance::Infinity => true,
            } by {
                match dist@[j].1 {
                    Distance::Finite(d) => {
                        assert(!(exists|k2: int|
                            0 <= k2 < queue@.len() && queue@[k2] == (d, dist@[j].0)));
                    },
                    Distance::Infinity => {},
                }
            }
            assert forall|i2: int| 0 <= i2 < gv.edges.len() implies dm_contains(
                dist@,
                (#[trigger] gv.edges[i2]).to,
            ) by {
                assert(gv.has_node(gv.edges[i2].to));
            }
            assert forall|id: u64|
                #![trigger dm_dist(dist@, id)]
                dm_contains(dist@, id) implies match dm_dist(dist@, id) {
                Distance::Finite(d) => is_shortest(gv, start_node, id, d as int),
                Distance::Infinity => forall|p: Seq<u64>|
                    is_path(gv, p, start_node, id) ==> path_cost(gv, p) > u64::MAX,
            } by {
                let x = dm_index(dist@, id);
                assert(0 <= x < dist@.len() && dist@[x].0 == id);
                match dm_dist(dist@, id) {
                    Distance::Finite(d) => {
                        assert(dist@[x].1 == Distance::Finite(d));
                        assert(exists|p: Seq<u64>|
                            is_path(gv, p, start_node, id) && path_cost(gv, p) == d);
                        assert forall|p: Seq<u64>| is_path(gv, p, start_node, id) implies path_cost(
                            gv,
                            p,
                        ) >= d by {
                            lemma_path_cost_nonneg(gv, p);
                            if path_cost(gv, p) <= u64::MAX {
                                lemma_path_bound(gv, dist@, start_node, id, 0, p);
                            }
                        }
                    },
                    Distance::Infinity => {
                        assert forall|p: Seq<u64>| is_path(gv, p, start_node, id) implies path_cost(
                            gv,
                            p,
                        ) > u64::MAX by {
                            lemma_path_cost_nonneg(gv, p);
                            if path_cost(gv, p) <= u64::MAX {
                                lemma_path_bound(gv, dist@, start_node, id, 0, p);
                                assert(dweight(dm_dist(dist@, id)) <= u64::MAX);
                            }
                        }
                    },
                }
            }
        }
        DistanceMap { entries: dist }
    }

    /// Re-establishes every search invariant across one relaxation update:
    /// the table keeps its keys, the source stays at zero, the new entry is
    /// witnessed by the extended walk, the frontier stays consistent, and all
    /// other nodes stay settled.
    proof fn relaxation_update_facts(
        &self,
        gv: GraphView,
        dold: Seq<(u64, Distance)>,
        qold: Seq<(u64, u64)>,
        dnew: Seq<(u64, Distance)>,
        qnew: Seq<(u64, u64)>,
        start_node: u64,
        u: u64,
        du: u64,
        eid: u64,
        v: u64,
        w: u64,
        cu: u64,
        vi: int,
        dcur: Distance,
    )
        requires
            gv.wf(),
            dm_wf(dold),
            dom_ok(gv, dold, start_node),
            dm_contains(dold, start_node),
            dm_dist(dold, start_node) == Distance::Finite(0),
            sound(gv, dold, start_node),
            queue_ok(dold, qold),
            settled_except(gv, dold, qold, u, true),
            exists|p: Seq<u64>| is_path(gv, p, start_node, u) && path_cost(gv, p) == du,
            dm_contains(dold, u),
            (match dm_dist(dold, u) {
                Distance::Finite(d2) => d2 == du || (exists|k3: int|
                    0 <= k3 < qold.len() && qold[k3] == (d2, u)),
                Distance::Infinity => false,
            }),
            gv.has_edge(eid),
            gv.edge_at(eid).from == u,
            gv.edge_at(eid).to == v,
            gv.edge_at(eid).weight == w,
            0 <= vi < dold.len(),
            dold[vi].0 == v,
            vi == dm_index(dold, v),
            dcur == dold[vi].1,
            cu == du + w,
            dweight(Distance::Finite(cu)) < dweight(dcur),
            dnew == dold.update(vi, (v, Distance::Finite(cu))),
            qnew == qold.push((cu, v)),
        ensures
            dm_wf(dnew),
            dom_ok(gv, dnew, start_node),
            dm_contains(dnew, start_node),
            dm_dist(dnew, start_node) == Distance::Finite(0),
            sound(gv, dnew, start_node),
            queue_ok(dnew, qnew),
            settled_except(gv, dnew, qnew, u, true),
            dm_contains(dnew, u),
            (match dm_dist(dnew, u) {
                Distance::Finite(d2) => d2 == du || (exists|k3: int|
                    0 <= k3 < qnew.len() && qnew[k3] == (d2, u)),
                Distance::Infinity => false,
            }),
    {
        assert(forall|x: int| 0 <= x < dnew.len() ==> (#[trigger] dnew[x]).0 == dold[x].0);
        assert(dm_wf(dnew));
        assert forall|id: u64| dm_contains(dnew, id) <==> dm_contains(dold, id) by {
            if dm_contains(dnew, id) {
                let x = choose|x: int| 0 <= x < dnew.len() && dnew[x].0 == id;
                assert(dold[x].0 == id);
            }
            if dm_contains(dold, id) {
                let x = choose|x: int| 0 <= x < dold.len() && dold[x].0 == id;
                assert(dnew[x].0 == id);
            }
        }
        // Indexes are stable: keys did not move.
        assert forall|id: u64| dm_contains(dold, id) implies dm_index(dnew, id) == dm_index(
            dold,
            id,
        ) by {
            let x = dm_index(dold, id);
            assert(0 <= x < dold.len() && dold[x].0 == id);
            assert(dnew[x].0 == id);
            lemma_dm_index(dnew, x);
        }
        // The source keeps distance zero: its entry was not the one updated.
        assert(dm_dist(dnew, start_node) == Distance::Finite(0)) by {
            let sx = dm_index(dold, start_node);
            if sx == vi {
                assert(dcur == Distance::Finite(0));
                assert(dweight(Distance::Finite(cu)) >= 0);
            }
            assert(dnew[sx].1 == dold[sx].1);
        }
        // Soundness: the updated entry is witnessed by the walk to `u`
        // extended with `eid`.
        assert forall|j: int| 0 <= j < dnew.len() implies match (#[trigger] dnew[j]).1 {
            Distance::Finite(d) => exists|p: Seq<u64>|
                is_path(gv, p, start_node, dnew[j].0) && path_cost(gv, p) == d,
            Distance::Infinity => true,
        } by {
            if j == vi {
                let pu = choose|p: Seq<u64>|
                    is_path(gv, p, start_node, u) && path_cost(gv, p) == du;
                lemma_path_snoc(gv, pu, start_node, u, eid);
                assert(is_path(gv, pu.push(eid), start_node, v) && path_cost(gv, pu.push(eid))
                    == cu);
            } else {
                assert(dnew[j] == dold[j]);
            }
        }
        assert(sound(gv, dnew, start_node));
        // Frontier consistency: old entries only saw distances drop; the new
        // entry records its own cost.
        assert forall|k2: int| 0 <= k2 < qnew.len() implies dm_contains(
            dnew,
            (#[trigger] qnew[k2]).1,
        ) && match dm_dist(dnew, qnew[k2].1) {
            Distance::Finite(dv) => dv <= qnew[k2].0,
            Distance::Infinity => false,
        } by {
            if k2 < qold.len() {
                assert(qnew[k2] == qold[k2]);
                assert(dm_contains(dold, qold[k2].1));
                let x = dm_index(dold, qold[k2].1);
                if x == vi {
                    assert(dm_dist(dnew, qold[k2].1) == Distance::Finite(cu));
                    assert(dweight(Distance::Finite(cu)) < dweight(dcur));
                } else {
                    assert(dnew[x].1 == dold[x].1);
                }
            } else {
                assert(qnew[k2] == (cu, v));
                lemma_dm_index(dnew, vi);
                assert(dm_dist(dnew, v) == Distance::Finite(cu));
            }
        }
        assert(queue_ok(dnew, qnew));
        // Every node other than `u` stays settled.
        assert forall|j: int|
            0 <= j < dnew.len() && !((#[trigger] dnew[j]).0 == u) implies match dnew[j].1 {
            Distance::Finite(d) => (exists|k2: int|
                0 <= k2 < qnew.len() && qnew[k2] == (d, dnew[j].0)) || relaxed_node(
                gv,
                dnew,
                dnew[j].0,
                d as int,
            ),
            Distance::Infinity => true,
        } by {
            if j == vi {
                assert(dnew[j].1 == Distance::Finite(cu));
                assert(qnew[qnew.len() - 1] == (cu, v));
            } else {
                match dold[j].1 {
                    Distance::Finite(d) => {
                        if exists|k2: int| 0 <= k2 < qold.len() && qold[k2] == (d, dold[j].0) {
                            let k3 = choose|k3: int|
                                0 <= k3 < qold.len() && qold[k3] == (d, dold[j].0);
                            assert(qnew[k3] == (d, dnew[j].0));
                        } else {
                            assert(relaxed_node(gv, dold, dold[j].0, d as int));
                            assert forall|t: int|
                                0 <= t < gv.out_edges(dnew[j].0).len() implies relax_ok(
                                dnew,
                                gv.edge_at(#[trigger] gv.out_edges(dnew[j].0)[t]).to,
                                d + gv.edge_at(gv.out_edges(dnew[j].0)[t]).weight,
                            ) by {
                                lemma_relax_ok_after_update(
                                    dold,
                                    vi,
                                    Distance::Finite(cu),
                                    gv.edge_at(gv.out_edges(dnew[j].0)[t]).to,
                                    d + gv.edge_at(gv.out_edges(dnew[j].0)[t]).weight,
                                );
                                assert(dnew =~= dold.update(vi, (dold[vi].0, Distance::Finite(cu))));
                            }
                            assert(relaxed_node(gv, dnew, dnew[j].0, d as int));
                        }
                    },
                    Distance::Infinity => {},
                }
            }
        }
        assert(settled_except(gv, dnew, qnew, u, true));
        // The extracted node keeps its standing: unchanged, or re-queued when
        // the update hit it.
        assert(dm_contains(dnew, u));
        let ux = dm_index(dold, u);
        assert(dm_index(dnew, u) == ux);
        if ux == vi {
            assert(dm_dist(dnew, u) == Distance::Finite(cu));
            assert(qnew[qnew.len() - 1] == (cu, v));
            assert(dold[vi].0 == u);
        } else {
            assert(dnew[ux].1 == dold[ux].1);
            match dm_dist(dold, u) {
                Distance::Finite(d2) => {
                    if exists|k3: int| 0 <= k3 < qold.len() && qold[k3] == (d2, u) {
                        let k3 = choose|k3: int| 0 <= k3 < qold.len() && qold[k3] == (d2, u);
                        assert(qnew[k3] == (d2, u));
                    }
                },
                Distance::Infinity => {},
            }
        }
    }
}

/// The position of a known-present id in a distance table.
fn dm_index_of(v: &Vec<(u64, Distance)>, id: u64) -> (r: usize)
    requires
        dm_wf(v@),
        dm_contains(v@, id),
    ensures
        r < v@.len(),
        v@[r as int].0 == id,
        r as int == dm_index(v@, id),
{
    let n = v.len();
    let mut i: usize = 0;
    while i < n
        invariant
            dm_wf(v@),
            n == v@.len(),
            i <= n,
            forall|j: int| 0 <= j < i ==> v@[j].0 != id,
        decreases n - i,
    {
        if v[i].0 == id {
            proof {
                lemma_dm_index(v@, i as int);
            }
            return i;
        }
        i += 1;
    }
    proof {
        let j = dm_index(v@, id);
        assert(0 <= j < v@.len() && v@[j].0 == id);
        assert(false);
    }
    0
}

} // verus!
