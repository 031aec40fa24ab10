//! The graph loaded from the persisted nodes and edges, for traversal queries:
//! shortest dependency path, blast radius (reverse reachability) and callees.

use crate::edges::{
    graph_edges_of, graph_of, index_of_id, lemma_node_with_id_index, node_slots, views,
};
use crate::reach::{depends, fresh, lemma_incoming, lemma_within_fixpoint, lemma_within_mono, lemma_within_range, lemma_within_step, within};
use crate::sgraph::{cg_edges, cg_nodes, cg_neighbors, cg_out_edges, neighbors_spec, out_edges_spec};
use crate::text::str_eq;
use crate::types::{Edge, Node};
use petgraph::stable_graph::{NodeIndex, StableGraph};
use vstd::prelude::*;

verus! {

/// Index of the last entry equal to `id`.
pub open spec fn last_index(ids: Seq<Seq<char>>, id: Seq<char>) -> Option<int>
    decreases ids.len(),
{
    if ids.len() == 0 {
        None
    } else if ids.last() == id {
        Some(ids.len() - 1)
    } else {
        last_index(ids.drop_last(), id)
    }
}

pub open spec fn id_list(nodes: Seq<Node>) -> Seq<Seq<char>> {
    nodes.map_values(|n: Node| n.id@)
}

/// The id reported for node index `i`: its id when it is the last node with
/// that id, else the empty string (an earlier duplicate).
pub open spec fn reported_id(ids: Seq<Seq<char>>, i: int) -> Seq<char> {
    if last_index(ids, ids[i]) == Some(i) {
        ids[i]
    } else {
        Seq::empty()
    }
}

pub proof fn lemma_last_index(ids: Seq<Seq<char>>, id: Seq<char>)
    ensures
        last_index(ids, id) is Some ==> {
            let i = last_index(ids, id)->0;
            &&& 0 <= i < ids.len()
            &&& ids[i] == id
            &&& forall|j: int| i < j < ids.len() ==> ids[j] != id
        },
        last_index(ids, id) is None ==> forall|j: int| 0 <= j < ids.len() ==> ids[j] != id,
    decreases ids.len(),
{
    if ids.len() > 0 {
        let d = ids.drop_last();
        lemma_last_index(d, id);
        assert(forall|j: int| 0 <= j < d.len() ==> #[trigger] d[j] == ids[j]);
        assert(ids.last() == ids[ids.len() - 1]);
        if ids.last() != id {
            assert forall|j: int| 0 <= j < ids.len() && last_index(ids, id) is None implies ids[j] != id by {
                if j < d.len() {
                    assert(d[j] == ids[j]);
                }
            }
            if last_index(ids, id) is Some {
                let i = last_index(ids, id)->0;
                assert forall|j: int| i < j < ids.len() implies ids[j] != id by {
                    if j < d.len() {
                        assert(d[j] == ids[j]);
                    }
                }
            }
        }
    }
}

pub proof fn lemma_last_index_nodes(nodes: Seq<Node>, id: Seq<char>)
    ensures
        last_index(id_list(nodes), id) == index_of_id(nodes, id),
    decreases nodes.len(),
{
    if nodes.len() > 0 {
        lemma_last_index_nodes(nodes.drop_last(), id);
        assert(id_list(nodes).drop_last() =~= id_list(nodes.drop_last()));
    }
}

pub proof fn lemma_graph_edges_in_range(nodes: Seq<Node>, edges: Seq<crate::types::EdgeV>)
    ensures
        forall|k: int|
            0 <= k < graph_edges_of(nodes, edges).len() ==> 0 <= (#[trigger] graph_edges_of(nodes, edges)[k]).0
                < nodes.len() && 0 <= graph_edges_of(nodes, edges)[k].1 < nodes.len(),
    decreases edges.len(),
{
    if edges.len() > 0 {
        let r = graph_edges_of(nodes, edges.drop_last());
        lemma_graph_edges_in_range(nodes, edges.drop_last());
        lemma_node_with_id_index(nodes, edges.last().src);
        lemma_node_with_id_index(nodes, edges.last().dst);
        let g = graph_edges_of(nodes, edges);
        assert forall|k: int| 0 <= k < g.len() implies 0 <= (#[trigger] g[k]).0 < nodes.len() && 0 <= g[k].1
            < nodes.len() by {
            if k < r.len() {
                assert(g[k] == r[k]);
            }
        }
    }
}

/// A walk: consecutive entries are joined by an edge.
pub open spec fn is_walk(edges: Seq<(int, int, Seq<char>)>, p: Seq<int>) -> bool {
    forall|i: int| #![trigger p[i]]
        0 <= i < p.len() - 1 ==> exists|k: int|
            0 <= k < edges.len() && (#[trigger] edges[k]).0 == p[i] && edges[k].1 == p[i + 1]
}

/// A walk from `s` to `t`.
pub open spec fn walk_from_to(edges: Seq<(int, int, Seq<char>)>, p: Seq<int>, s: int, t: int) -> bool {
    p.len() >= 1 && p[0] == s && p.last() == t && is_walk(edges, p)
}

/// The path `petgraph::algo::astar` returns with unit edge costs and a zero
/// estimate: one shortest walk from `s` to `t` (which of several equally short
/// walks is the search's choice), or none.
pub uninterp spec fn astar_unit_path(
    nodes: Seq<Option<Seq<char>>>,
    edges: Seq<(int, int, Seq<char>)>,
    s: int,
    t: int,
) -> Option<Seq<int>>;

/// `petgraph::algo::astar` with unit edge costs and zero estimate: a shortest
/// path from `s` to `t` when `t` is reachable, else none.
#[verifier::external_body]
fn cg_astar(g: &StableGraph<String, String>, s: usize, t: usize) -> (r: Option<Vec<usize>>)
    requires
        s < cg_nodes(*g).len(),
        t < cg_nodes(*g).len(),
    ensures
        match r {
            Some(p) => astar_unit_path(cg_nodes(*g), cg_edges(*g), s as int, t as int) == Some(
                p@.map_values(|x: usize| x as int),
            ),
            None => astar_unit_path(cg_nodes(*g), cg_edges(*g), s as int, t as int) is None,
        },
        match r {
            Some(p) => {
                &&& walk_from_to(cg_edges(*g), p@.map_values(|x: usize| x as int), s as int, t as int)
                &&& forall|q: Seq<int>| walk_from_to(cg_edges(*g), q, s as int, t as int) ==> q.len() >= p@.len()
            },
            None => forall|q: Seq<int>| !walk_from_to(cg_edges(*g), q, s as int, t as int),
        },
{
    let goal = NodeIndex::new(t);
    petgraph::algo::astar(g, NodeIndex::new(s), |n| n == goal, |_| 1usize, |_| 0usize).map(
        |(_, p)| p.into_iter().map(|n| n.index()).collect(),
    )
}

/// An in-memory graph of the persisted nodes and edges, with id lookup.
pub struct LoadedGraph {
    graph: StableGraph<String, String>,
    node_ids: Vec<String>,
    ids: Vec<String>,
}

impl LoadedGraph {
    #[verifier::type_invariant]
    spec fn inv(&self) -> bool {
        &&& self.node_ids@.len() < u32::MAX
        &&& self.ids@.len() == self.node_ids@.len()
        &&& cg_nodes(self.graph).len() == self.node_ids@.len()
        &&& forall|i: int|
            0 <= i < self.node_ids@.len() ==> cg_nodes(self.graph)[i] == Some(
                #[trigger] self.node_ids@[i]@,
            )
        &&& forall|i: int|
            0 <= i < self.ids@.len() ==> (#[trigger] self.ids@[i])@ == reported_id(
                self.node_list(),
                i,
            )
        &&& forall|k: int|
            0 <= k < cg_edges(self.graph).len() ==> 0 <= (#[trigger] cg_edges(self.graph)[k]).0
                < self.node_ids@.len() && 0 <= cg_edges(self.graph)[k].1 < self.node_ids@.len()
    }

    /// The node ids, by node index.
    pub closed spec fn node_list(&self) -> Seq<Seq<char>> {
        self.node_ids@.map_values(|s: String| s@)
    }

    /// The graph's edges `(source index, target index, relation name)` in the
    /// order they were added.
    pub closed spec fn edge_list(&self) -> Seq<(int, int, Seq<char>)> {
        cg_edges(self.graph)
    }

    /// The id reported for node index `i`.
    pub open spec fn id_at(&self, i: int) -> Seq<char> {
        reported_id(self.node_list(), i)
    }

    /// Load the graph: one node per entry of `nodes`, one edge per entry of
    /// `edges` whose ends are both known ids.
    pub fn load(nodes: &[Node], edges: &[Edge]) -> (g: LoadedGraph)
        requires
            nodes@.len() < u32::MAX,
            edges@.len() + 1 < u32::MAX,
        ensures
            g.node_list() == id_list(nodes@),
            g.edge_list() == graph_edges_of(nodes@, views(edges@)),
    {
        let graph = graph_of(nodes, edges);
        let mut node_ids: Vec<String> = Vec::new();
        let n = nodes.len();
        for i in 0..n
            invariant
                n == nodes@.len(),
                node_ids@.map_values(|s: String| s@) == id_list(nodes@.take(i as int)),
        {
            let ghost before = node_ids@;
            node_ids.push(nodes[i].id.clone());
            proof {
                assert(node_ids@.map_values(|s: String| s@) =~= before.map_values(|s: String| s@).push(
                    nodes@[i as int].id@,
                ));
                assert(id_list(nodes@.take(i + 1)) =~= id_list(nodes@.take(i as int)).push(nodes@[i as int].id@));
            }
        }
        proof {
            assert(nodes@.take(n as int) =~= nodes@);
        }
        let ghost list = id_list(nodes@);
        let mut ids: Vec<String> = Vec::new();
        for i in 0..n
            invariant
                n == nodes@.len(),
                node_ids@.len() == n,
                list == id_list(nodes@),
                node_ids@.map_values(|s: String| s@) == list,
                ids@.len() == i,
                forall|k: int| 0 <= k < i ==> (#[trigger] ids@[k])@ == reported_id(list, k),
        {
            let mut later = false;
            for j in i + 1..n
                invariant
                    n == nodes@.len(),
                    node_ids@.len() == n,
                    node_ids@.map_values(|s: String| s@) == list,
                    i < n,
                    later <==> exists|k: int| i < k < j && list[k] == list[i as int],
            {
                proof {
                    assert(node_ids@.map_values(|s: String| s@)[j as int] == node_ids@[j as int]@);
                    assert(node_ids@.map_values(|s: String| s@)[i as int] == node_ids@[i as int]@);
                }
                if node_ids[j] == node_ids[i] {
                    later = true;
                }
            }
            proof {
                lemma_last_index(list, list[i as int]);
                assert(node_ids@.map_values(|s: String| s@)[i as int] == node_ids@[i as int]@);
                if !later {
                    assert(last_index(list, list[i as int]) == Some(i as int)) by {
                        if last_index(list, list[i as int]) is None {
                        } else {
                            let li = last_index(list, list[i as int])->0;
                            if li > i {
                            } else if li < i {
                            }
                        }
                    }
                } else {
                    let k = choose|k: int| i < k < n && list[k] == list[i as int];
                    assert(last_index(list, list[i as int]) != Some(i as int));
                }
            }
            if later {
                ids.push(String::new());
            } else {
                ids.push(node_ids[i].clone());
            }
        }
        proof {
            lemma_graph_edges_in_range(nodes@, views(edges@));
            assert forall|i: int| 0 <= i < node_ids@.len() implies cg_nodes(graph)[i] == Some(
                #[trigger] node_ids@[i]@,
            ) by {
                assert(node_ids@.map_values(|s: String| s@)[i] == node_ids@[i]@);
                assert(node_slots(nodes@)[i] == Some(nodes@[i].id@));
            }
        }
        LoadedGraph { graph, node_ids, ids }
    }

    /// Index of the node with id `id` (the last one, for a repeated id).
    fn index_of(&self, id: &str) -> (r: Option<usize>)
        ensures
            match r {
                Some(i) => last_index(self.node_list(), id@) == Some(i as int),
                None => last_index(self.node_list(), id@) is None,
            },
    {
        proof {
            use_type_invariant(self);
        }
        let mut r: Option<usize> = None;
        let n = self.node_ids.len();
        for i in 0..n
            invariant
                n == self.node_ids@.len(),
                match r {
                    Some(k) => last_index(self.node_list().take(i as int), id@) == Some(k as int),
                    None => last_index(self.node_list().take(i as int), id@) is None,
                },
        {
            proof {
                assert(self.node_list().take(i + 1).drop_last() =~= self.node_list().take(i as int));
                assert(self.node_list()[i as int] == self.node_ids@[i as int]@);
            }
            if str_eq(self.node_ids[i].as_str(), id) {
                r = Some(i);
            }
        }
        proof {
            assert(self.node_list().take(n as int) =~= self.node_list());
        }
        r
    }
}


/// Targets of the outgoing edges whose relation is `Calls`, in order.
pub open spec fn call_targets(out: Seq<(int, Seq<char>)>) -> Seq<int>
    decreases out.len(),
{
    if out.len() == 0 {
        Seq::empty()
    } else {
        let r = call_targets(out.drop_last());
        if out.last().1 == "Calls"@ {
            r.push(out.last().0)
        } else {
            r
        }
    }
}

impl LoadedGraph {
    /// The shortest walk the path search picks from node `s` to node `t`.
    pub closed spec fn search_path(&self, s: int, t: int) -> Option<Seq<int>> {
        astar_unit_path(cg_nodes(self.graph), cg_edges(self.graph), s, t)
    }

    /// Shortest dependency path (any edge) between two node ids, as an id list.
    pub fn shortest_path(&self, from: &str, to: &str) -> (r: Option<Vec<String>>)
        ensures
            match (last_index(self.node_list(), from@), last_index(self.node_list(), to@)) {
                (Some(s), Some(t)) => match self.search_path(s, t) {
                    Some(p) => {
                        &&& r is Some
                        &&& r->0@.map_values(|x: String| x@) == p.map_values(|i: int| self.id_at(i))
                        &&& walk_from_to(self.edge_list(), p, s, t)
                        &&& forall|q: Seq<int>| walk_from_to(self.edge_list(), q, s, t) ==> q.len() >= p.len()
                    },
                    None => r is None && forall|q: Seq<int>| !walk_from_to(self.edge_list(), q, s, t),
                },
                _ => r is None,
            },
    {
        proof {
            use_type_invariant(self);
            lemma_last_index(self.node_list(), from@);
            lemma_last_index(self.node_list(), to@);
        }
        let s = match self.index_of(from) {
            Some(s) => s,
            None => return None,
        };
        let t = match self.index_of(to) {
            Some(t) => t,
            None => return None,
        };
        let p = match cg_astar(&self.graph, s, t) {
            Some(p) => p,
            None => return None,
        };
        let ghost pv = p@.map_values(|x: usize| x as int);
        proof {
            assert forall|i: int| 0 <= i < p@.len() implies (#[trigger] p@[i]) < self.ids@.len() by {
                assert(pv[i] == p@[i] as int);
                if i < p@.len() - 1 {
                    let k = choose|k: int|
                        0 <= k < cg_edges(self.graph).len() && (#[trigger] cg_edges(self.graph)[k]).0 == pv[i]
                            && cg_edges(self.graph)[k].1 == pv[i + 1];
                } else {
                    assert(pv.last() == pv[i]);
                }
            }
        }
        let mut out: Vec<String> = Vec::new();
        let n = p.len();
        for i in 0..n
            invariant
                n == p@.len(),
                self.inv(),
                pv == p@.map_values(|x: usize| x as int),
                forall|k: int| 0 <= k < p@.len() ==> (#[trigger] p@[k]) < self.ids@.len(),
                out@.map_values(|x: String| x@) == pv.take(i as int).map_values(|j: int| self.id_at(j)),
        {
            let ghost before = out@;
            out.push(self.ids[p[i]].clone());
            proof {
                assert(pv[i as int] == p@[i as int] as int);
                assert(out@.map_values(|x: String| x@) =~= before.map_values(|x: String| x@).push(
                    self.ids@[p@[i as int] as int]@,
                ));
                assert(pv.take(i + 1).map_values(|j: int| self.id_at(j)) =~= pv.take(i as int).map_values(
                    |j: int| self.id_at(j),
                ).push(self.id_at(pv[i as int])));
            }
        }
        proof {
            assert(pv.take(n as int) =~= pv);
        }
        Some(out)
    }

    /// Direct callees (outgoing CALLS edges) of a node id, most recently added
    /// edge first; empty for an unknown id.
    pub fn callees(&self, of: &str) -> (r: Vec<String>)
        ensures
            match last_index(self.node_list(), of@) {
                Some(a) => r@.map_values(|x: String| x@) == call_targets(
                    out_edges_spec(self.edge_list(), a),
                ).map_values(|i: int| self.id_at(i)),
                None => r@.len() == 0,
            },
    {
        proof {
            use_type_invariant(self);
            lemma_last_index(self.node_list(), of@);
        }
        let a = match self.index_of(of) {
            Some(a) => a,
            None => return Vec::new(),
        };
        let outs = cg_out_edges(&self.graph, a);
        let ghost ov = outs@.map_values(|x: (usize, String)| (x.0 as int, x.1@));
        proof {
            lemma_out_edges_targets(self.edge_list(), a as int);
            assert forall|k: int| 0 <= k < outs@.len() implies (#[trigger] outs@[k]).0 < self.ids@.len() by {
                assert(ov[k] == (outs@[k].0 as int, outs@[k].1@));
                let j = choose|j: int|
                    0 <= j < self.edge_list().len() && #[trigger] self.edge_list()[j].1 == ov[k].0;
            }
        }
        let mut out: Vec<String> = Vec::new();
        let n = outs.len();
        for i in 0..n
            invariant
                n == outs@.len(),
                self.inv(),
                ov == outs@.map_values(|x: (usize, String)| (x.0 as int, x.1@)),
                forall|k: int| 0 <= k < outs@.len() ==> (#[trigger] outs@[k]).0 < self.ids@.len(),
                out@.map_values(|x: String| x@) == call_targets(ov.take(i as int)).map_values(
                    |j: int| self.id_at(j),
                ),
        {
            proof {
                assert(ov.take(i + 1).drop_last() =~= ov.take(i as int));
                assert(ov[i as int] == (outs@[i as int].0 as int, outs@[i as int].1@));
            }
            if str_eq(outs[i].1.as_str(), "Calls") {
                let ghost before = out@;
                out.push(self.ids[outs[i].0].clone());
                proof {
                    assert(out@.map_values(|x: String| x@) =~= before.map_values(|x: String| x@).push(
                        self.ids@[outs@[i as int].0 as int]@,
                    ));
                }
            }
        }
        proof {
            assert(ov.take(n as int) =~= ov);
        }
        out
    }
}

/// Every outgoing edge of `a` targets an endpoint of some edge.
pub proof fn lemma_out_edges_targets(edges: Seq<(int, int, Seq<char>)>, a: int)
    ensures
        forall|k: int|
            0 <= k < out_edges_spec(edges, a).len() ==> exists|j: int|
                0 <= j < edges.len() && #[trigger] edges[j].1 == (#[trigger] out_edges_spec(edges, a)[k]).0,
    decreases edges.len(),
{
    if edges.len() > 0 {
        let d = edges.drop_last();
        lemma_out_edges_targets(d, a);
        let o = out_edges_spec(edges, a);
        let od = out_edges_spec(d, a);
        assert forall|k: int| 0 <= k < o.len() implies exists|j: int|
            0 <= j < edges.len() && #[trigger] edges[j].1 == (#[trigger] o[k]).0 by {
            if edges.last().0 == a {
                if k == 0 {
                    assert(edges[edges.len() - 1].1 == o[k].0);
                } else {
                    assert(o[k] == od[k - 1]);
                    let j = choose|j: int| 0 <= j < d.len() && #[trigger] d[j].1 == (#[trigger] od[k - 1]).0;
                    assert(edges[j] == d[j]);
                }
            } else {
                assert(o[k] == od[k]);
                let j = choose|j: int| 0 <= j < d.len() && #[trigger] d[j].1 == (#[trigger] od[k]).0;
                assert(edges[j] == d[j]);
            }
        }
    }
}


pub open spec fn no_dups(v: Seq<usize>) -> bool {
    forall|a: int, b: int| 0 <= a < b < v.len() ==> v[a] != v[b]
}

/// `x` depends on one of the first `i` entries of `f`.
pub open spec fn hits(e: Seq<(int, int, Seq<char>)>, f: Seq<usize>, i: int, x: int) -> bool {
    exists|k: int| 0 <= k < i && #[trigger] depends(e, x, f[k] as int)
}

/// `x` is one of the first `j` entries of `p`.
pub open spec fn among(p: Seq<usize>, j: int, x: int) -> bool {
    exists|t: int| 0 <= t < j && #[trigger] p[t] as int == x
}

/// `vis` marks exactly the nodes within `d` hops of `s`.
pub open spec fn level(e: Seq<(int, int, Seq<char>)>, s: int, vis: Seq<bool>, d: nat) -> bool {
    forall|x: int|
        #![trigger vis[x]]
        #![trigger within(e, s, x, d)]
        0 <= x < vis.len() ==> (vis[x] <==> within(e, s, x, d))
}

/// `f` lists, without repeats, exactly the nodes `d` hops from `s`.
pub open spec fn frontier_of(e: Seq<(int, int, Seq<char>)>, s: int, f: Seq<usize>, d: nat, n: int) -> bool {
    &&& forall|k: int| 0 <= k < f.len() ==> (#[trigger] f[k]) < n && fresh(e, s, f[k] as int, d)
    &&& forall|y: int| #[trigger] fresh(e, s, y, d) ==> exists|k: int| 0 <= k < f.len() && f[k] as int == y
    &&& no_dups(f)
}

/// `res` lists, without repeats, exactly the marked nodes other than `s`.
pub open spec fn reports(res: Seq<usize>, vis: Seq<bool>, s: int) -> bool {
    &&& forall|k: int| 0 <= k < res.len() ==> (#[trigger] res[k]) < vis.len() && vis[res[k] as int] && res[k] != s
    &&& forall|x: int|
        #![trigger vis[x]]
        0 <= x < vis.len() && vis[x] && x != s ==> exists|k: int| 0 <= k < res.len() && res[k] as int == x
    &&& no_dups(res)
}

/// The incoming neighbours of each node of `f` in turn, each node's in the
/// graph's own order (most recently added edge first).
pub open spec fn preds_of(e: Seq<(int, int, Seq<char>)>, f: Seq<usize>) -> Seq<int>
    decreases f.len(),
{
    if f.len() == 0 {
        Seq::empty()
    } else {
        preds_of(e, f.drop_last()) + neighbors_spec(e, f.last() as int, true)
    }
}

/// The entries of `l` that `vis` does not mark, each at its first occurrence,
/// in the order of `l`.
pub open spec fn first_new(l: Seq<int>, vis: Seq<bool>) -> Seq<usize>
    decreases l.len(),
{
    if l.len() == 0 {
        Seq::empty()
    } else {
        let r = first_new(l.drop_last(), vis);
        let x = l.last();
        if vis[x] || r.contains(x as usize) {
            r
        } else {
            r.push(x as usize)
        }
    }
}

/// The breadth-first search from `s` over `n` nodes after `d` levels: the
/// frontier, the visited marks and the nodes reported so far, in order.
pub open spec fn bfs(e: Seq<(int, int, Seq<char>)>, n: nat, s: int, d: nat) -> (Seq<usize>, Seq<bool>, Seq<usize>)
    decreases d,
{
    if d == 0 {
        (seq![s as usize], Seq::new(n, |x: int| x == s), Seq::empty())
    } else {
        let (f, v, r) = bfs(e, n, s, (d - 1) as nat);
        let nx = first_new(preds_of(e, f), v);
        (nx, Seq::new(n, |x: int| v[x] || nx.contains(x as usize)), r + nx)
    }
}

/// Once a level finds nothing new, later levels report nothing more.
proof fn lemma_bfs_settled(e: Seq<(int, int, Seq<char>)>, n: nat, s: int, d0: nat, d: nat)
    requires
        d0 <= d,
        bfs(e, n, s, d0).0.len() == 0,
    ensures
        bfs(e, n, s, d).0.len() == 0,
        bfs(e, n, s, d).2 == bfs(e, n, s, d0).2,
    decreases d - d0,
{
    if d > d0 {
        lemma_bfs_settled(e, n, s, d0, (d - 1) as nat);
        let (f, v, r) = bfs(e, n, s, (d - 1) as nat);
        assert(f.len() == 0);
        assert(preds_of(e, f) =~= Seq::<int>::empty());
        assert(first_new(preds_of(e, f), v) =~= Seq::<usize>::empty());
        assert(r + Seq::<usize>::empty() =~= r);
    }
}

impl LoadedGraph {
    /// Expand the breadth-first search by one hop: every not yet visited node
    /// that depends on a frontier node is visited, reported and put in the next
    /// frontier.
    fn expand_level(
        &self,
        frontier: &Vec<usize>,
        vis_in: Vec<bool>,
        res_in: Vec<usize>,
        Ghost(s): Ghost<int>,
        Ghost(d): Ghost<nat>,
    ) -> (out: (Vec<usize>, Vec<bool>, Vec<usize>))
        requires
            0 <= s < self.ids@.len(),
            vis_in@.len() == self.ids@.len(),
            level(self.edge_list(), s, vis_in@, d),
            frontier_of(self.edge_list(), s, frontier@, d, self.ids@.len() as int),
            reports(res_in@, vis_in@, s),
        ensures
            out.1@.len() == self.ids@.len(),
            level(self.edge_list(), s, out.1@, d + 1),
            frontier_of(self.edge_list(), s, out.0@, (d + 1) as nat, self.ids@.len() as int),
            reports(out.2@, out.1@, s),
            out.2@ == res_in@ + out.0@,
            out.0@ == first_new(preds_of(self.edge_list(), frontier@), vis_in@),
            out.1@ == Seq::new(vis_in@.len(), |x: int| vis_in@[x] || out.0@.contains(x as usize)),
    {
        proof {
            use_type_invariant(self);
        }
        let ghost e = self.edge_list();
        let ghost n = self.ids@.len() as int;
        let mut vis = vis_in;
        let mut res = res_in;
        let ghost vis0 = vis@;
        let ghost res0 = res@;
        let mut next: Vec<usize> = Vec::new();
        let m = frontier.len();
        for i in 0..m
            invariant
                m == frontier@.len(),
                self.inv(),
                e == self.edge_list(),
                n == self.ids@.len(),
                0 <= s < n,
                vis@.len() == n,
                vis0.len() == n,
                level(e, s, vis0, d),
                frontier_of(e, s, frontier@, d, n),
                forall|x: int|
                    #![trigger vis@[x]]
                    0 <= x < n ==> (vis@[x] <==> (vis0[x] || hits(e, frontier@, i as int, x))),
                forall|k: int| 0 <= k < next@.len() ==> (#[trigger] next@[k]) < n && !vis0[next@[k] as int]
                    && vis@[next@[k] as int],
                forall|x: int|
                    #![trigger vis@[x]]
                    0 <= x < n && vis@[x] && !vis0[x] ==> exists|k: int| 0 <= k < next@.len() && next@[k] as int == x,
                no_dups(next@),
                reports(res@, vis@, s),
                res@ == res0 + next@,
                next@ == first_new(preds_of(e, frontier@.take(i as int)), vis0),
        {
            let v = frontier[i];
            proof {
                assert(cg_nodes(self.graph)[v as int] == Some(self.node_ids@[v as int]@));
            }
            let preds = cg_neighbors(&self.graph, v, true);
            let ghost pv = preds@.map_values(|x: usize| x as int);
            proof {
                lemma_incoming(e, v as int);
                assert forall|t: int| 0 <= t < preds@.len() implies (#[trigger] preds@[t]) < n && depends(
                    e,
                    preds@[t] as int,
                    v as int,
                ) by {
                    assert(pv[t] == preds@[t] as int);
                    assert(pv.contains(pv[t]));
                    assert(depends(e, pv[t], v as int));
                    let k = choose|k: int| 0 <= k < e.len() && (#[trigger] e[k]).0 == pv[t] && e[k].1 == v as int;
                    assert(cg_edges(self.graph)[k] == e[k]);
                }
            }
            let q = preds.len();
            proof {
                assert(preds_of(e, frontier@.take(i as int)) + pv.take(0) =~= preds_of(e, frontier@.take(i as int)));
            }
            for j in 0..q
                invariant
                    q == preds@.len(),
                    pv == preds@.map_values(|x: usize| x as int),
                    pv == neighbors_spec(e, v as int, true),
                    next@ == first_new(preds_of(e, frontier@.take(i as int)) + pv.take(j as int), vis0),
                    self.inv(),
                    e == self.edge_list(),
                    n == self.ids@.len(),
                    0 <= s < n,
                    vis@.len() == n,
                    vis0.len() == n,
                    level(e, s, vis0, d),
                    forall|t: int| 0 <= t < preds@.len() ==> (#[trigger] preds@[t]) < n && depends(
                        e,
                        preds@[t] as int,
                        v as int,
                    ),
                    forall|x: int|
                        #![trigger vis@[x]]
                        0 <= x < n ==> (vis@[x] <==> (vis0[x] || hits(e, frontier@, i as int, x) || among(
                            preds@,
                            j as int,
                            x,
                        ))),
                    forall|k: int| 0 <= k < next@.len() ==> (#[trigger] next@[k]) < n && !vis0[next@[k] as int]
                        && vis@[next@[k] as int],
                    forall|x: int|
                        #![trigger vis@[x]]
                        0 <= x < n && vis@[x] && !vis0[x] ==> exists|k: int|
                            0 <= k < next@.len() && next@[k] as int == x,
                    no_dups(next@),
                    reports(res@, vis@, s),
                    res@ == res0 + next@,
            {
                let p = preds[j];
                let ghost vb = vis@;
                let ghost nb = next@;
                let ghost rb = res@;
                let ghost l = preds_of(e, frontier@.take(i as int)) + pv.take(j as int);
                let ghost l2 = preds_of(e, frontier@.take(i as int)) + pv.take(j + 1);
                proof {
                    assert(l2.drop_last() =~= l);
                    assert(pv[j as int] == preds@[j as int] as int);
                    assert(l2.last() == p as int);
                    assert(vb[p as int] <==> (vis0[p as int] || nb.contains(p))) by {
                        if vb[p as int] && !vis0[p as int] {
                            let k = choose|k: int| 0 <= k < nb.len() && nb[k] as int == p as int;
                            assert(nb[k] == p);
                        }
                        if nb.contains(p) {
                            let k = choose|k: int| 0 <= k < nb.len() && nb[k] == p;
                            assert(vb[nb[k] as int]);
                        }
                    }
                }
                if !vis[p] {
                    vis.set(p, true);
                    next.push(p);
                    res.push(p);
                    proof {
                        assert(within(e, s, s, d)) by {
                            lemma_within_mono(e, s, s, 0, d);
                        }
                        assert(vis0[s]);
                        assert(vb[s]);
                        assert(p as int != s);
                        assert(res@ =~= res0 + next@);
                        assert forall|k: int| 0 <= k < res@.len() implies (#[trigger] res@[k]) < vis@.len()
                            && vis@[res@[k] as int] && res@[k] != s by {
                            if k < rb.len() {
                                assert(res@[k] == rb[k]);
                            }
                        }
                        assert forall|x: int|
                            #![trigger vis@[x]]
                            0 <= x < vis@.len() && vis@[x] && x != s implies exists|k: int|
                                0 <= k < res@.len() && res@[k] as int == x by {
                            if x == p as int {
                                assert(res@[rb.len() as int] == p);
                            } else {
                                assert(vb[x]);
                                let k = choose|k: int| 0 <= k < rb.len() && rb[k] as int == x;
                                assert(res@[k] == rb[k]);
                            }
                        }
                        assert forall|a: int, b: int| 0 <= a < b < res@.len() implies res@[a] != res@[b] by {
                            if b == rb.len() {
                                assert(res@[a] == rb[a]);
                                assert(vb[rb[a] as int]);
                            } else {
                                assert(res@[a] == rb[a]);
                                assert(res@[b] == rb[b]);
                            }
                        }
                        assert forall|k: int| 0 <= k < next@.len() implies (#[trigger] next@[k]) < n
                            && !vis0[next@[k] as int] && vis@[next@[k] as int] by {
                            if k < nb.len() {
                                assert(next@[k] == nb[k]);
                            } else {
                                assert(next@[k] == p);
                                assert(!vb[p as int]);
                            }
                        }
                        assert forall|x: int|
                            #![trigger vis@[x]]
                            0 <= x < n && vis@[x] && !vis0[x] implies exists|k: int|
                                0 <= k < next@.len() && next@[k] as int == x by {
                            if x == p as int {
                                assert(next@[nb.len() as int] == p);
                            } else {
                                assert(vb[x]);
                                let k = choose|k: int| 0 <= k < nb.len() && nb[k] as int == x;
                                assert(next@[k] == nb[k]);
                            }
                        }
                        assert forall|a: int, b: int| 0 <= a < b < next@.len() implies next@[a] != next@[b] by {
                            assert(next@[a] == nb[a] || a == nb.len());
                            if b == nb.len() {
                                assert(next@[a] == nb[a]);
                                assert(vb[nb[a] as int]);
                            } else {
                                assert(next@[a] == nb[a]);
                                assert(next@[b] == nb[b]);
                            }
                        }
                        assert forall|x: int|
                            #![trigger vis@[x]]
                            0 <= x < n implies (vis@[x] <==> (vis0[x] || hits(e, frontier@, i as int, x) || among(
                                preds@,
                                j + 1,
                                x,
                            ))) by {
                            assert(preds@[j as int] as int == p as int);
                            if x != p as int {
                                assert(vis@[x] == vb[x]);
                                if among(preds@, j + 1, x) {
                                    let t = choose|t: int| 0 <= t < j + 1 && #[trigger] preds@[t] as int == x;
                                    assert(t != j);
                                    assert(among(preds@, j as int, x));
                                }
                                if among(preds@, j as int, x) {
                                    let t = choose|t: int| 0 <= t < j && #[trigger] preds@[t] as int == x;
                                    assert(among(preds@, j + 1, x));
                                }
                            }
                        }
                    }
                } else {
                    proof {
                        assert forall|x: int|
                            #![trigger vis@[x]]
                            0 <= x < n implies (vis@[x] <==> (vis0[x] || hits(e, frontier@, i as int, x) || among(
                                preds@,
                                j + 1,
                                x,
                            ))) by {
                            assert(vis@[x] == vb[x]);
                            assert(preds@[j as int] as int == p as int);
                            if among(preds@, j + 1, x) {
                                let t = choose|t: int| 0 <= t < j + 1 && #[trigger] preds@[t] as int == x;
                                if t < j {
                                    assert(among(preds@, j as int, x));
                                }
                            }
                            if among(preds@, j as int, x) {
                                let t = choose|t: int| 0 <= t < j && #[trigger] preds@[t] as int == x;
                                assert(among(preds@, j + 1, x));
                            }
                        }
                    }
                }
            }
            proof {
                assert(pv.take(q as int) =~= pv);
                assert(frontier@.take(i + 1).drop_last() =~= frontier@.take(i as int));
                assert(frontier@.take(i + 1).last() == v);
                assert(preds_of(e, frontier@.take(i + 1)) == preds_of(e, frontier@.take(i as int))
                    + neighbors_spec(e, v as int, true));
            }
            proof {
                assert forall|x: int|
                    #![trigger vis@[x]]
                    0 <= x < n implies (vis@[x] <==> (vis0[x] || hits(e, frontier@, i + 1, x))) by {
                    assert(frontier@[i as int] == v);
                    if among(preds@, q as int, x) {
                        let t = choose|t: int| 0 <= t < q && #[trigger] preds@[t] as int == x;
                        assert(depends(e, x, frontier@[i as int] as int));
                        assert(hits(e, frontier@, i + 1, x));
                    }
                    if hits(e, frontier@, i as int, x) {
                        let k = choose|k: int| 0 <= k < i && #[trigger] depends(e, x, frontier@[k] as int);
                        assert(hits(e, frontier@, i + 1, x));
                    }
                    if hits(e, frontier@, i + 1, x) && !hits(e, frontier@, i as int, x) {
                        let k = choose|k: int| 0 <= k < i + 1 && #[trigger] depends(e, x, frontier@[k] as int);
                        if k < i {
                            assert(hits(e, frontier@, i as int, x));
                        } else {
                            assert(depends(e, x, v as int));
                            assert(neighbors_spec(e, v as int, true).contains(x));
                            let t = choose|t: int| 0 <= t < pv.len() && pv[t] == x;
                            assert(pv[t] == preds@[t] as int);
                            assert(among(preds@, q as int, x));
                        }
                    }
                }
            }
        }
        proof {
            assert forall|x: int|
                #![trigger vis@[x]]
                #![trigger within(e, s, x, d + 1)]
                0 <= x < vis@.len() implies (vis@[x] <==> within(e, s, x, d + 1)) by {
                lemma_within_step(e, s, x, d);
                assert(vis0[x] <==> within(e, s, x, d));
                if vis@[x] && !vis0[x] {
                    let k = choose|k: int| 0 <= k < m && #[trigger] depends(e, x, frontier@[k] as int);
                    assert(fresh(e, s, frontier@[k] as int, d));
                }
                if within(e, s, x, d + 1) && !within(e, s, x, d) {
                    let y = choose|y: int| #![trigger depends(e, x, y)] fresh(e, s, y, d) && depends(e, x, y);
                    let k = choose|k: int| 0 <= k < frontier@.len() && frontier@[k] as int == y;
                    assert(depends(e, x, frontier@[k] as int));
                    assert(hits(e, frontier@, m as int, x));
                }
            }
            assert forall|k: int| 0 <= k < next@.len() implies (#[trigger] next@[k]) < n && fresh(
                e,
                s,
                next@[k] as int,
                (d + 1) as nat,
            ) by {
                let x = next@[k] as int;
                assert(vis@[x]);
                assert(!vis0[x]);
                assert(within(e, s, x, d + 1));
                assert(!within(e, s, x, d));
            }
            assert forall|y: int| #[trigger] fresh(e, s, y, (d + 1) as nat) implies exists|k: int|
                0 <= k < next@.len() && next@[k] as int == y by {
                lemma_within_range(e, s, y, d + 1, n);
                assert(vis@[y]);
                assert(!vis0[y]);
            }
            assert(frontier@.take(m as int) =~= frontier@);
            assert forall|x: int| 0 <= x < n implies #[trigger] vis@[x] == (vis0[x] || next@.contains(
                x as usize,
            )) by {
                if vis@[x] && !vis0[x] {
                    let k = choose|k: int| 0 <= k < next@.len() && next@[k] as int == x;
                    assert(next@[k] == x as usize);
                }
                if next@.contains(x as usize) {
                    let k = choose|k: int| 0 <= k < next@.len() && next@[k] == x as usize;
                    assert(vis@[next@[k] as int]);
                }
            }
            assert(vis@ =~= Seq::new(vis0.len(), |x: int| vis0[x] || next@.contains(x as usize)));
        }
        (next, vis, res)
    }
}

/// Later entries are no closer to `s` than earlier ones: the breadth-first
/// order of discovery.
pub open spec fn by_distance(e: Seq<(int, int, Seq<char>)>, s: int, v: Seq<usize>) -> bool {
    forall|a: int, b: int, h: nat|
        #![trigger v[a], v[b], within(e, s, v[b] as int, h)]
        0 <= a < b < v.len() && within(e, s, v[b] as int, h) ==> within(e, s, v[a] as int, h)
}

impl LoadedGraph {
    /// `x` is affected by a change to `s` within `d` hops: it depends on `s`
    /// over at most `d` edges and is not `s` itself.
    pub open spec fn affected(&self, s: int, d: nat, x: int) -> bool {
        x != s && within(self.edge_list(), s, x, d)
    }

    /// Reverse reachability: every node that depends on `target`, directly or
    /// transitively, within `max_depth` hops, nearest first, each once; empty
    /// for an unknown id. Within a level the order is that of discovery: the
    /// previous level's nodes in turn, each one's dependents most recently
    /// added edge first.
    pub fn blast_radius(&self, target: &str, max_depth: usize) -> (r: Vec<String>)
        ensures
            match last_index(self.node_list(), target@) {
                Some(s) => exists|ix: Seq<usize>|
                    {
                        &&& no_dups(ix)
                        &&& forall|x: int| among(ix, ix.len() as int, x) <==> self.affected(s, max_depth as nat, x)
                        &&& by_distance(self.edge_list(), s, ix)
                        &&& r@.map_values(|x: String| x@) == ix.map_values(|i: usize| self.id_at(i as int))
                    },
                None => r@.len() == 0,
            },
            match last_index(self.node_list(), target@) {
                Some(s) => r@.map_values(|x: String| x@) == bfs(
                    self.edge_list(),
                    self.node_list().len(),
                    s,
                    max_depth as nat,
                ).2.map_values(|i: usize| self.id_at(i as int)),
                None => true,
            },
    {
        proof {
            use_type_invariant(self);
            lemma_last_index(self.node_list(), target@);
        }
        let s = match self.index_of(target) {
            Some(s) => s,
            None => return Vec::new(),
        };
        let ghost e = self.edge_list();
        let n = self.ids.len();
        let mut vis: Vec<bool> = Vec::new();
        for i in 0..n
            invariant
                vis@.len() == i,
                forall|k: int| 0 <= k < i ==> (#[trigger] vis@[k] <==> k == s),
        {
            vis.push(i == s);
        }
        let mut frontier: Vec<usize> = Vec::new();
        frontier.push(s);
        let mut res: Vec<usize> = Vec::new();
        proof {
            assert forall|x: int|
                #![trigger vis@[x]]
                #![trigger within(e, s as int, x, 0)]
                0 <= x < vis@.len() implies (vis@[x] <==> within(e, s as int, x, 0)) by {}
            assert forall|y: int| #[trigger] fresh(e, s as int, y, 0) implies exists|k: int|
                0 <= k < frontier@.len() && frontier@[k] as int == y by {
                assert(frontier@[0] == s);
            }
        }
        proof {
            assert(vis@ =~= bfs(e, n as nat, s as int, 0).1);
            assert(frontier@ =~= bfs(e, n as nat, s as int, 0).0);
        }
        let mut depth: usize = 0;
        while depth < max_depth
            invariant
                frontier@ == bfs(e, n as nat, s as int, depth as nat).0,
                vis@ == bfs(e, n as nat, s as int, depth as nat).1,
                res@ == bfs(e, n as nat, s as int, depth as nat).2,
                self.inv(),
                e == self.edge_list(),
                n == self.ids@.len(),
                s < n,
                depth <= max_depth,
                vis@.len() == n,
                level(e, s as int, vis@, depth as nat),
                frontier_of(e, s as int, frontier@, depth as nat, n as int),
                reports(res@, vis@, s as int),
                by_distance(e, s as int, res@),
                forall|k: int| 0 <= k < res@.len() ==> within(e, s as int, #[trigger] res@[k] as int, depth as nat),
            ensures
                vis@.len() == n,
                level(e, s as int, vis@, max_depth as nat),
                reports(res@, vis@, s as int),
                by_distance(e, s as int, res@),
                res@ == bfs(e, n as nat, s as int, max_depth as nat).2,
            decreases max_depth - depth,
        {
            let ghost rb = res@;
            let ghost d = depth as nat;
            let ghost fb = frontier@;
            let ghost vb = vis@;
            let (next, vis2, res2) = self.expand_level(&frontier, vis, res, Ghost(s as int), Ghost(d));
            vis = vis2;
            res = res2;
            proof {
                assert(next@ == bfs(e, n as nat, s as int, d + 1).0);
                assert(vis@ == bfs(e, n as nat, s as int, d + 1).1);
                assert(res@ == bfs(e, n as nat, s as int, d + 1).2);
            }
            proof {
                assert forall|k: int| 0 <= k < res@.len() implies within(
                    e,
                    s as int,
                    #[trigger] res@[k] as int,
                    d + 1,
                ) by {
                    if k < rb.len() {
                        assert(res@[k] == rb[k]);
                        lemma_within_mono(e, s as int, rb[k] as int, d, d + 1);
                    } else {
                        assert(res@[k] == next@[k - rb.len()]);
                    }
                }
                assert forall|a: int, b: int, h: nat|
                    #![trigger res@[a], res@[b], within(e, s as int, res@[b] as int, h)]
                    0 <= a < b < res@.len() && within(e, s as int, res@[b] as int, h) implies within(
                    e,
                    s as int,
                    res@[a] as int,
                    h,
                ) by {
                    if b < rb.len() {
                        assert(res@[a] == rb[a]);
                        assert(res@[b] == rb[b]);
                    } else {
                        let y = res@[b] as int;
                        assert(res@[b] == next@[b - rb.len()]);
                        assert(fresh(e, s as int, y, d + 1));
                        if h <= d {
                            lemma_within_mono(e, s as int, y, h, d);
                        }
                        if a < rb.len() {
                            assert(res@[a] == rb[a]);
                            lemma_within_mono(e, s as int, rb[a] as int, d, h);
                        } else {
                            assert(res@[a] == next@[a - rb.len()]);
                            assert(fresh(e, s as int, res@[a] as int, d + 1));
                            lemma_within_mono(e, s as int, res@[a] as int, d + 1, h);
                        }
                    }
                }
            }
            let empty = next.len() == 0;
            frontier = next;
            depth = depth + 1;
            if empty {
                proof {
                    assert forall|x: int| #[trigger] within(e, s as int, x, d + 1) implies within(
                        e,
                        s as int,
                        x,
                        d,
                    ) by {
                        if !within(e, s as int, x, d) {
                            assert(fresh(e, s as int, x, d + 1));
                        }
                    }
                    lemma_within_fixpoint(e, s as int, d, max_depth as nat);
                    lemma_bfs_settled(e, n as nat, s as int, d + 1, max_depth as nat);
                    assert forall|x: int|
                        #![trigger vis@[x]]
                        #![trigger within(e, s as int, x, max_depth as nat)]
                        0 <= x < vis@.len() implies (vis@[x] <==> within(e, s as int, x, max_depth as nat)) by {
                        assert(vis@[x] <==> within(e, s as int, x, d + 1));
                        if within(e, s as int, x, d + 1) {
                            lemma_within_mono(e, s as int, x, d + 1, max_depth as nat);
                        }
                        if within(e, s as int, x, max_depth as nat) {
                            lemma_within_mono(e, s as int, x, d, d + 1);
                        }
                    }
                }
                break;
            }
        }
        let mut out: Vec<String> = Vec::new();
        let m = res.len();
        for i in 0..m
            invariant
                m == res@.len(),
                self.inv(),
                n == self.ids@.len(),
                forall|k: int| 0 <= k < res@.len() ==> (#[trigger] res@[k]) < n,
                out@.map_values(|x: String| x@) == res@.take(i as int).map_values(|j: usize| self.id_at(j as int)),
        {
            let ghost before = out@;
            out.push(self.ids[res[i]].clone());
            proof {
                assert(out@.map_values(|x: String| x@) =~= before.map_values(|x: String| x@).push(
                    self.ids@[res@[i as int] as int]@,
                ));
                assert(res@.take(i + 1).map_values(|j: usize| self.id_at(j as int)) =~= res@.take(
                    i as int,
                ).map_values(|j: usize| self.id_at(j as int)).push(self.id_at(res@[i as int] as int)));
            }
        }
        proof {
            assert(res@.take(m as int) =~= res@);
            assert(self.node_list().len() == n);
            assert forall|x: int| among(res@, res@.len() as int, x) <==> self.affected(
                s as int,
                max_depth as nat,
                x,
            ) by {
                if among(res@, res@.len() as int, x) {
                    let k = choose|k: int| 0 <= k < res@.len() && #[trigger] res@[k] as int == x;
                    assert(vis@[x]);
                }
                if self.affected(s as int, max_depth as nat, x) {
                    lemma_within_range(e, s as int, x, max_depth as nat, n as int);
                    assert(vis@[x]);
                    let k = choose|k: int| 0 <= k < res@.len() && res@[k] as int == x;
                    assert(res@[k] as int == x);
                }
            }
        }
        out
    }
}

} // verus!
