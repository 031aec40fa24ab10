//! The petgraph stable graph that holds the call/dependency graph, declared for
//! verification: its contents are modelled as node slots and the live edges in
//! the order they were added.

use petgraph::stable_graph::{NodeIndex, StableGraph};
use petgraph::visit::EdgeRef;
use petgraph::Direction;
use vstd::prelude::*;

verus! {

#[verifier::external_type_specification]
#[verifier::external_body]
#[verifier::reject_recursive_types(N)]
#[verifier::reject_recursive_types(E)]
#[verifier::reject_recursive_types(Ty)]
#[verifier::reject_recursive_types(Ix)]
pub struct ExStableGraph<N, E, Ty, Ix>(StableGraph<N, E, Ty, Ix>);

#[verifier::external_type_specification]
#[verifier::external_body]
pub struct ExDirected(petgraph::Directed);

/// Node slots of the graph by index: `Some(weight)` for a live node, `None`
/// for a vacant slot left by a removal.
pub uninterp spec fn cg_nodes(g: StableGraph<String, String>) -> Seq<Option<Seq<char>>>;

/// The live edges `(source, target, weight)` in the order they were added.
pub uninterp spec fn cg_edges(g: StableGraph<String, String>) -> Seq<(int, int, Seq<char>)>;

/// Every slot holds a node (no removals happened).
pub open spec fn cg_dense(g: StableGraph<String, String>) -> bool {
    forall|i: int| 0 <= i < cg_nodes(g).len() ==> cg_nodes(g)[i] is Some
}

/// Targets (outgoing) or sources (incoming) of the edges touching `a`, most
/// recently added first.
pub open spec fn neighbors_spec(edges: Seq<(int, int, Seq<char>)>, a: int, incoming: bool) -> Seq<int>
    decreases edges.len(),
{
    if edges.len() == 0 {
        Seq::empty()
    } else {
        let e = edges.last();
        let rest = neighbors_spec(edges.drop_last(), a, incoming);
        if incoming && e.1 == a {
            seq![e.0] + rest
        } else if !incoming && e.0 == a {
            seq![e.1] + rest
        } else {
            rest
        }
    }
}

/// Outgoing edges of `a` as `(target, weight)`, most recently added first.
pub open spec fn out_edges_spec(edges: Seq<(int, int, Seq<char>)>, a: int) -> Seq<(int, Seq<char>)>
    decreases edges.len(),
{
    if edges.len() == 0 {
        Seq::empty()
    } else {
        let e = edges.last();
        let rest = out_edges_spec(edges.drop_last(), a);
        if e.0 == a {
            seq![(e.1, e.2)] + rest
        } else {
            rest
        }
    }
}

/// A new, empty directed graph (`StableGraph::new`).
#[verifier::external_body]
pub(crate) fn cg_new() -> (g: StableGraph<String, String>)
    ensures
        cg_nodes(g) == Seq::<Option<Seq<char>>>::empty(),
        cg_edges(g) == Seq::<(int, int, Seq<char>)>::empty(),
{
    StableGraph::new()
}

/// Add a node (`StableGraph::add_node`): a vacant slot is reused if there is
/// one, else the node goes to a new slot at the end.
#[verifier::external_body]
pub(crate) fn cg_add_node(g: &mut StableGraph<String, String>, w: String) -> (i: usize)
    requires
        cg_nodes(*old(g)).len() < u32::MAX,
    ensures
        cg_edges(*final(g)) == cg_edges(*old(g)),
        (exists|j: int| 0 <= j < cg_nodes(*old(g)).len() && cg_nodes(*old(g))[j] is None) ==> {
            &&& i < cg_nodes(*old(g)).len()
            &&& cg_nodes(*old(g))[i as int] is None
            &&& cg_nodes(*final(g)) == cg_nodes(*old(g)).update(i as int, Some(w@))
        },
        !(exists|j: int| 0 <= j < cg_nodes(*old(g)).len() && cg_nodes(*old(g))[j] is None) ==> {
            &&& i == cg_nodes(*old(g)).len()
            &&& cg_nodes(*final(g)) == cg_nodes(*old(g)).push(Some(w@))
        },
{
    g.add_node(w).index()
}

/// Add an edge `a -> b` (`StableGraph::add_edge`); parallel edges are allowed.
#[verifier::external_body]
pub(crate) fn cg_add_edge(g: &mut StableGraph<String, String>, a: usize, b: usize, w: String)
    requires
        a < cg_nodes(*old(g)).len(),
        b < cg_nodes(*old(g)).len(),
        cg_nodes(*old(g))[a as int] is Some,
        cg_nodes(*old(g))[b as int] is Some,
        cg_edges(*old(g)).len() + 1 < u32::MAX,
    ensures
        cg_nodes(*final(g)) == cg_nodes(*old(g)),
        cg_edges(*final(g)) == cg_edges(*old(g)).push((a as int, b as int, w@)),
{
    g.add_edge(NodeIndex::new(a), NodeIndex::new(b), w);
}

/// Number of live nodes (`StableGraph::node_count`).
#[verifier::external_body]
pub(crate) fn cg_node_count(g: &StableGraph<String, String>) -> (n: usize)
    ensures
        cg_dense(*g) ==> n == cg_nodes(*g).len(),
{
    g.node_count()
}

/// Neighbors of `a` in one direction (`StableGraph::neighbors_directed`),
/// most recently added edge first; empty when `a` is not a live node.
#[verifier::external_body]
pub(crate) fn cg_neighbors(g: &StableGraph<String, String>, a: usize, incoming: bool) -> (r: Vec<usize>)
    requires
        a < cg_nodes(*g).len(),
        cg_nodes(*g)[a as int] is Some,
    ensures
        r@.map_values(|x: usize| x as int) == neighbors_spec(cg_edges(*g), a as int, incoming),
{
    let dir = if incoming { Direction::Incoming } else { Direction::Outgoing };
    g.neighbors_directed(NodeIndex::new(a), dir).map(|n| n.index()).collect()
}

/// Outgoing edges of `a` as `(target, weight)` (`StableGraph::edges`), most
/// recently added first.
#[verifier::external_body]
pub(crate) fn cg_out_edges(g: &StableGraph<String, String>, a: usize) -> (r: Vec<(usize, String)>)
    requires
        a < cg_nodes(*g).len(),
        cg_nodes(*g)[a as int] is Some,
    ensures
        r@.map_values(|x: (usize, String)| (x.0 as int, x.1@)) == out_edges_spec(cg_edges(*g), a as int),
{
    g.edges(NodeIndex::new(a)).map(|e| (e.target().index(), e.weight().clone())).collect()
}

} // verus!
