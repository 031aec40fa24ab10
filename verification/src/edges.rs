//! Building the edge set from parsed nodes and unresolved references:
//! structural DEFINES edges, CALLS edges resolved by name (same file first,
//! else a project-wide unique name; ambiguous names stay unresolved), and
//! INHERITS / IMPLEMENTS edges plus IMPLEMENTS hyperedges.

use crate::sgraph::{cg_add_edge, cg_add_node, cg_edges, cg_new, cg_nodes};
use crate::text::{chars_of, lemma_lex_irreflexive, lemma_lex_total, lemma_lex_trans, lex_less, lex_lt};
use vstd::string::StringExecFns;
use crate::types::{Confidence, Edge, EdgeRelation, EdgeV, Hyperedge, HyperedgeMember, HyperedgeRelation, InheritKind, Metadata, Node, NodeLabel, RawCall, RawInherit, ResolutionTier};
use petgraph::stable_graph::StableGraph;
use vstd::multiset::Multiset;
use vstd::prelude::*;

verus! {

pub open spec fn is_callable(l: NodeLabel) -> bool {
    l == NodeLabel::Function || l == NodeLabel::Method
}

/// Id of the last File node whose path is `path`.
pub open spec fn file_id_for(nodes: Seq<Node>, path: Seq<char>) -> Option<Seq<char>>
    decreases nodes.len(),
{
    if nodes.len() == 0 {
        None
    } else {
        let n = nodes.last();
        if n.label == NodeLabel::File && n.file_path@ == path {
            Some(n.id@)
        } else {
            file_id_for(nodes.drop_last(), path)
        }
    }
}

/// Id of the last Function/Method node named `name` in file `path`.
pub open spec fn callable_in_file(nodes: Seq<Node>, path: Seq<char>, name: Seq<char>) -> Option<Seq<char>>
    decreases nodes.len(),
{
    if nodes.len() == 0 {
        None
    } else {
        let n = nodes.last();
        if is_callable(n.label) && n.file_path@ == path && n.name@ == name {
            Some(n.id@)
        } else {
            callable_in_file(nodes.drop_last(), path, name)
        }
    }
}

/// Ids of the Function/Method nodes named `name`, in node order.
pub open spec fn callables_named(nodes: Seq<Node>, name: Seq<char>) -> Seq<Seq<char>>
    decreases nodes.len(),
{
    if nodes.len() == 0 {
        Seq::empty()
    } else {
        let n = nodes.last();
        let rest = callables_named(nodes.drop_last(), name);
        if is_callable(n.label) && n.name@ == name {
            rest.push(n.id@)
        } else {
            rest
        }
    }
}

/// Ids of the non-File nodes named `name`, in node order.
pub open spec fn symbols_named(nodes: Seq<Node>, name: Seq<char>) -> Seq<Seq<char>>
    decreases nodes.len(),
{
    if nodes.len() == 0 {
        Seq::empty()
    } else {
        let n = nodes.last();
        let rest = symbols_named(nodes.drop_last(), name);
        if n.label != NodeLabel::File && n.name@ == name {
            rest.push(n.id@)
        } else {
            rest
        }
    }
}

/// The last node with id `id`.
pub open spec fn node_with_id(nodes: Seq<Node>, id: Seq<char>) -> Option<Node>
    decreases nodes.len(),
{
    if nodes.len() == 0 {
        None
    } else {
        let n = nodes.last();
        if n.id@ == id {
            Some(n)
        } else {
            node_with_id(nodes.drop_last(), id)
        }
    }
}

/// The single element of `ids`, when there is exactly one.
pub open spec fn unique(ids: Seq<Seq<char>>) -> Option<Seq<char>> {
    if ids.len() == 1 {
        Some(ids[0])
    } else {
        None
    }
}

/// Index of the last node with id `id`.
pub open spec fn index_of_id(nodes: Seq<Node>, id: Seq<char>) -> Option<int>
    decreases nodes.len(),
{
    if nodes.len() == 0 {
        None
    } else if nodes.last().id@ == id {
        Some(nodes.len() - 1)
    } else {
        index_of_id(nodes.drop_last(), id)
    }
}

pub proof fn lemma_node_with_id_index(nodes: Seq<Node>, id: Seq<char>)
    ensures
        node_with_id(nodes, id) is Some <==> index_of_id(nodes, id) is Some,
        index_of_id(nodes, id) is Some ==> {
            let i = index_of_id(nodes, id)->0;
            &&& 0 <= i < nodes.len()
            &&& node_with_id(nodes, id) == Some(nodes[i])
            &&& nodes[i].id@ == id
            &&& forall|j: int| i < j < nodes.len() ==> nodes[j].id@ != id
        },
        index_of_id(nodes, id) is None ==> forall|j: int| 0 <= j < nodes.len() ==> nodes[j].id@ != id,
    decreases nodes.len(),
{
    if nodes.len() > 0 {
        let d = nodes.drop_last();
        lemma_node_with_id_index(d, id);
        assert(forall|j: int| 0 <= j < d.len() ==> #[trigger] d[j] == nodes[j]);
        assert(nodes.last() == nodes[nodes.len() - 1]);
        if nodes.last().id@ != id {
            assert forall|j: int| 0 <= j < nodes.len() && index_of_id(nodes, id) is None implies nodes[j].id@
                != id by {
                if j < d.len() {
                    assert(d[j] == nodes[j]);
                }
            }
            if index_of_id(nodes, id) is Some {
                let i = index_of_id(nodes, id)->0;
                assert forall|j: int| i < j < nodes.len() implies nodes[j].id@ != id by {
                    if j < d.len() {
                        assert(d[j] == nodes[j]);
                    }
                }
            }
        }
    }
}

fn eq_str(a: &String, b: &String) -> (r: bool)
    ensures
        r == (a@ == b@),
{
    *a == *b
}

/// Index of the last File node whose path is `path`.
fn find_file_node(nodes: &[Node], path: &String) -> (r: Option<usize>)
    ensures
        match r {
            Some(i) => i < nodes@.len() && file_id_for(nodes@, path@) == Some(nodes@[i as int].id@),
            None => file_id_for(nodes@, path@) is None,
        },
{
    let mut r: Option<usize> = None;
    let n = nodes.len();
    for i in 0..n
        invariant
            n == nodes@.len(),
            match r {
                Some(k) => k < i && file_id_for(nodes@.take(i as int), path@) == Some(nodes@[k as int].id@),
                None => file_id_for(nodes@.take(i as int), path@) is None,
            },
    {
        proof {
            assert(nodes@.take(i + 1).drop_last() =~= nodes@.take(i as int));
        }
        if nodes[i].label == NodeLabel::File && eq_str(&nodes[i].file_path, path) {
            r = Some(i);
        }
    }
    proof {
        assert(nodes@.take(n as int) =~= nodes@);
    }
    r
}

/// Index of the last Function/Method node named `name` in file `path`.
fn find_callable_in_file(nodes: &[Node], path: &String, name: &String) -> (r: Option<usize>)
    ensures
        match r {
            Some(i) => i < nodes@.len() && callable_in_file(nodes@, path@, name@) == Some(nodes@[i as int].id@),
            None => callable_in_file(nodes@, path@, name@) is None,
        },
{
    let mut r: Option<usize> = None;
    let n = nodes.len();
    for i in 0..n
        invariant
            n == nodes@.len(),
            match r {
                Some(k) => k < i && callable_in_file(nodes@.take(i as int), path@, name@) == Some(
                    nodes@[k as int].id@,
                ),
                None => callable_in_file(nodes@.take(i as int), path@, name@) is None,
            },
    {
        proof {
            assert(nodes@.take(i + 1).drop_last() =~= nodes@.take(i as int));
        }
        let l = nodes[i].label;
        if (l == NodeLabel::Function || l == NodeLabel::Method) && eq_str(&nodes[i].file_path, path)
            && eq_str(&nodes[i].name, name) {
            r = Some(i);
        }
    }
    proof {
        assert(nodes@.take(n as int) =~= nodes@);
    }
    r
}

/// Indices of the nodes named `name`: Function/Method nodes when `callables`,
/// else all non-File nodes; in node order.
fn find_named(nodes: &[Node], name: &String, callables: bool) -> (r: Vec<usize>)
    ensures
        forall|k: int| 0 <= k < r@.len() ==> r@[k] < nodes@.len(),
        r@.map_values(|k: usize| nodes@[k as int].id@) == if callables {
            callables_named(nodes@, name@)
        } else {
            symbols_named(nodes@, name@)
        },
{
    let mut r: Vec<usize> = Vec::new();
    let n = nodes.len();
    for i in 0..n
        invariant
            n == nodes@.len(),
            forall|k: int| 0 <= k < r@.len() ==> r@[k] < i,
            r@.map_values(|k: usize| nodes@[k as int].id@) == if callables {
                callables_named(nodes@.take(i as int), name@)
            } else {
                symbols_named(nodes@.take(i as int), name@)
            },
    {
        proof {
            assert(nodes@.take(i + 1).drop_last() =~= nodes@.take(i as int));
        }
        let l = nodes[i].label;
        let hit = if callables {
            l == NodeLabel::Function || l == NodeLabel::Method
        } else {
            l != NodeLabel::File
        };
        if hit && eq_str(&nodes[i].name, name) {
            let ghost before = r@;
            r.push(i);
            proof {
                assert(r@.map_values(|k: usize| nodes@[k as int].id@) =~= before.map_values(
                    |k: usize| nodes@[k as int].id@,
                ).push(nodes@[i as int].id@));
            }
        }
    }
    proof {
        assert(nodes@.take(n as int) =~= nodes@);
    }
    r
}

/// Index of the last node with id `id`.
fn find_id(nodes: &[Node], id: &String) -> (r: Option<usize>)
    ensures
        match r {
            Some(i) => index_of_id(nodes@, id@) == Some(i as int),
            None => index_of_id(nodes@, id@) is None,
        },
{
    let mut r: Option<usize> = None;
    let n = nodes.len();
    for i in 0..n
        invariant
            n == nodes@.len(),
            match r {
                Some(k) => index_of_id(nodes@.take(i as int), id@) == Some(k as int),
                None => index_of_id(nodes@.take(i as int), id@) is None,
            },
    {
        proof {
            assert(nodes@.take(i + 1).drop_last() =~= nodes@.take(i as int));
        }
        if eq_str(&nodes[i].id, id) {
            r = Some(i);
        }
    }
    proof {
        assert(nodes@.take(n as int) =~= nodes@);
    }
    r
}


/// Two edges with the same `(src, dst, relation)` key.
pub open spec fn same_key(a: EdgeV, b: EdgeV) -> bool {
    a.src == b.src && a.dst == b.dst && a.relation == b.relation
}

pub open spec fn has_key(s: Seq<EdgeV>, e: EdgeV) -> bool {
    exists|j: int| 0 <= j < s.len() && same_key(s[j], e)
}

/// `s` with every edge whose key already occurred earlier dropped (first wins).
pub open spec fn dedup_edges(s: Seq<EdgeV>) -> Seq<EdgeV>
    decreases s.len(),
{
    if s.len() == 0 {
        Seq::empty()
    } else {
        let d = dedup_edges(s.drop_last());
        if has_key(d, s.last()) {
            d
        } else {
            d.push(s.last())
        }
    }
}

pub open spec fn views(edges: Seq<Edge>) -> Seq<EdgeV> {
    edges.map_values(|e: Edge| e@)
}

/// The DEFINES edge of node `n`: its file's node defines it.
pub open spec fn defines_edge(nodes: Seq<Node>, n: Node) -> Option<EdgeV> {
    if n.label == NodeLabel::File {
        None
    } else {
        match file_id_for(nodes, n.file_path@) {
            Some(fid) => Some(
                EdgeV {
                    src: fid,
                    dst: n.id@,
                    relation: EdgeRelation::Defines,
                    tier: ResolutionTier::TreeSitter,
                    confidence: Confidence::Extracted,
                    src_file: n.file_path@,
                    src_line: n.line_start,
                },
            ),
            None => None,
        }
    }
}

pub open spec fn defines_cands(nodes: Seq<Node>, upto: Seq<Node>) -> Seq<EdgeV>
    decreases upto.len(),
{
    if upto.len() == 0 {
        Seq::empty()
    } else {
        let r = defines_cands(nodes, upto.drop_last());
        match defines_edge(nodes, upto.last()) {
            Some(e) => r.push(e),
            None => r,
        }
    }
}

/// The node a call names: a Function/Method of that name in the caller's
/// file, else the only Function/Method of that name in the project.
pub open spec fn call_target(nodes: Seq<Node>, c: RawCall) -> Option<Seq<char>> {
    match node_with_id(nodes, c.caller_id@) {
        None => None,
        Some(caller) => match callable_in_file(nodes, caller.file_path@, c.callee_name@) {
            Some(x) => Some(x),
            None => unique(callables_named(nodes, c.callee_name@)),
        },
    }
}

/// Both ids name nodes, and those are of the same language.
pub open spec fn same_language(nodes: Seq<Node>, a: Seq<char>, b: Seq<char>) -> bool {
    match (node_with_id(nodes, a), node_with_id(nodes, b)) {
        (Some(x), Some(y)) => x.language@ == y.language@,
        _ => false,
    }
}

/// The node a call resolves to: the node it names (see `call_target`) when
/// that is of the caller's language; a call never resolves across languages.
pub open spec fn call_callee(nodes: Seq<Node>, c: RawCall) -> Option<Seq<char>> {
    match call_target(nodes, c) {
        Some(x) => if same_language(nodes, c.caller_id@, x) {
            Some(x)
        } else {
            None
        },
        None => None,
    }
}

/// The CALLS edge of a call, when it resolves to a node other than the caller.
pub open spec fn call_edge(nodes: Seq<Node>, c: RawCall) -> Option<EdgeV> {
    match call_callee(nodes, c) {
        Some(callee) => if callee != c.caller_id@ {
            Some(
                EdgeV {
                    src: c.caller_id@,
                    dst: callee,
                    relation: EdgeRelation::Calls,
                    tier: ResolutionTier::TreeSitter,
                    confidence: Confidence::Inferred,
                    src_file: node_with_id(nodes, c.caller_id@)->0.file_path@,
                    src_line: c.line,
                },
            )
        } else {
            None
        },
        None => None,
    }
}

pub open spec fn call_cands(nodes: Seq<Node>, calls: Seq<RawCall>) -> Seq<EdgeV>
    decreases calls.len(),
{
    if calls.len() == 0 {
        Seq::empty()
    } else {
        let r = call_cands(nodes, calls.drop_last());
        match call_edge(nodes, calls.last()) {
            Some(e) => r.push(e),
            None => r,
        }
    }
}

/// Both ends of an inheritance record, each the only non-File node of its
/// name, and distinct.
pub open spec fn inherit_ends(nodes: Seq<Node>, inh: RawInherit) -> Option<(Seq<char>, Seq<char>)> {
    match unique(symbols_named(nodes, inh.impl_name@)) {
        Some(a) => match unique(symbols_named(nodes, inh.super_name@)) {
            Some(b) => if a != b {
                Some((a, b))
            } else {
                None
            },
            None => None,
        },
        None => None,
    }
}

pub open spec fn inherit_relation(k: InheritKind) -> EdgeRelation {
    match k {
        InheritKind::Extends => EdgeRelation::Inherits,
        InheritKind::Implements => EdgeRelation::Implements,
    }
}

pub open spec fn inherit_edge(nodes: Seq<Node>, inh: RawInherit) -> Option<EdgeV> {
    match inherit_ends(nodes, inh) {
        Some(ab) => Some(
            EdgeV {
                src: ab.0,
                dst: ab.1,
                relation: inherit_relation(inh.kind),
                tier: ResolutionTier::TreeSitter,
                confidence: Confidence::Extracted,
                src_file: match node_with_id(nodes, ab.0) {
                    Some(n) => n.file_path@,
                    None => Seq::empty(),
                },
                src_line: match node_with_id(nodes, ab.0) {
                    Some(n) => n.line_start,
                    None => 1,
                },
            },
        ),
        None => None,
    }
}

pub open spec fn inherit_cands(nodes: Seq<Node>, inhs: Seq<RawInherit>) -> Seq<EdgeV>
    decreases inhs.len(),
{
    if inhs.len() == 0 {
        Seq::empty()
    } else {
        let r = inherit_cands(nodes, inhs.drop_last());
        match inherit_edge(nodes, inhs.last()) {
            Some(e) => r.push(e),
            None => r,
        }
    }
}

/// Every edge the build derives, in derivation order, before de-duplication.
pub open spec fn build_cands(nodes: Seq<Node>, calls: Seq<RawCall>, inhs: Seq<RawInherit>) -> Seq<EdgeV> {
    defines_cands(nodes, nodes) + call_cands(nodes, calls) + inherit_cands(nodes, inhs)
}

pub proof fn lemma_dedup_push(s: Seq<EdgeV>, e: EdgeV)
    ensures
        dedup_edges(s.push(e)) == if has_key(dedup_edges(s), e) {
            dedup_edges(s)
        } else {
            dedup_edges(s).push(e)
        },
{
    assert(s.push(e).drop_last() =~= s);
}

/// Append `e` unless an edge with its key is already present.
fn push_edge(edges: &mut Vec<Edge>, e: Edge)
    requires
        forall|k: int| 0 <= k < old(edges)@.len() ==> old(edges)@[k].metadata.entries@.len() == 0,
        e.metadata.entries@.len() == 0,
    ensures
        forall|k: int| 0 <= k < final(edges)@.len() ==> final(edges)@[k].metadata.entries@.len() == 0,
        views(final(edges)@) == if has_key(views(old(edges)@), e@) {
            views(old(edges)@)
        } else {
            views(old(edges)@).push(e@)
        },
{
    let n = edges.len();
    let mut i: usize = 0;
    while i < n
        invariant
            n == edges@.len(),
            edges@ == old(edges)@,
            forall|k: int| 0 <= k < old(edges)@.len() ==> old(edges)@[k].metadata.entries@.len() == 0,
            0 <= i <= n,
            forall|k: int| 0 <= k < i ==> !same_key(#[trigger] views(edges@)[k], e@),
        decreases n - i,
    {
        if eq_str(&edges[i].src, &e.src) && eq_str(&edges[i].dst, &e.dst) && edges[i].relation
            == e.relation {
            proof {
                assert(same_key(views(edges@)[i as int], e@));
            }
            return;
        }
        i = i + 1;
    }
    let ghost before = edges@;
    edges.push(e);
    proof {
        assert(views(edges@) =~= views(before).push(e@));
    }
}


/// An edge with no metadata.
fn plain_edge(
    src: String,
    dst: String,
    relation: EdgeRelation,
    tier: ResolutionTier,
    confidence: Confidence,
    src_file: String,
    src_line: u32,
) -> (e: Edge)
    ensures
        e@ == (EdgeV {
            src: src@,
            dst: dst@,
            relation,
            tier,
            confidence,
            src_file: src_file@,
            src_line,
        }),
        e.metadata.entries@.len() == 0,
{
    Edge { src, dst, relation, tier, confidence, src_file, src_line, metadata: Metadata::new() }
}

pub open spec fn no_metadata(edges: Seq<Edge>) -> bool {
    forall|k: int| 0 <= k < edges.len() ==> edges[k].metadata.entries@.len() == 0
}

/// Pass 1: each file's node DEFINES every other node of that file.
fn add_defines(nodes: &[Node], edges: &mut Vec<Edge>, Ghost(base): Ghost<Seq<EdgeV>>)
    requires
        no_metadata(old(edges)@),
        views(old(edges)@) == dedup_edges(base),
    ensures
        no_metadata(final(edges)@),
        views(final(edges)@) == dedup_edges(base + defines_cands(nodes@, nodes@)),
{
    proof {
        assert(nodes@.take(0) =~= Seq::<Node>::empty());
        assert(base + defines_cands(nodes@, nodes@.take(0)) =~= base);
    }
    let n = nodes.len();
    for i in 0..n
        invariant
            n == nodes@.len(),
            no_metadata(edges@),
            views(edges@) == dedup_edges(base + defines_cands(nodes@, nodes@.take(i as int))),
    {
        let ghost prev = base + defines_cands(nodes@, nodes@.take(i as int));
        proof {
            assert(nodes@.take(i + 1).drop_last() =~= nodes@.take(i as int));
            assert(nodes@.take(i + 1).last() == nodes@[i as int]);
        }
        if nodes[i].label != NodeLabel::File {
            match find_file_node(nodes, &nodes[i].file_path) {
                Some(f) => {
                    let e = plain_edge(
                        nodes[f].id.clone(),
                        nodes[i].id.clone(),
                        EdgeRelation::Defines,
                        ResolutionTier::TreeSitter,
                        Confidence::Extracted,
                        nodes[i].file_path.clone(),
                        nodes[i].line_start,
                    );
                    proof {
                        assert(defines_edge(nodes@, nodes@[i as int]) == Some(e@));
                        lemma_dedup_push(prev, e@);
                        assert(prev.push(e@) =~= base + defines_cands(nodes@, nodes@.take(i + 1)));
                    }
                    push_edge(edges, e);
                },
                None => {
                    proof {
                        assert(prev =~= base + defines_cands(nodes@, nodes@.take(i + 1)));
                    }
                },
            }
        } else {
            proof {
                assert(prev =~= base + defines_cands(nodes@, nodes@.take(i + 1)));
            }
        }
    }
    proof {
        assert(nodes@.take(n as int) =~= nodes@);
    }
}

/// De-duplicating an already de-duplicated sequence changes nothing.
pub proof fn lemma_dedup_of_deduped(s: Seq<EdgeV>)
    ensures
        dedup_edges(dedup_edges(s)) == dedup_edges(s),
    decreases s.len(),
{
    if s.len() > 0 {
        let d = dedup_edges(s.drop_last());
        lemma_dedup_of_deduped(s.drop_last());
        if !has_key(d, s.last()) {
            lemma_dedup_push(d, s.last());
            assert(d.push(s.last()).drop_last() =~= d);
        }
    }
}


/// Index of the node a call resolves to (see `call_callee`).
fn resolve_call(nodes: &[Node], c: &RawCall) -> (r: Option<usize>)
    ensures
        match r {
            Some(k) => k < nodes@.len() && call_callee(nodes@, *c) == Some(nodes@[k as int].id@)
                && node_with_id(nodes@, c.caller_id@) is Some,
            None => call_callee(nodes@, *c) is None,
        },
{
    proof {
        lemma_node_with_id_index(nodes@, c.caller_id@);
    }
    let ci = match find_id(nodes, &c.caller_id) {
        None => return None,
        Some(ci) => ci,
    };
    let k = match find_callable_in_file(nodes, &nodes[ci].file_path, &c.callee_name) {
        Some(k) => k,
        None => {
            let named = find_named(nodes, &c.callee_name, true);
            if named.len() == 1 {
                proof {
                    assert(named@.map_values(|k: usize| nodes@[k as int].id@)[0] == nodes@[named@[0] as int].id@);
                }
                named[0]
            } else {
                proof {
                    assert(named@.map_values(|k: usize| nodes@[k as int].id@).len() == named@.len());
                }
                return None;
            }
        },
    };
    proof {
        assert(call_target(nodes@, *c) == Some(nodes@[k as int].id@));
        lemma_node_with_id_index(nodes@, nodes@[k as int].id@);
    }
    let t = match find_id(nodes, &nodes[k].id) {
        Some(t) => t,
        None => {
            proof {
                assert(nodes@[k as int].id@ == nodes@[k as int].id@);
                assert(false);
            }
            return None;
        },
    };
    if eq_str(&nodes[t].language, &nodes[ci].language) {
        Some(k)
    } else {
        None
    }
}

/// Pass 2: each call that resolves to another node becomes a CALLS edge.
fn add_calls(nodes: &[Node], calls: &[RawCall], edges: &mut Vec<Edge>, Ghost(base): Ghost<Seq<EdgeV>>)
    requires
        no_metadata(old(edges)@),
        views(old(edges)@) == dedup_edges(base),
    ensures
        no_metadata(final(edges)@),
        views(final(edges)@) == dedup_edges(base + call_cands(nodes@, calls@)),
{
    proof {
        assert(calls@.take(0) =~= Seq::<RawCall>::empty());
        assert(base + call_cands(nodes@, calls@.take(0)) =~= base);
    }
    let n = calls.len();
    for j in 0..n
        invariant
            n == calls@.len(),
            no_metadata(edges@),
            views(edges@) == dedup_edges(base + call_cands(nodes@, calls@.take(j as int))),
    {
        let ghost prev = base + call_cands(nodes@, calls@.take(j as int));
        proof {
            assert(calls@.take(j + 1).drop_last() =~= calls@.take(j as int));
            assert(calls@.take(j + 1).last() == calls@[j as int]);
        }
        let c = &calls[j];
        match resolve_call(nodes, c) {
            Some(k) => {
                if !eq_str(&nodes[k].id, &c.caller_id) {
                    let ci = find_id(nodes, &c.caller_id);
                    proof {
                        lemma_node_with_id_index(nodes@, c.caller_id@);
                    }
                    let ci = ci.unwrap();
                    let e = plain_edge(
                        c.caller_id.clone(),
                        nodes[k].id.clone(),
                        EdgeRelation::Calls,
                        ResolutionTier::TreeSitter,
                        Confidence::Inferred,
                        nodes[ci].file_path.clone(),
                        c.line,
                    );
                    proof {
                        assert(call_edge(nodes@, calls@[j as int]) == Some(e@));
                        lemma_dedup_push(prev, e@);
                        assert(prev.push(e@) =~= base + call_cands(nodes@, calls@.take(j + 1)));
                    }
                    push_edge(edges, e);
                } else {
                    proof {
                        assert(prev =~= base + call_cands(nodes@, calls@.take(j + 1)));
                    }
                }
            },
            None => {
                proof {
                    assert(prev =~= base + call_cands(nodes@, calls@.take(j + 1)));
                }
            },
        }
    }
    proof {
        assert(calls@.take(n as int) =~= calls@);
    }
}


/// The implementers recorded for supertype `sup`: for every IMPLEMENTS record
/// whose ends resolve, its implementing node, in record order (repeats kept).
pub open spec fn impls_of(nodes: Seq<Node>, inhs: Seq<RawInherit>, sup: Seq<char>) -> Seq<Seq<char>>
    decreases inhs.len(),
{
    if inhs.len() == 0 {
        Seq::empty()
    } else {
        let r = impls_of(nodes, inhs.drop_last(), sup);
        let i = inhs.last();
        match inherit_ends(nodes, i) {
            Some(ab) => if i.kind == InheritKind::Implements && ab.1 == sup {
                r.push(ab.0)
            } else {
                r
            },
            None => r,
        }
    }
}

pub open spec fn strs(v: Seq<String>) -> Seq<Seq<char>> {
    v.map_values(|s: String| s@)
}

/// Implementer groups: distinct supertype ids, each with its implementers.
pub open spec fn groups_ok(
    groups: Seq<(String, Vec<String>)>,
    nodes: Seq<Node>,
    inhs: Seq<RawInherit>,
) -> bool {
    &&& forall|a: int, b: int| 0 <= a < b < groups.len() ==> groups[a].0@ != groups[b].0@
    &&& forall|k: int|
        0 <= k < groups.len() ==> strs(#[trigger] groups[k].1@) == impls_of(nodes, inhs, groups[k].0@)
    &&& forall|sup: Seq<char>|
        impls_of(nodes, inhs, sup).len() > 0 ==> exists|k: int|
            0 <= k < groups.len() && #[trigger] groups[k].0@ == sup
}

/// Ids of the ends of an inheritance record (see `inherit_ends`).
fn resolve_inherit(nodes: &[Node], inh: &RawInherit) -> (r: Option<(usize, usize)>)
    ensures
        match r {
            Some(ab) => ab.0 < nodes@.len() && ab.1 < nodes@.len() && inherit_ends(nodes@, *inh) == Some(
                (nodes@[ab.0 as int].id@, nodes@[ab.1 as int].id@),
            ),
            None => inherit_ends(nodes@, *inh) is None,
        },
{
    let a = find_named(nodes, &inh.impl_name, false);
    proof {
        assert(a@.map_values(|k: usize| nodes@[k as int].id@).len() == a@.len());
    }
    if a.len() != 1 {
        return None;
    }
    proof {
        assert(a@.map_values(|k: usize| nodes@[k as int].id@)[0] == nodes@[a@[0] as int].id@);
    }
    let b = find_named(nodes, &inh.super_name, false);
    proof {
        assert(b@.map_values(|k: usize| nodes@[k as int].id@).len() == b@.len());
    }
    if b.len() != 1 {
        return None;
    }
    proof {
        assert(b@.map_values(|k: usize| nodes@[k as int].id@)[0] == nodes@[b@[0] as int].id@);
    }
    if eq_str(&nodes[a[0]].id, &nodes[b[0]].id) {
        return None;
    }
    Some((a[0], b[0]))
}

/// Record `imp` as an implementer of `sup`.
fn add_implementer(groups: &mut Vec<(String, Vec<String>)>, sup: String, imp: String)
    requires
        forall|a: int, b: int|
            0 <= a < b < old(groups)@.len() ==> old(groups)@[a].0@ != old(groups)@[b].0@,
    ensures
        forall|a: int, b: int|
            0 <= a < b < final(groups)@.len() ==> final(groups)@[a].0@ != final(groups)@[b].0@,
        forall|k: int|
            0 <= k < old(groups)@.len() ==> (#[trigger] final(groups)@[k]).0@ == old(groups)@[k].0@,
        forall|k: int|
            0 <= k < old(groups)@.len() ==> strs((#[trigger] final(groups)@[k]).1@) == if old(groups)@[k].0@ == sup@ {
                strs(old(groups)@[k].1@).push(imp@)
            } else {
                strs(old(groups)@[k].1@)
            },
        (exists|k: int| 0 <= k < old(groups)@.len() && old(groups)@[k].0@ == sup@) ==> final(groups)@.len() == old(groups)@.len(),
        !(exists|k: int| 0 <= k < old(groups)@.len() && old(groups)@[k].0@ == sup@) ==> {
            &&& final(groups)@.len() == old(groups)@.len() + 1
            &&& final(groups)@.last().0@ == sup@
            &&& strs(final(groups)@.last().1@) == seq![imp@]
        },
{
    let n = groups.len();
    let mut i: usize = 0;
    while i < n
        invariant
            n == groups@.len(),
            groups@ == old(groups)@,
            0 <= i <= n,
            forall|k: int| 0 <= k < i ==> old(groups)@[k].0@ != sup@,
        ensures
            groups@ == old(groups)@,
            0 <= i <= n,
            i < n ==> old(groups)@[i as int].0@ == sup@,
            forall|k: int| 0 <= k < i ==> old(groups)@[k].0@ != sup@,
        decreases n - i,
    {
        if eq_str(&groups[i].0, &sup) {
            break;
        }
        i = i + 1;
    }
    if i < n {
        let mut members = groups[i].1.clone();
        let ghost before = members@;
        members.push(imp);
        proof {
            assert(strs(members@) =~= strs(before).push(imp@));
        }
        let key = groups[i].0.clone();
        groups.set(i, (key, members));
    } else {
        let mut members: Vec<String> = Vec::new();
        members.push(imp);
        proof {
            assert(strs(members@) =~= seq![imp@]);
        }
        groups.push((sup, members));
    }
}

/// Pass 3: each inheritance record whose ends resolve becomes an INHERITS or
/// IMPLEMENTS edge; IMPLEMENTS records also group implementers by supertype.
fn add_inherits(
    nodes: &[Node],
    inhs: &[RawInherit],
    edges: &mut Vec<Edge>,
    Ghost(base): Ghost<Seq<EdgeV>>,
) -> (groups: Vec<(String, Vec<String>)>)
    requires
        no_metadata(old(edges)@),
        views(old(edges)@) == dedup_edges(base),
    ensures
        no_metadata(final(edges)@),
        views(final(edges)@) == dedup_edges(base + inherit_cands(nodes@, inhs@)),
        groups_ok(groups@, nodes@, inhs@),
{
    proof {
        assert(inhs@.take(0) =~= Seq::<RawInherit>::empty());
        assert(base + inherit_cands(nodes@, inhs@.take(0)) =~= base);
    }
    let mut groups: Vec<(String, Vec<String>)> = Vec::new();
    let n = inhs.len();
    for j in 0..n
        invariant
            n == inhs@.len(),
            no_metadata(edges@),
            views(edges@) == dedup_edges(base + inherit_cands(nodes@, inhs@.take(j as int))),
            groups_ok(groups@, nodes@, inhs@.take(j as int)),
    {
        let ghost prev = base + inherit_cands(nodes@, inhs@.take(j as int));
        let ghost pre = inhs@.take(j as int);
        let ghost post = inhs@.take(j + 1);
        proof {
            assert(post.drop_last() =~= pre);
            assert(post.last() == inhs@[j as int]);
        }
        let inh = &inhs[j];
        match resolve_inherit(nodes, inh) {
            Some((a, b)) => {
                let ai = find_id(nodes, &nodes[a].id);
                proof {
                    lemma_node_with_id_index(nodes@, nodes@[a as int].id@);
                }
                let ai = ai.unwrap();
                let relation = match inh.kind {
                    InheritKind::Extends => EdgeRelation::Inherits,
                    InheritKind::Implements => EdgeRelation::Implements,
                };
                let e = plain_edge(
                    nodes[a].id.clone(),
                    nodes[b].id.clone(),
                    relation,
                    ResolutionTier::TreeSitter,
                    Confidence::Extracted,
                    nodes[ai].file_path.clone(),
                    nodes[ai].line_start,
                );
                proof {
                    assert(inherit_edge(nodes@, inhs@[j as int]) == Some(e@));
                    lemma_dedup_push(prev, e@);
                    assert(prev.push(e@) =~= base + inherit_cands(nodes@, post));
                }
                push_edge(edges, e);
                let is_impl = match inh.kind {
                    InheritKind::Implements => true,
                    InheritKind::Extends => false,
                };
                if is_impl {
                    let ghost g0 = groups@;
                    add_implementer(&mut groups, nodes[b].id.clone(), nodes[a].id.clone());
                    proof {
                        let sup = nodes@[b as int].id@;
                        assert forall|k: int| 0 <= k < groups@.len() implies strs(
                            #[trigger] groups@[k].1@,
                        ) == impls_of(nodes@, post, groups@[k].0@) by {
                            if k < g0.len() {
                                assert(strs(g0[k].1@) == impls_of(nodes@, pre, g0[k].0@));
                            } else {
                                assert(impls_of(nodes@, pre, sup).len() == 0);
                            }
                        }
                        assert forall|s2: Seq<char>|
                            impls_of(nodes@, post, s2).len() > 0 implies exists|k: int|
                                0 <= k < groups@.len() && #[trigger] groups@[k].0@ == s2 by {
                            if impls_of(nodes@, pre, s2).len() > 0 {
                                let k = choose|k: int| 0 <= k < g0.len() && #[trigger] g0[k].0@ == s2;
                                assert(groups@[k].0@ == s2);
                            } else {
                                assert(s2 == sup);
                                if exists|k: int| 0 <= k < g0.len() && g0[k].0@ == sup {
                                    let k = choose|k: int| 0 <= k < g0.len() && g0[k].0@ == sup;
                                    assert(groups@[k].0@ == s2);
                                } else {
                                    assert(groups@[g0.len() as int].0@ == s2);
                                }
                            }
                        }
                    }
                } else {
                    proof {
                        assert forall|s2: Seq<char>| #[trigger]
                            impls_of(nodes@, post, s2) == impls_of(nodes@, pre, s2) by {}
                    }
                }
            },
            None => {
                proof {
                    assert(prev =~= base + inherit_cands(nodes@, post));
                    assert forall|s2: Seq<char>| #[trigger]
                        impls_of(nodes@, post, s2) == impls_of(nodes@, pre, s2) by {}
                }
            },
        }
    }
    proof {
        assert(inhs@.take(n as int) =~= inhs@);
    }
    groups
}


pub open spec fn keys_distinct(v: Seq<(String, Vec<String>)>) -> bool {
    forall|a: int, b: int| 0 <= a < b < v.len() ==> v[a].0@ != v[b].0@
}

/// Index of the group with the smallest key.
fn min_key_index(v: &Vec<(String, Vec<String>)>) -> (m: usize)
    requires
        v@.len() > 0,
        keys_distinct(v@),
    ensures
        m < v@.len(),
        forall|j: int| 0 <= j < v@.len() && j != m ==> lex_lt(v@[m as int].0@, v@[j].0@),
{
    let n = v.len();
    let mut best: usize = 0;
    let mut best_key = chars_of(v[0].0.as_str());
    proof {
        lemma_lex_irreflexive(v@[0].0@);
    }
    for k in 1..n
        invariant
            n == v@.len(),
            keys_distinct(v@),
            best < n,
            best_key@ == v@[best as int].0@,
            forall|j: int| 0 <= j < k ==> !lex_lt(v@[j].0@, v@[best as int].0@),
    {
        let key = chars_of(v[k].0.as_str());
        if lex_less(&key, &best_key) {
            proof {
                assert forall|j: int| 0 <= j < k + 1 implies !lex_lt(v@[j].0@, v@[k as int].0@) by {
                    if j < k && lex_lt(v@[j].0@, v@[k as int].0@) {
                        lemma_lex_trans(v@[j].0@, v@[k as int].0@, v@[best as int].0@);
                    }
                    if j == k {
                        lemma_lex_irreflexive(v@[j].0@);
                    }
                }
            }
            best = k;
            best_key = key;
        } else {
            proof {
                lemma_lex_irreflexive(v@[best as int].0@);
            }
        }
    }
    proof {
        assert forall|j: int| 0 <= j < v@.len() && j != best implies lex_lt(
            v@[best as int].0@,
            v@[j].0@,
        ) by {
            lemma_lex_total(v@[best as int].0@, v@[j].0@);
        }
    }
    best
}

/// The groups ordered by key.
#[verifier::spinoff_prover]
fn sort_groups(items: Vec<(String, Vec<String>)>) -> (r: Vec<(String, Vec<String>)>)
    requires
        keys_distinct(items@),
    ensures
        r@.to_multiset() == items@.to_multiset(),
        r@.len() == items@.len(),
        forall|a: int, b: int| 0 <= a < b < r@.len() ==> lex_lt(r@[a].0@, r@[b].0@),
        forall|x: (String, Vec<String>)| r@.contains(x) <==> items@.contains(x),
{
    broadcast use vstd::seq_lib::group_to_multiset_ensures;
    broadcast use vstd::multiset::group_multiset_axioms;

    let mut rest = items;
    let mut out: Vec<(String, Vec<String>)> = Vec::new();
    let ghost orig = rest@;
    proof {
        assert(out@.to_multiset().add(rest@.to_multiset()) =~= orig.to_multiset());
    }
    while rest.len() > 0
        invariant
            keys_distinct(rest@),
            out@.len() + rest@.len() == orig.len(),
            forall|a: int, b: int| 0 <= a < b < out@.len() ==> lex_lt(out@[a].0@, out@[b].0@),
            forall|a: int, b: int|
                0 <= a < out@.len() && 0 <= b < rest@.len() ==> lex_lt(out@[a].0@, rest@[b].0@),
            out@.to_multiset().add(rest@.to_multiset()) == orig.to_multiset(),
        decreases rest@.len(),
    {
        let m = min_key_index(&rest);
        let ghost r0 = rest@;
        let ghost o0 = out@;
        let x = rest.remove(m);
        out.push(x);
        proof {
            assert(rest@ =~= r0.remove(m as int));
            o0.to_multiset_ensures();
            r0.to_multiset_ensures();
            assert(r0[m as int] == x);
            assert(r0.contains(x));
            assert(o0.push(x).to_multiset() =~= o0.to_multiset().insert(x));
            assert(r0.remove(m as int).to_multiset() =~= r0.to_multiset().remove(r0[m as int]));
            assert(r0.to_multiset().count(x) > 0);
            assert(out@ == o0.push(x));
            assert(out@.to_multiset() == o0.to_multiset().insert(x));
            assert(rest@.to_multiset() == r0.to_multiset().remove(x));
            assert(out@.to_multiset().add(rest@.to_multiset()) =~= o0.to_multiset().add(r0.to_multiset()));
            assert forall|a: int, b: int| 0 <= a < b < rest@.len() implies rest@[a].0@ != rest@[b].0@ by {
                let a2 = if a < m { a } else { a + 1 };
                let b2 = if b < m { b } else { b + 1 };
                assert(rest@[a] == r0[a2]);
                assert(rest@[b] == r0[b2]);
            }
            assert forall|a: int, b: int|
                0 <= a < out@.len() && 0 <= b < rest@.len() implies lex_lt(out@[a].0@, rest@[b].0@) by {
                let b2 = if b < m { b } else { b + 1 };
                assert(rest@[b] == r0[b2]);
                if a < o0.len() {
                    assert(out@[a] == o0[a]);
                } else {
                    assert(out@[a] == r0[m as int]);
                }
            }
            assert forall|a: int, b: int| 0 <= a < b < out@.len() implies lex_lt(out@[a].0@, out@[b].0@) by {
                if b == o0.len() {
                    assert(out@[b] == r0[m as int]);
                    assert(out@[a] == o0[a]);
                } else {
                    assert(out@[a] == o0[a]);
                    assert(out@[b] == o0[b]);
                }
            }
        }
    }
    proof {
        assert(rest@.to_multiset() =~= Multiset::empty());
        assert(out@.to_multiset() =~= orig.to_multiset());
        out@.to_multiset_ensures();
        orig.to_multiset_ensures();
        assert forall|x: (String, Vec<String>)| out@.contains(x) <==> orig.contains(x) by {
            assert(out@.contains(x) <==> out@.to_multiset().count(x) > 0);
            assert(orig.contains(x) <==> orig.to_multiset().count(x) > 0);
        }
    }
    out
}


/// Name of the node with id `id` (empty when there is none).
pub open spec fn name_of_id(nodes: Seq<Node>, id: Seq<char>) -> Seq<char> {
    match node_with_id(nodes, id) {
        Some(n) => n.name@,
        None => Seq::empty(),
    }
}

pub open spec fn member_is(m: HyperedgeMember, hid: Seq<char>, node: Seq<char>, role: Seq<char>) -> bool {
    &&& m.hyperedge_id@ == hid
    &&& m.node_id@ == node
    &&& m.role is Some
    &&& m.role->0@ == role
}

/// The IMPLEMENTS hyperedge of supertype `sup` with implementers `impls`:
/// the implementers in order, then the supertype itself.
pub open spec fn hyperedge_is(
    h: (Hyperedge, Vec<HyperedgeMember>),
    nodes: Seq<Node>,
    sup: Seq<char>,
    impls: Seq<Seq<char>>,
) -> bool {
    let hid = "implements::"@ + sup;
    &&& h.0.id@ == hid
    &&& h.0.relation == HyperedgeRelation::Implement
    &&& h.0.label@ == "implementers of "@ + name_of_id(nodes, sup)
    &&& h.0.confidence == Confidence::Extracted
    &&& h.0.tier == ResolutionTier::TreeSitter
    &&& h.0.metadata.entries@.len() == 0
    &&& h.1@.len() == impls.len() + 1
    &&& forall|m: int| 0 <= m < impls.len() ==> member_is(#[trigger] h.1@[m], hid, impls[m], "implementer"@)
    &&& member_is(h.1@[impls.len() as int], hid, sup, "interface"@)
}

/// The supertype a hyperedge was made for: its last member.
pub open spec fn hyper_sup(h: (Hyperedge, Vec<HyperedgeMember>)) -> Seq<char> {
    h.1@.last().node_id@
}

fn make_hyperedge(nodes: &[Node], sup: &String, impls: &Vec<String>) -> (h: (Hyperedge, Vec<HyperedgeMember>))
    ensures
        hyperedge_is(h, nodes@, sup@, strs(impls@)),
        hyper_sup(h) == sup@,
{
    let mut hid = String::from_str("implements::");
    hid.append(sup.as_str());
    let mut label = String::from_str("implementers of ");
    proof {
        lemma_node_with_id_index(nodes@, sup@);
    }
    match find_id(nodes, sup) {
        Some(i) => label.append(nodes[i].name.as_str()),
        None => {
            proof {
                assert(label@ =~= "implementers of "@ + Seq::<char>::empty());
            }
        },
    }
    let mut members: Vec<HyperedgeMember> = Vec::new();
    let n = impls.len();
    for k in 0..n
        invariant
            n == impls@.len(),
            members@.len() == k,
            forall|m: int| 0 <= m < k ==> member_is(#[trigger] members@[m], hid@, impls@[m]@, "implementer"@),
    {
        members.push(
            HyperedgeMember {
                hyperedge_id: hid.clone(),
                node_id: impls[k].clone(),
                role: Some(String::from_str("implementer")),
            },
        );
    }
    members.push(
        HyperedgeMember {
            hyperedge_id: hid.clone(),
            node_id: sup.clone(),
            role: Some(String::from_str("interface")),
        },
    );
    let h = Hyperedge {
        id: hid,
        relation: HyperedgeRelation::Implement,
        label,
        confidence: Confidence::Extracted,
        tier: ResolutionTier::TreeSitter,
        metadata: Metadata::new(),
    };
    (h, members)
}

/// The IMPLEMENTS hyperedges: one per supertype with at least two recorded
/// implementers, ordered by supertype id.
fn make_hyperedges(nodes: &[Node], inhs: &[RawInherit], groups: Vec<(String, Vec<String>)>) -> (hs: Vec<
    (Hyperedge, Vec<HyperedgeMember>),
>)
    requires
        groups_ok(groups@, nodes@, inhs@),
    ensures
        hyperedges_ok(hs@, nodes@, inhs@),
{
    let mut big: Vec<(String, Vec<String>)> = Vec::new();
    let mut rest = groups;
    let ghost orig = rest@;
    while rest.len() > 0
        invariant
            groups_ok(orig, nodes@, inhs@),
            rest@ == orig.take(rest@.len() as int),
            rest@.len() <= orig.len(),
            keys_distinct(big@),
            forall|k: int|
                0 <= k < big@.len() ==> strs((#[trigger] big@[k]).1@) == impls_of(nodes@, inhs@, big@[k].0@)
                    && big@[k].1@.len() >= 2,
            forall|k: int| #![trigger big@[k]] 0 <= k < big@.len() ==> exists|j: int|
                rest@.len() <= j < orig.len() && orig[j] == big@[k],
            forall|j: int|
                rest@.len() <= j < orig.len() && (#[trigger] orig[j]).1@.len() >= 2 ==> big@.contains(orig[j]),
        decreases rest@.len(),
    {
        let ghost r0 = rest@;
        let g = rest.pop().unwrap();
        proof {
            assert(g == orig[r0.len() - 1]);
            assert(rest@ =~= orig.take(rest@.len() as int));
        }
        if g.1.len() >= 2 {
            let ghost b0 = big@;
            big.push(g);
            proof {
                assert forall|a: int, b: int| 0 <= a < b < big@.len() implies big@[a].0@ != big@[b].0@ by {
                    if b == b0.len() {
                        let j = choose|j: int| r0.len() <= j < orig.len() && orig[j] == big@[a];
                    }
                }
                assert forall|j: int|
                    rest@.len() <= j < orig.len() && (#[trigger] orig[j]).1@.len() >= 2 implies big@.contains(orig[j]) by {
                    if j > rest@.len() {
                        let k = choose|k: int| 0 <= k < b0.len() && b0[k] == orig[j];
                        assert(big@[k] == orig[j]);
                    } else {
                        assert(big@[b0.len() as int] == orig[j]);
                    }
                }
                assert forall|k: int| #![trigger big@[k]] 0 <= k < big@.len() implies exists|j: int|
                    rest@.len() <= j < orig.len() && orig[j] == big@[k] by {
                    if k < b0.len() {
                        assert(big@[k] == b0[k]);
                    } else {
                        assert(orig[rest@.len() as int] == big@[k]);
                    }
                }
            }
        }
    }
    let ghost bigv = big@;
    let sorted = sort_groups(big);
    proof {
        assert forall|k: int| 0 <= k < sorted@.len() implies strs((#[trigger] sorted@[k]).1@) == impls_of(
            nodes@,
            inhs@,
            sorted@[k].0@,
        ) && sorted@[k].1@.len() >= 2 by {
            assert(sorted@.contains(sorted@[k]));
            assert(bigv.contains(sorted@[k]));
            let i = choose|i: int| 0 <= i < bigv.len() && bigv[i] == sorted@[k];
            assert(strs(bigv[i].1@) == impls_of(nodes@, inhs@, bigv[i].0@));
        }
    }
    let mut hs: Vec<(Hyperedge, Vec<HyperedgeMember>)> = Vec::new();
    let m = sorted.len();
    for i in 0..m
        invariant
            m == sorted@.len(),
            hs@.len() == i,
            forall|a: int, b: int| 0 <= a < b < sorted@.len() ==> lex_lt(sorted@[a].0@, sorted@[b].0@),
            forall|k: int|
                0 <= k < sorted@.len() ==> strs((#[trigger] sorted@[k]).1@) == impls_of(nodes@, inhs@, sorted@[k].0@)
                    && sorted@[k].1@.len() >= 2,
            forall|k: int|
                0 <= k < i ==> hyperedge_is(#[trigger] hs@[k], nodes@, sorted@[k].0@, impls_of(nodes@, inhs@, sorted@[k].0@))
                    && hyper_sup(hs@[k]) == sorted@[k].0@,
    {
        let h = make_hyperedge(nodes, &sorted[i].0, &sorted[i].1);
        hs.push(h);
    }
    proof {
        assert forall|sup: Seq<char>| impls_of(nodes@, inhs@, sup).len() >= 2 implies exists|k: int|
            0 <= k < hs@.len() && #[trigger] hyper_sup(hs@[k]) == sup by {
            let j = choose|j: int| 0 <= j < orig.len() && #[trigger] orig[j].0@ == sup;
            assert(strs(orig[j].1@).len() == orig[j].1@.len());
            assert(big@.contains(orig[j]));
            assert(sorted@.contains(orig[j]));
            let k = choose|k: int| 0 <= k < sorted@.len() && sorted@[k] == orig[j];
            assert(hyper_sup(hs@[k]) == sup);
        }
        assert forall|k: int| 0 <= k < hs@.len() implies impls_of(nodes@, inhs@, #[trigger] hyper_sup(hs@[k])).len()
            >= 2 by {
            assert(strs(sorted@[k].1@).len() == sorted@[k].1@.len());
        }
    }
    hs
}

/// The hyperedge list of a build: one IMPLEMENTS hyperedge per supertype with
/// at least two recorded implementers, each exactly once, ordered by id.
pub open spec fn hyperedges_ok(hs: Seq<(Hyperedge, Vec<HyperedgeMember>)>, nodes: Seq<Node>, inhs: Seq<RawInherit>) -> bool {
    &&& forall|k: int|
        0 <= k < hs.len() ==> hyperedge_is(#[trigger] hs[k], nodes, hyper_sup(hs[k]), impls_of(nodes, inhs, hyper_sup(hs[k])))
    &&& forall|k: int| 0 <= k < hs.len() ==> impls_of(nodes, inhs, #[trigger] hyper_sup(hs[k])).len() >= 2
    &&& forall|a: int, b: int| 0 <= a < b < hs.len() ==> lex_lt(hyper_sup(hs[a]), hyper_sup(hs[b]))
    &&& forall|sup: Seq<char>|
        impls_of(nodes, inhs, sup).len() >= 2 ==> exists|k: int| 0 <= k < hs.len() && #[trigger] hyper_sup(hs[k]) == sup
}


/// The relation's name, as the graph stores it on each edge.
pub open spec fn relation_name(r: EdgeRelation) -> Seq<char> {
    match r {
        EdgeRelation::Calls => "Calls"@,
        EdgeRelation::AsyncCalls => "AsyncCalls"@,
        EdgeRelation::UsesType => "UsesType"@,
        EdgeRelation::Implements => "Implements"@,
        EdgeRelation::Inherits => "Inherits"@,
        EdgeRelation::Defines => "Defines"@,
        EdgeRelation::MemberOf => "MemberOf"@,
        EdgeRelation::Contains => "Contains"@,
        EdgeRelation::ContainsFile => "ContainsFile"@,
        EdgeRelation::ContainsFolder => "ContainsFolder"@,
        EdgeRelation::ContainsPackage => "ContainsPackage"@,
        EdgeRelation::Override => "Override"@,
        EdgeRelation::HttpCalls => "HttpCalls"@,
        EdgeRelation::Emits => "Emits"@,
        EdgeRelation::ListensOn => "ListensOn"@,
        EdgeRelation::PublishesTo => "PublishesTo"@,
        EdgeRelation::SubscribesTo => "SubscribesTo"@,
        EdgeRelation::Configures => "Configures"@,
        EdgeRelation::Tests => "Tests"@,
        EdgeRelation::FileChangesWith => "FileChangesWith"@,
        EdgeRelation::Similar => "Similar"@,
        EdgeRelation::SemanticallySimilar => "SemanticallySimilar"@,
        EdgeRelation::DataFlows => "DataFlows"@,
        EdgeRelation::ConceptuallyRelated => "ConceptuallyRelated"@,
        EdgeRelation::RationaleFor => "RationaleFor"@,
        EdgeRelation::ParticipateIn => "ParticipateIn"@,
        EdgeRelation::Implement => "Implement"@,
        EdgeRelation::Form => "Form"@,
        EdgeRelation::MemberOfFlow => "MemberOfFlow"@,
    }
}

pub fn relation_str(r: EdgeRelation) -> (s: &'static str)
    ensures
        s@ == relation_name(r),
{
    match r {
        EdgeRelation::Calls => "Calls",
        EdgeRelation::AsyncCalls => "AsyncCalls",
        EdgeRelation::UsesType => "UsesType",
        EdgeRelation::Implements => "Implements",
        EdgeRelation::Inherits => "Inherits",
        EdgeRelation::Defines => "Defines",
        EdgeRelation::MemberOf => "MemberOf",
        EdgeRelation::Contains => "Contains",
        EdgeRelation::ContainsFile => "ContainsFile",
        EdgeRelation::ContainsFolder => "ContainsFolder",
        EdgeRelation::ContainsPackage => "ContainsPackage",
        EdgeRelation::Override => "Override",
        EdgeRelation::HttpCalls => "HttpCalls",
        EdgeRelation::Emits => "Emits",
        EdgeRelation::ListensOn => "ListensOn",
        EdgeRelation::PublishesTo => "PublishesTo",
        EdgeRelation::SubscribesTo => "SubscribesTo",
        EdgeRelation::Configures => "Configures",
        EdgeRelation::Tests => "Tests",
        EdgeRelation::FileChangesWith => "FileChangesWith",
        EdgeRelation::Similar => "Similar",
        EdgeRelation::SemanticallySimilar => "SemanticallySimilar",
        EdgeRelation::DataFlows => "DataFlows",
        EdgeRelation::ConceptuallyRelated => "ConceptuallyRelated",
        EdgeRelation::RationaleFor => "RationaleFor",
        EdgeRelation::ParticipateIn => "ParticipateIn",
        EdgeRelation::Implement => "Implement",
        EdgeRelation::Form => "Form",
        EdgeRelation::MemberOfFlow => "MemberOfFlow",
    }
}

/// The graph's edges for `edges`: endpoints as node indices (the last node with
/// each id), weight the relation name; edges with an unknown end are left out.
pub open spec fn graph_edges_of(nodes: Seq<Node>, edges: Seq<EdgeV>) -> Seq<(int, int, Seq<char>)>
    decreases edges.len(),
{
    if edges.len() == 0 {
        Seq::empty()
    } else {
        let r = graph_edges_of(nodes, edges.drop_last());
        let e = edges.last();
        match index_of_id(nodes, e.src) {
            Some(a) => match index_of_id(nodes, e.dst) {
                Some(b) => r.push((a, b, relation_name(e.relation))),
                None => r,
            },
            None => r,
        }
    }
}

pub open spec fn node_slots(nodes: Seq<Node>) -> Seq<Option<Seq<char>>> {
    nodes.map_values(|n: Node| Some(n.id@))
}

pub proof fn lemma_graph_edges_len(nodes: Seq<Node>, edges: Seq<EdgeV>)
    ensures
        graph_edges_of(nodes, edges).len() <= edges.len(),
    decreases edges.len(),
{
    if edges.len() > 0 {
        lemma_graph_edges_len(nodes, edges.drop_last());
    }
}

/// The petgraph holding one node per entry of `nodes` (weight: its id) and one
/// edge per entry of `edges` whose ends are known.
pub fn graph_of(nodes: &[Node], edges: &[Edge]) -> (g: StableGraph<String, String>)
    requires
        nodes@.len() < u32::MAX,
        edges@.len() + 1 < u32::MAX,
    ensures
        cg_nodes(g) == node_slots(nodes@),
        cg_edges(g) == graph_edges_of(nodes@, views(edges@)),
{
    let mut g = cg_new();
    let n = nodes.len();
    for i in 0..n
        invariant
            n == nodes@.len(),
            n < u32::MAX,
            cg_nodes(g) == node_slots(nodes@.take(i as int)),
            cg_edges(g) == Seq::<(int, int, Seq<char>)>::empty(),
    {
        let ghost before = cg_nodes(g);
        let _ = cg_add_node(&mut g, nodes[i].id.clone());
        proof {
            assert(node_slots(nodes@.take(i + 1)) =~= before.push(Some(nodes@[i as int].id@)));
        }
    }
    proof {
        assert(nodes@.take(n as int) =~= nodes@);
    }
    let m = edges.len();
    for j in 0..m
        invariant
            n == nodes@.len(),
            m == edges@.len(),
            m + 1 < u32::MAX,
            cg_nodes(g) == node_slots(nodes@),
            cg_edges(g) == graph_edges_of(nodes@, views(edges@.take(j as int))),
    {
        proof {
            assert(views(edges@.take(j + 1)).drop_last() =~= views(edges@.take(j as int)));
            assert(views(edges@.take(j + 1)).last() == edges@[j as int]@);
            lemma_graph_edges_len(nodes@, views(edges@.take(j as int)));
            lemma_node_with_id_index(nodes@, edges@[j as int].src@);
            lemma_node_with_id_index(nodes@, edges@[j as int].dst@);
        }
        match find_id(nodes, &edges[j].src) {
            Some(a) => match find_id(nodes, &edges[j].dst) {
                Some(b) => {
                    cg_add_edge(&mut g, a, b, String::from_str(relation_str(edges[j].relation)));
                },
                None => {},
            },
            None => {},
        }
    }
    proof {
        assert(edges@.take(m as int) =~= edges@);
    }
    g
}

/// The build result: the graph, the persisted edge set and the hyperedges.
pub struct Built {
    pub graph: StableGraph<String, String>,
    pub edges: Vec<Edge>,
    pub hyperedges: Vec<(Hyperedge, Vec<HyperedgeMember>)>,
}

pub proof fn lemma_dedup_len(s: Seq<EdgeV>)
    ensures
        dedup_edges(s).len() <= s.len(),
    decreases s.len(),
{
    if s.len() > 0 {
        lemma_dedup_len(s.drop_last());
    }
}

pub proof fn lemma_cands_len(nodes: Seq<Node>, upto: Seq<Node>, calls: Seq<RawCall>, inhs: Seq<RawInherit>)
    ensures
        defines_cands(nodes, upto).len() <= upto.len(),
        call_cands(nodes, calls).len() <= calls.len(),
        inherit_cands(nodes, inhs).len() <= inhs.len(),
    decreases upto.len() + calls.len() + inhs.len(),
{
    if upto.len() > 0 {
        lemma_cands_len(nodes, upto.drop_last(), calls, inhs);
    }
    if calls.len() > 0 {
        lemma_cands_len(nodes, upto, calls.drop_last(), inhs);
    }
    if inhs.len() > 0 {
        lemma_cands_len(nodes, upto, calls, inhs.drop_last());
    }
}

/// Build the edge set, the hyperedges and the graph from parsed nodes, raw
/// calls and raw inheritance records.
/// - DEFINES: each File node defines every other node of its file.
/// - CALLS: a call resolves to a Function/Method of that name in the caller's
///   file, else to the only one of that name in the project; ambiguous names
///   stay unresolved, and a node never calls itself.
/// - INHERITS / IMPLEMENTS: both ends must be the only node of their name.
/// Edges are de-duplicated on (src, dst, relation), the first one kept.
pub fn build(nodes: &[Node], calls: &[RawCall], inherits: &[RawInherit]) -> (b: Built)
    requires
        nodes@.len() + calls@.len() + inherits@.len() + 1 < u32::MAX,
    ensures
        views(b.edges@) == dedup_edges(build_cands(nodes@, calls@, inherits@)),
        no_metadata(b.edges@),
        hyperedges_ok(b.hyperedges@, nodes@, inherits@),
        cg_nodes(b.graph) == node_slots(nodes@),
        cg_edges(b.graph) == graph_edges_of(nodes@, views(b.edges@)),
{
    let mut edges: Vec<Edge> = Vec::new();
    proof {
        assert(views(edges@) =~= dedup_edges(Seq::<EdgeV>::empty()));
    }
    add_defines(nodes, &mut edges, Ghost(Seq::<EdgeV>::empty()));
    let ghost c1 = Seq::<EdgeV>::empty() + defines_cands(nodes@, nodes@);
    add_calls(nodes, calls, &mut edges, Ghost(c1));
    let ghost c2 = c1 + call_cands(nodes@, calls@);
    let groups = add_inherits(nodes, inherits, &mut edges, Ghost(c2));
    proof {
        let c3 = c2 + inherit_cands(nodes@, inherits@);
        assert(c3 =~= build_cands(nodes@, calls@, inherits@));
        lemma_cands_len(nodes@, nodes@, calls@, inherits@);
        lemma_dedup_len(c3);
    }
    let hyperedges = make_hyperedges(nodes, inherits, groups);
    let graph = graph_of(nodes, &edges);
    Built { graph, edges, hyperedges }
}


/// De-duplication keeps only candidate edges, keeps every candidate's key,
/// and leaves no two edges with the same key.
pub proof fn lemma_dedup_props(s: Seq<EdgeV>)
    ensures
        forall|i: int| 0 <= i < dedup_edges(s).len() ==> s.contains(#[trigger] dedup_edges(s)[i]),
        forall|i: int| 0 <= i < s.len() ==> has_key(dedup_edges(s), #[trigger] s[i]),
        forall|i: int, j: int|
            0 <= i < j < dedup_edges(s).len() ==> !same_key(dedup_edges(s)[i], dedup_edges(s)[j]),
    decreases s.len(),
{
    if s.len() > 0 {
        let p = s.drop_last();
        lemma_dedup_props(p);
        let d = dedup_edges(p);
        let x = s.last();
        assert forall|i: int| 0 <= i < dedup_edges(s).len() implies s.contains(#[trigger] dedup_edges(s)[i]) by {
            if i < d.len() {
                assert(dedup_edges(s)[i] == d[i]);
                assert(p.contains(d[i]));
                let k = choose|k: int| 0 <= k < p.len() && p[k] == d[i];
                assert(s[k] == p[k]);
            } else {
                assert(s[s.len() - 1] == x);
            }
        }
        assert forall|i: int| 0 <= i < s.len() implies has_key(dedup_edges(s), #[trigger] s[i]) by {
            if i < p.len() {
                assert(s[i] == p[i]);
                assert(has_key(d, p[i]));
                let k = choose|k: int| 0 <= k < d.len() && same_key(d[k], p[i]);
                assert(dedup_edges(s)[k] == d[k]);
            } else {
                if has_key(d, x) {
                    let k = choose|k: int| 0 <= k < d.len() && same_key(d[k], x);
                    assert(dedup_edges(s)[k] == d[k]);
                } else {
                    assert(same_key(dedup_edges(s)[d.len() as int], x));
                }
            }
        }
    }
}

/// Law: the persisted edge set never holds two edges with the same
/// (src, dst, relation) key.
pub proof fn law_build_edge_keys_unique(nodes: Seq<Node>, calls: Seq<RawCall>, inhs: Seq<RawInherit>)
    ensures
        forall|i: int, j: int|
            0 <= i < j < dedup_edges(build_cands(nodes, calls, inhs)).len() ==> !same_key(
                dedup_edges(build_cands(nodes, calls, inhs))[i],
                dedup_edges(build_cands(nodes, calls, inhs))[j],
            ),
{
    lemma_dedup_props(build_cands(nodes, calls, inhs));
}

/// Law: every edge derived from the inputs is represented in the edge set by
/// an edge with its key, and every edge of the set was derived from the inputs.
pub proof fn law_build_edges_complete_and_sound(nodes: Seq<Node>, calls: Seq<RawCall>, inhs: Seq<RawInherit>)
    ensures
        forall|i: int|
            0 <= i < build_cands(nodes, calls, inhs).len() ==> has_key(
                dedup_edges(build_cands(nodes, calls, inhs)),
                #[trigger] build_cands(nodes, calls, inhs)[i],
            ),
        forall|i: int|
            0 <= i < dedup_edges(build_cands(nodes, calls, inhs)).len() ==> build_cands(nodes, calls, inhs).contains(
                #[trigger] dedup_edges(build_cands(nodes, calls, inhs))[i],
            ),
{
    lemma_dedup_props(build_cands(nodes, calls, inhs));
}

pub proof fn lemma_call_cands_calls(nodes: Seq<Node>, calls: Seq<RawCall>)
    ensures
        forall|i: int|
            0 <= i < call_cands(nodes, calls).len() ==> (#[trigger] call_cands(nodes, calls)[i]).relation
                == EdgeRelation::Calls && call_cands(nodes, calls)[i].src != call_cands(nodes, calls)[i].dst,
    decreases calls.len(),
{
    if calls.len() > 0 {
        lemma_call_cands_calls(nodes, calls.drop_last());
    }
}

pub proof fn lemma_other_cands_not_calls(nodes: Seq<Node>, upto: Seq<Node>, inhs: Seq<RawInherit>)
    ensures
        forall|i: int|
            0 <= i < defines_cands(nodes, upto).len() ==> (#[trigger] defines_cands(nodes, upto)[i]).relation
                == EdgeRelation::Defines,
        forall|i: int|
            0 <= i < inherit_cands(nodes, inhs).len() ==> (#[trigger] inherit_cands(nodes, inhs)[i]).relation
                != EdgeRelation::Calls,
    decreases upto.len() + inhs.len(),
{
    if upto.len() > 0 {
        lemma_other_cands_not_calls(nodes, upto.drop_last(), inhs);
    }
    if inhs.len() > 0 {
        lemma_other_cands_not_calls(nodes, upto, inhs.drop_last());
    }
}

/// Law: no CALLS edge goes from a node to itself.
pub proof fn law_build_no_self_calls(nodes: Seq<Node>, calls: Seq<RawCall>, inhs: Seq<RawInherit>)
    ensures
        forall|i: int|
            0 <= i < dedup_edges(build_cands(nodes, calls, inhs)).len() && (#[trigger] dedup_edges(
                build_cands(nodes, calls, inhs),
            )[i]).relation == EdgeRelation::Calls ==> dedup_edges(build_cands(nodes, calls, inhs))[i].src
                != dedup_edges(build_cands(nodes, calls, inhs))[i].dst,
{
    let c = build_cands(nodes, calls, inhs);
    let a = defines_cands(nodes, nodes);
    let b = call_cands(nodes, calls);
    let d = inherit_cands(nodes, inhs);
    lemma_dedup_props(c);
    lemma_call_cands_calls(nodes, calls);
    lemma_other_cands_not_calls(nodes, nodes, inhs);
    assert forall|i: int|
        0 <= i < dedup_edges(c).len() && (#[trigger] dedup_edges(c)[i]).relation == EdgeRelation::Calls
        implies dedup_edges(c)[i].src != dedup_edges(c)[i].dst by {
        let k = choose|k: int| 0 <= k < c.len() && c[k] == dedup_edges(c)[i];
        if k < a.len() {
            assert(c[k] == a[k]);
        } else if k < a.len() + b.len() {
            assert(c[k] == b[k - a.len()]);
        } else {
            assert(c[k] == d[k - a.len() - b.len()]);
        }
    }
}

/// Law: a call whose name is neither defined in the caller's file nor defined
/// exactly once in the project yields no CALLS edge (no guessed edge).
pub proof fn law_ambiguous_call_unresolved(nodes: Seq<Node>, c: RawCall)
    requires
        node_with_id(nodes, c.caller_id@) matches Some(caller) && callable_in_file(
            nodes,
            caller.file_path@,
            c.callee_name@,
        ) is None,
        callables_named(nodes, c.callee_name@).len() != 1,
    ensures
        call_edge(nodes, c) is None,
{
}

/// Law: every CALLS edge joins two nodes of the same language.
pub proof fn law_calls_same_language(nodes: Seq<Node>, calls: Seq<RawCall>, inhs: Seq<RawInherit>)
    ensures
        forall|i: int|
            0 <= i < dedup_edges(build_cands(nodes, calls, inhs)).len() && (#[trigger] dedup_edges(
                build_cands(nodes, calls, inhs),
            )[i]).relation == EdgeRelation::Calls ==> same_language(
                nodes,
                dedup_edges(build_cands(nodes, calls, inhs))[i].src,
                dedup_edges(build_cands(nodes, calls, inhs))[i].dst,
            ),
{
    let c = build_cands(nodes, calls, inhs);
    let a = defines_cands(nodes, nodes);
    let b = call_cands(nodes, calls);
    let d = inherit_cands(nodes, inhs);
    lemma_dedup_props(c);
    lemma_call_cands_same_language(nodes, calls);
    lemma_other_cands_not_calls(nodes, nodes, inhs);
    assert forall|i: int|
        0 <= i < dedup_edges(c).len() && (#[trigger] dedup_edges(c)[i]).relation == EdgeRelation::Calls
        implies same_language(nodes, dedup_edges(c)[i].src, dedup_edges(c)[i].dst) by {
        let k = choose|k: int| 0 <= k < c.len() && c[k] == dedup_edges(c)[i];
        if k < a.len() {
            assert(c[k] == a[k]);
        } else if k < a.len() + b.len() {
            assert(c[k] == b[k - a.len()]);
        } else {
            assert(c[k] == d[k - a.len() - b.len()]);
        }
    }
}

proof fn lemma_call_cands_same_language(nodes: Seq<Node>, calls: Seq<RawCall>)
    ensures
        forall|i: int|
            0 <= i < call_cands(nodes, calls).len() ==> same_language(
                nodes,
                (#[trigger] call_cands(nodes, calls)[i]).src,
                call_cands(nodes, calls)[i].dst,
            ),
    decreases calls.len(),
{
    if calls.len() > 0 {
        lemma_call_cands_same_language(nodes, calls.drop_last());
    }
}

/// Law: a call resolves in its own file first: when the caller's file
/// defines a Function/Method of the called name (another node, of the same
/// language), the CALLS edge goes there, whatever else the project defines.
pub proof fn law_in_file_first(nodes: Seq<Node>, c: RawCall)
    requires
        node_with_id(nodes, c.caller_id@) matches Some(caller) && callable_in_file(
            nodes,
            caller.file_path@,
            c.callee_name@,
        ) is Some,
    ensures
        ({
            let caller = node_with_id(nodes, c.caller_id@)->0;
            let x = callable_in_file(nodes, caller.file_path@, c.callee_name@)->0;
            x != c.caller_id@ && same_language(nodes, c.caller_id@, x) ==> (call_edge(nodes, c) matches Some(e)
                && e.dst == x && e.src == c.caller_id@ && e.relation == EdgeRelation::Calls)
        }),
{
}

/// Law: the build is deterministic — the same inputs give the same edges and
/// the same graph.
pub proof fn law_build_deterministic(
    n1: Seq<Node>,
    c1: Seq<RawCall>,
    i1: Seq<RawInherit>,
    n2: Seq<Node>,
    c2: Seq<RawCall>,
    i2: Seq<RawInherit>,
)
    requires
        n1 == n2,
        c1 == c2,
        i1 == i2,
    ensures
        dedup_edges(build_cands(n1, c1, i1)) == dedup_edges(build_cands(n2, c2, i2)),
        graph_edges_of(n1, dedup_edges(build_cands(n1, c1, i1))) == graph_edges_of(
            n2,
            dedup_edges(build_cands(n2, c2, i2)),
        ),
{
}


proof fn lemma_inherit_cands(nodes: Seq<Node>, inhs: Seq<RawInherit>)
    ensures
        forall|k: int|
            0 <= k < inherit_cands(nodes, inhs).len() ==> exists|i: int|
                0 <= i < inhs.len() && inherit_edge(nodes, #[trigger] inhs[i]) == Some(
                    #[trigger] inherit_cands(nodes, inhs)[k],
                ),
        forall|i: int|
            0 <= i < inhs.len() && (#[trigger] inherit_edge(nodes, inhs[i])) is Some ==> inherit_cands(
                nodes,
                inhs,
            ).contains(inherit_edge(nodes, inhs[i])->0),
    decreases inhs.len(),
{
    if inhs.len() > 0 {
        let q = inhs.drop_last();
        lemma_inherit_cands(nodes, q);
        let r = inherit_cands(nodes, q);
        let all = inherit_cands(nodes, inhs);
        assert forall|k: int| 0 <= k < all.len() implies exists|i: int|
            0 <= i < inhs.len() && inherit_edge(nodes, #[trigger] inhs[i]) == Some(#[trigger] all[k]) by {
            if k < r.len() {
                assert(all[k] == r[k]);
                let i = choose|i: int| 0 <= i < q.len() && inherit_edge(nodes, #[trigger] q[i]) == Some(r[k]);
                assert(inhs[i] == q[i]);
            } else {
                assert(inhs[inhs.len() - 1] == inhs.last());
            }
        }
        assert forall|i: int|
            0 <= i < inhs.len() && (#[trigger] inherit_edge(nodes, inhs[i])) is Some implies all.contains(
            inherit_edge(nodes, inhs[i])->0,
        ) by {
            if i < q.len() {
                assert(inhs[i] == q[i]);
                let e = inherit_edge(nodes, q[i])->0;
                assert(r.contains(e));
                let k = choose|k: int| 0 <= k < r.len() && r[k] == e;
                assert(all[k] == r[k]);
            } else {
                assert(inhs[i] == inhs.last());
                assert(all[all.len() - 1] == inherit_edge(nodes, inhs[i])->0);
            }
        }
    }
}

/// The built edges include one from `a` to `b` with relation `rel`.
pub open spec fn has_edge(edges: Seq<EdgeV>, a: Seq<char>, b: Seq<char>, rel: EdgeRelation) -> bool {
    exists|j: int| 0 <= j < edges.len() && (#[trigger] edges[j]).src == a && edges[j].dst == b && edges[j].relation == rel
}

/// Some inheritance record of kind `kind` names `a` as the subtype and `b` as
/// the supertype, each the only node of its name.
pub open spec fn inherit_record(nodes: Seq<Node>, inhs: Seq<RawInherit>, kind: InheritKind, a: Seq<char>, b: Seq<char>) -> bool {
    exists|i: int| 0 <= i < inhs.len() && (#[trigger] inhs[i]).kind == kind && inherit_ends(nodes, inhs[i]) == Some((a, b))
}

/// Law: an `extends` record whose ends resolve gives an INHERITS edge from
/// the subtype to the supertype, an `implements` record an IMPLEMENTS edge;
/// and every INHERITS (IMPLEMENTS) edge of the build comes from an `extends`
/// (`implements`) record between its ends.
pub proof fn law_inheritance_edges(nodes: Seq<Node>, calls: Seq<RawCall>, inhs: Seq<RawInherit>)
    ensures
        forall|i: int|
            0 <= i < inhs.len() && (#[trigger] inhs[i]).kind == InheritKind::Extends && inherit_ends(nodes, inhs[i])
                is Some ==> has_edge(
                dedup_edges(build_cands(nodes, calls, inhs)),
                (inherit_ends(nodes, inhs[i])->0).0,
                (inherit_ends(nodes, inhs[i])->0).1,
                EdgeRelation::Inherits,
            ),
        forall|i: int|
            0 <= i < inhs.len() && (#[trigger] inhs[i]).kind == InheritKind::Implements && inherit_ends(nodes, inhs[i])
                is Some ==> has_edge(
                dedup_edges(build_cands(nodes, calls, inhs)),
                (inherit_ends(nodes, inhs[i])->0).0,
                (inherit_ends(nodes, inhs[i])->0).1,
                EdgeRelation::Implements,
            ),
        forall|j: int|
            0 <= j < dedup_edges(build_cands(nodes, calls, inhs)).len() && (#[trigger] dedup_edges(
                build_cands(nodes, calls, inhs),
            )[j]).relation == EdgeRelation::Inherits ==> inherit_record(
                nodes,
                inhs,
                InheritKind::Extends,
                dedup_edges(build_cands(nodes, calls, inhs))[j].src,
                dedup_edges(build_cands(nodes, calls, inhs))[j].dst,
            ),
        forall|j: int|
            0 <= j < dedup_edges(build_cands(nodes, calls, inhs)).len() && (#[trigger] dedup_edges(
                build_cands(nodes, calls, inhs),
            )[j]).relation == EdgeRelation::Implements ==> inherit_record(
                nodes,
                inhs,
                InheritKind::Implements,
                dedup_edges(build_cands(nodes, calls, inhs))[j].src,
                dedup_edges(build_cands(nodes, calls, inhs))[j].dst,
            ),
{
    let d = dedup_edges(build_cands(nodes, calls, inhs));
    assert forall|i: int| 0 <= i < inhs.len() && (#[trigger] inherit_ends(nodes, inhs[i])) is Some implies has_edge(
        d,
        (inherit_ends(nodes, inhs[i])->0).0,
        (inherit_ends(nodes, inhs[i])->0).1,
        inherit_relation(inhs[i].kind),
    ) by {
        lemma_inherit_edge_built(nodes, calls, inhs, i);
    }
    assert forall|j: int|
        0 <= j < d.len() && ((#[trigger] d[j]).relation == EdgeRelation::Inherits || d[j].relation
            == EdgeRelation::Implements) implies inherit_record(
        nodes,
        inhs,
        if d[j].relation == EdgeRelation::Inherits {
            InheritKind::Extends
        } else {
            InheritKind::Implements
        },
        d[j].src,
        d[j].dst,
    ) by {
        lemma_built_inherit_origin(nodes, calls, inhs, j);
        let i = choose|i: int| 0 <= i < inhs.len() && inherit_edge(nodes, #[trigger] inhs[i]) == Some(d[j]);
        assert(inhs[i].kind == (if d[j].relation == EdgeRelation::Inherits {
            InheritKind::Extends
        } else {
            InheritKind::Implements
        }));
    }
}

proof fn lemma_inherit_edge_built(nodes: Seq<Node>, calls: Seq<RawCall>, inhs: Seq<RawInherit>, i: int)
    requires
        0 <= i < inhs.len(),
        inherit_edge(nodes, inhs[i]) is Some,
    ensures
        has_edge(
            dedup_edges(build_cands(nodes, calls, inhs)),
            (inherit_edge(nodes, inhs[i])->0).src,
            (inherit_edge(nodes, inhs[i])->0).dst,
            (inherit_edge(nodes, inhs[i])->0).relation,
        ),
{
    let cands = build_cands(nodes, calls, inhs);
    let d = dedup_edges(cands);
    let dc = defines_cands(nodes, nodes);
    let cc = call_cands(nodes, calls);
    let ic = inherit_cands(nodes, inhs);
    lemma_dedup_props(cands);
    lemma_inherit_cands(nodes, inhs);
    let e = inherit_edge(nodes, inhs[i])->0;
    assert(ic.contains(e));
    let k = choose|k: int| 0 <= k < ic.len() && ic[k] == e;
    assert(cands[dc.len() + cc.len() + k] == ic[k]);
    assert(has_key(d, cands[dc.len() + cc.len() + k]));
    let m = choose|m: int| 0 <= m < d.len() && same_key(d[m], cands[dc.len() + cc.len() + k]);
    assert(d[m].src == e.src);
}

proof fn lemma_built_inherit_origin(nodes: Seq<Node>, calls: Seq<RawCall>, inhs: Seq<RawInherit>, j: int)
    requires
        0 <= j < dedup_edges(build_cands(nodes, calls, inhs)).len(),
        dedup_edges(build_cands(nodes, calls, inhs))[j].relation == EdgeRelation::Inherits
            || dedup_edges(build_cands(nodes, calls, inhs))[j].relation == EdgeRelation::Implements,
    ensures
        exists|i: int|
            0 <= i < inhs.len() && inherit_edge(nodes, #[trigger] inhs[i]) == Some(
                dedup_edges(build_cands(nodes, calls, inhs))[j],
            ),
{
    let cands = build_cands(nodes, calls, inhs);
    let d = dedup_edges(cands);
    let dc = defines_cands(nodes, nodes);
    let cc = call_cands(nodes, calls);
    let ic = inherit_cands(nodes, inhs);
    lemma_dedup_props(cands);
    lemma_inherit_cands(nodes, inhs);
    lemma_call_cands_calls(nodes, calls);
    lemma_other_cands_not_calls(nodes, nodes, inhs);
    assert(cands.contains(d[j]));
    let k = choose|k: int| 0 <= k < cands.len() && cands[k] == d[j];
    if k < dc.len() {
        assert(cands[k] == dc[k]);
    } else if k < dc.len() + cc.len() {
        assert(cands[k] == cc[k - dc.len()]);
    } else {
        let k2 = k - dc.len() - cc.len();
        assert(cands[k] == ic[k2]);
    }
}


/// Node `k` of `nodes` is a function or method named `name`.
pub open spec fn named_callable_at(nodes: Seq<Node>, k: int, name: Seq<char>) -> bool {
    0 <= k < nodes.len() && (nodes[k].label == NodeLabel::Function || nodes[k].label == NodeLabel::Method)
        && nodes[k].name@ == name
}

proof fn lemma_callable_in_file_found(nodes: Seq<Node>, path: Seq<char>, name: Seq<char>)
    ensures
        callable_in_file(nodes, path, name) matches Some(x) ==> exists|k: int|
            named_callable_at(nodes, k, name) && nodes[k].file_path@ == path && (#[trigger] nodes[k]).id@ == x,
        (exists|k: int| named_callable_at(nodes, k, name) && (#[trigger] nodes[k]).file_path@ == path)
            ==> callable_in_file(nodes, path, name) is Some,
    decreases nodes.len(),
{
    if nodes.len() > 0 {
        let q = nodes.drop_last();
        lemma_callable_in_file_found(q, path, name);
        if let Some(x) = callable_in_file(q, path, name) {
            if callable_in_file(nodes, path, name) == Some(x) {
                let k = choose|k: int| named_callable_at(q, k, name) && q[k].file_path@ == path && (#[trigger] q[k]).id@ == x;
                assert(nodes[k] == q[k]);
            }
        }
        assert(nodes[nodes.len() - 1] == nodes.last());
        if exists|k: int| named_callable_at(nodes, k, name) && (#[trigger] nodes[k]).file_path@ == path {
            let k = choose|k: int| named_callable_at(nodes, k, name) && (#[trigger] nodes[k]).file_path@ == path;
            if k < q.len() {
                assert(q[k] == nodes[k]);
                assert(named_callable_at(q, k, name) && q[k].file_path@ == path);
            }
        }
    }
}

proof fn lemma_callables_named_found(nodes: Seq<Node>, name: Seq<char>)
    ensures
        forall|j: int|
            0 <= j < callables_named(nodes, name).len() ==> exists|k: int|
                named_callable_at(nodes, k, name) && (#[trigger] nodes[k]).id@ == #[trigger] callables_named(
                    nodes,
                    name,
                )[j],
        (forall|k: int| !named_callable_at(nodes, k, name)) ==> callables_named(nodes, name).len() == 0,
    decreases nodes.len(),
{
    if nodes.len() > 0 {
        let q = nodes.drop_last();
        lemma_callables_named_found(q, name);
        let r = callables_named(q, name);
        let all = callables_named(nodes, name);
        assert forall|j: int| 0 <= j < all.len() implies exists|k: int|
            named_callable_at(nodes, k, name) && (#[trigger] nodes[k]).id@ == #[trigger] all[j] by {
            if j < r.len() {
                assert(all[j] == r[j]);
                let k = choose|k: int| named_callable_at(q, k, name) && (#[trigger] q[k]).id@ == r[j];
                assert(nodes[k] == q[k]);
            } else {
                assert(nodes[nodes.len() - 1] == nodes.last());
            }
        }
        if forall|k: int| !named_callable_at(nodes, k, name) {
            assert forall|k: int| !named_callable_at(q, k, name) by {
                if 0 <= k < q.len() {
                    assert(q[k] == nodes[k]);
                    assert(!named_callable_at(nodes, k, name));
                }
            }
            assert(!named_callable_at(nodes, nodes.len() - 1, name));
        }
    }
}

proof fn lemma_callables_named_single(nodes: Seq<Node>, name: Seq<char>, k0: int)
    requires
        named_callable_at(nodes, k0, name),
        forall|k: int| named_callable_at(nodes, k, name) ==> k == k0,
    ensures
        callables_named(nodes, name) == seq![nodes[k0].id@],
    decreases nodes.len(),
{
    let q = nodes.drop_last();
    if k0 == nodes.len() - 1 {
        assert forall|k: int| !named_callable_at(q, k, name) by {
            if 0 <= k < q.len() {
                assert(q[k] == nodes[k]);
                assert(!named_callable_at(nodes, k, name));
            }
        }
        lemma_callables_named_found(q, name);
        assert(callables_named(q, name) =~= Seq::<Seq<char>>::empty());
        assert(callables_named(nodes, name) =~= seq![nodes[k0].id@]);
    } else {
        assert(q[k0] == nodes[k0]);
        assert forall|k: int| named_callable_at(q, k, name) implies k == k0 by {
            assert(q[k] == nodes[k]);
            assert(named_callable_at(nodes, k, name));
        }
        lemma_callables_named_single(q, name, k0);
        assert(!named_callable_at(nodes, nodes.len() - 1, name));
    }
}

/// Law: a CALLS edge of a call goes from the caller to a function or method
/// bearing the called name, in the caller's language.
pub proof fn law_call_edge_targets_named_callable(nodes: Seq<Node>, c: RawCall)
    ensures
        call_edge(nodes, c) matches Some(e) ==> {
            &&& e.src == c.caller_id@
            &&& e.relation == EdgeRelation::Calls
            &&& e.dst != e.src
            &&& same_language(nodes, e.src, e.dst)
            &&& exists|k: int| named_callable_at(nodes, k, c.callee_name@) && (#[trigger] nodes[k]).id@ == e.dst
        },
{
    if let Some(caller) = node_with_id(nodes, c.caller_id@) {
        lemma_callable_in_file_found(nodes, caller.file_path@, c.callee_name@);
        lemma_callables_named_found(nodes, c.callee_name@);
        if callable_in_file(nodes, caller.file_path@, c.callee_name@) is None {
            if callables_named(nodes, c.callee_name@).len() == 1 {
                let ids = callables_named(nodes, c.callee_name@);
                assert(ids[0] == ids[0]);
            }
        }
    }
}

/// Law: when the caller's file defines a function or method of the called
/// name, the call resolves to one defined in that file; when it does not and
/// the project defines exactly one function or method of that name, the call
/// resolves to it — and gives a CALLS edge to it when it is another node of
/// the caller's language.
pub proof fn law_call_resolution(nodes: Seq<Node>, c: RawCall, caller: Node, k0: int)
    requires
        node_with_id(nodes, c.caller_id@) == Some(caller),
    ensures
        (named_callable_at(nodes, k0, c.callee_name@) && nodes[k0].file_path@ == caller.file_path@) ==> (call_target(
            nodes,
            c,
        ) matches Some(x) && exists|k: int|
            named_callable_at(nodes, k, c.callee_name@) && (#[trigger] nodes[k]).file_path@ == caller.file_path@
                && nodes[k].id@ == x),
        ({
            &&& named_callable_at(nodes, k0, c.callee_name@)
            &&& forall|k: int| named_callable_at(nodes, k, c.callee_name@) ==> k == k0
            &&& nodes[k0].file_path@ != caller.file_path@
        }) ==> call_target(nodes, c) == Some(nodes[k0].id@),
        ({
            &&& named_callable_at(nodes, k0, c.callee_name@)
            &&& forall|k: int| named_callable_at(nodes, k, c.callee_name@) ==> k == k0
            &&& nodes[k0].file_path@ != caller.file_path@
            &&& nodes[k0].id@ != c.caller_id@
            &&& same_language(nodes, c.caller_id@, nodes[k0].id@)
        }) ==> (call_edge(nodes, c) matches Some(e) && e.src == c.caller_id@ && e.dst == nodes[k0].id@ && e.relation
            == EdgeRelation::Calls),
{
    lemma_callable_in_file_found(nodes, caller.file_path@, c.callee_name@);
    if named_callable_at(nodes, k0, c.callee_name@) && (forall|k: int|
        named_callable_at(nodes, k, c.callee_name@) ==> k == k0) && nodes[k0].file_path@ != caller.file_path@ {
        if callable_in_file(nodes, caller.file_path@, c.callee_name@) is Some {
            let x = callable_in_file(nodes, caller.file_path@, c.callee_name@)->0;
            let k = choose|k: int|
                named_callable_at(nodes, k, c.callee_name@) && nodes[k].file_path@ == caller.file_path@ && (
                #[trigger] nodes[k]).id@ == x;
            assert(k == k0);
        }
        lemma_callables_named_single(nodes, c.callee_name@, k0);
    }
    if named_callable_at(nodes, k0, c.callee_name@) && nodes[k0].file_path@ == caller.file_path@ {
        assert(named_callable_at(nodes, k0, c.callee_name@) && nodes[k0].file_path@ == caller.file_path@);
    }
}


/// Law: the implementers gathered for a supertype (the members of its
/// IMPLEMENTS hyperedge) are exactly the subtypes of the `implements` records
/// whose ends resolve to it; `extends` records contribute none.
pub proof fn law_implementers_come_from_implements_records(nodes: Seq<Node>, inhs: Seq<RawInherit>, sup: Seq<char>)
    ensures
        forall|j: int|
            0 <= j < impls_of(nodes, inhs, sup).len() ==> inherit_record(
                nodes,
                inhs,
                InheritKind::Implements,
                #[trigger] impls_of(nodes, inhs, sup)[j],
                sup,
            ),
        forall|i: int|
            0 <= i < inhs.len() && (#[trigger] inhs[i]).kind == InheritKind::Implements && (inherit_ends(nodes, inhs[i])
                matches Some(ab) && ab.1 == sup) ==> impls_of(nodes, inhs, sup).contains((inherit_ends(nodes, inhs[i])->0).0),
    decreases inhs.len(),
{
    if inhs.len() > 0 {
        let q = inhs.drop_last();
        law_implementers_come_from_implements_records(nodes, q, sup);
        let r = impls_of(nodes, q, sup);
        let all = impls_of(nodes, inhs, sup);
        assert forall|j: int| 0 <= j < all.len() implies inherit_record(
            nodes,
            inhs,
            InheritKind::Implements,
            #[trigger] all[j],
            sup,
        ) by {
            if j < r.len() {
                assert(all[j] == r[j]);
                assert(inherit_record(nodes, q, InheritKind::Implements, r[j], sup));
                let i = choose|i: int|
                    0 <= i < q.len() && (#[trigger] q[i]).kind == InheritKind::Implements && inherit_ends(nodes, q[i])
                        == Some((r[j], sup));
                assert(inhs[i] == q[i]);
            } else {
                assert(inhs[inhs.len() - 1] == inhs.last());
            }
        }
        assert forall|i: int|
            0 <= i < inhs.len() && (#[trigger] inhs[i]).kind == InheritKind::Implements && (inherit_ends(nodes, inhs[i])
                matches Some(ab) && ab.1 == sup) implies all.contains((inherit_ends(nodes, inhs[i])->0).0) by {
            if i < q.len() {
                assert(inhs[i] == q[i]);
                let x = (inherit_ends(nodes, q[i])->0).0;
                assert(r.contains(x));
                let k = choose|k: int| 0 <= k < r.len() && r[k] == x;
                assert(all[k] == r[k]);
            } else {
                assert(inhs[i] == inhs.last());
                assert(all[all.len() - 1] == (inherit_ends(nodes, inhs[i])->0).0);
            }
        }
    }
}


/// Node `f` of `nodes` is the File node of `path`.
pub open spec fn file_node_at(nodes: Seq<Node>, f: int, path: Seq<char>) -> bool {
    0 <= f < nodes.len() && nodes[f].label == NodeLabel::File && nodes[f].file_path@ == path
}

proof fn lemma_file_id_for_found(nodes: Seq<Node>, path: Seq<char>)
    ensures
        file_id_for(nodes, path) matches Some(x) ==> exists|f: int| file_node_at(nodes, f, path) && (#[trigger] nodes[f]).id@ == x,
        (exists|f: int| #[trigger] file_node_at(nodes, f, path)) ==> file_id_for(nodes, path) is Some,
    decreases nodes.len(),
{
    if nodes.len() > 0 {
        let q = nodes.drop_last();
        lemma_file_id_for_found(q, path);
        assert(nodes[nodes.len() - 1] == nodes.last());
        if let Some(x) = file_id_for(q, path) {
            if file_id_for(nodes, path) == Some(x) && !file_node_at(nodes, nodes.len() - 1, path) {
                let f = choose|f: int| file_node_at(q, f, path) && (#[trigger] q[f]).id@ == x;
                assert(nodes[f] == q[f]);
            }
        }
        if exists|f: int| #[trigger] file_node_at(nodes, f, path) {
            let f = choose|f: int| #[trigger] file_node_at(nodes, f, path);
            if f < q.len() {
                assert(q[f] == nodes[f]);
                assert(file_node_at(q, f, path));
            }
        }
    }
}

proof fn lemma_defines_cands(nodes: Seq<Node>, upto: Seq<Node>)
    ensures
        forall|j: int|
            0 <= j < defines_cands(nodes, upto).len() ==> exists|k: int|
                0 <= k < upto.len() && defines_edge(nodes, #[trigger] upto[k]) == Some(
                    #[trigger] defines_cands(nodes, upto)[j],
                ),
        forall|k: int|
            0 <= k < upto.len() && (#[trigger] defines_edge(nodes, upto[k])) is Some ==> defines_cands(
                nodes,
                upto,
            ).contains(defines_edge(nodes, upto[k])->0),
    decreases upto.len(),
{
    if upto.len() > 0 {
        let q = upto.drop_last();
        lemma_defines_cands(nodes, q);
        let r = defines_cands(nodes, q);
        let all = defines_cands(nodes, upto);
        assert forall|j: int| 0 <= j < all.len() implies exists|k: int|
            0 <= k < upto.len() && defines_edge(nodes, #[trigger] upto[k]) == Some(#[trigger] all[j]) by {
            if j < r.len() {
                assert(all[j] == r[j]);
                let k = choose|k: int| 0 <= k < q.len() && defines_edge(nodes, #[trigger] q[k]) == Some(r[j]);
                assert(upto[k] == q[k]);
            } else {
                assert(upto[upto.len() - 1] == upto.last());
            }
        }
        assert forall|k: int|
            0 <= k < upto.len() && (#[trigger] defines_edge(nodes, upto[k])) is Some implies all.contains(
            defines_edge(nodes, upto[k])->0,
        ) by {
            if k < q.len() {
                assert(upto[k] == q[k]);
                let e = defines_edge(nodes, q[k])->0;
                assert(r.contains(e));
                let j = choose|j: int| 0 <= j < r.len() && r[j] == e;
                assert(all[j] == r[j]);
            } else {
                assert(upto[k] == upto.last());
                assert(all[all.len() - 1] == defines_edge(nodes, upto[k])->0);
            }
        }
    }
}

proof fn lemma_defines_built(nodes: Seq<Node>, calls: Seq<RawCall>, inhs: Seq<RawInherit>, k: int)
    requires
        0 <= k < nodes.len(),
        defines_edge(nodes, nodes[k]) is Some,
    ensures
        has_edge(
            dedup_edges(build_cands(nodes, calls, inhs)),
            (defines_edge(nodes, nodes[k])->0).src,
            (defines_edge(nodes, nodes[k])->0).dst,
            EdgeRelation::Defines,
        ),
{
    let cands = build_cands(nodes, calls, inhs);
    let d = dedup_edges(cands);
    let dc = defines_cands(nodes, nodes);
    lemma_dedup_props(cands);
    lemma_defines_cands(nodes, nodes);
    let e = defines_edge(nodes, nodes[k])->0;
    assert(dc.contains(e));
    let j = choose|j: int| 0 <= j < dc.len() && dc[j] == e;
    assert(cands[j] == dc[j]);
    assert(has_key(d, cands[j]));
    let m = choose|m: int| 0 <= m < d.len() && same_key(d[m], cands[j]);
    assert(d[m].src == e.src);
}

proof fn lemma_built_defines_origin(nodes: Seq<Node>, calls: Seq<RawCall>, inhs: Seq<RawInherit>, j: int)
    requires
        0 <= j < dedup_edges(build_cands(nodes, calls, inhs)).len(),
        dedup_edges(build_cands(nodes, calls, inhs))[j].relation == EdgeRelation::Defines,
    ensures
        exists|k: int|
            0 <= k < nodes.len() && defines_edge(nodes, #[trigger] nodes[k]) == Some(
                dedup_edges(build_cands(nodes, calls, inhs))[j],
            ),
{
    let cands = build_cands(nodes, calls, inhs);
    let d = dedup_edges(cands);
    let dc = defines_cands(nodes, nodes);
    let cc = call_cands(nodes, calls);
    let ic = inherit_cands(nodes, inhs);
    lemma_dedup_props(cands);
    lemma_defines_cands(nodes, nodes);
    lemma_call_cands_calls(nodes, calls);
    lemma_inherit_cands(nodes, inhs);
    assert(cands.contains(d[j]));
    let k = choose|k: int| 0 <= k < cands.len() && cands[k] == d[j];
    if k < dc.len() {
        assert(cands[k] == dc[k]);
    } else if k < dc.len() + cc.len() {
        assert(cands[k] == cc[k - dc.len()]);
    } else {
        let k2 = k - dc.len() - cc.len();
        assert(cands[k] == ic[k2]);
        let i = choose|i: int| 0 <= i < inhs.len() && inherit_edge(nodes, #[trigger] inhs[i]) == Some(ic[k2]);
    }
}

/// Law: every symbol (non-File node) of a file that has a File node is
/// defined by that file: a DEFINES edge runs from a File node of its path to
/// it; and every DEFINES edge runs from a File node to a symbol of that file.
pub proof fn law_defines_edges(nodes: Seq<Node>, calls: Seq<RawCall>, inhs: Seq<RawInherit>)
    ensures
        forall|k: int, f: int|
            0 <= k < nodes.len() && (#[trigger] nodes[k]).label != NodeLabel::File && #[trigger] file_node_at(
                nodes,
                f,
                nodes[k].file_path@,
            ) ==> exists|j: int|
                0 <= j < dedup_edges(build_cands(nodes, calls, inhs)).len() && (#[trigger] dedup_edges(
                    build_cands(nodes, calls, inhs),
                )[j]).relation == EdgeRelation::Defines && dedup_edges(build_cands(nodes, calls, inhs))[j].dst
                    == nodes[k].id@ && exists|g: int|
                    file_node_at(nodes, g, nodes[k].file_path@) && (#[trigger] nodes[g]).id@ == dedup_edges(
                        build_cands(nodes, calls, inhs),
                    )[j].src,
        forall|j: int|
            0 <= j < dedup_edges(build_cands(nodes, calls, inhs)).len() && (#[trigger] dedup_edges(
                build_cands(nodes, calls, inhs),
            )[j]).relation == EdgeRelation::Defines ==> exists|k: int, g: int|
                0 <= k < nodes.len() && (#[trigger] nodes[k]).label != NodeLabel::File && nodes[k].id@ == dedup_edges(
                    build_cands(nodes, calls, inhs),
                )[j].dst && file_node_at(nodes, g, nodes[k].file_path@) && (#[trigger] nodes[g]).id@ == dedup_edges(
                    build_cands(nodes, calls, inhs),
                )[j].src,
{
    let d = dedup_edges(build_cands(nodes, calls, inhs));
    assert forall|k: int, f: int|
        0 <= k < nodes.len() && (#[trigger] nodes[k]).label != NodeLabel::File && #[trigger] file_node_at(
            nodes,
            f,
            nodes[k].file_path@,
        ) implies exists|j: int|
        0 <= j < d.len() && (#[trigger] d[j]).relation == EdgeRelation::Defines && d[j].dst == nodes[k].id@ && exists|
            g: int,
        | file_node_at(nodes, g, nodes[k].file_path@) && (#[trigger] nodes[g]).id@ == d[j].src by {
        lemma_file_id_for_found(nodes, nodes[k].file_path@);
        lemma_defines_built(nodes, calls, inhs, k);
        let e = defines_edge(nodes, nodes[k])->0;
        let j = choose|j: int|
            0 <= j < d.len() && (#[trigger] d[j]).src == e.src && d[j].dst == e.dst && d[j].relation
                == EdgeRelation::Defines;
        let fid = file_id_for(nodes, nodes[k].file_path@)->0;
        let g = choose|g: int| file_node_at(nodes, g, nodes[k].file_path@) && (#[trigger] nodes[g]).id@ == fid;
        assert(d[j].src == nodes[g].id@);
    }
    assert forall|j: int| 0 <= j < d.len() && (#[trigger] d[j]).relation == EdgeRelation::Defines implies exists|
        k: int,
        g: int,
    |
        0 <= k < nodes.len() && (#[trigger] nodes[k]).label != NodeLabel::File && nodes[k].id@ == d[j].dst
            && file_node_at(nodes, g, nodes[k].file_path@) && (#[trigger] nodes[g]).id@ == d[j].src by {
        lemma_built_defines_origin(nodes, calls, inhs, j);
        let k = choose|k: int| 0 <= k < nodes.len() && defines_edge(nodes, #[trigger] nodes[k]) == Some(d[j]);
        lemma_file_id_for_found(nodes, nodes[k].file_path@);
        let fid = file_id_for(nodes, nodes[k].file_path@)->0;
        let g = choose|g: int| file_node_at(nodes, g, nodes[k].file_path@) && (#[trigger] nodes[g]).id@ == fid;
        assert(nodes[g].id@ == d[j].src);
    }
}

} // verus!
