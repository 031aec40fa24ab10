//! SCIP import: a compiler-grade `.scip` index turned into precise edges.
//! Per document, each occurrence of a symbol is a definition or a reference
//! at a line; definitions are mapped onto the parsed nodes of the file, and a
//! reference inside a function or method becomes an edge to the symbol's
//! definition node.

use crate::edges::{no_metadata, views};
use crate::types::{Confidence, Edge, EdgeRelation, EdgeV, Metadata, Node, NodeLabel, NodeV, ResolutionTier};
use crate::text::str_eq;
use crate::syntax::opt_int;
use protobuf::Message;
use scip::types::Index;
use vstd::prelude::*;

verus! {

#[verifier::external_type_specification]
#[verifier::external_body]
pub struct ExIndex(Index);

#[verifier::external_type_specification]
#[verifier::external_body]
pub struct ExProtobufError(protobuf::Error);

/// One occurrence: its range (`[line, ...]`), symbol and role bits.
pub struct OccV {
    pub range: Seq<i32>,
    pub symbol: Seq<char>,
    pub roles: i32,
}

/// One document: its repo-relative path and occurrences in order.
pub struct DocV {
    pub path: Seq<char>,
    pub occs: Seq<OccV>,
}

/// The documents an index holds, in order.
pub uninterp spec fn scip_documents(i: Index) -> Seq<DocV>;

/// The documents `Index::parse_from_bytes` decodes from `bytes`, or none
/// when they are not a valid index.
pub uninterp spec fn scip_decode(bytes: Seq<u8>) -> Option<Seq<DocV>>;

/// `Index::parse_from_bytes`.
#[verifier::external_body]
fn scip_parse(bytes: &[u8]) -> (r: Result<Index, protobuf::Error>)
    ensures
        match r {
            Ok(i) => scip_decode(bytes@) == Some(scip_documents(i)),
            Err(_) => scip_decode(bytes@) is None,
        },
{
    Index::parse_from_bytes(bytes)
}

/// `protobuf::Error`'s message.
#[verifier::external_body]
fn protobuf_error_text(e: &protobuf::Error) -> String {
    e.to_string()
}

/// The number of documents (`Index::documents`).
#[verifier::external_body]
fn doc_count(idx: &Index) -> (r: usize)
    ensures
        r == scip_documents(*idx).len(),
{
    idx.documents.len()
}

/// The path of document `i` (`Document::relative_path`).
#[verifier::external_body]
fn doc_path(idx: &Index, i: usize) -> (r: String)
    requires
        i < scip_documents(*idx).len(),
    ensures
        r@ == scip_documents(*idx)[i as int].path,
{
    idx.documents[i].relative_path.clone()
}

/// The number of occurrences of document `i` (`Document::occurrences`).
#[verifier::external_body]
fn occ_count(idx: &Index, i: usize) -> (r: usize)
    requires
        i < scip_documents(*idx).len(),
    ensures
        r == scip_documents(*idx)[i as int].occs.len(),
{
    idx.documents[i].occurrences.len()
}

/// Occurrence `j` of document `i`: range, symbol and role bits.
#[verifier::external_body]
fn occ_at(idx: &Index, i: usize, j: usize) -> (r: (Vec<i32>, String, i32))
    requires
        i < scip_documents(*idx).len(),
        j < scip_documents(*idx)[i as int].occs.len(),
    ensures
        r.0@ == scip_documents(*idx)[i as int].occs[j as int].range,
        r.1@ == scip_documents(*idx)[i as int].occs[j as int].symbol,
        r.2 == scip_documents(*idx)[i as int].occs[j as int].roles,
{
    let o = &idx.documents[i].occurrences[j];
    (o.range.clone(), o.symbol.clone(), o.symbol_roles)
}

/// An occurrence of a symbol.
pub struct ScipOcc {
    pub range: Vec<i32>,
    pub symbol: String,
    pub symbol_roles: i32,
}

/// A document of a SCIP index.
pub struct ScipDoc {
    pub relative_path: String,
    pub occurrences: Vec<ScipOcc>,
}

impl View for ScipOcc {
    type V = OccV;

    open spec fn view(&self) -> OccV {
        OccV { range: self.range@, symbol: self.symbol@, roles: self.symbol_roles }
    }
}

impl View for ScipDoc {
    type V = DocV;

    open spec fn view(&self) -> DocV {
        DocV { path: self.relative_path@, occs: self.occurrences@.map_values(|o: ScipOcc| o@) }
    }
}

pub open spec fn doc_views(d: Seq<ScipDoc>) -> Seq<DocV> {
    d.map_values(|x: ScipDoc| x@)
}

/// Why an index could not be imported.
#[derive(Debug, Clone)]
pub enum ScipError {
    /// The bytes are not a valid SCIP index.
    Decode(String),
}

/// The documents of an index, copied.
fn documents_of(idx: &Index) -> (r: Vec<ScipDoc>)
    ensures
        doc_views(r@) == scip_documents(*idx),
{
    let ghost ds = scip_documents(*idx);
    let n = doc_count(idx);
    let mut out: Vec<ScipDoc> = Vec::new();
    for i in 0..n
        invariant
            n == ds.len(),
            ds == scip_documents(*idx),
            doc_views(out@) == ds.take(i as int),
    {
        let path = doc_path(idx, i);
        let m = occ_count(idx, i);
        let mut occs: Vec<ScipOcc> = Vec::new();
        for j in 0..m
            invariant
                i < n,
                n == ds.len(),
                ds == scip_documents(*idx),
                m == ds[i as int].occs.len(),
                occs@.map_values(|o: ScipOcc| o@) == ds[i as int].occs.take(j as int),
        {
            let (range, symbol, roles) = occ_at(idx, i, j);
            let ghost before = occs@.map_values(|o: ScipOcc| o@);
            occs.push(ScipOcc { range, symbol, symbol_roles: roles });
            proof {
                assert(occs@.map_values(|o: ScipOcc| o@) =~= before.push(ds[i as int].occs[j as int]));
                assert(ds[i as int].occs.take(j + 1) =~= ds[i as int].occs.take(j as int).push(ds[i as int].occs[j as int]));
            }
        }
        let ghost before = doc_views(out@);
        out.push(ScipDoc { relative_path: path, occurrences: occs });
        proof {
            assert(ds[i as int].occs.take(m as int) =~= ds[i as int].occs);
            assert(doc_views(out@) =~= before.push(ds[i as int]));
            assert(ds.take(i + 1) =~= ds.take(i as int).push(ds[i as int]));
        }
    }
    proof {
        assert(ds.take(n as int) =~= ds);
    }
    out
}

/// A reference to a function or method is a call; to a class, interface,
/// enum or type alias it is a use of the type; other targets yield no edge.
pub open spec fn relation_for(label: NodeLabel) -> Option<EdgeRelation> {
    match label {
        NodeLabel::Function => Some(EdgeRelation::Calls),
        NodeLabel::Method => Some(EdgeRelation::Calls),
        NodeLabel::Class => Some(EdgeRelation::UsesType),
        NodeLabel::Interface => Some(EdgeRelation::UsesType),
        NodeLabel::Enum => Some(EdgeRelation::UsesType),
        NodeLabel::Type => Some(EdgeRelation::UsesType),
        _ => None,
    }
}

/// The relation of a reference to a node with `label`.
pub fn edge_relation(label: NodeLabel) -> (r: Option<EdgeRelation>)
    ensures
        r == relation_for(label),
{
    match label {
        NodeLabel::Function | NodeLabel::Method => Some(EdgeRelation::Calls),
        NodeLabel::Class | NodeLabel::Interface | NodeLabel::Enum | NodeLabel::Type => Some(EdgeRelation::UsesType),
        _ => None,
    }
}

/// Labels a definition occurrence may map to.
pub open spec fn definable(label: NodeLabel) -> bool {
    relation_for(label) is Some || label == NodeLabel::Module
}

/// Whether a definition occurrence may map to a node with `label`.
pub fn is_definable(label: NodeLabel) -> (r: bool)
    ensures
        r == definable(label),
{
    edge_relation(label).is_some() || label == NodeLabel::Module
}

pub open spec fn is_callable(label: NodeLabel) -> bool {
    label == NodeLabel::Function || label == NodeLabel::Method
}

/// Node `n` spans `line`.
pub open spec fn spans(n: NodeV, line: u32) -> bool {
    n.line_start <= line <= n.line_end
}

/// The first of `ns` (indices into `nodes`) that is definable and starts at
/// `line`.
pub open spec fn exact_def(nodes: Seq<NodeV>, ns: Seq<int>, line: u32) -> Option<int>
    decreases ns.len(),
{
    if ns.len() == 0 {
        None
    } else if definable(nodes[ns[0]].label) && nodes[ns[0]].line_start == line {
        Some(ns[0])
    } else {
        exact_def(nodes, ns.drop_first(), line)
    }
}

/// Among `ns`, the innermost node (latest start, the first on ties) that
/// spans `line` and is definable (`callable` false) or a function or method
/// (`callable` true).
pub open spec fn innermost(nodes: Seq<NodeV>, ns: Seq<int>, line: u32, callable: bool) -> Option<int>
    decreases ns.len(),
{
    if ns.len() == 0 {
        None
    } else {
        let b = innermost(nodes, ns.drop_last(), line, callable);
        let k = ns.last();
        let ok = if callable {
            is_callable(nodes[k].label)
        } else {
            definable(nodes[k].label)
        };
        if ok && spans(nodes[k], line) && (b is None || nodes[k].line_start > nodes[b->0].line_start) {
            Some(k)
        } else {
            b
        }
    }
}

/// The node a definition at `line` maps to: a node starting there, else the
/// innermost definable node spanning it.
pub open spec fn best_def(nodes: Seq<NodeV>, ns: Seq<int>, line: u32) -> Option<int> {
    match exact_def(nodes, ns, line) {
        Some(k) => Some(k),
        None => innermost(nodes, ns, line, false),
    }
}

/// The indices of the nodes of file `path`, in order.
pub open spec fn file_nodes(nodes: Seq<NodeV>, path: Seq<char>, k: int) -> Seq<int>
    decreases k,
{
    if k <= 0 {
        seq![]
    } else {
        let r = file_nodes(nodes, path, k - 1);
        if nodes[k - 1].file_path == path {
            r.push(k - 1)
        } else {
            r
        }
    }
}

pub open spec fn nodes_of(nodes: Seq<NodeV>, path: Seq<char>) -> Seq<int> {
    file_nodes(nodes, path, nodes.len() as int)
}

/// The 1-based line of an occurrence range starting at 0-based `r0`.
pub open spec fn occ_line(r0: i32) -> u32 {
    (((r0 as u32) as int + 1) % 0x1_0000_0000) as u32
}

/// A definition occurrence.
pub open spec fn is_def(o: OccV) -> bool {
    (o.roles & 1) != 0
}

/// The value under the first entry for `k`.
pub open spec fn lookup<K, V>(m: Seq<(K, V)>, k: K) -> Option<V>
    decreases m.len(),
{
    if m.len() == 0 {
        None
    } else if m[0].0 == k {
        Some(m[0].1)
    } else {
        lookup(m.drop_first(), k)
    }
}

/// The definitions of the occurrences of `occs` in a file with nodes `ns`:
/// symbol to node, the first definition of a symbol winning.
pub open spec fn defs_in(nodes: Seq<NodeV>, ns: Seq<int>, occs: Seq<OccV>, m: Seq<(Seq<char>, int)>) -> Seq<(Seq<char>, int)>
    decreases occs.len(),
{
    if occs.len() == 0 {
        m
    } else {
        let m1 = defs_in(nodes, ns, occs.drop_last(), m);
        let o = occs.last();
        if !is_def(o) || o.range.len() == 0 {
            m1
        } else {
            match best_def(nodes, ns, occ_line(o.range[0])) {
                Some(n) => if lookup(m1, o.symbol) is None {
                    m1.push((o.symbol, n))
                } else {
                    m1
                },
                None => m1,
            }
        }
    }
}

/// The symbol definitions of all documents whose file has nodes.
pub open spec fn symbol_defs(nodes: Seq<NodeV>, docs: Seq<DocV>) -> Seq<(Seq<char>, int)>
    decreases docs.len(),
{
    if docs.len() == 0 {
        seq![]
    } else {
        let m = symbol_defs(nodes, docs.drop_last());
        let d = docs.last();
        let ns = nodes_of(nodes, d.path);
        if ns.len() == 0 {
            m
        } else {
            defs_in(nodes, ns, d.occs, m)
        }
    }
}

/// The edge a reference occurrence yields: from the innermost function or
/// method spanning it to its symbol's definition node, not to itself, when
/// that node's label has a relation.
pub open spec fn ref_edge(nodes: Seq<NodeV>, ns: Seq<int>, defs: Seq<(Seq<char>, int)>, path: Seq<char>, o: OccV) -> Option<EdgeV> {
    if is_def(o) || o.range.len() == 0 {
        None
    } else {
        match lookup(defs, o.symbol) {
            Some(dst) => {
                let line = occ_line(o.range[0]);
                match innermost(nodes, ns, line, true) {
                    Some(src) => if nodes[src].id == nodes[dst].id {
                        None
                    } else {
                        match relation_for(nodes[dst].label) {
                            Some(rel) => Some(
                                EdgeV {
                                    src: nodes[src].id,
                                    dst: nodes[dst].id,
                                    relation: rel,
                                    tier: ResolutionTier::Scip,
                                    confidence: Confidence::Extracted,
                                    src_file: path,
                                    src_line: line,
                                },
                            ),
                            None => None,
                        }
                    },
                    None => None,
                }
            },
            None => None,
        }
    }
}

/// Whether an edge with the same source, target and relation is in `es`.
pub open spec fn has_edge_key(es: Seq<EdgeV>, e: EdgeV) -> bool {
    exists|k: int| 0 <= k < es.len() && es[k].src == e.src && es[k].dst == e.dst && es[k].relation == e.relation
}

/// The edges of the references among `occs`, each (source, target,
/// relation) once.
pub open spec fn refs_in(nodes: Seq<NodeV>, ns: Seq<int>, defs: Seq<(Seq<char>, int)>, path: Seq<char>, occs: Seq<OccV>, es: Seq<EdgeV>) -> Seq<EdgeV>
    decreases occs.len(),
{
    if occs.len() == 0 {
        es
    } else {
        let es1 = refs_in(nodes, ns, defs, path, occs.drop_last(), es);
        match ref_edge(nodes, ns, defs, path, occs.last()) {
            Some(e) => if has_edge_key(es1, e) {
                es1
            } else {
                es1.push(e)
            },
            None => es1,
        }
    }
}

/// The edges of all documents whose file has nodes.
pub open spec fn ref_edges(nodes: Seq<NodeV>, defs: Seq<(Seq<char>, int)>, docs: Seq<DocV>) -> Seq<EdgeV>
    decreases docs.len(),
{
    if docs.len() == 0 {
        seq![]
    } else {
        let es = ref_edges(nodes, defs, docs.drop_last());
        let d = docs.last();
        let ns = nodes_of(nodes, d.path);
        if ns.len() == 0 {
            es
        } else {
            refs_in(nodes, ns, defs, d.path, d.occs, es)
        }
    }
}

/// The precise edges of an index's documents against parsed `nodes`.
pub open spec fn scip_edges_spec(docs: Seq<DocV>, nodes: Seq<NodeV>) -> Seq<EdgeV> {
    ref_edges(nodes, symbol_defs(nodes, docs), docs)
}

pub open spec fn node_vs(nodes: Seq<Node>) -> Seq<NodeV> {
    nodes.map_values(|n: Node| n@)
}

pub open spec fn ints(v: Seq<usize>) -> Seq<int> {
    v.map_values(|x: usize| x as int)
}

/// The indices of the nodes of file `path` (see `nodes_of`).
fn file_node_indices(nodes: &[Node], path: &str) -> (r: Vec<usize>)
    ensures
        ints(r@) == nodes_of(node_vs(nodes@), path@),
        forall|k: int| 0 <= k < r@.len() ==> (#[trigger] r@[k]) < nodes@.len(),
{
    let ghost nv = node_vs(nodes@);
    let mut out: Vec<usize> = Vec::new();
    let n = nodes.len();
    for i in 0..n
        invariant
            n == nodes@.len(),
            nv == node_vs(nodes@),
            ints(out@) == file_nodes(nv, path@, i as int),
            forall|k: int| 0 <= k < out@.len() ==> (#[trigger] out@[k]) < nodes@.len(),
    {
        proof {
            assert(nv[i as int] == nodes@[i as int]@);
        }
        if str_eq(nodes[i].file_path.as_str(), path) {
            let ghost before = ints(out@);
            out.push(i);
            proof {
                assert(ints(out@) =~= before.push(i as int));
            }
        }
    }
    out
}

/// The node a definition at `line` maps to (see `best_def`).
pub fn best_def_node(nodes: &[Node], ns: &Vec<usize>, line: u32) -> (r: Option<usize>)
    requires
        forall|k: int| 0 <= k < ns@.len() ==> (#[trigger] ns@[k]) < nodes@.len(),
    ensures
        opt_int(r) == best_def(node_vs(nodes@), ints(ns@), line),
        match r {
            Some(k) => k < nodes@.len(),
            None => true,
        },
{
    let ghost nv = node_vs(nodes@);
    let ghost nsv = ints(ns@);
    let mut best: Option<usize> = None;
    let m = ns.len();
    proof {
        assert(nsv.skip(0) =~= nsv);
    }
    for j in 0..m
        invariant
            m == ns@.len(),
            nv == node_vs(nodes@),
            nsv == ints(ns@),
            forall|k: int| 0 <= k < ns@.len() ==> (#[trigger] ns@[k]) < nodes@.len(),
            exact_def(nv, nsv, line) == exact_def(nv, nsv.skip(j as int), line),
            opt_int(best) == innermost(nv, nsv.take(j as int), line, false),
            match best {
                Some(k) => k < nodes@.len(),
                None => true,
            },
    {
        let k = ns[j];
        let n = &nodes[k];
        proof {
            assert(nv[k as int] == nodes@[k as int]@);
            assert(nsv.skip(j as int)[0] == k as int);
            assert(nsv.skip(j as int).drop_first() =~= nsv.skip(j + 1));
            assert(nsv.take(j + 1).drop_last() =~= nsv.take(j as int));
            assert(nsv.take(j + 1).last() == k as int);
        }
        if is_definable(n.label) {
            if n.line_start == line {
                return Some(k);
            }
            let better = match best {
                Some(b) => n.line_start > nodes[b].line_start,
                None => true,
            };
            proof {
                if best is Some {
                    assert(nv[best->0 as int] == nodes@[best->0 as int]@);
                }
            }
            if n.line_start <= line && line <= n.line_end && better {
                best = Some(k);
            }
        }
    }
    proof {
        assert(nsv.take(m as int) =~= nsv);
        assert(nsv.skip(m as int) =~= Seq::<int>::empty());
    }
    best
}

/// The innermost function or method spanning `line` (the caller).
pub fn enclosing_callable(nodes: &[Node], ns: &Vec<usize>, line: u32) -> (r: Option<usize>)
    requires
        forall|k: int| 0 <= k < ns@.len() ==> (#[trigger] ns@[k]) < nodes@.len(),
    ensures
        opt_int(r) == innermost(node_vs(nodes@), ints(ns@), line, true),
        match r {
            Some(k) => k < nodes@.len(),
            None => true,
        },
{
    let ghost nv = node_vs(nodes@);
    let ghost nsv = ints(ns@);
    let mut best: Option<usize> = None;
    let m = ns.len();
    for j in 0..m
        invariant
            m == ns@.len(),
            nv == node_vs(nodes@),
            nsv == ints(ns@),
            forall|k: int| 0 <= k < ns@.len() ==> (#[trigger] ns@[k]) < nodes@.len(),
            opt_int(best) == innermost(nv, nsv.take(j as int), line, true),
            match best {
                Some(k) => k < nodes@.len(),
                None => true,
            },
    {
        let k = ns[j];
        let n = &nodes[k];
        proof {
            assert(nv[k as int] == nodes@[k as int]@);
            assert(nsv.take(j + 1).drop_last() =~= nsv.take(j as int));
            assert(nsv.take(j + 1).last() == k as int);
        }
        if n.label == NodeLabel::Function || n.label == NodeLabel::Method {
            let better = match best {
                Some(b) => n.line_start > nodes[b].line_start,
                None => true,
            };
            proof {
                if best is Some {
                    assert(nv[best->0 as int] == nodes@[best->0 as int]@);
                }
            }
            if n.line_start <= line && line <= n.line_end && better {
                best = Some(k);
            }
        }
    }
    proof {
        assert(nsv.take(m as int) =~= nsv);
    }
    best
}

pub open spec fn def_table(v: Seq<(String, usize)>) -> Seq<(Seq<char>, int)> {
    v.map_values(|e: (String, usize)| (e.0@, e.1 as int))
}

/// The node of the first definition of `sym`.
fn lookup_def(defs: &Vec<(String, usize)>, sym: &str) -> (r: Option<usize>)
    ensures
        opt_int(r) == lookup(def_table(defs@), sym@),
        match r {
            Some(k) => exists|q: int| 0 <= q < defs@.len() && defs@[q].1 == k,
            None => true,
        },
{
    let ghost dv = def_table(defs@);
    let n = defs.len();
    proof {
        assert(dv.skip(0) =~= dv);
    }
    for j in 0..n
        invariant
            n == defs@.len(),
            dv == def_table(defs@),
            lookup(dv, sym@) == lookup(dv.skip(j as int), sym@),
    {
        proof {
            assert(dv.skip(j as int)[0] == (defs@[j as int].0@, defs@[j as int].1 as int));
            assert(dv.skip(j as int).drop_first() =~= dv.skip(j + 1));
        }
        if str_eq(defs[j].0.as_str(), sym) {
            return Some(defs[j].1);
        }
    }
    None
}

/// The 1-based line of an occurrence range starting at 0-based `r0`.
fn line_from(r0: i32) -> (r: u32)
    ensures
        r == occ_line(r0),
{
    let u: u32 = r0 as u32;
    u.wrapping_add(1)
}

/// Record the definitions of document `d`'s occurrences (file nodes `ns`).
fn record_defs(nodes: &[Node], ns: &Vec<usize>, d: &ScipDoc, defs: &mut Vec<(String, usize)>)
    requires
        forall|k: int| 0 <= k < ns@.len() ==> (#[trigger] ns@[k]) < nodes@.len(),
        forall|q: int| 0 <= q < old(defs)@.len() ==> (#[trigger] old(defs)@[q]).1 < nodes@.len(),
    ensures
        def_table(final(defs)@) == defs_in(node_vs(nodes@), ints(ns@), d@.occs, def_table(old(defs)@)),
        forall|q: int| 0 <= q < final(defs)@.len() ==> (#[trigger] final(defs)@[q]).1 < nodes@.len(),
{
    let ghost occs = d@.occs;
    let ghost m0 = def_table(defs@);
    let n = d.occurrences.len();
    for j in 0..n
        invariant
            n == occs.len(),
            occs == d@.occs,
            forall|k: int| 0 <= k < ns@.len() ==> (#[trigger] ns@[k]) < nodes@.len(),
            forall|q: int| 0 <= q < defs@.len() ==> (#[trigger] defs@[q]).1 < nodes@.len(),
            def_table(defs@) == defs_in(node_vs(nodes@), ints(ns@), occs.take(j as int), m0),
    {
        let o = &d.occurrences[j];
        proof {
            assert(occs.take(j + 1).drop_last() =~= occs.take(j as int));
            assert(occs.take(j + 1).last() == o@);
            assert(occs[j as int] == o@);
        }
        if !((o.symbol_roles & 1) == 0 || o.range.len() == 0) {
            let line = line_from(o.range[0]);
            match best_def_node(nodes, ns, line) {
                Some(k) => {
                    if lookup_def(defs, o.symbol.as_str()).is_none() {
                        let ghost before = def_table(defs@);
                        defs.push((o.symbol.clone(), k));
                        proof {
                            assert(def_table(defs@) =~= before.push((o.symbol@, k as int)));
                        }
                    }
                },
                None => {},
            }
        }
    }
    proof {
        assert(occs.take(n as int) =~= occs);
    }
}

/// Whether `es` holds an edge from `src` to `dst` with `rel`.
fn has_key(es: &Vec<Edge>, src: &str, dst: &str, rel: EdgeRelation) -> (r: bool)
    ensures
        r == exists|k: int|
            0 <= k < es@.len() && es@[k]@.src == src@ && es@[k]@.dst == dst@ && es@[k]@.relation == rel,
{
    let n = es.len();
    for j in 0..n
        invariant
            n == es@.len(),
            forall|k: int|
                0 <= k < j ==> !(es@[k]@.src == src@ && es@[k]@.dst == dst@ && es@[k]@.relation == rel),
    {
        if es[j].relation == rel && str_eq(es[j].src.as_str(), src) && str_eq(es[j].dst.as_str(), dst) {
            return true;
        }
    }
    false
}

/// Append the edges of document `d`'s references (file nodes `ns`).
#[verifier::rlimit(40)]
fn record_refs(nodes: &[Node], ns: &Vec<usize>, defs: &Vec<(String, usize)>, d: &ScipDoc, out: &mut Vec<Edge>)
    requires
        forall|k: int| 0 <= k < ns@.len() ==> (#[trigger] ns@[k]) < nodes@.len(),
        forall|q: int| 0 <= q < defs@.len() ==> (#[trigger] defs@[q]).1 < nodes@.len(),
        no_metadata(old(out)@),
    ensures
        views(final(out)@) == refs_in(node_vs(nodes@), ints(ns@), def_table(defs@), d@.path, d@.occs, views(old(out)@)),
        no_metadata(final(out)@),
{
    let ghost nv = node_vs(nodes@);
    let ghost occs = d@.occs;
    let ghost e0 = views(out@);
    let n = d.occurrences.len();
    for j in 0..n
        invariant
            n == occs.len(),
            occs == d@.occs,
            nv == node_vs(nodes@),
            forall|k: int| 0 <= k < ns@.len() ==> (#[trigger] ns@[k]) < nodes@.len(),
            forall|q: int| 0 <= q < defs@.len() ==> (#[trigger] defs@[q]).1 < nodes@.len(),
            views(out@) == refs_in(nv, ints(ns@), def_table(defs@), d@.path, occs.take(j as int), e0),
            no_metadata(out@),
    {
        let o = &d.occurrences[j];
        let ghost before = views(out@);
        proof {
            assert(occs.take(j + 1).drop_last() =~= occs.take(j as int));
            assert(occs.take(j + 1).last() == o@);
            assert(occs[j as int] == o@);
        }
        if !((o.symbol_roles & 1) != 0 || o.range.len() == 0) {
            match lookup_def(defs, o.symbol.as_str()) {
                Some(dst) => {
                    let line = line_from(o.range[0]);
                    match enclosing_callable(nodes, ns, line) {
                        Some(src) => {
                            proof {
                                assert(nv[src as int] == nodes@[src as int]@);
                                assert(nv[dst as int] == nodes@[dst as int]@);
                            }
                            if !str_eq(nodes[src].id.as_str(), nodes[dst].id.as_str()) {
                                match edge_relation(nodes[dst].label) {
                                    Some(rel) => {
                                        let dup = has_key(out, nodes[src].id.as_str(), nodes[dst].id.as_str(), rel);
                                        let ghost e = ref_edge(nv, ints(ns@), def_table(defs@), d@.path, o@)->0;
                                        proof {
                                            if dup {
                                                let k = choose|k: int|
                                                    0 <= k < out@.len() && out@[k]@.src == nodes@[src as int].id@
                                                        && out@[k]@.dst == nodes@[dst as int].id@ && out@[k]@.relation == rel;
                                                assert(before[k] == out@[k]@);
                                                assert(has_edge_key(before, e));
                                            } else {
                                                if has_edge_key(before, e) {
                                                    let k = choose|k: int|
                                                        0 <= k < before.len() && before[k].src == e.src && before[k].dst == e.dst
                                                            && before[k].relation == e.relation;
                                                    assert(before[k] == out@[k]@);
                                                }
                                                assert(!has_edge_key(before, e));
                                            }
                                        }
                                        let ghost old_out_here = out@;
                                        if !dup {
                                            out.push(
                                                Edge {
                                                    src: nodes[src].id.clone(),
                                                    dst: nodes[dst].id.clone(),
                                                    relation: rel,
                                                    tier: ResolutionTier::Scip,
                                                    confidence: Confidence::Extracted,
                                                    src_file: d.relative_path.clone(),
                                                    src_line: line,
                                                    metadata: Metadata::new(),
                                                },
                                            );
                                            proof {
                                                assert(views(out@) =~= before.push(e));
                                                assert(no_metadata(out@)) by {
                                                    assert forall|k: int| 0 <= k < out@.len() implies out@[k].metadata.entries@.len() == 0 by {
                                                        if k < out@.len() - 1 {
                                                            assert(out@[k] == old_out_here[k]);
                                                        }
                                                    }
                                                }
                                            }
                                        }
                                    },
                                    None => {},
                                }
                            }
                        },
                        None => {},
                    }
                },
                None => {},
            }
        }
    }
    proof {
        assert(occs.take(n as int) =~= occs);
    }
}

/// The precise edges of `docs` against parsed `nodes` (see `scip_edges_spec`).
pub fn scip_edges(docs: &Vec<ScipDoc>, nodes: &[Node]) -> (r: Vec<Edge>)
    ensures
        views(r@) == scip_edges_spec(doc_views(docs@), node_vs(nodes@)),
        no_metadata(r@),
{
    let ghost dv = doc_views(docs@);
    let ghost nv = node_vs(nodes@);
    let mut defs: Vec<(String, usize)> = Vec::new();
    let n = docs.len();
    for i in 0..n
        invariant
            n == docs@.len(),
            dv == doc_views(docs@),
            nv == node_vs(nodes@),
            forall|q: int| 0 <= q < defs@.len() ==> (#[trigger] defs@[q]).1 < nodes@.len(),
            def_table(defs@) == symbol_defs(nv, dv.take(i as int)),
    {
        let d = &docs[i];
        proof {
            assert(dv.take(i + 1).drop_last() =~= dv.take(i as int));
            assert(dv.take(i + 1).last() == d@);
        }
        let ns = file_node_indices(nodes, d.relative_path.as_str());
        if ns.len() > 0 {
            record_defs(nodes, &ns, d, &mut defs);
        }
    }
    proof {
        assert(dv.take(n as int) =~= dv);
    }
    let ghost table = def_table(defs@);
    let mut out: Vec<Edge> = Vec::new();
    for i in 0..n
        invariant
            n == docs@.len(),
            dv == doc_views(docs@),
            nv == node_vs(nodes@),
            table == def_table(defs@),
            forall|q: int| 0 <= q < defs@.len() ==> (#[trigger] defs@[q]).1 < nodes@.len(),
            views(out@) == ref_edges(nv, table, dv.take(i as int)),
            no_metadata(out@),
    {
        let d = &docs[i];
        proof {
            assert(dv.take(i + 1).drop_last() =~= dv.take(i as int));
            assert(dv.take(i + 1).last() == d@);
        }
        let ns = file_node_indices(nodes, d.relative_path.as_str());
        if ns.len() > 0 {
            record_refs(nodes, &ns, &defs, d, &mut out);
        }
    }
    out
}

/// Decode a SCIP index and resolve its precise edges against parsed
/// `nodes`; an error when the bytes are not a valid index.
pub fn import_scip(bytes: &[u8], nodes: &[Node]) -> (r: Result<Vec<Edge>, ScipError>)
    ensures
        match scip_decode(bytes@) {
            Some(docs) => r is Ok && views(r->Ok_0@) == scip_edges_spec(docs, node_vs(nodes@)) && no_metadata(r->Ok_0@),
            None => r is Err,
        },
{
    match scip_parse(bytes) {
        Ok(idx) => {
            let docs = documents_of(&idx);
            Ok(scip_edges(&docs, nodes))
        },
        Err(e) => Err(ScipError::Decode(protobuf_error_text(&e))),
    }
}

/// Distinct (source, target, relation) keys, no self-edge, all precise.
pub open spec fn clean_edges(es: Seq<EdgeV>) -> bool {
    &&& forall|a: int, b: int|
        0 <= a < b < es.len() ==> !(es[a].src == es[b].src && es[a].dst == es[b].dst && es[a].relation
            == es[b].relation)
    &&& forall|k: int| 0 <= k < es.len() ==> (#[trigger] es[k]).src != es[k].dst
    &&& forall|k: int|
        0 <= k < es.len() ==> (#[trigger] es[k]).tier == ResolutionTier::Scip && es[k].confidence
            == Confidence::Extracted
}

proof fn lemma_refs_in_clean(
    nodes: Seq<NodeV>,
    ns: Seq<int>,
    defs: Seq<(Seq<char>, int)>,
    path: Seq<char>,
    occs: Seq<OccV>,
    es: Seq<EdgeV>,
)
    requires
        clean_edges(es),
    ensures
        clean_edges(refs_in(nodes, ns, defs, path, occs, es)),
    decreases occs.len(),
{
    if occs.len() > 0 {
        lemma_refs_in_clean(nodes, ns, defs, path, occs.drop_last(), es);
        let es1 = refs_in(nodes, ns, defs, path, occs.drop_last(), es);
        match ref_edge(nodes, ns, defs, path, occs.last()) {
            Some(e) => {
                if !has_edge_key(es1, e) {
                    let es2 = es1.push(e);
                    assert forall|a: int, b: int| 0 <= a < b < es2.len() implies !(es2[a].src == es2[b].src
                        && es2[a].dst == es2[b].dst && es2[a].relation == es2[b].relation) by {
                        if b == es1.len() {
                            assert(es2[a] == es1[a]);
                        }
                    }
                }
            },
            None => {},
        }
    }
}

proof fn lemma_ref_edges_clean(nodes: Seq<NodeV>, defs: Seq<(Seq<char>, int)>, docs: Seq<DocV>)
    ensures
        clean_edges(ref_edges(nodes, defs, docs)),
    decreases docs.len(),
{
    if docs.len() > 0 {
        lemma_ref_edges_clean(nodes, defs, docs.drop_last());
        let d = docs.last();
        let ns = nodes_of(nodes, d.path);
        if ns.len() > 0 {
            lemma_refs_in_clean(nodes, ns, defs, d.path, d.occs, ref_edges(nodes, defs, docs.drop_last()));
        }
    }
}

/// The precise edges of an index never repeat a (source, target, relation)
/// key, never join a node to itself, and are all of the SCIP tier with
/// extracted confidence.
pub proof fn law_scip_edges_clean(docs: Seq<DocV>, nodes: Seq<NodeV>)
    ensures
        clean_edges(scip_edges_spec(docs, nodes)),
{
    lemma_ref_edges_clean(nodes, symbol_defs(nodes, docs), docs);
}


/// A reference edge's relation fits its target's label: a call to a function
/// or method, a use of a class, interface, enum or type alias.
pub open spec fn relation_fits(rel: EdgeRelation, l: NodeLabel) -> bool {
    ||| rel == EdgeRelation::Calls && (l == NodeLabel::Function || l == NodeLabel::Method)
    ||| rel == EdgeRelation::UsesType && (l == NodeLabel::Class || l == NodeLabel::Interface || l == NodeLabel::Enum
        || l == NodeLabel::Type)
}

/// Edge `e` points at one of `nodes` whose label fits its relation.
pub open spec fn targets_fitting_node(nodes: Seq<NodeV>, e: EdgeV) -> bool {
    exists|d: int| 0 <= d < nodes.len() && (#[trigger] nodes[d]).id == e.dst && relation_fits(e.relation, nodes[d].label)
}

pub open spec fn idx_in(ns: Seq<int>, n: int) -> bool {
    forall|j: int| 0 <= j < ns.len() ==> 0 <= #[trigger] ns[j] < n
}

pub open spec fn defs_in_range(m: Seq<(Seq<char>, int)>, n: int) -> bool {
    forall|j: int| 0 <= j < m.len() ==> 0 <= (#[trigger] m[j]).1 < n
}

proof fn lemma_file_nodes_range(nodes: Seq<NodeV>, path: Seq<char>, k: int)
    requires
        0 <= k <= nodes.len(),
    ensures
        idx_in(file_nodes(nodes, path, k), nodes.len() as int),
    decreases k,
{
    if k > 0 {
        lemma_file_nodes_range(nodes, path, k - 1);
    }
}

proof fn lemma_exact_def_member(nodes: Seq<NodeV>, ns: Seq<int>, line: u32)
    ensures
        exact_def(nodes, ns, line) matches Some(x) ==> ns.contains(x),
    decreases ns.len(),
{
    if ns.len() > 0 {
        lemma_exact_def_member(nodes, ns.drop_first(), line);
        if let Some(x) = exact_def(nodes, ns.drop_first(), line) {
            if exact_def(nodes, ns, line) == Some(x) && ns[0] != x {
                let j = choose|j: int| 0 <= j < ns.drop_first().len() && ns.drop_first()[j] == x;
                assert(ns[j + 1] == x);
            }
        }
        assert(ns[0] == ns[0]);
    }
}

proof fn lemma_innermost_member(nodes: Seq<NodeV>, ns: Seq<int>, line: u32, callable: bool)
    ensures
        innermost(nodes, ns, line, callable) matches Some(x) ==> ns.contains(x),
    decreases ns.len(),
{
    if ns.len() > 0 {
        lemma_innermost_member(nodes, ns.drop_last(), line, callable);
        if let Some(x) = innermost(nodes, ns.drop_last(), line, callable) {
            let j = choose|j: int| 0 <= j < ns.drop_last().len() && ns.drop_last()[j] == x;
            assert(ns[j] == x);
        }
        assert(ns[ns.len() - 1] == ns.last());
    }
}

proof fn lemma_lookup_member(m: Seq<(Seq<char>, int)>, k: Seq<char>)
    ensures
        lookup(m, k) matches Some(v) ==> exists|j: int| 0 <= j < m.len() && (#[trigger] m[j]).1 == v,
    decreases m.len(),
{
    if m.len() > 0 {
        lemma_lookup_member(m.drop_first(), k);
        if m[0].0 != k {
            if let Some(v) = lookup(m.drop_first(), k) {
                let j = choose|j: int| 0 <= j < m.drop_first().len() && (#[trigger] m.drop_first()[j]).1 == v;
                assert(m[j + 1] == m.drop_first()[j]);
            }
        }
    }
}

proof fn lemma_defs_in_range(nodes: Seq<NodeV>, ns: Seq<int>, occs: Seq<OccV>, m: Seq<(Seq<char>, int)>)
    requires
        idx_in(ns, nodes.len() as int),
        defs_in_range(m, nodes.len() as int),
    ensures
        defs_in_range(defs_in(nodes, ns, occs, m), nodes.len() as int),
    decreases occs.len(),
{
    if occs.len() > 0 {
        lemma_defs_in_range(nodes, ns, occs.drop_last(), m);
        let o = occs.last();
        if is_def(o) && o.range.len() > 0 {
            let line = occ_line(o.range[0]);
            lemma_exact_def_member(nodes, ns, line);
            lemma_innermost_member(nodes, ns, line, false);
            if let Some(x) = best_def(nodes, ns, line) {
                assert(ns.contains(x));
                let m1 = defs_in(nodes, ns, occs.drop_last(), m);
                let m2 = m1.push((o.symbol, x));
                assert forall|j: int| 0 <= j < m2.len() implies 0 <= (#[trigger] m2[j]).1 < nodes.len() by {
                    if j < m1.len() {
                        assert(m2[j] == m1[j]);
                    }
                }
            }
        }
    }
}

proof fn lemma_symbol_defs_range(nodes: Seq<NodeV>, docs: Seq<DocV>)
    ensures
        defs_in_range(symbol_defs(nodes, docs), nodes.len() as int),
    decreases docs.len(),
{
    if docs.len() > 0 {
        lemma_symbol_defs_range(nodes, docs.drop_last());
        let d = docs.last();
        lemma_file_nodes_range(nodes, d.path, nodes.len() as int);
        if nodes_of(nodes, d.path).len() > 0 {
            lemma_defs_in_range(nodes, nodes_of(nodes, d.path), d.occs, symbol_defs(nodes, docs.drop_last()));
        }
    }
}

proof fn lemma_refs_in_fit(
    nodes: Seq<NodeV>,
    ns: Seq<int>,
    defs: Seq<(Seq<char>, int)>,
    path: Seq<char>,
    occs: Seq<OccV>,
    es: Seq<EdgeV>,
)
    requires
        defs_in_range(defs, nodes.len() as int),
        forall|k: int| 0 <= k < es.len() ==> targets_fitting_node(nodes, #[trigger] es[k]),
    ensures
        forall|k: int|
            0 <= k < refs_in(nodes, ns, defs, path, occs, es).len() ==> targets_fitting_node(
                nodes,
                #[trigger] refs_in(nodes, ns, defs, path, occs, es)[k],
            ),
    decreases occs.len(),
{
    if occs.len() > 0 {
        lemma_refs_in_fit(nodes, ns, defs, path, occs.drop_last(), es);
        let es1 = refs_in(nodes, ns, defs, path, occs.drop_last(), es);
        let o = occs.last();
        if let Some(e) = ref_edge(nodes, ns, defs, path, o) {
            if !has_edge_key(es1, e) {
                let dst = lookup(defs, o.symbol)->0;
                lemma_lookup_member(defs, o.symbol);
                let j = choose|j: int| 0 <= j < defs.len() && (#[trigger] defs[j]).1 == dst;
                assert(0 <= dst < nodes.len());
                assert(nodes[dst].id == e.dst);
                assert(targets_fitting_node(nodes, e));
                let es2 = es1.push(e);
                assert forall|k: int| 0 <= k < es2.len() implies targets_fitting_node(nodes, #[trigger] es2[k]) by {
                    if k < es1.len() {
                        assert(es2[k] == es1[k]);
                    }
                }
            }
        }
    }
}

proof fn lemma_ref_edges_fit(nodes: Seq<NodeV>, defs: Seq<(Seq<char>, int)>, docs: Seq<DocV>)
    requires
        defs_in_range(defs, nodes.len() as int),
    ensures
        forall|k: int|
            0 <= k < ref_edges(nodes, defs, docs).len() ==> targets_fitting_node(
                nodes,
                #[trigger] ref_edges(nodes, defs, docs)[k],
            ),
    decreases docs.len(),
{
    if docs.len() > 0 {
        lemma_ref_edges_fit(nodes, defs, docs.drop_last());
        let d = docs.last();
        if nodes_of(nodes, d.path).len() > 0 {
            lemma_refs_in_fit(nodes, nodes_of(nodes, d.path), defs, d.path, d.occs, ref_edges(nodes, defs, docs.drop_last()));
        }
    }
}

/// Law: every precise edge points at a parsed node, and is a CALLS edge
/// exactly when that node is a function or method and a USES_TYPE edge
/// exactly when it is a class, interface, enum or type alias.
pub proof fn law_scip_relation_fits_target(docs: Seq<DocV>, nodes: Seq<NodeV>)
    ensures
        forall|k: int|
            0 <= k < scip_edges_spec(docs, nodes).len() ==> targets_fitting_node(
                nodes,
                #[trigger] scip_edges_spec(docs, nodes)[k],
            ),
{
    lemma_symbol_defs_range(nodes, docs);
    lemma_ref_edges_fit(nodes, symbol_defs(nodes, docs), docs);
}


/// Law: a reference occurrence (not a definition) to a symbol defined at node
/// `dst`, inside the innermost function or method `src` spanning its line,
/// with `src` and `dst` distinct, gives an edge from `src` to `dst`: CALLS
/// for a function or method target, USES_TYPE for a class, interface, enum
/// or type alias; a target of any other kind gives none.
pub proof fn law_reference_edge(
    nodes: Seq<NodeV>,
    ns: Seq<int>,
    defs: Seq<(Seq<char>, int)>,
    path: Seq<char>,
    o: OccV,
    src: int,
    dst: int,
)
    requires
        !is_def(o),
        o.range.len() > 0,
        lookup(defs, o.symbol) == Some(dst),
        innermost(nodes, ns, occ_line(o.range[0]), true) == Some(src),
        nodes[src].id != nodes[dst].id,
    ensures
        ({
            let l = nodes[dst].label;
            &&& (l == NodeLabel::Function || l == NodeLabel::Method) ==> (ref_edge(nodes, ns, defs, path, o) matches Some(
                e,
            ) && e.src == nodes[src].id && e.dst == nodes[dst].id && e.relation == EdgeRelation::Calls)
            &&& (l == NodeLabel::Class || l == NodeLabel::Interface || l == NodeLabel::Enum || l == NodeLabel::Type)
                ==> (ref_edge(nodes, ns, defs, path, o) matches Some(e) && e.src == nodes[src].id && e.dst
                == nodes[dst].id && e.relation == EdgeRelation::UsesType)
            &&& !(l == NodeLabel::Function || l == NodeLabel::Method || l == NodeLabel::Class || l == NodeLabel::Interface
                || l == NodeLabel::Enum || l == NodeLabel::Type) ==> ref_edge(nodes, ns, defs, path, o) is None
        }),
{
}

} // verus!
