use codegraph::edges::build;
use codegraph::loaded::LoadedGraph;
use codegraph::parse::{parse_rust, parse_ts};
use codegraph::types::{Confidence, Edge, EdgeRelation, Metadata, Node, NodeLabel, ResolutionTier};

#[test]
fn structural_and_call_edges() {
    let pf = parse_rust("proj", "src/main.rs", "fn helper() {}\nfn main() { helper(); helper(); }\n");
    let built = build(&pf.nodes, &pf.calls, &pf.inherits);
    let calls: Vec<_> = built.edges.iter().filter(|e| e.relation == EdgeRelation::Calls).collect();
    assert_eq!(calls.len(), 1, "duplicate calls should dedupe to one edge");
    assert!(calls[0].src.ends_with("main") && calls[0].dst.ends_with("helper"));
    assert!(built.edges.iter().any(|e| e.relation == EdgeRelation::Defines));
    assert_eq!(built.graph.node_count(), pf.nodes.len());
}

#[test]
fn implements_hyperedge_materializes() {
    let pf = parse_ts("p", "a.ts", "interface Repo {}\nclass SqlRepo implements Repo {}\nclass MemRepo implements Repo {}\n");
    let built = build(&pf.nodes, &pf.calls, &pf.inherits);
    assert!(built.edges.iter().any(|e| e.relation == EdgeRelation::Implements));
    let he = built.hyperedges.iter().find(|(h, _)| h.label.contains("Repo")).expect("hyperedge");
    assert_eq!(he.1.len(), 3);
}

#[test]
fn cross_file_unique_name_resolves() {
    let mut pf = parse_rust("proj", "a.rs", "fn main() { ghost(); }\n");
    let other = parse_rust("proj", "b.rs", "fn ghost() {}\n");
    pf.nodes.extend(other.nodes);
    pf.calls.extend(other.calls);
    let built = build(&pf.nodes, &pf.calls, &pf.inherits);
    assert!(built
        .edges
        .iter()
        .any(|e| e.relation == EdgeRelation::Calls && e.src.ends_with(".main") && e.dst.ends_with(".ghost")));
}

#[test]
fn ambiguous_name_not_resolved_cross_file() {
    let mut a = parse_rust("proj", "a.rs", "fn dup() {}\n");
    let b = parse_rust("proj", "b.rs", "fn dup() {}\n");
    let c = parse_rust("proj", "c.rs", "fn caller() { dup(); }\n");
    a.nodes.extend(b.nodes);
    a.nodes.extend(c.nodes);
    a.calls.extend(c.calls);
    let built = build(&a.nodes, &a.calls, &a.inherits);
    assert!(!built.edges.iter().any(|e| e.relation == EdgeRelation::Calls));
}

fn fixture() -> (Vec<Node>, Vec<Edge>) {
    let pf = parse_rust("p", "src/lib.rs", "fn a() { b(); }\nfn b() { c(); }\nfn c() {}\nfn lonely() {}\n");
    let built = build(&pf.nodes, &pf.calls, &pf.inherits);
    (pf.nodes, built.edges)
}

#[test]
fn shortest_path_and_blast_radius() {
    let (nodes, edges) = fixture();
    let lg = LoadedGraph::load(&nodes, &edges);
    let a = nodes.iter().find(|n| n.name == "a").unwrap().id.clone();
    let c = nodes.iter().find(|n| n.name == "c").unwrap().id.clone();
    let path = lg.shortest_path(&a, &c).unwrap();
    assert_eq!(path.first().unwrap(), &a);
    assert_eq!(path.last().unwrap(), &c);
    let blast = lg.blast_radius(&c, 5);
    assert!(blast.iter().any(|id| id.ends_with(".b")));
    assert!(blast.iter().any(|id| id.ends_with(".a")));
}

#[test]
fn callees_and_pagerank() {
    let (nodes, edges) = fixture();
    let lg = LoadedGraph::load(&nodes, &edges);
    let a = nodes.iter().find(|n| n.name == "a").unwrap().id.clone();
    let callees = lg.callees(&a);
    assert!(callees.iter().any(|id| id.ends_with(".b")));
}

#[test]
fn blast_radius_respects_depth_and_excludes_target() {
    let (nodes, edges) = fixture();
    let lg = LoadedGraph::load(&nodes, &edges);
    let c = nodes.iter().find(|n| n.name == "c").unwrap().id.clone();
    let one = lg.blast_radius(&c, 1);
    assert!(one.iter().any(|id| id.ends_with(".b")));
    assert!(!one.iter().any(|id| id.ends_with(".a")), "a is two calls away");
    assert!(!one.contains(&c));
    assert!(lg.blast_radius("no.such.id", 5).is_empty());
}

#[test]
fn no_path_between_unconnected_symbols() {
    let (nodes, edges) = fixture();
    let lg = LoadedGraph::load(&nodes, &edges);
    let a = nodes.iter().find(|n| n.name == "a").unwrap().id.clone();
    let lonely = nodes.iter().find(|n| n.name == "lonely").unwrap().id.clone();
    assert!(lg.shortest_path(&lonely, &a).is_none());
    assert_eq!(lg.shortest_path(&a, &a), Some(vec![a.clone()]));
    assert!(lg.callees("no.such.id").is_empty());
}

#[test]
fn unique_name_in_another_language_is_not_linked() {
    let mut pf = parse_rust("proj", "a.rs", "fn main() { ghost(); }\n");
    let other = codegraph::parse::parse_python("proj", "b.py", "def ghost():\n    pass\n");
    pf.nodes.extend(other.nodes);
    let built = build(&pf.nodes, &pf.calls, &pf.inherits);
    assert!(!built.edges.iter().any(|e| e.relation == EdgeRelation::Calls));
}

#[test]
fn in_file_definition_wins_over_other_files() {
    let mut pf = parse_rust("proj", "a.rs", "fn helper() {}\nfn main() { helper(); }\n");
    let other = parse_rust("proj", "b.rs", "fn helper() {}\n");
    pf.nodes.extend(other.nodes);
    let built = build(&pf.nodes, &pf.calls, &pf.inherits);
    let calls: Vec<&Edge> = built.edges.iter().filter(|e| e.relation == EdgeRelation::Calls).collect();
    assert_eq!(calls.len(), 1);
    assert!(calls[0].dst.starts_with("proj.a_rs") || calls[0].dst.contains("a_rs"), "{}", calls[0].dst);
}

fn bare_node(id: &str) -> Node {
    Node {
        id: id.into(),
        label: NodeLabel::Function,
        name: id.into(),
        file_path: "f.rs".into(),
        line_start: 1,
        line_end: 1,
        language: "rust".into(),
        metadata: Metadata::new(),
        community: None,
    }
}

fn call_edge(src: &str, dst: &str) -> Edge {
    Edge {
        src: src.into(),
        dst: dst.into(),
        relation: EdgeRelation::Calls,
        tier: ResolutionTier::TreeSitter,
        confidence: Confidence::Inferred,
        src_file: "f.rs".into(),
        src_line: 1,
        metadata: Metadata::new(),
    }
}

#[test]
fn blast_radius_lists_levels_in_discovery_order() {
    let nodes = vec![bare_node("t"), bare_node("x"), bare_node("y"), bare_node("z")];
    let edges = vec![call_edge("x", "t"), call_edge("y", "t"), call_edge("z", "x")];
    let lg = LoadedGraph::load(&nodes, &edges);
    assert_eq!(lg.blast_radius("t", 5), vec!["y".to_string(), "x".to_string(), "z".to_string()]);
    assert_eq!(lg.blast_radius("t", 1), vec!["y".to_string(), "x".to_string()]);
    assert!(lg.blast_radius("t", 0).is_empty());
}
