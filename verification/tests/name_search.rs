use codegraph::search::{search_names, select_hits};
use codegraph::types::{Metadata, Node, NodeLabel};

fn named(name: &str) -> Node {
    Node {
        id: format!("p.{name}"),
        label: NodeLabel::Function,
        name: name.into(),
        file_path: "f.rs".into(),
        line_start: 1,
        line_end: 1,
        language: "rust".into(),
        metadata: Metadata::new(),
        community: None,
    }
}

fn names(v: &[Node]) -> Vec<&str> {
    v.iter().map(|n| n.name.as_str()).collect()
}

#[test]
fn select_hits_keeps_order_and_limit() {
    let nodes = vec![named("a"), named(""), named("b"), named("c"), named("d")];
    let hit = vec![true, true, false, true, true];
    assert_eq!(names(&select_hits(&nodes, &hit, 10)), vec!["a", "c", "d"]);
    assert_eq!(names(&select_hits(&nodes, &hit, 2)), vec!["a", "c"]);
    // a limit of zero still keeps the first hit
    assert_eq!(names(&select_hits(&nodes, &hit, 0)), vec!["a"]);
    assert!(select_hits(&nodes, &vec![false; 5], 3).is_empty());
}

#[test]
fn search_names_matches_anywhere_in_the_name() {
    let nodes = vec![named("load_graph"), named("GraphLoader"), named("save"), named("graphql"), named("")];
    let got = search_names("raph", &nodes, 20).unwrap();
    assert_eq!(names(&got), vec!["load_graph", "GraphLoader", "graphql"]);
    let anchored = search_names("^graph", &nodes, 20).unwrap();
    assert_eq!(names(&anchored), vec!["graphql"]);
    let alt = search_names("save|Loader", &nodes, 1).unwrap();
    assert_eq!(names(&alt), vec!["GraphLoader"]);
    // the empty pattern matches every named node, never the unnamed one
    assert_eq!(search_names("", &nodes, 20).unwrap().len(), 4);
}

#[test]
fn search_names_reports_a_bad_pattern() {
    let err = search_names("(unclosed", &[named("x")].to_vec(), 5).unwrap_err();
    assert!(err.starts_with("bad regex: "), "{err}");
    assert!(err.len() > "bad regex: ".len());
}
