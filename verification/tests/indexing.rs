use codegraph::indexing::{
    annotate_fan, cache_key, classify, content_unchanged, document_nodes, graph_current, is_stale_against, merge_precise,
    merge_scip_edges, sha256, stat_unchanged, vanished, ManifestEntry,
};
use codegraph::types::{Confidence, Edge, EdgeRelation, MetaValue, Metadata, Node, NodeLabel, ResolutionTier};

fn node(id: &str, name: &str) -> Node {
    Node {
        id: id.into(),
        label: NodeLabel::Function,
        name: name.into(),
        file_path: "f.rs".into(),
        line_start: 1,
        line_end: 2,
        language: "rust".into(),
        metadata: Metadata::new(),
        community: None,
    }
}

fn edge(src: &str, dst: &str, relation: EdgeRelation, tier: ResolutionTier) -> Edge {
    Edge {
        src: src.into(),
        dst: dst.into(),
        relation,
        tier,
        confidence: Confidence::Inferred,
        src_file: "f.rs".into(),
        src_line: 1,
        metadata: Metadata::new(),
    }
}

fn meta_count(n: &Node, key: &str) -> Option<u32> {
    n.metadata.entries.iter().find(|(k, _)| k == key).and_then(|(_, v)| match v {
        MetaValue::Count(c) => Some(*c),
        MetaValue::Text(_) => None,
    })
}

fn manifest(path: &str, sha: &str, mtime: i64) -> ManifestEntry {
    ManifestEntry { file_path: path.into(), sha256: sha.into(), mtime }
}

#[test]
fn classify_code_docs_and_skips() {
    assert_eq!(classify(false, "main.rs", Some(10)), Some(false));
    assert_eq!(classify(false, "README.md", None), Some(true));
    assert_eq!(classify(false, "Localizable.strings", Some(1)), Some(true));
    assert_eq!(classify(true, "src.rs", None), None);
    assert_eq!(classify(false, "bundle.js", Some(1_500_001)), None);
    assert_eq!(classify(false, "bundle.js", Some(1_500_000)), Some(false));
    assert_eq!(classify(false, "data.json", Some(1)), None);
    assert_eq!(classify(false, "Cargo.lock", Some(1)), None);
    assert_eq!(classify(false, "noext", Some(1)), None);
}

#[test]
fn staleness_detects_every_change_class() {
    let walked = vec![("a.py".to_string(), 5i64)];
    assert!(is_stale_against(&vec![], &walked), "never-indexed project is stale");
    assert!(!is_stale_against(&vec![("a.py".to_string(), 5)], &walked), "clean right after index");
    assert!(is_stale_against(&vec![("a.py".to_string(), 4)], &walked), "edit detected");
    let added = vec![("a.py".to_string(), 5i64), ("b.py".to_string(), 7i64)];
    assert!(is_stale_against(&vec![("a.py".to_string(), 5)], &added), "added file detected");
    assert!(is_stale_against(&vec![("a.py".to_string(), 5), ("b.py".to_string(), 7)], &walked), "deleted file detected");
}

#[test]
fn stat_and_content_fast_paths() {
    let m = Some(manifest("a.py", "abc", 9));
    assert!(stat_unchanged(false, &m, 9));
    assert!(!stat_unchanged(true, &m, 9));
    assert!(!stat_unchanged(false, &m, 8));
    assert!(!stat_unchanged(false, &Some(manifest("a.py", "abc", 0)), 0), "unknown mtime is never trusted");
    assert!(!stat_unchanged(false, &None, 9));
    assert!(content_unchanged(false, &m, "abc"));
    assert!(!content_unchanged(false, &m, "abd"));
    assert!(!content_unchanged(true, &m, "abc"));
    assert!(!content_unchanged(false, &None, "abc"));
}

#[test]
fn vanished_files_in_manifest_order() {
    let files = vec!["a".to_string(), "b".to_string(), "c".to_string()];
    let seen = vec!["c".to_string(), "a".to_string()];
    assert_eq!(vanished(&files, &seen), vec!["b".to_string()]);
    assert!(vanished(&files, &files).is_empty());
}

#[test]
fn graph_current_only_when_nothing_to_do() {
    assert!(graph_current(0, 0, false, false));
    assert!(!graph_current(1, 0, false, false));
    assert!(!graph_current(0, 1, false, false));
    assert!(!graph_current(0, 0, true, false));
    assert!(!graph_current(0, 0, false, true));
}

#[test]
fn precise_edges_supersede_built_ones() {
    let mut edges = vec![
        edge("a", "b", EdgeRelation::Calls, ResolutionTier::TreeSitter),
        edge("a", "c", EdgeRelation::Calls, ResolutionTier::TreeSitter),
    ];
    let precise = vec![edge("a", "b", EdgeRelation::Calls, ResolutionTier::Scip), edge("c", "d", EdgeRelation::Calls, ResolutionTier::Scip)];
    let n = merge_precise(&mut edges, precise);
    assert_eq!(n, 2);
    assert_eq!(edges.len(), 3);
    assert_eq!(edges.iter().filter(|e| e.src == "a" && e.dst == "b").count(), 1);
    assert!(edges.iter().any(|e| e.src == "a" && e.dst == "b" && e.tier == ResolutionTier::Scip));
    assert!(edges.iter().any(|e| e.src == "a" && e.dst == "c" && e.tier == ResolutionTier::TreeSitter));
}

#[test]
fn scip_merge_without_index_changes_nothing() {
    let mut edges = vec![edge("a", "b", EdgeRelation::Calls, ResolutionTier::TreeSitter)];
    assert_eq!(merge_scip_edges(None, &[node("a", "a")], &mut edges), 0);
    assert_eq!(merge_scip_edges(Some(&[0xff, 0xff, 0xff]), &[node("a", "a")], &mut edges), 0);
    assert_eq!(edges.len(), 1);
}

#[test]
fn fan_in_and_out_annotated() {
    let mut nodes = vec![node("p.a", "a"), node("p.b", "b"), node("p.c", "c")];
    let edges = vec![
        edge("p.a", "p.b", EdgeRelation::Calls, ResolutionTier::TreeSitter),
        edge("p.c", "p.b", EdgeRelation::Calls, ResolutionTier::TreeSitter),
        edge("p.a", "p.c", EdgeRelation::Defines, ResolutionTier::TreeSitter),
    ];
    annotate_fan(&mut nodes, &edges);
    assert_eq!(meta_count(&nodes[0], "fan_out"), Some(1));
    assert_eq!(meta_count(&nodes[0], "fan_in"), None);
    assert_eq!(meta_count(&nodes[1], "fan_in"), Some(2));
    assert_eq!(meta_count(&nodes[1], "fan_out"), None);
    assert_eq!(meta_count(&nodes[2], "fan_out"), Some(1));
    assert_eq!(nodes[1].name, "b");
}

#[test]
fn document_nodes_named_by_first_line() {
    let nodes = document_nodes("docs/guide.md", "md", "\n\n# Guide\n\nSome text.\n");
    assert_eq!(nodes.len(), 1);
    let n = &nodes[0];
    assert_eq!(n.id, "doc.docs_guide_md.0");
    assert_eq!(n.label, NodeLabel::Document);
    assert_eq!(n.name, "# Guide");
    assert_eq!(n.file_path, "docs/guide.md");
    assert_eq!(n.language, "md");
    assert!(document_nodes("a.md", "md", "   \n").is_empty());
}

#[test]
fn sha256_hex_and_cache_key() {
    assert_eq!(sha256(""), "e3b0c44298fc1c149afbf4c8996fb92427ae41e4649b934ca495991b7852b855");
    assert_eq!(sha256("abc"), "ba7816bf8f01cfea414140de5dae2223b00361a396177a9cb410ff61f20015ad");
    assert_eq!(cache_key("abc"), "ba7816bf8f01cfea");
}
