use codegraph::precise::import_scip;
use codegraph::types::{EdgeRelation, Metadata, Node, NodeLabel, ResolutionTier};
use protobuf::Message;
use scip::types::{Document, Index, Occurrence};

const ROLE_DEFINITION: i32 = 1;

fn node(id: &str, name: &str, label: NodeLabel, start: u32, end: u32) -> Node {
    Node {
        id: id.into(),
        label,
        name: name.into(),
        file_path: "a.ts".into(),
        line_start: start,
        line_end: end,
        language: "typescript".into(),
        metadata: Metadata::new(),
        community: None,
    }
}

fn occ(line: i32, symbol: &str, role: i32) -> Occurrence {
    let mut o = Occurrence::new();
    o.range = vec![line, 4, 9];
    o.symbol = symbol.into();
    o.symbol_roles = role;
    o
}

#[test]
fn resolves_reference_to_definition() {
    let mut doc = Document::new();
    doc.relative_path = "a.ts".into();
    doc.occurrences = vec![occ(0, "foo#", ROLE_DEFINITION), occ(4, "bar#", ROLE_DEFINITION), occ(5, "foo#", 0)];
    let mut index = Index::new();
    index.documents = vec![doc];
    let bytes = index.write_to_bytes().unwrap();
    let nodes = vec![node("a.ts.foo", "foo", NodeLabel::Function, 1, 3), node("a.ts.bar", "bar", NodeLabel::Function, 5, 8)];
    let edges = import_scip(&bytes, &nodes).unwrap();
    assert_eq!(edges.len(), 1);
    let e = &edges[0];
    assert_eq!(e.src, "a.ts.bar");
    assert_eq!(e.dst, "a.ts.foo");
    assert_eq!(e.relation, EdgeRelation::Calls);
    assert_eq!(e.tier, ResolutionTier::Scip);
}

#[test]
fn ignores_unmapped_files_and_symbols() {
    let mut doc = Document::new();
    doc.relative_path = "other.ts".into();
    doc.occurrences = vec![occ(0, "x#", ROLE_DEFINITION), occ(1, "x#", 0)];
    let mut index = Index::new();
    index.documents = vec![doc];
    let bytes = index.write_to_bytes().unwrap();
    let nodes = vec![node("a.ts.foo", "foo", NodeLabel::Function, 1, 3)];
    assert!(import_scip(&bytes, &nodes).unwrap().is_empty());
}

#[test]
fn reference_to_a_class_is_a_use() {
    let mut doc = Document::new();
    doc.relative_path = "a.ts".into();
    doc.occurrences = vec![occ(0, "Repo#", ROLE_DEFINITION), occ(5, "Repo#", 0)];
    let mut index = Index::new();
    index.documents = vec![doc];
    let bytes = index.write_to_bytes().unwrap();
    let nodes = vec![node("a.ts.Repo", "Repo", NodeLabel::Class, 1, 3), node("a.ts.run", "run", NodeLabel::Function, 5, 8)];
    let edges = import_scip(&bytes, &nodes).unwrap();
    assert_eq!(edges.len(), 1);
    assert_eq!(edges[0].relation, EdgeRelation::UsesType);
}

#[test]
fn garbage_bytes_are_an_error() {
    assert!(import_scip(&[0xff, 0xff, 0xff], &[]).is_err());
}
