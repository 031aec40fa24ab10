use codegraph::coverage::Coverage;
use codegraph::langs::{classify_receiver, has_implicit_member, is_http_method, normalize_path, rebinds_this, rust_label, ts_label};
use codegraph::precise::{edge_relation, is_definable};
use codegraph::qualname::QualifiedName;
use codegraph::types::{EdgeRelation, NodeLabel, Receiver};

#[test]
fn qualified_name_from_owned_parts() {
    let parts = vec!["src".to_string(), "lib.rs".to_string()];
    assert_eq!(QualifiedName::build_from("Proj", &parts, "Run"), "proj.src.lib_rs.run");
    assert_eq!(QualifiedName::build("p", &["__x__"], "n"), "p.x.n");
}

#[test]
fn coverage_notes() {
    let none = Coverage::callers("foo", 0, 0);
    assert_eq!(none.dropped, 0);
    assert!(!none.may_be_incomplete);
    let all = Coverage::callees(4, 4);
    assert_eq!(all.dropped, 0);
    assert_eq!(all.total_call_sites, 4);
    let some = Coverage::callees(1, 3);
    assert_eq!(some.dropped, 2);
    assert!(some.may_be_incomplete);
    let odd = Coverage::callers("x", 5, 3);
    assert_eq!(odd.dropped, 0);
}

#[test]
fn labels_and_helpers() {
    assert_eq!(rust_label("function_item"), Some(NodeLabel::Function));
    assert_eq!(rust_label("trait_item"), Some(NodeLabel::Interface));
    assert_eq!(rust_label("call_expression"), None);
    assert_eq!(ts_label("interface_declaration"), Some(NodeLabel::Interface));
    assert!(is_http_method("get"));
    assert!(is_http_method("Post"));
    assert!(!is_http_method("fetch"));
    assert_eq!(normalize_path("/users/:id"), "_users__id");
    assert!(matches!(classify_receiver("self"), Receiver::SelfThis));
    assert!(matches!(classify_receiver("this"), Receiver::SelfThis));
    assert!(matches!(classify_receiver("super"), Receiver::Super));
    assert!(matches!(classify_receiver(""), Receiver::Bare));
    assert!(matches!(classify_receiver("self.repo"), Receiver::Field(f) if f == "repo"));
    assert!(matches!(classify_receiver(" client "), Receiver::Named(n) if n == "client"));
    assert!(has_implicit_member("swift"));
    assert!(!has_implicit_member("rust"));
    assert!(rebinds_this("javascript", "function_expression"));
    assert!(!rebinds_this("javascript", "arrow_function"));
    assert!(!rebinds_this("rust", "function_expression"));
    assert_eq!(edge_relation(NodeLabel::Method), Some(EdgeRelation::Calls));
    assert_eq!(edge_relation(NodeLabel::File), None);
    assert!(is_definable(NodeLabel::Class));
    assert!(!is_definable(NodeLabel::File));
}
