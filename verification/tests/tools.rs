use codegraph::cli::{code_seeds, context_order, is_code_label, needs_fresh, project_path, take_within_budget, Command, ConfigAction};
use codegraph::mcp::{budget_pick, context_fts_query, find_named, mcp_ready, order_by_name, refresh_due};
use codegraph::search::fallback_query;
use codegraph::types::{Metadata, Node, NodeLabel};

fn node(id: &str, label: NodeLabel, name: &str, file: &str) -> Node {
    Node {
        id: id.into(),
        label,
        name: name.into(),
        file_path: file.into(),
        line_start: 1,
        line_end: 1,
        language: "rust".into(),
        metadata: Metadata::new(),
        community: None,
    }
}

#[test]
fn server_is_ready() {
    assert!(mcp_ready());
}

#[test]
fn context_query_keeps_alphanumeric_terms() {
    assert_eq!(context_fts_query("how does auth-flow work?"), "how* OR does* OR authflow* OR work*");
    assert_eq!(context_fts_query("a b x"), "a b x");
    assert_eq!(context_fts_query("  "), "  ");
    assert_eq!(context_fts_query("é login"), "é* OR login*");
}

#[test]
fn fallback_query_splits_identifiers() {
    assert_eq!(fallback_query("MealSenseCook"), "meal* OR sense* OR cook*");
    assert_eq!(fallback_query("get_user id"), "get* OR user* OR id*");
    assert_eq!(fallback_query("a b"), "");
    assert_eq!(fallback_query("Foo foo"), "Foo*");
}

#[test]
fn budget_pick_skips_files_and_stops_at_budget() {
    let nodes = vec![
        node("p.f", NodeLabel::File, "f.rs", "f.rs"),
        node("p.a", NodeLabel::Function, "alpha", "src/a.rs"),
        node("p.b", NodeLabel::Function, "beta", "src/b.rs"),
        node("p.c", NodeLabel::Function, "gamma", "src/c.rs"),
    ];
    // cost = (name bytes + file bytes) / 4 + 4: alpha 7, beta 7, gamma 7
    let ranked = vec!["p.f".to_string(), "p.x".to_string(), "p.a".to_string(), "p.b".to_string(), "p.c".to_string()];
    let (picks, used) = budget_pick(&ranked, &nodes, 15);
    assert_eq!(picks, vec![(2, 1), (3, 2)]);
    assert_eq!(used, 14);
    let (none, zero) = budget_pick(&ranked, &nodes, 6);
    assert!(none.is_empty());
    assert_eq!(zero, 0);
}

#[test]
fn find_named_takes_the_first() {
    let nodes = vec![node("p.a", NodeLabel::Function, "run", "a.rs"), node("p.b", NodeLabel::Function, "run", "b.rs")];
    assert_eq!(find_named(&nodes, "run"), Some(0));
    assert_eq!(find_named(&nodes, "walk"), None);
}

#[test]
fn commands_name_their_project() {
    let search = Command::Search { term: "x".into(), path: "repo".into(), limit: 20, rerank: false, regex: false };
    assert_eq!(project_path(&search), Some("repo".to_string()));
    assert!(needs_fresh(&search));
    let init = Command::Init {
        repo: "r".into(),
        yes: true,
        no_index: false,
        no_mcp: false,
        force: false,
        print: false,
        uninstall: false,
    };
    assert_eq!(project_path(&init), Some("r".to_string()));
    assert!(!needs_fresh(&init));
    let index = Command::Index { path: "p".into(), full: false, scip: None, indexstore: false };
    assert_eq!(project_path(&index), Some("p".to_string()));
    assert!(!needs_fresh(&index));
    assert_eq!(project_path(&Command::Status), None);
    assert_eq!(project_path(&Command::Config { action: Some(ConfigAction::Path) }), None);
    assert_eq!(project_path(&Command::Gc { ttl_days: None, all: false, dry_run: true }), None);
    assert!(needs_fresh(&Command::Context { query: "q".into(), path: ".".into(), budget: 10 }));
    assert!(!needs_fresh(&Command::Mcp { path: ".".into() }));
}

#[test]
fn cli_context_order_and_budget() {
    let labels = vec![NodeLabel::File, NodeLabel::Function, NodeLabel::Document, NodeLabel::Class, NodeLabel::Method];
    assert_eq!(code_seeds(&labels, 2), vec![1, 3]);
    assert_eq!(code_seeds(&labels, 12), vec![1, 3, 4]);
    assert!(is_code_label(NodeLabel::Type));
    assert!(!is_code_label(NodeLabel::Route));
    let seeds = vec!["b".to_string(), "x".to_string()];
    let ranked = vec!["a".to_string(), "b".to_string(), "c".to_string()];
    let order = context_order(&seeds, &ranked);
    assert_eq!(
        order,
        vec![("b".to_string(), true), ("x".to_string(), true), ("a".to_string(), false), ("c".to_string(), false)]
    );
    let costs = vec![Some(3), None, Some(4), Some(5), Some(1)];
    assert_eq!(take_within_budget(&costs, 8), (vec![0, 2], 7));
    assert_eq!(take_within_budget(&costs, 2), (vec![], 0));
    assert_eq!(take_within_budget(&costs, 100), (vec![0, 2, 3, 4], 13));
}

#[test]
fn refresh_due_debounces_to_once_a_second() {
    assert!(refresh_due(None));
    assert!(!refresh_due(Some(0)));
    assert!(!refresh_due(Some(1000)));
    assert!(refresh_due(Some(1001)));
}

#[test]
fn order_by_name_is_a_stable_sort_by_name() {
    let nodes = vec![
        node("r1", NodeLabel::Route, "POST /b", "a.py"),
        node("r2", NodeLabel::Route, "GET /a", "a.py"),
        node("r3", NodeLabel::Route, "POST /b", "b.py"),
        node("r4", NodeLabel::Route, "DELETE /z", "c.py"),
    ];
    let order = order_by_name(&nodes);
    assert_eq!(order, vec![3, 1, 0, 2]);
    let mut expected: Vec<&str> = nodes.iter().map(|n| n.id.as_str()).collect();
    expected.sort_by(|a, b| {
        let na = &nodes.iter().find(|n| n.id == *a).unwrap().name;
        let nb = &nodes.iter().find(|n| n.id == *b).unwrap().name;
        na.cmp(nb)
    });
    let got: Vec<&str> = order.iter().map(|&k| nodes[k].id.as_str()).collect();
    assert_eq!(got, expected);
    assert!(order_by_name(&Vec::new()).is_empty());
}
