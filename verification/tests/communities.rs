use codegraph::communities::{community_summaries, sample_names, CommunitySummary};
use codegraph::registry::idle_label;
use codegraph::types::{Metadata, Node, NodeLabel};

fn member(name: &str, label: NodeLabel, community: Option<u32>) -> Node {
    Node {
        id: format!("id:{name}"),
        label,
        name: name.into(),
        file_path: "f.rs".into(),
        line_start: 1,
        line_end: 1,
        language: "rust".into(),
        metadata: Metadata::new(),
        community,
    }
}

fn names(v: &[&str]) -> Vec<String> {
    v.iter().map(|s| s.to_string()).collect()
}

#[test]
fn communities_listed_largest_first_then_by_id() {
    let nodes = vec![
        member("b", NodeLabel::Function, Some(7)),
        member("a", NodeLabel::Function, Some(7)),
        member("z", NodeLabel::Function, Some(3)),
        member("y", NodeLabel::Method, Some(3)),
        member("lib.rs", NodeLabel::File, Some(3)),
        member("lib.rs", NodeLabel::File, Some(3)),
        member("q", NodeLabel::Class, Some(9)),
        member("free", NodeLabel::Function, None),
    ];
    let got = community_summaries(&nodes, 10);
    assert_eq!(
        got,
        vec![
            CommunitySummary { id: 3, size: 2, sample: names(&["y", "z"]) },
            CommunitySummary { id: 7, size: 2, sample: names(&["a", "b"]) },
            CommunitySummary { id: 9, size: 1, sample: names(&["q"]) },
        ]
    );
    let top = community_summaries(&nodes, 2);
    assert_eq!(top.iter().map(|c| c.id).collect::<Vec<_>>(), vec![3, 7]);
    assert!(community_summaries(&nodes, 0).is_empty());
    assert!(community_summaries(&Vec::<Node>::new(), 5).is_empty());
}

#[test]
fn community_sample_is_sorted_distinct_and_capped() {
    let mut nodes = Vec::new();
    for n in ["k", "c", "a", "c", "j", "i", "h", "g", "f", "e", "d", "b", "a"] {
        nodes.push(member(n, NodeLabel::Function, Some(1)));
    }
    nodes.push(member("0", NodeLabel::Function, Some(2)));
    assert_eq!(sample_names(&nodes, 1), names(&["a", "b", "c", "d", "e", "f", "g", "h"]));
    assert_eq!(sample_names(&nodes, 2), names(&["0"]));
    assert!(sample_names(&nodes, 5).is_empty());
    let got = community_summaries(&nodes, 5);
    assert_eq!(got[0].size, 13);
    assert_eq!(got[1].id, 2);
}

#[test]
fn community_sample_follows_str_order() {
    let nodes = vec![
        member("éclair", NodeLabel::Function, Some(1)),
        member("Zeta", NodeLabel::Function, Some(1)),
        member("alpha", NodeLabel::Function, Some(1)),
        member("al", NodeLabel::Function, Some(1)),
    ];
    let mut expected: Vec<String> = nodes.iter().map(|n| n.name.clone()).collect();
    expected.sort();
    assert_eq!(sample_names(&nodes, 1), expected);
    assert_eq!(sample_names(&nodes, 1), names(&["Zeta", "al", "alpha", "éclair"]));
}

#[test]
fn idle_label_picks_the_unit() {
    assert_eq!(idle_label(0), "0m");
    assert_eq!(idle_label(59), "0m");
    assert_eq!(idle_label(3599), "59m");
    assert_eq!(idle_label(3600), "1h");
    assert_eq!(idle_label(86_399), "23h");
    assert_eq!(idle_label(86_400), "1d");
    assert_eq!(idle_label(10 * 86_400 + 5), "10d");
}
