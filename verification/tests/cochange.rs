use codegraph::cochange::cochange_pairs;

#[test]
fn pairs_seen_twice_are_kept_and_ordered() {
    let log = "\0\nb.rs\na.rs\n\n\0\na.rs\nb.rs\nc.rs\n\0\nc.rs\n\0\n  a.rs  \r\nc.rs\n";
    let pairs = cochange_pairs(log);
    assert_eq!(
        pairs,
        vec![("a.rs".to_string(), "b.rs".to_string(), 2), ("a.rs".to_string(), "c.rs".to_string(), 2)]
    );
}

#[test]
fn mega_commits_are_skipped() {
    let files: Vec<String> = (0..31).map(|i| format!("f{i}.rs")).collect();
    let block = files.join("\n");
    let log = format!("\0\n{block}\n\0\n{block}\n");
    assert!(cochange_pairs(&log).is_empty());
    let small: Vec<String> = (0..30).map(|i| format!("f{i}.rs")).collect();
    let sblock = small.join("\n");
    let slog = format!("\0\n{sblock}\n\0\n{sblock}\n");
    assert_eq!(cochange_pairs(&slog).len(), 30 * 29 / 2);
}

#[test]
fn most_frequent_first() {
    let log = "\0x\ny\n\0x\ny\n\0x\ny\n\0p\nq\n\0p\nq\n";
    let pairs = cochange_pairs(log);
    assert_eq!(pairs[0], ("x".to_string(), "y".to_string(), 3));
    assert_eq!(pairs[1], ("p".to_string(), "q".to_string(), 2));
    assert!(cochange_pairs("").is_empty());
}
