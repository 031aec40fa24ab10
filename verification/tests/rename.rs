use codegraph::rename::{expected_refs, rename_verdict, spans_fit_text, splice_spans, RenameVerdict};
use codegraph::spans::identifier_spans;

#[test]
fn expected_refs_counts_the_definition_once() {
    assert_eq!(expected_refs(true, 2), 3);
    assert_eq!(expected_refs(false, 2), 2);
    assert_eq!(expected_refs(false, 0), 0);
}

#[test]
fn rename_refuses_ambiguous_names() {
    assert_eq!(rename_verdict(2, false, &vec![(1, 1)]), RenameVerdict::Ambiguous(2));
    assert_eq!(rename_verdict(0, true, &vec![]), RenameVerdict::Ambiguous(0));
}

#[test]
fn rename_refuses_unresolved_call_sites() {
    assert_eq!(rename_verdict(1, true, &vec![(1, 1)]), RenameVerdict::Unresolved);
}

#[test]
fn rename_refuses_unaccounted_occurrences() {
    let counts = vec![(2, 2), (0, 3), (1, 2), (4, 1)];
    assert_eq!(rename_verdict(1, false, &counts), RenameVerdict::Unaccounted(vec![2, 3]));
}

#[test]
fn rename_proceeds_over_files_with_occurrences() {
    let counts = vec![(2, 2), (0, 3), (1, 1)];
    assert_eq!(rename_verdict(1, false, &counts), RenameVerdict::Proceed(vec![0, 2]));
    assert_eq!(rename_verdict(1, false, &vec![]), RenameVerdict::Proceed(vec![]));
}

#[test]
fn splice_replaces_identifier_tokens_only() {
    let src = "fn foo() {}\nfn bar() { foo(); let s = \"foo\"; }\n// foo here\n";
    let spans = identifier_spans("a.rs", src, "foo");
    assert_eq!(spans.len(), 2);
    assert!(spans_fit_text(src, &spans));
    let out = splice_spans(src, &spans, "renamed");
    assert_eq!(out, "fn renamed() {}\nfn bar() { renamed(); let s = \"foo\"; }\n// foo here\n");
}

#[test]
fn splice_keeps_multibyte_text_around_spans() {
    let src = "é foo ü foo";
    // "é" is two bytes: the first `foo` starts at byte 3, the second at byte 10.
    let spans = vec![(3, 6, 1), (10, 13, 1)];
    assert!(spans_fit_text(src, &spans));
    assert_eq!(splice_spans(src, &spans, "x"), "é x ü x");
    assert_eq!(splice_spans(src, &vec![], "x"), src);
}

#[test]
fn spans_fit_rejects_bad_ranges() {
    let src = "é foo";
    assert!(!spans_fit_text(src, &vec![(1, 2, 1)]), "inside a two-byte character");
    assert!(!spans_fit_text(src, &vec![(4, 3, 1)]), "reversed range");
    assert!(!spans_fit_text(src, &vec![(3, 9, 1)]), "past the end");
    assert!(!spans_fit_text(src, &vec![(3, 5, 1), (4, 6, 1)]), "overlapping");
    assert!(spans_fit_text(src, &vec![(3, 4, 1), (4, 6, 1)]), "adjacent ranges fit");
}
