use zed_benchmark::edit::{
    AnnotatedTextEdit, Edit, Position, Range, SnippetTextEdit, StringValue, StringValueKind,
    TextEdit,
};
use zed_benchmark::snippet::Snippet;
use zed_benchmark::{bench_modified, bench_original, collect_edits_modified, collect_edits_original};

fn range(a: u32, b: u32) -> Range {
    Range::new(Position::new(a, 0), Position::new(b, u32::MAX))
}

fn plain(a: u32, b: u32, text: &str) -> Edit {
    Edit::Plain(TextEdit { range: range(a, b), new_text: text.to_string() })
}

fn annotated(a: u32, b: u32, text: &str) -> Edit {
    Edit::Annotated(AnnotatedTextEdit {
        text_edit: TextEdit { range: range(a, b), new_text: text.to_string() },
        annotation_id: "note".to_string(),
    })
}

fn snippet(a: u32, b: u32, text: &str) -> Edit {
    Edit::Snippet(SnippetTextEdit {
        range: range(a, b),
        snippet: StringValue { kind: StringValueKind::Snippet, value: text.to_string() },
        annotation_id: None,
    })
}

fn batch() -> Vec<(Edit, bool)> {
    vec![
        (plain(0, 1, "a"), false),
        (annotated(0, 1, "a"), true),
        (plain(2, 3, "b"), false),
        (snippet(4, 5, "x$1y"), false),
        (plain(4, 5, "xy"), false),
        (snippet(6, 7, "${1:z}"), true),
        (snippet(6, 7, "${1:z}"), true),
        (snippet(8, 9, "$"), true),
        (snippet(8, 9, "${1"), false),
    ]
}

#[test]
fn original_keeps_each_plain_edit_once_in_order() {
    let (edits, snippet_edits) = collect_edits_original(&batch());
    let texts: Vec<(Range, &str)> = edits.iter().map(|e| (e.range, e.new_text.as_str())).collect();
    assert_eq!(texts, vec![(range(0, 1), "a"), (range(2, 3), "b"), (range(4, 5), "xy")]);
    assert_eq!(snippet_edits.len(), 2);
    let z = Snippet::parse("${1:z}").unwrap();
    assert_eq!(snippet_edits[0], (range(6, 7), z.clone()));
    assert_eq!(snippet_edits[1], (range(6, 7), z));
}

#[test]
fn modified_holds_the_same_edits() {
    let (edits, snippet_edits) = collect_edits_modified(&batch());
    assert_eq!(edits.len(), 3);
    assert!(edits.contains(&TextEdit { range: range(0, 1), new_text: "a".to_string() }));
    assert!(edits.contains(&TextEdit { range: range(2, 3), new_text: "b".to_string() }));
    assert!(edits.contains(&TextEdit { range: range(4, 5), new_text: "xy".to_string() }));
    assert_eq!(snippet_edits.len(), 1);
    assert!(snippet_edits.contains(&(range(6, 7), Snippet::parse("${1:z}").unwrap())));
}

#[test]
fn both_collections_agree() {
    let b = batch();
    let (edits, snippet_edits) = collect_edits_original(&b);
    let (set, snippet_set) = collect_edits_modified(&b);
    assert_eq!(edits.len(), set.len());
    for e in &edits {
        assert!(set.contains(e));
    }
    for s in &snippet_edits {
        assert!(snippet_set.contains(s));
    }
    for s in &snippet_set {
        assert!(snippet_edits.contains(s));
    }
}

#[test]
fn empty_batch_gives_nothing() {
    let (edits, snippet_edits) = collect_edits_original(&Vec::new());
    assert!(edits.is_empty() && snippet_edits.is_empty());
    let (set, snippet_set) = collect_edits_modified(&Vec::new());
    assert!(set.is_empty() && snippet_set.is_empty());
}

#[test]
fn same_range_different_text_are_different_edits() {
    let b = vec![(plain(0, 1, "a"), false), (plain(0, 1, "b"), false)];
    assert_eq!(collect_edits_original(&b).0.len(), 2);
    assert_eq!(collect_edits_modified(&b).0.len(), 2);
}

#[test]
fn benches_run_over_every_batch() {
    bench_original(vec![batch(), Vec::new(), batch()]);
    bench_modified(vec![batch(), Vec::new(), batch()]);
}
