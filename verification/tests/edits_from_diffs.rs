use zed_benchmark::benchmark_utils::{
    count_line_tokens, diff_blobs, entry_mode_is_plain_blob, hunk_edit, into_edits, join_line_range,
    parse_ir, split_lines, Change, EditChoice, Hunk, LineRange,
};
use zed_benchmark::edit::{Edit, Position, Range, StringValueKind};
use zed_benchmark::text::{chars_string, str_chars};

fn lines_of(s: &str) -> Vec<String> {
    split_lines(&str_chars(s)).iter().map(chars_string).collect()
}

fn modification(path: &str, before: u16, after: u16) -> Change {
    Change::Modification {
        location: path.as_bytes().to_vec(),
        previous_entry_mode: before,
        entry_mode: after,
    }
}

fn hunk(b0: u32, b1: u32, a0: u32, a1: u32) -> Hunk {
    Hunk { before: LineRange { start: b0, end: b1 }, after: LineRange { start: a0, end: a1 } }
}

#[test]
fn blob_modes() {
    assert!(entry_mode_is_plain_blob(0o100644));
    assert!(!entry_mode_is_plain_blob(0o100755));
    assert!(!entry_mode_is_plain_blob(0o120000));
    assert!(!entry_mode_is_plain_blob(0o040000));
    assert!(!entry_mode_is_plain_blob(0o160000));
}

#[test]
fn executable_files_are_left_out() {
    let changes = vec![modification("x.sh", 0o100755, 0o100755)];
    assert!(parse_ir(changes).is_empty());
    let changes = vec![
        modification("x.sh", 0o100755, 0o100755),
        modification("a.rs", 0o100644, 0o100644),
    ];
    assert_eq!(parse_ir(changes), vec![(b"a.rs".to_vec(), true)]);
}

#[test]
fn parse_ir_keeps_content_modifications_and_flags_the_first_path() {
    let changes = vec![
        Change::Addition,
        modification("link", 0o120000, 0o120000),
        modification("a.rs", 0o100644, 0o100644),
        modification("mode.rs", 0o100644, 0o100755),
        Change::Deletion,
        modification("run.sh", 0o100755, 0o100755),
        modification("b.rs", 0o100644, 0o100644),
        modification("a.rs", 0o100644, 0o100644),
        Change::Rewrite,
    ];
    let out = parse_ir(changes);
    assert_eq!(
        out,
        vec![(b"a.rs".to_vec(), true), (b"b.rs".to_vec(), false), (b"a.rs".to_vec(), true)]
    );
    assert!(parse_ir(vec![Change::Addition]).is_empty());
}

#[test]
fn lines_as_str_lines_gives_them() {
    for s in ["", "a", "a\n", "a\r\nb\n", "\n\n", "a\r", "a\rb\nc", "x\n\ny"] {
        let expected: Vec<String> = s.lines().map(str::to_string).collect();
        assert_eq!(lines_of(s), expected, "lines of {s:?}");
    }
}

#[test]
fn joined_line_ranges() {
    let ls = split_lines(&str_chars("l0\nl1\nl2\n"));
    assert_eq!(chars_string(&join_line_range(&ls, 1, 3)), "l1l2");
    assert_eq!(chars_string(&join_line_range(&ls, 0, 1)), "l0");
    assert_eq!(chars_string(&join_line_range(&ls, 2, 10)), "l2");
    assert_eq!(chars_string(&join_line_range(&ls, 2, 1)), "");
    assert_eq!(chars_string(&join_line_range(&ls, 5, 9)), "");
}

#[test]
fn edit_choices() {
    assert_eq!(EditChoice::new(0), Some(EditChoice::Plain));
    assert_eq!(EditChoice::new(1), Some(EditChoice::Annotated));
    assert_eq!(EditChoice::new(2), Some(EditChoice::Snippet));
    assert_eq!(EditChoice::new(3), None);
}

#[test]
fn edits_of_a_hunk() {
    let ls = split_lines(&str_chars("l0\nl1\nl2\n"));
    let h = hunk(1, 2, 1, 3);
    let range = Range::new(Position::new(1, 0), Position::new(3, u32::MAX));
    match hunk_edit(&ls, h, EditChoice::Plain) {
        Edit::Plain(t) => {
            assert_eq!(t.range, range);
            assert_eq!(t.new_text, "l1l2");
        }
        other => panic!("unexpected {other:?}"),
    }
    match hunk_edit(&ls, h, EditChoice::Annotated) {
        Edit::Annotated(a) => {
            assert_eq!(a.text_edit.range, range);
            assert_eq!(a.text_edit.new_text, "l1l2");
            assert_eq!(a.annotation_id, "");
        }
        other => panic!("unexpected {other:?}"),
    }
    match hunk_edit(&ls, h, EditChoice::Snippet) {
        Edit::Snippet(s) => {
            assert_eq!(s.range, range);
            assert_eq!(s.snippet.kind, StringValueKind::Snippet);
            assert_eq!(s.snippet.value, "l1l2");
            assert_eq!(s.annotation_id, None);
        }
        other => panic!("unexpected {other:?}"),
    }
}

#[test]
fn into_edits_keeps_files_and_flags() {
    let diff = vec![
        ("a\nb\nc\n".to_string(), vec![(hunk(0, 1, 0, 1), EditChoice::Plain), (hunk(2, 2, 2, 3), EditChoice::Snippet)], true),
        ("x\n".to_string(), vec![], false),
    ];
    let out = into_edits(diff);
    assert_eq!(out.len(), 2);
    assert!(out[0].1);
    assert!(!out[1].1);
    assert_eq!(out[0].0.len(), 2);
    assert!(out[1].0.is_empty());
    match &out[0].0[1] {
        Edit::Snippet(s) => assert_eq!(s.snippet.value, "c"),
        other => panic!("unexpected {other:?}"),
    }
}

#[test]
fn line_token_counts() {
    assert_eq!(count_line_tokens(""), 0);
    assert_eq!(count_line_tokens("a"), 1);
    assert_eq!(count_line_tokens("a\n"), 1);
    assert_eq!(count_line_tokens("a\nb"), 2);
    assert_eq!(count_line_tokens("\n\n"), 2);
}

#[test]
fn diff_of_two_revisions() {
    let blobs = vec![
        (b"a\nB\nc\n".to_vec(), b"a\nb\nc\n".to_vec(), true),
        (b"same\n".to_vec(), b"same\n".to_vec(), false),
        (b"one\ntwo\nthree\n".to_vec(), b"one\nthree\n".to_vec(), false),
    ];
    let out = diff_blobs(blobs).expect("small files can be diffed");
    assert_eq!(out.len(), 3);
    assert_eq!(out[0].0, "a\nB\nc\n");
    assert_eq!(out[0].1, vec![hunk(1, 2, 1, 2)]);
    assert!(out[0].2);
    assert!(out[1].1.is_empty());
    assert_eq!(out[2].1, vec![hunk(1, 1, 1, 2)]);
}

#[test]
fn invalid_utf8_is_replaced() {
    let out = diff_blobs(vec![(vec![b'a', 0xff, b'\n'], vec![b'a', b'\n'], false)]).unwrap();
    assert_eq!(out[0].0, "a\u{fffd}\n");
    assert_eq!(out[0].1, vec![hunk(0, 1, 0, 1)]);
}

#[test]
fn hunks_leave_the_other_lines_alone() {
    let head = "keep\nnew 1\nnew 2\nkeep too\nend\n";
    let rev = "keep\nold\nkeep too\nend\n";
    let out = diff_blobs(vec![(head.as_bytes().to_vec(), rev.as_bytes().to_vec(), true)]).unwrap();
    let hunks = &out[0].1;
    assert_eq!(hunks, &vec![hunk(1, 2, 1, 3)]);
    for h in hunks {
        assert!(h.before.start < h.before.end || h.after.start < h.after.end);
    }
}

#[test]
fn identical_revisions_give_no_hunk() {
    let text = b"fn main() {\n    println!(\"hi\");\n}\n\nlast line without newline".to_vec();
    let out = diff_blobs(vec![(text.clone(), text, false), (Vec::new(), Vec::new(), true)]).unwrap();
    assert!(out[0].1.is_empty());
    assert!(out[1].1.is_empty());
}
