//! Making batches of edits out of the changes between two revisions of a
//! repository: which changed files to use, the line diff of each, and an
//! edit for each changed hunk.
use gix::bstr::BStr;
use imara_diff::{Algorithm, Diff, InternedInput};
use vstd::prelude::*;
use vstd::utf8::{decode_utf8, valid_utf8};

use crate::edit::{
    AnnotatedTextEdit, Edit, Position, Range, SnippetTextEdit, StringValue, StringValueKind,
    TextEdit,
};
use crate::text::{bytes_eq, chars_string, copy_bytes, str_chars};

verus! {

// ---------------------------------------------------------------------------
// Choosing the changed files.
// ---------------------------------------------------------------------------

/// What the selection of files reads of a change between two trees: its kind
/// and, for a modification, the path and the entry modes (as git writes
/// them, e.g. `0o100644`) before and after.
#[derive(Clone, Debug, PartialEq, Eq)]
pub enum Change {
    Addition,
    Deletion,
    Modification { location: Vec<u8>, previous_entry_mode: u16, entry_mode: u16 },
    Rewrite,
}

/// Whether an entry mode is that of a regular, non-executable file: a blob
/// without the owner's execute bit (the kind `EntryKind::Blob` of `gix`,
/// as `EntryMode::kind` decides on the mode's value).
pub open spec fn mode_is_plain_blob(mode: u16) -> bool {
    mode & 0o170000u16 == 0o100000u16 && mode & 0o000100u16 == 0u16
}

/// Whether an entry mode is that of a regular, non-executable file.
pub fn entry_mode_is_plain_blob(mode: u16) -> (r: bool)
    ensures
        r == mode_is_plain_blob(mode),
{
    mode & 0o170000u16 == 0o100000u16 && mode & 0o000100u16 == 0u16
}

/// A modification that changes the content of a non-executable file and
/// nothing else: the entry stays a non-executable blob with the same mode.
/// Symbolic links, submodules, trees and executable files are left out.
pub open spec fn is_content_modification(c: Change) -> bool {
    match c {
        Change::Modification { previous_entry_mode, entry_mode, .. } => previous_entry_mode
            == entry_mode && mode_is_plain_blob(entry_mode),
        _ => false,
    }
}

pub open spec fn change_location(c: Change) -> Seq<u8> {
    match c {
        Change::Modification { location, .. } => location@,
        _ => Seq::empty(),
    }
}

/// One step of the selection: a content modification is kept; the first one
/// fixes the active entry, and every kept path is flagged as active exactly
/// when it is the active entry's path.
pub open spec fn ir_step(acc: (Seq<(Seq<u8>, bool)>, Option<Seq<u8>>), c: Change) -> (
    Seq<(Seq<u8>, bool)>,
    Option<Seq<u8>>,
) {
    if is_content_modification(c) {
        let loc = change_location(c);
        match acc.1 {
            None => (acc.0.push((loc, true)), Some(loc)),
            Some(active) => (acc.0.push((loc, active == loc)), acc.1),
        }
    } else {
        acc
    }
}

pub open spec fn ir_fold(changes: Seq<Change>) -> (Seq<(Seq<u8>, bool)>, Option<Seq<u8>>)
    decreases changes.len(),
{
    if changes.len() == 0 {
        (Seq::empty(), None)
    } else {
        ir_step(ir_fold(changes.drop_last()), changes.last())
    }
}

/// The files to edit, with whether each is the active entry.
pub open spec fn spec_parse_ir(changes: Seq<Change>) -> Seq<(Seq<u8>, bool)> {
    ir_fold(changes).0
}

pub open spec fn ir_view(v: Seq<(Vec<u8>, bool)>) -> Seq<(Seq<u8>, bool)> {
    v.map_values(|e: (Vec<u8>, bool)| (e.0@, e.1))
}

/// Keeps the content modifications of non-executable files among
/// `changes`, in order, each with
/// whether it is the active entry: the path of the first one.
pub fn parse_ir(changes: Vec<Change>) -> (r: Vec<(Vec<u8>, bool)>)
    ensures
        ir_view(r@) == spec_parse_ir(changes@),
{
    let mut output: Vec<(Vec<u8>, bool)> = Vec::new();
    let mut active_entry: Option<Vec<u8>> = None;
    let n = changes.len();
    for i in 0..n
        invariant
            n == changes@.len(),
            (ir_view(output@), match active_entry {
                Some(a) => Some(a@),
                None => None,
            }) == ir_fold(changes@.take(i as int)),
    {
        let ghost old_out = output@;
        assert(changes@.take(i + 1).drop_last() == changes@.take(i as int));
        match &changes[i] {
            Change::Modification { location, previous_entry_mode, entry_mode } => {
                if *previous_entry_mode == *entry_mode && entry_mode_is_plain_blob(*entry_mode) {
                    let flag = match &active_entry {
                        None => true,
                        Some(active) => bytes_eq(active, location),
                    };
                    if active_entry.is_none() {
                        active_entry = Some(copy_bytes(location));
                    }
                    output.push((copy_bytes(location), flag));
                    assert(ir_view(output@) =~= ir_view(old_out).push((location@, flag)));
                }
            },
            _ => {},
        }
    }
    assert(changes@.take(n as int) == changes@);
    output
}

/// The paths of the content modifications among `changes`, in order.
pub open spec fn content_modification_paths(changes: Seq<Change>) -> Seq<Seq<u8>>
    decreases changes.len(),
{
    if changes.len() == 0 {
        Seq::empty()
    } else if is_content_modification(changes.last()) {
        content_modification_paths(changes.drop_last()).push(change_location(changes.last()))
    } else {
        content_modification_paths(changes.drop_last())
    }
}

/// The selection keeps exactly the content modifications of non-executable
/// files, in order, and
/// flags as active exactly the entries whose path is that of the first one.
pub proof fn lemma_parse_ir_selection(changes: Seq<Change>)
    ensures
        spec_parse_ir(changes).len() == content_modification_paths(changes).len(),
        forall|i: int|
            0 <= i < spec_parse_ir(changes).len() ==> #[trigger] spec_parse_ir(changes)[i].0
                == content_modification_paths(changes)[i],
        forall|i: int|
            0 <= i < spec_parse_ir(changes).len() ==> #[trigger] spec_parse_ir(changes)[i].1 == (
            spec_parse_ir(changes)[i].0 == spec_parse_ir(changes)[0].0),
        ir_fold(changes).1 == (if spec_parse_ir(changes).len() == 0 {
            None
        } else {
            Some(spec_parse_ir(changes)[0].0)
        }),
    decreases changes.len(),
{
    if changes.len() > 0 {
        lemma_parse_ir_selection(changes.drop_last());
    }
}

/// `c` modifies the file at `loc` without changing its mode, and that mode is
/// the one of a regular file without the owner's execute bit.
pub open spec fn keeps_plain_file_mode(c: Change, loc: Seq<u8>) -> bool {
    match c {
        Change::Modification { location, previous_entry_mode, entry_mode } => {
            &&& location@ == loc
            &&& previous_entry_mode == entry_mode
            &&& entry_mode & 0o170000u16 == 0o100000u16
            &&& entry_mode & 0o000100u16 == 0u16
        },
        _ => false,
    }
}

/// Some change of `changes` modifies the regular, non-executable file at
/// `loc` and leaves its mode as it was.
pub open spec fn has_plain_source(changes: Seq<Change>, loc: Seq<u8>) -> bool {
    exists|j: int| 0 <= j < changes.len() && #[trigger] keeps_plain_file_mode(changes[j], loc)
}

/// Every path that the selection keeps is that of a change which modifies a
/// regular, non-executable file and leaves its mode as it was; and every
/// such change has its path kept. Changes of mode (a file made executable or
/// not, a link turned into a file), executables, links, submodules,
/// additions, deletions and rewrites are never kept.
pub proof fn lemma_parse_ir_sources(changes: Seq<Change>)
    ensures
        forall|i: int|
            0 <= i < spec_parse_ir(changes).len() ==> #[trigger] has_plain_source(
                changes,
                spec_parse_ir(changes)[i].0,
            ),
        forall|j: int, loc: Seq<u8>|
            0 <= j < changes.len() && #[trigger] keeps_plain_file_mode(changes[j], loc) ==> exists|
                i: int,
            |
                0 <= i < spec_parse_ir(changes).len() && #[trigger] spec_parse_ir(changes)[i].0
                    == loc,
    decreases changes.len(),
{
    if changes.len() > 0 {
        let rest = changes.drop_last();
        let c = changes.last();
        lemma_parse_ir_sources(rest);
        let out0 = spec_parse_ir(rest);
        let out = spec_parse_ir(changes);
        assert(is_content_modification(c) == keeps_plain_file_mode(c, change_location(c)));
        assert(ir_fold(changes) == ir_step(ir_fold(rest), c));
        if is_content_modification(c) {
            assert(out.len() == out0.len() + 1);
            assert(out[out0.len() as int].0 == change_location(c));
        } else {
            assert(out == out0);
        }
        assert(forall|i: int| 0 <= i < out0.len() ==> #[trigger] out[i] == out0[i]);
        assert forall|i: int| 0 <= i < out.len() implies #[trigger] has_plain_source(
            changes,
            out[i].0,
        ) by {
            if i < out0.len() {
                assert(has_plain_source(rest, out0[i].0));
                let j = choose|j: int|
                    0 <= j < rest.len() && #[trigger] keeps_plain_file_mode(rest[j], out0[i].0);
                assert(changes[j] == rest[j]);
                assert(out[i] == out0[i]);
                assert(keeps_plain_file_mode(changes[j], out[i].0));
            } else {
                assert(i == out0.len());
                assert(changes[changes.len() - 1] == c);
                assert(keeps_plain_file_mode(changes[changes.len() - 1], out[i].0));
            }
        }
        assert forall|j: int, loc: Seq<u8>|
            0 <= j < changes.len() && #[trigger] keeps_plain_file_mode(changes[j], loc) implies exists|
            i: int,
        | 0 <= i < out.len() && #[trigger] out[i].0 == loc by {
            if j < rest.len() {
                assert(rest[j] == changes[j]);
                let i = choose|i: int| 0 <= i < out0.len() && #[trigger] out0[i].0 == loc;
                assert(out[i].0 == loc);
            } else {
                assert(c == changes[j]);
                assert(loc == change_location(c));
                assert(out[out0.len() as int].0 == loc);
            }
        }
    } else {
        assert(spec_parse_ir(changes).len() == 0);
    }
}

// ---------------------------------------------------------------------------
// Lines of a text, as `str::lines` splits them.
// ---------------------------------------------------------------------------

/// The position of the first `'\n'` of `s` at or after `i`, or `s.len()`.
pub open spec fn first_newline(s: Seq<char>, i: int) -> int
    decreases s.len() - i,
{
    if 0 <= i < s.len() && s[i] != '\n' {
        first_newline(s, i + 1)
    } else {
        i
    }
}

/// `line` without one trailing `'\r'`.
pub open spec fn strip_cr(line: Seq<char>) -> Seq<char> {
    if line.len() > 0 && line.last() == '\r' {
        line.drop_last()
    } else {
        line
    }
}

/// The lines of `s`: the pieces between `'\n'`s, each without a `'\r'` just
/// before its `'\n'`; a final `'\n'` does not start an empty line.
pub open spec fn str_lines(s: Seq<char>) -> Seq<Seq<char>>
    decreases s.len(),
{
    if s.len() == 0 {
        Seq::empty()
    } else {
        let e = first_newline(s, 0);
        if 0 <= e < s.len() {
            seq![strip_cr(s.take(e))] + str_lines(s.skip(e + 1))
        } else {
            seq![s]
        }
    }
}

/// The lines `ls[start..end]` (clamped to the lines there are), joined
/// without separators.
pub open spec fn join_lines(ls: Seq<Seq<char>>, start: int, end: int) -> Seq<char>
    decreases end - start,
{
    if end <= start || start >= ls.len() {
        Seq::empty()
    } else if end > ls.len() {
        join_lines(ls, start, ls.len() as int)
    } else {
        join_lines(ls, start, end - 1) + ls[end - 1]
    }
}

/// Joining lines `start..end` gives the lines with an index from `start` up
/// to (not including) `end`, or up to the last line when `end` is past it,
/// one after the other: nothing when `end <= start` (a hunk that only
/// removes lines has no new text), and every character of those lines
/// exactly once, in order.
pub proof fn lemma_join_lines_concat(ls: Seq<Seq<char>>, start: int, end: int)
    requires
        0 <= start,
    ensures
        join_lines(ls, start, end) == if start < end && start < ls.len() {
            ls.subrange(start, if end < ls.len() {
                end
            } else {
                ls.len() as int
            }).flatten()
        } else {
            Seq::<char>::empty()
        },
    decreases end - start,
{
    if end <= start || start >= ls.len() {
    } else if end > ls.len() {
        lemma_join_lines_concat(ls, start, ls.len() as int);
    } else {
        let sub = ls.subrange(start, end);
        sub.lemma_flatten_and_flatten_alt_are_equivalent();
        if end - 1 > start {
            lemma_join_lines_concat(ls, start, end - 1);
            let sub1 = ls.subrange(start, end - 1);
            sub1.lemma_flatten_and_flatten_alt_are_equivalent();
            assert(sub.drop_last() =~= sub1);
        } else {
            assert(join_lines(ls, start, end - 1) == Seq::<char>::empty());
            assert(sub.drop_last() =~= Seq::<Seq<char>>::empty());
            assert(sub.drop_last().flatten_alt() == Seq::<char>::empty());
            assert(Seq::<char>::empty() + ls[end - 1] =~= ls[end - 1]);
        }
        assert(sub.last() == ls[end - 1]);
    }
}

pub open spec fn lines_view(v: Seq<Vec<char>>) -> Seq<Seq<char>> {
    v.map_values(|l: Vec<char>| l@)
}

proof fn lemma_first_newline(s: Seq<char>, i: int, k: int)
    requires
        0 <= i <= k < s.len(),
        s[k] == '\n',
        forall|j: int| i <= j < k ==> s[j] != '\n',
    ensures
        first_newline(s, i) == k,
    decreases k - i,
{
    if i < k {
        lemma_first_newline(s, i + 1, k);
    }
}

proof fn lemma_first_newline_none(s: Seq<char>, i: int)
    requires
        0 <= i <= s.len(),
        forall|j: int| i <= j < s.len() ==> s[j] != '\n',
    ensures
        first_newline(s, i) == s.len(),
    decreases s.len() - i,
{
    if i < s.len() {
        lemma_first_newline_none(s, i + 1);
    }
}

/// The lines of `s`.
pub fn split_lines(s: &Vec<char>) -> (r: Vec<Vec<char>>)
    ensures
        lines_view(r@) == str_lines(s@),
{
    let mut done: Vec<Vec<char>> = Vec::new();
    let mut cur: Vec<char> = Vec::new();
    let n = s.len();
    assert(lines_view(done@) + str_lines(cur@ + s@.skip(0)) =~= str_lines(s@)) by {
        assert(cur@ + s@.skip(0) =~= s@);
    }
    for i in 0..n
        invariant
            n == s@.len(),
            forall|j: int| 0 <= j < cur@.len() ==> cur@[j] != '\n',
            lines_view(done@) + str_lines(cur@ + s@.skip(i as int)) == str_lines(s@),
    {
        let c = s[i];
        let ghost rest = s@.skip(i + 1);
        assert(s@.skip(i as int) == seq![c] + rest);
        if c == '\n' {
            let ghost x = cur@ + s@.skip(i as int);
            let ghost line = strip_cr(cur@);
            proof {
                lemma_first_newline(x, 0, cur@.len() as int);
                assert(x.take(cur@.len() as int) =~= cur@);
                assert(x.skip(cur@.len() as int + 1) =~= rest);
                assert(str_lines(x) == seq![line] + str_lines(rest));
            }
            if cur.len() > 0 && cur[cur.len() - 1] == '\r' {
                cur.pop();
            }
            assert(cur@ =~= line);
            let ghost old_done = done@;
            done.push(cur);
            cur = Vec::new();
            assert(lines_view(done@) =~= lines_view(old_done).push(line));
            assert(cur@ + rest =~= rest);
            assert(lines_view(old_done).push(line) + str_lines(rest) =~= lines_view(old_done) + (
            seq![line] + str_lines(rest)));
        } else {
            let ghost old_cur = cur@;
            cur.push(c);
            assert(cur@ + rest =~= old_cur + s@.skip(i as int));
        }
    }
    proof {
        assert(cur@ + s@.skip(n as int) == cur@);
        if cur@.len() > 0 {
            lemma_first_newline_none(cur@, 0);
        }
    }
    if cur.len() > 0 {
        done.push(cur);
    }
    assert(lines_view(done@) =~= str_lines(s@));
    done
}

/// The lines `ls[start..end]`, joined (see `join_lines`).
pub fn join_line_range(ls: &Vec<Vec<char>>, start: u32, end: u32) -> (r: Vec<char>)
    ensures
        r@ == join_lines(lines_view(ls@), start as int, end as int),
{
    let ghost lv = lines_view(ls@);
    let n = ls.len();
    let e = if (end as usize) < n {
        end as usize
    } else {
        n
    };
    let mut out: Vec<char> = Vec::new();
    if (start as usize) < e {
        assert(join_lines(lv, start as int, end as int) == join_lines(lv, start as int, e as int));
        let mut i = start as usize;
        assert(out@ =~= join_lines(lv, start as int, i as int));
        while i < e
            invariant
                start <= i <= e <= n,
                n == ls@.len(),
                lv == lines_view(ls@),
                out@ == join_lines(lv, start as int, i as int),
            decreases e - i,
        {
            let line = &ls[i];
            let m = line.len();
            let ghost before = out@;
            for j in 0..m
                invariant
                    m == line@.len(),
                    out@ == before + line@.take(j as int),
            {
                out.push(line[j]);
                assert(line@.take(j + 1) == line@.take(j as int).push(line@[j as int]));
            }
            assert(line@.take(m as int) == line@);
            assert(lv[i as int] == line@);
            i = i + 1;
        }
        out
    } else {
        out
    }
}

/// Lines `start..end` of a file, as `imara_diff` numbers the lines of a
/// hunk.
#[derive(Clone, Copy, Debug, PartialEq, Eq, Hash, Structural)]
pub struct LineRange {
    pub start: u32,
    pub end: u32,
}

/// A changed hunk: the lines `before` of the old revision were replaced by
/// the lines `after` of the new one.
#[derive(Clone, Copy, Debug, PartialEq, Eq, Hash, Structural)]
pub struct Hunk {
    pub before: LineRange,
    pub after: LineRange,
}

/// Which kind of edit to make of a hunk.
#[derive(Clone, Copy, Debug, PartialEq, Eq, Structural)]
pub enum EditChoice {
    Plain,
    Annotated,
    Snippet,
}

impl EditChoice {
    /// The kind of edit that the number `input` stands for: `0`, `1` and `2`
    /// stand for a plain, an annotated and a snippet edit.
    pub fn new(input: usize) -> (r: Option<EditChoice>)
        ensures
            r == (if input == 0 {
                Some(EditChoice::Plain)
            } else if input == 1 {
                Some(EditChoice::Annotated)
            } else if input == 2 {
                Some(EditChoice::Snippet)
            } else {
                None
            }),
    {
        match input {
            0 => Some(EditChoice::Plain),
            1 => Some(EditChoice::Annotated),
            2 => Some(EditChoice::Snippet),
            _ => None,
        }
    }
}

/// The range that an edit made of a hunk replaces: from the start of the
/// hunk's first new line to the end of the line where the hunk ends.
pub open spec fn hunk_range(h: Hunk) -> Range {
    Range {
        start: Position { line: h.after.start, character: 0 },
        end: Position { line: h.after.end, character: u32::MAX },
    }
}

/// The text of an edit made of a hunk: the hunk's new lines, joined.
pub open spec fn hunk_text(lines: Seq<Seq<char>>, h: Hunk) -> Seq<char> {
    join_lines(lines, h.after.start as int, h.after.end as int)
}

/// `e` is the edit of kind `choice` made of hunk `h` of a file whose new
/// revision has the lines `lines`.
pub open spec fn is_hunk_edit(e: Edit, lines: Seq<Seq<char>>, h: Hunk, choice: EditChoice) -> bool {
    let range = hunk_range(h);
    let text = hunk_text(lines, h);
    match choice {
        EditChoice::Plain => e matches Edit::Plain(t) && t@.range == range && t@.new_text == text,
        EditChoice::Annotated => e matches Edit::Annotated(a) && a.text_edit@.range == range
            && a.text_edit@.new_text == text && a.annotation_id@ == Seq::<char>::empty(),
        EditChoice::Snippet => e matches Edit::Snippet(s) && s.range == range && s.snippet.kind
            == StringValueKind::Snippet && s.snippet.value@ == text && s.annotation_id is None,
    }
}

/// The edit of kind `choice` made of hunk `hunk` of a file whose new revision
/// has the lines `lines`.
pub fn hunk_edit(lines: &Vec<Vec<char>>, hunk: Hunk, choice: EditChoice) -> (r: Edit)
    ensures
        is_hunk_edit(r, lines_view(lines@), hunk, choice),
{
    let text = chars_string(&join_line_range(lines, hunk.after.start, hunk.after.end));
    let range = Range::new(
        Position::new(hunk.after.start, u32::MIN),
        Position::new(hunk.after.end, u32::MAX),
    );
    match choice {
        EditChoice::Plain => Edit::Plain(TextEdit { range, new_text: text }),
        EditChoice::Annotated => Edit::Annotated(
            AnnotatedTextEdit {
                text_edit: TextEdit { range, new_text: text },
                annotation_id: String::new(),
            },
        ),
        EditChoice::Snippet => Edit::Snippet(
            SnippetTextEdit {
                range,
                snippet: StringValue { kind: StringValueKind::Snippet, value: text },
                annotation_id: None,
            },
        ),
    }
}

/// `edits` are the edits made of `hunks`, one for each, in order, of a file
/// whose new revision is `head`.
pub open spec fn file_edits(edits: Seq<Edit>, head: Seq<char>, hunks: Seq<(Hunk, EditChoice)>) -> bool {
    &&& edits.len() == hunks.len()
    &&& forall|j: int|
        0 <= j < edits.len() ==> is_hunk_edit(
            #[trigger] edits[j],
            str_lines(head),
            hunks[j].0,
            hunks[j].1,
        )
}

/// Makes an edit of every hunk of every file: each file comes with the text
/// of its new revision, its hunks, each with the kind of edit to make of it,
/// and whether it is the active entry, which its edits keep.
pub fn into_edits(diff: Vec<(String, Vec<(Hunk, EditChoice)>, bool)>) -> (r: Vec<(Vec<Edit>, bool)>)
    ensures
        r@.len() == diff@.len(),
        forall|i: int|
            0 <= i < r@.len() ==> (#[trigger] r@[i]).1 == diff@[i].2 && file_edits(
                r@[i].0@,
                diff@[i].0@,
                diff@[i].1@,
            ),
{
    let mut container: Vec<(Vec<Edit>, bool)> = Vec::new();
    let n = diff.len();
    for i in 0..n
        invariant
            n == diff@.len(),
            container@.len() == i,
            forall|k: int|
                0 <= k < i ==> (#[trigger] container@[k]).1 == diff@[k].2 && file_edits(
                    container@[k].0@,
                    diff@[k].0@,
                    diff@[k].1@,
                ),
    {
        let head_string = &diff[i].0;
        let hunks = &diff[i].1;
        let lines = split_lines(&str_chars(head_string.as_str()));
        let mut edits: Vec<Edit> = Vec::new();
        let m = hunks.len();
        for j in 0..m
            invariant
                m == hunks@.len(),
                lines_view(lines@) == str_lines(head_string@),
                edits@.len() == j,
                forall|k: int|
                    0 <= k < j ==> is_hunk_edit(
                        #[trigger] edits@[k],
                        str_lines(head_string@),
                        hunks@[k].0,
                        hunks@[k].1,
                    ),
        {
            let (hunk, choice) = hunks[j];
            edits.push(hunk_edit(&lines, hunk, choice));
        }
        container.push((edits, diff[i].2));
    }
    container
}

// ---------------------------------------------------------------------------
// Line diffs of two revisions of a file.
// ---------------------------------------------------------------------------

/// The text that `bstr` makes of the bytes `bytes` when it displays them:
/// valid UTF-8 decoded, each invalid sequence replaced by U+FFFD.
pub uninterp spec fn lossy_utf8(bytes: Seq<u8>) -> Seq<char>;

/// `<BStr as Display>` through `to_string` (what `BString::to_string` does):
/// the text of `bytes`, decoded as UTF-8, with U+FFFD in place of invalid
/// sequences. The contract names the result and states that valid UTF-8 is
/// decoded as it is; how invalid sequences are split and replaced is not
/// stated.
#[verifier::external_body]
fn lossy_string(bytes: &Vec<u8>) -> (r: String)
    ensures
        r@ == lossy_utf8(bytes@),
        valid_utf8(bytes@) ==> r@ == decode_utf8(bytes@),
{
    BStr::new(bytes.as_slice()).to_string()
}

/// The hunks that `imara_diff` finds between the lines of `before` and those
/// of `after` with the histogram algorithm and its line postprocessing.
pub uninterp spec fn line_diff_hunks(before: Seq<char>, after: Seq<char>) -> Seq<Hunk>;

/// The lines that `imara_diff::sources::lines` cuts `s` into: each ends
/// with its `'\n'`, which it keeps; a last line without one is a line too.
pub open spec fn line_tokens(s: Seq<char>) -> Seq<Seq<char>>
    decreases s.len(),
{
    if s.len() == 0 {
        Seq::empty()
    } else {
        let e = first_newline(s, 0);
        if 0 <= e < s.len() {
            seq![s.take(e + 1)] + line_tokens(s.skip(e + 1))
        } else {
            seq![s]
        }
    }
}

/// The number of lines that `imara_diff` cuts `s` into.
pub open spec fn line_token_count(s: Seq<char>) -> nat {
    line_tokens(s).len()
}

/// The number of `'\n'` in `s`.
pub open spec fn newline_count(s: Seq<char>) -> nat
    decreases s.len(),
{
    if s.len() == 0 {
        0
    } else {
        newline_count(s.drop_last()) + if s.last() == '\n' {
            1nat
        } else {
            0nat
        }
    }
}

// Where the `i`-th stretch of unchanged lines begins and ends: before the
// first hunk, between two hunks, or after the last one.
pub open spec fn gap_before_start(hs: Seq<Hunk>, i: int) -> int {
    if i == 0 {
        0
    } else {
        hs[i - 1].before.end as int
    }
}

pub open spec fn gap_before_end(hs: Seq<Hunk>, i: int, n: int) -> int {
    if i == hs.len() {
        n
    } else {
        hs[i].before.start as int
    }
}

pub open spec fn gap_after_start(hs: Seq<Hunk>, i: int) -> int {
    if i == 0 {
        0
    } else {
        hs[i - 1].after.end as int
    }
}

pub open spec fn gap_after_end(hs: Seq<Hunk>, i: int, n: int) -> int {
    if i == hs.len() {
        n
    } else {
        hs[i].after.start as int
    }
}

/// The `i`-th stretch of lines outside the hunks is the same in both files:
/// as long, and line for line equal.
pub open spec fn gap_unchanged(bt: Seq<Seq<char>>, at: Seq<Seq<char>>, hs: Seq<Hunk>, i: int) -> bool {
    let b0 = gap_before_start(hs, i);
    let b1 = gap_before_end(hs, i, bt.len() as int);
    let a0 = gap_after_start(hs, i);
    let a1 = gap_after_end(hs, i, at.len() as int);
    &&& b1 - b0 == a1 - a0
    &&& forall|j: int| b0 <= j < b1 ==> #[trigger] bt[j] == at[j - b0 + a0]
}

/// `hs` is an edit script that turns the lines `bt` into the lines `at`:
/// its hunks are non-empty ranges of lines in both files, in order and
/// apart, and outside them both files have the same lines in the same
/// order; so replacing the `before` lines of each hunk by its `after` lines
/// turns `bt` into `at`.
pub open spec fn is_line_diff(bt: Seq<Seq<char>>, at: Seq<Seq<char>>, hs: Seq<Hunk>) -> bool {
    &&& forall|i: int|
        0 <= i < hs.len() ==> {
            &&& #[trigger] hs[i].before.start <= hs[i].before.end <= bt.len()
            &&& hs[i].after.start <= hs[i].after.end <= at.len()
            &&& (hs[i].before.start < hs[i].before.end || hs[i].after.start < hs[i].after.end)
        }
    &&& forall|i: int|
        0 <= i < hs.len() - 1 ==> #[trigger] hs[i].before.end < hs[i + 1].before.start
            && hs[i].after.end < hs[i + 1].after.start
    &&& forall|i: int| 0 <= i <= hs.len() ==> #[trigger] gap_unchanged(bt, at, hs, i)
}

/// `imara_diff` computes a line diff: `InternedInput::new` over
/// `imara_diff::sources::lines` of both texts, `Diff::compute` with
/// `Algorithm::Histogram`, `Diff::postprocess_lines`, and `Diff::hunks`,
/// each hunk taken as its two line ranges. These calls make one computation
/// whose result depends on the two texts alone; the contract names it and
/// states what the documentation of `Diff::compute` (an edit script that
/// transforms `before` into `after`), `Hunk` and `HunkIter` promise: the
/// hunks are non-empty, in order and apart, and the lines outside them are
/// the same in both texts; equal texts give no hunk (`compute_with` strips
/// the common prefix, which is then all of both). Which of the possible
/// edit scripts the histogram algorithm and the postprocessing pick is not
/// stated. `Diff::compute` asserts that each text has fewer than `i32::MAX`
/// lines.
#[verifier::external_body]
fn histogram_line_diff(before: &str, after: &str) -> (r: Vec<Hunk>)
    requires
        line_token_count(before@) < i32::MAX,
        line_token_count(after@) < i32::MAX,
    ensures
        r@ == line_diff_hunks(before@, after@),
        is_line_diff(line_tokens(before@), line_tokens(after@), r@),
        before@ == after@ ==> r@.len() == 0,
{
    let input = InternedInput::new(
        imara_diff::sources::lines(before),
        imara_diff::sources::lines(after),
    );
    let mut diff = Diff::compute(Algorithm::Histogram, &input);
    diff.postprocess_lines(&input);
    diff.hunks().map(
        |h|
            Hunk {
                before: LineRange { start: h.before.start, end: h.before.end },
                after: LineRange { start: h.after.start, end: h.after.end },
            },
    ).collect()
}

proof fn lemma_newline_count_le(s: Seq<char>)
    ensures
        newline_count(s) <= s.len(),
    decreases s.len(),
{
    if s.len() > 0 {
        lemma_newline_count_le(s.drop_last());
    }
}

proof fn lemma_newline_count_concat(a: Seq<char>, b: Seq<char>)
    ensures
        newline_count(a + b) == newline_count(a) + newline_count(b),
    decreases b.len(),
{
    if b.len() == 0 {
        assert(a + b =~= a);
    } else {
        assert((a + b).drop_last() =~= a + b.drop_last());
        lemma_newline_count_concat(a, b.drop_last());
    }
}

proof fn lemma_newline_count_none(s: Seq<char>)
    requires
        forall|j: int| 0 <= j < s.len() ==> s[j] != '\n',
    ensures
        newline_count(s) == 0,
    decreases s.len(),
{
    if s.len() > 0 {
        lemma_newline_count_none(s.drop_last());
    }
}

proof fn lemma_first_newline_props(s: Seq<char>, i: int)
    requires
        0 <= i <= s.len(),
    ensures
        i <= first_newline(s, i) <= s.len(),
        forall|j: int| i <= j < first_newline(s, i) ==> s[j] != '\n',
        first_newline(s, i) < s.len() ==> s[first_newline(s, i)] == '\n',
    decreases s.len() - i,
{
    if i < s.len() && s[i] != '\n' {
        lemma_first_newline_props(s, i + 1);
    }
}

/// There is a line for each `'\n'`, and one more for a last line without one.
proof fn lemma_line_token_count(s: Seq<char>)
    ensures
        line_token_count(s) == newline_count(s) + if s.len() > 0 && s.last() != '\n' {
            1nat
        } else {
            0nat
        },
    decreases s.len(),
{
    if s.len() > 0 {
        lemma_first_newline_props(s, 0);
        let e = first_newline(s, 0);
        if e < s.len() {
            let head = s.take(e + 1);
            let rest = s.skip(e + 1);
            lemma_line_token_count(rest);
            assert(s =~= head + rest);
            lemma_newline_count_concat(head, rest);
            assert(head.drop_last() =~= s.take(e));
            lemma_newline_count_none(s.take(e));
            if rest.len() > 0 {
                assert(s.last() == rest.last());
            }
        } else {
            lemma_newline_count_none(s);
        }
    }
}

/// The number of lines that `imara_diff` cuts `s` into.
pub fn count_line_tokens(s: &str) -> (r: usize)
    ensures
        r == line_token_count(s@),
{
    let cs = str_chars(s);
    let n = cs.len();
    let mut count: usize = 0;
    for i in 0..n
        invariant
            n == cs@.len(),
            count <= i,
            count == newline_count(cs@.take(i as int)),
    {
        assert(cs@.take(i + 1).drop_last() == cs@.take(i as int));
        if cs[i] == '\n' {
            count = count + 1;
        }
    }
    assert(cs@.take(n as int) == cs@);
    proof {
        lemma_line_token_count(cs@);
    }
    if n > 0 {
        proof {
            lemma_newline_count_le(cs@.drop_last());
        }
    }
    if n > 0 && cs[n - 1] != '\n' {
        count + 1
    } else {
        count
    }
}

/// Both revisions of a file have fewer lines than `imara_diff` can diff.
pub open spec fn blob_fits(head: Seq<u8>, rev: Seq<u8>) -> bool {
    line_token_count(lossy_utf8(head)) < i32::MAX && line_token_count(lossy_utf8(rev)) < i32::MAX
}

/// Diffs the lines of two revisions of each file: for each, given the bytes
/// of its head revision, of its older revision, and whether it is the active
/// entry, gives the text of the head revision, the hunks that turn the lines
/// of the older revision into those of the head revision, and the flag.
/// A file whose two revisions are the same bytes gets no hunk. Gives `None`
/// when a file has too many lines to be diffed.
pub fn diff_blobs(blobs: Vec<(Vec<u8>, Vec<u8>, bool)>) -> (r: Option<
    Vec<(String, Vec<Hunk>, bool)>,
>)
    ensures
        r is Some <==> forall|i: int|
            0 <= i < blobs@.len() ==> blob_fits(#[trigger] blobs@[i].0@, blobs@[i].1@),
        r matches Some(v) ==> {
            &&& v@.len() == blobs@.len()
            &&& forall|i: int|
                0 <= i < v@.len() ==> {
                    &&& (#[trigger] v@[i]).0@ == lossy_utf8(blobs@[i].0@)
                    &&& v@[i].1@ == line_diff_hunks(
                        lossy_utf8(blobs@[i].1@),
                        lossy_utf8(blobs@[i].0@),
                    )
                    &&& is_line_diff(
                        line_tokens(lossy_utf8(blobs@[i].1@)),
                        line_tokens(lossy_utf8(blobs@[i].0@)),
                        v@[i].1@,
                    )
                    &&& blobs@[i].0@ == blobs@[i].1@ ==> v@[i].1@.len() == 0
                    &&& v@[i].2 == blobs@[i].2
                }
        },
{
    let mut container: Vec<(String, Vec<Hunk>, bool)> = Vec::new();
    let n = blobs.len();
    for i in 0..n
        invariant
            n == blobs@.len(),
            container@.len() == i,
            forall|k: int| 0 <= k < i ==> blob_fits(#[trigger] blobs@[k].0@, blobs@[k].1@),
            forall|k: int|
                0 <= k < i ==> {
                    &&& (#[trigger] container@[k]).0@ == lossy_utf8(blobs@[k].0@)
                    &&& container@[k].1@ == line_diff_hunks(
                        lossy_utf8(blobs@[k].1@),
                        lossy_utf8(blobs@[k].0@),
                    )
                    &&& is_line_diff(
                        line_tokens(lossy_utf8(blobs@[k].1@)),
                        line_tokens(lossy_utf8(blobs@[k].0@)),
                        container@[k].1@,
                    )
                    &&& blobs@[k].0@ == blobs@[k].1@ ==> container@[k].1@.len() == 0
                    &&& container@[k].2 == blobs@[k].2
                },
    {
        let head_string = lossy_string(&blobs[i].0);
        let rev_string = lossy_string(&blobs[i].1);
        if count_line_tokens(head_string.as_str()) >= 2147483647usize || count_line_tokens(
            rev_string.as_str(),
        ) >= 2147483647usize {
            assert(!blob_fits(blobs@[i as int].0@, blobs@[i as int].1@));
            return None;
        }
        let hunks = histogram_line_diff(rev_string.as_str(), head_string.as_str());
        container.push((head_string, hunks, blobs[i].2));
    }
    Some(container)
}

} // verus!
