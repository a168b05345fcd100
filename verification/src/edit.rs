//! The text edits of the Language Server Protocol that the library works on.
use vstd::prelude::*;

use crate::snippet::SnippetView;

verus! {

/// A position in a text document: zero-based line and character offset.
#[derive(Clone, Copy, Debug, PartialEq, Eq, Hash, Structural)]
pub struct Position {
    pub line: u32,
    pub character: u32,
}

impl Position {
    pub fn new(line: u32, character: u32) -> (r: Position)
        ensures
            r == (Position { line, character }),
    {
        Position { line, character }
    }
}

/// A range in a text document, from `start` to the exclusive `end`.
#[derive(Clone, Copy, Debug, PartialEq, Eq, Hash, Structural)]
pub struct Range {
    pub start: Position,
    pub end: Position,
}

impl Range {
    pub fn new(start: Position, end: Position) -> (r: Range)
        ensures
            r == (Range { start, end }),
    {
        Range { start, end }
    }
}

/// Replaces the text in `range` by `new_text`.
#[derive(Clone, Debug, PartialEq, Eq, Hash)]
pub struct TextEdit {
    pub range: Range,
    pub new_text: String,
}

/// The mathematical value of a text edit.
pub struct TextEditView {
    pub range: Range,
    pub new_text: Seq<char>,
}

impl View for TextEdit {
    type V = TextEditView;

    open spec fn view(&self) -> TextEditView {
        TextEditView { range: self.range, new_text: self.new_text@ }
    }
}

/// A text edit with a change annotation.
#[derive(Clone, Debug, PartialEq, Eq)]
pub struct AnnotatedTextEdit {
    pub text_edit: TextEdit,
    pub annotation_id: String,
}

/// The kind of a string value; snippets are the only kind.
#[derive(Clone, Copy, Debug, PartialEq, Eq, Structural)]
pub enum StringValueKind {
    Snippet,
}

/// A string together with the syntax it is written in.
#[derive(Clone, Debug, PartialEq, Eq)]
pub struct StringValue {
    pub kind: StringValueKind,
    pub value: String,
}

/// An edit whose new text is a snippet.
#[derive(Clone, Debug, PartialEq, Eq)]
pub struct SnippetTextEdit {
    pub range: Range,
    pub snippet: StringValue,
    pub annotation_id: Option<String>,
}

/// One of the three kinds of edits that a language server can send.
#[derive(Clone, Debug, PartialEq, Eq)]
pub enum Edit {
    Plain(TextEdit),
    Annotated(AnnotatedTextEdit),
    Snippet(SnippetTextEdit),
}

/// The views of a sequence of text edits.
pub open spec fn text_edits_view(v: Seq<TextEdit>) -> Seq<TextEditView> {
    v.map_values(|e: TextEdit| e@)
}

/// A snippet edit to apply to a focused buffer: where, and what.
pub type SnippetEditView = (Range, SnippetView);

/// Whether two text edits are the same edit.
pub fn same_text_edit(a: &TextEdit, b: &TextEdit) -> (r: bool)
    ensures
        r == (a@ == b@),
{
    a.range == b.range && a.new_text == b.new_text
}

/// A copy of a text edit.
pub fn copy_text_edit(e: &TextEdit) -> (r: TextEdit)
    ensures
        r@ == e@,
{
    TextEdit { range: e.range, new_text: e.new_text.clone() }
}

/// Whether `v` holds an edit equal to `e`.
pub fn contains_text_edit(v: &Vec<TextEdit>, e: &TextEdit) -> (r: bool)
    ensures
        r == text_edits_view(v@).contains(e@),
{
    let n = v.len();
    for i in 0..n
        invariant
            n == v@.len(),
            forall|j: int| 0 <= j < i ==> text_edits_view(v@)[j] != e@,
    {
        if same_text_edit(&v[i], e) {
            assert(text_edits_view(v@)[i as int] == e@);
            return true;
        }
    }
    false
}

} // verus!
