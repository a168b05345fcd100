//! Hash sets, with `rustc_hash`'s hasher, of text edits and of snippet edits.
use rustc_hash::{FxBuildHasher, FxHashSet};
use std::collections::HashSet;
use vstd::prelude::*;

use crate::edit::{Range, SnippetEditView, TextEdit, TextEditView};
use crate::snippet::Snippet;

verus! {

/// `rustc_hash::FxBuildHasher`, the hasher of `FxHashSet`.
#[verifier::external_type_specification]
#[verifier::external_body]
pub struct ExFxBuildHasher(FxBuildHasher);

/// The text edits that a set holds, by value.
pub uninterp spec fn text_edit_set_items(s: HashSet<TextEdit, FxBuildHasher>) -> Set<TextEditView>;

/// The snippet edits that a set holds, by value.
pub uninterp spec fn snippet_edit_set_items(s: HashSet<(Range, Snippet), FxBuildHasher>) -> Set<
    SnippetEditView,
>;

/// `FxHashSet::default()` (std's `HashSet::default` with `FxBuildHasher`):
/// an empty set.
#[verifier::external_body]
pub(crate) fn text_edit_set_new() -> (s: FxHashSet<TextEdit>)
    ensures
        text_edit_set_items(s) == Set::<TextEditView>::empty(),
{
    FxHashSet::default()
}

/// `HashSet::contains`: whether the set holds an edit equal to `e`. The
/// derived `Eq` and `Hash` of `TextEdit` compare and hash the range and the
/// characters of the new text, so equality is equality of views.
#[verifier::external_body]
pub(crate) fn text_edit_set_contains(s: &FxHashSet<TextEdit>, e: &TextEdit) -> (r: bool)
    ensures
        r == text_edit_set_items(*s).contains(e@),
{
    s.contains(e)
}

/// `HashSet::insert`: adds `e`, and tells whether no equal edit was there.
#[verifier::external_body]
pub(crate) fn text_edit_set_insert(s: &mut FxHashSet<TextEdit>, e: TextEdit) -> (r: bool)
    ensures
        text_edit_set_items(*final(s)) == text_edit_set_items(*old(s)).insert(e@),
        r == !text_edit_set_items(*old(s)).contains(e@),
{
    s.insert(e)
}

/// `FxHashSet::default()` (std's `HashSet::default` with `FxBuildHasher`):
/// an empty set.
#[verifier::external_body]
pub(crate) fn snippet_edit_set_new() -> (s: FxHashSet<(Range, Snippet)>)
    ensures
        snippet_edit_set_items(s) == Set::<SnippetEditView>::empty(),
{
    FxHashSet::default()
}

/// `HashSet::insert`: adds `e`, and tells whether no equal snippet edit was
/// there. The derived `Eq` and `Hash` of `Range` and `Snippet` compare and
/// hash every field, so equality is equality of views.
#[verifier::external_body]
pub(crate) fn snippet_edit_set_insert(s: &mut FxHashSet<(Range, Snippet)>, e: (Range, Snippet)) -> (r:
    bool)
    ensures
        snippet_edit_set_items(*final(s)) == snippet_edit_set_items(*old(s)).insert((e.0, e.1@)),
        r == !snippet_edit_set_items(*old(s)).contains((e.0, e.1@)),
{
    s.insert(e)
}

} // verus!
