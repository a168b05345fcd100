//! Processing of the text edits that a language server sends back to an
//! editor: deduplication of plain edits, parsing of snippet edits, and the
//! construction of such edits from line diffs of two revisions of a file.
//!
//! Two ways of collecting a batch of edits are offered, which compute the
//! same result: one keeps vectors and searches them linearly, the other keeps
//! hash sets.
use rustc_hash::FxHashSet;
use vstd::prelude::*;

pub mod benchmark_utils;
pub mod edit;
pub mod edit_set;
pub mod snippet;
pub mod text;

use crate::edit::{
    contains_text_edit, copy_text_edit, text_edits_view, Edit, Range, SnippetEditView, TextEdit,
    TextEditView,
};
use crate::edit_set::{
    snippet_edit_set_insert, snippet_edit_set_items, snippet_edit_set_new, text_edit_set_contains,
    text_edit_set_insert, text_edit_set_items, text_edit_set_new,
};
use crate::snippet::{spec_snippet_parse, Snippet, SnippetView};

verus! {

/// `s` with `e` added at the end, unless it holds `e` already.
pub open spec fn push_new(s: Seq<TextEditView>, e: TextEditView) -> Seq<TextEditView> {
    if s.contains(e) {
        s
    } else {
        s.push(e)
    }
}

/// What one edit of a batch contributes, in the vector-based collection:
/// plain and annotated edits are kept once each; a snippet edit that parses
/// is kept as a snippet edit when its buffer is the active one, and as a
/// plain edit of the snippet's text otherwise; a snippet that does not parse
/// is dropped.
pub open spec fn original_step(
    acc: (Seq<TextEditView>, Seq<SnippetEditView>),
    item: (Edit, bool),
) -> (Seq<TextEditView>, Seq<SnippetEditView>) {
    match item.0 {
        Edit::Plain(e) => (push_new(acc.0, e@), acc.1),
        Edit::Annotated(a) => (push_new(acc.0, a.text_edit@), acc.1),
        Edit::Snippet(s) => match spec_snippet_parse(s.snippet.value@) {
            Ok(sn) => if item.1 {
                (acc.0, acc.1.push((s.range, sn)))
            } else {
                (push_new(acc.0, TextEditView { range: s.range, new_text: sn.text }), acc.1)
            },
            Err(_) => acc,
        },
    }
}

/// The plain edits and the snippet edits that the vector-based collection
/// gathers from a batch.
pub open spec fn spec_original(batch: Seq<(Edit, bool)>) -> (
    Seq<TextEditView>,
    Seq<SnippetEditView>,
)
    decreases batch.len(),
{
    if batch.len() == 0 {
        (Seq::empty(), Seq::empty())
    } else {
        original_step(spec_original(batch.drop_last()), batch.last())
    }
}

/// What one edit of a batch contributes, in the set-based collection.
pub open spec fn modified_step(acc: (Set<TextEditView>, Set<SnippetEditView>), item: (Edit, bool)) -> (
    Set<TextEditView>,
    Set<SnippetEditView>,
) {
    match item.0 {
        Edit::Plain(e) => (acc.0.insert(e@), acc.1),
        Edit::Annotated(a) => (acc.0.insert(a.text_edit@), acc.1),
        Edit::Snippet(s) => match spec_snippet_parse(s.snippet.value@) {
            Ok(sn) => if item.1 {
                (acc.0, acc.1.insert((s.range, sn)))
            } else {
                (acc.0.insert(TextEditView { range: s.range, new_text: sn.text }), acc.1)
            },
            Err(_) => acc,
        },
    }
}

/// The plain edits and the snippet edits that the set-based collection
/// gathers from a batch.
pub open spec fn spec_modified(batch: Seq<(Edit, bool)>) -> (Set<TextEditView>, Set<SnippetEditView>)
    decreases batch.len(),
{
    if batch.len() == 0 {
        (Set::empty(), Set::empty())
    } else {
        modified_step(spec_modified(batch.drop_last()), batch.last())
    }
}

pub open spec fn snippet_edits_view(v: Seq<(Range, Snippet)>) -> Seq<SnippetEditView> {
    v.map_values(|e: (Range, Snippet)| (e.0, e.1@))
}

proof fn lemma_push_new(s: Seq<TextEditView>, e: TextEditView)
    requires
        s.no_duplicates(),
    ensures
        push_new(s, e).to_set() == s.to_set().insert(e),
        push_new(s, e).no_duplicates(),
{
    if s.contains(e) {
        assert(s.to_set().insert(e) =~= s.to_set());
    } else {
        s.lemma_push_to_set_commute(e);
        let t = s.push(e);
        assert forall|i: int, j: int| 0 <= i < t.len() && 0 <= j < t.len() && i != j implies t[i]
            != t[j] by {
            if i == s.len() {
                assert(t[j] == s[j]);
            } else if j == s.len() {
                assert(t[i] == s[i]);
            } else {
                assert(t[i] == s[i] && t[j] == s[j]);
            }
        }
    }
}

/// The two ways of collecting a batch agree: the set of plain edits holds
/// exactly the edits of the vector of plain edits, which holds each of them
/// once, and the set of snippet edits holds exactly the snippet edits of the
/// vector of snippet edits.
pub proof fn lemma_collections_agree(batch: Seq<(Edit, bool)>)
    ensures
        spec_modified(batch).0 == spec_original(batch).0.to_set(),
        spec_modified(batch).1 == spec_original(batch).1.to_set(),
        spec_original(batch).0.no_duplicates(),
    decreases batch.len(),
{
    if batch.len() == 0 {
        assert(Seq::<TextEditView>::empty().to_set() =~= Set::empty());
        assert(Seq::<SnippetEditView>::empty().to_set() =~= Set::empty());
    } else {
        let rest = batch.drop_last();
        lemma_collections_agree(rest);
        let o = spec_original(rest);
        let item = batch.last();
        match item.0 {
            Edit::Plain(e) => {
                lemma_push_new(o.0, e@);
            },
            Edit::Annotated(a) => {
                lemma_push_new(o.0, a.text_edit@);
            },
            Edit::Snippet(sn) => match spec_snippet_parse(sn.snippet.value@) {
                Ok(v) => if item.1 {
                    o.1.lemma_push_to_set_commute((sn.range, v));
                } else {
                    lemma_push_new(o.0, TextEditView { range: sn.range, new_text: v.text });
                },
                Err(_) => {},
            },
        }
    }
}

/// The plain edit that one item of a batch asks for: a plain edit itself,
/// the text edit of an annotated edit, or, for a snippet edit of a buffer
/// that is not focused, the plain edit of the snippet's text when it parses.
pub open spec fn item_text_edit(item: (Edit, bool)) -> Option<TextEditView> {
    match item.0 {
        Edit::Plain(e) => Some(e@),
        Edit::Annotated(a) => Some(a.text_edit@),
        Edit::Snippet(s) => match spec_snippet_parse(s.snippet.value@) {
            Ok(sn) => if item.1 {
                None
            } else {
                Some(TextEditView { range: s.range, new_text: sn.text })
            },
            Err(_) => None,
        },
    }
}

/// The snippet edit that one item of a batch asks for: a snippet edit of
/// the focused buffer whose snippet parses.
pub open spec fn item_snippet_edit(item: (Edit, bool)) -> Option<SnippetEditView> {
    match item.0 {
        Edit::Snippet(s) => match spec_snippet_parse(s.snippet.value@) {
            Ok(sn) => if item.1 {
                Some((s.range, sn))
            } else {
                None
            },
            Err(_) => None,
        },
        _ => None,
    }
}

pub open spec fn asks_text_edit(batch: Seq<(Edit, bool)>, x: TextEditView) -> bool {
    exists|i: int| 0 <= i < batch.len() && #[trigger] item_text_edit(batch[i]) == Some(x)
}

pub open spec fn asks_snippet_edit(batch: Seq<(Edit, bool)>, x: SnippetEditView) -> bool {
    exists|i: int| 0 <= i < batch.len() && #[trigger] item_snippet_edit(batch[i]) == Some(x)
}

proof fn lemma_push_contains<T>(s: Seq<T>, e: T, x: T)
    ensures
        s.push(e).contains(x) == (s.contains(x) || x == e),
{
    let t = s.push(e);
    if t.contains(x) {
        let i = choose|i: int| 0 <= i < t.len() && t[i] == x;
        if i < s.len() {
            assert(s[i] == x);
        }
    }
    if s.contains(x) {
        let i = choose|i: int| 0 <= i < s.len() && s[i] == x;
        assert(t[i] == x);
    }
    if x == e {
        assert(t[s.len() as int] == x);
    }
}

proof fn lemma_push_new_contains(s: Seq<TextEditView>, e: TextEditView, x: TextEditView)
    ensures
        push_new(s, e).contains(x) == (s.contains(x) || x == e),
{
    lemma_push_contains(s, e, x);
}

proof fn lemma_asks_last(batch: Seq<(Edit, bool)>, x: TextEditView, y: SnippetEditView)
    requires
        batch.len() > 0,
    ensures
        asks_text_edit(batch, x) == (asks_text_edit(batch.drop_last(), x) || item_text_edit(
            batch.last(),
        ) == Some(x)),
        asks_snippet_edit(batch, y) == (asks_snippet_edit(batch.drop_last(), y)
            || item_snippet_edit(batch.last()) == Some(y)),
{
    let rest = batch.drop_last();
    if asks_text_edit(batch, x) {
        let i = choose|i: int| 0 <= i < batch.len() && #[trigger] item_text_edit(batch[i]) == Some(x);
        if i < rest.len() {
            assert(rest[i] == batch[i]);
        }
    }
    if asks_text_edit(rest, x) {
        let i = choose|i: int| 0 <= i < rest.len() && #[trigger] item_text_edit(rest[i]) == Some(x);
        assert(batch[i] == rest[i]);
    }
    if item_text_edit(batch.last()) == Some(x) {
        assert(item_text_edit(batch[batch.len() - 1]) == Some(x));
    }
    if asks_snippet_edit(batch, y) {
        let i = choose|i: int|
            0 <= i < batch.len() && #[trigger] item_snippet_edit(batch[i]) == Some(y);
        if i < rest.len() {
            assert(rest[i] == batch[i]);
        }
    }
    if asks_snippet_edit(rest, y) {
        let i = choose|i: int| 0 <= i < rest.len() && #[trigger] item_snippet_edit(rest[i]) == Some(y);
        assert(batch[i] == rest[i]);
    }
    if item_snippet_edit(batch.last()) == Some(y) {
        assert(item_snippet_edit(batch[batch.len() - 1]) == Some(y));
    }
}

/// What the collections hold, item by item: the plain edits collected from
/// a batch are exactly the plain edits that its items ask for (every plain
/// edit, the text edit of every annotated edit, and the text of every
/// parsable snippet edit of an unfocused buffer), and the snippet edits are
/// exactly those of the parsable snippet edits of the focused buffer; for
/// the vectors and for the sets alike.
pub proof fn lemma_collected_edits(batch: Seq<(Edit, bool)>)
    ensures
        forall|x: TextEditView|
            #[trigger] spec_original(batch).0.contains(x) <==> asks_text_edit(batch, x),
        forall|x: SnippetEditView|
            #[trigger] spec_original(batch).1.contains(x) <==> asks_snippet_edit(batch, x),
        forall|x: TextEditView|
            #[trigger] spec_modified(batch).0.contains(x) <==> asks_text_edit(batch, x),
        forall|x: SnippetEditView|
            #[trigger] spec_modified(batch).1.contains(x) <==> asks_snippet_edit(batch, x),
    decreases batch.len(),
{
    if batch.len() == 0 {
    } else {
        let rest = batch.drop_last();
        let item = batch.last();
        lemma_collected_edits(rest);
        let o = spec_original(rest);
        let m = spec_modified(rest);
        assert forall|x: TextEditView|
            #[trigger] spec_original(batch).0.contains(x) <==> asks_text_edit(batch, x) by {
            lemma_asks_last(batch, x, arbitrary());
            match item.0 {
                Edit::Plain(e) => {
                    lemma_push_new_contains(o.0, e@, x);
                },
                Edit::Annotated(a) => {
                    lemma_push_new_contains(o.0, a.text_edit@, x);
                },
                Edit::Snippet(sn) => match spec_snippet_parse(sn.snippet.value@) {
                    Ok(v) => if !item.1 {
                        let t = TextEditView { range: sn.range, new_text: v.text };
                        lemma_push_new_contains(o.0, t, x);
                    },
                    Err(_) => {},
                },
            }
        }
        assert forall|x: SnippetEditView|
            #[trigger] spec_original(batch).1.contains(x) <==> asks_snippet_edit(batch, x) by {
            lemma_asks_last(batch, arbitrary(), x);
            match item.0 {
                Edit::Snippet(sn) => match spec_snippet_parse(sn.snippet.value@) {
                    Ok(v) => if item.1 {
                        lemma_push_contains(o.1, (sn.range, v), x);
                    },
                    Err(_) => {},
                },
                _ => {},
            }
        }
        assert forall|x: TextEditView|
            #[trigger] spec_modified(batch).0.contains(x) <==> asks_text_edit(batch, x) by {
            lemma_asks_last(batch, x, arbitrary());
        }
        assert forall|x: SnippetEditView|
            #[trigger] spec_modified(batch).1.contains(x) <==> asks_snippet_edit(batch, x) by {
            lemma_asks_last(batch, arbitrary(), x);
        }
    }
}

/// Collects one batch of edits into a vector of plain edits, without
/// repetition, and a vector of snippet edits.
pub fn collect_edits_original(batch: &Vec<(Edit, bool)>) -> (r: (Vec<TextEdit>, Vec<(Range, Snippet)>))
    ensures
        (text_edits_view(r.0@), snippet_edits_view(r.1@)) == spec_original(batch@),
{
    let mut edits: Vec<TextEdit> = Vec::new();
    let mut snippet_edits: Vec<(Range, Snippet)> = Vec::new();
    let n = batch.len();
    for i in 0..n
        invariant
            n == batch@.len(),
            (text_edits_view(edits@), snippet_edits_view(snippet_edits@)) == spec_original(
                batch@.take(i as int),
            ),
    {
        let ghost acc = (text_edits_view(edits@), snippet_edits_view(snippet_edits@));
        let ghost item = batch@[i as int];
        assert(batch@.take(i + 1).drop_last() == batch@.take(i as int));
        assert(spec_original(batch@.take(i + 1)) == original_step(acc, item));
        let is_active_entry = batch[i].1;
        match &batch[i].0 {
            Edit::Plain(edit) => {
                if !contains_text_edit(&edits, edit) {
                    edits.push(copy_text_edit(edit));
                }
            },
            Edit::Annotated(edit) => {
                if !contains_text_edit(&edits, &edit.text_edit) {
                    edits.push(copy_text_edit(&edit.text_edit));
                }
            },
            Edit::Snippet(edit) => {
                match Snippet::parse(edit.snippet.value.as_str()) {
                    Ok(snippet) => {
                        if is_active_entry {
                            snippet_edits.push((edit.range, snippet));
                        } else {
                            let new_edit = TextEdit { range: edit.range, new_text: snippet.text };
                            if !contains_text_edit(&edits, &new_edit) {
                                edits.push(new_edit);
                            }
                        }
                    },
                    Err(_) => {},
                }
            },
        }
        assert(text_edits_view(edits@) =~= original_step(acc, item).0);
        assert(snippet_edits_view(snippet_edits@) =~= original_step(acc, item).1);
    }
    assert(batch@.take(n as int) == batch@);
    (edits, snippet_edits)
}

/// Collects one batch of edits into a set of plain edits and a set of
/// snippet edits.
pub fn collect_edits_modified(batch: &Vec<(Edit, bool)>) -> (r: (
    FxHashSet<TextEdit>,
    FxHashSet<(Range, Snippet)>,
))
    ensures
        (text_edit_set_items(r.0), snippet_edit_set_items(r.1)) == spec_modified(batch@),
{
    let mut edits = text_edit_set_new();
    let mut snippet_edits = snippet_edit_set_new();
    let n = batch.len();
    for i in 0..n
        invariant
            n == batch@.len(),
            (text_edit_set_items(edits), snippet_edit_set_items(snippet_edits)) == spec_modified(
                batch@.take(i as int),
            ),
    {
        let ghost acc = (text_edit_set_items(edits), snippet_edit_set_items(snippet_edits));
        let ghost item = batch@[i as int];
        assert(batch@.take(i + 1).drop_last() == batch@.take(i as int));
        assert(spec_modified(batch@.take(i + 1)) == modified_step(acc, item));
        let is_active_entry = batch[i].1;
        match &batch[i].0 {
            Edit::Plain(edit) => {
                if !text_edit_set_contains(&edits, edit) {
                    text_edit_set_insert(&mut edits, copy_text_edit(edit));
                }
            },
            Edit::Annotated(edit) => {
                if !text_edit_set_contains(&edits, &edit.text_edit) {
                    text_edit_set_insert(&mut edits, copy_text_edit(&edit.text_edit));
                }
            },
            Edit::Snippet(edit) => {
                match Snippet::parse(edit.snippet.value.as_str()) {
                    Ok(snippet) => {
                        if is_active_entry {
                            snippet_edit_set_insert(&mut snippet_edits, (edit.range, snippet));
                        } else {
                            let new_edit = TextEdit { range: edit.range, new_text: snippet.text };
                            if !text_edit_set_contains(&edits, &new_edit) {
                                text_edit_set_insert(&mut edits, new_edit);
                            }
                        }
                    },
                    Err(_) => {},
                }
            },
        }
        assert(text_edit_set_items(edits) =~= modified_step(acc, item).0);
        assert(snippet_edit_set_items(snippet_edits) =~= modified_step(acc, item).1);
    }
    assert(batch@.take(n as int) == batch@);
    (edits, snippet_edits)
}

/// Collects every batch of edits with vectors and linear search; the
/// results are dropped.
pub fn bench_original(edits: Vec<Vec<(Edit, bool)>>) {
    let n = edits.len();
    for i in 0..n
        invariant
            n == edits@.len(),
    {
        let _ = collect_edits_original(&edits[i]);
    }
}

/// Collects every batch of edits with hash sets; the results are dropped.
pub fn bench_modified(edits: Vec<Vec<(Edit, bool)>>) {
    let n = edits.len();
    for i in 0..n
        invariant
            n == edits@.len(),
    {
        let _ = collect_edits_modified(&edits[i]);
    }
}

} // verus!
