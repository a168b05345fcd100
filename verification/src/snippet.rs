//! Snippets in the syntax of the Language Server Protocol: text with tab
//! stops (`$1`), placeholders (`${1:default}`), choices (`${1|one,two|}`) and
//! backslash escapes.
//!
//! Parsing a snippet yields the text that an editor inserts (placeholders
//! replaced by their default text, choices by their first option) and, for
//! every tab stop index, the ranges of that text that the tab stop covers.
//! Ranges count characters of the text.
use vstd::prelude::*;

use crate::text::{chars_string, str_chars};

verus! {

/// A range of characters `start..end` of a snippet's text.
#[derive(Clone, Copy, Debug, PartialEq, Eq, Hash, Structural)]
pub struct TabStopRange {
    pub start: usize,
    pub end: usize,
}

/// A parsed snippet: the text to insert and its tab stops, ordered by
/// tab stop index, with the final tab stop (`$0`, or the end of the text when
/// there is none) last.
#[derive(Clone, Debug, PartialEq, Eq, Hash)]
pub struct Snippet {
    pub text: String,
    pub tabstops: Vec<Vec<TabStopRange>>,
}

/// Why a snippet could not be parsed.
#[derive(Clone, Copy, Debug, PartialEq, Eq, Structural)]
pub enum SnippetError {
    /// A `$` or `${` is not followed by a decimal tab stop index.
    ExpectedInteger,
    /// A tab stop index does not fit in a `usize`.
    IndexOverflow,
    /// A choice list `|...` is not closed by `|`.
    UnterminatedChoice,
    /// A `${...` is not closed by `}`.
    ExpectedClosingBrace,
}

/// The mathematical value of a snippet.
pub struct SnippetView {
    pub text: Seq<char>,
    pub tabstops: Seq<Seq<TabStopRange>>,
}

impl View for Snippet {
    type V = SnippetView;

    open spec fn view(&self) -> SnippetView {
        SnippetView {
            text: self.text@,
            tabstops: tabstops_view(self.tabstops@),
        }
    }
}

pub open spec fn tabstops_view(v: Seq<Vec<TabStopRange>>) -> Seq<Seq<TabStopRange>> {
    v.map_values(|t: Vec<TabStopRange>| t@)
}

/// The tab stops seen so far, keyed by index, each with its ranges in the
/// order in which they were closed.
pub type StopMap = Seq<(usize, Seq<TabStopRange>)>;

/// What the parser has produced at some point: the text and the tab stops.
pub struct ParseState {
    pub text: Seq<char>,
    pub stops: StopMap,
}

impl ParseState {
    pub open spec fn push_char(self, c: char) -> ParseState {
        ParseState { text: self.text.push(c), stops: self.stops }
    }
}

pub open spec fn empty_state() -> ParseState {
    ParseState { text: Seq::empty(), stops: Seq::empty() }
}

// ---------------------------------------------------------------------------
// The grammar, over positions in the source characters.
// ---------------------------------------------------------------------------

pub open spec fn is_digit(c: char) -> bool {
    '0' <= c && c <= '9'
}

pub open spec fn digit_value(c: char) -> nat {
    (c as int - '0' as int) as nat
}

/// The position just after the run of decimal digits that starts at `pos`.
pub open spec fn digits_end(src: Seq<char>, pos: int) -> int
    decreases src.len() - pos,
{
    if 0 <= pos < src.len() && is_digit(src[pos]) {
        digits_end(src, pos + 1)
    } else {
        pos
    }
}

/// The number written by the digits `src[from..to]`.
pub open spec fn digits_value(src: Seq<char>, from: int, to: int) -> nat
    decreases to - from,
{
    if to <= from {
        0
    } else {
        digits_value(src, from, to - 1) * 10 + digit_value(src[to - 1])
    }
}

/// A tab stop index at `pos`: its value and the position after it.
pub open spec fn spec_parse_int(src: Seq<char>, pos: int) -> Result<(usize, int), SnippetError> {
    let end = digits_end(src, pos);
    if end == pos {
        Err(SnippetError::ExpectedInteger)
    } else if digits_value(src, pos, end) > usize::MAX {
        Err(SnippetError::IndexOverflow)
    } else {
        Ok((digits_value(src, pos, end) as usize, end))
    }
}

/// A choice list after its opening `|`, up to and including the closing `|`.
/// The options are separated by `,`; a backslash makes the next character
/// literal. Only the first option goes into the text (`first` tells whether
/// the parser is still in it).
pub open spec fn spec_choices(src: Seq<char>, pos: int, first: bool, text: Seq<char>) -> Result<
    (int, Seq<char>),
    SnippetError,
>
    decreases src.len() - pos,
{
    if pos < 0 || pos >= src.len() {
        Err(SnippetError::UnterminatedChoice)
    } else {
        let c = src[pos];
        if c == '\\' {
            if pos + 1 < src.len() {
                let t = if first {
                    text.push(src[pos + 1])
                } else {
                    text
                };
                spec_choices(src, pos + 2, first, t)
            } else {
                Err(SnippetError::UnterminatedChoice)
            }
        } else if c == ',' {
            spec_choices(src, pos + 1, false, text)
        } else if c == '|' {
            Ok((pos + 1, text))
        } else {
            let t = if first {
                text.push(c)
            } else {
                text
            };
            spec_choices(src, pos + 1, first, t)
        }
    }
}

/// The position of the first entry of `m` from `i` on whose index is not
/// below `k`.
pub open spec fn lower_bound(m: StopMap, k: usize, i: int) -> int
    decreases m.len() - i,
{
    if 0 <= i < m.len() && m[i].0 < k {
        lower_bound(m, k, i + 1)
    } else {
        i
    }
}

/// Adds the range `r` to tab stop `k`: after the ranges it has, or as a new
/// entry at its place in index order.
pub open spec fn stops_push(m: StopMap, k: usize, r: TabStopRange) -> StopMap {
    let i = lower_bound(m, k, 0);
    if 0 <= i < m.len() && m[i].0 == k {
        m.update(i, (k, m[i].1.push(r)))
    } else {
        m.insert(i, (k, seq![r]))
    }
}

/// Snippet text from `pos` on, up to the end of the source or, when
/// `nested`, up to (not including) a `}` that closes a placeholder.
/// Gives the position where it stopped and the new state.
///
/// A tab stop always ends after the position where it starts, within the
/// source (the parser proves it); the test on its end position only lets
/// the definition be seen to terminate.
pub open spec fn spec_body(src: Seq<char>, pos: int, nested: bool, st: ParseState) -> Result<
    (int, ParseState),
    SnippetError,
>
    decreases src.len() - pos, 1int,
{
    if pos < 0 || pos >= src.len() {
        Ok((pos, st))
    } else {
        let c = src[pos];
        if c == '$' {
            match spec_tabstop(src, pos + 1, st) {
                Err(e) => Err(e),
                Ok((p, st2)) => if pos < p <= src.len() {
                    spec_body(src, p, nested, st2)
                } else {
                    Ok((p, st2))
                },
            }
        } else if c == '\\' {
            if pos + 1 < src.len() && (src[pos + 1] == '$' || src[pos + 1] == '\\' || src[pos
                + 1] == '}') {
                spec_body(src, pos + 2, nested, st.push_char(src[pos + 1]))
            } else {
                spec_body(src, pos + 1, nested, st.push_char('\\'))
            }
        } else if c == '}' && nested {
            Ok((pos, st))
        } else {
            spec_body(src, pos + 1, nested, st.push_char(c))
        }
    }
}

/// A tab stop after its `$`: either `N`, or `{N` followed by an optional
/// choice list, an optional `:` and placeholder text, and `}`. (The index
/// and the choice list always end after `pos`; the test `pos < p2` only lets
/// the definition be seen to terminate.)
pub open spec fn spec_tabstop(src: Seq<char>, pos: int, st: ParseState) -> Result<
    (int, ParseState),
    SnippetError,
>
    decreases src.len() - pos, 0int,
{
    let start = st.text.len() as usize;
    if 0 <= pos < src.len() && src[pos] == '{' {
        match spec_parse_int(src, pos + 1) {
            Err(e) => Err(e),
            Ok((idx, p1)) => {
                let choices = if 0 <= p1 < src.len() && src[p1] == '|' {
                    spec_choices(src, p1 + 1, true, st.text)
                } else {
                    Ok((p1, st.text))
                };
                match choices {
                    Err(e) => Err(e),
                    Ok((p2, text2)) => {
                        let st2 = ParseState { text: text2, stops: st.stops };
                        let body = if pos < p2 < src.len() && src[p2] == ':' {
                            spec_body(src, p2 + 1, true, st2)
                        } else {
                            Ok((p2, st2))
                        };
                        match body {
                            Err(e) => Err(e),
                            Ok((p3, st3)) => if 0 <= p3 < src.len() && src[p3] == '}' {
                                let r = TabStopRange { start, end: st3.text.len() as usize };
                                Ok(
                                    (
                                        p3 + 1,
                                        ParseState {
                                            text: st3.text,
                                            stops: stops_push(st3.stops, idx, r),
                                        },
                                    ),
                                )
                            } else {
                                Err(SnippetError::ExpectedClosingBrace)
                            },
                        }
                    },
                }
            },
        }
    } else {
        match spec_parse_int(src, pos) {
            Err(e) => Err(e),
            Ok((idx, p1)) => {
                let r = TabStopRange { start, end: start };
                Ok((p1, ParseState { text: st.text, stops: stops_push(st.stops, idx, r) }))
            },
        }
    }
}

/// The ranges of every entry of `m`, in order.
pub open spec fn stop_values(m: StopMap) -> Seq<Seq<TabStopRange>> {
    m.map_values(|e: (usize, Seq<TabStopRange>)| e.1)
}

/// The snippet made of a finished parse: tab stop `0`, if there is one, goes
/// last; otherwise a final empty range at the end of the text is added,
/// unless the last tab stop is already exactly that.
pub open spec fn assemble(st: ParseState) -> SnippetView {
    let len = st.text.len() as usize;
    let end_stop = seq![TabStopRange { start: len, end: len }];
    let tabstops = if st.stops.len() > 0 && st.stops[0].0 == 0 {
        stop_values(st.stops.drop_first()).push(st.stops[0].1)
    } else {
        let vs = stop_values(st.stops);
        if vs.len() > 0 && vs.last() == end_stop {
            vs
        } else {
            vs.push(end_stop)
        }
    };
    SnippetView { text: st.text, tabstops }
}

/// The snippet that `source` denotes, or why it is not one.
pub open spec fn spec_snippet_parse(source: Seq<char>) -> Result<SnippetView, SnippetError> {
    match spec_body(source, 0, false, empty_state()) {
        Ok((_, st)) => Ok(assemble(st)),
        Err(e) => Err(e),
    }
}

// ---------------------------------------------------------------------------
// Properties of the grammar.
// ---------------------------------------------------------------------------

/// Tab stop entries are in strictly increasing index order: each index
/// appears once, and they come out ordered by index.
pub open spec fn stops_sorted(m: StopMap) -> bool {
    forall|i: int, j: int| 0 <= i < j < m.len() ==> #[trigger] m[i].0 < #[trigger] m[j].0
}

proof fn lemma_lower_bound(m: StopMap, k: usize, j: int)
    requires
        0 <= j <= m.len(),
    ensures
        j <= lower_bound(m, k, j) <= m.len(),
        forall|t: int| j <= t < lower_bound(m, k, j) ==> #[trigger] m[t].0 < k,
        lower_bound(m, k, j) < m.len() ==> m[lower_bound(m, k, j)].0 >= k,
    decreases m.len() - j,
{
    if j < m.len() && m[j].0 < k {
        lemma_lower_bound(m, k, j + 1);
    }
}

proof fn lemma_stops_push_sorted(m: StopMap, k: usize, r: TabStopRange)
    requires
        stops_sorted(m),
    ensures
        stops_sorted(stops_push(m, k, r)),
{
    lemma_lower_bound(m, k, 0);
    let i = lower_bound(m, k, 0);
    let m2 = stops_push(m, k, r);
    if 0 <= i < m.len() && m[i].0 == k {
        assert forall|a: int, b: int| 0 <= a < b < m2.len() implies #[trigger] m2[a].0
            < #[trigger] m2[b].0 by {
            assert(m2[a].0 == m[a].0);
            assert(m2[b].0 == m[b].0);
        }
    } else {
        assert forall|a: int, b: int| 0 <= a < b < m2.len() implies #[trigger] m2[a].0
            < #[trigger] m2[b].0 by {
            if b < i {
                assert(m2[a] == m[a] && m2[b] == m[b]);
            } else if b == i {
                assert(m2[a] == m[a]);
            } else if a < i {
                assert(m2[a] == m[a] && m2[b] == m[b - 1]);
                assert(m[i].0 >= k);
                if b - 1 > i {
                    assert(m[i].0 < m[b - 1].0);
                }
            } else if a == i {
                assert(m2[b] == m[b - 1]);
                if b - 1 > i {
                    assert(m[i].0 < m[b - 1].0);
                }
            } else {
                assert(m2[a] == m[a - 1] && m2[b] == m[b - 1]);
            }
        }
    }
}

proof fn lemma_body_sorted(src: Seq<char>, pos: int, nested: bool, st: ParseState)
    requires
        stops_sorted(st.stops),
    ensures
        spec_body(src, pos, nested, st) matches Ok((_, st2)) ==> stops_sorted(st2.stops),
    decreases src.len() - pos, 1int,
{
    if pos < 0 || pos >= src.len() {
    } else {
        let c = src[pos];
        if c == '$' {
            lemma_tabstop_sorted(src, pos + 1, st);
            match spec_tabstop(src, pos + 1, st) {
                Err(_) => {},
                Ok((p, st2)) => if pos < p <= src.len() {
                    lemma_body_sorted(src, p, nested, st2);
                },
            }
        } else if c == '\\' {
            if pos + 1 < src.len() && (src[pos + 1] == '$' || src[pos + 1] == '\\' || src[pos
                + 1] == '}') {
                lemma_body_sorted(src, pos + 2, nested, st.push_char(src[pos + 1]));
            } else {
                lemma_body_sorted(src, pos + 1, nested, st.push_char('\\'));
            }
        } else if c == '}' && nested {
        } else {
            lemma_body_sorted(src, pos + 1, nested, st.push_char(c));
        }
    }
}

proof fn lemma_tabstop_sorted(src: Seq<char>, pos: int, st: ParseState)
    requires
        stops_sorted(st.stops),
    ensures
        spec_tabstop(src, pos, st) matches Ok((_, st2)) ==> stops_sorted(st2.stops),
    decreases src.len() - pos, 0int,
{
    let start = st.text.len() as usize;
    if 0 <= pos < src.len() && src[pos] == '{' {
        match spec_parse_int(src, pos + 1) {
            Err(_) => {},
            Ok((idx, p1)) => {
                let choices = if 0 <= p1 < src.len() && src[p1] == '|' {
                    spec_choices(src, p1 + 1, true, st.text)
                } else {
                    Ok((p1, st.text))
                };
                match choices {
                    Err(_) => {},
                    Ok((p2, text2)) => {
                        let st2 = ParseState { text: text2, stops: st.stops };
                        if pos < p2 < src.len() && src[p2] == ':' {
                            lemma_body_sorted(src, p2 + 1, true, st2);
                        }
                        let body = if pos < p2 < src.len() && src[p2] == ':' {
                            spec_body(src, p2 + 1, true, st2)
                        } else {
                            Ok((p2, st2))
                        };
                        match body {
                            Err(_) => {},
                            Ok((p3, st3)) => {
                                let r = TabStopRange { start, end: st3.text.len() as usize };
                                lemma_stops_push_sorted(st3.stops, idx, r);
                            },
                        }
                    },
                }
            },
        }
    } else {
        match spec_parse_int(src, pos) {
            Err(_) => {},
            Ok((idx, p1)) => {
                lemma_stops_push_sorted(st.stops, idx, TabStopRange { start, end: start });
            },
        }
    }
}

/// After a successful parse the tab stops are kept once per index, in
/// increasing index order; so the tab stop with index `0`, when there is
/// one, is the first entry, which `assemble` moves to the end.
pub proof fn lemma_parse_stops_ordered(source: Seq<char>)
    ensures
        spec_body(source, 0, false, empty_state()) matches Ok((_, st)) ==> stops_sorted(
            st.stops,
        ),
{
    lemma_body_sorted(source, 0, false, empty_state());
}

/// Every recorded range runs forward and lies within the text.
pub open spec fn ranges_within(st: ParseState) -> bool {
    forall|i: int, j: int|
        0 <= i < st.stops.len() && 0 <= j < st.stops[i].1.len() ==> #[trigger] st.stops[i].1[j].start
            <= st.stops[i].1[j].end <= st.text.len()
}

proof fn lemma_digits_end(src: Seq<char>, pos: int)
    requires
        0 <= pos <= src.len(),
    ensures
        pos <= digits_end(src, pos) <= src.len(),
    decreases src.len() - pos,
{
    if pos < src.len() && is_digit(src[pos]) {
        lemma_digits_end(src, pos + 1);
    }
}

proof fn lemma_choices_growth(src: Seq<char>, pos: int, first: bool, text: Seq<char>)
    requires
        0 <= pos,
    ensures
        spec_choices(src, pos, first, text) matches Ok((p, t)) ==> pos < p <= src.len()
            && text.len() <= t.len() <= text.len() + (p - pos),
    decreases src.len() - pos,
{
    if pos < src.len() {
        let c = src[pos];
        if c == '\\' {
            if pos + 1 < src.len() {
                let t = if first {
                    text.push(src[pos + 1])
                } else {
                    text
                };
                lemma_choices_growth(src, pos + 2, first, t);
            }
        } else if c == ',' {
            lemma_choices_growth(src, pos + 1, false, text);
        } else if c == '|' {
        } else {
            let t = if first {
                text.push(c)
            } else {
                text
            };
            lemma_choices_growth(src, pos + 1, first, t);
        }
    }
}

proof fn lemma_stops_push_within(st: ParseState, k: usize, r: TabStopRange)
    requires
        ranges_within(st),
        r.start <= r.end <= st.text.len(),
    ensures
        ranges_within(ParseState { text: st.text, stops: stops_push(st.stops, k, r) }),
{
    lemma_lower_bound(st.stops, k, 0);
    let m = st.stops;
    let i = lower_bound(m, k, 0);
    let m2 = stops_push(m, k, r);
    let st2 = ParseState { text: st.text, stops: m2 };
    assert forall|a: int, b: int| 0 <= a < m2.len() && 0 <= b < m2[a].1.len() implies #[trigger] m2[a].1[b].start
        <= m2[a].1[b].end <= st.text.len() by {
        if 0 <= i < m.len() && m[i].0 == k {
            if a == i && b == m[i].1.len() {
                assert(m2[a].1[b] == r);
            } else {
                assert(m2[a].1[b] == m[a].1[b]);
            }
        } else {
            if a < i {
                assert(m2[a] == m[a]);
            } else if a == i {
                assert(m2[a].1[b] == r);
            } else {
                assert(m2[a] == m[a - 1]);
            }
        }
    }
}

proof fn lemma_body_growth(src: Seq<char>, pos: int, nested: bool, st: ParseState)
    requires
        0 <= pos <= src.len(),
        ranges_within(st),
        st.text.len() + (src.len() - pos) <= usize::MAX,
    ensures
        spec_body(src, pos, nested, st) matches Ok((p, st2)) ==> {
            &&& pos <= p <= src.len()
            &&& ranges_within(st2)
            &&& st.text.len() <= st2.text.len() <= st.text.len() + (p - pos)
        },
    decreases src.len() - pos, 1int,
{
    if pos < src.len() {
        let c = src[pos];
        if c == '$' {
            lemma_tabstop_growth(src, pos + 1, st);
            match spec_tabstop(src, pos + 1, st) {
                Err(_) => {},
                Ok((p, st2)) => {
                    lemma_body_growth(src, p, nested, st2);
                },
            }
        } else if c == '\\' {
            if pos + 1 < src.len() && (src[pos + 1] == '$' || src[pos + 1] == '\\' || src[pos
                + 1] == '}') {
                lemma_body_growth(src, pos + 2, nested, st.push_char(src[pos + 1]));
            } else {
                lemma_body_growth(src, pos + 1, nested, st.push_char('\\'));
            }
        } else if c == '}' && nested {
        } else {
            lemma_body_growth(src, pos + 1, nested, st.push_char(c));
        }
    }
}

#[verifier::spinoff_prover]
#[verifier::rlimit(40)]
proof fn lemma_tabstop_growth(src: Seq<char>, pos: int, st: ParseState)
    requires
        0 <= pos <= src.len(),
        ranges_within(st),
        st.text.len() + (src.len() - pos) <= usize::MAX,
    ensures
        spec_tabstop(src, pos, st) matches Ok((p, st2)) ==> {
            &&& pos < p <= src.len()
            &&& ranges_within(st2)
            &&& st.text.len() <= st2.text.len() <= st.text.len() + (p - pos)
        },
    decreases src.len() - pos, 0int,
{
    let start = st.text.len() as usize;
    if 0 <= pos < src.len() && src[pos] == '{' {
        lemma_digits_end(src, pos + 1);
        match spec_parse_int(src, pos + 1) {
            Err(_) => {},
            Ok((idx, p1)) => {
                if 0 <= p1 < src.len() && src[p1] == '|' {
                    lemma_choices_growth(src, p1 + 1, true, st.text);
                }
                let choices = if 0 <= p1 < src.len() && src[p1] == '|' {
                    spec_choices(src, p1 + 1, true, st.text)
                } else {
                    Ok((p1, st.text))
                };
                match choices {
                    Err(_) => {},
                    Ok((p2, text2)) => {
                        let st2 = ParseState { text: text2, stops: st.stops };
                        if pos < p2 < src.len() && src[p2] == ':' {
                            lemma_body_growth(src, p2 + 1, true, st2);
                        }
                        let body = if pos < p2 < src.len() && src[p2] == ':' {
                            spec_body(src, p2 + 1, true, st2)
                        } else {
                            Ok((p2, st2))
                        };
                        match body {
                            Err(_) => {},
                            Ok((p3, st3)) => {
                                let r = TabStopRange { start, end: st3.text.len() as usize };
                                lemma_stops_push_within(st3, idx, r);
                            },
                        }
                    },
                }
            },
        }
    } else {
        lemma_digits_end(src, pos);
        match spec_parse_int(src, pos) {
            Err(_) => {},
            Ok((idx, p1)) => {
                lemma_stops_push_within(st, idx, TabStopRange { start, end: start });
            },
        }
    }
}

/// Each tab stop range of `v` runs forward and lies within its text.
pub open spec fn tabstops_within(v: SnippetView) -> bool {
    forall|i: int, j: int|
        0 <= i < v.tabstops.len() && 0 <= j < v.tabstops[i].len() ==> #[trigger] v.tabstops[i][j].start
            <= v.tabstops[i][j].end <= v.text.len()
}

/// A snippet's text is no longer than its source, and each of its tab stop
/// ranges runs forward and lies within the text.
pub proof fn lemma_parse_ranges_within(source: Seq<char>)
    requires
        source.len() <= usize::MAX,
    ensures
        spec_snippet_parse(source) matches Ok(v) ==> v.text.len() <= source.len()
            && tabstops_within(v),
{
    let st0 = empty_state();
    assert(ranges_within(st0));
    lemma_body_growth(source, 0, false, st0);
    match spec_body(source, 0, false, st0) {
        Err(_) => {},
        Ok((p, st)) => {
            let v = assemble(st);
            assert(spec_snippet_parse(source) == Ok::<SnippetView, SnippetError>(v));
            assert(v.text.len() <= source.len());
            let len = st.text.len() as usize;
            assert forall|i: int, j: int|
                0 <= i < v.tabstops.len() && 0 <= j < v.tabstops[i].len() implies #[trigger] v.tabstops[i][j].start
                <= v.tabstops[i][j].end <= v.text.len() by {
                if st.stops.len() > 0 && st.stops[0].0 == 0 {
                    let vs = stop_values(st.stops.drop_first());
                    if i < vs.len() {
                        assert(v.tabstops[i] == st.stops[i + 1].1);
                        assert(st.stops[i + 1].1[j] == v.tabstops[i][j]);
                    } else {
                        assert(v.tabstops[i] == st.stops[0].1);
                        assert(st.stops[0].1[j] == v.tabstops[i][j]);
                    }
                } else {
                    let vs = stop_values(st.stops);
                    if i < vs.len() {
                        assert(v.tabstops[i] == st.stops[i].1);
                        assert(st.stops[i].1[j] == v.tabstops[i][j]);
                    } else {
                        assert(v.tabstops[i][j] == TabStopRange { start: len, end: len });
                    }
                }
            }
            assert(tabstops_within(v));
        },
    }
}

/// The character of the decimal digit `d`.
pub open spec fn digit_char(d: nat) -> char {
    ('0' as int + d) as char
}

/// The decimal writing of `n`, most significant digit first, without
/// leading zeros.
pub open spec fn decimal(n: nat) -> Seq<char>
    decreases n,
{
    if n < 10 {
        seq![digit_char(n)]
    } else {
        decimal(n / 10).push(digit_char(n % 10))
    }
}

proof fn lemma_decimal_digits(n: nat)
    ensures
        decimal(n).len() >= 1,
        forall|i: int| 0 <= i < decimal(n).len() ==> #[trigger] is_digit(decimal(n)[i]),
    decreases n,
{
    if n >= 10 {
        lemma_decimal_digits(n / 10);
        assert forall|i: int| 0 <= i < decimal(n).len() implies #[trigger] is_digit(decimal(n)[i]) by {
            if i < decimal(n / 10).len() {
                assert(decimal(n)[i] == decimal(n / 10)[i]);
            }
        }
    }
}

proof fn lemma_digits_end_run(s: Seq<char>, pos: int, k: int)
    requires
        0 <= pos <= k <= s.len(),
        forall|i: int| pos <= i < k ==> #[trigger] is_digit(s[i]),
        k == s.len() || !is_digit(s[k]),
    ensures
        digits_end(s, pos) == k,
    decreases k - pos,
{
    if pos < k {
        lemma_digits_end_run(s, pos + 1, k);
    }
}

proof fn lemma_digits_value_prefix(s: Seq<char>, t: Seq<char>, from: int, to: int)
    requires
        0 <= from,
        to <= s.len(),
        to <= t.len(),
        forall|i: int| from <= i < to ==> s[i] == t[i],
    ensures
        digits_value(s, from, to) == digits_value(t, from, to),
    decreases to - from,
{
    if from < to {
        lemma_digits_value_prefix(s, t, from, to - 1);
    }
}

proof fn lemma_digits_value_decimal(n: nat)
    ensures
        digits_value(decimal(n), 0, decimal(n).len() as int) == n,
    decreases n,
{
    let d = decimal(n);
    if n < 10 {
        assert(digit_value(d[0]) == n);
        assert(digits_value(d, 0, 0) == 0);
        assert(digits_value(d, 0, 1) == digits_value(d, 0, 0) * 10 + digit_value(d[0]));
    } else {
        let m = n / 10;
        lemma_digits_value_decimal(m);
        lemma_decimal_digits(m);
        let dm = decimal(m);
        assert(d == dm.push(digit_char(n % 10)));
        assert(d.len() == dm.len() + 1);
        lemma_digits_value_prefix(d, dm, 0, dm.len() as int);
        assert(digits_value(d, 0, dm.len() as int) == m);
        assert(digit_value(d[d.len() - 1]) == n % 10);
        assert(digits_value(d, 0, d.len() as int) == digits_value(d, 0, dm.len() as int) * 10
            + digit_value(d[d.len() - 1]));
        assert(n == m * 10 + n % 10);
    }
}

/// A tab stop index is read as a decimal number: after `$`, the decimal
/// writing of `n` followed by anything but a digit is the index `n`, and
/// the index ends where the writing ends. (So `$9` and `$10` are different
/// tab stops.)
pub proof fn lemma_parse_int_decimal(n: nat, rest: Seq<char>)
    requires
        n <= usize::MAX,
        rest.len() == 0 || !('0' <= rest[0] && rest[0] <= '9'),
    ensures
        spec_parse_int(decimal(n) + rest, 0) == Ok::<(usize, int), SnippetError>(
            (n as usize, decimal(n).len() as int),
        ),
{
    let d = decimal(n);
    let s = d + rest;
    lemma_decimal_digits(n);
    assert forall|i: int| 0 <= i < d.len() implies #[trigger] is_digit(s[i]) by {
        assert(s[i] == d[i]);
    }
    if rest.len() > 0 {
        assert(s[d.len() as int] == rest[0]);
    }
    lemma_digits_end_run(s, 0, d.len() as int);
    lemma_digits_value_prefix(s, d, 0, d.len() as int);
    lemma_digits_value_decimal(n);
}

/// `c` as it is written in snippet text: `$`, `\` and `}` behind a
/// backslash, any other character as it is.
pub open spec fn escape_char(c: char) -> Seq<char> {
    if c == '$' || c == '\\' || c == '}' {
        seq!['\\', c]
    } else {
        seq![c]
    }
}

/// The text `t` written as snippet text.
pub open spec fn escaped(t: Seq<char>) -> Seq<char>
    decreases t.len(),
{
    if t.len() == 0 {
        Seq::empty()
    } else {
        escape_char(t[0]) + escaped(t.drop_first())
    }
}

proof fn lemma_body_escaped(p: Seq<char>, u: Seq<char>, st: ParseState)
    ensures
        spec_body(p + escaped(u), p.len() as int, false, st) == Ok::<(int, ParseState), SnippetError>(
            ((p + escaped(u)).len() as int, ParseState { text: st.text + u, stops: st.stops }),
        ),
    decreases u.len(),
{
    let src = p + escaped(u);
    let pos = p.len() as int;
    if u.len() == 0 {
        assert(escaped(u) =~= Seq::<char>::empty());
        assert(st.text + u =~= st.text);
    } else {
        let c = u[0];
        let e = escape_char(c);
        let p2 = p + e;
        let u2 = u.drop_first();
        assert(src =~= p2 + escaped(u2));
        assert(src[pos] == e[0]);
        if c == '$' || c == '\\' || c == '}' {
            assert(src[pos + 1] == c);
        }
        lemma_body_escaped(p2, u2, st.push_char(c));
        assert(st.text.push(c) + u2 =~= st.text + u);
    }
}

/// Escaping the characters `$`, `\` and `}` of a text and parsing the result
/// gives the text back, with its one final tab stop at the end.
pub proof fn lemma_escaped_text_snippet(t: Seq<char>)
    ensures
        spec_snippet_parse(escaped(t)) == Ok::<SnippetView, SnippetError>(
            SnippetView {
                text: t,
                tabstops: seq![seq![TabStopRange { start: t.len() as usize, end: t.len() as usize }]],
            },
        ),
{
    let e: Seq<char> = Seq::empty();
    lemma_body_escaped(e, t, empty_state());
    assert(e + escaped(t) =~= escaped(t));
    assert(Seq::<char>::empty() + t =~= t);
    let st = ParseState { text: t, stops: Seq::empty() };
    assert(stop_values(st.stops) =~= Seq::empty());
    assert(assemble(st).tabstops =~= seq![
        seq![TabStopRange { start: t.len() as usize, end: t.len() as usize }],
    ]);
}

proof fn lemma_digits_value_shift(p: Seq<char>, d: Seq<char>, k: int)
    requires
        0 <= k <= d.len(),
    ensures
        digits_value(p + d, p.len() as int, p.len() + k) == digits_value(d, 0, k),
    decreases k,
{
    if k > 0 {
        lemma_digits_value_shift(p, d, k - 1);
        assert((p + d)[p.len() + k - 1] == d[k - 1]);
    }
}

proof fn lemma_parse_int_decimal_at(p: Seq<char>, n: nat, rest: Seq<char>)
    requires
        n <= usize::MAX,
        rest.len() == 0 || !is_digit(rest[0]),
    ensures
        spec_parse_int(p + decimal(n) + rest, p.len() as int) == Ok::<(usize, int), SnippetError>(
            (n as usize, (p.len() + decimal(n).len()) as int),
        ),
{
    let d = decimal(n);
    let s = p + d + rest;
    let b = p.len() as int;
    lemma_decimal_digits(n);
    assert forall|i: int| b <= i < b + d.len() implies #[trigger] is_digit(s[i]) by {
        assert(s[i] == d[i - b]);
    }
    if rest.len() > 0 {
        assert(s[b + d.len()] == rest[0]);
    }
    lemma_digits_end_run(s, b, b + d.len());
    lemma_digits_value_prefix(s, p + d, b, b + d.len());
    lemma_digits_value_shift(p, d, d.len() as int);
    lemma_digits_value_decimal(n);
}

proof fn lemma_body_nested_plain(src: Seq<char>, q: int, k: int, st: ParseState)
    requires
        0 <= q <= k < src.len(),
        forall|i: int| q <= i < k ==> #[trigger] src[i] != '$' && src[i] != '\\' && src[i] != '}',
        src[k] == '}',
    ensures
        spec_body(src, q, true, st) == Ok::<(int, ParseState), SnippetError>(
            (k, ParseState { text: st.text + src.subrange(q, k), stops: st.stops }),
        ),
    decreases k - q,
{
    if q < k {
        lemma_body_nested_plain(src, q + 1, k, st.push_char(src[q]));
        assert(st.text.push(src[q]) + src.subrange(q + 1, k) =~= st.text + src.subrange(q, k));
    } else {
        assert(st.text + src.subrange(q, k) =~= st.text);
    }
}

/// The snippet text of a placeholder `${n:t}`, for a decimal index `n` and a
/// default text `t` without `$`, `\` and `}`.
pub open spec fn placeholder_source(n: nat, t: Seq<char>) -> Seq<char> {
    seq!['$', '{'] + decimal(n) + seq![':'] + t + seq!['}']
}

/// A placeholder `${n:t}` inserts its default text `t`, which its tab stop
/// covers; a final tab stop at the end of the text follows unless `n` is `0`
/// (then the placeholder is the final tab stop) or `t` is empty (then the
/// tab stop is already at the end).
pub proof fn lemma_placeholder_snippet(n: nat, t: Seq<char>)
    requires
        n <= usize::MAX,
        t.len() <= usize::MAX,
        forall|i: int| 0 <= i < t.len() ==> #[trigger] t[i] != '$' && t[i] != '\\' && t[i] != '}',
    ensures
        spec_snippet_parse(placeholder_source(n, t)) == Ok::<SnippetView, SnippetError>(
            SnippetView {
                text: t,
                tabstops: if n == 0 || t.len() == 0 {
                    seq![seq![TabStopRange { start: 0, end: t.len() as usize }]]
                } else {
                    seq![
                        seq![TabStopRange { start: 0, end: t.len() as usize }],
                        seq![TabStopRange { start: t.len() as usize, end: t.len() as usize }],
                    ]
                },
            },
        ),
{
    let d = decimal(n);
    let dl = d.len() as int;
    let tl = t.len() as int;
    let src = placeholder_source(n, t);
    let pre = seq!['$', '{'];
    let rest = seq![':'] + t + seq!['}'];
    assert(src =~= pre + d + rest);
    assert(src.len() == 4 + dl + tl);
    lemma_parse_int_decimal_at(pre, n, rest);
    assert(src[0] == '$');
    assert(src[1] == '{');
    assert(src[2 + dl] == ':');
    assert(src[3 + dl + tl] == '}');
    assert forall|i: int| 3 + dl <= i < 3 + dl + tl implies #[trigger] src[i] != '$' && src[i]
        != '\\' && src[i] != '}' by {
        assert(src[i] == t[i - 3 - dl]);
    }
    let st0 = empty_state();
    lemma_body_nested_plain(src, 3 + dl, 3 + dl + tl, st0);
    assert(src.subrange(3 + dl, 3 + dl + tl) =~= t);
    assert(Seq::<char>::empty() + t =~= t);
    let r = TabStopRange { start: 0, end: t.len() as usize };
    let stops = stops_push(Seq::empty(), n as usize, r);
    assert(lower_bound(Seq::empty(), n as usize, 0) == 0);
    assert(stops =~= seq![(n as usize, seq![r])]);
    let st = ParseState { text: t, stops };
    assert(spec_tabstop(src, 1, st0) == Ok::<(int, ParseState), SnippetError>((src.len() as int, st)));
    assert(spec_body(src, src.len() as int, false, st) == Ok::<(int, ParseState), SnippetError>(
        (src.len() as int, st),
    ));
    assert(spec_body(src, 0, false, st0) == Ok::<(int, ParseState), SnippetError>(
        (src.len() as int, st),
    ));
    assert(stop_values(stops) =~= seq![seq![r]]);
    assert(stop_values(stops.drop_first()) =~= Seq::<Seq<TabStopRange>>::empty());
    let len = t.len() as usize;
    let end_stop = seq![TabStopRange { start: len, end: len }];
    assert((n as usize == 0) == (n == 0));
    if n != 0 {
        let vs = stop_values(stops);
        if t.len() == 0 {
            assert(vs.last() =~= end_stop);
        } else {
            assert(vs.last()[0] != end_stop[0]);
            assert(vs.last() != end_stop);
        }
    }
    assert(assemble(st).tabstops =~= (if n == 0 || t.len() == 0 {
        seq![seq![TabStopRange { start: 0, end: t.len() as usize }]]
    } else {
        seq![
            seq![TabStopRange { start: 0, end: t.len() as usize }],
            seq![TabStopRange { start: t.len() as usize, end: t.len() as usize }],
        ]
    }));
}

proof fn lemma_body_plain(src: Seq<char>, pos: int, st: ParseState)
    requires
        0 <= pos <= src.len(),
        forall|i: int| pos <= i < src.len() ==> #[trigger] src[i] != '$' && src[i] != '\\',
    ensures
        spec_body(src, pos, false, st) == Ok::<(int, ParseState), SnippetError>(
            (src.len() as int, ParseState { text: st.text + src.skip(pos), stops: st.stops }),
        ),
    decreases src.len() - pos,
{
    if pos < src.len() {
        lemma_body_plain(src, pos + 1, st.push_char(src[pos]));
        assert(st.text.push(src[pos]) + src.skip(pos + 1) =~= st.text + src.skip(pos));
    } else {
        assert(st.text + src.skip(pos) =~= st.text);
    }
}

/// A snippet without `$` and `\` is plain text: it parses to itself, with
/// one tab stop, empty, at its end.
pub proof fn lemma_plain_text_snippet(source: Seq<char>)
    requires
        forall|i: int| 0 <= i < source.len() ==> #[trigger] source[i] != '$' && source[i] != '\\',
    ensures
        spec_snippet_parse(source) == Ok::<SnippetView, SnippetError>(
            SnippetView {
                text: source,
                tabstops: seq![
                    seq![
                        TabStopRange { start: source.len() as usize, end: source.len() as usize },
                    ],
                ],
            },
        ),
{
    lemma_body_plain(source, 0, empty_state());
    assert(Seq::<char>::empty() + source.skip(0) =~= source);
    let st = ParseState { text: source, stops: Seq::empty() };
    assert(stop_values(st.stops) =~= Seq::empty());
    assert(assemble(st).tabstops =~= seq![
        seq![TabStopRange { start: source.len() as usize, end: source.len() as usize }],
    ]);
}

// ---------------------------------------------------------------------------
// The parser.
// ---------------------------------------------------------------------------

pub type StopVec = Vec<(usize, Vec<TabStopRange>)>;

pub open spec fn stops_view(v: Seq<(usize, Vec<TabStopRange>)>) -> StopMap {
    v.map_values(|e: (usize, Vec<TabStopRange>)| (e.0, e.1@))
}

pub open spec fn state_of(text: Seq<char>, stops: Seq<(usize, Vec<TabStopRange>)>) -> ParseState {
    ParseState { text, stops: stops_view(stops) }
}

fn is_ascii_digit(c: char) -> (r: bool)
    ensures
        r == is_digit(c),
{
    '0' <= c && c <= '9'
}

proof fn lemma_digits_value_grows(src: Seq<char>, from: int, to: int)
    requires
        from < to,
    ensures
        digits_value(src, from, to) >= digits_value(src, from, to - 1),
{
}

fn parse_int(src: &Vec<char>, pos: usize) -> (r: Result<(usize, usize), SnippetError>)
    requires
        pos <= src@.len(),
    ensures
        match spec_parse_int(src@, pos as int) {
            Ok((v, e)) => r == Ok::<(usize, usize), SnippetError>((v, e as usize)),
            Err(err) => r == Err::<(usize, usize), SnippetError>(err),
        },
        r matches Ok((_, e)) ==> pos < e <= src@.len(),
        spec_parse_int(src@, pos as int) matches Ok((_, e)) ==> pos < e <= src@.len(),
{
    let mut i = pos;
    let mut value: usize = 0;
    let mut overflow = false;
    while i < src.len() && is_ascii_digit(src[i])
        invariant
            pos <= i <= src@.len(),
            digits_end(src@, pos as int) == digits_end(src@, i as int),
            !overflow ==> value == digits_value(src@, pos as int, i as int),
            overflow ==> digits_value(src@, pos as int, i as int) > usize::MAX,
        decreases src@.len() - i,
    {
        let c = src[i];
        let d = (c as u32 - '0' as u32) as usize;
        assert(d == digit_value(src@[i as int]));
        proof {
            lemma_digits_value_grows(src@, pos as int, i + 1);
        }
        if !overflow {
            match value.checked_mul(10) {
                Some(v) => match v.checked_add(d) {
                    Some(v2) => {
                        value = v2;
                    },
                    None => {
                        overflow = true;
                    },
                },
                None => {
                    overflow = true;
                },
            }
        }
        i = i + 1;
    }
    if i == pos {
        Err(SnippetError::ExpectedInteger)
    } else if overflow {
        Err(SnippetError::IndexOverflow)
    } else {
        Ok((value, i))
    }
}

fn parse_choices(src: &Vec<char>, pos: usize, text: &mut Vec<char>) -> (r: Result<
    usize,
    SnippetError,
>)
    requires
        pos <= src@.len(),
    ensures
        match spec_choices(src@, pos as int, true, old(text)@) {
            Ok((p, t)) => r == Ok::<usize, SnippetError>(p as usize) && final(text)@ == t,
            Err(e) => r == Err::<usize, SnippetError>(e),
        },
        r matches Ok(p) ==> pos < p <= src@.len(),
        spec_choices(src@, pos as int, true, old(text)@) matches Ok((p, _)) ==> pos < p
            <= src@.len(),
{
    let mut i = pos;
    let mut first = true;
    loop
        invariant
            pos <= i <= src@.len(),
            spec_choices(src@, pos as int, true, old(text)@) == spec_choices(
                src@,
                i as int,
                first,
                text@,
            ),
        decreases src@.len() - i,
    {
        if i >= src.len() {
            return Err(SnippetError::UnterminatedChoice);
        }
        let c = src[i];
        if c == '\\' {
            if i + 1 < src.len() {
                if first {
                    text.push(src[i + 1]);
                }
                i = i + 2;
            } else {
                return Err(SnippetError::UnterminatedChoice);
            }
        } else if c == ',' {
            first = false;
            i = i + 1;
        } else if c == '|' {
            return Ok(i + 1);
        } else {
            if first {
                text.push(c);
            }
            i = i + 1;
        }
    }
}

fn push_stop(stops: &mut StopVec, k: usize, r: TabStopRange)
    ensures
        stops_view(final(stops)@) == stops_push(stops_view(old(stops)@), k, r),
{
    let ghost m = stops_view(stops@);
    let mut i: usize = 0;
    while i < stops.len() && stops[i].0 < k
        invariant
            i <= stops@.len(),
            m == stops_view(stops@),
            lower_bound(m, k, 0) == lower_bound(m, k, i as int),
        decreases stops@.len() - i,
    {
        i = i + 1;
    }
    assert(lower_bound(m, k, i as int) == i);
    if i < stops.len() && stops[i].0 == k {
        let (key, mut ranges) = stops.remove(i);
        ranges.push(r);
        stops.insert(i, (key, ranges));
        assert(stops_view(stops@) =~= m.update(i as int, (k, m[i as int].1.push(r))));
    } else {
        let mut ranges: Vec<TabStopRange> = Vec::new();
        ranges.push(r);
        stops.insert(i, (k, ranges));
        assert(stops_view(stops@) =~= m.insert(i as int, (k, seq![r])));
    }
}

fn parse_body(
    src: &Vec<char>,
    pos: usize,
    nested: bool,
    text: &mut Vec<char>,
    stops: &mut StopVec,
) -> (r: Result<usize, SnippetError>)
    requires
        pos <= src@.len(),
    ensures
        match spec_body(src@, pos as int, nested, state_of(old(text)@, old(stops)@)) {
            Ok((p, st)) => {
                &&& r == Ok::<usize, SnippetError>(p as usize)
                &&& state_of(final(text)@, final(stops)@) == st
                &&& pos <= p <= src@.len()
            },
            Err(e) => r == Err::<usize, SnippetError>(e),
        },
    decreases src@.len() - pos, 1int,
{
    let mut p = pos;
    loop
        invariant
            pos <= p <= src@.len(),
            spec_body(src@, pos as int, nested, state_of(old(text)@, old(stops)@)) == spec_body(
                src@,
                p as int,
                nested,
                state_of(text@, stops@),
            ),
        decreases src@.len() - p,
    {
        if p >= src.len() {
            return Ok(p);
        }
        let c = src[p];
        if c == '$' {
            match parse_tabstop(src, p + 1, text, stops) {
                Err(e) => {
                    return Err(e);
                },
                Ok(q) => {
                    p = q;
                },
            }
        } else if c == '\\' {
            if p + 1 < src.len() && (src[p + 1] == '$' || src[p + 1] == '\\' || src[p + 1] == '}') {
                text.push(src[p + 1]);
                p = p + 2;
            } else {
                text.push('\\');
                p = p + 1;
            }
        } else if c == '}' && nested {
            return Ok(p);
        } else {
            text.push(c);
            p = p + 1;
        }
    }
}

fn parse_tabstop(src: &Vec<char>, pos: usize, text: &mut Vec<char>, stops: &mut StopVec) -> (r:
    Result<usize, SnippetError>)
    requires
        pos <= src@.len(),
    ensures
        match spec_tabstop(src@, pos as int, state_of(old(text)@, old(stops)@)) {
            Ok((p, st)) => {
                &&& r == Ok::<usize, SnippetError>(p as usize)
                &&& state_of(final(text)@, final(stops)@) == st
                &&& pos < p <= src@.len()
            },
            Err(e) => r == Err::<usize, SnippetError>(e),
        },
    decreases src@.len() - pos, 0int,
{
    let start = text.len();
    if pos < src.len() && src[pos] == '{' {
        let (idx, p1) = match parse_int(src, pos + 1) {
            Err(e) => {
                return Err(e);
            },
            Ok(v) => v,
        };
        let mut p2 = p1;
        if p1 < src.len() && src[p1] == '|' {
            match parse_choices(src, p1 + 1, text) {
                Err(e) => {
                    return Err(e);
                },
                Ok(q) => {
                    p2 = q;
                },
            }
        }
        let mut p3 = p2;
        if p2 < src.len() && src[p2] == ':' {
            match parse_body(src, p2 + 1, true, text, stops) {
                Err(e) => {
                    return Err(e);
                },
                Ok(q) => {
                    p3 = q;
                },
            }
        }
        if p3 < src.len() && src[p3] == '}' {
            let end = text.len();
            push_stop(stops, idx, TabStopRange { start, end });
            Ok(p3 + 1)
        } else {
            Err(SnippetError::ExpectedClosingBrace)
        }
    } else {
        let (idx, p1) = match parse_int(src, pos) {
            Err(e) => {
                return Err(e);
            },
            Ok(v) => v,
        };
        push_stop(stops, idx, TabStopRange { start, end: start });
        Ok(p1)
    }
}

impl Snippet {
    /// Parses `source` as a snippet.
    pub fn parse(source: &str) -> (r: Result<Snippet, SnippetError>)
        ensures
            match spec_snippet_parse(source@) {
                Ok(v) => r matches Ok(s) && s@ == v,
                Err(e) => r == Err::<Snippet, SnippetError>(e),
            },
    {
        let src = str_chars(source);
        let mut text: Vec<char> = Vec::new();
        let mut stops: StopVec = Vec::new();
        assert(stops_view(stops@) =~= Seq::empty());
        assert(text@ =~= Seq::empty());
        assert(state_of(text@, stops@) == empty_state());
        match parse_body(&src, 0, false, &mut text, &mut stops) {
            Err(e) => Err(e),
            Ok(_) => {
                let tabstops = take_tabstops(text.len(), stops);
                Ok(Snippet { text: chars_string(&text), tabstops })
            },
        }
    }
}

/// Puts the tab stops of a finished parse into their final order.
fn take_tabstops(len: usize, stops: StopVec) -> (r: Vec<Vec<TabStopRange>>)
    ensures
        tabstops_view(r@) == assemble(
            ParseState { text: Seq::new(len as nat, |i: int| ' '), stops: stops_view(stops@) },
        ).tabstops,
{
    let ghost m = stops_view(stops@);
    let mut stops = stops;
    let mut out: Vec<Vec<TabStopRange>> = Vec::new();
    let mut final_stop: Option<Vec<TabStopRange>> = None;
    if stops.len() > 0 && stops[0].0 == 0 {
        let (_, ranges) = stops.remove(0);
        final_stop = Some(ranges);
    }
    let ghost rest = stops_view(stops@);
    assert(final_stop is Some ==> rest == m.drop_first());
    assert(final_stop is None ==> rest == m);
    let n = stops.len();
    let mut k: usize = 0;
    while k < n
        invariant
            0 <= k <= n,
            n == stops@.len() + k,
            stops_view(stops@) == rest.skip(k as int),
            rest.len() == n,
            tabstops_view(out@) == stop_values(rest.take(k as int)),
        decreases n - k,
    {
        let ghost before = stops@;
        assert(stops_view(before)[0] == rest[k as int]);
        let (_, ranges) = stops.remove(0);
        assert(ranges@ == rest[k as int].1);
        let ghost old_out = out@;
        assert(tabstops_view(old_out).len() == old_out.len());
        assert(rest.take(k as int).len() == k);
        assert(old_out.len() == k);
        out.push(ranges);
        assert(rest.take(k + 1) == rest.take(k as int).push(rest[k as int]));
        assert forall|j: int| 0 <= j < stops@.len() implies stops_view(stops@)[j] == rest.skip(
            k + 1,
        )[j] by {
            assert(stops@[j] == before[j + 1]);
            assert(stops_view(before)[j + 1] == rest.skip(k as int)[j + 1]);
        }
        assert(stops_view(stops@) =~= rest.skip(k + 1));
        let ghost newv = tabstops_view(out@);
        let ghost want = stop_values(rest.take(k + 1));
        assert(newv.len() == k + 1);
        assert(want.len() == k + 1);
        assert forall|j: int| 0 <= j <= k implies #[trigger] newv[j] == want[j] by {
            if j < k {
                assert(out@[j] == old_out[j]);
                assert(tabstops_view(old_out)[j] == stop_values(rest.take(k as int))[j]);
                assert(rest.take(k as int)[j] == rest.take(k + 1)[j]);
            } else {
                assert(out@[j] == ranges);
                assert(rest.take(k + 1)[j] == rest[k as int]);
            }
        }
        assert(tabstops_view(out@) =~= stop_values(rest.take(k + 1)));
        k = k + 1;
    }
    assert(rest.take(n as int) == rest);
    match final_stop {
        Some(ranges) => {
            out.push(ranges);
            assert(tabstops_view(out@) =~= stop_values(rest).push(m[0].1));
        },
        None => {
            let mut is_end = false;
            if out.len() > 0 {
                let last = &out[out.len() - 1];
                is_end = last.len() == 1 && last[0].start == len && last[0].end == len;
            }
            if !is_end {
                let mut end_stop: Vec<TabStopRange> = Vec::new();
                end_stop.push(TabStopRange { start: len, end: len });
                out.push(end_stop);
            }
            proof {
                let end_seq = seq![TabStopRange { start: len, end: len }];
                let vs = stop_values(rest);
                if vs.len() > 0 {
                    if is_end {
                        assert(vs.last() =~= end_seq);
                    } else {
                        assert(vs.last() != end_seq) by {
                            if vs.last() == end_seq {
                                assert(vs.last()[0] == end_seq[0]);
                            }
                        }
                    }
                }
            }
            assert(tabstops_view(out@) =~= assemble(
                ParseState { text: Seq::new(len as nat, |i: int| ' '), stops: m },
            ).tabstops);
        },
    }
    out
}

} // verus!
