use zed_benchmark::snippet::{Snippet, SnippetError, TabStopRange};

fn r(start: usize, end: usize) -> TabStopRange {
    TabStopRange { start, end }
}

fn parse_ok(source: &str) -> Snippet {
    match Snippet::parse(source) {
        Ok(s) => s,
        Err(e) => panic!("{source:?} did not parse: {e:?}"),
    }
}

#[test]
fn plain_text_is_itself_with_a_final_stop() {
    let s = parse_ok("hello");
    assert_eq!(s.text, "hello");
    assert_eq!(s.tabstops, vec![vec![r(5, 5)]]);
}

#[test]
fn empty_snippet() {
    let s = parse_ok("");
    assert_eq!(s.text, "");
    assert_eq!(s.tabstops, vec![vec![r(0, 0)]]);
}

#[test]
fn simple_tab_stops() {
    let s = parse_ok("a$1b$2c");
    assert_eq!(s.text, "abc");
    assert_eq!(s.tabstops, vec![vec![r(1, 1)], vec![r(2, 2)], vec![r(3, 3)]]);
}

#[test]
fn tab_stops_come_in_index_order() {
    let s = parse_ok("$2a$1");
    assert_eq!(s.text, "a");
    assert_eq!(s.tabstops, vec![vec![r(1, 1)], vec![r(0, 0)], vec![r(1, 1)]]);
}

#[test]
fn placeholders_and_final_stop() {
    let s = parse_ok("${1:foo} ${2:bar}$0");
    assert_eq!(s.text, "foo bar");
    assert_eq!(s.tabstops, vec![vec![r(0, 3)], vec![r(4, 7)], vec![r(7, 7)]]);
}

#[test]
fn final_stop_goes_last() {
    let s = parse_ok("${0:x}y$1");
    assert_eq!(s.text, "xy");
    assert_eq!(s.tabstops, vec![vec![r(2, 2)], vec![r(0, 1)]]);
}

#[test]
fn last_stop_at_the_end_is_not_repeated() {
    let s = parse_ok("ab$1");
    assert_eq!(s.text, "ab");
    assert_eq!(s.tabstops, vec![vec![r(2, 2)]]);
}

#[test]
fn repeated_index_collects_ranges() {
    let s = parse_ok("$1 $1");
    assert_eq!(s.text, " ");
    assert_eq!(s.tabstops, vec![vec![r(0, 0), r(1, 1)], vec![r(1, 1)]]);
}

#[test]
fn nested_placeholders() {
    let s = parse_ok("${1:a${2:b}c}");
    assert_eq!(s.text, "abc");
    assert_eq!(s.tabstops, vec![vec![r(0, 3)], vec![r(1, 2)], vec![r(3, 3)]]);
}

#[test]
fn choices_insert_the_first_option() {
    let s = parse_ok("x${1|one,two,three|}y");
    assert_eq!(s.text, "xoney");
    assert_eq!(s.tabstops, vec![vec![r(1, 4)], vec![r(5, 5)]]);
}

#[test]
fn escaped_characters_in_choices() {
    let s = parse_ok("${1|a\\,b,c|}");
    assert_eq!(s.text, "a,b");
}

#[test]
fn escapes() {
    assert_eq!(parse_ok("\\$1").text, "$1");
    assert_eq!(parse_ok("\\\\").text, "\\");
    assert_eq!(parse_ok("${1:a\\}b}").text, "a}b");
    assert_eq!(parse_ok("\\a").text, "\\a");
    assert_eq!(parse_ok("a\\").text, "a\\");
}

#[test]
fn closing_brace_at_top_level_is_text() {
    let s = parse_ok("a}b");
    assert_eq!(s.text, "a}b");
}

#[test]
fn non_ascii_text_counts_characters() {
    let s = parse_ok("é$1ü");
    assert_eq!(s.text, "éü");
    assert_eq!(s.tabstops, vec![vec![r(1, 1)], vec![r(2, 2)]]);
}

#[test]
fn dollar_without_index_is_an_error() {
    assert_eq!(Snippet::parse("a$").unwrap_err(), SnippetError::ExpectedInteger);
    assert_eq!(Snippet::parse("$x").unwrap_err(), SnippetError::ExpectedInteger);
    assert_eq!(Snippet::parse("${x}").unwrap_err(), SnippetError::ExpectedInteger);
}

#[test]
fn huge_index_is_an_error() {
    assert_eq!(
        Snippet::parse("$99999999999999999999999999").unwrap_err(),
        SnippetError::IndexOverflow
    );
}

#[test]
fn unclosed_placeholder_is_an_error() {
    assert_eq!(Snippet::parse("${1:foo").unwrap_err(), SnippetError::ExpectedClosingBrace);
    assert_eq!(Snippet::parse("${1").unwrap_err(), SnippetError::ExpectedClosingBrace);
}

#[test]
fn unclosed_choice_is_an_error() {
    assert_eq!(Snippet::parse("${1|a,b").unwrap_err(), SnippetError::UnterminatedChoice);
    assert_eq!(Snippet::parse("${1|a\\").unwrap_err(), SnippetError::UnterminatedChoice);
}
