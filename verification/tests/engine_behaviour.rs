//! Behaviour tests for the facade, the file scan, the error cases, and one
//! concrete check per law the library states.

use grep_engine::ast::{ParseError, Pattern};
use grep_engine::engine::{compile, match_once};
use grep_engine::file_search::{Line, _File};

#[test]
fn test_match_once_scenarios() {
    assert_eq!(match_once("abc", "abc"), Ok(true));
    assert_eq!(match_once("\\d\\d", "12"), Ok(true));
    assert_eq!(match_once("\\w\\w\\w", "a_Z"), Ok(true));
    assert_eq!(match_once("^abc\\d\\wfg\\d", "abc5_fg5"), Ok(true));
    assert_eq!(match_once("abc\\d\\wfg\\d$", "sadasd135abc5_fg5"), Ok(true));
    assert_eq!(match_once("^strawberry$", "strawberry"), Ok(true));
    assert_eq!(match_once("ca+t", "act"), Ok(false));
    assert_eq!(match_once("ca?at", "cat"), Ok(true));
    assert_eq!(match_once("g.+gol", "goX0Ogol"), Ok(true));
    assert_eq!(match_once("(cat|dog)", "cat"), Ok(true));
    assert_eq!(match_once("^I see \\d+ (cat|dog)s?$", "I see 42 dogs"), Ok(true));
    assert_eq!(match_once("[^xyz]", "abc"), Ok(true));
    assert_eq!(match_once("[^xyz]", "x"), Ok(false));
}

#[test]
fn test_empty_input_no_match() {
    assert_eq!(match_once("abc", ""), Ok(false));
    assert_eq!(match_once("\\d", ""), Ok(false));
    assert_eq!(match_once("[abc]", ""), Ok(false));
    assert_eq!(match_once("\\w", ""), Ok(false));
}

#[test]
fn test_empty_anchor_body_rejected() {
    assert_eq!(compile("^$"), Err(ParseError::InvalidAnchor));
    assert_eq!(compile("^"), Err(ParseError::InvalidAnchor));
    assert_eq!(compile("$"), Err(ParseError::InvalidAnchor));
    assert_eq!(compile(""), Err(ParseError::InvalidAnchor));
}

#[test]
fn test_trailing_backslash_rejected() {
    assert_eq!(compile("\\"), Err(ParseError::UnexpectedEof));
    assert_eq!(compile("ab\\"), Err(ParseError::UnexpectedEof));
}

#[test]
fn test_unclosed_bracket_rejected() {
    assert_eq!(compile("[abc"), Err(ParseError::Unclosed('[')));
    assert_eq!(compile("x[ab"), Err(ParseError::Unclosed('[')));
}

#[test]
fn test_unclosed_group_rejected() {
    assert_eq!(compile("(cat"), Err(ParseError::Unclosed('(')));
    assert_eq!(compile("a(b|c"), Err(ParseError::Unclosed('(')));
}

#[test]
fn test_invalid_escape_rejected() {
    assert_eq!(compile("\\q"), Err(ParseError::InvalidEscape('q')));
    assert_eq!(compile("a\\zb"), Err(ParseError::InvalidEscape('z')));
}

#[test]
fn test_bare_bar_is_literal() {
    // Alternation needs a group; outside one, `|` matches only itself.
    assert_eq!(match_once("a|b", "a"), Ok(false));
    assert_eq!(match_once("a|b", "b"), Ok(false));
    assert_eq!(match_once("a|b", "xa|by"), Ok(true));
    assert_eq!(match_once("cat|dog", "cat"), Ok(false));
    assert_eq!(match_once("cat|dog", "cat|dog"), Ok(true));
}

#[test]
fn test_plain_string_matches_itself_and_containers() {
    // A pattern with no metacharacters matches exactly the inputs that
    // contain it.
    assert_eq!(match_once("hello", "hello"), Ok(true));
    assert_eq!(match_once("hello", "say hello there"), Ok(true));
    assert_eq!(match_once("hello", "hell o"), Ok(false));
}

#[test]
fn test_compile_twice_structurally_equal() {
    let p1: Pattern = compile("^I see \\d+ (cat|dog)s?$").unwrap();
    let p2: Pattern = compile("^I see \\d+ (cat|dog)s?$").unwrap();
    assert_eq!(p1, p2);
}

#[test]
fn test_caret_prefix_restricts() {
    // Whatever ^p matches, p matches.
    assert_eq!(match_once("^abc", "abcd"), Ok(true));
    assert_eq!(match_once("abc", "abcd"), Ok(true));
    assert_eq!(match_once("^bcd", "abcd"), Ok(false));
    assert_eq!(match_once("bcd", "abcd"), Ok(true));
}

#[test]
fn test_dollar_suffix_restricts() {
    // Whatever p$ matches, p matches.
    assert_eq!(match_once("bcd$", "abcd"), Ok(true));
    assert_eq!(match_once("bcd", "abcd"), Ok(true));
    assert_eq!(match_once("abc$", "abcd"), Ok(false));
    assert_eq!(match_once("abc", "abcd"), Ok(true));
}

#[test]
fn test_both_anchors_consume_whole_input() {
    assert_eq!(match_once("^ab?c$", "ac"), Ok(true));
    assert_eq!(match_once("^ab?c$", "abc"), Ok(true));
    assert_eq!(match_once("^a+$", "aaa"), Ok(true));
    assert_eq!(match_once("^a+$", "aab"), Ok(false));
    assert_eq!(match_once("ab?c", "abcd"), Ok(true));
    assert_eq!(match_once("^ab?c$", "abcd"), Ok(false));
}

#[test]
fn test_optional_atom_matches_empty() {
    assert_eq!(match_once("a?", ""), Ok(true));
    assert_eq!(match_once("\\d?", ""), Ok(true));
    assert_eq!(match_once("[xy]?", ""), Ok(true));
    assert_eq!(match_once(".?", ""), Ok(true));
    assert_eq!(match_once("|?", ""), Ok(true));
}

#[test]
fn test_plus_match_implies_single_match() {
    assert_eq!(match_once("a+", "baa"), Ok(true));
    assert_eq!(match_once("a", "baa"), Ok(true));
    assert_eq!(match_once("\\d+", "x123"), Ok(true));
    assert_eq!(match_once("\\d", "x123"), Ok(true));
}

#[test]
fn test_quantified_bracket_class() {
    assert_eq!(match_once("[ab]+", "cab"), Ok(true));
    assert_eq!(match_once("^[ab]+$", "abba"), Ok(true));
    assert_eq!(match_once("^[ab]+$", "abca"), Ok(false));
}

#[test]
fn test_backtracking_across_quantifier() {
    // The quantifier must give characters back for the rest of the body.
    assert_eq!(match_once("^a+ab$", "aaab"), Ok(true));
    assert_eq!(match_once("g.+gol", "gogol"), Ok(true));
}

#[test]
fn test_wildcard_literal_and_classes() {
    assert_eq!(match_once(".", "x"), Ok(true));
    assert_eq!(match_once("a.c", "abc"), Ok(true));
    assert_eq!(match_once("a.c", "axc"), Ok(true));
    assert_eq!(match_once("a.c", "ac"), Ok(false));
    // Inside a bracket expression the dot is a plain literal.
    assert_eq!(match_once("[.]", "x"), Ok(false));
    assert_eq!(match_once("[.]", "."), Ok(true));
}

#[test]
fn test_match_file_selects_matching_lines() {
    let lines = vec![
        Line::new("one cat here".to_string()),
        Line::new("no animals".to_string()),
        Line::new("two dogs there".to_string()),
    ];
    let file = _File::from_lines("pets.txt".to_string(), lines);
    let pattern: Pattern = "(cat|dog)".parse().unwrap();
    let matched = file.match_file(&pattern);
    assert_eq!(matched.len(), 2);
    assert_eq!(matched[0].as_str(), "one cat here");
    assert_eq!(matched[1].as_str(), "two dogs there");
}

#[test]
fn test_match_file_no_matches() {
    let lines = vec![Line::new("alpha".to_string()), Line::new("beta".to_string())];
    let file = _File::from_lines("greek.txt".to_string(), lines);
    let pattern: Pattern = "\\d".parse().unwrap();
    let matched = file.match_file(&pattern);
    assert_eq!(matched.len(), 0);
}

#[test]
fn test_match_once_reports_parse_error() {
    assert_eq!(match_once("(cat", "cat"), Err(ParseError::Unclosed('(')));
}
