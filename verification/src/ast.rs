//! The abstract syntax tree a pattern string is parsed into, and the parse
//! errors. A `Pattern` is a non-empty list of alternatives (`SubPattern`s),
//! each a non-empty list of `Token`s; alternation is represented by
//! expansion into sibling sub-patterns rather than by a branching node.

use vstd::prelude::*;

verus! {

/// A single-character class: `\d` (ASCII digits) or `\w` (ASCII letters and
/// underscore).
#[derive(Debug, PartialEq, Eq, Clone, Copy)]
pub enum CharClass {
    Digit,
    Identifier,
}

/// A bracket expression: `[...]` matches one character listed, `[^...]`
/// matches one character not listed. The lists hold `Token::Literal`s only.
#[derive(Debug, PartialEq, Eq)]
pub enum GroupClass {
    MatchOne(Vec<Token>),
    MatchNone(Vec<Token>),
}

/// Which anchors a sub-pattern carries: `^body`, `body$`, or `^body$`.
#[derive(Debug, PartialEq, Eq, Clone, Copy)]
pub enum Anchor {
    Start,
    End,
    Both,
}

/// One element of a parsed sub-pattern.
///
/// `SOL`, `EOL` and `Exact` wrap the whole token list of an anchored
/// sub-pattern and appear only as its single top-level token; `EOL` stores
/// its tokens reversed so the matcher can walk a reversed input forwards.
/// `OneORMore` and `OneOrNone` wrap a single non-anchor, non-quantifier
/// token.
#[derive(Debug, PartialEq, Eq)]
pub enum Token {
    Literal(char),
    CharClass(CharClass),
    GroupClass(GroupClass),
    SOL(Vec<Token>),
    EOL(Vec<Token>),
    Exact(Vec<Token>),
    OneORMore(Box<Token>),
    OneOrNone(Box<Token>),
}

/// What matching one token against the input at some position yields:
/// at most one continuation position, or several candidate continuation
/// positions to try in order (shortest consumption first).
#[derive(Debug, PartialEq, Eq)]
pub enum Remaining {
    Single(Option<usize>),
    Multiple(Vec<usize>),
}

/// A parse-time error. No error can arise during matching.
#[derive(Debug, PartialEq, Eq, Clone, Copy)]
pub enum ParseError {
    /// A `[` without a matching `]`, or a `(` without a `)`; carries the
    /// opening delimiter.
    Unclosed(char),
    /// `\` followed by a character other than `d`, `w` or `\`; carries that
    /// character.
    InvalidEscape(char),
    /// `\` at the end of the pattern.
    UnexpectedEof,
    /// An anchored or plain alternative with an empty body, such as `^$`.
    InvalidAnchor,
}

/// One alternative: an ordered token sequence, which matches an input
/// prefix by matching each token in order.
#[derive(Debug, PartialEq, Eq)]
pub struct SubPattern {
    pub tokens: Vec<Token>,
}

/// A parsed pattern: its alternatives, tried in order.
#[derive(Debug, PartialEq, Eq)]
pub struct Pattern {
    pub sub_patterns: Vec<SubPattern>,
}

} // verus!
