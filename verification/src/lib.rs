//! A small regular-expression engine with a deliberately restricted dialect:
//! literals, the `\d` and `\w` character classes, positive and negative
//! bracket classes, start and end anchors, the `+` and `?` quantifiers, the
//! `.` wildcard, and top-level alternation through parenthesised groups.
//!
//! A pattern string is parsed into a [`ast::Pattern`] (a list of alternative
//! token sequences) and matched against an input by a backtracking walk over
//! the tokens. Both halves are specified against a mathematical model: the
//! parser's result is pinned by [`parse_spec::spec_parse`] and the matcher's
//! by [`semantics::pattern_matches`]; [`laws`] proves the engine's
//! cross-cutting properties from those two specifications.

pub mod ast;
pub mod chars;
pub mod engine;
pub mod file_search;
pub mod laws;
pub mod matcher;
pub mod model;
pub mod parse_spec;
pub mod parser;
pub mod semantics;
