//! The engine facade: compile a pattern once and match it many times, or
//! parse and match in one step. This is the surface a command-line front end
//! talks to.

use vstd::prelude::*;

use crate::ast::{ParseError, Pattern};
use crate::model::PatternModel;
use crate::parse_spec::spec_parse;
use crate::parser::parse_post;
use crate::semantics::pattern_matches;

verus! {

/// Parse a pattern string into its compiled, immutable form.
pub fn compile(pattern: &str) -> (r: Result<Pattern, ParseError>)
    ensures
        parse_post(pattern@, r),
{
    Pattern::parse(pattern)
}

/// Parse a pattern and match it against one input: whether some alternative
/// of the pattern matches the input, or the parse error.
pub fn match_once(pattern: &str, input: &str) -> (r: Result<bool, ParseError>)
    ensures
        match r {
            Ok(b) => spec_parse(pattern@) matches Ok(m) && b == pattern_matches(m, input@),
            Err(e) => spec_parse(pattern@) == Err::<PatternModel, ParseError>(e),
        },
{
    match Pattern::parse(pattern) {
        Ok(p) => Ok(p.matches(input)),
        Err(e) => Err(e),
    }
}

/// A pattern string paired with the input line it is matched against.
pub struct PatternMatcher {
    pub input_line: String,
    pub pattern: String,
}

impl PatternMatcher {
    /// Whether the pattern matches the input line. The pattern must be one
    /// that parses.
    pub fn match_pattern(&self) -> (r: bool)
        requires
            spec_parse(self.pattern@) is Ok,
        ensures
            r == pattern_matches(spec_parse(self.pattern@)->Ok_0, self.input_line@),
    {
        match Pattern::parse(self.pattern.as_str()) {
            Ok(p) => p.matches(self.input_line.as_str()),
            Err(_) => false,
        }
    }
}

} // verus!
