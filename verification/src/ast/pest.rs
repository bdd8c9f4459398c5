//! The parser entry point: reads input with one rule of the grammar.
use vstd::prelude::*;
use crate::grammar::parse::parse_chars;
use crate::grammar::rules::parse_spec;
use crate::grammar::tree::Pair;
use crate::grammar::wf::wf_rule;

pub use crate::grammar::tree::Rule;

verus! {

/// Reading failed: `offset` is the character position where it had to stop
/// (the first character that starts no token, or the first token that does not
/// fit the grammar, or the end of the input).
#[derive(Clone, Copy, Debug, PartialEq, Eq, Structural)]
pub struct ParseError {
    pub offset: usize,
}

/// The Conk parser.
pub struct ConkParser;

impl ConkParser {
    /// Reads `input` with rule `rule` from its first token. The node need not
    /// reach the end of the input, except for `Rule::file`.
    pub fn parse(rule: Rule, input: &[char]) -> (res: Result<Pair, ParseError>)
        ensures
            match res {
                Ok(p) => parse_spec(input@, rule) == Ok::<_, int>(p@) && wf_rule(input@, rule, p@),
                Err(e) => parse_spec(input@, rule) == Err::<crate::grammar::tree::SpecPair, _>(
                    e.offset as int,
                ),
            },
    {
        match parse_chars(input, rule) {
            Ok(p) => Ok(p),
            Err(offset) => Err(ParseError { offset }),
        }
    }
}

} // verus!
