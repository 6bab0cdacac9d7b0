//! A small regular-expression engine: patterns are parsed into a syntax tree,
//! compiled into an automaton with epsilon transitions, and simulated over the
//! characters of a haystack.
use vstd::prelude::*;

pub mod ast;
pub mod enfa;
pub mod error;
pub mod laws;
pub mod re;

pub use ast::{AstModel, AstNode, CharModel, Character, CharacterClass, CharacterPattern};
pub use enfa::{Condition, Nfa};
pub use error::Error;
pub use re::RegEx;

verus! {

/// Compiles `pattern` into a matcher, or reports why it does not parse.
pub fn get_regex(pattern: &str) -> (r: Result<RegEx, Error>)
    requires
        pattern@.len() < 800000000,
    ensures
        match (r, ast::parse(pattern@)) {
            (Ok(re), Ok(m)) => re.wf() && re.automaton().compiled_from(m),
            (Err(e), Err(f)) => e == f,
            _ => false,
        },
{
    RegEx::from_pattern(pattern)
}

} // verus!
