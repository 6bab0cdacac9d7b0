use vstd::prelude::*;

verus! {

/// Why a pattern could not be parsed. Each variant carries a character offset
/// into the pattern.
#[derive(Debug, Clone, Copy, PartialEq, Eq, Structural)]
pub enum Error {
    /// The bracket opened at this offset was never closed.
    UnmatchedBracket(usize),
    /// The pattern ended where a character was still required.
    UnexpectedEof(usize),
    /// The escape starting at this offset names no character class.
    InvalidEscape(usize),
}

} // verus!
