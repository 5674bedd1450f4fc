//! Why a compilation stopped.
use vstd::prelude::*;

verus! {

/// The ways in which compiling a pattern fails. Each ends the compilation.
#[derive(Debug)]
pub enum CompilerError {
    /// The printed automaton, one of its labels or one of its numbers could not
    /// be read.
    ParseError(String),
    /// The automaton could not be built for the pattern.
    BuildError { regex: String, source: regex_automata::dfa::dense::BuildError },
    /// A graph breaks the determinism or the referential integrity that the
    /// program printer relies on.
    GraphInvariantError(String),
}

} // verus!
