//! Compiles a regular expression into a constraint program that checks, inside
//! an arithmetic circuit, that a padded byte sequence is accepted by the
//! expression's deterministic automaton.
//!
//! The way from a pattern to a program:
//! - `compile` has the automaton built and printed, and reads the printed form
//!   (`dump`), numbers the states in breadth-first order (`renumber`, with the
//!   proof that the numbers follow the distance from the start in `distance`)
//!   and turns the labels into byte sets (`edges`);
//! - `automaton` says what the resulting graph accepts and checks its invariant;
//! - `metrics` finds the length of the shortest accepted input;
//! - `arkworks` prints the program, `handlers` the templates for single
//!   transitions;
//! - `program` and `circuit` say what the printed statements compute, and prove
//!   that it is the automaton's verdict.
//!
//! `engines` holds the calls into the regular-expression crates, which are
//! trusted; everything else is proved.
pub mod arkworks;
pub mod automaton;
pub mod byte_set;
pub mod circuit;
pub mod compile;
pub mod distance;
pub mod dump;
pub mod edges;
pub mod engines;
pub mod errors;
pub mod handlers;
pub mod metrics;
pub mod program;
pub mod renumber;
pub mod structs;
pub mod text;
