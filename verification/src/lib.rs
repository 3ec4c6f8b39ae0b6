//! A backtracking matcher over a graph of named states.
//!
//! The crate has three parts:
//!
//! * the automaton itself: [`matcher`] (what guards a transition), [`state`]
//!   (a named node with its prioritised transitions), [`automaton`] (the
//!   mathematical model and the definition of acceptance), [`search`] (the
//!   model of the depth-first search and the proofs about it) and [`engine`]
//!   (the executable engine);
//! * [`pattern`]: the three one-token patterns `\d`, `\w` and a literal
//!   character, matched against a line;
//! * [`parser`]: a small set of parser combinators over `&str`.
pub mod matcher;
pub mod automaton;
pub mod state;
pub mod search;
pub mod engine;
pub mod parser;
pub mod pattern;
