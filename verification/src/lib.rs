//! A small regular-expression engine: a pattern is parsed into a syntax tree,
//! the tree is compiled into a nondeterministic automaton, and the automaton
//! is run against a text to find the extent of a match anchored at its start.
//!
//! - [`expr`] holds the syntax tree and the parser, [`grammar`] laws of the
//!   parser.
//! - [`nfa`] holds the automaton, [`compile`] its construction from a tree.
//! - [`search`] runs an automaton against a text; [`matcher`] holds the
//!   threads of a run as values and the matcher that owns its automaton.
//! - [`language`] says which texts a tree matches and proves that the search
//!   on its automaton finds exactly those; [`greedy`] proves how much of a
//!   text the simplest repetitions take.
//! - [`regex`] wraps the three steps for a pattern given as text.
//! - [`token`] and [`tokenize`] read a pattern as a flat list of tokens.
//! - [`graph`] holds what is used of walks in directed graphs.

pub mod compile;
pub mod expr;
pub mod grammar;
pub mod graph;
pub mod greedy;
pub mod language;
pub mod matcher;
pub mod nfa;
pub mod regex;
pub mod search;
pub mod token;
pub mod tokenize;

pub use expr::Expr;
pub use regex::Regex;
