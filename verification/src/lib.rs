//! Compilation pipeline for regular expressions: a pattern is parsed into a
//! grammar tree, compiled into a nondeterministic finite automaton by
//! Thompson's construction, and finally turned into an equivalent
//! deterministic automaton by subset construction.

pub mod automata;
pub mod closure;
pub mod language;
pub mod regex;
pub mod subset;
