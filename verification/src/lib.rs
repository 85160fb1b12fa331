//! Incremental lexical matching over a fixed set of byte-level regular
//! expression patterns: a deterministic automaton is built once from all
//! patterns, every reachable automaton state is annotated with the interned
//! bitset of patterns that can still complete from it, and a single-step
//! `advance` function drives matching one byte at a time.

pub mod dfa;
pub mod exec;
pub mod fixpoint;
pub mod lexer;
pub mod vobs;
pub mod vobset;
