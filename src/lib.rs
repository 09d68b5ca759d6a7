//! Parse-table construction for context-free grammars: nullable / FIRST / FOLLOW
//! analysis, LR(0), LR(1) and LL(1) tables, and the push-down drivers that run them.
//!
//! - `grammar`: symbols, rules, the builder and the `LHS -> S1 S2 ... ;` text form.
//! - `reach`: reachability in adjacency-list graphs.
//! - `analysis`: nullable symbols (by empty derivations), the FIRST / FOLLOW containment
//!   graph, FIRST of sequences, and the can-end-with relation.
//! - `automaton`: items with lookahead sets, closure, GOTO and the canonical collection.
//! - `table`: the LR action table and its conflicts.
//! - `driver`: the shift/reduce machine.
//! - `lr0`, `lr1`: the LR(0) and LR(1) items, states, tables and machines.
//! - `ll1`: the LL(1) table and its machine.

use vstd::prelude::*;

pub mod analysis;
pub mod driver;
pub mod automaton;
pub mod grammar;
pub mod ll1;
pub mod lr0;
pub mod lr1;
pub mod table;
pub mod reach;

pub use analysis::GrammarAnalysis;
pub use grammar::{Grammar, GrammarBuilder, GrammarError, Rule, Symbol};

verus! {

} // verus!
