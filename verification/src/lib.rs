//! A symbol-graph query engine.
//!
//! Symbols extracted from a codebase (functions, types, and their
//! containment/call relationships) are merged into a [`symbols::SymbolMap`],
//! turned into a directed graph ([`cfg::ControlFlowGraph`]), and queried with
//! a small statement language (verbs select symbols, scopes narrow a
//! selection to structurally connected subsets).

pub mod cfg;
pub mod framing;
pub mod parser;
pub mod statement;
pub mod symbols;
pub mod verb;

use vstd::prelude::*;

verus! {

/// A sequence of characters contains no element twice.
pub open spec fn seq_distinct<A>(s: Seq<A>) -> bool {
    forall|i: int, j: int| 0 <= i < j < s.len() ==> s[i] != s[j]
}

} // verus!
