//! Verbs: predicate capabilities tested against individual symbols during
//! query evaluation. A verb is a pure function of a symbol's visible
//! attributes; it sees no graph context and mutates nothing.

use vstd::prelude::*;
use crate::symbols::{Symbol, SymbolV};

verus! {

/// The mathematical content of a [`Verb`].
pub enum VerbV {
    All,
    Named(Seq<char>),
}

/// The closed set of verb variants: the baseline match-all verb (the
/// default when a statement omits a verb clause) and a name predicate.
#[derive(Debug)]
pub enum Verb {
    All,
    Named(String),
}

/// What a verb says of a symbol's content: match-all accepts every symbol,
/// a name verb accepts exactly the symbols bearing its name.
pub open spec fn verb_matches(v: Verb, s: SymbolV) -> bool {
    match v {
        Verb::All => true,
        Verb::Named(n) => s.name == n@,
    }
}

/// Whether a verb accepts a node the store has no record for: such a node
/// has no attributes, so only the match-all verb accepts it.
pub open spec fn verb_matches_absent(v: Verb) -> bool {
    match v {
        Verb::All => true,
        Verb::Named(_) => false,
    }
}

/// The content of a verb: match-all, or the name it requires.
pub open spec fn verb_view(v: Verb) -> VerbV {
    match v {
        Verb::All => VerbV::All,
        Verb::Named(n) => VerbV::Named(n@),
    }
}

impl Verb {
    /// Tests this verb against one symbol's attributes.
    pub fn matches(&self, symbol: &Symbol) -> (r: bool)
        ensures
            r == verb_matches(*self, symbol@),
    {
        match self {
            Verb::All => true,
            Verb::Named(n) => *n == symbol.name,
        }
    }

    /// Tests this verb against a node with no stored record.
    pub fn matches_absent(&self) -> (r: bool)
        ensures
            r == verb_matches_absent(*self),
    {
        match self {
            Verb::All => true,
            Verb::Named(_) => false,
        }
    }
}

impl Default for Verb {
    /// The verb of a statement with no explicit verb clause: match-all.
    fn default() -> (r: Self)
        ensures
            r == Verb::All,
    {
        Verb::All
    }
}

} // verus!
