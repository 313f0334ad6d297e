//! Bounded membership checking for context-free languages.
//!
//! A grammar is read from its text ([`parser`]) into a [`cfg::CFG`], turned into a
//! pushdown automaton ([`pda::PDA`]) and run on an input by a search that spends
//! at most a given number of variable expansions on each of its branches
//! ([`trace`]). [`bound::decide`] does all of it. What the search decides is
//! stated over the mathematical values of these types; [`acceptance`] relates it
//! to the derivations of the grammar.

pub mod acceptance;
pub mod bound;
pub mod cfg;
pub mod parser;
pub mod pda;
pub mod productionrule;
pub mod roundtrip;
pub mod text;
pub mod token;
pub mod trace;
pub mod worklist;
