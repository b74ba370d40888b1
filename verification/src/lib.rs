//! A solver for a two-finish assignment problem: each of `N` items must be
//! given one of two finishes (`Matte`, costing one unit, or `Gloss`, free),
//! so that every customer's disjunctive preference set is satisfied, at the
//! lowest possible total cost. The search is a best-first branch-and-bound
//! over partial assignments, pruned early through mandatory constraints
//! extracted from singleton preference sets.

pub mod parser;
pub mod solver;
pub mod types;
