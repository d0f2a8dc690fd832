//! Propositional-logic satisfiability by refutation resolution.
//!
//! A formula given as text is tokenized, parsed into an expression tree,
//! rewritten to conjunctive normal form, and refuted by resolution over the
//! resulting clause set.

pub mod cnf;
pub mod error;
pub mod expr;
pub mod parse;
pub mod reduce;
pub mod render;
pub mod resolve;
pub mod token;
