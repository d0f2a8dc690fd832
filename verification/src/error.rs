//! The errors a pipeline stage can stop with.

use vstd::prelude::*;

use crate::expr::Expr;
use crate::token::Token;

verus! {

/// Every way the pipeline can fail. Each stage stops at its first error and
/// nothing later runs.
#[derive(Debug)]
pub enum ParseError {
    /// The caller supplied no formula.
    NoInput,
    /// The tokenizer met this character where it expected none.
    TokenizeError(char),
    /// The parser met this token where the stacks could not take it.
    NotError(Token),
    /// The operand stack did not hold exactly one expression at the end.
    PopError,
    /// This subexpression is not in conjunctive normal form where one was
    /// required.
    CNFError(Expr),
}

} // verus!
