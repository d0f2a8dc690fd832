//! The expression tree of propositional formulas, its commutative equality,
//! and its truth-table semantics.

use vstd::prelude::*;

verus! {

/// A propositional formula. `And`, `Or` and `Iff` are commutative for the
/// purposes of `==` on values (see the `PartialEq` impl); `IfThen` is not.
#[derive(Debug)]
pub enum Expr {
    Atom(char),
    Not(Box<Expr>),
    And(Box<Expr>, Box<Expr>),
    Or(Box<Expr>, Box<Expr>),
    IfThen(Box<Expr>, Box<Expr>),
    Iff(Box<Expr>, Box<Expr>),
}

/// Equality of formulas that treats `And`, `Or` and `Iff` as commutative:
/// swapped operands compare equal, while `IfThen` keeps its orientation.
pub open spec fn eqv(a: Expr, b: Expr) -> bool
    decreases a,
{
    match (a, b) {
        (Expr::Atom(x), Expr::Atom(y)) => x == y,
        (Expr::Not(x), Expr::Not(y)) => eqv(*x, *y),
        (Expr::And(a1, a2), Expr::And(b1, b2)) => (eqv(*a1, *b1) && eqv(*a2, *b2)) || (eqv(
            *a1,
            *b2,
        ) && eqv(*a2, *b1)),
        (Expr::Or(a1, a2), Expr::Or(b1, b2)) => (eqv(*a1, *b1) && eqv(*a2, *b2)) || (eqv(*a1, *b2)
            && eqv(*a2, *b1)),
        (Expr::IfThen(a1, a2), Expr::IfThen(b1, b2)) => eqv(*a1, *b1) && eqv(*a2, *b2),
        (Expr::Iff(a1, a2), Expr::Iff(b1, b2)) => (eqv(*a1, *b1) && eqv(*a2, *b2)) || (eqv(
            *a1,
            *b2,
        ) && eqv(*a2, *b1)),
        _ => false,
    }
}

/// The truth value of a formula under an assignment of truth values to atoms.
pub open spec fn eval(e: Expr, v: Map<char, bool>) -> bool
    decreases e,
{
    match e {
        Expr::Atom(c) => v[c],
        Expr::Not(x) => !eval(*x, v),
        Expr::And(x, y) => eval(*x, v) && eval(*y, v),
        Expr::Or(x, y) => eval(*x, v) || eval(*y, v),
        Expr::IfThen(x, y) => !eval(*x, v) || eval(*y, v),
        Expr::Iff(x, y) => eval(*x, v) == eval(*y, v),
    }
}

impl Expr {
    /// A deep copy, equal to the original.
    pub fn dup(&self) -> (r: Expr)
        ensures
            r == *self,
        decreases *self,
    {
        match self {
            Expr::Atom(c) => Expr::Atom(*c),
            Expr::Not(x) => Expr::Not(Box::new(x.dup())),
            Expr::And(x, y) => Expr::And(Box::new(x.dup()), Box::new(y.dup())),
            Expr::Or(x, y) => Expr::Or(Box::new(x.dup()), Box::new(y.dup())),
            Expr::IfThen(x, y) => Expr::IfThen(Box::new(x.dup()), Box::new(y.dup())),
            Expr::Iff(x, y) => Expr::Iff(Box::new(x.dup()), Box::new(y.dup())),
        }
    }

    /// Commutative equality; what `==` on expressions computes.
    pub fn eq_expr(&self, other: &Expr) -> (r: bool)
        ensures
            r == eqv(*self, *other),
        decreases *self,
    {
        match (self, other) {
            (Expr::Atom(x), Expr::Atom(y)) => *x == *y,
            (Expr::Not(x), Expr::Not(y)) => x.eq_expr(y),
            (Expr::And(a1, a2), Expr::And(b1, b2)) => (a1.eq_expr(b1) && a2.eq_expr(b2)) || (
            a1.eq_expr(b2) && a2.eq_expr(b1)),
            (Expr::Or(a1, a2), Expr::Or(b1, b2)) => (a1.eq_expr(b1) && a2.eq_expr(b2)) || (
            a1.eq_expr(b2) && a2.eq_expr(b1)),
            (Expr::IfThen(a1, a2), Expr::IfThen(b1, b2)) => a1.eq_expr(b1) && a2.eq_expr(b2),
            (Expr::Iff(a1, a2), Expr::Iff(b1, b2)) => (a1.eq_expr(b1) && a2.eq_expr(b2)) || (
            a1.eq_expr(b2) && a2.eq_expr(b1)),
            _ => false,
        }
    }

    /// Structural equality: true exactly when the two trees are identical.
    pub fn same(&self, other: &Expr) -> (r: bool)
        ensures
            r == (*self == *other),
        decreases *self,
    {
        match (self, other) {
            (Expr::Atom(x), Expr::Atom(y)) => *x == *y,
            (Expr::Not(x), Expr::Not(y)) => x.same(y),
            (Expr::And(a1, a2), Expr::And(b1, b2)) => a1.same(b1) && a2.same(b2),
            (Expr::Or(a1, a2), Expr::Or(b1, b2)) => a1.same(b1) && a2.same(b2),
            (Expr::IfThen(a1, a2), Expr::IfThen(b1, b2)) => a1.same(b1) && a2.same(b2),
            (Expr::Iff(a1, a2), Expr::Iff(b1, b2)) => a1.same(b1) && a2.same(b2),
            _ => false,
        }
    }
}

impl PartialEq for Expr {
    fn eq(&self, other: &Expr) -> (r: bool) {
        self.eq_expr(other)
    }
}

impl vstd::std_specs::cmp::PartialEqSpecImpl for Expr {
    open spec fn obeys_eq_spec() -> bool {
        true
    }

    open spec fn eq_spec(&self, other: &Expr) -> bool {
        eqv(*self, *other)
    }
}

impl Eq for Expr {

}

} // verus!
