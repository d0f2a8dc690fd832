//! Rewriting a formula to conjunctive normal form: one bottom-up rewrite pass
//! (`reduce_spec` / `reduce_once`) applied to a fixed point (`reduce`).

use vstd::arithmetic::power2::{
    lemma2_to64, lemma_pow2_adds, lemma_pow2_pos, lemma_pow2_strictly_increases, lemma_pow2_unfold,
    pow2,
};
use vstd::prelude::*;

use crate::expr::{eval, Expr};

verus! {

/// A termination measure for the rewrite pass. Distribution of `Or` over
/// `And` duplicates a subtree, so the measure is multiplicative under `Or`
/// and exponential under `Not`; it still shrinks at every rewrite.
pub open spec fn msr(e: Expr) -> nat
    decreases e,
{
    match e {
        Expr::Atom(_) => 2,
        Expr::Not(x) => pow2(msr(*x)),
        Expr::And(x, y) => msr(*x) + msr(*y) + 1,
        Expr::Or(x, y) => msr(*x) * msr(*y),
        Expr::IfThen(x, y) => pow2(msr(*x)) * msr(*y) + 1,
        Expr::Iff(x, y) => pow2(msr(*x)) * msr(*y) + pow2(msr(*y)) * msr(*x) + 4,
    }
}

proof fn lemma_pow2_le(a: nat, b: nat)
    requires
        a <= b,
    ensures
        pow2(a) <= pow2(b),
{
    if a < b {
        lemma_pow2_strictly_increases(a, b);
    }
}

proof fn lemma_lt_pow2(n: nat)
    ensures
        n < pow2(n),
    decreases n,
{
    if n == 0 {
        lemma2_to64();
    } else {
        lemma_lt_pow2((n - 1) as nat);
        lemma_pow2_unfold(n);
    }
}

proof fn lemma_msr_ge2(e: Expr)
    ensures
        msr(e) >= 2,
    decreases e,
{
    match e {
        Expr::Atom(_) => {},
        Expr::Not(x) => {
            lemma_msr_ge2(*x);
            lemma_pow2_le(2, msr(*x));
            lemma2_to64();
        },
        Expr::And(x, y) => {
            lemma_msr_ge2(*x);
        },
        Expr::Or(x, y) => {
            lemma_msr_ge2(*x);
            lemma_msr_ge2(*y);
            let a = msr(*x);
            let b = msr(*y);
            assert(a * b >= 4) by (nonlinear_arith)
                requires
                    a >= 2,
                    b >= 2,
            ;
        },
        Expr::IfThen(x, y) => {
            lemma_msr_ge2(*y);
            lemma_pow2_pos(msr(*x));
            let p = pow2(msr(*x));
            let b = msr(*y);
            assert(p * b >= 2) by (nonlinear_arith)
                requires
                    p >= 1,
                    b >= 2,
            ;
        },
        Expr::Iff(x, y) => {},
    }
}

/// Double-negation elimination shrinks the measure.
proof fn lemma_dec_dne(m: nat)
    ensures
        m < pow2(pow2(m)),
{
    lemma_lt_pow2(m);
    lemma_lt_pow2(pow2(m));
}

/// De Morgan on `Not(And(..))` shrinks the measure.
proof fn lemma_dec_not_and(a: nat, b: nat)
    ensures
        pow2(a) * pow2(b) < pow2(a + b + 1),
{
    lemma_pow2_adds(a, b);
    lemma_pow2_unfold(a + b + 1);
    lemma_pow2_pos((a + b) as nat);
}

/// De Morgan on `Not(Or(..))` shrinks the measure.
proof fn lemma_dec_not_or(a: nat, b: nat)
    requires
        a >= 2,
        b >= 2,
    ensures
        pow2(a) + pow2(b) + 1 < pow2(a * b),
{
    assert(a + b <= a * b) by (nonlinear_arith)
        requires
            a >= 2,
            b >= 2,
    ;
    lemma_pow2_adds(a, b);
    lemma_pow2_le(a + b, a * b);
    let x = pow2(a);
    let y = pow2(b);
    lemma_pow2_le(2, a);
    lemma_pow2_le(2, b);
    lemma2_to64();
    assert(x + y + 1 < x * y) by (nonlinear_arith)
        requires
            x >= 4,
            y >= 4,
    ;
}

/// Distributing `Or` over `And` shrinks the measure.
proof fn lemma_dec_distrib(m1: nat, m2: nat, mo: nat)
    requires
        mo >= 2,
    ensures
        mo * m1 + mo * m2 + 1 < (m1 + m2 + 1) * mo,
{
    assert(mo * m1 + mo * m2 + 1 < (m1 + m2 + 1) * mo) by (nonlinear_arith)
        requires
            mo >= 2,
    ;
}

/// Reducing one operand of a plain `Or` shrinks the measure.
proof fn lemma_dec_or_side(a: nat, b: nat)
    requires
        a >= 2,
        b >= 2,
    ensures
        a < a * b,
        b < a * b,
{
    assert(a < a * b && b < a * b) by (nonlinear_arith)
        requires
            a >= 2,
            b >= 2,
    ;
}

/// One rewrite pass over the tree: double-negation elimination, De Morgan,
/// distribution of `Or` over `And`, elimination of `IfThen` and unfolding of
/// `Iff` into two `IfThen`s (the unfolded pair is left for the next pass).
pub open spec fn reduce_spec(e: Expr) -> Expr
    decreases msr(e),
    via reduce_spec_decreases
{
    match e {
        Expr::Atom(_) => e,
        Expr::Not(inner) => match *inner {
            Expr::Not(x) => reduce_spec(*x),
            Expr::And(x, y) => reduce_spec(
                Expr::Or(Box::new(Expr::Not(x)), Box::new(Expr::Not(y))),
            ),
            Expr::Or(x, y) => reduce_spec(
                Expr::And(Box::new(Expr::Not(x)), Box::new(Expr::Not(y))),
            ),
            _ => Expr::Not(Box::new(reduce_spec(*inner))),
        },
        Expr::Or(x, y) => match (*x, *y) {
            (Expr::And(a1, a2), oe) => reduce_spec(
                Expr::And(
                    Box::new(Expr::Or(Box::new(oe), a1)),
                    Box::new(Expr::Or(Box::new(oe), a2)),
                ),
            ),
            (oe, Expr::And(a1, a2)) => reduce_spec(
                Expr::And(
                    Box::new(Expr::Or(Box::new(oe), a1)),
                    Box::new(Expr::Or(Box::new(oe), a2)),
                ),
            ),
            (xe, ye) => Expr::Or(Box::new(reduce_spec(xe)), Box::new(reduce_spec(ye))),
        },
        Expr::And(x, y) => Expr::And(Box::new(reduce_spec(*x)), Box::new(reduce_spec(*y))),
        Expr::IfThen(x, y) => reduce_spec(Expr::Or(Box::new(Expr::Not(x)), y)),
        Expr::Iff(x, y) => Expr::And(
            Box::new(Expr::IfThen(x, y)),
            Box::new(Expr::IfThen(y, x)),
        ),
    }
}

#[via_fn]
proof fn reduce_spec_decreases(e: Expr) {
    lemma_reduce_step_dec(e);
}

/// Every rewrite that `reduce_spec` performs shrinks the measure; these are
/// the inequalities behind its `decreases`, shared with inductions that
/// follow the same recursion.
proof fn lemma_reduce_step_dec(e: Expr)
    ensures
        e matches Expr::Not(i) ==> msr(*i) < msr(e),
        e matches Expr::Not(i) ==> *i matches Expr::Not(x) ==> msr(*x) < msr(e),
        e matches Expr::Not(i) ==> *i matches Expr::And(x, y) ==> msr(
            Expr::Or(Box::new(Expr::Not(x)), Box::new(Expr::Not(y))),
        ) < msr(e),
        e matches Expr::Not(i) ==> *i matches Expr::Or(x, y) ==> msr(
            Expr::And(Box::new(Expr::Not(x)), Box::new(Expr::Not(y))),
        ) < msr(e),
        e matches Expr::Or(x, y) ==> *x matches Expr::And(a1, a2) ==> msr(
            Expr::And(Box::new(Expr::Or(y, a1)), Box::new(Expr::Or(y, a2))),
        ) < msr(e),
        e matches Expr::Or(x, y) ==> *y matches Expr::And(a1, a2) ==> msr(
            Expr::And(Box::new(Expr::Or(x, a1)), Box::new(Expr::Or(x, a2))),
        ) < msr(e),
        e matches Expr::Or(x, y) ==> msr(*x) < msr(e) && msr(*y) < msr(e),
        e matches Expr::And(x, y) ==> msr(*x) < msr(e) && msr(*y) < msr(e),
        e matches Expr::IfThen(x, y) ==> msr(Expr::Or(Box::new(Expr::Not(x)), y)) < msr(e),
{
    match e {
        Expr::Atom(_) => {},
        Expr::Not(inner) => {
            assert(msr(e) == pow2(msr(*inner)));
            lemma_lt_pow2(msr(*inner));
            match *inner {
                Expr::Not(x) => {
                    let m = msr(*x);
                    assert(msr(*inner) == pow2(m));
                    assert(msr(e) == pow2(pow2(m)));
                    lemma_dec_dne(m);
                },
            Expr::And(x, y) => {
                let a = msr(*x);
                let b = msr(*y);
                assert(msr(*inner) == a + b + 1);
                assert(msr(e) == pow2(a + b + 1));
                assert(msr(Expr::Not(x)) == pow2(a));
                assert(msr(Expr::Not(y)) == pow2(b));
                assert(msr(Expr::Or(Box::new(Expr::Not(x)), Box::new(Expr::Not(y)))) == pow2(a)
                    * pow2(b));
                lemma_dec_not_and(a, b);
            },
            Expr::Or(x, y) => {
                let a = msr(*x);
                let b = msr(*y);
                assert(msr(*inner) == a * b);
                assert(msr(e) == pow2(a * b));
                assert(msr(Expr::Not(x)) == pow2(a));
                assert(msr(Expr::Not(y)) == pow2(b));
                assert(msr(Expr::And(Box::new(Expr::Not(x)), Box::new(Expr::Not(y)))) == pow2(a)
                    + pow2(b) + 1);
                lemma_msr_ge2(*x);
                lemma_msr_ge2(*y);
                lemma_dec_not_or(a, b);
            },
                _ => {},
            }
        },
        Expr::Or(x, y) => {
            let a = msr(*x);
            let b = msr(*y);
            assert(msr(e) == a * b);
            lemma_msr_ge2(*x);
            lemma_msr_ge2(*y);
            lemma_dec_or_side(a, b);
            match *x {
                Expr::And(a1, a2) => {
                    let m1 = msr(*a1);
                    let m2 = msr(*a2);
                    let mo = b;
                    assert(msr(*x) == m1 + m2 + 1);
                    assert(msr(Expr::Or(y, a1)) == mo * m1);
                    assert(msr(Expr::Or(y, a2)) == mo * m2);
                    assert(msr(Expr::And(Box::new(Expr::Or(y, a1)), Box::new(Expr::Or(y, a2))))
                        == mo * m1 + mo * m2 + 1);
                    lemma_dec_distrib(m1, m2, mo);
                },
                _ => {},
            }
            match *y {
                Expr::And(a1, a2) => {
                    let m1 = msr(*a1);
                    let m2 = msr(*a2);
                    let mo = a;
                    assert(msr(*y) == m1 + m2 + 1);
                    assert(msr(Expr::Or(x, a1)) == mo * m1);
                    assert(msr(Expr::Or(x, a2)) == mo * m2);
                    assert(msr(Expr::And(Box::new(Expr::Or(x, a1)), Box::new(Expr::Or(x, a2))))
                        == mo * m1 + mo * m2 + 1);
                    lemma_dec_distrib(m1, m2, mo);
                    assert(mo * (m1 + m2 + 1) == (m1 + m2 + 1) * mo) by (nonlinear_arith);
                },
                _ => {},
            }
        },
        Expr::And(x, y) => {
            assert(msr(e) == msr(*x) + msr(*y) + 1);
        },
        Expr::IfThen(x, y) => {
            let a = msr(*x);
            let b = msr(*y);
            assert(msr(e) == pow2(a) * b + 1);
            assert(msr(Expr::Not(x)) == pow2(a));
            assert(msr(Expr::Or(Box::new(Expr::Not(x)), y)) == pow2(a) * b);
        },
        Expr::Iff(x, y) => {},
    }
}

impl Expr {
    /// One rewrite pass over the tree, as `reduce_spec` describes it.
    pub fn reduce_once(&self) -> (r: Expr)
        ensures
            r == reduce_spec(*self),
        decreases msr(*self),
    {
        proof {
            lemma_reduce_step_dec(*self);
        }
        match self {
            Expr::Atom(_) => self.dup(),
            Expr::Not(inner) => match &**inner {
                Expr::Not(x) => x.reduce_once(),
                Expr::And(x, y) => {
                    let t = Expr::Or(
                        Box::new(Expr::Not(Box::new(x.dup()))),
                        Box::new(Expr::Not(Box::new(y.dup()))),
                    );
                    t.reduce_once()
                },
                Expr::Or(x, y) => {
                    let t = Expr::And(
                        Box::new(Expr::Not(Box::new(x.dup()))),
                        Box::new(Expr::Not(Box::new(y.dup()))),
                    );
                    t.reduce_once()
                },
                _ => Expr::Not(Box::new(inner.reduce_once())),
            },
            Expr::Or(x, y) => match (&**x, &**y) {
                (Expr::And(a1, a2), _) => {
                    let t = Expr::And(
                        Box::new(Expr::Or(Box::new(y.dup()), Box::new(a1.dup()))),
                        Box::new(Expr::Or(Box::new(y.dup()), Box::new(a2.dup()))),
                    );
                    t.reduce_once()
                },
                (_, Expr::And(a1, a2)) => {
                    let t = Expr::And(
                        Box::new(Expr::Or(Box::new(x.dup()), Box::new(a1.dup()))),
                        Box::new(Expr::Or(Box::new(x.dup()), Box::new(a2.dup()))),
                    );
                    t.reduce_once()
                },
                (_, _) => Expr::Or(Box::new(x.reduce_once()), Box::new(y.reduce_once())),
            },
            Expr::And(x, y) => Expr::And(Box::new(x.reduce_once()), Box::new(y.reduce_once())),
            Expr::IfThen(x, y) => {
                let t = Expr::Or(Box::new(Expr::Not(Box::new(x.dup()))), Box::new(y.dup()));
                t.reduce_once()
            },
            Expr::Iff(x, y) => Expr::And(
                Box::new(Expr::IfThen(Box::new(x.dup()), Box::new(y.dup()))),
                Box::new(Expr::IfThen(Box::new(y.dup()), Box::new(x.dup()))),
            ),
        }
    }
}

/// A literal: an atom or a negated atom.
pub open spec fn is_lit(e: Expr) -> bool {
    match e {
        Expr::Atom(_) => true,
        Expr::Not(x) => match *x {
            Expr::Atom(_) => true,
            _ => false,
        },
        _ => false,
    }
}

/// A disjunction of literals: the shape a clause is collected from.
pub open spec fn is_clause_shape(e: Expr) -> bool
    decreases e,
{
    match e {
        Expr::Or(x, y) => is_clause_shape(*x) && is_clause_shape(*y),
        _ => is_lit(e),
    }
}

/// Conjunctive normal form: a conjunction of disjunctions of literals.
pub open spec fn is_normal(e: Expr) -> bool
    decreases e,
{
    match e {
        Expr::And(x, y) => is_normal(*x) && is_normal(*y),
        _ => is_clause_shape(e),
    }
}

/// The root variant a rewrite pass can produce: never `IfThen` or `Iff`, and
/// never a negation directly over a negation.
proof fn lemma_reduce_shape(e: Expr)
    ensures
        !(reduce_spec(e) is IfThen),
        !(reduce_spec(e) is Iff),
        reduce_spec(e) matches Expr::Not(i) ==> !(*i is Not),
        e is Atom ==> reduce_spec(e) is Atom,
        e is And ==> reduce_spec(e) is And,
        e is Or ==> (reduce_spec(e) is And || reduce_spec(e) is Or),
        e is IfThen ==> (reduce_spec(e) is And || reduce_spec(e) is Or),
        e is Iff ==> reduce_spec(e) is And,
    decreases msr(e),
{
    lemma_reduce_step_dec(e);
    match e {
        Expr::Atom(_) => {},
        Expr::Not(inner) => match *inner {
            Expr::Not(x) => {
                lemma_reduce_shape(*x);
            },
            Expr::And(x, y) => {
                lemma_reduce_shape(Expr::Or(Box::new(Expr::Not(x)), Box::new(Expr::Not(y))));
            },
            Expr::Or(x, y) => {
                lemma_reduce_shape(Expr::And(Box::new(Expr::Not(x)), Box::new(Expr::Not(y))));
            },
            _ => {
                lemma_reduce_shape(*inner);
            },
        },
        Expr::Or(x, y) => match (*x, *y) {
            (Expr::And(a1, a2), oe) => {
                lemma_reduce_shape(
                    Expr::And(
                        Box::new(Expr::Or(Box::new(oe), a1)),
                        Box::new(Expr::Or(Box::new(oe), a2)),
                    ),
                );
            },
            (oe, Expr::And(a1, a2)) => {
                lemma_reduce_shape(
                    Expr::And(
                        Box::new(Expr::Or(Box::new(oe), a1)),
                        Box::new(Expr::Or(Box::new(oe), a2)),
                    ),
                );
            },
            (_, _) => {},
        },
        Expr::And(x, y) => {},
        Expr::IfThen(x, y) => {
            lemma_reduce_shape(Expr::Or(Box::new(Expr::Not(x)), y));
        },
        Expr::Iff(x, y) => {},
    }
}

/// A tree in conjunctive normal form is a fixed point of the rewrite pass;
/// with `lemma_fixed_point_normal` this is the idempotence of normalization.
pub proof fn lemma_normal_fixed(e: Expr)
    requires
        is_normal(e),
    ensures
        reduce_spec(e) == e,
    decreases e,
{
    reveal_with_fuel(reduce_spec, 2);
    reveal_with_fuel(is_normal, 2);
    reveal_with_fuel(is_clause_shape, 2);
    match e {
        Expr::Atom(_) => {},
        Expr::Not(x) => {},
        Expr::And(x, y) => {
            lemma_normal_fixed(*x);
            lemma_normal_fixed(*y);
        },
        Expr::Or(x, y) => {
            lemma_normal_fixed(*x);
            lemma_normal_fixed(*y);
        },
        _ => {},
    }
}

/// A fixed point of the rewrite pass is in conjunctive normal form.
pub proof fn lemma_fixed_point_normal(e: Expr)
    requires
        reduce_spec(e) == e,
    ensures
        is_normal(e),
    decreases e,
{
    match e {
        Expr::Atom(_) => {},
        Expr::Not(inner) => match *inner {
            Expr::Atom(_) => {},
            Expr::Not(x) => {
                lemma_reduce_shape(*x);
            },
            Expr::And(x, y) => {
                lemma_reduce_shape(Expr::Or(Box::new(Expr::Not(x)), Box::new(Expr::Not(y))));
            },
            Expr::Or(x, y) => {
                lemma_reduce_shape(Expr::And(Box::new(Expr::Not(x)), Box::new(Expr::Not(y))));
            },
            _ => {
                lemma_reduce_shape(*inner);
            },
        },
        Expr::And(x, y) => {
            lemma_fixed_point_normal(*x);
            lemma_fixed_point_normal(*y);
        },
        Expr::Or(x, y) => match (*x, *y) {
            (Expr::And(a1, a2), oe) => {
                lemma_reduce_shape(
                    Expr::And(
                        Box::new(Expr::Or(Box::new(oe), a1)),
                        Box::new(Expr::Or(Box::new(oe), a2)),
                    ),
                );
            },
            (oe, Expr::And(a1, a2)) => {
                lemma_reduce_shape(
                    Expr::And(
                        Box::new(Expr::Or(Box::new(oe), a1)),
                        Box::new(Expr::Or(Box::new(oe), a2)),
                    ),
                );
            },
            (_, _) => {
                lemma_fixed_point_normal(*x);
                lemma_fixed_point_normal(*y);
            },
        },
        Expr::IfThen(x, y) => {
            lemma_reduce_shape(Expr::Or(Box::new(Expr::Not(x)), y));
        },
        Expr::Iff(x, y) => {},
    }
}

/// One rewrite pass does not change the truth value of the formula under any
/// assignment of truth values to its atoms.
pub proof fn lemma_reduce_preserves_eval(e: Expr, v: Map<char, bool>)
    ensures
        eval(reduce_spec(e), v) == eval(e, v),
    decreases msr(e),
{
    reveal_with_fuel(reduce_spec, 2);
    reveal_with_fuel(eval, 3);
    lemma_reduce_step_dec(e);
    match e {
        Expr::Atom(_) => {},
        Expr::Not(inner) => match *inner {
            Expr::Not(x) => {
                lemma_reduce_preserves_eval(*x, v);
            },
            Expr::And(x, y) => {
                lemma_reduce_preserves_eval(
                    Expr::Or(Box::new(Expr::Not(x)), Box::new(Expr::Not(y))),
                    v,
                );
            },
            Expr::Or(x, y) => {
                lemma_reduce_preserves_eval(
                    Expr::And(Box::new(Expr::Not(x)), Box::new(Expr::Not(y))),
                    v,
                );
            },
            _ => {
                lemma_reduce_preserves_eval(*inner, v);
            },
        },
        Expr::Or(x, y) => match (*x, *y) {
            (Expr::And(a1, a2), oe) => {
                lemma_reduce_preserves_eval(
                    Expr::And(
                        Box::new(Expr::Or(Box::new(oe), a1)),
                        Box::new(Expr::Or(Box::new(oe), a2)),
                    ),
                    v,
                );
            },
            (oe, Expr::And(a1, a2)) => {
                lemma_reduce_preserves_eval(
                    Expr::And(
                        Box::new(Expr::Or(Box::new(oe), a1)),
                        Box::new(Expr::Or(Box::new(oe), a2)),
                    ),
                    v,
                );
            },
            (_, _) => {
                lemma_reduce_preserves_eval(*x, v);
                lemma_reduce_preserves_eval(*y, v);
            },
        },
        Expr::And(x, y) => {
            lemma_reduce_preserves_eval(*x, v);
            lemma_reduce_preserves_eval(*y, v);
        },
        Expr::IfThen(x, y) => {
            lemma_reduce_preserves_eval(Expr::Or(Box::new(Expr::Not(x)), y), v);
        },
        Expr::Iff(x, y) => {},
    }
}

/// A rewrite pass never grows the measure, and shrinks it strictly unless
/// its input was already a fixed point; this bounds the fixed-point loop.
proof fn lemma_reduce_msr_dec(e: Expr)
    ensures
        msr(reduce_spec(e)) <= msr(e),
        reduce_spec(e) != e ==> msr(reduce_spec(e)) < msr(e),
    decreases msr(e),
{
    lemma_reduce_step_dec(e);
    match e {
        Expr::Atom(_) => {},
        Expr::Not(inner) => match *inner {
            Expr::Not(x) => {
                lemma_reduce_msr_dec(*x);
            },
            Expr::And(x, y) => {
                lemma_reduce_msr_dec(Expr::Or(Box::new(Expr::Not(x)), Box::new(Expr::Not(y))));
            },
            Expr::Or(x, y) => {
                lemma_reduce_msr_dec(Expr::And(Box::new(Expr::Not(x)), Box::new(Expr::Not(y))));
            },
            _ => {
                lemma_reduce_msr_dec(*inner);
                let ri = reduce_spec(*inner);
                assert(msr(Expr::Not(Box::new(ri))) == pow2(msr(ri)));
                assert(msr(e) == pow2(msr(*inner)));
                lemma_pow2_le(msr(ri), msr(*inner));
                if ri != *inner {
                    lemma_pow2_strictly_increases(msr(ri), msr(*inner));
                }
            },
        },
        Expr::Or(x, y) => match (*x, *y) {
            (Expr::And(a1, a2), oe) => {
                lemma_reduce_msr_dec(
                    Expr::And(
                        Box::new(Expr::Or(Box::new(oe), a1)),
                        Box::new(Expr::Or(Box::new(oe), a2)),
                    ),
                );
            },
            (oe, Expr::And(a1, a2)) => {
                lemma_reduce_msr_dec(
                    Expr::And(
                        Box::new(Expr::Or(Box::new(oe), a1)),
                        Box::new(Expr::Or(Box::new(oe), a2)),
                    ),
                );
            },
            (_, _) => {
                lemma_reduce_msr_dec(*x);
                lemma_reduce_msr_dec(*y);
                let rx = reduce_spec(*x);
                let ry = reduce_spec(*y);
                assert(msr(Expr::Or(Box::new(rx), Box::new(ry))) == msr(rx) * msr(ry));
                assert(msr(e) == msr(*x) * msr(*y));
                lemma_msr_ge2(rx);
                lemma_msr_ge2(ry);
                let a = msr(rx);
                let b = msr(ry);
                let a0 = msr(*x);
                let b0 = msr(*y);
                assert(a * b <= a0 * b0) by (nonlinear_arith)
                    requires
                        a <= a0,
                        b <= b0,
                        a >= 0,
                        b >= 0,
                ;
                assert((a < a0 || b < b0) ==> a * b < a0 * b0) by (nonlinear_arith)
                    requires
                        a <= a0,
                        b <= b0,
                        a >= 2,
                        b >= 2,
                ;
            },
        },
        Expr::And(x, y) => {
            lemma_reduce_msr_dec(*x);
            lemma_reduce_msr_dec(*y);
            let rx = reduce_spec(*x);
            let ry = reduce_spec(*y);
            assert(msr(Expr::And(Box::new(rx), Box::new(ry))) == msr(rx) + msr(ry) + 1);
            assert(msr(e) == msr(*x) + msr(*y) + 1);
        },
        Expr::IfThen(x, y) => {
            lemma_reduce_msr_dec(Expr::Or(Box::new(Expr::Not(x)), y));
        },
        Expr::Iff(x, y) => {
            let a = msr(*x);
            let b = msr(*y);
            assert(msr(Expr::IfThen(x, y)) == pow2(a) * b + 1);
            assert(msr(Expr::IfThen(y, x)) == pow2(b) * a + 1);
            assert(msr(Expr::And(Box::new(Expr::IfThen(x, y)), Box::new(Expr::IfThen(y, x))))
                == pow2(a) * b + pow2(b) * a + 3);
            assert(msr(e) == pow2(a) * b + pow2(b) * a + 4);
        },
    }
}

/// `n` rewrite passes in sequence.
pub open spec fn reduce_iter(n: nat, e: Expr) -> Expr
    decreases n,
{
    if n == 0 {
        e
    } else {
        reduce_spec(reduce_iter((n - 1) as nat, e))
    }
}

/// More passes after a fixed point change nothing.
proof fn lemma_iter_fixed(r: Expr, m: nat)
    requires
        reduce_spec(r) == r,
    ensures
        reduce_iter(m, r) == r,
    decreases m,
{
    if m > 0 {
        lemma_iter_fixed(r, (m - 1) as nat);
    }
}

/// Normalization is idempotent: once the passes reach a fixed point, any
/// number of further passes returns the same tree, so normalizing a second
/// time equals normalizing once.
pub proof fn lemma_reduce_idempotent(x: Expr, n: nat)
    requires
        reduce_spec(reduce_iter(n, x)) == reduce_iter(n, x),
    ensures
        forall|m: nat| #[trigger] reduce_iter(m, reduce_iter(n, x)) == reduce_iter(n, x),
{
    assert forall|m: nat| #[trigger] reduce_iter(m, reduce_iter(n, x)) == reduce_iter(n, x) by {
        lemma_iter_fixed(reduce_iter(n, x), m);
    }
}

impl Expr {
    /// Rewrites the formula to conjunctive normal form: the rewrite pass is
    /// applied until a pass returns its input unchanged. The result is a
    /// fixed point of the pass, is in normal form, and keeps the truth value
    /// of the input under every assignment; a formula already at a fixed
    /// point comes back unchanged, so normalizing twice equals normalizing
    /// once.
    pub fn reduce(&self) -> (r: Expr)
        ensures
            reduce_spec(r) == r,
            is_normal(r),
            forall|v: Map<char, bool>| #[trigger] eval(r, v) == eval(*self, v),
            exists|n: nat| r == reduce_iter(n, *self),
            reduce_spec(*self) == *self ==> r == *self,
    {
        let mut cur = self.dup();
        let ghost mut n: nat = 0;
        loop
            invariant
                cur == reduce_iter(n, *self),
                forall|v: Map<char, bool>| #[trigger] eval(cur, v) == eval(*self, v),
                reduce_spec(*self) == *self ==> cur == *self,
            decreases msr(cur),
        {
            let next = cur.reduce_once();
            proof {
                assert forall|v: Map<char, bool>| #[trigger] eval(next, v) == eval(*self, v) by {
                    lemma_reduce_preserves_eval(cur, v);
                }
            }
            if next.same(&cur) {
                proof {
                    lemma_fixed_point_normal(cur);
                }
                return next;
            }
            proof {
                lemma_reduce_msr_dec(cur);
                n = n + 1;
            }
            cur = next;
        }
    }
}

} // verus!
