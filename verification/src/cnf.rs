//! Clauses and clause sets, and the conversion of a reduced formula into
//! conjunctive normal form as a set of clauses.

use vstd::prelude::*;

use crate::error::ParseError;
use crate::expr::{eval, Expr};
use crate::reduce::{is_clause_shape, is_lit, is_normal};

verus! {

broadcast use vstd::set::group_set_axioms;

pub(crate) proof fn lemma_to_set_push(s: Seq<Expr>, a: Expr)
    ensures
        s.push(a).to_set() =~= s.to_set().insert(a),
{
    assert forall|x: Expr| s.push(a).to_set().contains(x) implies s.to_set().insert(a).contains(
        x,
    ) by {
        let i = choose|i: int| 0 <= i < s.push(a).len() && s.push(a)[i] == x;
        if i < s.len() {
            assert(s[i] == x);
        }
    }
    assert forall|x: Expr| s.to_set().insert(a).contains(x) implies s.push(a).to_set().contains(
        x,
    ) by {
        if x == a {
            assert(s.push(a)[s.len() as int] == x);
        } else {
            let i = choose|i: int| 0 <= i < s.len() && s[i] == x;
            assert(s.push(a)[i] == x);
        }
    }
}

/// The set of the views of the first `k` clauses of a vector of clauses.
pub open spec fn prefix_views(cs: Seq<Clause>, k: int) -> Set<Set<Expr>> {
    Set::new(|s: Set<Expr>| exists|j: int| 0 <= j < k && (#[trigger] cs[j])@ == s)
}

proof fn lemma_prefix_views_same(cs: Seq<Clause>, cs2: Seq<Clause>, k: int)
    requires
        0 <= k <= cs.len(),
        0 <= k <= cs2.len(),
        forall|j: int| 0 <= j < k ==> cs[j] == cs2[j],
    ensures
        prefix_views(cs, k) =~= prefix_views(cs2, k),
{
    assert forall|s: Set<Expr>| prefix_views(cs, k).contains(s) implies prefix_views(
        cs2,
        k,
    ).contains(s) by {
        let j = choose|j: int| 0 <= j < k && cs[j]@ == s;
        assert(cs2[j]@ == s);
    }
    assert forall|s: Set<Expr>| prefix_views(cs2, k).contains(s) implies prefix_views(
        cs,
        k,
    ).contains(s) by {
        let j = choose|j: int| 0 <= j < k && cs2[j]@ == s;
        assert(cs[j]@ == s);
    }
}

proof fn lemma_prefix_views_step(cs: Seq<Clause>, k: int)
    requires
        0 <= k < cs.len(),
    ensures
        prefix_views(cs, k + 1) =~= prefix_views(cs, k).insert(cs[k]@),
{
    assert forall|s: Set<Expr>| prefix_views(cs, k + 1).contains(s) implies prefix_views(
        cs,
        k,
    ).insert(cs[k]@).contains(s) by {
        let j = choose|j: int| 0 <= j < k + 1 && cs[j]@ == s;
        if j < k {
            assert(prefix_views(cs, k).contains(s));
        }
    }
    assert forall|s: Set<Expr>| prefix_views(cs, k).insert(cs[k]@).contains(s) implies prefix_views(
        cs,
        k + 1,
    ).contains(s) by {
        if s == cs[k]@ {
            assert(cs[k]@ == s);
        } else {
            let j = choose|j: int| 0 <= j < k && cs[j]@ == s;
            assert(0 <= j < k + 1 && cs[j]@ == s);
        }
    }
}

/// The view of a clause set is always a finite set.
pub proof fn lemma_prefix_views_finite(cs: Seq<Clause>, k: int)
    requires
        0 <= k <= cs.len(),
    ensures
        prefix_views(cs, k).finite(),
        prefix_views(cs, k).len() <= k,
    decreases k,
{
    if k == 0 {
        assert(prefix_views(cs, 0) =~= Set::<Set<Expr>>::empty());
    } else {
        lemma_prefix_views_finite(cs, k - 1);
        lemma_prefix_views_step(cs, k - 1);
        assert(prefix_views(cs, k) =~= prefix_views(cs, k - 1).insert(cs[k - 1]@));
    }
}

/// A clause: a set of literals, read as their disjunction. Duplicates (by
/// structural equality) collapse; the order of the vector does not matter to
/// the view.
pub struct Clause {
    pub lits: Vec<Expr>,
}

impl View for Clause {
    type V = Set<Expr>;

    open spec fn view(&self) -> Set<Expr> {
        self.lits@.to_set()
    }
}

impl Clause {
    /// Every member is a literal and no member repeats.
    pub open spec fn wf(&self) -> bool {
        &&& forall|k: int| 0 <= k < self.lits@.len() ==> is_lit(#[trigger] self.lits@[k])
        &&& forall|k: int, j: int|
            0 <= k < j < self.lits@.len() ==> self.lits@[k] != self.lits@[j]
    }

    pub fn new() -> (c: Clause)
        ensures
            c.wf(),
            c@ == Set::<Expr>::empty(),
            c.lits@ == Seq::<Expr>::empty(),
    {
        let c = Clause { lits: Vec::new() };
        proof {
            assert(c@ =~= Set::<Expr>::empty());
        }
        c
    }

    pub fn dup(&self) -> (c: Clause)
        ensures
            c.lits@ == self.lits@,
            c@ == self@,
            self.wf() ==> c.wf(),
    {
        let mut lits: Vec<Expr> = Vec::new();
        let mut k: usize = 0;
        while k < self.lits.len()
            invariant
                k <= self.lits@.len(),
                lits@ =~= self.lits@.take(k as int),
            decreases self.lits@.len() - k,
        {
            lits.push(self.lits[k].dup());
            k = k + 1;
        }
        proof {
            assert(lits@ =~= self.lits@);
        }
        Clause { lits }
    }

    /// Whether the clause holds this literal, by structural equality.
    pub fn contains_lit(&self, e: &Expr) -> (r: bool)
        ensures
            r == self@.contains(*e),
    {
        let mut k: usize = 0;
        while k < self.lits.len()
            invariant
                k <= self.lits@.len(),
                forall|j: int| 0 <= j < k ==> self.lits@[j] != *e,
            decreases self.lits@.len() - k,
        {
            if self.lits[k].same(e) {
                return true;
            }
            k = k + 1;
        }
        false
    }

    /// Adds a literal; a literal already present is not repeated.
    pub fn insert_lit(&mut self, e: Expr)
        requires
            is_lit(e),
            old(self).wf(),
        ensures
            final(self).wf(),
            final(self)@ == old(self)@.insert(e),
            old(self).lits@.contains(e) ==> final(self).lits@ == old(self).lits@,
            !old(self).lits@.contains(e) ==> final(self).lits@ == old(self).lits@.push(e),
    {
        if self.contains_lit(&e) {
            proof {
                assert(self.lits@ == old(self).lits@);
                assert(self.lits@.contains(e));
                assert(self@ =~= old(self)@.insert(e));
            }
        } else {
            self.lits.push(e);
            proof {
                assert(self.lits@ == old(self).lits@.push(e));
                lemma_to_set_push(old(self).lits@, e);
                assert(self@ =~= old(self)@.insert(e));
            }
        }
    }

    pub fn is_empty(&self) -> (r: bool)
        ensures
            r == (self@ =~= Set::<Expr>::empty()),
    {
        proof {
            if self.lits@.len() > 0 {
                assert(self@.contains(self.lits@[0]));
            } else {
                assert(self@ =~= Set::<Expr>::empty());
            }
        }
        self.lits.len() == 0
    }

    /// Whether every literal of this clause is in `other`.
    pub fn subset_of(&self, other: &Clause) -> (r: bool)
        ensures
            r == self@.subset_of(other@),
    {
        let mut k: usize = 0;
        while k < self.lits.len()
            invariant
                k <= self.lits@.len(),
                forall|j: int| 0 <= j < k ==> other@.contains(#[trigger] self.lits@[j]),
            decreases self.lits@.len() - k,
        {
            if !other.contains_lit(&self.lits[k]) {
                return false;
            }
            k = k + 1;
        }
        true
    }

    /// Set equality of two clauses.
    pub fn set_eq(&self, other: &Clause) -> (r: bool)
        ensures
            r == (self@ == other@),
    {
        let r = self.subset_of(other) && other.subset_of(self);
        proof {
            if r {
                assert(self@ =~= other@);
            }
        }
        r
    }

    /// The union of two clauses: the left clause's literals, then each right
    /// literal not already present, in order.
    pub fn union(&self, other: &Clause) -> (c: Clause)
        requires
            self.wf(),
            other.wf(),
        ensures
            c.wf(),
            c@ == self@ + other@,
            c.lits@ == union_lits(self.lits@, other.lits@),
    {
        let mut c = self.dup();
        let mut k: usize = 0;
        proof {
            assert(other.lits@.take(0) =~= Seq::<Expr>::empty());
        }
        while k < other.lits.len()
            invariant
                k <= other.lits@.len(),
                c.wf(),
                other.wf(),
                c@ =~= self@ + other.lits@.take(k as int).to_set(),
                c.lits@ == union_lits(self.lits@, other.lits@.take(k as int)),
            decreases other.lits@.len() - k,
        {
            proof {
                assert(other.lits@.take(k as int + 1) =~= other.lits@.take(k as int).push(
                    other.lits@[k as int],
                ));
                lemma_to_set_push(other.lits@.take(k as int), other.lits@[k as int]);
                assert(other.lits@.take(k as int + 1).drop_last() =~= other.lits@.take(k as int));
                assert(union_lits(self.lits@, other.lits@.take(k as int + 1)) == (
                if union_lits(self.lits@, other.lits@.take(k as int)).contains(
                    other.lits@[k as int],
                ) {
                    union_lits(self.lits@, other.lits@.take(k as int))
                } else {
                    union_lits(self.lits@, other.lits@.take(k as int)).push(
                        other.lits@[k as int],
                    )
                }));
            }
            c.insert_lit(other.lits[k].dup());
            k = k + 1;
        }
        proof {
            assert(other.lits@.take(other.lits@.len() as int) =~= other.lits@);
            assert(c@ =~= self@ + other@);
        }
        c
    }
}

/// The literal sequence of a clause union: the left sequence, then each
/// right literal that is not yet present, in order.
pub open spec fn union_lits(a: Seq<Expr>, b: Seq<Expr>) -> Seq<Expr>
    decreases b.len(),
{
    if b.len() == 0 {
        a
    } else {
        let u = union_lits(a, b.drop_last());
        if u.contains(b.last()) {
            u
        } else {
            u.push(b.last())
        }
    }
}

/// A clause set: a set of clauses, read as the conjunction of their
/// disjunctions.
pub struct ClauseSet {
    pub clauses: Vec<Clause>,
}

impl View for ClauseSet {
    type V = Set<Set<Expr>>;

    open spec fn view(&self) -> Set<Set<Expr>> {
        prefix_views(self.clauses@, self.clauses@.len() as int)
    }
}

impl ClauseSet {
    /// Every clause is well formed and no two clauses are the same set.
    pub open spec fn wf(&self) -> bool {
        &&& forall|k: int| 0 <= k < self.clauses@.len() ==> (#[trigger] self.clauses@[k]).wf()
        &&& forall|k: int, j: int|
            0 <= k < j < self.clauses@.len() ==> self.clauses@[k]@ != self.clauses@[j]@
    }

    pub fn new() -> (f: ClauseSet)
        ensures
            f.wf(),
            f@ == Set::<Set<Expr>>::empty(),
            f.clauses@ == Seq::<Clause>::empty(),
    {
        let f = ClauseSet { clauses: Vec::new() };
        proof {
            assert(f@ =~= Set::<Set<Expr>>::empty());
        }
        f
    }

    pub fn dup(&self) -> (f: ClauseSet)
        requires
            self.wf(),
        ensures
            f.wf(),
            f@ == self@,
            f.clauses@.len() == self.clauses@.len(),
            forall|k: int| 0 <= k < self.clauses@.len() ==> f.clauses@[k]@ == self.clauses@[k]@,
            forall|k: int|
                0 <= k < self.clauses@.len() ==> (#[trigger] f.clauses@[k]).lits@
                    == self.clauses@[k].lits@,
    {
        let mut clauses: Vec<Clause> = Vec::new();
        let mut k: usize = 0;
        while k < self.clauses.len()
            invariant
                k <= self.clauses@.len(),
                self.wf(),
                clauses@.len() == k,
                forall|j: int|
                    0 <= j < k ==> (#[trigger] clauses@[j])@ == self.clauses@[j]@
                        && clauses@[j].wf() && clauses@[j].lits@ == self.clauses@[j].lits@,
            decreases self.clauses@.len() - k,
        {
            clauses.push(self.clauses[k].dup());
            k = k + 1;
        }
        let f = ClauseSet { clauses };
        proof {
            assert forall|s: Set<Expr>| f@.contains(s) implies self@.contains(s) by {
                let j = choose|j: int| 0 <= j < f.clauses@.len() && f.clauses@[j]@ == s;
                assert(self.clauses@[j]@ == s);
            }
            assert forall|s: Set<Expr>| self@.contains(s) implies f@.contains(s) by {
                let j = choose|j: int| 0 <= j < self.clauses@.len() && self.clauses@[j]@ == s;
                assert(f.clauses@[j]@ == s);
            }
            assert(f@ =~= self@);
        }
        f
    }

    /// Whether the set holds this clause, by set equality of clauses.
    pub fn contains_clause(&self, c: &Clause) -> (r: bool)
        ensures
            r == self@.contains(c@),
    {
        let mut k: usize = 0;
        while k < self.clauses.len()
            invariant
                k <= self.clauses@.len(),
                forall|j: int| 0 <= j < k ==> (#[trigger] self.clauses@[j])@ != c@,
            decreases self.clauses@.len() - k,
        {
            if self.clauses[k].set_eq(c) {
                return true;
            }
            k = k + 1;
        }
        false
    }

    /// Adds a clause; a clause already present as a set is not repeated.
    pub fn insert_clause(&mut self, c: Clause)
        requires
            c.wf(),
            old(self).wf(),
        ensures
            final(self).wf(),
            final(self)@ == old(self)@.insert(c@),
            old(self)@.contains(c@) ==> final(self).clauses@ == old(self).clauses@,
            !old(self)@.contains(c@) ==> final(self).clauses@ == old(self).clauses@.push(c),
    {
        if self.contains_clause(&c) {
            proof {
                assert(self.clauses@ == old(self).clauses@);
                assert forall|s: Set<Expr>| old(self)@.insert(c@).contains(s) implies self@.contains(
                    s,
                ) by {
                    if s == c@ {
                        assert(self@.contains(c@));
                    }
                }
                assert(self@ =~= old(self)@.insert(c@));
            }
        } else {
            let ghost n0 = old(self).clauses@.len() as int;
            self.clauses.push(c);
            proof {
                lemma_prefix_views_step(self.clauses@, n0);
                lemma_prefix_views_same(self.clauses@, old(self).clauses@, n0);
                assert(self.clauses@[n0]@ == c@);
                assert(self@ =~= old(self)@.insert(c@));
            }
        }
    }

    pub fn len(&self) -> (n: usize)
        ensures
            n == self.clauses@.len(),
    {
        self.clauses.len()
    }

    /// The union of two clause sets.
    pub fn union(&self, other: &ClauseSet) -> (f: ClauseSet)
        requires
            self.wf(),
            other.wf(),
        ensures
            f.wf(),
            f@ == self@ + other@,
    {
        let mut f = self.dup();
        let mut k: usize = 0;
        while k < other.clauses.len()
            invariant
                k <= other.clauses@.len(),
                f.wf(),
                other.wf(),
                f@ =~= self@ + prefix_views(other.clauses@, k as int),
            decreases other.clauses@.len() - k,
        {
            f.insert_clause(other.clauses[k].dup());
            proof {
                lemma_prefix_views_step(other.clauses@, k as int);
            }
            k = k + 1;
        }
        proof {
            assert(f@ =~= self@ + other@);
        }
        f
    }
}

/// The truth of a clause under an assignment: some literal of it is true.
pub open spec fn clause_sat(c: Set<Expr>, v: Map<char, bool>) -> bool {
    exists|l: Expr| #[trigger] c.contains(l) && eval(l, v)
}

/// The truth of a clause set under an assignment: every clause is true.
pub open spec fn cnf_sat(f: Set<Set<Expr>>, v: Map<char, bool>) -> bool {
    forall|c: Set<Expr>| #[trigger] f.contains(c) ==> clause_sat(c, v)
}

/// The clause a disjunction collapses into: every leaf reached through
/// nested `Or` must be a literal.
pub open spec fn cnf_or_spec(e: Expr) -> Result<Set<Expr>, ParseError>
    decreases e,
{
    if is_lit(e) {
        Ok(Set::empty().insert(e))
    } else {
        match e {
            Expr::Or(x, y) => match cnf_or_spec(*x) {
                Ok(s1) => match cnf_or_spec(*y) {
                    Ok(s2) => Ok(s1 + s2),
                    Err(er) => Err(er),
                },
                Err(er) => Err(er),
            },
            _ => Err(ParseError::CNFError(e)),
        }
    }
}

/// The clause set of a reduced tree: a conjunction contributes the union of
/// the clause sets of its sides, a disjunction contributes one clause, and a
/// literal contributes a singleton clause.
pub open spec fn cnf_and_spec(e: Expr) -> Result<Set<Set<Expr>>, ParseError>
    decreases e,
{
    if is_lit(e) {
        Ok(Set::empty().insert(Set::empty().insert(e)))
    } else {
        match e {
            Expr::And(x, y) => match cnf_and_spec(*x) {
                Ok(f1) => match cnf_and_spec(*y) {
                    Ok(f2) => Ok(f1 + f2),
                    Err(er) => Err(er),
                },
                Err(er) => Err(er),
            },
            Expr::Or(_, _) => match cnf_or_spec(e) {
                Ok(c) => Ok(Set::empty().insert(c)),
                Err(er) => Err(er),
            },
            _ => Err(ParseError::CNFError(e)),
        }
    }
}

/// What `to_cnf` accepts: a reduced tree whose root is `And` or `Or`.
pub open spec fn to_cnf_spec(e: Expr) -> Result<Set<Set<Expr>>, ParseError> {
    match e {
        Expr::And(_, _) => cnf_and_spec(e),
        Expr::Or(_, _) => cnf_and_spec(e),
        _ => Err(ParseError::CNFError(e)),
    }
}

impl Expr {
    /// Collects the literals of a disjunction into one clause, exactly as
    /// `cnf_or_spec` describes.
    pub fn cnf_or(&self) -> (r: Result<Clause, ParseError>)
        ensures
            r matches Ok(c) ==> c.wf() && cnf_or_spec(*self) == Ok::<Set<Expr>, ParseError>(c@),
            r matches Err(e) ==> cnf_or_spec(*self) == Err::<Set<Expr>, ParseError>(e),
        decreases *self,
    {
        match self {
            Expr::Atom(_) => {
                let mut c = Clause::new();
                c.insert_lit(self.dup());
                Ok(c)
            },
            Expr::Not(x) => match &**x {
                Expr::Atom(_) => {
                    let mut c = Clause::new();
                    c.insert_lit(self.dup());
                    Ok(c)
                },
                _ => Err(ParseError::CNFError(self.dup())),
            },
            Expr::Or(x, y) => {
                let c1 = match x.cnf_or() {
                    Ok(c) => c,
                    Err(e) => {
                        return Err(e);
                    },
                };
                let c2 = match y.cnf_or() {
                    Ok(c) => c,
                    Err(e) => {
                        return Err(e);
                    },
                };
                Ok(c1.union(&c2))
            },
            _ => Err(ParseError::CNFError(self.dup())),
        }
    }

    /// Converts a reduced tree into a clause set, exactly as `cnf_and_spec`
    /// describes. Every clause of a successful conversion holds literals
    /// only.
    pub fn cnf_and(&self) -> (r: Result<ClauseSet, ParseError>)
        ensures
            r matches Ok(f) ==> f.wf() && cnf_and_spec(*self) == Ok::<
                Set<Set<Expr>>,
                ParseError,
            >(f@),
            r matches Err(e) ==> cnf_and_spec(*self) == Err::<Set<Set<Expr>>, ParseError>(e),
        decreases *self,
    {
        match self {
            Expr::Atom(_) => {
                let mut c = Clause::new();
                c.insert_lit(self.dup());
                let mut f = ClauseSet::new();
                f.insert_clause(c);
                Ok(f)
            },
            Expr::Not(x) => match &**x {
                Expr::Atom(_) => {
                    let mut c = Clause::new();
                    c.insert_lit(self.dup());
                    let mut f = ClauseSet::new();
                    f.insert_clause(c);
                    Ok(f)
                },
                _ => Err(ParseError::CNFError(self.dup())),
            },
            Expr::And(x, y) => {
                let f1 = match x.cnf_and() {
                    Ok(f) => f,
                    Err(e) => {
                        return Err(e);
                    },
                };
                let f2 = match y.cnf_and() {
                    Ok(f) => f,
                    Err(e) => {
                        return Err(e);
                    },
                };
                Ok(f1.union(&f2))
            },
            Expr::Or(_, _) => match self.cnf_or() {
                Ok(c) => {
                    let mut f = ClauseSet::new();
                    f.insert_clause(c);
                    Ok(f)
                },
                Err(e) => Err(e),
            },
            _ => Err(ParseError::CNFError(self.dup())),
        }
    }

    /// Converts a reduced tree whose root is a conjunction or a disjunction;
    /// any other root is rejected, as `to_cnf_spec` describes.
    pub fn to_cnf(&self) -> (r: Result<ClauseSet, ParseError>)
        ensures
            r matches Ok(f) ==> f.wf() && to_cnf_spec(*self) == Ok::<
                Set<Set<Expr>>,
                ParseError,
            >(f@),
            r matches Err(e) ==> to_cnf_spec(*self) == Err::<Set<Set<Expr>>, ParseError>(e),
    {
        match self {
            Expr::And(_, _) => self.cnf_and(),
            Expr::Or(_, _) => self.cnf_and(),
            _ => Err(ParseError::CNFError(self.dup())),
        }
    }
}

/// Every member of a collected clause is a literal.
pub proof fn lemma_cnf_or_literals(e: Expr)
    ensures
        cnf_or_spec(e) matches Ok(s) ==> forall|l: Expr| #[trigger] s.contains(l) ==> is_lit(l),
    decreases e,
{
    if is_lit(e) {
    } else {
        match e {
            Expr::Or(x, y) => {
                lemma_cnf_or_literals(*x);
                lemma_cnf_or_literals(*y);
            },
            _ => {},
        }
    }
}

/// Every member of every clause of a successful conversion is a literal.
pub proof fn lemma_cnf_literals(e: Expr)
    ensures
        cnf_and_spec(e) matches Ok(f) ==> forall|c: Set<Expr>, l: Expr|
            #[trigger] f.contains(c) && #[trigger] c.contains(l) ==> is_lit(l),
    decreases e,
{
    if is_lit(e) {
    } else {
        match e {
            Expr::And(x, y) => {
                lemma_cnf_literals(*x);
                lemma_cnf_literals(*y);
            },
            Expr::Or(_, _) => {
                lemma_cnf_or_literals(e);
            },
            _ => {},
        }
    }
}

/// A union of clauses is true exactly when either side is.
proof fn lemma_clause_sat_union(a: Set<Expr>, b: Set<Expr>, v: Map<char, bool>)
    ensures
        clause_sat(a + b, v) == (clause_sat(a, v) || clause_sat(b, v)),
{
    if clause_sat(a + b, v) {
        let l = choose|l: Expr| #[trigger] (a + b).contains(l) && eval(l, v);
        if a.contains(l) {
            assert(clause_sat(a, v));
        } else {
            assert(b.contains(l));
            assert(clause_sat(b, v));
        }
    }
    if clause_sat(a, v) {
        let l = choose|l: Expr| #[trigger] a.contains(l) && eval(l, v);
        assert((a + b).contains(l));
    }
    if clause_sat(b, v) {
        let l = choose|l: Expr| #[trigger] b.contains(l) && eval(l, v);
        assert((a + b).contains(l));
    }
}

/// A collected clause is true exactly when the disjunction it came from is.
pub proof fn lemma_cnf_or_sound(e: Expr, v: Map<char, bool>)
    ensures
        cnf_or_spec(e) matches Ok(s) ==> clause_sat(s, v) == eval(e, v),
    decreases e,
{
    if is_lit(e) {
        let s = Set::empty().insert(e);
        assert(s.contains(e));
        if eval(e, v) {
            assert(clause_sat(s, v));
        }
        if clause_sat(s, v) {
            let l = choose|l: Expr| #[trigger] s.contains(l) && eval(l, v);
            assert(l == e);
        }
    } else {
        match e {
            Expr::Or(x, y) => {
                lemma_cnf_or_sound(*x, v);
                lemma_cnf_or_sound(*y, v);
                if cnf_or_spec(e) is Ok {
                    let s1 = cnf_or_spec(*x)->Ok_0;
                    let s2 = cnf_or_spec(*y)->Ok_0;
                    lemma_clause_sat_union(s1, s2, v);
                }
            },
            _ => {},
        }
    }
}

/// A converted clause set is true exactly when the reduced tree it came from
/// is.
pub proof fn lemma_cnf_and_sound(e: Expr, v: Map<char, bool>)
    ensures
        cnf_and_spec(e) matches Ok(f) ==> cnf_sat(f, v) == eval(e, v),
    decreases e,
{
    if is_lit(e) {
        let s = Set::empty().insert(e);
        let f = Set::empty().insert(s);
        assert(f.contains(s));
        assert(s.contains(e));
        if eval(e, v) {
            assert forall|c: Set<Expr>| #[trigger] f.contains(c) implies clause_sat(c, v) by {
                assert(c == s);
                assert(c.contains(e));
            }
        }
        if cnf_sat(f, v) {
            assert(clause_sat(s, v));
            let l = choose|l: Expr| #[trigger] s.contains(l) && eval(l, v);
            assert(l == e);
        }
    } else {
        match e {
            Expr::And(x, y) => {
                lemma_cnf_and_sound(*x, v);
                lemma_cnf_and_sound(*y, v);
                if cnf_and_spec(e) is Ok {
                    let f1 = cnf_and_spec(*x)->Ok_0;
                    let f2 = cnf_and_spec(*y)->Ok_0;
                    assert(cnf_sat(f1 + f2, v) == (cnf_sat(f1, v) && cnf_sat(f2, v))) by {
                        if cnf_sat(f1, v) && cnf_sat(f2, v) {
                            assert forall|c: Set<Expr>| #[trigger] (f1 + f2).contains(c)
                                implies clause_sat(c, v) by {
                                if f1.contains(c) {
                                } else {
                                    assert(f2.contains(c));
                                }
                            }
                        }
                        if cnf_sat(f1 + f2, v) {
                            assert forall|c: Set<Expr>| #[trigger] f1.contains(c)
                                implies clause_sat(c, v) by {
                                assert((f1 + f2).contains(c));
                            }
                            assert forall|c: Set<Expr>| #[trigger] f2.contains(c)
                                implies clause_sat(c, v) by {
                                assert((f1 + f2).contains(c));
                            }
                        }
                    }
                }
            },
            Expr::Or(_, _) => {
                lemma_cnf_or_sound(e, v);
                if cnf_and_spec(e) is Ok {
                    let f = cnf_and_spec(e)->Ok_0;
                    let s = cnf_or_spec(e)->Ok_0;
                    assert(f.contains(s));
                    if clause_sat(s, v) {
                        assert forall|c: Set<Expr>| #[trigger] f.contains(c)
                            implies clause_sat(c, v) by {
                            assert(c == s);
                        }
                    }
                }
            },
            _ => {},
        }
    }
}

/// Collecting a disjunction in normal form always succeeds.
pub proof fn lemma_cnf_or_normal_ok(e: Expr)
    requires
        is_clause_shape(e),
    ensures
        cnf_or_spec(e) is Ok,
    decreases e,
{
    match e {
        Expr::Or(x, y) => {
            lemma_cnf_or_normal_ok(*x);
            lemma_cnf_or_normal_ok(*y);
        },
        _ => {},
    }
}

/// Converting a tree in normal form always succeeds.
pub proof fn lemma_cnf_and_normal_ok(e: Expr)
    requires
        is_normal(e),
    ensures
        cnf_and_spec(e) is Ok,
    decreases e,
{
    match e {
        Expr::And(x, y) => {
            lemma_cnf_and_normal_ok(*x);
            lemma_cnf_and_normal_ok(*y);
        },
        Expr::Or(_, _) => {
            lemma_cnf_or_normal_ok(e);
        },
        _ => {},
    }
}

/// Negates the formula, rewrites the negation to a fixed point, and converts
/// it into a clause set: the refutation seeding of the pipeline. A clause
/// set that comes back is true under exactly the assignments that falsify
/// the original formula; the conversion fails only when the negation
/// normalizes to a bare literal, which no clause-set root can hold.
pub fn negated_cnf(e: &Expr) -> (r: Result<ClauseSet, ParseError>)
    ensures
        r matches Ok(f) ==> f.wf() && (forall|v: Map<char, bool>|
            #[trigger] cnf_sat(f@, v) == !eval(*e, v)),
        r matches Ok(f) ==> exists|n: nat|
            #![trigger crate::reduce::reduce_iter(n, Expr::Not(Box::new(*e)))]
            {
                let rd = crate::reduce::reduce_iter(n, Expr::Not(Box::new(*e)));
                crate::reduce::reduce_spec(rd) == rd && to_cnf_spec(rd) == Ok::<
                    Set<Set<Expr>>,
                    ParseError,
                >(f@)
            },
        r matches Err(er) ==> er is CNFError && (exists|n: nat|
            is_lit(crate::reduce::reduce_iter(n, Expr::Not(Box::new(*e))))),
{
    let negated = Expr::Not(Box::new(e.dup()));
    let reduced = negated.reduce();
    let result = reduced.to_cnf();
    match result {
        Ok(f) => {
            proof {
                assert forall|v: Map<char, bool>| #[trigger] cnf_sat(f@, v) == !eval(*e, v) by {
                    lemma_cnf_and_sound(reduced, v);
                    assert(eval(reduced, v) == eval(negated, v));
                    assert(eval(negated, v) == !eval(*e, v));
                }
                let n = choose|n: nat| reduced == crate::reduce::reduce_iter(n, negated);
                assert({
                    let rd = crate::reduce::reduce_iter(n, Expr::Not(Box::new(*e)));
                    crate::reduce::reduce_spec(rd) == rd && to_cnf_spec(rd) == Ok::<
                        Set<Set<Expr>>,
                        ParseError,
                    >(f@)
                });
            }
            Ok(f)
        },
        Err(er) => {
            proof {
                lemma_cnf_err(reduced);
                lemma_cnf_and_normal_ok(reduced);
                assert(is_lit(reduced));
                let n = choose|n: nat| reduced == crate::reduce::reduce_iter(n, negated);
                assert(is_lit(crate::reduce::reduce_iter(n, Expr::Not(Box::new(*e)))));
            }
            Err(er)
        },
    }
}

/// A failed conversion always reports a subexpression that is not in normal
/// form.
proof fn lemma_cnf_or_err(e: Expr)
    ensures
        cnf_or_spec(e) matches Err(er) ==> er is CNFError,
    decreases e,
{
    if !is_lit(e) {
        match e {
            Expr::Or(x, y) => {
                lemma_cnf_or_err(*x);
                lemma_cnf_or_err(*y);
            },
            _ => {},
        }
    }
}

proof fn lemma_cnf_err(e: Expr)
    ensures
        to_cnf_spec(e) matches Err(er) ==> er is CNFError,
        cnf_and_spec(e) matches Err(er) ==> er is CNFError,
    decreases e,
{
    if !is_lit(e) {
        match e {
            Expr::And(x, y) => {
                lemma_cnf_err(*x);
                lemma_cnf_err(*y);
            },
            Expr::Or(_, _) => {
                lemma_cnf_or_err(e);
            },
            _ => {},
        }
    }
}

} // verus!
