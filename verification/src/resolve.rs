//! Refutation resolution over a clause set: repeatedly resolve two clauses
//! on a complementary literal pair until the empty clause appears or no pair
//! is left.

use vstd::prelude::*;
use vstd::set_lib::lemma_len_subset;

use crate::cnf::{clause_sat, cnf_sat, union_lits, Clause, ClauseSet};
use crate::error::ParseError;
use crate::expr::{eval, Expr};
use crate::reduce::is_lit;

verus! {

broadcast use vstd::set::group_set_axioms;

/// The complementary literal: an atom gains a negation, a negation loses it.
pub open spec fn complement(l: Expr) -> Expr {
    match l {
        Expr::Not(x) => *x,
        _ => Expr::Not(Box::new(l)),
    }
}

/// A clause that holds some literal together with its complement; such a
/// clause is true in itself and is dropped before resolution.
pub open spec fn has_comp_pair(c: Set<Expr>) -> bool {
    exists|l: Expr| #[trigger] c.contains(l) && c.contains(complement(l))
}

/// One recorded resolution step: the two clauses resolved and the clause
/// derived from them.
pub struct ResolutionStep {
    pub left: Clause,
    pub right: Clause,
    pub derived: Clause,
}

/// `d` is what resolving `a` and `b` on the literal `l` derives: the union
/// of the two clauses minus the complementary pair.
pub open spec fn is_resolvent(a: Set<Expr>, b: Set<Expr>, d: Set<Expr>, l: Expr) -> bool {
    &&& a.contains(l)
    &&& b.contains(complement(l))
    &&& d == (a + b).remove(l).remove(complement(l))
}

/// The step resolves its two clauses on some literal.
pub open spec fn valid_step(s: ResolutionStep) -> bool {
    exists|l: Expr| is_resolvent(s.left@, s.right@, s.derived@, l)
}

/// The clause is available at step `k`: it is in the input set or was
/// derived by an earlier step.
pub open spec fn from_pool(
    input: Set<Set<Expr>>,
    steps: Seq<ResolutionStep>,
    k: int,
    c: Set<Expr>,
) -> bool {
    input.contains(c) || exists|j: int| 0 <= j < k && (#[trigger] steps[j]).derived@ == c
}

/// Step `k` of the trace resolves two tautology-free clauses that were
/// available at that point.
pub open spec fn valid_entry(input: Set<Set<Expr>>, steps: Seq<ResolutionStep>, k: int) -> bool {
    &&& valid_step(steps[k])
    &&& from_pool(input, steps, k, steps[k].left@)
    &&& from_pool(input, steps, k, steps[k].right@)
    &&& !has_comp_pair(steps[k].left@)
    &&& !has_comp_pair(steps[k].right@)
}

/// The whole trace is a genuine resolution derivation from the input set.
pub open spec fn valid_trace(input: Set<Set<Expr>>, steps: Seq<ResolutionStep>) -> bool {
    forall|k: int| 0 <= k < steps.len() ==> #[trigger] valid_entry(input, steps, k)
}

/// The complement of a literal is true exactly when the literal is false.
proof fn lemma_eval_complement(l: Expr, v: Map<char, bool>)
    ensures
        eval(complement(l), v) == !eval(l, v),
{
    match l {
        Expr::Not(x) => {},
        _ => {},
    }
}

/// Resolving two satisfied, tautology-free clauses yields a satisfied
/// clause.
pub proof fn lemma_resolvent_sound(
    a: Set<Expr>,
    b: Set<Expr>,
    d: Set<Expr>,
    l: Expr,
    v: Map<char, bool>,
)
    requires
        is_resolvent(a, b, d, l),
        !has_comp_pair(a),
        !has_comp_pair(b),
        clause_sat(a, v),
        clause_sat(b, v),
    ensures
        clause_sat(d, v),
{
    lemma_eval_complement(l, v);
    if eval(l, v) {
        let w = choose|w: Expr| #[trigger] b.contains(w) && eval(w, v);
        if w == l {
            assert(b.contains(l) && b.contains(complement(l)));
            assert(false);
        }
        assert(d.contains(w));
    } else {
        let w = choose|w: Expr| #[trigger] a.contains(w) && eval(w, v);
        if w == complement(l) {
            assert(a.contains(l) && a.contains(complement(l)));
            assert(false);
        }
        assert(d.contains(w));
    }
}

/// Every clause a valid trace derives is a consequence of the input set.
pub proof fn lemma_trace_sound(
    input: Set<Set<Expr>>,
    steps: Seq<ResolutionStep>,
    k: int,
    v: Map<char, bool>,
)
    requires
        valid_trace(input, steps),
        0 <= k < steps.len(),
        cnf_sat(input, v),
    ensures
        clause_sat(steps[k].derived@, v),
    decreases k,
{
    assert(valid_entry(input, steps, k));
    let s = steps[k];
    if !input.contains(s.left@) {
        let j = choose|j: int| 0 <= j < k && (#[trigger] steps[j]).derived@ == s.left@;
        lemma_trace_sound(input, steps, j, v);
    }
    if !input.contains(s.right@) {
        let j = choose|j: int| 0 <= j < k && (#[trigger] steps[j]).derived@ == s.right@;
        lemma_trace_sound(input, steps, j, v);
    }
    let l = choose|l: Expr| is_resolvent(s.left@, s.right@, s.derived@, l);
    lemma_resolvent_sound(s.left@, s.right@, s.derived@, l, v);
}

/// Resolution refutation is sound: a valid trace that derives the empty
/// clause shows the input clause set unsatisfiable.
pub proof fn lemma_refutation_sound(
    input: Set<Set<Expr>>,
    steps: Seq<ResolutionStep>,
    v: Map<char, bool>,
)
    requires
        valid_trace(input, steps),
        steps.len() > 0,
        steps.last().derived@ == Set::<Expr>::empty(),
    ensures
        !cnf_sat(input, v),
{
    if cnf_sat(input, v) {
        lemma_trace_sound(input, steps, steps.len() - 1, v);
        let l = choose|l: Expr| #[trigger] steps.last().derived@.contains(l) && eval(l, v);
        assert(false);
    }
}

impl Expr {
    /// The complementary literal, as `complement` describes; what negating a
    /// literal and reducing comes to.
    pub fn complement_lit(&self) -> (r: Expr)
        ensures
            r == complement(*self),
    {
        match self {
            Expr::Not(x) => x.dup(),
            _ => Expr::Not(Box::new(self.dup())),
        }
    }
}

impl Clause {
    /// Whether the clause holds some literal together with its complement.
    pub fn is_tautology(&self) -> (r: bool)
        ensures
            r == has_comp_pair(self@),
    {
        let mut k: usize = 0;
        while k < self.lits.len()
            invariant
                k <= self.lits@.len(),
                forall|j: int|
                    0 <= j < k ==> !self@.contains(complement(#[trigger] self.lits@[j])),
            decreases self.lits@.len() - k,
        {
            let c = self.lits[k].complement_lit();
            if self.contains_lit(&c) {
                proof {
                    assert(self@.contains(self.lits@[k as int]));
                }
                return true;
            }
            k = k + 1;
        }
        proof {
            if has_comp_pair(self@) {
                let l = choose|l: Expr| #[trigger] self@.contains(l) && self@.contains(
                    complement(l),
                );
                let j = choose|j: int| 0 <= j < self.lits@.len() && self.lits@[j] == l;
                assert(!self@.contains(complement(self.lits@[j])));
                assert(false);
            }
        }
        false
    }
}

/// The literal sequences of a vector of clauses.
pub open spec fn lits_of(cs: Seq<Clause>) -> Seq<Seq<Expr>> {
    cs.map_values(|c: Clause| c.lits@)
}

/// The tautology filter, at the level of literal sequences: clauses with a
/// complementary pair are dropped, the order of the rest is kept.
pub open spec fn taut_filter(cs: Seq<Seq<Expr>>) -> Seq<Seq<Expr>>
    decreases cs.len(),
{
    if cs.len() == 0 {
        Seq::empty()
    } else {
        let rest = taut_filter(cs.drop_last());
        if has_comp_pair(cs.last().to_set()) {
            rest
        } else {
            rest.push(cs.last())
        }
    }
}

/// The first unresolved clause at or after `j` that holds the complement of
/// `l`.
pub open spec fn scan_partner(cs: Seq<Seq<Expr>>, res: Set<Set<Expr>>, l: Expr, j: int) -> Option<
    int,
>
    decreases cs.len() - j,
{
    if j < 0 || j >= cs.len() {
        None
    } else if !res.contains(cs[j].to_set()) && cs[j].to_set().contains(complement(l)) {
        Some(j)
    } else {
        scan_partner(cs, res, l, j + 1)
    }
}

/// The first literal of clause `i` at or after position `k` that has an
/// unresolved partner, with that partner.
pub open spec fn scan_lits(cs: Seq<Seq<Expr>>, res: Set<Set<Expr>>, i: int, k: int) -> Option<
    (int, int, Expr),
>
    decreases (if 0 <= i < cs.len() {
        cs[i].len() as int
    } else {
        0
    }) - k,
{
    if i < 0 || i >= cs.len() || k < 0 || k >= cs[i].len() {
        None
    } else {
        match scan_partner(cs, res, cs[i][k], 0) {
            Some(j) => Some((i, j, cs[i][k])),
            None => scan_lits(cs, res, i, k + 1),
        }
    }
}

/// The first resolvable pair in scan order: clauses in order, each clause's
/// literals in order, partners in order.
pub open spec fn scan_clauses(cs: Seq<Seq<Expr>>, res: Set<Set<Expr>>, i: int) -> Option<
    (int, int, Expr),
>
    decreases cs.len() - i,
{
    if i < 0 || i >= cs.len() {
        None
    } else if res.contains(cs[i].to_set()) {
        scan_clauses(cs, res, i + 1)
    } else {
        match scan_lits(cs, res, i, 0) {
            Some(t) => Some(t),
            None => scan_clauses(cs, res, i + 1),
        }
    }
}

/// The pair the search picks from the whole set.
pub open spec fn find_spec(cs: Seq<Seq<Expr>>, res: Set<Set<Expr>>) -> Option<(int, int, Expr)> {
    scan_clauses(cs, res, 0)
}

/// The resolvent's literal sequence: the members of `u` in order, without
/// the complementary pair and without repetitions.
pub open spec fn resolvent_lits(u: Seq<Expr>, l: Expr) -> Seq<Expr>
    decreases u.len(),
{
    if u.len() == 0 {
        Seq::empty()
    } else {
        let r = resolvent_lits(u.drop_last(), l);
        if u.last() != l && u.last() != complement(l) && !r.contains(u.last()) {
            r.push(u.last())
        } else {
            r
        }
    }
}

/// Adding a derived clause to the working set: dropped when a member clause
/// is already the same set of literals.
pub open spec fn insert_lits(cs: Seq<Seq<Expr>>, d: Seq<Expr>) -> Seq<Seq<Expr>> {
    if exists|j: int| 0 <= j < cs.len() && (#[trigger] cs[j]).to_set() == d.to_set() {
        cs
    } else {
        cs.push(d)
    }
}

/// The state of the resolution search, at the level of literal sequences:
/// the working clauses, the clauses already resolved, the recorded trace,
/// and the returned trace once the search has ended.
pub struct SearchState {
    pub form: Seq<Seq<Expr>>,
    pub resolved: Set<Set<Expr>>,
    pub steps: Seq<(Seq<Expr>, Seq<Expr>, Seq<Expr>)>,
    pub outcome: Option<Seq<(Seq<Expr>, Seq<Expr>, Seq<Expr>)>>,
}

/// The search's starting state on a clause set.
pub open spec fn init_search(cs: Seq<Seq<Expr>>) -> SearchState {
    SearchState { form: cs, resolved: Set::empty(), steps: Seq::empty(), outcome: None }
}

/// One round of the search: drop tautologies, pick the first resolvable
/// pair, mark both clauses resolved and record the resolvent. No pair ends
/// the search with the empty trace; an empty resolvent ends it with the
/// recorded trace; otherwise the resolvent joins the working set. A state
/// with an outcome is final.
pub open spec fn search_round(s: SearchState) -> SearchState {
    if s.outcome is Some {
        s
    } else {
        let filtered = taut_filter(s.form);
        match find_spec(filtered, s.resolved) {
            None => SearchState { outcome: Some(Seq::empty()), ..s },
            Some(t) => {
                let a = filtered[t.0];
                let b = filtered[t.1];
                let d = resolvent_lits(union_lits(a, b), t.2);
                let steps2 = s.steps.push((a, b, d));
                let res2 = s.resolved.insert(a.to_set()).insert(b.to_set());
                if d.len() == 0 {
                    SearchState { form: filtered, resolved: res2, steps: steps2, outcome: Some(
                        steps2,
                    ) }
                } else {
                    SearchState {
                        form: insert_lits(filtered, d),
                        resolved: res2,
                        steps: steps2,
                        outcome: None,
                    }
                }
            },
        }
    }
}

/// `n` rounds of the search.
pub open spec fn run_search(n: nat, s: SearchState) -> SearchState
    decreases n,
{
    if n == 0 {
        s
    } else {
        search_round(run_search((n - 1) as nat, s))
    }
}

/// Once the search has an outcome, later rounds keep the whole state.
pub proof fn lemma_search_stable(n: nat, m: nat, s: SearchState)
    requires
        n <= m,
        run_search(n, s).outcome is Some,
    ensures
        run_search(m, s) == run_search(n, s),
    decreases m,
{
    if m > n {
        lemma_search_stable(n, (m - 1) as nat, s);
    }
}

/// The search is deterministic: from one starting state, every round count
/// that reaches an outcome reaches the same outcome. With `resolve`'s
/// contract this makes two calls on the same clause vector return the same
/// trace.
pub proof fn lemma_search_deterministic(n1: nat, n2: nat, s: SearchState)
    requires
        run_search(n1, s).outcome is Some,
        run_search(n2, s).outcome is Some,
    ensures
        run_search(n1, s).outcome == run_search(n2, s).outcome,
{
    if n1 <= n2 {
        lemma_search_stable(n1, n2, s);
    } else {
        lemma_search_stable(n2, n1, s);
    }
}

/// The literal-sequence view of a recorded trace.
pub open spec fn trace_lits(steps: Seq<ResolutionStep>) -> Seq<(Seq<Expr>, Seq<Expr>, Seq<Expr>)> {
    steps.map_values(|s: ResolutionStep| (s.left.lits@, s.right.lits@, s.derived.lits@))
}

/// No still-unresolved clause of the set holds the complement of this
/// literal.
pub open spec fn lit_blocked(form: ClauseSet, resolved: Set<Set<Expr>>, l: Expr) -> bool {
    forall|j: int|
        0 <= j < form.clauses@.len() && !resolved.contains((#[trigger] form.clauses@[j])@)
            ==> !form.clauses@[j]@.contains(complement(l))
}

/// No literal of this clause resolves against any unresolved clause.
pub open spec fn clause_blocked(form: ClauseSet, resolved: Set<Set<Expr>>, c: Set<Expr>) -> bool {
    forall|l: Expr| #[trigger] c.contains(l) ==> lit_blocked(form, resolved, l)
}

/// The search is exhausted: no two unresolved clauses resolve on any
/// literal.
pub open spec fn no_resolvable_pair(form: ClauseSet, resolved: Set<Set<Expr>>) -> bool {
    forall|i: int|
        0 <= i < form.clauses@.len() && !resolved.contains((#[trigger] form.clauses@[i])@)
            ==> clause_blocked(form, resolved, form.clauses@[i]@)
}

/// Drops every clause that holds a complementary literal pair; such a clause
/// is true in itself and contributes nothing to a refutation.
fn filter_tautologies(form: &ClauseSet) -> (out: ClauseSet)
    requires
        form.wf(),
    ensures
        out.wf(),
        forall|c: Set<Expr>| #[trigger] out@.contains(c) ==> form@.contains(c) && !has_comp_pair(c),
        forall|c: Set<Expr>| form@.contains(c) && !has_comp_pair(c) ==> out@.contains(c),
        lits_of(out.clauses@) == taut_filter(lits_of(form.clauses@)),
{
    let ghost csl = lits_of(form.clauses@);
    let mut out = ClauseSet::new();
    let mut k: usize = 0;
    proof {
        assert(csl.take(0) =~= Seq::<Seq<Expr>>::empty());
        assert(lits_of(out.clauses@) =~= Seq::<Seq<Expr>>::empty());
    }
    while k < form.clauses.len()
        invariant
            k <= form.clauses@.len(),
            form.wf(),
            out.wf(),
            csl == lits_of(form.clauses@),
            lits_of(out.clauses@) == taut_filter(csl.take(k as int)),
            forall|c: Set<Expr>| #[trigger] out@.contains(c) ==> form@.contains(c)
                && !has_comp_pair(c),
            forall|c: Set<Expr>| #[trigger] out@.contains(c) ==> exists|j2: int|
                0 <= j2 < k && (#[trigger] form.clauses@[j2])@ == c,
            forall|j: int|
                0 <= j < k && !has_comp_pair((#[trigger] form.clauses@[j])@) ==> out@.contains(
                    form.clauses@[j]@,
                ),
        decreases form.clauses@.len() - k,
    {
        proof {
            assert(csl.take(k as int + 1).drop_last() =~= csl.take(k as int));
            assert(csl.take(k as int + 1).last() == csl[k as int]);
            assert(csl[k as int] == form.clauses@[k as int].lits@);
            assert(form.clauses@[k as int]@ == csl[k as int].to_set());
        }
        let ghost out0 = out.clauses@;
        let taut = form.clauses[k].is_tautology();
        if !taut {
            proof {
                if out@.contains(form.clauses@[k as int]@) {
                    let j2 = choose|j2: int|
                        0 <= j2 < k && (#[trigger] form.clauses@[j2])@ == form.clauses@[
                            k as int
                        ]@;
                    assert(false);
                }
            }
            out.insert_clause(form.clauses[k].dup());
            proof {
                assert(form@.contains(form.clauses@[k as int]@));
                assert(lits_of(out.clauses@) =~= lits_of(out0).push(
                    form.clauses@[k as int].lits@,
                ));
                assert(lits_of(out.clauses@) == taut_filter(csl.take(k as int + 1)));
            }
        } else {
            proof {
                assert(lits_of(out.clauses@) == taut_filter(csl.take(k as int + 1)));
            }
        }
        k = k + 1;
    }
    proof {
        assert(csl.take(form.clauses@.len() as int) =~= csl);
        assert forall|c: Set<Expr>| form@.contains(c) && !has_comp_pair(c) implies out@.contains(
            c,
        ) by {
            let j = choose|j: int|
                0 <= j < form.clauses@.len() && (#[trigger] form.clauses@[j])@ == c;
            assert(out@.contains(form.clauses@[j]@));
        }
    }
    out
}

/// The resolvent of two clauses on a literal: their union minus the
/// complementary pair.
fn resolvent(a: &Clause, b: &Clause, l: &Expr) -> (d: Clause)
    requires
        a.wf(),
        b.wf(),
    ensures
        d.wf(),
        d@ == (a@ + b@).remove(*l).remove(complement(*l)),
        d.lits@ == resolvent_lits(union_lits(a.lits@, b.lits@), *l),
{
    let u = a.union(b);
    let comp = l.complement_lit();
    let mut d = Clause::new();
    let mut k: usize = 0;
    proof {
        assert(u.lits@.take(0) =~= Seq::<Expr>::empty());
    }
    while k < u.lits.len()
        invariant
            k <= u.lits@.len(),
            u.wf(),
            d.wf(),
            comp == complement(*l),
            d@ =~= u.lits@.take(k as int).to_set().remove(*l).remove(complement(*l)),
            d.lits@ == resolvent_lits(u.lits@.take(k as int), *l),
        decreases u.lits@.len() - k,
    {
        proof {
            assert(u.lits@.take(k as int + 1) =~= u.lits@.take(k as int).push(
                u.lits@[k as int],
            ));
            crate::cnf::lemma_to_set_push(u.lits@.take(k as int), u.lits@[k as int]);
            assert(u.lits@.take(k as int + 1).drop_last() =~= u.lits@.take(k as int));
            assert(d.lits@.contains(u.lits@[k as int]) == d@.contains(u.lits@[k as int]));
        }
        let lit = u.lits[k].dup();
        if !lit.same(l) && !lit.same(&comp) {
            d.insert_lit(lit);
        }
        proof {
            assert(d@ =~= u.lits@.take(k as int + 1).to_set().remove(*l).remove(
                complement(*l),
            ));
            assert(d.lits@ == resolvent_lits(u.lits@.take(k as int + 1), *l));
        }
        k = k + 1;
    }
    proof {
        assert(u.lits@.take(u.lits@.len() as int) =~= u.lits@);
        assert(d@ =~= (a@ + b@).remove(*l).remove(complement(*l)));
    }
    d
}

/// Scans for two unresolved clauses that hold a complementary literal pair;
/// returns their indices and the literal, or reports that none exists.
fn find_step(form: &ClauseSet, resolved: &ClauseSet) -> (r: Option<(usize, usize, Expr)>)
    requires
        form.wf(),
    ensures
        r matches Some(t) ==> t.0 < form.clauses@.len() && t.1 < form.clauses@.len()
            && !resolved@.contains(form.clauses@[t.0 as int]@) && !resolved@.contains(
            form.clauses@[t.1 as int]@,
        ) && form.clauses@[t.0 as int]@.contains(t.2) && form.clauses@[t.1 as int]@.contains(
            complement(t.2),
        ),
        r is None ==> no_resolvable_pair(*form, resolved@),
        r matches Some(t) ==> find_spec(lits_of(form.clauses@), resolved@) == Some(
            (t.0 as int, t.1 as int, t.2),
        ),
        r is None ==> find_spec(lits_of(form.clauses@), resolved@) is None,
{
    let ghost cs = lits_of(form.clauses@);
    let ghost res = resolved@;
    let n = form.clauses.len();
    let mut i: usize = 0;
    while i < n
        invariant
            i <= n,
            n == form.clauses@.len(),
            form.wf(),
            cs == lits_of(form.clauses@),
            res == resolved@,
            scan_clauses(cs, res, 0) == scan_clauses(cs, res, i as int),
            forall|i2: int|
                0 <= i2 < i && !resolved@.contains((#[trigger] form.clauses@[i2])@)
                    ==> clause_blocked(*form, resolved@, form.clauses@[i2]@),
        decreases n - i,
    {
        proof {
            assert(cs[i as int] == form.clauses@[i as int].lits@);
        }
        if !resolved.contains_clause(&form.clauses[i]) {
            let m = form.clauses[i].lits.len();
            let mut k: usize = 0;
            proof {
                assert(scan_clauses(cs, res, i as int) == (match scan_lits(cs, res, i as int, 0) {
                    Some(t) => Some(t),
                    None => scan_clauses(cs, res, i as int + 1),
                }));
            }
            while k < m
                invariant
                    k <= m,
                    i < n,
                    n == form.clauses@.len(),
                    m == form.clauses@[i as int].lits@.len(),
                    form.wf(),
                    cs == lits_of(form.clauses@),
                    res == resolved@,
                    !resolved@.contains(form.clauses@[i as int]@),
                    scan_clauses(cs, res, 0) == (match scan_lits(cs, res, i as int, k as int) {
                        Some(t) => Some(t),
                        None => scan_clauses(cs, res, i as int + 1),
                    }),
                    forall|k2: int|
                        0 <= k2 < k ==> lit_blocked(
                            *form,
                            resolved@,
                            #[trigger] form.clauses@[i as int].lits@[k2],
                        ),
                decreases m - k,
            {
                let comp = form.clauses[i].lits[k].complement_lit();
                let ghost lit = form.clauses@[i as int].lits@[k as int];
                proof {
                    assert(cs[i as int] == form.clauses@[i as int].lits@);
                    assert(cs[i as int][k as int] == lit);
                }
                let mut j: usize = 0;
                while j < n
                    invariant
                        j <= n,
                        i < n,
                        k < m,
                        n == form.clauses@.len(),
                        m == form.clauses@[i as int].lits@.len(),
                        form.wf(),
                        cs == lits_of(form.clauses@),
                        res == resolved@,
                        !resolved@.contains(form.clauses@[i as int]@),
                        comp == complement(form.clauses@[i as int].lits@[k as int]),
                        lit == form.clauses@[i as int].lits@[k as int],
                        lit == cs[i as int][k as int],
                        scan_clauses(cs, res, 0) == (match scan_lits(cs, res, i as int, k as int) {
                            Some(t) => Some(t),
                            None => scan_clauses(cs, res, i as int + 1),
                        }),
                        scan_partner(cs, res, lit, 0) == scan_partner(cs, res, lit, j as int),
                        forall|j2: int|
                            0 <= j2 < j && !resolved@.contains(
                                (#[trigger] form.clauses@[j2])@,
                            ) ==> !form.clauses@[j2]@.contains(comp),
                    decreases n - j,
                {
                    proof {
                        assert(cs[j as int] == form.clauses@[j as int].lits@);
                    }
                    if !resolved.contains_clause(&form.clauses[j]) && form.clauses[j].contains_lit(
                        &comp,
                    ) {
                        proof {
                            assert(form.clauses@[i as int]@.contains(
                                form.clauses@[i as int].lits@[k as int],
                            ));
                            assert(scan_partner(cs, res, lit, j as int) == Some(j as int));
                            assert(scan_lits(cs, res, i as int, k as int) == Some(
                                (i as int, j as int, lit),
                            ));
                            assert(scan_clauses(cs, res, 0) == Some((i as int, j as int, lit)));
                        }
                        return Some((i, j, form.clauses[i].lits[k].dup()));
                    }
                    proof {
                        assert(scan_partner(cs, res, lit, j as int) == scan_partner(
                            cs,
                            res,
                            lit,
                            j as int + 1,
                        ));
                    }
                    j = j + 1;
                }
                proof {
                    assert(scan_partner(cs, res, lit, n as int) is None);
                    assert(scan_lits(cs, res, i as int, k as int) == scan_lits(
                        cs,
                        res,
                        i as int,
                        k as int + 1,
                    ));
                }
                k = k + 1;
            }
            proof {
                assert(scan_lits(cs, res, i as int, m as int) is None);
                assert forall|l: Expr| #[trigger] form.clauses@[i as int]@.contains(l)
                    implies lit_blocked(*form, resolved@, l) by {
                    let k2 = choose|k2: int|
                        0 <= k2 < form.clauses@[i as int].lits@.len()
                            && form.clauses@[i as int].lits@[k2] == l;
                    assert(lit_blocked(*form, resolved@, form.clauses@[i as int].lits@[k2]));
                }
            }
        } else {
            proof {
                assert(scan_clauses(cs, res, i as int) == scan_clauses(cs, res, i as int + 1));
            }
        }
        i = i + 1;
    }
    proof {
        assert(scan_clauses(cs, res, n as int) is None);
    }
    None
}

/// Refutation resolution over the clause set. The returned trace is exactly
/// what the round-by-round search model `run_search` computes on the input's
/// literal sequences, so the result is a deterministic function of the input
/// (see `lemma_search_deterministic`) and an empty trace comes back only
/// when the search ran out of resolvable pairs. A non-empty trace is a
/// genuine derivation from the input that ends in the empty clause and shows
/// the input unsatisfiable.
pub fn resolve(formula: &ClauseSet) -> (r: Result<Vec<ResolutionStep>, ParseError>)
    requires
        formula.wf(),
    ensures
        r is Ok,
        r matches Ok(steps) ==> valid_trace(formula@, steps@),
        r matches Ok(steps) ==> (steps@.len() > 0 ==> steps@.last().derived@ == Set::<
            Expr,
        >::empty() && (forall|v: Map<char, bool>| !cnf_sat(formula@, v))),
        r matches Ok(steps) ==> exists|m: nat|
            (#[trigger] run_search(m, init_search(lits_of(formula.clauses@)))).outcome == Some(
                trace_lits(steps@),
            ),
{
    let ghost s0 = init_search(lits_of(formula.clauses@));
    let mut form = formula.dup();
    let mut resolved = ClauseSet::new();
    let mut steps: Vec<ResolutionStep> = Vec::new();
    let ghost mut n: nat = 0;
    proof {
        assert(lits_of(form.clauses@) =~= lits_of(formula.clauses@));
        assert(trace_lits(steps@) =~= Seq::<(Seq<Expr>, Seq<Expr>, Seq<Expr>)>::empty());
        assert(run_search(n, s0) == (SearchState {
            form: lits_of(form.clauses@),
            resolved: resolved@,
            steps: trace_lits(steps@),
            outcome: None,
        }));
    }
    loop
        invariant
            form.wf(),
            resolved.wf(),
            valid_trace(formula@, steps@),
            s0 == init_search(lits_of(formula.clauses@)),
            run_search(n, s0) == (SearchState {
                form: lits_of(form.clauses@),
                resolved: resolved@,
                steps: trace_lits(steps@),
                outcome: None,
            }),
            forall|c: Set<Expr>| #[trigger] form@.contains(c) ==> from_pool(
                formula@,
                steps@,
                steps@.len() as int,
                c,
            ),
        decreases form@.difference(resolved@).len(),
    {
        let ghost st = run_search(n, s0);
        let ghost form0 = form@;
        let ghost resolved0 = resolved@;
        proof {
            crate::cnf::lemma_prefix_views_finite(form.clauses@, form.clauses@.len() as int);
        }
        let filtered = filter_tautologies(&form);
        form = filtered;
        proof {
            crate::cnf::lemma_prefix_views_finite(form.clauses@, form.clauses@.len() as int);
            assert(form@.difference(resolved@).subset_of(form0.difference(resolved0)));
            lemma_len_subset(form@.difference(resolved@), form0.difference(resolved0));
            assert(taut_filter(st.form) == lits_of(form.clauses@));
        }
        match find_step(&form, &resolved) {
            None => {
                proof {
                    assert(search_round(st).outcome == Some(
                        Seq::<(Seq<Expr>, Seq<Expr>, Seq<Expr>)>::empty(),
                    ));
                    assert(run_search(n + 1, s0) == search_round(st));
                    assert(trace_lits(Seq::<ResolutionStep>::empty()) =~= Seq::<
                        (Seq<Expr>, Seq<Expr>, Seq<Expr>),
                    >::empty());
                }
                return Ok(Vec::new());
            },
            Some((i, j, l)) => {
                let ghost diff1 = form@.difference(resolved@);
                let ghost res1 = resolved@;
                let ghost fm = lits_of(form.clauses@);
                let a = form.clauses[i].dup();
                let b = form.clauses[j].dup();
                proof {
                    assert(fm[i as int] == form.clauses@[i as int].lits@);
                    assert(fm[j as int] == form.clauses@[j as int].lits@);
                    assert(a.lits@ == fm[i as int]);
                    assert(b.lits@ == fm[j as int]);
                }
                proof {
                    if i == j {
                        assert(a@.contains(l) && a@.contains(complement(l)));
                        assert(has_comp_pair(a@));
                        assert(form@.contains(a@));
                        assert(false);
                    }
                    assert(a@ != b@);
                    assert(diff1.contains(a@));
                    assert(diff1.contains(b@));
                }
                let d = resolvent(&a, &b, &l);
                resolved.insert_clause(a.dup());
                resolved.insert_clause(b.dup());
                proof {
                    assert(form@.difference(resolved@) =~= diff1.remove(a@).remove(b@));
                }
                let ghost old_steps = steps@;
                let empty = d.is_empty();
                let step = ResolutionStep { left: a, right: b, derived: d.dup() };
                steps.push(step);
                proof {
                    let ns = steps@;
                    assert(ns == old_steps.push(step));
                    assert(is_resolvent(step.left@, step.right@, step.derived@, l));
                    assert(valid_step(step));
                    assert forall|k: int| 0 <= k < ns.len() implies valid_entry(
                        formula@,
                        ns,
                        k,
                    ) by {
                        if k < old_steps.len() {
                            assert(valid_entry(formula@, old_steps, k));
                            assert(ns[k] == old_steps[k]);
                            lemma_from_pool_grow(formula@, old_steps, step, k, ns[k].left@);
                            lemma_from_pool_grow(formula@, old_steps, step, k, ns[k].right@);
                        } else {
                            assert(ns[k] == step);
                            lemma_from_pool_grow(
                                formula@,
                                old_steps,
                                step,
                                old_steps.len() as int,
                                step.left@,
                            );
                            lemma_from_pool_grow(
                                formula@,
                                old_steps,
                                step,
                                old_steps.len() as int,
                                step.right@,
                            );
                        }
                    }
                    assert forall|c: Set<Expr>| #[trigger] form@.contains(c) implies from_pool(
                        formula@,
                        ns,
                        ns.len() as int,
                        c,
                    ) by {
                        lemma_from_pool_grow(formula@, old_steps, step, old_steps.len() as int, c);
                    }
                    // the executable round matches one round of the search
                    // model, piece by piece
                    assert(step.left.lits@ == a.lits@ && step.right.lits@ == b.lits@
                        && step.derived.lits@ == d.lits@);
                    assert(trace_lits(ns) =~= trace_lits(old_steps).push(
                        (a.lits@, b.lits@, d.lits@),
                    ));
                    assert(resolved@ == res1.insert(a.lits@.to_set()).insert(b.lits@.to_set()));
                    if d.lits@.len() > 0 {
                        assert(d@.contains(d.lits@[0]));
                    }
                    assert(empty == (d.lits@.len() == 0));
                }
                if empty {
                    proof {
                        assert(steps@.last().derived@ =~= Set::<Expr>::empty());
                        assert forall|v: Map<char, bool>| !cnf_sat(formula@, v) by {
                            lemma_refutation_sound(formula@, steps@, v);
                        }
                        assert(search_round(st).outcome == Some(trace_lits(steps@)));
                        assert(run_search(n + 1, s0) == search_round(st));
                    }
                    return Ok(steps);
                }
                proof {
                    assert(form@.contains(d@) <==> exists|jj: int|
                        0 <= jj < fm.len() && (#[trigger] fm[jj]).to_set() == d.lits@.to_set()) by {
                        if form@.contains(d@) {
                            let jj = choose|jj: int|
                                0 <= jj < form.clauses@.len() && (#[trigger] form.clauses@[jj])@
                                    == d@;
                            assert(fm[jj].to_set() == d.lits@.to_set());
                        }
                        if exists|jj: int|
                            0 <= jj < fm.len() && (#[trigger] fm[jj]).to_set()
                                == d.lits@.to_set() {
                            let jj = choose|jj: int|
                                0 <= jj < fm.len() && (#[trigger] fm[jj]).to_set()
                                    == d.lits@.to_set();
                            assert(form.clauses@[jj]@ == d@);
                            assert(form@.contains(form.clauses@[jj]@));
                        }
                    }
                }
                let ghost form_pre = form.clauses@;
                form.insert_clause(d);
                proof {
                    if form.clauses@ == form_pre {
                        assert(lits_of(form.clauses@) == insert_lits(fm, resolvent_lits(
                            union_lits(a.lits@, b.lits@),
                            l,
                        )));
                    } else {
                        assert(lits_of(form.clauses@) =~= fm.push(
                            resolvent_lits(union_lits(a.lits@, b.lits@), l),
                        ));
                        assert(lits_of(form.clauses@) == insert_lits(fm, resolvent_lits(
                            union_lits(a.lits@, b.lits@),
                            l,
                        )));
                    }
                    assert(run_search(n + 1, s0) == search_round(st));
                    assert(run_search(n + 1, s0) == (SearchState {
                        form: lits_of(form.clauses@),
                        resolved: resolved@,
                        steps: trace_lits(steps@),
                        outcome: None,
                    }));
                    n = n + 1;
                    let ns = steps@;
                    assert forall|c: Set<Expr>| #[trigger] form@.contains(c) implies from_pool(
                        formula@,
                        ns,
                        ns.len() as int,
                        c,
                    ) by {
                        if c == step.derived@ {
                            assert(ns[ns.len() - 1].derived@ == c);
                        }
                    }
                    crate::cnf::lemma_prefix_views_finite(
                        form.clauses@,
                        form.clauses@.len() as int,
                    );
                    assert(form@.difference(resolved@).subset_of(
                        diff1.remove(a@).remove(b@).insert(step.derived@),
                    ));
                    lemma_len_subset(
                        form@.difference(resolved@),
                        diff1.remove(a@).remove(b@).insert(step.derived@),
                    );
                }
            },
        }
    }
}

/// A clause available at step `k` stays available when the trace grows.
proof fn lemma_from_pool_grow(
    input: Set<Set<Expr>>,
    steps: Seq<ResolutionStep>,
    st: ResolutionStep,
    k: int,
    c: Set<Expr>,
)
    requires
        0 <= k <= steps.len(),
        from_pool(input, steps, k, c),
    ensures
        from_pool(input, steps.push(st), k, c),
        from_pool(input, steps.push(st), k + 1, c),
{
    if !input.contains(c) {
        let j = choose|j: int| 0 <= j < k && (#[trigger] steps[j]).derived@ == c;
        assert(steps.push(st)[j] == steps[j]);
    }
}

} // verus!
