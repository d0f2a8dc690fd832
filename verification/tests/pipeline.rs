use resolution::cnf::{Clause, ClauseSet};
use resolution::error::ParseError;
use resolution::expr::Expr;
use resolution::parse::parse_tokens;
use resolution::resolve::resolve;
use resolution::token::{tokenize_string, Token};

fn atom(c: char) -> Expr {
    Expr::Atom(c)
}

fn not(e: Expr) -> Expr {
    Expr::Not(Box::new(e))
}

fn and(a: Expr, b: Expr) -> Expr {
    Expr::And(Box::new(a), Box::new(b))
}

fn or(a: Expr, b: Expr) -> Expr {
    Expr::Or(Box::new(a), Box::new(b))
}

fn if_then(a: Expr, b: Expr) -> Expr {
    Expr::IfThen(Box::new(a), Box::new(b))
}

fn iff(a: Expr, b: Expr) -> Expr {
    Expr::Iff(Box::new(a), Box::new(b))
}

fn parse(text: &str) -> Expr {
    parse_tokens(&tokenize_string(text).unwrap()).unwrap()
}

fn clause_of(lits: Vec<Expr>) -> Clause {
    let mut c = Clause::new();
    for l in lits {
        c.insert_lit(l);
    }
    c
}

#[test]
fn tokenize_conjunction() {
    let tokens = tokenize_string("A&B").unwrap();
    assert_eq!(tokens, vec![Token::Atom('A'), Token::And, Token::Atom('B')]);
}

#[test]
fn parse_conjunction() {
    let e = parse("A&B");
    assert!(e.same(&and(atom('A'), atom('B'))));
}

#[test]
fn tokenize_all_operators() {
    let tokens = tokenize_string("-A & B | C => D <=> (E)").unwrap();
    assert_eq!(
        tokens,
        vec![
            Token::Not,
            Token::Atom('A'),
            Token::And,
            Token::Atom('B'),
            Token::Or,
            Token::Atom('C'),
            Token::IfThen,
            Token::Atom('D'),
            Token::Iff,
            Token::LParen,
            Token::Atom('E'),
            Token::RParen,
        ]
    );
}

#[test]
fn tokenize_glyphs() {
    let tokens = tokenize_string("\u{00ac}A\u{2227}B\u{2228}C\u{2192}D\u{2194}E").unwrap();
    assert_eq!(
        tokens,
        vec![
            Token::Not,
            Token::Atom('A'),
            Token::And,
            Token::Atom('B'),
            Token::Or,
            Token::Atom('C'),
            Token::IfThen,
            Token::Atom('D'),
            Token::Iff,
            Token::Atom('E'),
        ]
    );
}

#[test]
fn tokenize_rejects_stray_character() {
    assert!(matches!(
        tokenize_string("A@B"),
        Err(ParseError::TokenizeError('@'))
    ));
}

#[test]
fn tokenize_double_ampersand_is_two_tokens() {
    let tokens = tokenize_string("A&&B").unwrap();
    assert_eq!(
        tokens,
        vec![Token::Atom('A'), Token::And, Token::And, Token::Atom('B')]
    );
}

#[test]
fn tokenize_rejects_malformed_arrows() {
    assert!(matches!(
        tokenize_string("A=B"),
        Err(ParseError::TokenizeError('B'))
    ));
    assert!(matches!(
        tokenize_string("A="),
        Err(ParseError::TokenizeError('='))
    ));
    assert!(matches!(
        tokenize_string("A<=B"),
        Err(ParseError::TokenizeError('<'))
    ));
}

#[test]
fn parse_if_then_and_reduce() {
    let e = parse("A=>B");
    assert!(e.same(&if_then(atom('A'), atom('B'))));
    let r = e.reduce();
    assert!(r.same(&or(not(atom('A')), atom('B'))));
}

#[test]
fn parse_unbalanced_parenthesis_fails() {
    let tokens = tokenize_string("(A&B").unwrap();
    assert!(matches!(
        parse_tokens(&tokens),
        Err(ParseError::NotError(Token::LParen))
    ));
}

#[test]
fn parse_missing_operand_fails() {
    let tokens = tokenize_string("&B").unwrap();
    assert!(matches!(
        parse_tokens(&tokens),
        Err(ParseError::NotError(Token::And))
    ));
}

#[test]
fn parse_two_operands_without_operator_fails() {
    let tokens = tokenize_string("AB").unwrap();
    assert!(matches!(parse_tokens(&tokens), Err(ParseError::PopError)));
    let empty = tokenize_string("").unwrap();
    assert!(matches!(parse_tokens(&empty), Err(ParseError::PopError)));
}

#[test]
fn commutative_equality() {
    assert!(and(atom('A'), atom('B')) == and(atom('B'), atom('A')));
    assert!(or(atom('A'), atom('B')) == or(atom('B'), atom('A')));
    assert!(iff(atom('A'), atom('B')) == iff(atom('B'), atom('A')));
    assert!(if_then(atom('A'), atom('B')) != if_then(atom('B'), atom('A')));
    assert!(and(atom('A'), atom('B')) != or(atom('A'), atom('B')));
}

#[test]
fn reduce_is_idempotent() {
    let samples = vec![
        parse("A<=>B"),
        parse("-(A&B)|C"),
        parse("-(-A)"),
        parse("(A&B)|(C&D)"),
        parse("A=>(B=>C)"),
    ];
    for e in samples {
        let once = e.reduce();
        let twice = once.reduce();
        assert!(twice.same(&once));
    }
}

#[test]
fn reduce_applies_de_morgan_and_distribution() {
    // -(A&B) becomes -A | -B
    let r = parse("-(A&B)").reduce();
    assert!(r.same(&or(not(atom('A')), not(atom('B')))));
    // (A&B)|C distributes to (C|A) & (C|B)
    let r = parse("(A&B)|C").reduce();
    assert!(r.same(&and(or(atom('C'), atom('A')), or(atom('C'), atom('B')))));
}

#[test]
fn round_trip_of_rendered_formula() {
    // the fully parenthesized rendering of (-A) => (B|C)
    let e = if_then(not(atom('A')), or(atom('B'), atom('C')));
    let back = parse("(-A=>(B|C))");
    assert!(back.same(&e));
}

#[test]
fn cnf_of_distributed_disjunction() {
    let f = parse("(A&B)|C").reduce().to_cnf().unwrap();
    assert_eq!(f.len(), 2);
    assert!(f.contains_clause(&clause_of(vec![atom('A'), atom('C')])));
    assert!(f.contains_clause(&clause_of(vec![atom('B'), atom('C')])));
}

#[test]
fn cnf_clauses_hold_literals_only() {
    let f = parse("-(A&B)&(C|D)").reduce().to_cnf().unwrap();
    for clause in &f.clauses {
        for lit in &clause.lits {
            let ok = match lit {
                Expr::Atom(_) => true,
                Expr::Not(inner) => matches!(**inner, Expr::Atom(_)),
                _ => false,
            };
            assert!(ok);
        }
    }
}

#[test]
fn cnf_rejects_non_normal_root() {
    assert!(matches!(
        atom('A').to_cnf(),
        Err(ParseError::CNFError(_))
    ));
    assert!(matches!(
        if_then(atom('A'), atom('B')).to_cnf(),
        Err(ParseError::CNFError(_))
    ));
}

#[test]
fn contradiction_resolves_to_empty_clause() {
    // A & -A in clause form is {A} and {-A}; resolving them derives the
    // empty clause in exactly one step
    let f = parse("A&-A").reduce().to_cnf().unwrap();
    let steps = resolve(&f).unwrap();
    assert_eq!(steps.len(), 1);
    assert!(steps[0].left.set_eq(&clause_of(vec![atom('A')])));
    assert!(steps[0].right.set_eq(&clause_of(vec![not(atom('A'))])));
    assert!(steps[0].derived.lits.is_empty());
}

#[test]
fn resolution_trace_is_deterministic() {
    let f = parse("((A=>B)&A)&-B").reduce().to_cnf().unwrap();
    let s1 = resolve(&f).unwrap();
    let s2 = resolve(&f.dup()).unwrap();
    assert_eq!(s1.len(), s2.len());
    for (x, y) in s1.iter().zip(s2.iter()) {
        assert!(x.left.set_eq(&y.left));
        assert!(x.right.set_eq(&y.right));
        assert!(x.derived.set_eq(&y.derived));
    }
}

#[test]
fn tautological_clause_set_yields_no_steps() {
    // {A, -A} is a tautology: the filter drops it and no pair is left
    let mut f = ClauseSet::new();
    f.insert_clause(clause_of(vec![atom('A'), not(atom('A'))]));
    let steps = resolve(&f).unwrap();
    assert!(steps.is_empty());
}

#[test]
fn refutation_of_negated_valid_formula() {
    // ((A=>B) & A) => B is valid: its negation refutes to the empty clause
    let e = parse("((A=>B)&A)=>B");
    let f = resolution::cnf::negated_cnf(&e).unwrap();
    let steps = resolve(&f).unwrap();
    assert!(!steps.is_empty());
    assert!(steps.last().unwrap().derived.lits.is_empty());
}

#[test]
fn no_refutation_for_negated_contradiction() {
    // A & -A is not valid: its negation -A | A is a tautology, so no
    // refutation exists
    let e = parse("A&-A");
    let f = resolution::cnf::negated_cnf(&e).unwrap();
    let steps = resolve(&f).unwrap();
    assert!(steps.is_empty());
}

#[test]
fn satisfiable_formula_without_refutation() {
    // A & B is satisfiable but not valid: no refutation of its negation
    let e = parse("A&B");
    let f = resolution::cnf::negated_cnf(&e).unwrap();
    let steps = resolve(&f).unwrap();
    assert!(steps.is_empty());
}

#[test]
fn reduce_preserves_the_verdict() {
    // a formula and its reduced form get the same verdict from the solver
    for text in ["A|-A", "(A=>B)|A", "A&B", "(A&B)|C"] {
        let e = parse(text);
        let direct = resolve(&resolution::cnf::negated_cnf(&e).unwrap()).unwrap();
        let reduced = resolve(&resolution::cnf::negated_cnf(&e.reduce()).unwrap()).unwrap();
        assert_eq!(direct.is_empty(), reduced.is_empty());
    }
}

#[test]
fn clause_members_collapse() {
    let c = clause_of(vec![atom('A'), atom('A'), not(atom('A'))]);
    assert_eq!(c.lits.len(), 2);
    assert!(c.contains_lit(&atom('A')));
    assert!(c.contains_lit(&not(atom('A'))));
    assert!(!c.contains_lit(&atom('B')));
}

#[test]
fn clause_set_equality_ignores_order() {
    let a = clause_of(vec![atom('A'), atom('B')]);
    let b = clause_of(vec![atom('B'), atom('A')]);
    assert!(a.set_eq(&b));
    let mut f = ClauseSet::new();
    f.insert_clause(a);
    f.insert_clause(b);
    assert_eq!(f.len(), 1);
}

#[test]
fn iff_reduces_to_two_clauses() {
    let r = parse("A<=>B").reduce();
    let f = r.to_cnf().unwrap();
    assert_eq!(f.len(), 2);
    assert!(f.contains_clause(&clause_of(vec![not(atom('A')), atom('B')])));
    assert!(f.contains_clause(&clause_of(vec![not(atom('B')), atom('A')])));
}
