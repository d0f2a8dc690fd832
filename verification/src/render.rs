//! Rendering a formula back to tokens and text, and the round trip: the
//! rendering of a formula tokenizes and parses back to the very same tree.

use vstd::prelude::*;

use crate::error::ParseError;
use crate::expr::Expr;
use crate::parse::{
    apply_binop, drain_end, drain_nots, drain_until_lparen, parse_from, parse_spec,
};
use crate::token::{cons_token, tokenize_spec, Token};

verus! {

/// Atom names the grammar admits: single upper-case letters.
pub open spec fn wf_atoms(e: Expr) -> bool
    decreases e,
{
    match e {
        Expr::Atom(c) => 'A' <= c && c <= 'Z',
        Expr::Not(x) => wf_atoms(*x),
        Expr::And(x, y) => wf_atoms(*x) && wf_atoms(*y),
        Expr::Or(x, y) => wf_atoms(*x) && wf_atoms(*y),
        Expr::IfThen(x, y) => wf_atoms(*x) && wf_atoms(*y),
        Expr::Iff(x, y) => wf_atoms(*x) && wf_atoms(*y),
    }
}

/// A token a rendering can hold: an atom names an upper-case letter.
pub open spec fn wf_token(t: Token) -> bool {
    match t {
        Token::Atom(c) => 'A' <= c && c <= 'Z',
        _ => true,
    }
}

/// The text of one token, in the plain notation the tokenizer reads.
pub open spec fn token_text(t: Token) -> Seq<char> {
    match t {
        Token::Atom(c) => seq![c],
        Token::Not => seq!['-'],
        Token::And => seq!['&'],
        Token::Or => seq!['|'],
        Token::IfThen => seq!['=', '>'],
        Token::Iff => seq!['<', '=', '>'],
        Token::LParen => seq!['('],
        Token::RParen => seq![')'],
    }
}

/// The fully parenthesized token rendering of a formula: negation is
/// prefixed, every binary node is wrapped in parentheses.
pub open spec fn render_tokens(e: Expr) -> Seq<Token>
    decreases e,
{
    match e {
        Expr::Atom(c) => seq![Token::Atom(c)],
        Expr::Not(x) => seq![Token::Not] + render_tokens(*x),
        Expr::And(x, y) => seq![Token::LParen] + render_tokens(*x) + seq![Token::And]
            + render_tokens(*y) + seq![Token::RParen],
        Expr::Or(x, y) => seq![Token::LParen] + render_tokens(*x) + seq![Token::Or]
            + render_tokens(*y) + seq![Token::RParen],
        Expr::IfThen(x, y) => seq![Token::LParen] + render_tokens(*x) + seq![Token::IfThen]
            + render_tokens(*y) + seq![Token::RParen],
        Expr::Iff(x, y) => seq![Token::LParen] + render_tokens(*x) + seq![Token::Iff]
            + render_tokens(*y) + seq![Token::RParen],
    }
}

/// The texts of the tokens, in order.
pub open spec fn texts(ts: Seq<Token>) -> Seq<char>
    decreases ts.len(),
{
    if ts.len() == 0 {
        Seq::empty()
    } else {
        token_text(ts[0]) + texts(ts.skip(1))
    }
}

/// The text rendering of a formula.
pub open spec fn render_text(e: Expr) -> Seq<char> {
    texts(render_tokens(e))
}

/// Tokenizing the text of a well-formed token sequence gives back exactly
/// that sequence.
proof fn lemma_tokenize_texts(ts: Seq<Token>)
    requires
        forall|k: int| 0 <= k < ts.len() ==> wf_token(#[trigger] ts[k]),
    ensures
        tokenize_spec(texts(ts)) == Ok::<Seq<Token>, ParseError>(ts),
    decreases ts.len(),
{
    if ts.len() == 0 {
        assert(ts =~= Seq::<Token>::empty());
        assert(texts(ts) == Seq::<char>::empty());
    } else {
        let t = ts[0];
        let rest = ts.skip(1);
        lemma_tokenize_texts(rest);
        let s = texts(ts);
        assert(s == token_text(t) + texts(rest));
        let w = token_text(t).len() as int;
        assert(s.len() == w + texts(rest).len());
        assert forall|q: int| 0 <= q < texts(rest).len() implies s.skip(w)[q] == texts(rest)[q] by {
            assert(s[w + q] == texts(rest)[q]);
        }
        assert(s.skip(w) =~= texts(rest));
        match t {
            Token::Atom(c) => {
                assert(s[0] == c);
                assert(tokenize_spec(s) == cons_token(t, tokenize_spec(s.skip(1))));
            },
            Token::IfThen => {
                assert(s[0] == '=' && s[1] == '>');
                assert(tokenize_spec(s) == cons_token(t, tokenize_spec(s.skip(2))));
            },
            Token::Iff => {
                assert(s[0] == '<' && s[1] == '=' && s[2] == '>');
                assert(tokenize_spec(s) == cons_token(t, tokenize_spec(s.skip(3))));
            },
            _ => {
                assert(tokenize_spec(s) == cons_token(t, tokenize_spec(s.skip(1))));
            },
        }
        assert(seq![t] + rest =~= ts);
    }
}

/// Every token a well-formed formula renders to is well formed.
proof fn lemma_render_wf(e: Expr)
    requires
        wf_atoms(e),
    ensures
        forall|k: int| 0 <= k < render_tokens(e).len() ==> wf_token(#[trigger] render_tokens(e)[k]),
    decreases e,
{
    match e {
        Expr::Atom(c) => {},
        Expr::Not(x) => {
            lemma_render_wf(*x);
            assert forall|k: int| 0 <= k < render_tokens(e).len() implies wf_token(
                #[trigger] render_tokens(e)[k],
            ) by {
                if k >= 1 {
                    assert(render_tokens(e)[k] == render_tokens(*x)[k - 1]);
                }
            }
        },
        Expr::And(x, y) => {
            lemma_render_wf(*x);
            lemma_render_wf(*y);
            lemma_render_binary_wf(e, *x, *y);
        },
        Expr::Or(x, y) => {
            lemma_render_wf(*x);
            lemma_render_wf(*y);
            lemma_render_binary_wf(e, *x, *y);
        },
        Expr::IfThen(x, y) => {
            lemma_render_wf(*x);
            lemma_render_wf(*y);
            lemma_render_binary_wf(e, *x, *y);
        },
        Expr::Iff(x, y) => {
            lemma_render_wf(*x);
            lemma_render_wf(*y);
            lemma_render_binary_wf(e, *x, *y);
        },
    }
}

/// The token of a binary node.
spec fn binop_token(e: Expr) -> Token {
    match e {
        Expr::And(_, _) => Token::And,
        Expr::Or(_, _) => Token::Or,
        Expr::IfThen(_, _) => Token::IfThen,
        _ => Token::Iff,
    }
}

/// Whether the node is a binary connective, and its operands.
spec fn is_binary(e: Expr, x: Expr, y: Expr) -> bool {
    match e {
        Expr::And(a, b) => *a == x && *b == y,
        Expr::Or(a, b) => *a == x && *b == y,
        Expr::IfThen(a, b) => *a == x && *b == y,
        Expr::Iff(a, b) => *a == x && *b == y,
        _ => false,
    }
}

/// How many negations prefix the tree.
pub open spec fn not_depth(e: Expr) -> nat
    decreases e,
{
    match e {
        Expr::Not(x) => 1 + not_depth(*x),
        _ => 0,
    }
}

/// The tree under its prefixed negations.
pub open spec fn strip_nots(e: Expr) -> Expr
    decreases e,
{
    match e {
        Expr::Not(x) => strip_nots(*x),
        _ => e,
    }
}

/// `k` `Not` tokens.
pub open spec fn rep_not(k: nat) -> Seq<Token> {
    Seq::new(k, |q: int| Token::Not)
}

/// `k` negations wrapped around a tree.
pub open spec fn wrap_nots(k: nat, b: Expr) -> Expr
    decreases k,
{
    if k == 0 {
        b
    } else {
        Expr::Not(Box::new(wrap_nots((k - 1) as nat, b)))
    }
}

proof fn lemma_wrap_shift(k: nat, b: Expr)
    requires
        k >= 1,
    ensures
        wrap_nots((k - 1) as nat, Expr::Not(Box::new(b))) == wrap_nots(k, b),
    decreases k,
{
    reveal_with_fuel(wrap_nots, 3);
    if k > 1 {
        lemma_wrap_shift((k - 1) as nat, b);
    }
}

proof fn lemma_wrap_strip(e: Expr)
    ensures
        wrap_nots(not_depth(e), strip_nots(e)) == e,
    decreases e,
{
    match e {
        Expr::Not(x) => {
            lemma_wrap_strip(*x);
        },
        _ => {},
    }
}

/// Draining pending `Not` tokens before a binary operator wraps the top
/// operand once per token.
proof fn lemma_drain_nots_rep(ts: Seq<Token>, es: Seq<Expr>, k: nat, b: Expr, errtok: Token)
    requires
        ts.len() == 0 || ts.last() != Token::Not,
    ensures
        drain_nots(ts + rep_not(k), es.push(b), errtok) == Ok::<(Seq<Token>, Seq<Expr>), ParseError>(
            (ts, es.push(wrap_nots(k, b))),
        ),
    decreases k,
{
    if k == 0 {
        assert(ts + rep_not(0) =~= ts);
    } else {
        let full = ts + rep_not(k);
        assert(full.last() == Token::Not);
        assert(full.drop_last() =~= ts + rep_not((k - 1) as nat));
        assert(es.push(b).drop_last() =~= es);
        assert(es.push(b).last() == b);
        lemma_drain_nots_rep(ts, es, (k - 1) as nat, Expr::Not(Box::new(b)), errtok);
        lemma_wrap_shift(k, b);
    }
}

/// The `Not`-popping steps of the close-parenthesis drain.
proof fn lemma_drain_lparen_nots(ts: Seq<Token>, es: Seq<Expr>, k: nat, b: Expr)
    ensures
        drain_until_lparen(ts + rep_not(k), es.push(b)) == drain_until_lparen(
            ts,
            es.push(wrap_nots(k, b)),
        ),
    decreases k,
{
    if k == 0 {
        assert(ts + rep_not(0) =~= ts);
    } else {
        let full = ts + rep_not(k);
        assert(full.last() == Token::Not);
        assert(full.drop_last() =~= ts + rep_not((k - 1) as nat));
        assert(es.push(b).drop_last() =~= es);
        assert(es.push(b).last() == b);
        lemma_drain_lparen_nots(ts, es, (k - 1) as nat, Expr::Not(Box::new(b)));
        lemma_wrap_shift(k, b);
    }
}

/// The end drain applied to pending `Not` tokens alone.
proof fn lemma_drain_end_rep(es: Seq<Expr>, k: nat, b: Expr)
    ensures
        drain_end(rep_not(k), es.push(b)) == Ok::<Seq<Expr>, ParseError>(
            es.push(wrap_nots(k, b)),
        ),
    decreases k,
{
    if k == 0 {
        assert(rep_not(0) =~= Seq::<Token>::empty());
    } else {
        let full = rep_not(k);
        assert(full.last() == Token::Not);
        assert(full.drop_last() =~= rep_not((k - 1) as nat));
        assert(es.push(b).drop_last() =~= es);
        assert(es.push(b).last() == b);
        lemma_drain_end_rep(es, (k - 1) as nat, Expr::Not(Box::new(b)));
        lemma_wrap_shift(k, b);
    }
}

/// Parsing the rendering of `e` from any stacks leaves the operand for `e`
/// on the operand stack, with its prefixed negations pending on the operator
/// stack.
proof fn lemma_render_parses(e: Expr, toks: Seq<Token>, i: int, ts: Seq<Token>, es: Seq<Expr>)
    requires
        0 <= i,
        i + render_tokens(e).len() <= toks.len(),
        toks.subrange(i, i + render_tokens(e).len() as int) == render_tokens(e),
    ensures
        parse_from(toks, i, ts, es) == parse_from(
            toks,
            i + render_tokens(e).len() as int,
            ts + rep_not(not_depth(e)),
            es.push(strip_nots(e)),
        ),
    decreases e, 1int,
{
    let re = render_tokens(e);
    assert forall|q: int| 0 <= q < re.len() implies toks[i + q] == #[trigger] re[q] by {
        assert(toks.subrange(i, i + re.len() as int)[q] == toks[i + q]);
    }
    match e {
        Expr::Atom(c) => {
            assert(toks[i] == Token::Atom(c));
            assert(ts + rep_not(0) =~= ts);
        },
        Expr::Not(x) => {
            assert(re[0] == Token::Not);
            assert(toks[i] == Token::Not);
            let rx = render_tokens(*x);
            assert forall|q: int| 0 <= q < rx.len() implies toks.subrange(
                i + 1,
                i + 1 + rx.len() as int,
            )[q] == #[trigger] rx[q] by {
                assert(re[1 + q] == rx[q]);
                assert(toks[i + 1 + q] == re[1 + q]);
            }
            assert(toks.subrange(i + 1, i + 1 + rx.len() as int) =~= rx);
            lemma_render_parses(*x, toks, i + 1, ts.push(Token::Not), es);
            assert(ts.push(Token::Not) + rep_not(not_depth(*x)) =~= ts + rep_not(not_depth(e)));
        },
        Expr::And(x, y) => {
            lemma_render_parses_binary(e, *x, *y, toks, i, ts, es);
        },
        Expr::Or(x, y) => {
            lemma_render_parses_binary(e, *x, *y, toks, i, ts, es);
        },
        Expr::IfThen(x, y) => {
            lemma_render_parses_binary(e, *x, *y, toks, i, ts, es);
        },
        Expr::Iff(x, y) => {
            lemma_render_parses_binary(e, *x, *y, toks, i, ts, es);
        },
    }
}

/// The binary case of `lemma_render_parses`: parenthesis, left operand,
/// operator, right operand, closing parenthesis.
proof fn lemma_render_parses_binary(
    e: Expr,
    x: Expr,
    y: Expr,
    toks: Seq<Token>,
    i: int,
    ts: Seq<Token>,
    es: Seq<Expr>,
)
    requires
        is_binary(e, x, y),
        0 <= i,
        i + render_tokens(e).len() <= toks.len(),
        toks.subrange(i, i + render_tokens(e).len() as int) == render_tokens(e),
    ensures
        parse_from(toks, i, ts, es) == parse_from(
            toks,
            i + render_tokens(e).len() as int,
            ts,
            es.push(e),
        ),
    decreases e, 0int,
{
    let re = render_tokens(e);
    let rx = render_tokens(x);
    let ry = render_tokens(y);
    let lx = rx.len() as int;
    let ly = ry.len() as int;
    let op = binop_token(e);
    assert(re == seq![Token::LParen] + rx + seq![op] + ry + seq![Token::RParen]);
    assert(re.len() == 3 + lx + ly);
    assert forall|q: int| 0 <= q < re.len() implies toks[i + q] == #[trigger] re[q] by {
        assert(toks.subrange(i, i + re.len() as int)[q] == toks[i + q]);
    }
    assert(re[0] == Token::LParen);
    assert(re[1 + lx] == op);
    assert(re[2 + lx + ly] == Token::RParen);
    assert(toks[i] == Token::LParen);
    // the left operand's rendering sits right after the parenthesis
    assert forall|q: int| 0 <= q < lx implies toks.subrange(i + 1, i + 1 + lx)[q]
        == #[trigger] rx[q] by {
        assert(re[1 + q] == rx[q]);
        assert(toks[i + 1 + q] == re[1 + q]);
    }
    assert(toks.subrange(i + 1, i + 1 + lx) =~= rx);
    assert(decreases_to!(e => x));
    lemma_render_parses(x, toks, i + 1, ts.push(Token::LParen), es);
    lemma_wrap_strip(x);
    // the binary operator drains the pending negations of the left operand
    assert(toks[i + 1 + lx] == op);
    lemma_drain_nots_rep(ts.push(Token::LParen), es, not_depth(x), strip_nots(x), op);
    // the right operand's rendering follows the operator
    assert forall|q: int| 0 <= q < ly implies toks.subrange(
        i + 2 + lx,
        i + 2 + lx + ly,
    )[q] == #[trigger] ry[q] by {
        assert(re[2 + lx + q] == ry[q]);
        assert(toks[i + 2 + lx + q] == re[2 + lx + q]);
    }
    assert(toks.subrange(i + 2 + lx, i + 2 + lx + ly) =~= ry);
    assert(decreases_to!(e => y));
    lemma_render_parses(y, toks, i + 2 + lx, ts.push(Token::LParen).push(op), es.push(x));
    lemma_wrap_strip(y);
    // the closing parenthesis rebuilds the right operand, applies the
    // operator, and pops the parenthesis
    assert(toks[i + 2 + lx + ly] == Token::RParen);
    lemma_drain_lparen_nots(
        ts.push(Token::LParen).push(op),
        es.push(x),
        not_depth(y),
        strip_nots(y),
    );
    let ts2 = ts.push(Token::LParen).push(op);
    let es2 = es.push(x).push(y);
    assert(ts2.last() == op);
    assert(es2.len() >= 2);
    assert(es2[es2.len() - 2] == x);
    assert(es2.last() == y);
    assert(apply_binop(op, x, y) == e);
    assert(ts2.drop_last() =~= ts.push(Token::LParen));
    assert(es2.drop_last().drop_last() =~= es);
    assert(drain_until_lparen(ts2, es2) == drain_until_lparen(
        ts.push(Token::LParen),
        es.push(e),
    ));
    assert(ts.push(Token::LParen).last() == Token::LParen);
    assert(ts.push(Token::LParen).drop_last() =~= ts);
    assert(drain_until_lparen(ts.push(Token::LParen), es.push(e)) == Ok::<
        (Seq<Token>, Seq<Expr>),
        ParseError,
    >((ts, es.push(e))));
}

proof fn lemma_render_binary_wf(e: Expr, x: Expr, y: Expr)
    requires
        is_binary(e, x, y),
        forall|k: int| 0 <= k < render_tokens(x).len() ==> wf_token(
            #[trigger] render_tokens(x)[k],
        ),
        forall|k: int| 0 <= k < render_tokens(y).len() ==> wf_token(
            #[trigger] render_tokens(y)[k],
        ),
    ensures
        forall|k: int| 0 <= k < render_tokens(e).len() ==> wf_token(#[trigger] render_tokens(e)[k]),
{
    let rx = render_tokens(x);
    let ry = render_tokens(y);
    let rt = render_tokens(e);
    assert(rt == seq![Token::LParen] + rx + seq![binop_token(e)] + ry + seq![Token::RParen]);
    assert forall|k: int| 0 <= k < rt.len() implies wf_token(#[trigger] rt[k]) by {
        if 1 <= k < 1 + rx.len() {
            assert(rt[k] == rx[k - 1]);
        } else if 2 + rx.len() <= k < 2 + rx.len() + ry.len() {
            assert(rt[k] == ry[k - 2 - rx.len()]);
        }
    }
}

/// The round trip: rendering a formula of the grammar to text, then
/// tokenizing and parsing that text, yields the very same expression tree.
pub proof fn lemma_round_trip(e: Expr)
    requires
        wf_atoms(e),
    ensures
        tokenize_spec(render_text(e)) == Ok::<Seq<Token>, ParseError>(render_tokens(e)),
        parse_spec(render_tokens(e)) == Ok::<Expr, ParseError>(e),
{
    lemma_render_wf(e);
    lemma_tokenize_texts(render_tokens(e));
    let toks = render_tokens(e);
    assert(toks.subrange(0, toks.len() as int) =~= toks);
    lemma_render_parses(e, toks, 0, Seq::empty(), Seq::empty());
    lemma_drain_end_rep(Seq::empty(), not_depth(e), strip_nots(e));
    lemma_wrap_strip(e);
    let es2 = Seq::<Expr>::empty().push(e);
    assert(Seq::<Token>::empty() + rep_not(not_depth(e)) =~= rep_not(not_depth(e)));
    assert(es2.len() == 1 && es2[0] == e);
}

} // verus!
