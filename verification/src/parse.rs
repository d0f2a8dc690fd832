//! The operator-stack parser: a loop over the tokens with an explicit
//! operator stack and operand stack.

use vstd::prelude::*;

use crate::error::ParseError;
use crate::expr::Expr;
use crate::token::Token;

verus! {

/// Combines two operands with a binary operator token, the first popped
/// operand on the right.
pub open spec fn apply_binop(t: Token, l: Expr, r: Expr) -> Expr {
    match t {
        Token::And => Expr::And(Box::new(l), Box::new(r)),
        Token::Or => Expr::Or(Box::new(l), Box::new(r)),
        Token::IfThen => Expr::IfThen(Box::new(l), Box::new(r)),
        _ => Expr::Iff(Box::new(l), Box::new(r)),
    }
}

/// Whether a token is a binary operator.
pub open spec fn is_binop(t: Token) -> bool {
    t == Token::And || t == Token::Or || t == Token::IfThen || t == Token::Iff
}

/// Pops pending `Not` operators before a binary operator is recorded,
/// wrapping the top operand once per `Not`. `errtok` is the binary token
/// being processed; a missing operand is reported against it.
pub open spec fn drain_nots(ts: Seq<Token>, es: Seq<Expr>, errtok: Token) -> Result<
    (Seq<Token>, Seq<Expr>),
    ParseError,
>
    decreases ts.len(),
{
    if ts.len() == 0 {
        Ok((ts, es))
    } else if ts.last() == Token::Not {
        if es.len() == 0 {
            Err(ParseError::NotError(errtok))
        } else {
            drain_nots(
                ts.drop_last(),
                es.drop_last().push(Expr::Not(Box::new(es.last()))),
                errtok,
            )
        }
    } else {
        Ok((ts, es))
    }
}

/// Pops and applies operators down to the matching `LParen` when a `RParen`
/// arrives. Meeting an atom, another `RParen`, or the bottom of either stack
/// first is a structural error.
pub open spec fn drain_until_lparen(ts: Seq<Token>, es: Seq<Expr>) -> Result<
    (Seq<Token>, Seq<Expr>),
    ParseError,
>
    decreases ts.len(),
{
    if ts.len() == 0 {
        Err(ParseError::NotError(Token::RParen))
    } else {
        let t = ts.last();
        match t {
            Token::LParen => Ok((ts.drop_last(), es)),
            Token::Not => if es.len() == 0 {
                Err(ParseError::NotError(Token::RParen))
            } else {
                drain_until_lparen(
                    ts.drop_last(),
                    es.drop_last().push(Expr::Not(Box::new(es.last()))),
                )
            },
            Token::Atom(_) => Err(ParseError::NotError(Token::RParen)),
            Token::RParen => Err(ParseError::NotError(Token::RParen)),
            _ => if es.len() < 2 {
                Err(ParseError::NotError(Token::RParen))
            } else {
                drain_until_lparen(
                    ts.drop_last(),
                    es.drop_last().drop_last().push(
                        apply_binop(t, es[es.len() - 2], es.last()),
                    ),
                )
            },
        }
    }
}

/// Drains the whole operator stack after the last token; a leftover atom or
/// parenthesis is a structural error named after that token.
pub open spec fn drain_end(ts: Seq<Token>, es: Seq<Expr>) -> Result<Seq<Expr>, ParseError>
    decreases ts.len(),
{
    if ts.len() == 0 {
        Ok(es)
    } else {
        let t = ts.last();
        match t {
            Token::Atom(_) => Err(ParseError::NotError(t)),
            Token::LParen => Err(ParseError::NotError(t)),
            Token::RParen => Err(ParseError::NotError(t)),
            Token::Not => if es.len() == 0 {
                Err(ParseError::NotError(t))
            } else {
                drain_end(ts.drop_last(), es.drop_last().push(Expr::Not(Box::new(es.last()))))
            },
            _ => if es.len() < 2 {
                Err(ParseError::NotError(t))
            } else {
                drain_end(
                    ts.drop_last(),
                    es.drop_last().drop_last().push(
                        apply_binop(t, es[es.len() - 2], es.last()),
                    ),
                )
            },
        }
    }
}

/// The parse from position `i` onward, with the stacks as they stand. At the
/// end the operator stack is drained and exactly one expression must remain.
pub open spec fn parse_from(toks: Seq<Token>, i: int, ts: Seq<Token>, es: Seq<Expr>) -> Result<
    Expr,
    ParseError,
>
    decreases toks.len() - i,
{
    if i < 0 || i >= toks.len() {
        match drain_end(ts, es) {
            Ok(es2) => if es2.len() == 1 {
                Ok(es2[0])
            } else {
                Err(ParseError::PopError)
            },
            Err(e) => Err(e),
        }
    } else {
        let t = toks[i];
        match t {
            Token::Atom(c) => parse_from(toks, i + 1, ts, es.push(Expr::Atom(c))),
            Token::Not => parse_from(toks, i + 1, ts.push(t), es),
            Token::LParen => parse_from(toks, i + 1, ts.push(t), es),
            Token::RParen => match drain_until_lparen(ts, es) {
                Ok(r) => parse_from(toks, i + 1, r.0, r.1),
                Err(e) => Err(e),
            },
            _ => match drain_nots(ts, es, t) {
                Ok(r) => parse_from(toks, i + 1, r.0.push(t), r.1),
                Err(e) => Err(e),
            },
        }
    }
}

/// What the parser makes of a token sequence.
pub open spec fn parse_spec(toks: Seq<Token>) -> Result<Expr, ParseError> {
    parse_from(toks, 0, Seq::empty(), Seq::empty())
}

/// The final check after the end drain: exactly one expression must remain.
pub open spec fn finish(ts: Seq<Token>, es: Seq<Expr>) -> Result<Expr, ParseError> {
    match drain_end(ts, es) {
        Ok(es2) => if es2.len() == 1 {
            Ok(es2[0])
        } else {
            Err(ParseError::PopError)
        },
        Err(e) => Err(e),
    }
}

fn apply_op(t: Token, l: Expr, r: Expr) -> (res: Expr)
    ensures
        res == apply_binop(t, l, r),
{
    match t {
        Token::And => Expr::And(Box::new(l), Box::new(r)),
        Token::Or => Expr::Or(Box::new(l), Box::new(r)),
        Token::IfThen => Expr::IfThen(Box::new(l), Box::new(r)),
        _ => Expr::Iff(Box::new(l), Box::new(r)),
    }
}

/// Parses the tokens with an operator stack and an operand stack, exactly as
/// `parse_spec` describes.
pub fn parse_tokens(tokens: &Vec<Token>) -> (r: Result<Expr, ParseError>)
    ensures
        r matches Ok(e) ==> parse_spec(tokens@) == Ok::<Expr, ParseError>(e),
        r matches Err(e) ==> parse_spec(tokens@) == Err::<Expr, ParseError>(e),
{
    let mut tstack: Vec<Token> = Vec::new();
    let mut estack: Vec<Expr> = Vec::new();
    let n = tokens.len();
    let mut i: usize = 0;
    while i < n
        invariant
            i <= n,
            n == tokens@.len(),
            parse_spec(tokens@) == parse_from(tokens@, i as int, tstack@, estack@),
        decreases n - i,
    {
        let ghost ts0 = tstack@;
        let ghost es0 = estack@;
        let t = tokens[i];
        match t {
            Token::Atom(c) => {
                estack.push(Expr::Atom(c));
                proof {
                    assert(parse_from(tokens@, i as int, ts0, es0) == parse_from(
                        tokens@,
                        i as int + 1,
                        tstack@,
                        estack@,
                    ));
                }
            },
            Token::Not => {
                tstack.push(t);
                proof {
                    assert(parse_from(tokens@, i as int, ts0, es0) == parse_from(
                        tokens@,
                        i as int + 1,
                        tstack@,
                        estack@,
                    ));
                }
            },
            Token::LParen => {
                tstack.push(t);
                proof {
                    assert(parse_from(tokens@, i as int, ts0, es0) == parse_from(
                        tokens@,
                        i as int + 1,
                        tstack@,
                        estack@,
                    ));
                }
            },
            Token::RParen => {
                loop
                    invariant_except_break
                        drain_until_lparen(ts0, es0) == drain_until_lparen(tstack@, estack@),
                    invariant
                        parse_spec(tokens@) == parse_from(tokens@, i as int, ts0, es0),
                        i < tokens@.len() && tokens@[i as int] == Token::RParen,
                    ensures
                        drain_until_lparen(ts0, es0) == Ok::<(Seq<Token>, Seq<Expr>), ParseError>(
                            (tstack@, estack@),
                        ),
                    decreases tstack@.len(),
                {
                    let ghost ts_it = tstack@;
                    let ghost es_it = estack@;
                    match tstack.pop() {
                        None => {
                            return Err(ParseError::NotError(Token::RParen));
                        },
                        Some(Token::LParen) => {
                            proof {
                                assert(drain_until_lparen(ts_it, es_it) == Ok::<
                                    (Seq<Token>, Seq<Expr>),
                                    ParseError,
                                >((tstack@, estack@)));
                            }
                            break ;
                        },
                        Some(Token::Not) => {
                            match estack.pop() {
                                None => {
                                    return Err(ParseError::NotError(Token::RParen));
                                },
                                Some(e) => {
                                    estack.push(Expr::Not(Box::new(e)));
                                    proof {
                                        assert(drain_until_lparen(ts_it, es_it)
                                            == drain_until_lparen(tstack@, estack@));
                                    }
                                },
                            }
                        },
                        Some(Token::Atom(_)) => {
                            return Err(ParseError::NotError(Token::RParen));
                        },
                        Some(Token::RParen) => {
                            return Err(ParseError::NotError(Token::RParen));
                        },
                        Some(op) => {
                            let e1 = match estack.pop() {
                                Some(e) => e,
                                None => {
                                    return Err(ParseError::NotError(Token::RParen));
                                },
                            };
                            let e2 = match estack.pop() {
                                Some(e) => e,
                                None => {
                                    return Err(ParseError::NotError(Token::RParen));
                                },
                            };
                            let combined = apply_op(op, e2, e1);
                            estack.push(combined);
                            proof {
                                assert(drain_until_lparen(ts_it, es_it) == drain_until_lparen(
                                    tstack@,
                                    estack@,
                                ));
                            }
                        },
                    }
                }
                proof {
                    assert(parse_from(tokens@, i as int, ts0, es0) == parse_from(
                        tokens@,
                        i as int + 1,
                        tstack@,
                        estack@,
                    ));
                }
            },
            _ => {
                loop
                    invariant_except_break
                        drain_nots(ts0, es0, t) == drain_nots(tstack@, estack@, t),
                    invariant
                        parse_spec(tokens@) == parse_from(tokens@, i as int, ts0, es0),
                        i < tokens@.len() && tokens@[i as int] == t,
                        is_binop(t),
                    ensures
                        drain_nots(ts0, es0, t) == Ok::<(Seq<Token>, Seq<Expr>), ParseError>(
                            (tstack@, estack@),
                        ),
                    decreases tstack@.len(),
                {
                    let ghost ts_it = tstack@;
                    let ghost es_it = estack@;
                    let top_is_not = match tstack.last() {
                        Some(Token::Not) => true,
                        _ => false,
                    };
                    if !top_is_not {
                        proof {
                            assert(drain_nots(ts_it, es_it, t) == Ok::<
                                (Seq<Token>, Seq<Expr>),
                                ParseError,
                            >((tstack@, estack@)));
                        }
                        break ;
                    }
                    tstack.pop();
                    match estack.pop() {
                        None => {
                            return Err(ParseError::NotError(t));
                        },
                        Some(e) => {
                            estack.push(Expr::Not(Box::new(e)));
                            proof {
                                assert(drain_nots(ts_it, es_it, t) == drain_nots(
                                    tstack@,
                                    estack@,
                                    t,
                                ));
                            }
                        },
                    }
                }
                tstack.push(t);
                proof {
                    assert(parse_from(tokens@, i as int, ts0, es0) == parse_from(
                        tokens@,
                        i as int + 1,
                        tstack@,
                        estack@,
                    ));
                }
            },
        }
        i = i + 1;
    }
    loop
        invariant
            parse_spec(tokens@) == finish(tstack@, estack@),
        ensures
            parse_spec(tokens@) == finish(tstack@, estack@),
            tstack@.len() == 0,
        decreases tstack@.len(),
    {
        let ghost ts_it = tstack@;
        let ghost es_it = estack@;
        match tstack.pop() {
            None => {
                break ;
            },
            Some(Token::Not) => {
                match estack.pop() {
                    None => {
                        return Err(ParseError::NotError(Token::Not));
                    },
                    Some(e) => {
                        estack.push(Expr::Not(Box::new(e)));
                        proof {
                            assert(finish(ts_it, es_it) == finish(tstack@, estack@));
                        }
                    },
                }
            },
            Some(tk @ Token::Atom(_)) => {
                return Err(ParseError::NotError(tk));
            },
            Some(Token::LParen) => {
                return Err(ParseError::NotError(Token::LParen));
            },
            Some(Token::RParen) => {
                return Err(ParseError::NotError(Token::RParen));
            },
            Some(op) => {
                let e1 = match estack.pop() {
                    Some(e) => e,
                    None => {
                        return Err(ParseError::NotError(op));
                    },
                };
                let e2 = match estack.pop() {
                    Some(e) => e,
                    None => {
                        return Err(ParseError::NotError(op));
                    },
                };
                let combined = apply_op(op, e2, e1);
                estack.push(combined);
                proof {
                    assert(finish(ts_it, es_it) == finish(tstack@, estack@));
                }
            },
        }
    }
    let result = match estack.pop() {
        Some(e) => e,
        None => {
            return Err(ParseError::PopError);
        },
    };
    if estack.len() > 0 {
        return Err(ParseError::PopError);
    }
    proof {
        assert(estack@ =~= Seq::<Expr>::empty());
    }
    Ok(result)
}

} // verus!
