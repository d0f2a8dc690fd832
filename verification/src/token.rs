//! Tokens of the formula language and the tokenizer.

use vstd::prelude::*;

use crate::error::ParseError;

verus! {

/// One token of the formula language.
#[derive(Clone, Copy, PartialEq, Eq, Debug)]
pub enum Token {
    Atom(char),
    Not,
    And,
    Or,
    IfThen,
    Iff,
    LParen,
    RParen,
}

/// What the tokenizer makes of a character sequence, one character at a time
/// with a short look-ahead for `=>` and `<=>`.
pub open spec fn tokenize_spec(s: Seq<char>) -> Result<Seq<Token>, ParseError>
    decreases s.len(),
{
    if s.len() == 0 {
        Ok(Seq::empty())
    } else {
        let c = s[0];
        if 'A' <= c && c <= 'Z' {
            cons_token(Token::Atom(c), tokenize_spec(s.skip(1)))
        } else if c == '-' || c == '~' || c == '\u{00ac}' {
            cons_token(Token::Not, tokenize_spec(s.skip(1)))
        } else if c == '&' || c == '^' || c == '\u{2227}' {
            cons_token(Token::And, tokenize_spec(s.skip(1)))
        } else if c == '|' || c == 'v' || c == '\u{2228}' {
            cons_token(Token::Or, tokenize_spec(s.skip(1)))
        } else if c == '\u{2192}' {
            cons_token(Token::IfThen, tokenize_spec(s.skip(1)))
        } else if c == '\u{2194}' {
            cons_token(Token::Iff, tokenize_spec(s.skip(1)))
        } else if c == '(' {
            cons_token(Token::LParen, tokenize_spec(s.skip(1)))
        } else if c == ')' {
            cons_token(Token::RParen, tokenize_spec(s.skip(1)))
        } else if c == '=' {
            if s.len() >= 2 && s[1] == '>' {
                cons_token(Token::IfThen, tokenize_spec(s.skip(2)))
            } else if s.len() >= 2 {
                Err(ParseError::TokenizeError(s[1]))
            } else {
                Err(ParseError::TokenizeError('='))
            }
        } else if c == '<' {
            if s.len() >= 3 && s[1] == '=' && s[2] == '>' {
                cons_token(Token::Iff, tokenize_spec(s.skip(3)))
            } else {
                Err(ParseError::TokenizeError('<'))
            }
        } else if c == ' ' || c == '\t' {
            tokenize_spec(s.skip(1))
        } else {
            Err(ParseError::TokenizeError(c))
        }
    }
}

/// Prepends a token to the tokens of the rest of the text, passing an error
/// through.
pub open spec fn cons_token(t: Token, rest: Result<Seq<Token>, ParseError>) -> Result<
    Seq<Token>,
    ParseError,
> {
    match rest {
        Ok(ts) => Ok(seq![t] + ts),
        Err(e) => Err(e),
    }
}

/// Appends tokens already produced in front of the tokens of the remaining
/// text, passing an error through.
pub open spec fn prepend_tokens(pre: Seq<Token>, rest: Result<Seq<Token>, ParseError>) -> Result<
    Seq<Token>,
    ParseError,
> {
    match rest {
        Ok(ts) => Ok(pre + ts),
        Err(e) => Err(e),
    }
}

proof fn lemma_prepend_step(pre: Seq<Token>, t: Token, rest: Result<Seq<Token>, ParseError>)
    ensures
        prepend_tokens(pre, cons_token(t, rest)) == prepend_tokens(pre.push(t), rest),
{
    match rest {
        Ok(ts) => {
            assert(pre + (seq![t] + ts) =~= pre.push(t) + ts);
        },
        Err(_) => {},
    }
}

/// Tokenizes the text, exactly as `tokenize_spec` describes: upper-case
/// letters become atoms, operator characters become operator tokens, blanks
/// are skipped, and any other character is reported.
pub fn tokenize_string(s: &str) -> (r: Result<Vec<Token>, ParseError>)
    ensures
        r matches Ok(v) ==> tokenize_spec(s@) == Ok::<Seq<Token>, ParseError>(v@),
        r matches Err(e) ==> tokenize_spec(s@) == Err::<Seq<Token>, ParseError>(e),
{
    let n = s.unicode_len();
    let mut tokens: Vec<Token> = Vec::new();
    let mut i: usize = 0;
    proof {
        assert(s@.skip(0) =~= s@);
        match tokenize_spec(s@) {
            Ok(ts) => {
                assert(Seq::<Token>::empty() + ts =~= ts);
            },
            Err(_) => {},
        }
    }
    while i < n
        invariant
            i <= n,
            n == s@.len(),
            tokenize_spec(s@) == prepend_tokens(tokens@, tokenize_spec(s@.skip(i as int))),
        decreases n - i,
    {
        proof {
            assert(s@.skip(i as int)[0] == s@[i as int]);
            assert(s@.skip(i as int).skip(1) =~= s@.skip(i as int + 1));
        }
        let ghost pre = tokens@;
        let c = s.get_char(i);
        if 'A' <= c && c <= 'Z' {
            tokens.push(Token::Atom(c));
            proof {
                lemma_prepend_step(pre, Token::Atom(c), tokenize_spec(s@.skip(i as int + 1)));
            }
            i = i + 1;
        } else if c == '-' || c == '~' || c == '\u{00ac}' {
            tokens.push(Token::Not);
            proof {
                lemma_prepend_step(pre, Token::Not, tokenize_spec(s@.skip(i as int + 1)));
            }
            i = i + 1;
        } else if c == '&' || c == '^' || c == '\u{2227}' {
            tokens.push(Token::And);
            proof {
                lemma_prepend_step(pre, Token::And, tokenize_spec(s@.skip(i as int + 1)));
            }
            i = i + 1;
        } else if c == '|' || c == 'v' || c == '\u{2228}' {
            tokens.push(Token::Or);
            proof {
                lemma_prepend_step(pre, Token::Or, tokenize_spec(s@.skip(i as int + 1)));
            }
            i = i + 1;
        } else if c == '\u{2192}' {
            tokens.push(Token::IfThen);
            proof {
                lemma_prepend_step(pre, Token::IfThen, tokenize_spec(s@.skip(i as int + 1)));
            }
            i = i + 1;
        } else if c == '\u{2194}' {
            tokens.push(Token::Iff);
            proof {
                lemma_prepend_step(pre, Token::Iff, tokenize_spec(s@.skip(i as int + 1)));
            }
            i = i + 1;
        } else if c == '(' {
            tokens.push(Token::LParen);
            proof {
                lemma_prepend_step(pre, Token::LParen, tokenize_spec(s@.skip(i as int + 1)));
            }
            i = i + 1;
        } else if c == ')' {
            tokens.push(Token::RParen);
            proof {
                lemma_prepend_step(pre, Token::RParen, tokenize_spec(s@.skip(i as int + 1)));
            }
            i = i + 1;
        } else if c == '=' {
            if i + 1 < n {
                let c2 = s.get_char(i + 1);
                proof {
                    assert(s@.skip(i as int)[1] == s@[i as int + 1]);
                }
                if c2 == '>' {
                    proof {
                        assert(s@.skip(i as int).skip(2) =~= s@.skip(i as int + 2));
                    }
                    tokens.push(Token::IfThen);
                    proof {
                        lemma_prepend_step(
                            pre,
                            Token::IfThen,
                            tokenize_spec(s@.skip(i as int + 2)),
                        );
                    }
                    i = i + 2;
                } else {
                    return Err(ParseError::TokenizeError(c2));
                }
            } else {
                return Err(ParseError::TokenizeError('='));
            }
        } else if c == '<' {
            if n - i > 2 {
                let c2 = s.get_char(i + 1);
                let c3 = s.get_char(i + 2);
                proof {
                    assert(s@.skip(i as int)[1] == s@[i as int + 1]);
                    assert(s@.skip(i as int)[2] == s@[i as int + 2]);
                }
                if c2 == '=' && c3 == '>' {
                    proof {
                        assert(s@.skip(i as int).skip(3) =~= s@.skip(i as int + 3));
                    }
                    tokens.push(Token::Iff);
                    proof {
                        lemma_prepend_step(pre, Token::Iff, tokenize_spec(s@.skip(i as int + 3)));
                    }
                    i = i + 3;
                } else {
                    return Err(ParseError::TokenizeError('<'));
                }
            } else {
                return Err(ParseError::TokenizeError('<'));
            }
        } else if c == ' ' || c == '\t' {
            i = i + 1;
        } else {
            return Err(ParseError::TokenizeError(c));
        }
    }
    proof {
        assert(s@.skip(n as int) =~= Seq::<char>::empty());
        assert(tokens@ + Seq::<Token>::empty() =~= tokens@);
    }
    Ok(tokens)
}

} // verus!
