//! The surface-syntax parser: recursive descent over the token list.

use crate::expr::Expr;
use crate::token::{spec_tokenize, tokenize, Token};
use crate::types::{contains_name, Mono, Poly};
use vstd::prelude::*;

verus! {

/// How parsing can fail.
#[derive(Debug, PartialEq, Eq)]
pub enum ParseError {
    /// A token was read that the grammar does not allow here; the text
    /// names what was expected instead.
    UnexpectedToken { unexpected: Token, expected: String },
    /// The input ended where the grammar demanded more.
    UnexpectedEOF,
    /// Tokens were left over after a complete parse.
    TrailingTokens,
    /// A character fit no token.
    TokenizerError(String),
}

pub type ParseResult<T> = Result<T, ParseError>;

/// Parses a whole expression; leftover tokens are an error.
pub fn parse(text: &str) -> (r: ParseResult<Expr>)
    ensures
        spec_tokenize(text@) is None <==> r matches Err(ParseError::TokenizerError(..)),
        spec_tokenize(text@) == Some(Seq::<crate::token::SpecToken>::empty()) ==> r matches Err(
            ParseError::UnexpectedEOF,
        ),
{
    let toks = match tokenize(text) {
        Ok(t) => t,
        Err(e) => {
            return Err(e);
        },
    };
    Parser::new(toks).parse_expr()
}

/// Parses a whole type scheme; leftover tokens are an error.
pub fn parse_poly(text: &str) -> (r: ParseResult<Poly>)
    ensures
        spec_tokenize(text@) is None <==> r matches Err(ParseError::TokenizerError(..)),
        spec_tokenize(text@) == Some(Seq::<crate::token::SpecToken>::empty()) ==> r matches Err(
            ParseError::UnexpectedEOF,
        ),
{
    let toks = match tokenize(text) {
        Ok(t) => t,
        Err(e) => {
            return Err(e);
        },
    };
    Parser::new(toks).parse_poly()
}

/// The failure for a token the grammar does not allow here.
fn unexpected_token_error<T>(unexpected: &Token, expected: &str) -> (r: ParseResult<T>)
    ensures
        r matches Err(ParseError::UnexpectedToken { .. }),
{
    Err(
        ParseError::UnexpectedToken {
            expected: expected.to_owned(),
            unexpected: unexpected.clone(),
        },
    )
}

/// A cursor over the token list.
struct Parser {
    tokens: Vec<Token>,
    pos: usize,
}

impl Parser {
    /// The cursor never passes the end of the list.
    spec fn wf(&self) -> bool {
        self.pos <= self.tokens@.len()
    }

    /// A parser at the start of `tokens`.
    fn new(tokens: Vec<Token>) -> (p: Parser)
        ensures
            p.wf(),
            p.tokens == tokens,
            p.pos == 0,
    {
        Parser { tokens, pos: 0 }
    }

    /// Parses one expression and demands that nothing follow it.
    fn parse_expr(self) -> (r: ParseResult<Expr>)
        requires
            self.wf(),
        ensures
            !(r matches Err(ParseError::TokenizerError(..))),
            self.tokens@.len() == self.pos ==> r matches Err(ParseError::UnexpectedEOF),
    {
        let mut this = self;
        let result = match this.parse_expr_internal() {
            Ok(e) => e,
            Err(e) => {
                return Err(e);
            },
        };
        if this.pos == this.tokens.len() {
            Ok(result)
        } else {
            Err(ParseError::TrailingTokens)
        }
    }

    /// Parses one type scheme and demands that nothing follow it.
    fn parse_poly(self) -> (r: ParseResult<Poly>)
        requires
            self.wf(),
        ensures
            !(r matches Err(ParseError::TokenizerError(..))),
            self.tokens@.len() == self.pos ==> r matches Err(ParseError::UnexpectedEOF),
    {
        let mut this = self;
        let result = match this.parse_poly_internal() {
            Ok(sigma) => sigma,
            Err(e) => {
                return Err(e);
            },
        };
        if this.pos == this.tokens.len() {
            Ok(result)
        } else {
            Err(ParseError::TrailingTokens)
        }
    }

    /// Steps past the token the caller has just examined.
    fn advance(&mut self)
        requires
            old(self).pos < old(self).tokens@.len(),
        ensures
            final(self).tokens == old(self).tokens,
            final(self).pos == old(self).pos + 1,
    {
        let n = self.tokens.len();
        self.pos = self.pos + 1;
    }

    /// Demands a variable token and yields its name.
    fn expect_variable(&mut self, expected: &str) -> (r: ParseResult<String>)
        requires
            old(self).wf(),
        ensures
            final(self).wf(),
            final(self).tokens == old(self).tokens,
            final(self).pos >= old(self).pos,
            r is Ok ==> final(self).pos == old(self).pos + 1,
            !(r matches Err(ParseError::TokenizerError(..))),
    {
        if self.pos < self.tokens.len() {
            match &self.tokens[self.pos] {
                Token::Var(x) => {
                    let name = x.clone();
                    self.pos = self.pos + 1;
                    Ok(name)
                },
                t => unexpected_token_error(t, expected),
            }
        } else {
            Err(ParseError::UnexpectedEOF)
        }
    }

    /// Demands a constructor-name token and yields its name.
    fn expect_varcap(&mut self, expected: &str) -> (r: ParseResult<String>)
        requires
            old(self).wf(),
        ensures
            final(self).wf(),
            final(self).tokens == old(self).tokens,
            final(self).pos >= old(self).pos,
            r is Ok ==> final(self).pos == old(self).pos + 1,
            !(r matches Err(ParseError::TokenizerError(..))),
    {
        if self.pos < self.tokens.len() {
            match &self.tokens[self.pos] {
                Token::VarCap(x) => {
                    let name = x.clone();
                    self.pos = self.pos + 1;
                    Ok(name)
                },
                t => unexpected_token_error(t, expected),
            }
        } else {
            Err(ParseError::UnexpectedEOF)
        }
    }

    /// Demands a dot.
    fn expect_dot(&mut self, expected: &str) -> (r: ParseResult<()>)
        requires
            old(self).wf(),
        ensures
            final(self).wf(),
            final(self).tokens == old(self).tokens,
            final(self).pos >= old(self).pos,
            r is Ok ==> final(self).pos == old(self).pos + 1,
            !(r matches Err(ParseError::TokenizerError(..))),
    {
        if self.pos < self.tokens.len() {
            match &self.tokens[self.pos] {
                Token::Dot => {
                    self.pos = self.pos + 1;
                    Ok(())
                },
                t => unexpected_token_error(t, expected),
            }
        } else {
            Err(ParseError::UnexpectedEOF)
        }
    }

    /// Demands an equals sign.
    fn expect_equals(&mut self, expected: &str) -> (r: ParseResult<()>)
        requires
            old(self).wf(),
        ensures
            final(self).wf(),
            final(self).tokens == old(self).tokens,
            final(self).pos >= old(self).pos,
            r is Ok ==> final(self).pos == old(self).pos + 1,
            !(r matches Err(ParseError::TokenizerError(..))),
    {
        if self.pos < self.tokens.len() {
            match &self.tokens[self.pos] {
                Token::Equals => {
                    self.pos = self.pos + 1;
                    Ok(())
                },
                t => unexpected_token_error(t, expected),
            }
        } else {
            Err(ParseError::UnexpectedEOF)
        }
    }

    /// Demands the keyword separating a binding from its body.
    fn expect_in(&mut self, expected: &str) -> (r: ParseResult<()>)
        requires
            old(self).wf(),
        ensures
            final(self).wf(),
            final(self).tokens == old(self).tokens,
            final(self).pos >= old(self).pos,
            r is Ok ==> final(self).pos == old(self).pos + 1,
            !(r matches Err(ParseError::TokenizerError(..))),
    {
        if self.pos < self.tokens.len() {
            match &self.tokens[self.pos] {
                Token::In => {
                    self.pos = self.pos + 1;
                    Ok(())
                },
                t => unexpected_token_error(t, expected),
            }
        } else {
            Err(ParseError::UnexpectedEOF)
        }
    }

    /// Demands a closing parenthesis.
    fn expect_rparen(&mut self, expected: &str) -> (r: ParseResult<()>)
        requires
            old(self).wf(),
        ensures
            final(self).wf(),
            final(self).tokens == old(self).tokens,
            final(self).pos >= old(self).pos,
            r is Ok ==> final(self).pos == old(self).pos + 1,
            !(r matches Err(ParseError::TokenizerError(..))),
    {
        if self.pos < self.tokens.len() {
            match &self.tokens[self.pos] {
                Token::RParen => {
                    self.pos = self.pos + 1;
                    Ok(())
                },
                t => unexpected_token_error(t, expected),
            }
        } else {
            Err(ParseError::UnexpectedEOF)
        }
    }

    /// Parses an expression: an abstraction, a binding, or an
    /// application.
    fn parse_expr_internal(&mut self) -> (r: ParseResult<Expr>)
        requires
            old(self).wf(),
        ensures
            final(self).wf(),
            final(self).tokens == old(self).tokens,
            final(self).pos >= old(self).pos,
            r is Ok ==> final(self).pos > old(self).pos,
            old(self).pos == old(self).tokens@.len() ==> r matches Err(ParseError::UnexpectedEOF),
            !(r matches Err(ParseError::TokenizerError(..))),
        decreases old(self).tokens@.len() - old(self).pos, 2int,
    {
        if self.pos >= self.tokens.len() {
            return Err(ParseError::UnexpectedEOF);
        }
        match &self.tokens[self.pos] {
            Token::Lambda => {
                self.advance();
                let x = match self.expect_variable("a variable") {
                    Ok(x) => x,
                    Err(e) => {
                        return Err(e);
                    },
                };
                match self.expect_dot("'.'") {
                    Ok(()) => (),
                    Err(e) => {
                        return Err(e);
                    },
                }
                let e = match self.parse_expr_internal() {
                    Ok(e) => e,
                    Err(e) => {
                        return Err(e);
                    },
                };
                Ok(Expr::abs(x.as_str(), e))
            },
            Token::Let => {
                self.advance();
                let x = match self.expect_variable("a variable") {
                    Ok(x) => x,
                    Err(e) => {
                        return Err(e);
                    },
                };
                match self.expect_equals("'='") {
                    Ok(()) => (),
                    Err(e) => {
                        return Err(e);
                    },
                }
                let e1 = match self.parse_expr_internal() {
                    Ok(e) => e,
                    Err(e) => {
                        return Err(e);
                    },
                };
                match self.expect_in("'in'") {
                    Ok(()) => (),
                    Err(e) => {
                        return Err(e);
                    },
                }
                let e2 = match self.parse_expr_internal() {
                    Ok(e) => e,
                    Err(e) => {
                        return Err(e);
                    },
                };
                Ok(Expr::let_in(x.as_str(), e1, e2))
            },
            Token::LParen | Token::Var(..) => self.parse_app(),
            t => unexpected_token_error(t, "'lambda', '\u{3BB}', 'let', '(', or a variable"),
        }
    }

    /// Parses a left-associated chain of applications.
    fn parse_app(&mut self) -> (r: ParseResult<Expr>)
        requires
            old(self).wf(),
        ensures
            final(self).wf(),
            final(self).tokens == old(self).tokens,
            final(self).pos >= old(self).pos,
            r is Ok ==> final(self).pos > old(self).pos,
            !(r matches Err(ParseError::TokenizerError(..))),
        decreases old(self).tokens@.len() - old(self).pos, 1int,
    {
        let mut e = match self.parse_atomic_expr() {
            Ok(e) => e,
            Err(e) => {
                return Err(e);
            },
        };
        loop
            invariant
                self.wf(),
                self.tokens == old(self).tokens,
                self.pos > old(self).pos,
            decreases self.tokens@.len() - self.pos,
        {
            if self.pos >= self.tokens.len() {
                break;
            }
            match &self.tokens[self.pos] {
                Token::Var(..) | Token::LParen => {
                    let arg = match self.parse_atomic_expr() {
                        Ok(a) => a,
                        Err(er) => {
                            return Err(er);
                        },
                    };
                    e = Expr::app(e, arg);
                },
                _ => {
                    break;
                },
            }
        }
        Ok(e)
    }

    /// Parses a variable or a parenthesized expression.
    fn parse_atomic_expr(&mut self) -> (r: ParseResult<Expr>)
        requires
            old(self).wf(),
        ensures
            final(self).wf(),
            final(self).tokens == old(self).tokens,
            final(self).pos >= old(self).pos,
            r is Ok ==> final(self).pos > old(self).pos,
            !(r matches Err(ParseError::TokenizerError(..))),
        decreases old(self).tokens@.len() - old(self).pos, 0int,
    {
        if self.pos >= self.tokens.len() {
            return Err(ParseError::UnexpectedEOF);
        }
        match &self.tokens[self.pos] {
            Token::LParen => {
                self.advance();
                let e = match self.parse_expr_internal() {
                    Ok(e) => e,
                    Err(er) => {
                        return Err(er);
                    },
                };
                match self.expect_rparen("')'") {
                    Ok(()) => Ok(e),
                    Err(er) => Err(er),
                }
            },
            Token::Var(x) => {
                let e = Expr::var(x.as_str());
                self.advance();
                Ok(e)
            },
            t => unexpected_token_error(t, "'(', or a variable"),
        }
    }

    /// Parses a type scheme: an optional quantifier prefix and a
    /// monotype.
    fn parse_poly_internal(&mut self) -> (r: ParseResult<Poly>)
        requires
            old(self).wf(),
        ensures
            final(self).wf(),
            final(self).tokens == old(self).tokens,
            final(self).pos >= old(self).pos,
            r is Ok ==> final(self).pos > old(self).pos,
            old(self).pos == old(self).tokens@.len() ==> r matches Err(ParseError::UnexpectedEOF),
            !(r matches Err(ParseError::TokenizerError(..))),
    {
        if self.pos >= self.tokens.len() {
            return Err(ParseError::UnexpectedEOF);
        }
        match &self.tokens[self.pos] {
            Token::ForAll => {
                self.advance();
                let first = match self.expect_variable("a type variable") {
                    Ok(x) => x,
                    Err(e) => {
                        return Err(e);
                    },
                };
                let mut vars: Vec<String> = Vec::new();
                vars.push(first);
                loop
                    invariant
                        self.wf(),
                        self.tokens == old(self).tokens,
                        self.pos > old(self).pos,
                    decreases self.tokens@.len() - self.pos,
                {
                    if self.pos >= self.tokens.len() {
                        break;
                    }
                    match &self.tokens[self.pos] {
                        Token::Var(..) => {
                            let alpha = match self.expect_variable("a type variable") {
                                Ok(x) => x,
                                Err(e) => {
                                    return Err(e);
                                },
                            };
                            if !contains_name(&vars, &alpha) {
                                vars.push(alpha);
                            }
                        },
                        _ => {
                            break;
                        },
                    }
                }
                match self.expect_dot("a variable, or '.'") {
                    Ok(()) => (),
                    Err(e) => {
                        return Err(e);
                    },
                }
                let tau = match self.parse_mono() {
                    Ok(t) => t,
                    Err(e) => {
                        return Err(e);
                    },
                };
                Ok(Poly(vars, tau))
            },
            Token::Var(..) | Token::VarCap(..) => {
                let tau = match self.parse_mono() {
                    Ok(t) => t,
                    Err(e) => {
                        return Err(e);
                    },
                };
                Ok(Poly::mono(tau))
            },
            t => unexpected_token_error(t, "'(', or a type variable or type function"),
        }
    }

    /// Parses a monotype: one or more arrow operands, right associated.
    fn parse_mono(&mut self) -> (r: ParseResult<Mono>)
        requires
            old(self).wf(),
        ensures
            final(self).wf(),
            final(self).tokens == old(self).tokens,
            final(self).pos >= old(self).pos,
            r is Ok ==> final(self).pos > old(self).pos,
            !(r matches Err(ParseError::TokenizerError(..))),
        decreases old(self).tokens@.len() - old(self).pos, 2int,
    {
        let tau1 = match self.parse_mono_arrow_arg() {
            Ok(t) => t,
            Err(e) => {
                return Err(e);
            },
        };
        if self.pos < self.tokens.len() {
            match &self.tokens[self.pos] {
                Token::Arrow => {
                    self.advance();
                    let tau2 = match self.parse_mono() {
                        Ok(t) => t,
                        Err(e) => {
                            return Err(e);
                        },
                    };
                    Ok(Mono::arrow(tau1, tau2))
                },
                _ => Ok(tau1),
            }
        } else {
            Ok(tau1)
        }
    }

    /// Parses an arrow operand: a constructor application, a variable,
    /// or a parenthesized monotype.
    fn parse_mono_arrow_arg(&mut self) -> (r: ParseResult<Mono>)
        requires
            old(self).wf(),
        ensures
            final(self).wf(),
            final(self).tokens == old(self).tokens,
            final(self).pos >= old(self).pos,
            r is Ok ==> final(self).pos > old(self).pos,
            !(r matches Err(ParseError::TokenizerError(..))),
        decreases old(self).tokens@.len() - old(self).pos, 1int,
    {
        if self.pos >= self.tokens.len() {
            return Err(ParseError::UnexpectedEOF);
        }
        match &self.tokens[self.pos] {
            Token::VarCap(..) => {
                let c = match self.expect_varcap("a type function") {
                    Ok(x) => x,
                    Err(e) => {
                        return Err(e);
                    },
                };
                let mut taus: Vec<Mono> = Vec::new();
                loop
                    invariant
                        self.wf(),
                        self.tokens == old(self).tokens,
                        self.pos > old(self).pos,
                    decreases self.tokens@.len() - self.pos,
                {
                    if self.pos >= self.tokens.len() {
                        break;
                    }
                    match &self.tokens[self.pos] {
                        Token::Var(..) | Token::VarCap(..) | Token::LParen => {
                            let arg = match self.parse_atomic_mono() {
                                Ok(t) => t,
                                Err(e) => {
                                    return Err(e);
                                },
                            };
                            taus.push(arg);
                        },
                        _ => {
                            break;
                        },
                    }
                }
                Ok(Mono::App(c, taus))
            },
            Token::Var(..) | Token::LParen => self.parse_atomic_mono(),
            t => unexpected_token_error(t, "'(', or a type variable or type function"),
        }
    }

    /// Parses a bare variable, a bare constructor, or a parenthesized
    /// monotype.
    fn parse_atomic_mono(&mut self) -> (r: ParseResult<Mono>)
        requires
            old(self).wf(),
        ensures
            final(self).wf(),
            final(self).tokens == old(self).tokens,
            final(self).pos >= old(self).pos,
            r is Ok ==> final(self).pos > old(self).pos,
            !(r matches Err(ParseError::TokenizerError(..))),
        decreases old(self).tokens@.len() - old(self).pos, 0int,
    {
        if self.pos >= self.tokens.len() {
            return Err(ParseError::UnexpectedEOF);
        }
        match &self.tokens[self.pos] {
            Token::LParen => {
                self.advance();
                let tau = match self.parse_mono() {
                    Ok(t) => t,
                    Err(e) => {
                        return Err(e);
                    },
                };
                match self.expect_rparen("')'") {
                    Ok(()) => Ok(tau),
                    Err(e) => Err(e),
                }
            },
            Token::Var(..) => {
                let alpha = match self.expect_variable("a type variable") {
                    Ok(x) => x,
                    Err(e) => {
                        return Err(e);
                    },
                };
                Ok(Mono::Var(alpha))
            },
            Token::VarCap(..) => {
                let c = match self.expect_varcap("a type function") {
                    Ok(x) => x,
                    Err(e) => {
                        return Err(e);
                    },
                };
                Ok(Mono::nullary(c))
            },
            t => unexpected_token_error(t, "'(', or a type variable or type function"),
        }
    }
}

} // verus!
