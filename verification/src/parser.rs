//! The parser's token cursor and the grammar of types and parameter lists.
//!
//! The token sequence always ends with an end-of-input token; the cursor never moves past
//! it, and reading at or past the end gives that last token.

use vstd::prelude::*;
use vstd::string::StrSliceExecFns;
use crate::ast::{Param, Span, Type};
use crate::lexer::{Token, TokenKind};
use crate::text::str_eq;

verus! {

/// Why a token sequence does not parse.
#[derive(Debug, Clone, Copy, PartialEq, Eq, Structural)]
pub enum SyntaxError {
    /// A token of kind `expected` was needed; a `found` token stood at `span`.
    Expected { expected: TokenKind, found: TokenKind, span: Span },
    /// A type was needed; a `found` token stood at `span`.
    ExpectedType { found: TokenKind, span: Span },
}

/// Tokens as the lexer gives them: at least one, the last one the end of input, and
/// every variable written with its leading `$`.
pub open spec fn toks_ok(t: Seq<Token>) -> bool {
    &&& t.len() >= 1
    &&& t.last().kind == TokenKind::Eof
    &&& forall|i: int|
        0 <= i < t.len() && (#[trigger] t[i]).kind == TokenKind::Variable ==> t[i].lexeme@.len() >= 1
            && t[i].lexeme@[0] == '$'
}

/// The token read at position `p`: the last one at or past the end.
pub open spec fn tok_at(t: Seq<Token>, p: int) -> Token {
    if 0 <= p < t.len() { t[p] } else { t.last() }
}

/// The kind of the token read at `p`.
pub open spec fn kind_at(t: Seq<Token>, p: int) -> TokenKind {
    tok_at(t, p).kind
}

/// The span of the token read at `p`.
pub open spec fn span_at(t: Seq<Token>, p: int) -> Span {
    Span { start: tok_at(t, p).span.0, end: tok_at(t, p).span.1 }
}

/// The position after consuming one token at `p` (the last token is never passed).
pub open spec fn next_pos(t: Seq<Token>, p: int) -> int {
    if p < t.len() - 1 { p + 1 } else { p }
}

/// The position after consuming a token of kind `k` at `p`, if there is one.
pub open spec fn skip_kind(t: Seq<Token>, p: int, k: TokenKind) -> int {
    if kind_at(t, p) == k { next_pos(t, p) } else { p }
}

/// The error for a missing token of kind `k` at `p`.
pub open spec fn expected_at(t: Seq<Token>, p: int, k: TokenKind) -> SyntaxError {
    SyntaxError::Expected { expected: k, found: kind_at(t, p), span: span_at(t, p) }
}

/// The type named by a type keyword.
pub open spec fn keyword_type(k: TokenKind) -> Option<Type> {
    match k {
        TokenKind::TypeInt => Some(Type::Int),
        TokenKind::TypeFloat => Some(Type::Float),
        TokenKind::TypeBool => Some(Type::Bool),
        TokenKind::TypeString => Some(Type::String),
        TokenKind::TypeVoid => Some(Type::Void),
        TokenKind::SelfKw => Some(Type::SelfType),
        TokenKind::Static => Some(Type::StaticType),
        _ => None,
    }
}

/// The type written at `p` and the position after it: `&` for a reference, then `?` for
/// a nullable type, then a type keyword, `array<T>`, or a class name.
pub open spec fn type_at(t: Seq<Token>, p: int) -> Result<(Type, int), SyntaxError>
    decreases t.len() - p,
{
    let is_ref = kind_at(t, p) == TokenKind::Ampersand;
    let p1 = skip_kind(t, p, TokenKind::Ampersand);
    let nullable = kind_at(t, p1) == TokenKind::Not;
    let p2 = skip_kind(t, p1, TokenKind::Not);
    let k = kind_at(t, p2);
    let base: Result<(Type, int), SyntaxError> = if keyword_type(k) is Some {
        Ok((keyword_type(k)->0, next_pos(t, p2)))
    } else if k == TokenKind::Identifier {
        let name = tok_at(t, p2).lexeme;
        let p3 = next_pos(t, p2);
        if name@ == "array"@ && kind_at(t, p3) == TokenKind::Lt {
            let p4 = next_pos(t, p3);
            if p < p4 <= t.len() {
                match type_at(t, p4) {
                    Ok((inner, p5)) => if kind_at(t, p5) == TokenKind::Gt {
                        Ok((Type::Array(Box::new(inner)), next_pos(t, p5)))
                    } else {
                        Err(expected_at(t, p5, TokenKind::Gt))
                    },
                    Err(e) => Err(e),
                }
            } else {
                Err(SyntaxError::ExpectedType { found: k, span: span_at(t, p2) })
            }
        } else {
            Ok((Type::Class(name), p3))
        }
    } else {
        Err(SyntaxError::ExpectedType { found: k, span: span_at(t, p2) })
    };
    match base {
        Ok((b, q)) => {
            let typed = if nullable { Type::Nullable(Box::new(b)) } else { b };
            Ok((if is_ref { Type::Ref(Box::new(typed)) } else { typed }, q))
        },
        Err(e) => Err(e),
    }
}

/// A parameter as its name, type, whether it is taken by reference, and span.
pub type ParamView = (Seq<char>, Type, bool, Span);

/// The view of a parameter.
pub open spec fn param_view(prm: Param) -> ParamView {
    (prm.name@, prm.ty, prm.is_ref, prm.span)
}

/// The parameter written at `p` and the position after it: an optional `&`, a variable,
/// then `: T` for its type (unknown without it). Its span runs from the first token to
/// the token after it.
pub open spec fn param_at(t: Seq<Token>, p: int) -> Result<(ParamView, int), SyntaxError> {
    let start = span_at(t, p);
    let is_ref = kind_at(t, p) == TokenKind::Ampersand;
    let p1 = skip_kind(t, p, TokenKind::Ampersand);
    if kind_at(t, p1) != TokenKind::Variable {
        Err(expected_at(t, p1, TokenKind::Variable))
    } else {
        let text = tok_at(t, p1).lexeme@;
        let name = text.subrange(1, text.len() as int);
        let p2 = next_pos(t, p1);
        let typed = if kind_at(t, p2) == TokenKind::Colon {
            type_at(t, next_pos(t, p2))
        } else {
            Ok((Type::Unknown, p2))
        };
        match typed {
            Ok((ty, q)) => Ok(((name, ty, is_ref, Span { start: start.start, end: span_at(t, q).end }), q)),
            Err(e) => Err(e),
        }
    }
}

/// One or more parameters separated by commas, starting at `p`.
pub open spec fn params_from(t: Seq<Token>, p: int) -> Result<(Seq<ParamView>, int), SyntaxError>
    decreases t.len() - p,
{
    match param_at(t, p) {
        Ok((prm, q)) => if kind_at(t, q) == TokenKind::Comma {
            let q1 = next_pos(t, q);
            if p < q1 <= t.len() {
                match params_from(t, q1) {
                    Ok((rest, r)) => Ok((seq![prm] + rest, r)),
                    Err(e) => Err(e),
                }
            } else {
                Err(expected_at(t, q, TokenKind::Comma))
            }
        } else {
            Ok((seq![prm], q))
        },
        Err(e) => Err(e),
    }
}

/// The parameter list at `p` (the part between the parentheses): empty when `)` follows.
pub open spec fn params_at(t: Seq<Token>, p: int) -> Result<(Seq<ParamView>, int), SyntaxError> {
    if kind_at(t, p) == TokenKind::RParen {
        Ok((Seq::empty(), p))
    } else {
        params_from(t, p)
    }
}

/// A cursor over the tokens of one source file.
pub struct Parser {
    tokens: Vec<Token>,
    pos: usize,
}

impl Parser {
    /// The tokens.
    pub closed spec fn toks(&self) -> Seq<Token> {
        self.tokens@
    }

    /// The cursor position.
    pub closed spec fn at(&self) -> int {
        self.pos as int
    }

    /// The tokens are as the lexer gives them and the cursor is on one of them.
    pub open spec fn wf(&self) -> bool {
        toks_ok(self.toks()) && 0 <= self.at() < self.toks().len()
    }

    /// A parser at the first token.
    pub fn new(tokens: Vec<Token>) -> (r: Self)
        requires
            toks_ok(tokens@),
        ensures
            r.wf(),
            r.toks() == tokens@,
            r.at() == 0,
    {
        Parser { tokens, pos: 0 }
    }

    /// The token under the cursor.
    pub fn current(&self) -> (r: &Token)
        requires
            self.wf(),
        ensures
            *r == tok_at(self.toks(), self.at()),
    {
        if self.pos < self.tokens.len() {
            &self.tokens[self.pos]
        } else {
            &self.tokens[self.tokens.len() - 1]
        }
    }

    /// The kind of the token under the cursor.
    pub fn peek(&self) -> (r: TokenKind)
        requires
            self.wf(),
        ensures
            r == kind_at(self.toks(), self.at()),
    {
        self.current().kind
    }

    /// The kind of the token `n` places ahead, the end of input past the last token.
    pub fn peek_ahead(&self, n: usize) -> (r: TokenKind)
        requires
            self.wf(),
            self.at() + n <= usize::MAX,
        ensures
            r == (if self.at() + n < self.toks().len() {
                self.toks()[self.at() + n].kind
            } else {
                TokenKind::Eof
            }),
    {
        let i = self.pos + n;
        if i < self.tokens.len() {
            self.tokens[i].kind
        } else {
            TokenKind::Eof
        }
    }

    /// Consumes the token under the cursor and returns its position; the cursor stays
    /// on the last token.
    pub fn advance(&mut self) -> (r: usize)
        requires
            old(self).wf(),
        ensures
            final(self).wf(),
            final(self).toks() == old(self).toks(),
            final(self).at() == next_pos(old(self).toks(), old(self).at()),
            r == old(self).at(),
    {
        let at = self.pos;
        if self.pos < self.tokens.len() - 1 {
            self.pos = self.pos + 1;
        }
        at
    }

    /// Whether the token under the cursor is of kind `kind`.
    pub fn check(&self, kind: TokenKind) -> (r: bool)
        requires
            self.wf(),
        ensures
            r == (kind_at(self.toks(), self.at()) == kind),
    {
        self.peek() == kind
    }

    /// Consumes a token of kind `kind` if it is under the cursor.
    pub fn match_token(&mut self, kind: TokenKind) -> (r: bool)
        requires
            old(self).wf(),
        ensures
            final(self).wf(),
            final(self).toks() == old(self).toks(),
            r == (kind_at(old(self).toks(), old(self).at()) == kind),
            final(self).at() == skip_kind(old(self).toks(), old(self).at(), kind),
    {
        if self.check(kind) {
            self.advance();
            true
        } else {
            false
        }
    }

    /// The span of the token under the cursor.
    pub fn span(&self) -> (r: Span)
        requires
            self.wf(),
        ensures
            r == span_at(self.toks(), self.at()),
    {
        let t = self.current();
        Span::new(t.span.0, t.span.1)
    }

    /// Consumes a token of kind `kind` and returns its position, or fails when another
    /// kind of token is under the cursor.
    pub fn expect(&mut self, kind: TokenKind) -> (r: Result<usize, SyntaxError>)
        requires
            old(self).wf(),
        ensures
            final(self).wf(),
            final(self).toks() == old(self).toks(),
            kind_at(old(self).toks(), old(self).at()) == kind ==> r == Ok::<usize, SyntaxError>(
                old(self).at() as usize,
            ) && final(self).at() == next_pos(old(self).toks(), old(self).at()),
            kind_at(old(self).toks(), old(self).at()) != kind ==> r == Err::<usize, SyntaxError>(
                expected_at(old(self).toks(), old(self).at(), kind),
            ) && final(self).at() == old(self).at(),
    {
        if self.peek() == kind {
            Ok(self.advance())
        } else {
            Err(SyntaxError::Expected { expected: kind, found: self.peek(), span: self.span() })
        }
    }

    /// Parses a type (see `type_at`).
    pub fn parse_type(&mut self) -> (r: Result<Type, SyntaxError>)
        requires
            old(self).wf(),
        ensures
            final(self).wf(),
            final(self).toks() == old(self).toks(),
            final(self).at() >= old(self).at(),
            match type_at(old(self).toks(), old(self).at()) {
                Ok((ty, q)) => r == Ok::<Type, SyntaxError>(ty) && final(self).at() == q,
                Err(e) => r == Err::<Type, SyntaxError>(e),
            },
        decreases old(self).toks().len() - old(self).at(),
    {
        let ghost t = self.toks();
        let ghost p = self.at();
        let is_ref = self.match_token(TokenKind::Ampersand);
        let is_nullable = self.match_token(TokenKind::Not);
        let ghost p2 = self.at();
        let base_type = match self.peek() {
            TokenKind::TypeInt => {
                self.advance();
                Type::Int
            },
            TokenKind::TypeFloat => {
                self.advance();
                Type::Float
            },
            TokenKind::TypeBool => {
                self.advance();
                Type::Bool
            },
            TokenKind::TypeString => {
                self.advance();
                Type::String
            },
            TokenKind::TypeVoid => {
                self.advance();
                Type::Void
            },
            TokenKind::SelfKw => {
                self.advance();
                Type::SelfType
            },
            TokenKind::Static => {
                self.advance();
                Type::StaticType
            },
            TokenKind::Identifier => {
                let i = self.advance();
                let name = self.tokens[i].lexeme.clone();
                if str_eq(name.as_str(), "array") && self.check(TokenKind::Lt) {
                    self.advance();
                    proof {
                        assert(p2 < t.len() - 1);
                        assert(self.at() > p);
                    }
                    let inner = match self.parse_type() {
                        Ok(inner) => inner,
                        Err(e) => {
                            return Err(e);
                        },
                    };
                    match self.expect(TokenKind::Gt) {
                        Ok(_) => {},
                        Err(e) => {
                            return Err(e);
                        },
                    }
                    Type::Array(Box::new(inner))
                } else {
                    Type::Class(name)
                }
            },
            _ => {
                return Err(SyntaxError::ExpectedType { found: self.peek(), span: self.span() });
            },
        };
        let typed = if is_nullable {
            Type::Nullable(Box::new(base_type))
        } else {
            base_type
        };
        if is_ref {
            Ok(Type::Ref(Box::new(typed)))
        } else {
            Ok(typed)
        }
    }

    /// Parses one parameter (see `param_at`).
    pub fn parse_param(&mut self) -> (r: Result<Param, SyntaxError>)
        requires
            old(self).wf(),
        ensures
            final(self).wf(),
            final(self).toks() == old(self).toks(),
            final(self).at() >= old(self).at(),
            match param_at(old(self).toks(), old(self).at()) {
                Ok((v, q)) => r matches Ok(prm) && param_view(prm) == v && final(self).at() == q,
                Err(e) => r == Err::<Param, SyntaxError>(e),
            },
    {
        let ghost t = self.toks();
        let start = self.span();
        let is_ref = self.match_token(TokenKind::Ampersand);
        let i = match self.expect(TokenKind::Variable) {
            Ok(i) => i,
            Err(e) => {
                return Err(e);
            },
        };
        let text = self.tokens[i].lexeme.as_str();
        proof {
            assert(t[i as int].kind == TokenKind::Variable);
        }
        let n = text.unicode_len();
        let name = text.substring_char(1, n).to_string();
        let ty = if self.match_token(TokenKind::Colon) {
            match self.parse_type() {
                Ok(ty) => ty,
                Err(e) => {
                    return Err(e);
                },
            }
        } else {
            Type::Unknown
        };
        let end = self.span();
        Ok(Param { name, ty, is_ref, span: start.merge(end) })
    }

    /// Parses a parameter list (see `params_at`).
    pub fn parse_params(&mut self) -> (r: Result<Vec<Param>, SyntaxError>)
        requires
            old(self).wf(),
        ensures
            final(self).wf(),
            final(self).toks() == old(self).toks(),
            match params_at(old(self).toks(), old(self).at()) {
                Ok((vs, q)) => r matches Ok(ps) && ps@.map_values(|prm: Param| param_view(prm)) == vs
                    && final(self).at() == q,
                Err(e) => r == Err::<Vec<Param>, SyntaxError>(e),
            },
    {
        let ghost t = self.toks();
        let ghost p0 = self.at();
        let mut params: Vec<Param> = Vec::new();
        if self.check(TokenKind::RParen) {
            proof {
                assert(params@.map_values(|prm: Param| param_view(prm)) =~= Seq::<ParamView>::empty());
            }
            return Ok(params);
        }
        loop
            invariant
                self.wf(),
                self.toks() == t,
                t == old(self).toks(),
                p0 == old(self).at(),
                kind_at(t, p0) != TokenKind::RParen,
                params_from(t, p0) == (match params_from(t, self.at()) {
                    Ok((rest, q)) => Ok((params@.map_values(|prm: Param| param_view(prm)) + rest, q)),
                    Err(e) => Err(e),
                }),
            decreases t.len() - self.at(),
        {
            let ghost p = self.at();
            let ghost before = params@.map_values(|prm: Param| param_view(prm));
            let prm = match self.parse_param() {
                Ok(prm) => prm,
                Err(e) => {
                    return Err(e);
                },
            };
            params.push(prm);
            let ghost q = self.at();
            proof {
                assert(params@.map_values(|prm: Param| param_view(prm)) =~= before.push(param_view(prm)));
            }
            if !self.match_token(TokenKind::Comma) {
                proof {
                    assert(before + seq![param_view(prm)] =~= before.push(param_view(prm)));
                }
                return Ok(params);
            }
            proof {
                assert(q < t.len() - 1);
                assert(self.at() > p);
                let now = params@.map_values(|prm: Param| param_view(prm));
                match params_from(t, self.at()) {
                    Ok((rest, r)) => {
                        assert(before + (seq![param_view(prm)] + rest) =~= now + rest);
                    },
                    Err(e) => {},
                }
            }
        }
    }
}

} // verus!
