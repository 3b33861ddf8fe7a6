//! Recursive-descent parser from the token stream to the expression tree.
//!
//! The grammar, loosest binding first: `expr` is a chain of `term`s joined
//! by `+`/`-` (left-associative); `term` a chain of `pow`s joined by
//! `*`/`/`; `pow` a chain of `factor`s joined by `**` (right-associative);
//! a factor is an operand, a parenthesized `expr`, or a unary `-`/`!`
//! applied to an operand. An operand is a number (a `-` directly attached
//! to a number is part of the literal), an identifier, a call (identifier
//! directly followed by `(`), or a `&name` reference.
//!
//! For `a ** b` the tree holds the exponent first: `BinOp(b', a', Power)`,
//! and `Operation::eval` raises its second operand to its first.
//!
//! Every production is specified by a spec function over the spec-level
//! token stream; the executable parser returns exactly what they describe.
//! Each spec production carries a recursion budget, spent one unit per
//! consumed token and reported as `MissingArgument` if it runs out; the
//! grammar here is, exactly, these productions with a starting budget of
//! one unit per token. (That the budget never runs out before the tokens
//! do is not proved; the budget is part of the stated grammar.)
use crate::ast::ExprV;
use crate::ast::Expression;
use crate::ast::Literal;
use crate::ast::LiteralV;
use crate::ast::Operation;
use crate::ast::expr_view;
use crate::ast::exprs_view;
use crate::ast::lemma_exprs_view;
use crate::lex::Arithm;
use crate::lex::Lexer;
use crate::lex::ParseError;
use crate::lex::Token;
use crate::lex::TokenV;
use crate::lex::spec_lex;
use crate::lex::token_view;
use crate::lex::tokens_view;
use crate::num::spec_neg_bits;
use crate::num::neg_bits;
use vstd::prelude::*;
use vstd::string::StrSliceExecFns;

verus! {

/// The position after the last token, for reports of a missing operand.
pub open spec fn eof_pos(t: Seq<(TokenV, int)>) -> int {
    if t.len() == 0 {
        0
    } else {
        t[t.len() - 1].1
    }
}

/// An operand: a number (possibly negated by a directly attached minus), an
/// identifier, a call, or a reference.
pub open spec fn sp_operand(t: Seq<(TokenV, int)>, k: int, fuel: nat) -> Result<
    (ExprV, int),
    ParseError,
>
    decreases fuel, 0int,
{
    if k >= t.len() {
        Err(ParseError::MissingArgument(eof_pos(t) as usize))
    } else {
        match t[k].0 {
            TokenV::Number(b) => Ok((ExprV::Const(LiteralV::Number(b)), k + 1)),
            TokenV::Ref(name) => Ok((ExprV::Const(LiteralV::Ref(name)), k + 1)),
            TokenV::Ident(name) => if k + 1 < t.len() && t[k + 1].0 is LParen && t[k + 1].1 == t[k].1
                + name.len() {
                if k + 2 < t.len() && t[k + 2].0 is RParen {
                    Ok((ExprV::Function { name, args: Seq::empty() }, k + 3))
                } else if fuel == 0 {
                    Err(ParseError::MissingArgument(t[k].1 as usize))
                } else {
                    match sp_args(t, k + 2, (fuel - 1) as nat) {
                        Ok((args, k2)) => Ok((ExprV::Function { name, args }, k2)),
                        Err(e) => Err(e),
                    }
                }
            } else {
                Ok((ExprV::Const(LiteralV::Ident(name)), k + 1))
            },
            TokenV::Op(Arithm::Minus) => if k + 1 < t.len() && t[k + 1].0 is Number && t[k + 1].1
                == t[k].1 + 1 {
                Ok((ExprV::Const(LiteralV::Number(spec_neg_bits(t[k + 1].0->Number_0))), k + 2))
            } else {
                Err(ParseError::UnexpectedToken(t[k].1 as usize))
            },
            _ => Err(ParseError::UnexpectedToken(t[k].1 as usize)),
        }
    }
}

/// The arguments of a call, from just after the opening parenthesis up to
/// and including the closing one.
pub open spec fn sp_args(t: Seq<(TokenV, int)>, k: int, fuel: nat) -> Result<
    (Seq<ExprV>, int),
    ParseError,
>
    decreases fuel, 7int,
{
    match sp_expr(t, k, fuel) {
        Ok((e, k2)) => if k2 < t.len() && t[k2].0 is RParen {
            Ok((seq![e], k2 + 1))
        } else if k2 < t.len() && t[k2].0 is Comma {
            if fuel == 0 {
                Err(ParseError::MissingArgument(t[k2].1 as usize))
            } else {
                match sp_args(t, k2 + 1, (fuel - 1) as nat) {
                    Ok((rest, k3)) => Ok((seq![e] + rest, k3)),
                    Err(e2) => Err(e2),
                }
            }
        } else {
            Err(ParseError::MissingRParen(eof_pos(t) as usize))
        },
        Err(e) => Err(e),
    }
}

/// A factor: an operand, a parenthesized expression, or a unary operator
/// applied to an operand.
pub open spec fn sp_factor(t: Seq<(TokenV, int)>, k: int, fuel: nat) -> Result<
    (ExprV, int),
    ParseError,
>
    decreases fuel, 1int,
{
    if k >= t.len() {
        Err(ParseError::MissingArgument(eof_pos(t) as usize))
    } else if t[k].0 is LParen {
        if fuel == 0 {
            Err(ParseError::MissingArgument(t[k].1 as usize))
        } else {
            match sp_expr(t, k + 1, (fuel - 1) as nat) {
                Ok((e, k2)) => if k2 < t.len() && t[k2].0 is RParen {
                    Ok((e, k2 + 1))
                } else {
                    Err(ParseError::MissingRParen(t[k].1 as usize))
                },
                Err(e) => Err(e),
            }
        }
    } else if t[k].0 == TokenV::Op(Arithm::Minus) && !(k + 1 < t.len() && t[k + 1].0 is Number && t[
        k + 1
    ].1 == t[k].1 + 1) {
        match sp_operand(t, k + 1, fuel) {
            Ok((e, k2)) => Ok((ExprV::UnOp(Operation::Minus, Box::new(e)), k2)),
            Err(e2) => Err(e2),
        }
    } else if t[k].0 == TokenV::Op(Arithm::Fact) {
        match sp_operand(t, k + 1, fuel) {
            Ok((e, k2)) => Ok((ExprV::UnOp(Operation::Factorial, Box::new(e)), k2)),
            Err(e2) => Err(e2),
        }
    } else {
        sp_operand(t, k, fuel)
    }
}

/// A power chain `factor ( '**' factor )*`, right-associative; the tree of
/// `a ** rest` is `BinOp(rest', a', Power)` with the exponent first.
pub open spec fn sp_pow(t: Seq<(TokenV, int)>, k: int, fuel: nat) -> Result<
    (ExprV, int),
    ParseError,
>
    decreases fuel, 2int,
{
    match sp_factor(t, k, fuel) {
        Ok((base, k1)) => if k1 < t.len() && t[k1].0 == TokenV::Op(Arithm::Pow) {
            if fuel == 0 {
                Err(ParseError::MissingArgument(t[k1].1 as usize))
            } else {
                match sp_pow(t, k1 + 1, (fuel - 1) as nat) {
                    Ok((rhs, k2)) => Ok(
                        (ExprV::BinOp(Box::new(rhs), Box::new(base), Operation::Power), k2),
                    ),
                    Err(e) => Err(e),
                }
            }
        } else {
            Ok((base, k1))
        },
        Err(e) => Err(e),
    }
}

/// What follows a parsed `pow` at the `term` level: a left-associative
/// chain of `*` and `/`.
pub open spec fn sp_mul_rest(t: Seq<(TokenV, int)>, k: int, acc: ExprV, fuel: nat) -> Result<
    (ExprV, int),
    ParseError,
>
    decreases fuel, 3int,
{
    if k < t.len() && (t[k].0 == TokenV::Op(Arithm::Times) || t[k].0 == TokenV::Op(Arithm::Div)) {
        let op = if t[k].0 == TokenV::Op(Arithm::Times) {
            Operation::Times
        } else {
            Operation::Divide
        };
        if fuel == 0 {
            Err(ParseError::MissingArgument(t[k].1 as usize))
        } else {
            match sp_pow(t, k + 1, (fuel - 1) as nat) {
                Ok((rhs, k2)) => sp_mul_rest(
                    t,
                    k2,
                    ExprV::BinOp(Box::new(acc), Box::new(rhs), op),
                    (fuel - 1) as nat,
                ),
                Err(e) => Err(e),
            }
        }
    } else {
        Ok((acc, k))
    }
}

/// A term: a left-associative chain of `pow`s joined by `*` and `/`.
pub open spec fn sp_term(t: Seq<(TokenV, int)>, k: int, fuel: nat) -> Result<
    (ExprV, int),
    ParseError,
>
    decreases fuel, 4int,
{
    match sp_pow(t, k, fuel) {
        Ok((lhs, k1)) => sp_mul_rest(t, k1, lhs, fuel),
        Err(e) => Err(e),
    }
}

/// What follows a parsed `term` at the `expr` level: a left-associative
/// chain of `+` and `-`.
pub open spec fn sp_add_rest(t: Seq<(TokenV, int)>, k: int, acc: ExprV, fuel: nat) -> Result<
    (ExprV, int),
    ParseError,
>
    decreases fuel, 5int,
{
    if k < t.len() && (t[k].0 == TokenV::Op(Arithm::Plus) || t[k].0 == TokenV::Op(Arithm::Minus)) {
        let op = if t[k].0 == TokenV::Op(Arithm::Plus) {
            Operation::Plus
        } else {
            Operation::Minus
        };
        if fuel == 0 {
            Err(ParseError::MissingArgument(t[k].1 as usize))
        } else {
            match sp_term(t, k + 1, (fuel - 1) as nat) {
                Ok((rhs, k2)) => sp_add_rest(
                    t,
                    k2,
                    ExprV::BinOp(Box::new(acc), Box::new(rhs), op),
                    (fuel - 1) as nat,
                ),
                Err(e) => Err(e),
            }
        }
    } else {
        Ok((acc, k))
    }
}

/// A whole expression: a left-associative chain of terms joined by `+`/`-`.
pub open spec fn sp_expr(t: Seq<(TokenV, int)>, k: int, fuel: nat) -> Result<
    (ExprV, int),
    ParseError,
>
    decreases fuel, 6int,
{
    match sp_term(t, k, fuel) {
        Ok((lhs, k1)) => sp_add_rest(t, k1, lhs, fuel),
        Err(e) => Err(e),
    }
}

/// The expression of a whole token stream: every token must be consumed.
pub open spec fn sp_parse(t: Seq<(TokenV, int)>) -> Result<ExprV, ParseError> {
    match sp_expr(t, 0, t.len() as nat) {
        Ok((e, k)) => if k == t.len() {
            Ok(e)
        } else {
            Err(ParseError::UnexpectedToken(t[k].1 as usize))
        },
        Err(e) => Err(e),
    }
}

/// The expression of a source text: tokenize, then parse.
pub open spec fn spec_parse_source(s: Seq<char>) -> Result<ExprV, ParseError> {
    match spec_lex(s) {
        Ok(t) => sp_parse(t),
        Err(e) => Err(e),
    }
}


fn tok_is_lparen(t: &Token) -> (b: bool)
    ensures
        b == (token_view(*t) is LParen),
{
    match t {
        Token::LParen => true,
        _ => false,
    }
}

fn tok_is_rparen(t: &Token) -> (b: bool)
    ensures
        b == (token_view(*t) is RParen),
{
    match t {
        Token::RParen => true,
        _ => false,
    }
}

fn tok_is_comma(t: &Token) -> (b: bool)
    ensures
        b == (token_view(*t) is Comma),
{
    match t {
        Token::Comma => true,
        _ => false,
    }
}

fn tok_number(t: &Token) -> (r: Option<u64>)
    ensures
        (match r {
            Some(b) => token_view(*t) == TokenV::Number(b),
            None => !(token_view(*t) is Number),
        }),
{
    match t {
        Token::Number(b) => Some(*b),
        _ => false_none(),
    }
}

#[inline]
fn false_none() -> (r: Option<u64>)
    ensures
        r is None,
{
    None
}

fn tok_is_op(t: &Token, a: Arithm) -> (b: bool)
    ensures
        b == (token_view(*t) == TokenV::Op(a)),
{
    match t {
        Token::Op(x) => *x == a,
        _ => false,
    }
}

/// The position after the last token, for reports of a missing operand.
fn eof_pos_exec(toks: &Vec<(Token, usize)>) -> (p: usize)
    ensures
        p as int == eof_pos(tokens_view(toks@)),
{
    if toks.len() == 0 {
        0
    } else {
        toks[toks.len() - 1].1
    }
}

/// Parses one operand.
fn p_operand(toks: &Vec<(Token, usize)>, k: usize, fuel: usize) -> (r: Result<
    (Expression, usize),
    ParseError,
>)
    ensures
        (match r {
            Ok((e, k2)) => sp_operand(tokens_view(toks@), k as int, fuel as nat) == Ok::<
                (ExprV, int),
                ParseError,
            >((expr_view(e), k2 as int)) && k < k2 <= toks.len(),
            Err(pe) => sp_operand(tokens_view(toks@), k as int, fuel as nat) == Err::<
                (ExprV, int),
                ParseError,
            >(pe),
        }),
    decreases fuel, 0int,
{
    let ghost tv = tokens_view(toks@);
    let n = toks.len();
    if k >= n {
        return Err(ParseError::MissingArgument(eof_pos_exec(toks)));
    }
    match &toks[k].0 {
        Token::Number(b) => Ok((Expression::Const(Literal::Number(*b)), k + 1)),
        Token::Ref(s) => Ok((Expression::Const(Literal::Ref(s.clone())), k + 1)),
        Token::Ident(s) => {
            let name_len = s.as_str().unicode_len();
            let is_call = k + 1 < n && tok_is_lparen(&toks[k + 1].0) && toks[k + 1].1 >= toks[k].1
                && toks[k + 1].1 - toks[k].1 == name_len;
            if is_call {
                if k + 2 < n && tok_is_rparen(&toks[k + 2].0) {
                    let e = Expression::Function { name: s.clone(), args: Vec::new() };
                    proof {
                        assert(exprs_view(Seq::<Expression>::empty()) =~= Seq::<ExprV>::empty());
                    }
                    Ok((e, k + 3))
                } else if fuel == 0 {
                    Err(ParseError::MissingArgument(toks[k].1))
                } else {
                    match p_args(toks, k + 2, fuel - 1) {
                        Ok((args, k2)) => Ok((Expression::Function { name: s.clone(), args }, k2)),
                        Err(pe) => Err(pe),
                    }
                }
            } else {
                Ok((Expression::Const(Literal::Ident(s.clone())), k + 1))
            }
        },
        Token::Op(Arithm::Minus) => {
            if k + 1 < n && toks[k + 1].1 >= toks[k].1 && toks[k + 1].1 - toks[k].1 == 1 {
                match tok_number(&toks[k + 1].0) {
                    Some(b) => Ok((Expression::Const(Literal::Number(neg_bits(b))), k + 2)),
                    None => Err(ParseError::UnexpectedToken(toks[k].1)),
                }
            } else {
                Err(ParseError::UnexpectedToken(toks[k].1))
            }
        },
        _ => Err(ParseError::UnexpectedToken(toks[k].1)),
    }
}

/// Parses the arguments of a call, up to and including the closing
/// parenthesis.
fn p_args(toks: &Vec<(Token, usize)>, k: usize, fuel: usize) -> (r: Result<
    (Vec<Expression>, usize),
    ParseError,
>)
    ensures
        (match r {
            Ok((args, k2)) => sp_args(tokens_view(toks@), k as int, fuel as nat) == Ok::<
                (Seq<ExprV>, int),
                ParseError,
            >((exprs_view(args@), k2 as int)) && k < k2 <= toks.len(),
            Err(pe) => sp_args(tokens_view(toks@), k as int, fuel as nat) == Err::<
                (Seq<ExprV>, int),
                ParseError,
            >(pe),
        }),
    decreases fuel, 7int,
{
    match p_expr(toks, k, fuel) {
        Ok((e, k2)) => {
            let n = toks.len();
            if k2 < n && tok_is_rparen(&toks[k2].0) {
                let mut v: Vec<Expression> = Vec::new();
                let ghost ev = expr_view(e);
                v.push(e);
                proof {
                    lemma_exprs_view(v@);
                    assert(exprs_view(v@) =~= seq![ev]);
                }
                Ok((v, k2 + 1))
            } else if k2 < n && tok_is_comma(&toks[k2].0) {
                if fuel == 0 {
                    Err(ParseError::MissingArgument(toks[k2].1))
                } else {
                    match p_args(toks, k2 + 1, fuel - 1) {
                        Ok((rest, k3)) => {
                            let ghost ev = expr_view(e);
                            let ghost rest_old = rest@;
                            let mut v: Vec<Expression> = Vec::new();
                            v.push(e);
                            let mut rest = rest;
                            v.append(&mut rest);
                            proof {
                                lemma_exprs_view(v@);
                                lemma_exprs_view(rest_old);
                                assert(v@ =~= seq![v@[0]] + rest_old);
                                assert(exprs_view(v@) =~= seq![ev] + exprs_view(rest_old));
                            }
                            Ok((v, k3))
                        },
                        Err(pe) => Err(pe),
                    }
                }
            } else {
                Err(ParseError::MissingRParen(eof_pos_exec(toks)))
            }
        },
        Err(pe) => Err(pe),
    }
}

/// Parses one factor.
fn p_factor(toks: &Vec<(Token, usize)>, k: usize, fuel: usize) -> (r: Result<
    (Expression, usize),
    ParseError,
>)
    ensures
        (match r {
            Ok((e, k2)) => sp_factor(tokens_view(toks@), k as int, fuel as nat) == Ok::<
                (ExprV, int),
                ParseError,
            >((expr_view(e), k2 as int)) && k < k2 <= toks.len(),
            Err(pe) => sp_factor(tokens_view(toks@), k as int, fuel as nat) == Err::<
                (ExprV, int),
                ParseError,
            >(pe),
        }),
    decreases fuel, 1int,
{
    let n = toks.len();
    if k >= n {
        return Err(ParseError::MissingArgument(eof_pos_exec(toks)));
    }
    if tok_is_lparen(&toks[k].0) {
        if fuel == 0 {
            Err(ParseError::MissingArgument(toks[k].1))
        } else {
            match p_expr(toks, k + 1, fuel - 1) {
                Ok((e, k2)) => {
                    if k2 < n && tok_is_rparen(&toks[k2].0) {
                        Ok((e, k2 + 1))
                    } else {
                        Err(ParseError::MissingRParen(toks[k].1))
                    }
                },
                Err(pe) => Err(pe),
            }
        }
    } else {
        let minus_here = tok_is_op(&toks[k].0, Arithm::Minus);
        let neg_literal = minus_here && k + 1 < n && toks[k + 1].1 >= toks[k].1 && toks[k + 1].1
            - toks[k].1 == 1 && tok_number(&toks[k + 1].0).is_some();
        if minus_here && !neg_literal {
            match p_operand(toks, k + 1, fuel) {
                Ok((e, k2)) => Ok((Expression::UnOp(Operation::Minus, Box::new(e)), k2)),
                Err(pe) => Err(pe),
            }
        } else if !minus_here && tok_is_op(&toks[k].0, Arithm::Fact) {
            match p_operand(toks, k + 1, fuel) {
                Ok((e, k2)) => Ok((Expression::UnOp(Operation::Factorial, Box::new(e)), k2)),
                Err(pe) => Err(pe),
            }
        } else {
            p_operand(toks, k, fuel)
        }
    }
}

/// Parses a power chain.
fn p_pow(toks: &Vec<(Token, usize)>, k: usize, fuel: usize) -> (r: Result<
    (Expression, usize),
    ParseError,
>)
    ensures
        (match r {
            Ok((e, k2)) => sp_pow(tokens_view(toks@), k as int, fuel as nat) == Ok::<
                (ExprV, int),
                ParseError,
            >((expr_view(e), k2 as int)) && k < k2 <= toks.len(),
            Err(pe) => sp_pow(tokens_view(toks@), k as int, fuel as nat) == Err::<
                (ExprV, int),
                ParseError,
            >(pe),
        }),
    decreases fuel, 2int,
{
    match p_factor(toks, k, fuel) {
        Ok((base, k1)) => {
            let n = toks.len();
            if k1 < n && tok_is_op(&toks[k1].0, Arithm::Pow) {
                if fuel == 0 {
                    Err(ParseError::MissingArgument(toks[k1].1))
                } else {
                    match p_pow(toks, k1 + 1, fuel - 1) {
                        Ok((rhs, k2)) => Ok(
                            (
                                Expression::BinOp(
                                    Box::new(rhs),
                                    Box::new(base),
                                    Operation::Power,
                                ),
                                k2,
                            ),
                        ),
                        Err(pe) => Err(pe),
                    }
                }
            } else {
                Ok((base, k1))
            }
        },
        Err(pe) => Err(pe),
    }
}

/// Parses a term: a chain of power expressions joined by `*` and `/`.
#[verifier::loop_isolation(false)]
fn p_term(toks: &Vec<(Token, usize)>, k: usize, fuel: usize) -> (r: Result<
    (Expression, usize),
    ParseError,
>)
    ensures
        (match r {
            Ok((e, k2)) => sp_term(tokens_view(toks@), k as int, fuel as nat) == Ok::<
                (ExprV, int),
                ParseError,
            >((expr_view(e), k2 as int)) && k < k2 <= toks.len(),
            Err(pe) => sp_term(tokens_view(toks@), k as int, fuel as nat) == Err::<
                (ExprV, int),
                ParseError,
            >(pe),
        }),
    decreases fuel, 4int,
{
    let ghost tv = tokens_view(toks@);
    let ghost fuel0 = fuel as nat;
    let k0 = k;
    let mut acc: Expression;
    let mut kk: usize;
    let mut f = fuel;
    match p_pow(toks, k, fuel) {
        Ok((e0, k1)) => {
            acc = e0;
            kk = k1;
        },
        Err(pe) => {
            return Err(pe);
        },
    }
    let n = toks.len();
    while kk < n && (tok_is_op(&toks[kk].0, Arithm::Times) || tok_is_op(&toks[kk].0, Arithm::Div))
        invariant
            n == toks.len(),
            tv == tokens_view(toks@),
            k0 < kk <= n,
            f <= fuel,
            sp_mul_rest(tv, kk as int, expr_view(acc), f as nat) == sp_term(tv, k0 as int, fuel0),
        decreases n - kk,
    {
        let op = if tok_is_op(&toks[kk].0, Arithm::Times) {
            Operation::Times
        } else {
            Operation::Divide
        };
        if f == 0 {
            return Err(ParseError::MissingArgument(toks[kk].1));
        }
        match p_pow(toks, kk + 1, f - 1) {
            Ok((rhs, k2)) => {
                acc = Expression::BinOp(Box::new(acc), Box::new(rhs), op);
                kk = k2;
                f = f - 1;
            },
            Err(pe) => {
                return Err(pe);
            },
        }
    }
    Ok((acc, kk))
}

/// Parses a whole expression: a chain of terms joined by `+` and `-`.
#[verifier::loop_isolation(false)]
fn p_expr(toks: &Vec<(Token, usize)>, k: usize, fuel: usize) -> (r: Result<
    (Expression, usize),
    ParseError,
>)
    ensures
        (match r {
            Ok((e, k2)) => sp_expr(tokens_view(toks@), k as int, fuel as nat) == Ok::<
                (ExprV, int),
                ParseError,
            >((expr_view(e), k2 as int)) && k < k2 <= toks.len(),
            Err(pe) => sp_expr(tokens_view(toks@), k as int, fuel as nat) == Err::<
                (ExprV, int),
                ParseError,
            >(pe),
        }),
    decreases fuel, 6int,
{
    let ghost tv = tokens_view(toks@);
    let ghost fuel0 = fuel as nat;
    let k0 = k;
    let mut acc: Expression;
    let mut kk: usize;
    let mut f = fuel;
    match p_term(toks, k, fuel) {
        Ok((e0, k1)) => {
            acc = e0;
            kk = k1;
        },
        Err(pe) => {
            return Err(pe);
        },
    }
    let n = toks.len();
    while kk < n && (tok_is_op(&toks[kk].0, Arithm::Plus) || tok_is_op(&toks[kk].0, Arithm::Minus))
        invariant
            n == toks.len(),
            tv == tokens_view(toks@),
            k0 < kk <= n,
            f <= fuel,
            sp_add_rest(tv, kk as int, expr_view(acc), f as nat) == sp_expr(tv, k0 as int, fuel0),
        decreases n - kk,
    {
        let op = if tok_is_op(&toks[kk].0, Arithm::Plus) {
            Operation::Plus
        } else {
            Operation::Minus
        };
        if f == 0 {
            return Err(ParseError::MissingArgument(toks[kk].1));
        }
        match p_term(toks, kk + 1, f - 1) {
            Ok((rhs, k2)) => {
                acc = Expression::BinOp(Box::new(acc), Box::new(rhs), op);
                kk = k2;
                f = f - 1;
            },
            Err(pe) => {
                return Err(pe);
            },
        }
    }
    Ok((acc, kk))
}

/// Parses a whole token stream; every token must be consumed.
fn p_tokens(toks: &Vec<(Token, usize)>) -> (r: Result<Expression, ParseError>)
    ensures
        (match r {
            Ok(e) => sp_parse(tokens_view(toks@)) == Ok::<ExprV, ParseError>(expr_view(e)),
            Err(pe) => sp_parse(tokens_view(toks@)) == Err::<ExprV, ParseError>(pe),
        }),
{
    let fuel = toks.len();
    match p_expr(toks, 0, fuel) {
        Ok((e, k)) => {
            if k == toks.len() {
                Ok(e)
            } else {
                Err(ParseError::UnexpectedToken(toks[k].1))
            }
        },
        Err(pe) => Err(pe),
    }
}

/// Parses a formula's source text into its expression tree, exactly as
/// `spec_parse_source` describes: the text is tokenized and must form one
/// whole expression; the first flaw is reported with its offset.
pub fn parse_expression(source: &str) -> (r: Result<Expression, ParseError>)
    ensures
        (match r {
            Ok(e) => spec_parse_source(source@) == Ok::<ExprV, ParseError>(expr_view(e)),
            Err(pe) => spec_parse_source(source@) == Err::<ExprV, ParseError>(pe),
        }),
{
    let lx = Lexer::new(source);
    match lx.tokenize() {
        Ok(toks) => p_tokens(&toks),
        Err(pe) => Err(pe),
    }
}


} // verus!
