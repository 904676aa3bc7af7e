//! The grammar of the tree-walking front end, as the recursive-descent
//! parser reads it: for a token list, a start position and the next free
//! variable id, what each rule produces (a tree or an error), where it stops
//! and which id comes next.
use vstd::prelude::*;

use crate::ast::{SpecExpr, SpecFuncDecl, SpecParseError, SpecStmt};
use crate::token::{Literal, Token, TokenType};

verus! {

/// What a grammar rule produces from a position: its result, the position
/// after it and the next free id.
pub struct Parsed<T> {
    pub result: Result<T, SpecParseError>,
    pub pos: int,
    pub next_id: nat,
}

pub open spec fn done<T>(v: T, pos: int, n: nat) -> Parsed<T> {
    Parsed { result: Ok(v), pos, next_id: n }
}

pub open spec fn fail<T>(token: Token, message: Seq<char>, pos: int, n: nat) -> Parsed<T> {
    Parsed { result: Err(SpecParseError { token, message }), pos, next_id: n }
}

/// The error of a failed rule, carried up unchanged.
pub open spec fn pass_err<T, U>(r: Parsed<U>) -> Parsed<T> {
    Parsed { result: Err(r.result->Err_0), pos: r.pos, next_id: r.next_id }
}

/// The result for a sub-rule that went backwards, which the rules never do
/// (the parser's functions prove it); it keeps the definitions well founded.
pub open spec fn stuck<T>(p: int, n: nat) -> Parsed<T> {
    Parsed { result: Err(SpecParseError { token: arbitrary(), message: seq![] }), pos: p, next_id: n }
}

/// The token at `p` is the end of input.
pub open spec fn is_end(ts: Seq<Token>, p: int) -> bool {
    ts[p].token_type == TokenType::EndFile
}

/// The token at `p` has kind `t` (and is not the end of input).
pub open spec fn checks(ts: Seq<Token>, p: int, t: TokenType) -> bool {
    0 <= p < ts.len() && ts[p].token_type != TokenType::EndFile && ts[p].token_type == t
}

/// A sub-rule stayed within `[lo, len]`.
pub open spec fn within<T>(r: Parsed<T>, lo: int, len: int) -> bool {
    lo <= r.pos <= len
}

// ----------------------------- expressions -----------------------------

pub closed spec fn p_expression(ts: Seq<Token>, p: int, n: nat) -> Parsed<SpecExpr>
    decreases ts.len() - p, 30nat,
{
    p_assignment(ts, p, n)
}

/// Assigning `value` to `target`: a variable or a property; anything else
/// is an error at the `=` token.
#[verifier::opaque]
pub open spec fn assign_target(target: SpecExpr, value: SpecExpr, equals: Token) -> Result<SpecExpr, SpecParseError> {
    match target {
        SpecExpr::Variable { name, id } => Ok(SpecExpr::Assign { name, value: Box::new(value), id }),
        SpecExpr::Get { object, name } => Ok(SpecExpr::SetProperty { object, value: Box::new(value), name }),
        _ => Err(SpecParseError { token: equals, message: "Invalid assignment target."@ }),
    }
}

pub closed spec fn p_assignment(ts: Seq<Token>, p: int, n: nat) -> Parsed<SpecExpr>
    decreases ts.len() - p, 29nat,
{
    let r = p_or(ts, p, n);
    if !within(r, p, ts.len() as int) {
        stuck(p, n)
    } else if r.result is Err {
        r
    } else if checks(ts, r.pos, TokenType::Equal) {
        let equals = ts[r.pos];
        let v = p_assignment(ts, r.pos + 1, r.next_id);
        if v.result is Err {
            v
        } else {
            Parsed { result: assign_target(r.result->Ok_0, v.result->Ok_0, equals), pos: v.pos, next_id: v.next_id }
        }
    } else {
        r
    }
}

pub closed spec fn p_or(ts: Seq<Token>, p: int, n: nat) -> Parsed<SpecExpr>
    decreases ts.len() - p, 28nat,
{
    let r = p_and(ts, p, n);
    if !within(r, p, ts.len() as int) {
        stuck(p, n)
    } else if r.result is Err {
        r
    } else {
        or_loop(ts, r.pos, r.next_id, r.result->Ok_0)
    }
}

pub closed spec fn or_loop(ts: Seq<Token>, p: int, n: nat, left: SpecExpr) -> Parsed<SpecExpr>
    decreases ts.len() - p, 27nat,
{
    if checks(ts, p, TokenType::Or) {
        let op = ts[p];
        let r = p_and(ts, p + 1, n);
        if !within(r, p + 1, ts.len() as int) {
            stuck(p, n)
        } else if r.result is Err {
            r
        } else {
            or_loop(
                ts,
                r.pos,
                r.next_id,
                SpecExpr::Logical { left: Box::new(left), operator: op, right: Box::new(r.result->Ok_0) },
            )
        }
    } else {
        done(left, p, n)
    }
}

pub closed spec fn p_and(ts: Seq<Token>, p: int, n: nat) -> Parsed<SpecExpr>
    decreases ts.len() - p, 26nat,
{
    let r = p_equality(ts, p, n);
    if !within(r, p, ts.len() as int) {
        stuck(p, n)
    } else if r.result is Err {
        r
    } else {
        and_loop(ts, r.pos, r.next_id, r.result->Ok_0)
    }
}

pub closed spec fn and_loop(ts: Seq<Token>, p: int, n: nat, left: SpecExpr) -> Parsed<SpecExpr>
    decreases ts.len() - p, 25nat,
{
    if checks(ts, p, TokenType::And) {
        let op = ts[p];
        let r = p_equality(ts, p + 1, n);
        if !within(r, p + 1, ts.len() as int) {
            stuck(p, n)
        } else if r.result is Err {
            r
        } else {
            and_loop(
                ts,
                r.pos,
                r.next_id,
                SpecExpr::Logical { left: Box::new(left), operator: op, right: Box::new(r.result->Ok_0) },
            )
        }
    } else {
        done(left, p, n)
    }
}

pub closed spec fn p_equality(ts: Seq<Token>, p: int, n: nat) -> Parsed<SpecExpr>
    decreases ts.len() - p, 24nat,
{
    let r = p_comparison(ts, p, n);
    if !within(r, p, ts.len() as int) {
        stuck(p, n)
    } else if r.result is Err {
        r
    } else {
        equality_loop(ts, r.pos, r.next_id, r.result->Ok_0)
    }
}

pub closed spec fn equality_loop(ts: Seq<Token>, p: int, n: nat, left: SpecExpr) -> Parsed<SpecExpr>
    decreases ts.len() - p, 23nat,
{
    if checks(ts, p, TokenType::BangEqual) || checks(ts, p, TokenType::EqualEqual) {
        let op = ts[p];
        let r = p_comparison(ts, p + 1, n);
        if !within(r, p + 1, ts.len() as int) {
            stuck(p, n)
        } else if r.result is Err {
            r
        } else {
            equality_loop(
                ts,
                r.pos,
                r.next_id,
                SpecExpr::Binary { left: Box::new(left), operator: op, right: Box::new(r.result->Ok_0) },
            )
        }
    } else {
        done(left, p, n)
    }
}

pub closed spec fn p_comparison(ts: Seq<Token>, p: int, n: nat) -> Parsed<SpecExpr>
    decreases ts.len() - p, 22nat,
{
    let r = p_term(ts, p, n);
    if !within(r, p, ts.len() as int) {
        stuck(p, n)
    } else if r.result is Err {
        r
    } else {
        comparison_loop(ts, r.pos, r.next_id, r.result->Ok_0)
    }
}

pub closed spec fn comparison_loop(ts: Seq<Token>, p: int, n: nat, left: SpecExpr) -> Parsed<SpecExpr>
    decreases ts.len() - p, 21nat,
{
    if checks(ts, p, TokenType::Greater) || checks(ts, p, TokenType::GreaterEqual) || checks(
        ts,
        p,
        TokenType::Less,
    ) || checks(ts, p, TokenType::LessEqual) {
        let op = ts[p];
        let r = p_term(ts, p + 1, n);
        if !within(r, p + 1, ts.len() as int) {
            stuck(p, n)
        } else if r.result is Err {
            r
        } else {
            comparison_loop(
                ts,
                r.pos,
                r.next_id,
                SpecExpr::Binary { left: Box::new(left), operator: op, right: Box::new(r.result->Ok_0) },
            )
        }
    } else {
        done(left, p, n)
    }
}

pub closed spec fn p_term(ts: Seq<Token>, p: int, n: nat) -> Parsed<SpecExpr>
    decreases ts.len() - p, 20nat,
{
    let r = p_factor(ts, p, n);
    if !within(r, p, ts.len() as int) {
        stuck(p, n)
    } else if r.result is Err {
        r
    } else {
        term_loop(ts, r.pos, r.next_id, r.result->Ok_0)
    }
}

pub closed spec fn term_loop(ts: Seq<Token>, p: int, n: nat, left: SpecExpr) -> Parsed<SpecExpr>
    decreases ts.len() - p, 19nat,
{
    if checks(ts, p, TokenType::Minus) || checks(ts, p, TokenType::Plus) {
        let op = ts[p];
        let r = p_factor(ts, p + 1, n);
        if !within(r, p + 1, ts.len() as int) {
            stuck(p, n)
        } else if r.result is Err {
            r
        } else {
            term_loop(
                ts,
                r.pos,
                r.next_id,
                SpecExpr::Binary { left: Box::new(left), operator: op, right: Box::new(r.result->Ok_0) },
            )
        }
    } else {
        done(left, p, n)
    }
}

pub closed spec fn p_factor(ts: Seq<Token>, p: int, n: nat) -> Parsed<SpecExpr>
    decreases ts.len() - p, 18nat,
{
    let r = p_unary(ts, p, n);
    if !within(r, p, ts.len() as int) {
        stuck(p, n)
    } else if r.result is Err {
        r
    } else {
        factor_loop(ts, r.pos, r.next_id, r.result->Ok_0)
    }
}

pub closed spec fn factor_loop(ts: Seq<Token>, p: int, n: nat, left: SpecExpr) -> Parsed<SpecExpr>
    decreases ts.len() - p, 17nat,
{
    if checks(ts, p, TokenType::Slash) || checks(ts, p, TokenType::Star) {
        let op = ts[p];
        let r = p_unary(ts, p + 1, n);
        if !within(r, p + 1, ts.len() as int) {
            stuck(p, n)
        } else if r.result is Err {
            r
        } else {
            factor_loop(
                ts,
                r.pos,
                r.next_id,
                SpecExpr::Binary { left: Box::new(left), operator: op, right: Box::new(r.result->Ok_0) },
            )
        }
    } else {
        done(left, p, n)
    }
}

pub closed spec fn p_unary(ts: Seq<Token>, p: int, n: nat) -> Parsed<SpecExpr>
    decreases ts.len() - p, 16nat,
{
    if checks(ts, p, TokenType::Bang) || checks(ts, p, TokenType::Minus) {
        let op = ts[p];
        let r = p_unary(ts, p + 1, n);
        if r.result is Err {
            r
        } else {
            done(SpecExpr::Unary { operator: op, right: Box::new(r.result->Ok_0) }, r.pos, r.next_id)
        }
    } else {
        p_call(ts, p, n)
    }
}

pub closed spec fn p_call(ts: Seq<Token>, p: int, n: nat) -> Parsed<SpecExpr>
    decreases ts.len() - p, 15nat,
{
    let r = p_primary(ts, p, n);
    if !within(r, p, ts.len() as int) {
        stuck(p, n)
    } else if r.result is Err {
        r
    } else {
        call_loop(ts, r.pos, r.next_id, r.result->Ok_0)
    }
}

pub closed spec fn call_loop(ts: Seq<Token>, p: int, n: nat, e: SpecExpr) -> Parsed<SpecExpr>
    decreases ts.len() - p, 14nat,
{
    if checks(ts, p, TokenType::LeftParen) {
        let r = finish_call(ts, p + 1, n, e);
        if !within(r, p + 1, ts.len() as int) {
            stuck(p, n)
        } else if r.result is Err {
            r
        } else {
            call_loop(ts, r.pos, r.next_id, r.result->Ok_0)
        }
    } else if checks(ts, p, TokenType::Dot) {
        if checks(ts, p + 1, TokenType::Identifier) {
            call_loop(ts, p + 2, n, SpecExpr::Get { object: Box::new(e), name: ts[p + 1] })
        } else {
            fail(ts[p + 1], "Expect property name after '.'."@, p + 1, n)
        }
    } else {
        done(e, p, n)
    }
}

pub closed spec fn finish_call(ts: Seq<Token>, p: int, n: nat, callee: SpecExpr) -> Parsed<SpecExpr>
    decreases ts.len() - p, 32nat,
{
    let r: Parsed<Seq<SpecExpr>> = if !checks(ts, p, TokenType::RightParen) {
        args_loop(ts, p, n, seq![])
    } else {
        done(seq![], p, n)
    };
    if !within(r, p, ts.len() as int) {
        stuck(p, n)
    } else if r.result is Err {
        pass_err(r)
    } else if checks(ts, r.pos, TokenType::RightParen) {
        done(
            SpecExpr::Call { callee: Box::new(callee), paren: ts[r.pos], args: r.result->Ok_0 },
            r.pos + 1,
            r.next_id,
        )
    } else {
        fail(ts[r.pos], "Expect ')' after arguments."@, r.pos, r.next_id)
    }
}

pub closed spec fn args_loop(ts: Seq<Token>, p: int, n: nat, args: Seq<SpecExpr>) -> Parsed<Seq<SpecExpr>>
    decreases ts.len() - p, 31nat,
{
    if args.len() >= 255 {
        fail(ts[p], "Can't have more than 255 arguments."@, p, n)
    } else {
        let r = p_expression(ts, p, n);
        if !within(r, p, ts.len() as int) {
            stuck(p, n)
        } else if r.result is Err {
            pass_err(r)
        } else if checks(ts, r.pos, TokenType::Comma) {
            args_loop(ts, r.pos + 1, r.next_id, args.push(r.result->Ok_0))
        } else {
            done(args.push(r.result->Ok_0), r.pos, r.next_id)
        }
    }
}

pub closed spec fn p_primary(ts: Seq<Token>, p: int, n: nat) -> Parsed<SpecExpr>
    decreases ts.len() - p, 13nat,
{
    if checks(ts, p, TokenType::False) {
        done(SpecExpr::Literal { value: Literal::Bool(false) }, p + 1, n)
    } else if checks(ts, p, TokenType::True) {
        done(SpecExpr::Literal { value: Literal::Bool(true) }, p + 1, n)
    } else if checks(ts, p, TokenType::Nil) {
        done(SpecExpr::Literal { value: Literal::Nil }, p + 1, n)
    } else if checks(ts, p, TokenType::Super) {
        if !checks(ts, p + 1, TokenType::Dot) {
            fail(ts[p + 1], "Expect '.' after 'super'."@, p + 1, n)
        } else if !checks(ts, p + 2, TokenType::Identifier) {
            fail(ts[p + 2], "Expect superclass method name."@, p + 2, n)
        } else {
            done(SpecExpr::Super { keyword: ts[p], method: ts[p + 2], id: n as usize }, p + 3, n + 1)
        }
    } else if checks(ts, p, TokenType::This) {
        done(SpecExpr::This { keyword: ts[p], id: n as usize }, p + 1, n + 1)
    } else if checks(ts, p, TokenType::Num) || checks(ts, p, TokenType::Str) {
        done(SpecExpr::Literal { value: ts[p].literal->Some_0 }, p + 1, n)
    } else if checks(ts, p, TokenType::LeftParen) {
        let r = p_expression(ts, p + 1, n);
        if !within(r, p + 1, ts.len() as int) {
            stuck(p, n)
        } else if r.result is Err {
            r
        } else if checks(ts, r.pos, TokenType::RightParen) {
            done(SpecExpr::Grouping { expression: Box::new(r.result->Ok_0) }, r.pos + 1, r.next_id)
        } else {
            fail(ts[r.pos], "Expect ')' after expression."@, r.pos, r.next_id)
        }
    } else if checks(ts, p, TokenType::Identifier) {
        done(SpecExpr::Variable { name: ts[p], id: n as usize }, p + 1, n + 1)
    } else {
        fail(ts[p], "Expect expression."@, p, n)
    }
}


// ----------------------------- statements -----------------------------

/// Consuming a token of kind `t` at `p`: the position after it, or the
/// error with `message` at the token found there.
pub open spec fn consume_at(ts: Seq<Token>, p: int, n: nat, t: TokenType, message: Seq<char>) -> Parsed<int> {
    if checks(ts, p, t) {
        done(p, p + 1, n)
    } else {
        fail(ts[p], message, p, n)
    }
}

pub closed spec fn p_declaration(ts: Seq<Token>, p: int, n: nat) -> Parsed<SpecStmt>
    decreases ts.len() - p, 9nat,
{
    if checks(ts, p, TokenType::Fun) {
        p_function(ts, p + 1, n, "function"@)
    } else if checks(ts, p, TokenType::Class) {
        p_class(ts, p + 1, n)
    } else if checks(ts, p, TokenType::Var) {
        p_var(ts, p + 1, n)
    } else {
        p_statement(ts, p, n)
    }
}

pub closed spec fn p_statement(ts: Seq<Token>, p: int, n: nat) -> Parsed<SpecStmt>
    decreases ts.len() - p, 8nat,
{
    if checks(ts, p, TokenType::Print) {
        p_print(ts, p + 1, n)
    } else if checks(ts, p, TokenType::Return) {
        p_return(ts, p + 1, n)
    } else if checks(ts, p, TokenType::LeftBrace) {
        let r = block_loop(ts, p + 1, n, seq![]);
        if r.result is Err {
            pass_err(r)
        } else {
            done(SpecStmt::Block { statements: r.result->Ok_0 }, r.pos, r.next_id)
        }
    } else if checks(ts, p, TokenType::If) {
        p_if(ts, p + 1, n)
    } else if checks(ts, p, TokenType::While) {
        p_while(ts, p + 1, n)
    } else if checks(ts, p, TokenType::For) {
        p_for(ts, p + 1, n)
    } else {
        p_expression_statement(ts, p, n)
    }
}

pub closed spec fn p_expression_statement(ts: Seq<Token>, p: int, n: nat) -> Parsed<SpecStmt>
    decreases ts.len() - p, 7nat,
{
    let r = p_expression(ts, p, n);
    if !within(r, p, ts.len() as int) {
        stuck(p, n)
    } else if r.result is Err {
        pass_err(r)
    } else if checks(ts, r.pos, TokenType::Semicolon) {
        done(SpecStmt::Expression(Box::new(r.result->Ok_0)), r.pos + 1, r.next_id)
    } else {
        fail(ts[r.pos], "Expect ';' after value."@, r.pos, r.next_id)
    }
}

pub closed spec fn p_print(ts: Seq<Token>, p: int, n: nat) -> Parsed<SpecStmt>
    decreases ts.len() - p, 1nat,
{
    let r = p_expression(ts, p, n);
    if !within(r, p, ts.len() as int) {
        stuck(p, n)
    } else if r.result is Err {
        pass_err(r)
    } else if checks(ts, r.pos, TokenType::Semicolon) {
        done(SpecStmt::Print(Box::new(r.result->Ok_0)), r.pos + 1, r.next_id)
    } else {
        fail(ts[r.pos], "Expect ';' after value."@, r.pos, r.next_id)
    }
}

/// A block's statements up to its closing brace.
pub closed spec fn block_loop(ts: Seq<Token>, p: int, n: nat, stmts: Seq<SpecStmt>) -> Parsed<Seq<SpecStmt>>
    decreases ts.len() - p, 10nat,
{
    if 0 <= p < ts.len() && !checks(ts, p, TokenType::RightBrace) && !is_end(ts, p) {
        let r = p_declaration(ts, p, n);
        if !within(r, p, ts.len() as int) {
            stuck(p, n)
        } else if r.result is Err {
            pass_err(r)
        } else if r.pos <= p {
            stuck(p, n)
        } else {
            block_loop(ts, r.pos, r.next_id, stmts.push(r.result->Ok_0))
        }
    } else if checks(ts, p, TokenType::RightBrace) {
        done(stmts, p + 1, n)
    } else {
        fail(ts[p], "Expect '}' after block."@, p, n)
    }
}

pub closed spec fn p_if(ts: Seq<Token>, p: int, n: nat) -> Parsed<SpecStmt>
    decreases ts.len() - p, 1nat,
{
    if !checks(ts, p, TokenType::LeftParen) {
        fail(ts[p], "Expect '(' after 'if'."@, p, n)
    } else {
        let c = p_expression(ts, p + 1, n);
        if !within(c, p + 1, ts.len() as int) {
            stuck(p, n)
        } else if c.result is Err {
            pass_err(c)
        } else if !checks(ts, c.pos, TokenType::RightParen) {
            fail(ts[c.pos], "Expect ')' after if condition."@, c.pos, c.next_id)
        } else {
            let t = p_statement(ts, c.pos + 1, c.next_id);
            if !within(t, c.pos + 1, ts.len() as int) {
                stuck(p, n)
            } else if t.result is Err {
                t
            } else if checks(ts, t.pos, TokenType::Else) {
                let e = p_statement(ts, t.pos + 1, t.next_id);
                if e.result is Err {
                    e
                } else {
                    done(
                        SpecStmt::If {
                            condition: c.result->Ok_0,
                            then_branch: Box::new(t.result->Ok_0),
                            else_branch: Some(Box::new(e.result->Ok_0)),
                        },
                        e.pos,
                        e.next_id,
                    )
                }
            } else {
                done(
                    SpecStmt::If { condition: c.result->Ok_0, then_branch: Box::new(t.result->Ok_0), else_branch: None },
                    t.pos,
                    t.next_id,
                )
            }
        }
    }
}

pub closed spec fn p_while(ts: Seq<Token>, p: int, n: nat) -> Parsed<SpecStmt>
    decreases ts.len() - p, 1nat,
{
    if !checks(ts, p, TokenType::LeftParen) {
        fail(ts[p], "Expect '(' after 'while'."@, p, n)
    } else {
        let c = p_expression(ts, p + 1, n);
        if !within(c, p + 1, ts.len() as int) {
            stuck(p, n)
        } else if c.result is Err {
            pass_err(c)
        } else if !checks(ts, c.pos, TokenType::RightParen) {
            fail(ts[c.pos], "Expect ')' after 'while'."@, c.pos, c.next_id)
        } else {
            let b = p_statement(ts, c.pos + 1, c.next_id);
            if b.result is Err {
                b
            } else {
                done(SpecStmt::While { condition: c.result->Ok_0, body: Box::new(b.result->Ok_0) }, b.pos, b.next_id)
            }
        }
    }
}

/// A return statement, after its keyword (the token before `p`).
pub closed spec fn p_return(ts: Seq<Token>, p: int, n: nat) -> Parsed<SpecStmt>
    decreases ts.len() - p, 1nat,
{
    let keyword = ts[p - 1];
    let r: Parsed<Option<SpecExpr>> = if !checks(ts, p, TokenType::Semicolon) {
        let e = p_expression(ts, p, n);
        if e.result is Err {
            pass_err(e)
        } else {
            done(Some(e.result->Ok_0), e.pos, e.next_id)
        }
    } else {
        done(None, p, n)
    };
    if !within(r, p, ts.len() as int) {
        stuck(p, n)
    } else if r.result is Err {
        pass_err(r)
    } else if checks(ts, r.pos, TokenType::Semicolon) {
        done(SpecStmt::Return { keyword, value: r.result->Ok_0 }, r.pos + 1, r.next_id)
    } else {
        fail(ts[r.pos], "Expect ';' after return value."@, r.pos, r.next_id)
    }
}

/// A variable declaration, after `var`.
pub closed spec fn p_var(ts: Seq<Token>, p: int, n: nat) -> Parsed<SpecStmt>
    decreases ts.len() - p, 1nat,
{
    if !checks(ts, p, TokenType::Identifier) {
        fail(ts[p], "Expect variable name"@, p, n)
    } else {
        let name = ts[p];
        let r: Parsed<Option<Box<SpecExpr>>> = if checks(ts, p + 1, TokenType::Equal) {
            let e = p_expression(ts, p + 2, n);
            if e.result is Err {
                pass_err(e)
            } else {
                done(Some(Box::new(e.result->Ok_0)), e.pos, e.next_id)
            }
        } else {
            done(None, p + 1, n)
        };
        if !within(r, p + 1, ts.len() as int) {
            stuck(p, n)
        } else if r.result is Err {
            pass_err(r)
        } else if checks(ts, r.pos, TokenType::Semicolon) {
            done(SpecStmt::Var { name, initializer: r.result->Ok_0 }, r.pos + 1, r.next_id)
        } else {
            fail(ts[r.pos], "Expect ';' after variable declaration"@, r.pos, r.next_id)
        }
    }
}

/// A class declaration, after `class`.
pub closed spec fn p_class(ts: Seq<Token>, p: int, n: nat) -> Parsed<SpecStmt>
    decreases ts.len() - p, 1nat,
{
    if !checks(ts, p, TokenType::Identifier) {
        fail(ts[p], "Expected class name."@, p, n)
    } else {
        let name = ts[p];
        let sc: Parsed<Option<SpecExpr>> = if checks(ts, p + 1, TokenType::Less) {
            if checks(ts, p + 2, TokenType::Identifier) {
                done(Some(SpecExpr::Variable { name: ts[p + 2], id: n as usize }), p + 3, n + 1)
            } else {
                fail(ts[p + 2], "Expect superclass name."@, p + 2, n)
            }
        } else {
            done(None, p + 1, n)
        };
        if !within(sc, p + 1, ts.len() as int) {
            stuck(p, n)
        } else if sc.result is Err {
            pass_err(sc)
        } else if !checks(ts, sc.pos, TokenType::LeftBrace) {
            fail(ts[sc.pos], "Expect '{' before class body."@, sc.pos, sc.next_id)
        } else {
            class_body(ts, sc.pos + 1, sc.next_id, name, sc.result->Ok_0)
        }
    }
}

/// A class body after its `{`: the methods, up to the closing brace.
pub closed spec fn class_body(ts: Seq<Token>, q: int, n: nat, name: Token, superclass: Option<SpecExpr>) -> Parsed<SpecStmt>
    decreases ts.len() - q, 4nat,
{
    let m = methods_loop(ts, q, n, seq![]);
    if !within(m, q, ts.len() as int) {
        stuck(q, n)
    } else if m.result is Err {
        pass_err(m)
    } else if checks(ts, m.pos, TokenType::RightBrace) {
        done(SpecStmt::Class { name, methods: m.result->Ok_0, superclass }, m.pos + 1, m.next_id)
    } else {
        fail(ts[m.pos], "Expect '}' after class body."@, m.pos, m.next_id)
    }
}

/// The methods of a class body, up to its closing brace.
pub closed spec fn methods_loop(ts: Seq<Token>, p: int, n: nat, ms: Seq<SpecStmt>) -> Parsed<Seq<SpecStmt>>
    decreases ts.len() - p, 3nat,
{
    if 0 <= p < ts.len() && !checks(ts, p, TokenType::RightBrace) && !is_end(ts, p) {
        let r = p_function(ts, p, n, "method"@);
        if !within(r, p, ts.len() as int) {
            stuck(p, n)
        } else if r.result is Err {
            pass_err(r)
        } else if r.pos <= p {
            stuck(p, n)
        } else {
            methods_loop(ts, r.pos, r.next_id, ms.push(r.result->Ok_0))
        }
    } else {
        done(ms, p, n)
    }
}

/// The parameter names of a function, separated by commas.
pub closed spec fn params_loop(ts: Seq<Token>, p: int, n: nat, name: Token, params: Seq<Token>) -> Parsed<Seq<Token>>
    decreases ts.len() - p,
{
    if params.len() >= 255 {
        fail(name, "Can't have more than 255 parameters."@, p, n)
    } else if !checks(ts, p, TokenType::Identifier) {
        fail(ts[p], "Expect parameter name."@, p, n)
    } else if checks(ts, p + 1, TokenType::Comma) {
        params_loop(ts, p + 2, n, name, params.push(ts[p]))
    } else {
        done(params.push(ts[p]), p + 1, n)
    }
}

/// A function (or method) declaration, after `fun` (or at a method name);
/// `kind` names it in the messages.
pub closed spec fn p_function(ts: Seq<Token>, p: int, n: nat, kind: Seq<char>) -> Parsed<SpecStmt>
    decreases ts.len() - p, 2nat,
{
    if !checks(ts, p, TokenType::Identifier) {
        fail(ts[p], "Expect "@ + kind + " name."@, p, n)
    } else if !checks(ts, p + 1, TokenType::LeftParen) {
        fail(ts[p + 1], "Expect '(' after "@ + kind + " name."@, p + 1, n)
    } else {
        let name = ts[p];
        let ps: Parsed<Seq<Token>> = if !checks(ts, p + 2, TokenType::RightParen) {
            params_loop(ts, p + 2, n, name, seq![])
        } else {
            done(seq![], p + 2, n)
        };
        if !within(ps, p + 2, ts.len() as int) {
            stuck(p, n)
        } else if ps.result is Err {
            pass_err(ps)
        } else if !checks(ts, ps.pos, TokenType::RightParen) {
            fail(ts[ps.pos], "Expect ')' after parameters."@, ps.pos, ps.next_id)
        } else if !checks(ts, ps.pos + 1, TokenType::LeftBrace) {
            fail(ts[ps.pos + 1], "Expect '{' before "@ + kind + " body."@, ps.pos + 1, ps.next_id)
        } else {
            let b = block_loop(ts, ps.pos + 2, ps.next_id, seq![]);
            if b.result is Err {
                pass_err(b)
            } else {
                done(
                    SpecStmt::Function(SpecFuncDecl { name, params: ps.result->Ok_0, body: b.result->Ok_0 }),
                    b.pos,
                    b.next_id,
                )
            }
        }
    }
}

/// The loop a `for` statement stands for: a `while` loop whose body runs
/// the increment after the loop body, in a block after the initializer.
pub open spec fn desugar_for(init: Option<SpecStmt>, cond: Option<SpecExpr>, inc: Option<SpecExpr>, body: SpecStmt) -> SpecStmt {
    let body1 = match inc {
        Some(i) => SpecStmt::Block { statements: seq![body, SpecStmt::Expression(Box::new(i))] },
        None => body,
    };
    let c = match cond {
        Some(c) => c,
        None => SpecExpr::Literal { value: Literal::Bool(true) },
    };
    let w = SpecStmt::While { condition: c, body: Box::new(body1) };
    match init {
        Some(s) => SpecStmt::Block { statements: seq![s, w] },
        None => w,
    }
}

/// A `for` statement, after `for`: a `while` loop in a
/// block with the initializer, the increment run after the body.
pub closed spec fn p_for(ts: Seq<Token>, p: int, n: nat) -> Parsed<SpecStmt>
    decreases ts.len() - p, 1nat,
{
    if !checks(ts, p, TokenType::LeftParen) {
        fail(ts[p], "Expected '(' after 'for'."@, p, n)
    } else {
        let q = p + 1;
        let init: Parsed<Option<SpecStmt>> = if checks(ts, q, TokenType::Semicolon) {
            done(None, q + 1, n)
        } else if checks(ts, q, TokenType::Var) {
            let v = p_var(ts, q + 1, n);
            if v.result is Err {
                pass_err(v)
            } else {
                done(Some(v.result->Ok_0), v.pos, v.next_id)
            }
        } else {
            let v = p_expression_statement(ts, q, n);
            if v.result is Err {
                pass_err(v)
            } else {
                done(Some(v.result->Ok_0), v.pos, v.next_id)
            }
        };
        if !within(init, q, ts.len() as int) {
            stuck(p, n)
        } else if init.result is Err {
            pass_err(init)
        } else {
            let q2 = init.pos;
            let cond: Parsed<Option<SpecExpr>> = if !checks(ts, q2, TokenType::Semicolon) {
                let c = p_expression(ts, q2, init.next_id);
                if c.result is Err {
                    pass_err(c)
                } else {
                    done(Some(c.result->Ok_0), c.pos, c.next_id)
                }
            } else {
                done(None, q2, init.next_id)
            };
            if !within(cond, q2, ts.len() as int) {
                stuck(p, n)
            } else if cond.result is Err {
                pass_err(cond)
            } else if !checks(ts, cond.pos, TokenType::Semicolon) {
                fail(ts[cond.pos], "Expected ';' after loop condition."@, cond.pos, cond.next_id)
            } else {
                let q3 = cond.pos + 1;
                let inc: Parsed<Option<SpecExpr>> = if !checks(ts, q3, TokenType::RightParen) {
                    let c = p_expression(ts, q3, cond.next_id);
                    if c.result is Err {
                        pass_err(c)
                    } else {
                        done(Some(c.result->Ok_0), c.pos, c.next_id)
                    }
                } else {
                    done(None, q3, cond.next_id)
                };
                if !within(inc, q3, ts.len() as int) {
                    stuck(p, n)
                } else if inc.result is Err {
                    pass_err(inc)
                } else if !checks(ts, inc.pos, TokenType::RightParen) {
                    fail(ts[inc.pos], "Expected ')' after for clauses."@, inc.pos, inc.next_id)
                } else {
                    let b = p_statement(ts, inc.pos + 1, inc.next_id);
                    if b.result is Err {
                        b
                    } else {
                        done(
                            desugar_for(init.result->Ok_0, cond.result->Ok_0, inc.result->Ok_0, b.result->Ok_0),
                            b.pos,
                            b.next_id,
                        )
                    }
                }
            }
        }
    }
}

/// The loop a desugared `for` statement runs: the statement itself, or the
/// second statement of the block that first runs the initializer.
pub open spec fn for_loop_of(st: SpecStmt, has_init: bool) -> SpecStmt {
    if has_init {
        match st {
            SpecStmt::Block { statements } => statements[1],
            _ => st,
        }
    } else {
        st
    }
}

/// The condition of a `while` statement.
pub open spec fn while_condition(st: SpecStmt) -> Option<SpecExpr> {
    match st {
        SpecStmt::While { condition, .. } => Some(condition),
        _ => None,
    }
}

/// What a `for` statement stands for: the initializer (if any) runs first,
/// in a block of its own with the loop; the loop is a `while` whose
/// condition is the `for`'s condition, or `true` when the condition clause
/// is empty; its body is the `for`'s body followed by the increment (if
/// any).
pub proof fn lemma_desugar_for_meaning(init: Option<SpecStmt>, cond: Option<SpecExpr>, inc: Option<SpecExpr>, body: SpecStmt)
    ensures
        ({
            let st = desugar_for(init, cond, inc, body);
            let w = for_loop_of(st, init is Some);
            &&& init matches Some(i) ==> (st matches SpecStmt::Block { statements } && statements.len() == 2
                && statements[0] == i)
            &&& w matches SpecStmt::While { condition, body: loop_body } && {
                &&& cond matches Some(c) ==> condition == c
                &&& cond is None ==> condition == SpecExpr::Literal { value: Literal::Bool(true) }
                &&& inc matches Some(i) ==> *loop_body == SpecStmt::Block {
                    statements: seq![body, SpecStmt::Expression(Box::new(i))],
                }
                &&& inc is None ==> *loop_body == body
            }
        }),
{
}

/// A `for` loop with an empty initializer and a condition: the loop it
/// parses to runs while the condition expression written there holds (it
/// is that very expression, ids included).
pub proof fn lemma_for_condition_kept(ts: Seq<Token>, p: int, n: nat)
    requires
        0 <= p,
        p + 2 < ts.len(),
        checks(ts, p, TokenType::LeftParen),
        checks(ts, p + 1, TokenType::Semicolon),
        !checks(ts, p + 2, TokenType::Semicolon),
    ensures
        p_for(ts, p, n).result matches Ok(st) ==> {
            &&& p_expression(ts, p + 2, n).result is Ok
            &&& while_condition(st) == Some(p_expression(ts, p + 2, n).result->Ok_0)
        },
{
}

// ----------------------------- programs -----------------------------

/// Error recovery: from `p`, the position at which parsing resumes after an
/// error (just after a `;`, or at a keyword that starts a statement, or at
/// the end).
pub open spec fn synchronize_from(ts: Seq<Token>, p: int) -> int {
    let q = if 0 <= p < ts.len() && !is_end(ts, p) { p + 1 } else { p };
    sync_loop(ts, q)
}

pub open spec fn starts_statement(t: TokenType) -> bool {
    t == TokenType::Class || t == TokenType::Fun || t == TokenType::Var || t == TokenType::For || t
        == TokenType::If || t == TokenType::While || t == TokenType::Print || t == TokenType::Return
}

pub open spec fn sync_loop(ts: Seq<Token>, q: int) -> int
    decreases ts.len() - q,
{
    if !(0 <= q < ts.len()) || is_end(ts, q) {
        q
    } else if ts[q - 1].token_type == TokenType::Semicolon {
        q
    } else if starts_statement(ts[q].token_type) {
        q
    } else {
        sync_loop(ts, q + 1)
    }
}

/// What parsing a whole program from `p` yields: the declarations parsed,
/// the errors met (in order) and the next free id.
pub struct ProgramParse {
    pub stmts: Seq<SpecStmt>,
    pub errors: Seq<SpecParseError>,
    pub next_id: nat,
}

pub open spec fn p_program(ts: Seq<Token>, p: int, n: nat, stmts: Seq<SpecStmt>, errors: Seq<SpecParseError>) -> ProgramParse
    decreases ts.len() - p,
{
    if !(0 <= p < ts.len()) || is_end(ts, p) {
        ProgramParse { stmts, errors, next_id: n }
    } else {
        let r = p_declaration(ts, p, n);
        if !within(r, p, ts.len() as int) {
            ProgramParse { stmts, errors, next_id: n }
        } else if r.result is Ok {
            if r.pos <= p {
                ProgramParse { stmts, errors, next_id: n }
            } else {
                p_program(ts, r.pos, r.next_id, stmts.push(r.result->Ok_0), errors)
            }
        } else {
            let q = synchronize_from(ts, r.pos);
            if q <= p || q > ts.len() {
                ProgramParse { stmts, errors, next_id: n }
            } else {
                p_program(ts, q, r.next_id, stmts, errors.push(r.result->Err_0))
            }
        }
    }
}

// ----------------------------- unfolding -----------------------------

// The rules above are closed: outside this module a proof sees one step of
// one of them only where it asks for it, by the lemma below that states that
// step. With the whole mutually recursive group unfolding by itself, proofs
// about the code that follows them get lost.

/// One step of `p_expression`.
pub proof fn unfold_expression(ts: Seq<Token>, p: int, n: nat)
    ensures
        p_expression(ts, p, n) == ({
        p_assignment(ts, p, n)
        }),
{
}

/// One step of `p_assignment`.
pub proof fn unfold_assignment(ts: Seq<Token>, p: int, n: nat)
    ensures
        p_assignment(ts, p, n) == ({
        let r = p_or(ts, p, n);
        if !within(r, p, ts.len() as int) {
            stuck(p, n)
        } else if r.result is Err {
            r
        } else if checks(ts, r.pos, TokenType::Equal) {
            let equals = ts[r.pos];
            let v = p_assignment(ts, r.pos + 1, r.next_id);
            if v.result is Err {
                v
            } else {
                Parsed { result: assign_target(r.result->Ok_0, v.result->Ok_0, equals), pos: v.pos, next_id: v.next_id }
            }
        } else {
            r
        }
        }),
{
}

/// One step of `p_or`.
pub proof fn unfold_or(ts: Seq<Token>, p: int, n: nat)
    ensures
        p_or(ts, p, n) == ({
        let r = p_and(ts, p, n);
        if !within(r, p, ts.len() as int) {
            stuck(p, n)
        } else if r.result is Err {
            r
        } else {
            or_loop(ts, r.pos, r.next_id, r.result->Ok_0)
        }
        }),
{
}

/// One step of `or_loop`.
pub proof fn unfold_or_loop(ts: Seq<Token>, p: int, n: nat, left: SpecExpr)
    ensures
        or_loop(ts, p, n, left) == ({
        if checks(ts, p, TokenType::Or) {
            let op = ts[p];
            let r = p_and(ts, p + 1, n);
            if !within(r, p + 1, ts.len() as int) {
                stuck(p, n)
            } else if r.result is Err {
                r
            } else {
                or_loop(
                    ts,
                    r.pos,
                    r.next_id,
                    SpecExpr::Logical { left: Box::new(left), operator: op, right: Box::new(r.result->Ok_0) },
                )
            }
        } else {
            done(left, p, n)
        }
        }),
{
}

/// One step of `p_and`.
pub proof fn unfold_and(ts: Seq<Token>, p: int, n: nat)
    ensures
        p_and(ts, p, n) == ({
        let r = p_equality(ts, p, n);
        if !within(r, p, ts.len() as int) {
            stuck(p, n)
        } else if r.result is Err {
            r
        } else {
            and_loop(ts, r.pos, r.next_id, r.result->Ok_0)
        }
        }),
{
}

/// One step of `and_loop`.
pub proof fn unfold_and_loop(ts: Seq<Token>, p: int, n: nat, left: SpecExpr)
    ensures
        and_loop(ts, p, n, left) == ({
        if checks(ts, p, TokenType::And) {
            let op = ts[p];
            let r = p_equality(ts, p + 1, n);
            if !within(r, p + 1, ts.len() as int) {
                stuck(p, n)
            } else if r.result is Err {
                r
            } else {
                and_loop(
                    ts,
                    r.pos,
                    r.next_id,
                    SpecExpr::Logical { left: Box::new(left), operator: op, right: Box::new(r.result->Ok_0) },
                )
            }
        } else {
            done(left, p, n)
        }
        }),
{
}

/// One step of `p_equality`.
pub proof fn unfold_equality(ts: Seq<Token>, p: int, n: nat)
    ensures
        p_equality(ts, p, n) == ({
        let r = p_comparison(ts, p, n);
        if !within(r, p, ts.len() as int) {
            stuck(p, n)
        } else if r.result is Err {
            r
        } else {
            equality_loop(ts, r.pos, r.next_id, r.result->Ok_0)
        }
        }),
{
}

/// One step of `equality_loop`.
pub proof fn unfold_equality_loop(ts: Seq<Token>, p: int, n: nat, left: SpecExpr)
    ensures
        equality_loop(ts, p, n, left) == ({
        if checks(ts, p, TokenType::BangEqual) || checks(ts, p, TokenType::EqualEqual) {
            let op = ts[p];
            let r = p_comparison(ts, p + 1, n);
            if !within(r, p + 1, ts.len() as int) {
                stuck(p, n)
            } else if r.result is Err {
                r
            } else {
                equality_loop(
                    ts,
                    r.pos,
                    r.next_id,
                    SpecExpr::Binary { left: Box::new(left), operator: op, right: Box::new(r.result->Ok_0) },
                )
            }
        } else {
            done(left, p, n)
        }
        }),
{
}

/// One step of `p_comparison`.
pub proof fn unfold_comparison(ts: Seq<Token>, p: int, n: nat)
    ensures
        p_comparison(ts, p, n) == ({
        let r = p_term(ts, p, n);
        if !within(r, p, ts.len() as int) {
            stuck(p, n)
        } else if r.result is Err {
            r
        } else {
            comparison_loop(ts, r.pos, r.next_id, r.result->Ok_0)
        }
        }),
{
}

/// One step of `comparison_loop`.
pub proof fn unfold_comparison_loop(ts: Seq<Token>, p: int, n: nat, left: SpecExpr)
    ensures
        comparison_loop(ts, p, n, left) == ({
        if checks(ts, p, TokenType::Greater) || checks(ts, p, TokenType::GreaterEqual) || checks(
            ts,
            p,
            TokenType::Less,
        ) || checks(ts, p, TokenType::LessEqual) {
            let op = ts[p];
            let r = p_term(ts, p + 1, n);
            if !within(r, p + 1, ts.len() as int) {
                stuck(p, n)
            } else if r.result is Err {
                r
            } else {
                comparison_loop(
                    ts,
                    r.pos,
                    r.next_id,
                    SpecExpr::Binary { left: Box::new(left), operator: op, right: Box::new(r.result->Ok_0) },
                )
            }
        } else {
            done(left, p, n)
        }
        }),
{
}

/// One step of `p_term`.
pub proof fn unfold_term(ts: Seq<Token>, p: int, n: nat)
    ensures
        p_term(ts, p, n) == ({
        let r = p_factor(ts, p, n);
        if !within(r, p, ts.len() as int) {
            stuck(p, n)
        } else if r.result is Err {
            r
        } else {
            term_loop(ts, r.pos, r.next_id, r.result->Ok_0)
        }
        }),
{
}

/// One step of `term_loop`.
pub proof fn unfold_term_loop(ts: Seq<Token>, p: int, n: nat, left: SpecExpr)
    ensures
        term_loop(ts, p, n, left) == ({
        if checks(ts, p, TokenType::Minus) || checks(ts, p, TokenType::Plus) {
            let op = ts[p];
            let r = p_factor(ts, p + 1, n);
            if !within(r, p + 1, ts.len() as int) {
                stuck(p, n)
            } else if r.result is Err {
                r
            } else {
                term_loop(
                    ts,
                    r.pos,
                    r.next_id,
                    SpecExpr::Binary { left: Box::new(left), operator: op, right: Box::new(r.result->Ok_0) },
                )
            }
        } else {
            done(left, p, n)
        }
        }),
{
}

/// One step of `p_factor`.
pub proof fn unfold_factor(ts: Seq<Token>, p: int, n: nat)
    ensures
        p_factor(ts, p, n) == ({
        let r = p_unary(ts, p, n);
        if !within(r, p, ts.len() as int) {
            stuck(p, n)
        } else if r.result is Err {
            r
        } else {
            factor_loop(ts, r.pos, r.next_id, r.result->Ok_0)
        }
        }),
{
}

/// One step of `factor_loop`.
pub proof fn unfold_factor_loop(ts: Seq<Token>, p: int, n: nat, left: SpecExpr)
    ensures
        factor_loop(ts, p, n, left) == ({
        if checks(ts, p, TokenType::Slash) || checks(ts, p, TokenType::Star) {
            let op = ts[p];
            let r = p_unary(ts, p + 1, n);
            if !within(r, p + 1, ts.len() as int) {
                stuck(p, n)
            } else if r.result is Err {
                r
            } else {
                factor_loop(
                    ts,
                    r.pos,
                    r.next_id,
                    SpecExpr::Binary { left: Box::new(left), operator: op, right: Box::new(r.result->Ok_0) },
                )
            }
        } else {
            done(left, p, n)
        }
        }),
{
}

/// One step of `p_unary`.
pub proof fn unfold_unary(ts: Seq<Token>, p: int, n: nat)
    ensures
        p_unary(ts, p, n) == ({
        if checks(ts, p, TokenType::Bang) || checks(ts, p, TokenType::Minus) {
            let op = ts[p];
            let r = p_unary(ts, p + 1, n);
            if r.result is Err {
                r
            } else {
                done(SpecExpr::Unary { operator: op, right: Box::new(r.result->Ok_0) }, r.pos, r.next_id)
            }
        } else {
            p_call(ts, p, n)
        }
        }),
{
}

/// One step of `p_call`.
pub proof fn unfold_call(ts: Seq<Token>, p: int, n: nat)
    ensures
        p_call(ts, p, n) == ({
        let r = p_primary(ts, p, n);
        if !within(r, p, ts.len() as int) {
            stuck(p, n)
        } else if r.result is Err {
            r
        } else {
            call_loop(ts, r.pos, r.next_id, r.result->Ok_0)
        }
        }),
{
}

/// One step of `call_loop`.
pub proof fn unfold_call_loop(ts: Seq<Token>, p: int, n: nat, e: SpecExpr)
    ensures
        call_loop(ts, p, n, e) == ({
        if checks(ts, p, TokenType::LeftParen) {
            let r = finish_call(ts, p + 1, n, e);
            if !within(r, p + 1, ts.len() as int) {
                stuck(p, n)
            } else if r.result is Err {
                r
            } else {
                call_loop(ts, r.pos, r.next_id, r.result->Ok_0)
            }
        } else if checks(ts, p, TokenType::Dot) {
            if checks(ts, p + 1, TokenType::Identifier) {
                call_loop(ts, p + 2, n, SpecExpr::Get { object: Box::new(e), name: ts[p + 1] })
            } else {
                fail(ts[p + 1], "Expect property name after '.'."@, p + 1, n)
            }
        } else {
            done(e, p, n)
        }
        }),
{
}

/// One step of `finish_call`.
pub proof fn unfold_finish_call(ts: Seq<Token>, p: int, n: nat, callee: SpecExpr)
    ensures
        finish_call(ts, p, n, callee) == ({
        let r: Parsed<Seq<SpecExpr>> = if !checks(ts, p, TokenType::RightParen) {
            args_loop(ts, p, n, seq![])
        } else {
            done(seq![], p, n)
        };
        if !within(r, p, ts.len() as int) {
            stuck(p, n)
        } else if r.result is Err {
            pass_err(r)
        } else if checks(ts, r.pos, TokenType::RightParen) {
            done(
                SpecExpr::Call { callee: Box::new(callee), paren: ts[r.pos], args: r.result->Ok_0 },
                r.pos + 1,
                r.next_id,
            )
        } else {
            fail(ts[r.pos], "Expect ')' after arguments."@, r.pos, r.next_id)
        }
        }),
{
}

/// One step of `args_loop`.
pub proof fn unfold_args_loop(ts: Seq<Token>, p: int, n: nat, args: Seq<SpecExpr>)
    ensures
        args_loop(ts, p, n, args) == ({
        if args.len() >= 255 {
            fail(ts[p], "Can't have more than 255 arguments."@, p, n)
        } else {
            let r = p_expression(ts, p, n);
            if !within(r, p, ts.len() as int) {
                stuck(p, n)
            } else if r.result is Err {
                pass_err(r)
            } else if checks(ts, r.pos, TokenType::Comma) {
                args_loop(ts, r.pos + 1, r.next_id, args.push(r.result->Ok_0))
            } else {
                done(args.push(r.result->Ok_0), r.pos, r.next_id)
            }
        }
        }),
{
}

/// One step of `p_primary`.
pub proof fn unfold_primary(ts: Seq<Token>, p: int, n: nat)
    ensures
        p_primary(ts, p, n) == ({
        if checks(ts, p, TokenType::False) {
            done(SpecExpr::Literal { value: Literal::Bool(false) }, p + 1, n)
        } else if checks(ts, p, TokenType::True) {
            done(SpecExpr::Literal { value: Literal::Bool(true) }, p + 1, n)
        } else if checks(ts, p, TokenType::Nil) {
            done(SpecExpr::Literal { value: Literal::Nil }, p + 1, n)
        } else if checks(ts, p, TokenType::Super) {
            if !checks(ts, p + 1, TokenType::Dot) {
                fail(ts[p + 1], "Expect '.' after 'super'."@, p + 1, n)
            } else if !checks(ts, p + 2, TokenType::Identifier) {
                fail(ts[p + 2], "Expect superclass method name."@, p + 2, n)
            } else {
                done(SpecExpr::Super { keyword: ts[p], method: ts[p + 2], id: n as usize }, p + 3, n + 1)
            }
        } else if checks(ts, p, TokenType::This) {
            done(SpecExpr::This { keyword: ts[p], id: n as usize }, p + 1, n + 1)
        } else if checks(ts, p, TokenType::Num) || checks(ts, p, TokenType::Str) {
            done(SpecExpr::Literal { value: ts[p].literal->Some_0 }, p + 1, n)
        } else if checks(ts, p, TokenType::LeftParen) {
            let r = p_expression(ts, p + 1, n);
            if !within(r, p + 1, ts.len() as int) {
                stuck(p, n)
            } else if r.result is Err {
                r
            } else if checks(ts, r.pos, TokenType::RightParen) {
                done(SpecExpr::Grouping { expression: Box::new(r.result->Ok_0) }, r.pos + 1, r.next_id)
            } else {
                fail(ts[r.pos], "Expect ')' after expression."@, r.pos, r.next_id)
            }
        } else if checks(ts, p, TokenType::Identifier) {
            done(SpecExpr::Variable { name: ts[p], id: n as usize }, p + 1, n + 1)
        } else {
            fail(ts[p], "Expect expression."@, p, n)
        }
        }),
{
}

/// One step of `p_declaration`.
pub proof fn unfold_declaration(ts: Seq<Token>, p: int, n: nat)
    ensures
        p_declaration(ts, p, n) == ({
        if checks(ts, p, TokenType::Fun) {
            p_function(ts, p + 1, n, "function"@)
        } else if checks(ts, p, TokenType::Class) {
            p_class(ts, p + 1, n)
        } else if checks(ts, p, TokenType::Var) {
            p_var(ts, p + 1, n)
        } else {
            p_statement(ts, p, n)
        }
        }),
{
}

/// One step of `p_statement`.
pub proof fn unfold_statement(ts: Seq<Token>, p: int, n: nat)
    ensures
        p_statement(ts, p, n) == ({
        if checks(ts, p, TokenType::Print) {
            p_print(ts, p + 1, n)
        } else if checks(ts, p, TokenType::Return) {
            p_return(ts, p + 1, n)
        } else if checks(ts, p, TokenType::LeftBrace) {
            let r = block_loop(ts, p + 1, n, seq![]);
            if r.result is Err {
                pass_err(r)
            } else {
                done(SpecStmt::Block { statements: r.result->Ok_0 }, r.pos, r.next_id)
            }
        } else if checks(ts, p, TokenType::If) {
            p_if(ts, p + 1, n)
        } else if checks(ts, p, TokenType::While) {
            p_while(ts, p + 1, n)
        } else if checks(ts, p, TokenType::For) {
            p_for(ts, p + 1, n)
        } else {
            p_expression_statement(ts, p, n)
        }
        }),
{
}

/// One step of `p_expression_statement`.
pub proof fn unfold_expression_statement(ts: Seq<Token>, p: int, n: nat)
    ensures
        p_expression_statement(ts, p, n) == ({
        let r = p_expression(ts, p, n);
        if !within(r, p, ts.len() as int) {
            stuck(p, n)
        } else if r.result is Err {
            pass_err(r)
        } else if checks(ts, r.pos, TokenType::Semicolon) {
            done(SpecStmt::Expression(Box::new(r.result->Ok_0)), r.pos + 1, r.next_id)
        } else {
            fail(ts[r.pos], "Expect ';' after value."@, r.pos, r.next_id)
        }
        }),
{
}

/// One step of `p_print`.
pub proof fn unfold_print(ts: Seq<Token>, p: int, n: nat)
    ensures
        p_print(ts, p, n) == ({
        let r = p_expression(ts, p, n);
        if !within(r, p, ts.len() as int) {
            stuck(p, n)
        } else if r.result is Err {
            pass_err(r)
        } else if checks(ts, r.pos, TokenType::Semicolon) {
            done(SpecStmt::Print(Box::new(r.result->Ok_0)), r.pos + 1, r.next_id)
        } else {
            fail(ts[r.pos], "Expect ';' after value."@, r.pos, r.next_id)
        }
        }),
{
}

/// One step of `block_loop`.
pub proof fn unfold_block_loop(ts: Seq<Token>, p: int, n: nat, stmts: Seq<SpecStmt>)
    ensures
        block_loop(ts, p, n, stmts) == ({
        if 0 <= p < ts.len() && !checks(ts, p, TokenType::RightBrace) && !is_end(ts, p) {
            let r = p_declaration(ts, p, n);
            if !within(r, p, ts.len() as int) {
                stuck(p, n)
            } else if r.result is Err {
                pass_err(r)
            } else if r.pos <= p {
                stuck(p, n)
            } else {
                block_loop(ts, r.pos, r.next_id, stmts.push(r.result->Ok_0))
            }
        } else if checks(ts, p, TokenType::RightBrace) {
            done(stmts, p + 1, n)
        } else {
            fail(ts[p], "Expect '}' after block."@, p, n)
        }
        }),
{
}

/// One step of `p_if`.
pub proof fn unfold_if(ts: Seq<Token>, p: int, n: nat)
    ensures
        p_if(ts, p, n) == ({
        if !checks(ts, p, TokenType::LeftParen) {
            fail(ts[p], "Expect '(' after 'if'."@, p, n)
        } else {
            let c = p_expression(ts, p + 1, n);
            if !within(c, p + 1, ts.len() as int) {
                stuck(p, n)
            } else if c.result is Err {
                pass_err(c)
            } else if !checks(ts, c.pos, TokenType::RightParen) {
                fail(ts[c.pos], "Expect ')' after if condition."@, c.pos, c.next_id)
            } else {
                let t = p_statement(ts, c.pos + 1, c.next_id);
                if !within(t, c.pos + 1, ts.len() as int) {
                    stuck(p, n)
                } else if t.result is Err {
                    t
                } else if checks(ts, t.pos, TokenType::Else) {
                    let e = p_statement(ts, t.pos + 1, t.next_id);
                    if e.result is Err {
                        e
                    } else {
                        done(
                            SpecStmt::If {
                                condition: c.result->Ok_0,
                                then_branch: Box::new(t.result->Ok_0),
                                else_branch: Some(Box::new(e.result->Ok_0)),
                            },
                            e.pos,
                            e.next_id,
                        )
                    }
                } else {
                    done(
                        SpecStmt::If { condition: c.result->Ok_0, then_branch: Box::new(t.result->Ok_0), else_branch: None },
                        t.pos,
                        t.next_id,
                    )
                }
            }
        }
        }),
{
}

/// One step of `p_while`.
pub proof fn unfold_while(ts: Seq<Token>, p: int, n: nat)
    ensures
        p_while(ts, p, n) == ({
        if !checks(ts, p, TokenType::LeftParen) {
            fail(ts[p], "Expect '(' after 'while'."@, p, n)
        } else {
            let c = p_expression(ts, p + 1, n);
            if !within(c, p + 1, ts.len() as int) {
                stuck(p, n)
            } else if c.result is Err {
                pass_err(c)
            } else if !checks(ts, c.pos, TokenType::RightParen) {
                fail(ts[c.pos], "Expect ')' after 'while'."@, c.pos, c.next_id)
            } else {
                let b = p_statement(ts, c.pos + 1, c.next_id);
                if b.result is Err {
                    b
                } else {
                    done(SpecStmt::While { condition: c.result->Ok_0, body: Box::new(b.result->Ok_0) }, b.pos, b.next_id)
                }
            }
        }
        }),
{
}

/// One step of `p_return`.
pub proof fn unfold_return(ts: Seq<Token>, p: int, n: nat)
    ensures
        p_return(ts, p, n) == ({
        let keyword = ts[p - 1];
        let r: Parsed<Option<SpecExpr>> = if !checks(ts, p, TokenType::Semicolon) {
            let e = p_expression(ts, p, n);
            if e.result is Err {
                pass_err(e)
            } else {
                done(Some(e.result->Ok_0), e.pos, e.next_id)
            }
        } else {
            done(None, p, n)
        };
        if !within(r, p, ts.len() as int) {
            stuck(p, n)
        } else if r.result is Err {
            pass_err(r)
        } else if checks(ts, r.pos, TokenType::Semicolon) {
            done(SpecStmt::Return { keyword, value: r.result->Ok_0 }, r.pos + 1, r.next_id)
        } else {
            fail(ts[r.pos], "Expect ';' after return value."@, r.pos, r.next_id)
        }
        }),
{
}

/// One step of `p_var`.
pub proof fn unfold_var(ts: Seq<Token>, p: int, n: nat)
    ensures
        p_var(ts, p, n) == ({
        if !checks(ts, p, TokenType::Identifier) {
            fail(ts[p], "Expect variable name"@, p, n)
        } else {
            let name = ts[p];
            let r: Parsed<Option<Box<SpecExpr>>> = if checks(ts, p + 1, TokenType::Equal) {
                let e = p_expression(ts, p + 2, n);
                if e.result is Err {
                    pass_err(e)
                } else {
                    done(Some(Box::new(e.result->Ok_0)), e.pos, e.next_id)
                }
            } else {
                done(None, p + 1, n)
            };
            if !within(r, p + 1, ts.len() as int) {
                stuck(p, n)
            } else if r.result is Err {
                pass_err(r)
            } else if checks(ts, r.pos, TokenType::Semicolon) {
                done(SpecStmt::Var { name, initializer: r.result->Ok_0 }, r.pos + 1, r.next_id)
            } else {
                fail(ts[r.pos], "Expect ';' after variable declaration"@, r.pos, r.next_id)
            }
        }
        }),
{
}

/// One step of `p_class`.
pub proof fn unfold_class(ts: Seq<Token>, p: int, n: nat)
    ensures
        p_class(ts, p, n) == ({
        if !checks(ts, p, TokenType::Identifier) {
            fail(ts[p], "Expected class name."@, p, n)
        } else {
            let name = ts[p];
            let sc: Parsed<Option<SpecExpr>> = if checks(ts, p + 1, TokenType::Less) {
                if checks(ts, p + 2, TokenType::Identifier) {
                    done(Some(SpecExpr::Variable { name: ts[p + 2], id: n as usize }), p + 3, n + 1)
                } else {
                    fail(ts[p + 2], "Expect superclass name."@, p + 2, n)
                }
            } else {
                done(None, p + 1, n)
            };
            if !within(sc, p + 1, ts.len() as int) {
                stuck(p, n)
            } else if sc.result is Err {
                pass_err(sc)
            } else if !checks(ts, sc.pos, TokenType::LeftBrace) {
                fail(ts[sc.pos], "Expect '{' before class body."@, sc.pos, sc.next_id)
            } else {
                class_body(ts, sc.pos + 1, sc.next_id, name, sc.result->Ok_0)
            }
        }
        }),
{
}

/// One step of `class_body`.
pub proof fn unfold_class_body(ts: Seq<Token>, q: int, n: nat, name: Token, superclass: Option<SpecExpr>)
    ensures
        class_body(ts, q, n, name, superclass) == ({
        let m = methods_loop(ts, q, n, seq![]);
        if !within(m, q, ts.len() as int) {
            stuck(q, n)
        } else if m.result is Err {
            pass_err(m)
        } else if checks(ts, m.pos, TokenType::RightBrace) {
            done(SpecStmt::Class { name, methods: m.result->Ok_0, superclass }, m.pos + 1, m.next_id)
        } else {
            fail(ts[m.pos], "Expect '}' after class body."@, m.pos, m.next_id)
        }
        }),
{
}

/// One step of `methods_loop`.
pub proof fn unfold_methods_loop(ts: Seq<Token>, p: int, n: nat, ms: Seq<SpecStmt>)
    ensures
        methods_loop(ts, p, n, ms) == ({
        if 0 <= p < ts.len() && !checks(ts, p, TokenType::RightBrace) && !is_end(ts, p) {
            let r = p_function(ts, p, n, "method"@);
            if !within(r, p, ts.len() as int) {
                stuck(p, n)
            } else if r.result is Err {
                pass_err(r)
            } else if r.pos <= p {
                stuck(p, n)
            } else {
                methods_loop(ts, r.pos, r.next_id, ms.push(r.result->Ok_0))
            }
        } else {
            done(ms, p, n)
        }
        }),
{
}

/// One step of `params_loop`.
pub proof fn unfold_params_loop(ts: Seq<Token>, p: int, n: nat, name: Token, params: Seq<Token>)
    ensures
        params_loop(ts, p, n, name, params) == ({
        if params.len() >= 255 {
            fail(name, "Can't have more than 255 parameters."@, p, n)
        } else if !checks(ts, p, TokenType::Identifier) {
            fail(ts[p], "Expect parameter name."@, p, n)
        } else if checks(ts, p + 1, TokenType::Comma) {
            params_loop(ts, p + 2, n, name, params.push(ts[p]))
        } else {
            done(params.push(ts[p]), p + 1, n)
        }
        }),
{
}

/// One step of `p_function`.
pub proof fn unfold_function(ts: Seq<Token>, p: int, n: nat, kind: Seq<char>)
    ensures
        p_function(ts, p, n, kind) == ({
        if !checks(ts, p, TokenType::Identifier) {
            fail(ts[p], "Expect "@ + kind + " name."@, p, n)
        } else if !checks(ts, p + 1, TokenType::LeftParen) {
            fail(ts[p + 1], "Expect '(' after "@ + kind + " name."@, p + 1, n)
        } else {
            let name = ts[p];
            let ps: Parsed<Seq<Token>> = if !checks(ts, p + 2, TokenType::RightParen) {
                params_loop(ts, p + 2, n, name, seq![])
            } else {
                done(seq![], p + 2, n)
            };
            if !within(ps, p + 2, ts.len() as int) {
                stuck(p, n)
            } else if ps.result is Err {
                pass_err(ps)
            } else if !checks(ts, ps.pos, TokenType::RightParen) {
                fail(ts[ps.pos], "Expect ')' after parameters."@, ps.pos, ps.next_id)
            } else if !checks(ts, ps.pos + 1, TokenType::LeftBrace) {
                fail(ts[ps.pos + 1], "Expect '{' before "@ + kind + " body."@, ps.pos + 1, ps.next_id)
            } else {
                let b = block_loop(ts, ps.pos + 2, ps.next_id, seq![]);
                if b.result is Err {
                    pass_err(b)
                } else {
                    done(
                        SpecStmt::Function(SpecFuncDecl { name, params: ps.result->Ok_0, body: b.result->Ok_0 }),
                        b.pos,
                        b.next_id,
                    )
                }
            }
        }
        }),
{
}

/// One step of `p_for`.
pub proof fn unfold_for(ts: Seq<Token>, p: int, n: nat)
    ensures
        p_for(ts, p, n) == ({
        if !checks(ts, p, TokenType::LeftParen) {
            fail(ts[p], "Expected '(' after 'for'."@, p, n)
        } else {
            let q = p + 1;
            let init: Parsed<Option<SpecStmt>> = if checks(ts, q, TokenType::Semicolon) {
                done(None, q + 1, n)
            } else if checks(ts, q, TokenType::Var) {
                let v = p_var(ts, q + 1, n);
                if v.result is Err {
                    pass_err(v)
                } else {
                    done(Some(v.result->Ok_0), v.pos, v.next_id)
                }
            } else {
                let v = p_expression_statement(ts, q, n);
                if v.result is Err {
                    pass_err(v)
                } else {
                    done(Some(v.result->Ok_0), v.pos, v.next_id)
                }
            };
            if !within(init, q, ts.len() as int) {
                stuck(p, n)
            } else if init.result is Err {
                pass_err(init)
            } else {
                let q2 = init.pos;
                let cond: Parsed<Option<SpecExpr>> = if !checks(ts, q2, TokenType::Semicolon) {
                    let c = p_expression(ts, q2, init.next_id);
                    if c.result is Err {
                        pass_err(c)
                    } else {
                        done(Some(c.result->Ok_0), c.pos, c.next_id)
                    }
                } else {
                    done(None, q2, init.next_id)
                };
                if !within(cond, q2, ts.len() as int) {
                    stuck(p, n)
                } else if cond.result is Err {
                    pass_err(cond)
                } else if !checks(ts, cond.pos, TokenType::Semicolon) {
                    fail(ts[cond.pos], "Expected ';' after loop condition."@, cond.pos, cond.next_id)
                } else {
                    let q3 = cond.pos + 1;
                    let inc: Parsed<Option<SpecExpr>> = if !checks(ts, q3, TokenType::RightParen) {
                        let c = p_expression(ts, q3, cond.next_id);
                        if c.result is Err {
                            pass_err(c)
                        } else {
                            done(Some(c.result->Ok_0), c.pos, c.next_id)
                        }
                    } else {
                        done(None, q3, cond.next_id)
                    };
                    if !within(inc, q3, ts.len() as int) {
                        stuck(p, n)
                    } else if inc.result is Err {
                        pass_err(inc)
                    } else if !checks(ts, inc.pos, TokenType::RightParen) {
                        fail(ts[inc.pos], "Expected ')' after for clauses."@, inc.pos, inc.next_id)
                    } else {
                        let b = p_statement(ts, inc.pos + 1, inc.next_id);
                        if b.result is Err {
                            b
                        } else {
                            done(
                                desugar_for(init.result->Ok_0, cond.result->Ok_0, inc.result->Ok_0, b.result->Ok_0),
                                b.pos,
                                b.next_id,
                            )
                        }
                    }
                }
            }
        }
        }),
{
}

} // verus!
