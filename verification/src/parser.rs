//! The recursive-descent parser of the tree-walking front end. Each of its
//! rules is proved to produce exactly what the grammar in `grammar` says.
use std::rc::Rc;
use vstd::prelude::*;

use crate::ast::{
    expr_view, exprs_view, lemma_exprs_view_len, lemma_exprs_view_push, lemma_stmts_view_pair,
    lemma_stmts_view_push, opt_expr_view, opt_stmt_view, parse_error, stmt_view, stmts_view, Expr, FuncDecl, ParseError,
    SpecExpr, SpecParseError, SpecStmt, Stmt,
};
use crate::grammar::{
    and_loop, args_loop, assign_target, block_loop, call_loop, checks, comparison_loop, consume_at,
    done, equality_loop, factor_loop, finish_call, is_end, or_loop, p_and, p_assignment, p_call,
    p_comparison, p_declaration, p_equality, p_expression, p_expression_statement, p_factor, p_if,
    class_body, desugar_for, unfold_class_body, p_program, sync_loop, synchronize_from,
    p_or, p_primary, p_print, p_function, p_class, p_for, params_loop, methods_loop,
    unfold_function, unfold_class, unfold_for, unfold_params_loop, unfold_methods_loop, p_return, p_statement, p_term, p_unary, p_var, p_while, term_loop,
    unfold_and, unfold_and_loop, unfold_args_loop, unfold_assignment, unfold_block_loop,
    unfold_call, unfold_call_loop, unfold_comparison, unfold_comparison_loop, unfold_declaration,
    unfold_equality, unfold_equality_loop, unfold_expression, unfold_expression_statement,
    unfold_factor, unfold_factor_loop, unfold_finish_call, unfold_if, unfold_or, unfold_or_loop,
    unfold_primary, unfold_print, unfold_return, unfold_statement, unfold_term, unfold_term_loop,
    unfold_unary, unfold_var, unfold_while, Parsed, for_loop_of, while_condition, lemma_desugar_for_meaning, within, pass_err,
};
use crate::numbering::{lemma_parsed_ids_distinct, numbered, stmts_ids};
use crate::lexer::{lemma_scan_one, lex, lex_from, scan_one, token_views};
use crate::token::{Literal, SpecToken, Token, TokenType};

verus! {

/// A token list the parser can run on: it ends with `EndFile`, and every
/// number or string token carries its literal.
pub open spec fn well_formed_tokens(ts: Seq<Token>) -> bool {
    &&& ts.len() > 0
    &&& ts.last().token_type == TokenType::EndFile
    &&& forall|i: int|
        0 <= i < ts.len() && (ts[i].token_type == TokenType::Num || ts[i].token_type == TokenType::Str)
            ==> (#[trigger] ts[i]).literal is Some
}

/// A token list of the model that the parser can run on.
pub open spec fn well_formed_spec_tokens(ts: Seq<SpecToken>) -> bool {
    &&& ts.len() > 0
    &&& ts.last().token_type == TokenType::EndFile
    &&& forall|i: int|
        0 <= i < ts.len() && (ts[i].token_type == TokenType::Num || ts[i].token_type == TokenType::Str)
            ==> (#[trigger] ts[i]).literal is Some
}

proof fn lemma_lex_from_well_formed(s: Seq<char>, pos: int, line: nat)
    ensures
        well_formed_spec_tokens(lex_from(s, pos, line)),
    decreases s.len() - pos,
{
    if 0 <= pos < s.len() {
        lemma_scan_one(s, pos, line);
        let (np, nl, t) = scan_one(s, pos, line);
        lemma_lex_from_well_formed(s, np, nl);
        let rest = lex_from(s, np, nl);
        if let Some(tok) = t {
            let all = seq![tok] + rest;
            assert(tok.token_type == TokenType::Num || tok.token_type == TokenType::Str ==> tok.literal is Some);
            assert(all.last() == rest.last());
            assert forall|i: int|
                0 <= i < all.len() && (all[i].token_type == TokenType::Num || all[i].token_type == TokenType::Str)
                implies (#[trigger] all[i]).literal is Some by {
                if i > 0 {
                    assert(all[i] == rest[i - 1]);
                }
            }
        }
    }
}

/// The lexer's output is a token list the parser can run on: it ends with
/// the end of input, and every number or string token carries its value.
pub proof fn lemma_lexed_tokens_are_parser_input(s: Seq<char>, ts: Seq<Token>)
    requires
        token_views(ts) == lex(s),
    ensures
        well_formed_tokens(ts),
{
    lemma_lex_from_well_formed(s, 0, 0);
    let sv = token_views(ts);
    assert(sv.len() == ts.len());
    assert forall|i: int| 0 <= i < ts.len() implies #[trigger] sv[i] == ts[i]@ by {}
    assert(ts.last()@ == sv.last());
    assert forall|i: int|
        0 <= i < ts.len() && (ts[i].token_type == TokenType::Num || ts[i].token_type == TokenType::Str)
        implies (#[trigger] ts[i]).literal is Some by {
        assert(sv[i] == ts[i]@);
        assert(sv[i].literal is Some);
    }
}

/// An exec result agrees with a grammar result.
pub open spec fn result_agrees(r: Result<Expr, ParseError>, sr: Result<SpecExpr, SpecParseError>) -> bool {
    match r {
        Ok(e) => sr is Ok && expr_view(e) == sr->Ok_0,
        Err(e) => sr is Err && e@ == sr->Err_0,
    }
}

/// A rule's exec result, position and next id agree with the grammar's.
pub open spec fn expr_agrees(r: Result<Expr, ParseError>, sp: Parsed<SpecExpr>, pos: int, id: nat) -> bool {
    &&& pos == sp.pos
    &&& id == sp.next_id
    &&& result_agrees(r, sp.result)
}

pub open spec fn stmt_agrees(r: Result<Stmt, ParseError>, sp: Parsed<SpecStmt>, pos: int, id: nat) -> bool {
    &&& pos == sp.pos
    &&& id == sp.next_id
    &&& match r {
        Ok(s) => sp.result is Ok && stmt_view(s) == sp.result->Ok_0,
        Err(e) => sp.result is Err && e@ == sp.result->Err_0,
    }
}

pub open spec fn stmts_agree(r: Result<Vec<Stmt>, ParseError>, sp: Parsed<Seq<SpecStmt>>, pos: int, id: nat) -> bool {
    &&& pos == sp.pos
    &&& id == sp.next_id
    &&& match r {
        Ok(s) => sp.result is Ok && stmts_view(s@) == sp.result->Ok_0,
        Err(e) => sp.result is Err && e@ == sp.result->Err_0,
    }
}

pub open spec fn errors_view(es: Seq<ParseError>) -> Seq<SpecParseError> {
    es.map_values(|e: ParseError| e@)
}

/// The expression for `target = value`: an assignment to a variable or a
/// property set; any other target is an error at the `=` token.
fn make_assignment(target: Expr, value: Expr, equals: &Token) -> (r: Result<Expr, ParseError>)
    ensures
        result_agrees(r, assign_target(expr_view(target), expr_view(value), *equals)),
{
    proof {
        reveal(assign_target);
    }
    match target {
        Expr::Variable { name, id } => Ok(Expr::Assign { name, value: Box::new(value), id }),
        Expr::Get { object, name } => Ok(Expr::SetProperty { object, value: Box::new(value), name }),
        _ => Err(parse_error(equals, "Invalid assignment target.".to_string())),
    }
}

/// A `for` loop whose initializer declares a variable and whose condition
/// clause is not empty: the parsed statement is a block that first runs
/// the declaration and then a loop that runs while the condition
/// expression written after the declaration holds.
pub proof fn lemma_for_var_condition_kept(ts: Seq<Token>, p: int, n: nat)
    requires
        0 <= p,
        p + 1 < ts.len(),
        checks(ts, p, TokenType::LeftParen),
        checks(ts, p + 1, TokenType::Var),
        p_var(ts, p + 2, n).result is Ok,
        !checks(ts, p_var(ts, p + 2, n).pos, TokenType::Semicolon),
    ensures
        p_for(ts, p, n).result matches Ok(st) ==> {
            let v = p_var(ts, p + 2, n);
            let c = p_expression(ts, v.pos, v.next_id);
            &&& st is Block
            &&& for_loop_of(st, false)->Block_statements.len() == 2
            &&& for_loop_of(st, false)->Block_statements[0] == v.result->Ok_0
            &&& c.result is Ok
            &&& while_condition(for_loop_of(st, true)) == Some(c.result->Ok_0)
        },
{
    unfold_for(ts, p, n);
    let q = p + 1;
    let v = p_var(ts, q + 1, n);
    assert(!checks(ts, q, TokenType::Semicolon));
    let init: Parsed<Option<SpecStmt>> = done(Some(v.result->Ok_0), v.pos, v.next_id);
    if within(init, q, ts.len() as int) {
        let q2 = init.pos;
        let c = p_expression(ts, q2, init.next_id);
        if c.result is Ok {
            let cond: Parsed<Option<SpecExpr>> = done(Some(c.result->Ok_0), c.pos, c.next_id);
            if within(cond, q2, ts.len() as int) && checks(ts, cond.pos, TokenType::Semicolon) {
                let q3 = cond.pos + 1;
                let inc: Parsed<Option<SpecExpr>> = if !checks(ts, q3, TokenType::RightParen) {
                    let e = p_expression(ts, q3, cond.next_id);
                    if e.result is Err {
                        pass_err(e)
                    } else {
                        done(Some(e.result->Ok_0), e.pos, e.next_id)
                    }
                } else {
                    done(None, q3, cond.next_id)
                };
                if within(inc, q3, ts.len() as int) && inc.result is Ok && checks(ts, inc.pos, TokenType::RightParen) {
                    let b = p_statement(ts, inc.pos + 1, inc.next_id);
                    if b.result is Ok {
                        lemma_desugar_for_meaning(Some(v.result->Ok_0), Some(c.result->Ok_0), inc.result->Ok_0, b.result->Ok_0);
                    }
                }
            }
        }
    }
}

/// The statement a `for` loop stands for (see `desugar_for`).
fn desugar(initializer: Option<Stmt>, condition: Option<Expr>, increment: Option<Expr>, body: Stmt) -> (s: Stmt)
    ensures
        stmt_view(s) == desugar_for(opt_stmt_view(initializer), opt_expr_view(condition), opt_expr_view(increment), stmt_view(body)),
{
    let ghost bv = stmt_view(body);
    let ghost incv = opt_expr_view(increment);
    let ghost condv = opt_expr_view(condition);
    let ghost initv = opt_stmt_view(initializer);
    let body1 = match increment {
        Some(increment) => {
            let statements = vec![body, Stmt::Expression(Box::new(increment))];
            proof {
                lemma_stmts_view_pair(statements@);
            }
            Stmt::Block { statements }
        },
        None => body,
    };
    assert(stmt_view(body1) == match incv {
        Some(i) => SpecStmt::Block { statements: seq![bv, SpecStmt::Expression(Box::new(i))] },
        None => bv,
    });
    let condition = match condition {
        Some(c) => c,
        None => Expr::Literal { value: Literal::Bool(true) },
    };
    let w = Stmt::While { condition, body: Box::new(body1) };
    match initializer {
        Some(initializer) => {
            let statements = vec![initializer, w];
            proof {
                lemma_stmts_view_pair(statements@);
            }
            Stmt::Block { statements }
        },
        None => w,
    }
}

/// Concatenates three pieces of text.
fn concat3(a: &str, b: &str, c: &str) -> (s: String)
    ensures
        s@ == a@ + b@ + c@,
{
    let mut s = a.to_owned();
    s.append(b);
    s.append(c);
    s
}

/// Parses a token list into statements, recovering after each error.
pub struct Parser {
    tokens: Vec<Token>,
    current: usize,
    pub id_counter: usize,
    errors: Vec<ParseError>,
}

impl Parser {
    /// The tokens being parsed.
    pub closed spec fn toks(&self) -> Seq<Token> {
        self.tokens@
    }

    /// The position of the next token to read.
    pub closed spec fn pos(&self) -> int {
        self.current as int
    }

    /// The next free variable id.
    pub closed spec fn next_id(&self) -> nat {
        self.id_counter as nat
    }

    /// The errors met so far, in order.
    pub closed spec fn errs(&self) -> Seq<SpecParseError> {
        errors_view(self.errors@)
    }

    /// The tokens are well formed, the position is within them, and the ids
    /// left cannot run out before the tokens do (each id takes a token).
    pub closed spec fn wf(&self) -> bool {
        &&& well_formed_tokens(self.tokens@)
        &&& self.current < self.tokens@.len()
        &&& self.id_counter + (self.tokens@.len() - self.current) <= usize::MAX
        &&& self.tokens@.len() <= usize::MAX
    }

    closed spec fn keeps(&self, old: &Parser) -> bool {
        &&& self.tokens == old.tokens
        &&& self.errors == old.errors
        &&& old.current <= self.current
    }

    pub fn new(tokens: Vec<Token>) -> (p: Self)
        ensures
            p.toks() == tokens@,
            p.pos() == 0,
            p.next_id() == 0,
            p.errs() == Seq::<SpecParseError>::empty(),
            well_formed_tokens(tokens@) ==> p.wf(),
    {
        let _n = tokens.len();
        let p = Self { tokens, current: 0, id_counter: 0, errors: Vec::new() };
        assert(errors_view(p.errors@) =~= Seq::<SpecParseError>::empty());
        p
    }

    /// The errors met so far.
    pub fn errors(&self) -> (es: &Vec<ParseError>)
        ensures
            errors_view(es@) == self.errs(),
    {
        &self.errors
    }

    // ------------ token ops ------------

    fn peek(&self) -> (t: &Token)
        requires
            self.wf(),
        ensures
            *t == self.tokens@[self.current as int],
    {
        &self.tokens[self.current]
    }

    fn previous(&self) -> (t: &Token)
        requires
            self.wf(),
            self.current >= 1,
        ensures
            *t == self.tokens@[self.current - 1],
    {
        &self.tokens[self.current - 1]
    }

    fn is_at_end(&self) -> (r: bool)
        requires
            self.wf(),
        ensures
            r == is_end(self.tokens@, self.current as int),
    {
        self.peek().token_type == TokenType::EndFile
    }

    fn check(&self, t: TokenType) -> (r: bool)
        requires
            self.wf(),
        ensures
            r == checks(self.tokens@, self.current as int, t),
    {
        if self.is_at_end() {
            return false;
        }
        self.peek().token_type == t
    }

    fn advance(&mut self)
        requires
            old(self).wf(),
        ensures
            final(self).wf(),
            final(self).keeps(old(self)),
            final(self).id_counter == old(self).id_counter,
            final(self).current == if is_end(old(self).tokens@, old(self).current as int) {
                old(self).current as int
            } else {
                old(self).current + 1
            },
    {
        if !self.is_at_end() {
            self.current = self.current + 1;
        }
    }

    fn match_one(&mut self, t: TokenType) -> (r: bool)
        requires
            old(self).wf(),
        ensures
            final(self).wf(),
            final(self).keeps(old(self)),
            final(self).id_counter == old(self).id_counter,
            r == checks(old(self).tokens@, old(self).current as int, t),
            final(self).current == if r { old(self).current + 1 } else { old(self).current as int },
    {
        if self.check(t) {
            self.advance();
            return true;
        }
        false
    }

    fn match_two(&mut self, t1: TokenType, t2: TokenType) -> (r: bool)
        requires
            old(self).wf(),
        ensures
            final(self).wf(),
            final(self).keeps(old(self)),
            final(self).id_counter == old(self).id_counter,
            r == (checks(old(self).tokens@, old(self).current as int, t1) || checks(old(self).tokens@, old(self).current as int, t2)),
            final(self).current == if r { old(self).current + 1 } else { old(self).current as int },
    {
        if self.match_one(t1) {
            return true;
        }
        self.match_one(t2)
    }

    /// Consumes a token of kind `ty`, or fails with `msg` at the token found.
    fn consume(&mut self, ty: TokenType, msg: String) -> (r: Result<Token, ParseError>)
        requires
            old(self).wf(),
        ensures
            final(self).wf(),
            final(self).keeps(old(self)),
            final(self).id_counter == old(self).id_counter,
            ({
                let c = consume_at(old(self).tokens@, old(self).current as int, old(self).id_counter as nat, ty, msg@);
                &&& final(self).current == c.pos
                &&& match r {
                    Ok(t) => c.result is Ok && t == old(self).tokens@[old(self).current as int],
                    Err(e) => c.result is Err && e@ == c.result->Err_0,
                }
            }),
    {
        if self.check(ty) {
            let t = self.peek().clone();
            self.advance();
            return Ok(t);
        }
        Err(parse_error(self.peek(), msg))
    }
}


impl Parser {
    fn expression(&mut self) -> (r: Result<Expr, ParseError>)
        requires
            old(self).wf(),
        ensures
            final(self).wf(),
            final(self).keeps(old(self)),
            expr_agrees(r, p_expression(old(self).tokens@, old(self).current as int, old(self).id_counter as nat), final(self).current as int, final(self).id_counter as nat),
        decreases self.tokens@.len() - self.current, 30nat,
    {
        proof {
            unfold_expression(self.tokens@, self.current as int, self.id_counter as nat);
        }
        self.assignment()
    }

    fn assignment(&mut self) -> (r: Result<Expr, ParseError>)
        requires
            old(self).wf(),
        ensures
            final(self).wf(),
            final(self).keeps(old(self)),
            expr_agrees(r, p_assignment(old(self).tokens@, old(self).current as int, old(self).id_counter as nat), final(self).current as int, final(self).id_counter as nat),
        decreases self.tokens@.len() - self.current, 29nat,
    {
        proof {
            unfold_assignment(self.tokens@, self.current as int, self.id_counter as nat);
        }
        let expr = match self.or() {
            Ok(e) => e,
            Err(e) => return Err(e),
        };
        if self.match_one(TokenType::Equal) {
            let equals = self.previous().clone();
            let value = match self.assignment() {
                Ok(v) => v,
                Err(e) => return Err(e),
            };
            return make_assignment(expr, value, &equals);
        }
        Ok(expr)
    }

    fn or(&mut self) -> (r: Result<Expr, ParseError>)
        requires
            old(self).wf(),
        ensures
            final(self).wf(),
            final(self).keeps(old(self)),
            expr_agrees(r, p_or(old(self).tokens@, old(self).current as int, old(self).id_counter as nat), final(self).current as int, final(self).id_counter as nat),
        decreases self.tokens@.len() - self.current, 28nat,
    {
        let ghost ts = self.tokens@;
        let ghost p0 = self.current as int;
        let ghost n0 = self.id_counter as nat;
        proof {
            lemma_parsed_ids_distinct(ts, p0, n0);
        }
        proof {
            unfold_or(ts, p0, n0);
        }
        let mut expr = match self.and() {
            Ok(e) => e,
            Err(e) => return Err(e),
        };
        loop
            invariant
                self.wf(),
                self.keeps(old(self)),
                ts == self.tokens@,
                p0 == old(self).current,
                n0 == old(self).id_counter,
                p_or(ts, p0, n0) == or_loop(ts, self.current as int, self.id_counter as nat, expr_view(expr)),
            decreases ts.len() - self.current,
        {
            proof {
                unfold_or_loop(ts, self.current as int, self.id_counter as nat, expr_view(expr));
            }
            if !self.match_one(TokenType::Or) {
                return Ok(expr);
            }
            let op = self.previous().clone();
            let right = match self.and() {
                Ok(e) => e,
                Err(e) => return Err(e),
            };
            expr = Expr::Logical { left: Box::new(expr), operator: op, right: Box::new(right) };
        }
    }

    fn and(&mut self) -> (r: Result<Expr, ParseError>)
        requires
            old(self).wf(),
        ensures
            final(self).wf(),
            final(self).keeps(old(self)),
            expr_agrees(r, p_and(old(self).tokens@, old(self).current as int, old(self).id_counter as nat), final(self).current as int, final(self).id_counter as nat),
        decreases self.tokens@.len() - self.current, 26nat,
    {
        let ghost ts = self.tokens@;
        let ghost p0 = self.current as int;
        let ghost n0 = self.id_counter as nat;
        proof {
            lemma_parsed_ids_distinct(ts, p0, n0);
        }
        proof {
            unfold_and(ts, p0, n0);
        }
        let mut expr = match self.equality() {
            Ok(e) => e,
            Err(e) => return Err(e),
        };
        loop
            invariant
                self.wf(),
                self.keeps(old(self)),
                ts == self.tokens@,
                p0 == old(self).current,
                n0 == old(self).id_counter,
                p_and(ts, p0, n0) == and_loop(ts, self.current as int, self.id_counter as nat, expr_view(expr)),
            decreases ts.len() - self.current,
        {
            proof {
                unfold_and_loop(ts, self.current as int, self.id_counter as nat, expr_view(expr));
            }
            if !self.match_one(TokenType::And) {
                return Ok(expr);
            }
            let op = self.previous().clone();
            let right = match self.equality() {
                Ok(e) => e,
                Err(e) => return Err(e),
            };
            expr = Expr::Logical { left: Box::new(expr), operator: op, right: Box::new(right) };
        }
    }

    fn equality(&mut self) -> (r: Result<Expr, ParseError>)
        requires
            old(self).wf(),
        ensures
            final(self).wf(),
            final(self).keeps(old(self)),
            expr_agrees(r, p_equality(old(self).tokens@, old(self).current as int, old(self).id_counter as nat), final(self).current as int, final(self).id_counter as nat),
        decreases self.tokens@.len() - self.current, 24nat,
    {
        let ghost ts = self.tokens@;
        let ghost p0 = self.current as int;
        let ghost n0 = self.id_counter as nat;
        proof {
            lemma_parsed_ids_distinct(ts, p0, n0);
        }
        proof {
            unfold_equality(ts, p0, n0);
        }
        let mut expr = match self.comparison() {
            Ok(e) => e,
            Err(e) => return Err(e),
        };
        loop
            invariant
                self.wf(),
                self.keeps(old(self)),
                ts == self.tokens@,
                p0 == old(self).current,
                n0 == old(self).id_counter,
                p_equality(ts, p0, n0) == equality_loop(ts, self.current as int, self.id_counter as nat, expr_view(expr)),
            decreases ts.len() - self.current,
        {
            proof {
                unfold_equality_loop(ts, self.current as int, self.id_counter as nat, expr_view(expr));
            }
            if !self.match_two(TokenType::BangEqual, TokenType::EqualEqual) {
                return Ok(expr);
            }
            let op = self.previous().clone();
            let right = match self.comparison() {
                Ok(e) => e,
                Err(e) => return Err(e),
            };
            expr = Expr::Binary { left: Box::new(expr), operator: op, right: Box::new(right) };
        }
    }

    fn comparison(&mut self) -> (r: Result<Expr, ParseError>)
        requires
            old(self).wf(),
        ensures
            final(self).wf(),
            final(self).keeps(old(self)),
            expr_agrees(r, p_comparison(old(self).tokens@, old(self).current as int, old(self).id_counter as nat), final(self).current as int, final(self).id_counter as nat),
        decreases self.tokens@.len() - self.current, 22nat,
    {
        let ghost ts = self.tokens@;
        let ghost p0 = self.current as int;
        let ghost n0 = self.id_counter as nat;
        proof {
            lemma_parsed_ids_distinct(ts, p0, n0);
        }
        proof {
            unfold_comparison(ts, p0, n0);
        }
        let mut expr = match self.term() {
            Ok(e) => e,
            Err(e) => return Err(e),
        };
        loop
            invariant
                self.wf(),
                self.keeps(old(self)),
                ts == self.tokens@,
                p0 == old(self).current,
                n0 == old(self).id_counter,
                p_comparison(ts, p0, n0) == comparison_loop(ts, self.current as int, self.id_counter as nat, expr_view(expr)),
            decreases ts.len() - self.current,
        {
            proof {
                unfold_comparison_loop(ts, self.current as int, self.id_counter as nat, expr_view(expr));
            }
            if !(self.match_two(TokenType::Greater, TokenType::GreaterEqual) || self.match_two(TokenType::Less, TokenType::LessEqual)) {
                return Ok(expr);
            }
            let op = self.previous().clone();
            let right = match self.term() {
                Ok(e) => e,
                Err(e) => return Err(e),
            };
            expr = Expr::Binary { left: Box::new(expr), operator: op, right: Box::new(right) };
        }
    }

    fn term(&mut self) -> (r: Result<Expr, ParseError>)
        requires
            old(self).wf(),
        ensures
            final(self).wf(),
            final(self).keeps(old(self)),
            expr_agrees(r, p_term(old(self).tokens@, old(self).current as int, old(self).id_counter as nat), final(self).current as int, final(self).id_counter as nat),
        decreases self.tokens@.len() - self.current, 20nat,
    {
        let ghost ts = self.tokens@;
        let ghost p0 = self.current as int;
        let ghost n0 = self.id_counter as nat;
        proof {
            lemma_parsed_ids_distinct(ts, p0, n0);
        }
        proof {
            unfold_term(ts, p0, n0);
        }
        let mut expr = match self.factor() {
            Ok(e) => e,
            Err(e) => return Err(e),
        };
        loop
            invariant
                self.wf(),
                self.keeps(old(self)),
                ts == self.tokens@,
                p0 == old(self).current,
                n0 == old(self).id_counter,
                p_term(ts, p0, n0) == term_loop(ts, self.current as int, self.id_counter as nat, expr_view(expr)),
            decreases ts.len() - self.current,
        {
            proof {
                unfold_term_loop(ts, self.current as int, self.id_counter as nat, expr_view(expr));
            }
            if !self.match_two(TokenType::Minus, TokenType::Plus) {
                return Ok(expr);
            }
            let op = self.previous().clone();
            let right = match self.factor() {
                Ok(e) => e,
                Err(e) => return Err(e),
            };
            expr = Expr::Binary { left: Box::new(expr), operator: op, right: Box::new(right) };
        }
    }

    fn factor(&mut self) -> (r: Result<Expr, ParseError>)
        requires
            old(self).wf(),
        ensures
            final(self).wf(),
            final(self).keeps(old(self)),
            expr_agrees(r, p_factor(old(self).tokens@, old(self).current as int, old(self).id_counter as nat), final(self).current as int, final(self).id_counter as nat),
        decreases self.tokens@.len() - self.current, 18nat,
    {
        let ghost ts = self.tokens@;
        let ghost p0 = self.current as int;
        let ghost n0 = self.id_counter as nat;
        proof {
            lemma_parsed_ids_distinct(ts, p0, n0);
        }
        proof {
            unfold_factor(ts, p0, n0);
        }
        let mut expr = match self.unary() {
            Ok(e) => e,
            Err(e) => return Err(e),
        };
        loop
            invariant
                self.wf(),
                self.keeps(old(self)),
                ts == self.tokens@,
                p0 == old(self).current,
                n0 == old(self).id_counter,
                p_factor(ts, p0, n0) == factor_loop(ts, self.current as int, self.id_counter as nat, expr_view(expr)),
            decreases ts.len() - self.current,
        {
            proof {
                unfold_factor_loop(ts, self.current as int, self.id_counter as nat, expr_view(expr));
            }
            if !self.match_two(TokenType::Slash, TokenType::Star) {
                return Ok(expr);
            }
            let op = self.previous().clone();
            let right = match self.unary() {
                Ok(e) => e,
                Err(e) => return Err(e),
            };
            expr = Expr::Binary { left: Box::new(expr), operator: op, right: Box::new(right) };
        }
    }

    fn unary(&mut self) -> (r: Result<Expr, ParseError>)
        requires
            old(self).wf(),
        ensures
            final(self).wf(),
            final(self).keeps(old(self)),
            expr_agrees(r, p_unary(old(self).tokens@, old(self).current as int, old(self).id_counter as nat), final(self).current as int, final(self).id_counter as nat),
        decreases self.tokens@.len() - self.current, 16nat,
    {
        proof {
            unfold_unary(self.tokens@, self.current as int, self.id_counter as nat);
        }
        if self.match_two(TokenType::Bang, TokenType::Minus) {
            let op = self.previous().clone();
            let right = match self.unary() {
                Ok(e) => e,
                Err(e) => return Err(e),
            };
            return Ok(Expr::Unary { operator: op, right: Box::new(right) });
        }
        self.call()
    }

    fn call(&mut self) -> (r: Result<Expr, ParseError>)
        requires
            old(self).wf(),
        ensures
            final(self).wf(),
            final(self).keeps(old(self)),
            expr_agrees(r, p_call(old(self).tokens@, old(self).current as int, old(self).id_counter as nat), final(self).current as int, final(self).id_counter as nat),
        decreases self.tokens@.len() - self.current, 15nat,
    {
        let ghost ts = self.tokens@;
        let ghost p0 = self.current as int;
        let ghost n0 = self.id_counter as nat;
        proof {
            lemma_parsed_ids_distinct(ts, p0, n0);
        }
        proof {
            unfold_call(ts, p0, n0);
        }
        let mut expr = match self.primary() {
            Ok(e) => e,
            Err(e) => return Err(e),
        };
        loop
            invariant
                self.wf(),
                self.keeps(old(self)),
                ts == self.tokens@,
                p0 == old(self).current,
                n0 == old(self).id_counter,
                p_call(ts, p0, n0) == call_loop(ts, self.current as int, self.id_counter as nat, expr_view(expr)),
            decreases ts.len() - self.current,
        {
            proof {
                unfold_call_loop(ts, self.current as int, self.id_counter as nat, expr_view(expr));
            }
            if self.match_one(TokenType::LeftParen) {
                expr = match self.finish_call(expr) {
                    Ok(e) => e,
                    Err(e) => return Err(e),
                };
            } else if self.match_one(TokenType::Dot) {
                let name = match self.consume(TokenType::Identifier, "Expect property name after '.'.".to_string()) {
                    Ok(t) => t,
                    Err(e) => return Err(e),
                };
                expr = Expr::Get { object: Box::new(expr), name };
            } else {
                return Ok(expr);
            }
        }
    }

    fn finish_call(&mut self, callee: Expr) -> (r: Result<Expr, ParseError>)
        requires
            old(self).wf(),
        ensures
            final(self).wf(),
            final(self).keeps(old(self)),
            expr_agrees(r, finish_call(old(self).tokens@, old(self).current as int, old(self).id_counter as nat, expr_view(callee)), final(self).current as int, final(self).id_counter as nat),
        decreases self.tokens@.len() - self.current, 32nat,
    {
        let ghost ts = self.tokens@;
        let ghost p0 = self.current as int;
        let ghost n0 = self.id_counter as nat;
        proof {
            lemma_parsed_ids_distinct(ts, p0, n0);
        }
        proof {
            unfold_finish_call(ts, p0, n0, expr_view(callee));
        }
        let mut arguments: Vec<Expr> = Vec::new();
        if !self.check(TokenType::RightParen) {
            loop
                invariant_except_break
                    args_loop(ts, p0, n0, seq![]) == args_loop(ts, self.current as int, self.id_counter as nat, exprs_view(arguments@)),
                invariant
                    self.wf(),
                    self.keeps(old(self)),
                    ts == self.tokens@,
                    p0 == old(self).current,
                    n0 == old(self).id_counter,
                    !checks(ts, p0, TokenType::RightParen),
                ensures
                    args_loop(ts, p0, n0, seq![]) == done(exprs_view(arguments@), self.current as int, self.id_counter as nat),
                decreases ts.len() - self.current,
            {
                let ghost args = exprs_view(arguments@);
                proof {
                    unfold_args_loop(ts, self.current as int, self.id_counter as nat, args);
                    unfold_finish_call(ts, p0, n0, expr_view(callee));
                }
                if arguments.len() >= 255 {
                    proof {
                        lemma_exprs_view_len(arguments@);
                    }
                    return Err(parse_error(self.peek(), "Can't have more than 255 arguments.".to_string()));
                }
                proof {
                    lemma_exprs_view_len(arguments@);
                }
                let e = match self.expression() {
                    Ok(e) => e,
                    Err(e) => return Err(e),
                };
                proof {
                    lemma_exprs_view_push(arguments@, e);
                }
                arguments.push(e);
                if !self.match_one(TokenType::Comma) {
                    break;
                }
            }
        } else {
            assert(exprs_view(arguments@) =~= Seq::<SpecExpr>::empty());
        }
        let paren = match self.consume(TokenType::RightParen, "Expect ')' after arguments.".to_string()) {
            Ok(t) => t,
            Err(e) => return Err(e),
        };
        Ok(Expr::Call { callee: Box::new(callee), paren, args: arguments })
    }

    fn primary(&mut self) -> (r: Result<Expr, ParseError>)
        requires
            old(self).wf(),
        ensures
            final(self).wf(),
            final(self).keeps(old(self)),
            expr_agrees(r, p_primary(old(self).tokens@, old(self).current as int, old(self).id_counter as nat), final(self).current as int, final(self).id_counter as nat),
        decreases self.tokens@.len() - self.current, 13nat,
    {
        proof {
            unfold_primary(self.tokens@, self.current as int, self.id_counter as nat);
        }
        if self.match_one(TokenType::False) {
            return Ok(Expr::Literal { value: Literal::Bool(false) });
        }
        if self.match_one(TokenType::True) {
            return Ok(Expr::Literal { value: Literal::Bool(true) });
        }
        if self.match_one(TokenType::Nil) {
            return Ok(Expr::Literal { value: Literal::Nil });
        }
        if self.match_one(TokenType::Super) {
            let keyword = self.previous().clone();
            match self.consume(TokenType::Dot, "Expect '.' after 'super'.".to_string()) {
                Ok(_) => {},
                Err(e) => return Err(e),
            }
            let method = match self.consume(TokenType::Identifier, "Expect superclass method name.".to_string()) {
                Ok(t) => t,
                Err(e) => return Err(e),
            };
            self.id_counter = self.id_counter + 1;
            return Ok(Expr::Super { keyword, method, id: self.id_counter - 1 });
        }
        if self.match_one(TokenType::This) {
            self.id_counter = self.id_counter + 1;
            return Ok(Expr::This { keyword: self.previous().clone(), id: self.id_counter - 1 });
        }
        if self.match_two(TokenType::Num, TokenType::Str) {
            let value = match &self.previous().literal {
                Some(l) => l.clone(),
                None => {
                    proof {
                        assert(false);
                    }
                    Literal::Nil
                },
            };
            return Ok(Expr::Literal { value });
        }
        if self.match_one(TokenType::LeftParen) {
            let expr = match self.expression() {
                Ok(e) => e,
                Err(e) => return Err(e),
            };
            match self.consume(TokenType::RightParen, "Expect ')' after expression.".to_string()) {
                Ok(_) => {},
                Err(e) => return Err(e),
            }
            return Ok(Expr::Grouping { expression: Box::new(expr) });
        }
        if self.match_one(TokenType::Identifier) {
            self.id_counter = self.id_counter + 1;
            return Ok(Expr::Variable { name: self.previous().clone(), id: self.id_counter - 1 });
        }
        Err(parse_error(self.peek(), "Expect expression.".to_string()))
    }
}

impl Parser {
    fn declaration(&mut self) -> (r: Result<Stmt, ParseError>)
        requires
            old(self).wf(),
        ensures
            final(self).wf(),
            final(self).keeps(old(self)),
            stmt_agrees(r, p_declaration(old(self).tokens@, old(self).current as int, old(self).id_counter as nat), final(self).current as int, final(self).id_counter as nat),
            r is Ok ==> old(self).current < final(self).current,
        decreases self.tokens@.len() - self.current, 9nat,
    {
        proof {
            unfold_declaration(self.tokens@, self.current as int, self.id_counter as nat);
        }
        if self.match_one(TokenType::Fun) {
            return self.function("function");
        }
        if self.match_one(TokenType::Class) {
            return self.class_declaration();
        }
        if self.match_one(TokenType::Var) {
            return self.var_declaration();
        }
        self.statement()
    }

    fn statement(&mut self) -> (r: Result<Stmt, ParseError>)
        requires
            old(self).wf(),
        ensures
            final(self).wf(),
            final(self).keeps(old(self)),
            stmt_agrees(r, p_statement(old(self).tokens@, old(self).current as int, old(self).id_counter as nat), final(self).current as int, final(self).id_counter as nat),
            r is Ok ==> old(self).current < final(self).current,
        decreases self.tokens@.len() - self.current, 8nat,
    {
        proof {
            unfold_statement(self.tokens@, self.current as int, self.id_counter as nat);
        }
        if self.match_one(TokenType::Print) {
            return self.print_statement();
        }
        if self.match_one(TokenType::Return) {
            return self.return_statement();
        }
        if self.match_one(TokenType::LeftBrace) {
            let statements = match self.block_statement() {
                Ok(s) => s,
                Err(e) => return Err(e),
            };
            return Ok(Stmt::Block { statements });
        }
        if self.match_one(TokenType::If) {
            return self.if_statement();
        }
        if self.match_one(TokenType::While) {
            return self.while_statement();
        }
        if self.match_one(TokenType::For) {
            return self.desugaring_for();
        }
        self.expression_statement()
    }

    fn print_statement(&mut self) -> (r: Result<Stmt, ParseError>)
        requires
            old(self).wf(),
        ensures
            final(self).wf(),
            final(self).keeps(old(self)),
            stmt_agrees(r, p_print(old(self).tokens@, old(self).current as int, old(self).id_counter as nat), final(self).current as int, final(self).id_counter as nat),
            r is Ok ==> old(self).current < final(self).current,
    {
        proof {
            unfold_print(self.tokens@, self.current as int, self.id_counter as nat);
        }
        let expr = match self.expression() {
            Ok(e) => e,
            Err(e) => return Err(e),
        };
        match self.consume(TokenType::Semicolon, "Expect ';' after value.".to_string()) {
            Ok(_) => {},
            Err(e) => return Err(e),
        }
        Ok(Stmt::Print(Box::new(expr)))
    }

    fn expression_statement(&mut self) -> (r: Result<Stmt, ParseError>)
        requires
            old(self).wf(),
        ensures
            final(self).wf(),
            final(self).keeps(old(self)),
            stmt_agrees(r, p_expression_statement(old(self).tokens@, old(self).current as int, old(self).id_counter as nat), final(self).current as int, final(self).id_counter as nat),
            r is Ok ==> old(self).current < final(self).current,
    {
        proof {
            unfold_expression_statement(self.tokens@, self.current as int, self.id_counter as nat);
        }
        let expr = match self.expression() {
            Ok(e) => e,
            Err(e) => return Err(e),
        };
        match self.consume(TokenType::Semicolon, "Expect ';' after value.".to_string()) {
            Ok(_) => {},
            Err(e) => return Err(e),
        }
        Ok(Stmt::Expression(Box::new(expr)))
    }

    fn block_statement(&mut self) -> (r: Result<Vec<Stmt>, ParseError>)
        requires
            old(self).wf(),
        ensures
            final(self).wf(),
            final(self).keeps(old(self)),
            stmts_agree(r, block_loop(old(self).tokens@, old(self).current as int, old(self).id_counter as nat, seq![]), final(self).current as int, final(self).id_counter as nat),
            r is Ok ==> old(self).current < final(self).current,
        decreases self.tokens@.len() - self.current, 10nat,
    {
        let ghost ts = self.tokens@;
        let ghost p0 = self.current as int;
        let ghost n0 = self.id_counter as nat;
        proof {
            lemma_parsed_ids_distinct(ts, p0, n0);
        }
        let mut statements: Vec<Stmt> = Vec::new();
        assert(stmts_view(statements@) =~= Seq::<SpecStmt>::empty());
        loop
            invariant
                self.wf(),
                self.keeps(old(self)),
                ts == self.tokens@,
                p0 == old(self).current,
                n0 == old(self).id_counter,
                block_loop(ts, p0, n0, seq![]) == block_loop(ts, self.current as int, self.id_counter as nat, stmts_view(statements@)),
            decreases ts.len() - self.current,
        {
            proof {
                unfold_block_loop(ts, self.current as int, self.id_counter as nat, stmts_view(statements@));
            }
            if self.check(TokenType::RightBrace) || self.is_at_end() {
                match self.consume(TokenType::RightBrace, "Expect '}' after block.".to_string()) {
                    Ok(_) => {},
                    Err(e) => return Err(e),
                }
                return Ok(statements);
            }
            let d = match self.declaration() {
                Ok(s) => s,
                Err(e) => return Err(e),
            };
            proof {
                lemma_stmts_view_push(statements@, d);
            }
            statements.push(d);
        }
    }

    fn if_statement(&mut self) -> (r: Result<Stmt, ParseError>)
        requires
            old(self).wf(),
        ensures
            final(self).wf(),
            final(self).keeps(old(self)),
            stmt_agrees(r, p_if(old(self).tokens@, old(self).current as int, old(self).id_counter as nat), final(self).current as int, final(self).id_counter as nat),
            r is Ok ==> old(self).current < final(self).current,
        decreases self.tokens@.len() - self.current, 1nat,
    {
        proof {
            unfold_if(self.tokens@, self.current as int, self.id_counter as nat);
        }
        match self.consume(TokenType::LeftParen, "Expect '(' after 'if'.".to_string()) {
            Ok(_) => {},
            Err(e) => return Err(e),
        }
        let condition = match self.expression() {
            Ok(e) => e,
            Err(e) => return Err(e),
        };
        match self.consume(TokenType::RightParen, "Expect ')' after if condition.".to_string()) {
            Ok(_) => {},
            Err(e) => return Err(e),
        }
        let then_branch = match self.statement() {
            Ok(s) => s,
            Err(e) => return Err(e),
        };
        let else_branch = if self.match_one(TokenType::Else) {
            match self.statement() {
                Ok(s) => Some(Box::new(s)),
                Err(e) => return Err(e),
            }
        } else {
            None
        };
        Ok(Stmt::If { condition, then_branch: Box::new(then_branch), else_branch })
    }

    fn while_statement(&mut self) -> (r: Result<Stmt, ParseError>)
        requires
            old(self).wf(),
        ensures
            final(self).wf(),
            final(self).keeps(old(self)),
            stmt_agrees(r, p_while(old(self).tokens@, old(self).current as int, old(self).id_counter as nat), final(self).current as int, final(self).id_counter as nat),
            r is Ok ==> old(self).current < final(self).current,
        decreases self.tokens@.len() - self.current, 1nat,
    {
        proof {
            unfold_while(self.tokens@, self.current as int, self.id_counter as nat);
        }
        match self.consume(TokenType::LeftParen, "Expect '(' after 'while'.".to_string()) {
            Ok(_) => {},
            Err(e) => return Err(e),
        }
        let condition = match self.expression() {
            Ok(e) => e,
            Err(e) => return Err(e),
        };
        match self.consume(TokenType::RightParen, "Expect ')' after 'while'.".to_string()) {
            Ok(_) => {},
            Err(e) => return Err(e),
        }
        let body = match self.statement() {
            Ok(s) => s,
            Err(e) => return Err(e),
        };
        Ok(Stmt::While { condition, body: Box::new(body) })
    }

    /// A return statement; its keyword is the token just read.
    fn return_statement(&mut self) -> (r: Result<Stmt, ParseError>)
        requires
            old(self).wf(),
            old(self).current >= 1,
        ensures
            final(self).wf(),
            final(self).keeps(old(self)),
            stmt_agrees(r, p_return(old(self).tokens@, old(self).current as int, old(self).id_counter as nat), final(self).current as int, final(self).id_counter as nat),
            r is Ok ==> old(self).current < final(self).current,
    {
        proof {
            unfold_return(self.tokens@, self.current as int, self.id_counter as nat);
        }
        let keyword = self.previous().clone();
        let mut value: Option<Expr> = None;
        if !self.check(TokenType::Semicolon) {
            value = match self.expression() {
                Ok(e) => Some(e),
                Err(e) => return Err(e),
            };
        }
        match self.consume(TokenType::Semicolon, "Expect ';' after return value.".to_string()) {
            Ok(_) => {},
            Err(e) => return Err(e),
        }
        Ok(Stmt::Return { keyword, value })
    }

    fn var_declaration(&mut self) -> (r: Result<Stmt, ParseError>)
        requires
            old(self).wf(),
        ensures
            final(self).wf(),
            final(self).keeps(old(self)),
            stmt_agrees(r, p_var(old(self).tokens@, old(self).current as int, old(self).id_counter as nat), final(self).current as int, final(self).id_counter as nat),
            r is Ok ==> old(self).current < final(self).current,
    {
        proof {
            unfold_var(self.tokens@, self.current as int, self.id_counter as nat);
        }
        let name = match self.consume(TokenType::Identifier, "Expect variable name".to_string()) {
            Ok(t) => t,
            Err(e) => return Err(e),
        };
        let initializer = if self.match_one(TokenType::Equal) {
            match self.expression() {
                Ok(e) => Some(Box::new(e)),
                Err(e) => return Err(e),
            }
        } else {
            None
        };
        match self.consume(TokenType::Semicolon, "Expect ';' after variable declaration".to_string()) {
            Ok(_) => {},
            Err(e) => return Err(e),
        }
        Ok(Stmt::Var { name, initializer })
    }
}

impl Parser {
    /// A function (or method) declaration, from its name; `kind` names it in
    /// the error messages.
    fn function(&mut self, kind: &str) -> (r: Result<Stmt, ParseError>)
        requires
            old(self).wf(),
        ensures
            final(self).wf(),
            final(self).keeps(old(self)),
            stmt_agrees(r, p_function(old(self).tokens@, old(self).current as int, old(self).id_counter as nat, kind@), final(self).current as int, final(self).id_counter as nat),
            r is Ok ==> old(self).current < final(self).current,
        decreases self.tokens@.len() - self.current, 2nat,
    {
        let ghost ts = self.tokens@;
        let ghost p0 = self.current as int;
        let ghost n0 = self.id_counter as nat;
        proof {
            lemma_parsed_ids_distinct(ts, p0, n0);
        }
        proof {
            unfold_function(ts, p0, n0, kind@);
        }
        let name = match self.consume(TokenType::Identifier, concat3("Expect ", kind, " name.")) {
            Ok(t) => t,
            Err(e) => return Err(e),
        };
        match self.consume(TokenType::LeftParen, concat3("Expect '(' after ", kind, " name.")) {
            Ok(_) => {},
            Err(e) => return Err(e),
        }
        let ghost q0 = self.current as int;
        let mut parameters: Vec<Token> = Vec::new();
        if !self.check(TokenType::RightParen) {
            loop
                invariant_except_break
                    params_loop(ts, q0, n0, name, seq![]) == params_loop(ts, self.current as int, self.id_counter as nat, name, parameters@),
                invariant
                    self.wf(),
                    self.keeps(old(self)),
                    ts == self.tokens@,
                    p0 == old(self).current,
                    n0 == old(self).id_counter,
                    n0 == self.id_counter,
                    q0 == p0 + 2,
                    q0 <= self.current,
                    name == ts[p0],
                    checks(ts, p0, TokenType::Identifier),
                    checks(ts, p0 + 1, TokenType::LeftParen),
                    !checks(ts, q0, TokenType::RightParen),
                ensures
                    params_loop(ts, q0, n0, name, seq![]) == done(parameters@, self.current as int, self.id_counter as nat),
                decreases ts.len() - self.current,
            {
                proof {
                    unfold_params_loop(ts, self.current as int, self.id_counter as nat, name, parameters@);
                    unfold_function(ts, p0, n0, kind@);
                }
                if parameters.len() >= 255 {
                    return Err(parse_error(&name, "Can't have more than 255 parameters.".to_string()));
                }
                let param = match self.consume(TokenType::Identifier, "Expect parameter name.".to_string()) {
                    Ok(t) => t,
                    Err(e) => return Err(e),
                };
                parameters.push(param);
                if !self.match_one(TokenType::Comma) {
                    break;
                }
            }
        }
        match self.consume(TokenType::RightParen, "Expect ')' after parameters.".to_string()) {
            Ok(_) => {},
            Err(e) => return Err(e),
        }
        match self.consume(TokenType::LeftBrace, concat3("Expect '{' before ", kind, " body.")) {
            Ok(_) => {},
            Err(e) => return Err(e),
        }
        let body = match self.block_statement() {
            Ok(b) => b,
            Err(e) => return Err(e),
        };
        Ok(Stmt::Function(Rc::new(FuncDecl { name, params: parameters, body })))
    }
}

impl Parser {
    fn class_declaration(&mut self) -> (r: Result<Stmt, ParseError>)
        requires
            old(self).wf(),
        ensures
            final(self).wf(),
            final(self).keeps(old(self)),
            stmt_agrees(r, p_class(old(self).tokens@, old(self).current as int, old(self).id_counter as nat), final(self).current as int, final(self).id_counter as nat),
            r is Ok ==> old(self).current < final(self).current,
        decreases self.tokens@.len() - self.current, 1nat,
    {
        let ghost ts = self.tokens@;
        let ghost p0 = self.current as int;
        let ghost n0 = self.id_counter as nat;
        proof {
            lemma_parsed_ids_distinct(ts, p0, n0);
        }
        proof {
            unfold_class(ts, p0, n0);
        }
        let name = match self.consume(TokenType::Identifier, "Expected class name.".to_string()) {
            Ok(t) => t,
            Err(e) => return Err(e),
        };
        let mut superclass: Option<Expr> = None;
        if self.match_one(TokenType::Less) {
            match self.consume(TokenType::Identifier, "Expect superclass name.".to_string()) {
                Ok(_) => {},
                Err(e) => return Err(e),
            }
            self.id_counter = self.id_counter + 1;
            superclass = Some(Expr::Variable { name: self.previous().clone(), id: self.id_counter - 1 });
        }
        match self.consume(TokenType::LeftBrace, "Expect '{' before class body.".to_string()) {
            Ok(_) => {},
            Err(e) => return Err(e),
        }
        let ghost q0 = self.current as int;
        let ghost m0 = self.id_counter as nat;
        let ghost sc = opt_expr_view(superclass);
        assert(p_class(ts, p0, n0) == class_body(ts, q0, m0, name, sc));
        let mut methods: Vec<Stmt> = Vec::new();
        assert(stmts_view(methods@) =~= Seq::<SpecStmt>::empty());
        loop
            invariant
                self.wf(),
                self.keeps(old(self)),
                ts == self.tokens@,
                p0 == old(self).current,
                n0 == old(self).id_counter,
                p0 < q0 <= self.current,
                sc == opt_expr_view(superclass),
                p_class(ts, p0, n0) == class_body(ts, q0, m0, name, sc),
                methods_loop(ts, q0, m0, seq![]) == methods_loop(ts, self.current as int, self.id_counter as nat, stmts_view(methods@)),
            decreases ts.len() - self.current,
        {
            proof {
                unfold_methods_loop(ts, self.current as int, self.id_counter as nat, stmts_view(methods@));
                unfold_class_body(ts, q0, m0, name, sc);
            }
            if self.check(TokenType::RightBrace) || self.is_at_end() {
                match self.consume(TokenType::RightBrace, "Expect '}' after class body.".to_string()) {
                    Ok(_) => {},
                    Err(e) => return Err(e),
                }
                return Ok(Stmt::Class { name, methods, superclass });
            }
            let m = match self.function("method") {
                Ok(f) => f,
                Err(e) => return Err(e),
            };
            proof {
                lemma_stmts_view_push(methods@, m);
            }
            methods.push(m);
        }
    }

    /// The statement a `for` loop stands for: a `while` loop, in a block with
    /// the initializer when there is one, the increment run after the body.
    fn desugaring_for(&mut self) -> (r: Result<Stmt, ParseError>)
        requires
            old(self).wf(),
        ensures
            final(self).wf(),
            final(self).keeps(old(self)),
            stmt_agrees(r, p_for(old(self).tokens@, old(self).current as int, old(self).id_counter as nat), final(self).current as int, final(self).id_counter as nat),
            r is Ok ==> old(self).current < final(self).current,
        decreases self.tokens@.len() - self.current, 1nat,
    {
        proof {
            unfold_for(self.tokens@, self.current as int, self.id_counter as nat);
        }
        match self.consume(TokenType::LeftParen, "Expected '(' after 'for'.".to_string()) {
            Ok(_) => {},
            Err(e) => return Err(e),
        }
        let initializer: Option<Stmt> = if self.match_one(TokenType::Semicolon) {
            None
        } else if self.match_one(TokenType::Var) {
            match self.var_declaration() {
                Ok(s) => Some(s),
                Err(e) => return Err(e),
            }
        } else {
            match self.expression_statement() {
                Ok(s) => Some(s),
                Err(e) => return Err(e),
            }
        };
        let mut condition: Option<Expr> = None;
        if !self.check(TokenType::Semicolon) {
            condition = match self.expression() {
                Ok(e) => Some(e),
                Err(e) => return Err(e),
            };
        }
        match self.consume(TokenType::Semicolon, "Expected ';' after loop condition.".to_string()) {
            Ok(_) => {},
            Err(e) => return Err(e),
        }
        let mut increment: Option<Expr> = None;
        if !self.check(TokenType::RightParen) {
            increment = match self.expression() {
                Ok(e) => Some(e),
                Err(e) => return Err(e),
            };
        }
        match self.consume(TokenType::RightParen, "Expected ')' after for clauses.".to_string()) {
            Ok(_) => {},
            Err(e) => return Err(e),
        }
        let body = match self.statement() {
            Ok(s) => s,
            Err(e) => return Err(e),
        };
        Ok(desugar(initializer, condition, increment, body))
    }
}

impl Parser {
    /// Error recovery: skips to just after a `;` or to a keyword that starts
    /// a statement (or to the end).
    fn synchronize(&mut self)
        requires
            old(self).wf(),
        ensures
            final(self).wf(),
            final(self).keeps(old(self)),
            final(self).id_counter == old(self).id_counter,
            final(self).current == synchronize_from(old(self).tokens@, old(self).current as int),
            !is_end(old(self).tokens@, old(self).current as int) ==> old(self).current < final(self).current,
    {
        let ghost ts = self.tokens@;
        let ghost p0 = self.current as int;
        self.advance();
        while !self.is_at_end()
            invariant
                self.wf(),
                self.keeps(old(self)),
                self.id_counter == old(self).id_counter,
                ts == self.tokens@,
                p0 == old(self).current,
                !is_end(ts, p0) ==> p0 < self.current,
                !is_end(ts, self.current as int) ==> self.current >= 1,
                synchronize_from(ts, p0) == sync_loop(ts, self.current as int),
            decreases ts.len() - self.current,
        {
            if self.previous().token_type == TokenType::Semicolon {
                return;
            }
            match self.peek().token_type {
                TokenType::Class
                | TokenType::Fun
                | TokenType::Var
                | TokenType::For
                | TokenType::If
                | TokenType::While
                | TokenType::Print
                | TokenType::Return => return,
                _ => {},
            }
            self.advance();
        }
    }

    /// Parses declarations up to the end of the tokens. A declaration with a
    /// syntax error is skipped (see `synchronize`) and its error recorded;
    /// the result is an error when there was any.
    pub fn parse(&mut self) -> (r: Result<Vec<Stmt>, ()>)
        requires
            old(self).wf(),
        ensures
            final(self).wf(),
            final(self).toks() == old(self).toks(),
            is_end(final(self).toks(), final(self).pos()),
            ({
                let pp = p_program(old(self).toks(), old(self).pos(), old(self).next_id(), seq![], seq![]);
                &&& final(self).errs() == old(self).errs() + pp.errors
                &&& final(self).next_id() == pp.next_id
                &&& (r is Ok <==> pp.errors.len() == 0)
                &&& (r matches Ok(v) ==> stmts_view(v@) == pp.stmts)
            }),
            old(self).next_id() <= final(self).next_id(),
            r matches Ok(v) ==> numbered(
                stmts_ids(stmts_view(v@), stmts_view(v@).len() as int),
                old(self).next_id() as int,
                final(self).next_id() as int,
            ),
    {
        let ghost ts = self.tokens@;
        let ghost p0 = self.current as int;
        let ghost n0 = self.id_counter as nat;
        proof {
            lemma_parsed_ids_distinct(ts, p0, n0);
        }
        let ghost e0 = errors_view(self.errors@);
        let ghost mut found: Seq<SpecParseError> = seq![];
        let mut v: Vec<Stmt> = Vec::new();
        let mut had_error = false;
        assert(stmts_view(v@) =~= Seq::<SpecStmt>::empty());
        while !self.is_at_end()
            invariant
                self.wf(),
                ts == self.tokens@,
                errors_view(self.errors@) == e0 + found,
                had_error == (found.len() > 0),
                p_program(ts, p0, n0, seq![], seq![]) == p_program(ts, self.current as int, self.id_counter as nat, stmts_view(v@), found),
            decreases ts.len() - self.current,
        {
            let ghost p = self.current as int;
            match self.declaration() {
                Ok(s) => {
                    proof {
                        lemma_stmts_view_push(v@, s);
                    }
                    v.push(s);
                },
                Err(e) => {
                    had_error = true;
                    proof {
                        assert(errors_view(self.errors@.push(e)) =~= errors_view(self.errors@).push(e@));
                        found = found.push(e@);
                    }
                    self.errors.push(e);
                    self.synchronize();
                },
            }
        }
        if had_error {
            return Err(());
        }
        Ok(v)
    }
}

} // verus!
