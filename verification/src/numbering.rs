//! How the parser numbers variable uses: each rule moves forward, takes at
//! most one id per token it passes, and the ids in a tree it builds are
//! distinct and lie between the next free id before and after it. So the
//! resolver, which records depths by id, never mixes up two uses.
use vstd::prelude::*;

use crate::ast::{SpecExpr, SpecParseError, SpecStmt};
use crate::grammar::{
    p_program, starts_statement, sync_loop, synchronize_from,
    block_loop, class_body, desugar_for, done, fail, is_end, methods_loop, p_class, p_declaration,
    p_expression_statement, p_for, p_function, p_if, p_print, p_return, p_statement, p_var, p_while,
    params_loop, pass_err, unfold_block_loop, unfold_class, unfold_class_body, unfold_declaration,
    unfold_expression_statement, unfold_for, unfold_function, unfold_if, unfold_methods_loop,
    unfold_params_loop, unfold_print, unfold_return, unfold_statement, unfold_var, unfold_while,
    and_loop, args_loop, assign_target, call_loop, checks, comparison_loop, equality_loop,
    factor_loop, finish_call, or_loop, p_and, p_assignment, p_call, p_comparison, p_equality,
    p_expression, p_factor, p_or, p_primary, p_term, p_unary, term_loop, unfold_and,
    unfold_and_loop, unfold_args_loop, unfold_assignment, unfold_call, unfold_call_loop,
    unfold_comparison, unfold_comparison_loop, unfold_equality, unfold_equality_loop,
    unfold_expression, unfold_factor, unfold_factor_loop, unfold_finish_call, unfold_or,
    unfold_or_loop, unfold_primary, unfold_term, unfold_term_loop, unfold_unary, Parsed,
};
use crate::token::{Token, TokenType};

verus! {

/// The variable-use ids in an expression.
pub open spec fn expr_ids(e: SpecExpr) -> Seq<usize>
    decreases e, 0int,
{
    match e {
        SpecExpr::Assign { value, id, .. } => seq![id] + expr_ids(*value),
        SpecExpr::Binary { left, right, .. } => expr_ids(*left) + expr_ids(*right),
        SpecExpr::Call { callee, args, .. } => expr_ids(*callee) + exprs_ids(args, args.len() as int),
        SpecExpr::Grouping { expression } => expr_ids(*expression),
        SpecExpr::Get { object, .. } => expr_ids(*object),
        SpecExpr::SetProperty { object, value, .. } => expr_ids(*object) + expr_ids(*value),
        SpecExpr::Literal { .. } => seq![],
        SpecExpr::Logical { left, right, .. } => expr_ids(*left) + expr_ids(*right),
        SpecExpr::Unary { right, .. } => expr_ids(*right),
        SpecExpr::Variable { id, .. } => seq![id],
        SpecExpr::This { id, .. } => seq![id],
        SpecExpr::Super { id, .. } => seq![id],
    }
}

/// The ids in the first `i` expressions of `es`.
pub open spec fn exprs_ids(es: Seq<SpecExpr>, i: int) -> Seq<usize>
    decreases es, i,
{
    if 0 < i <= es.len() {
        exprs_ids(es, i - 1) + expr_ids(es[i - 1])
    } else {
        seq![]
    }
}

/// Distinct ids, all in `[lo, hi)`.
pub open spec fn numbered(s: Seq<usize>, lo: int, hi: int) -> bool {
    &&& s.no_duplicates()
    &&& forall|i: int| 0 <= i < s.len() ==> lo <= #[trigger] s[i] < hi
}

/// A rule's result does not go back before `p`, and takes at most one id
/// (from `n` on) per token it passes.
pub open spec fn orderly<T>(r: Parsed<T>, p: int, n: nat) -> bool {
    &&& p <= r.pos
    &&& n <= r.next_id
    &&& r.next_id - n <= r.pos - p
}

/// There are ids left for every token from `p` on.
pub open spec fn room(ts: Seq<Token>, p: int, n: nat) -> bool {
    &&& 0 <= p <= ts.len()
    &&& n + (ts.len() - p) <= usize::MAX + 1
}

pub open spec fn expr_ok(r: Parsed<SpecExpr>, lo: int) -> bool {
    r.result is Ok ==> numbered(expr_ids(r.result->Ok_0), lo, r.next_id as int)
}

pub proof fn lemma_numbered_concat(a: Seq<usize>, b: Seq<usize>, lo: int, m: int, hi: int)
    requires
        lo <= m <= hi,
        numbered(a, lo, m),
        numbered(b, m, hi),
    ensures
        numbered(a + b, lo, hi),
{
    let c = a + b;
    assert forall|i: int, j: int| 0 <= i < c.len() && 0 <= j < c.len() && i != j implies c[i] != c[j] by {
        if i < a.len() && j < a.len() {
            assert(c[i] == a[i] && c[j] == a[j]);
        } else if i >= a.len() && j >= a.len() {
            assert(c[i] == b[i - a.len()] && c[j] == b[j - a.len()]);
        } else if i < a.len() {
            assert(c[i] == a[i] && c[j] == b[j - a.len()]);
        } else {
            assert(c[j] == a[j] && c[i] == b[i - a.len()]);
        }
    }
    assert forall|i: int| 0 <= i < c.len() implies lo <= #[trigger] c[i] < hi by {
        if i < a.len() {
            assert(c[i] == a[i]);
        } else {
            assert(c[i] == b[i - a.len()]);
        }
    }
}

pub proof fn lemma_numbered_widen(a: Seq<usize>, lo: int, hi: int, lo2: int, hi2: int)
    requires
        numbered(a, lo, hi),
        lo2 <= lo,
        hi <= hi2,
    ensures
        numbered(a, lo2, hi2),
{
}

pub proof fn lemma_numbered_one(x: usize, lo: int, hi: int)
    requires
        lo <= x < hi,
    ensures
        numbered(seq![x], lo, hi),
{
}

pub proof fn lemma_numbered_empty(lo: int, hi: int)
    ensures
        numbered(Seq::<usize>::empty(), lo, hi),
{
}

/// The ids of an assignment are those of its target and its value.
proof fn lemma_assign_target_ids(target: SpecExpr, value: SpecExpr, equals: Token, lo: int, m: int, hi: int)
    requires
        lo <= m <= hi,
        numbered(expr_ids(target), lo, m),
        numbered(expr_ids(value), m, hi),
    ensures
        assign_target(target, value, equals) matches Ok(e) ==> numbered(expr_ids(e), lo, hi),
{
    reveal(assign_target);
    match target {
        SpecExpr::Variable { name, id } => {
            lemma_numbered_concat(seq![id], expr_ids(value), lo, m, hi);
        },
        SpecExpr::Get { object, name } => {
            lemma_numbered_concat(expr_ids(*object), expr_ids(value), lo, m, hi);
        },
        _ => {},
    }
}

pub proof fn lemma_expression_ids(ts: Seq<Token>, p: int, n: nat)
    requires
        room(ts, p, n),
    ensures
        orderly(p_expression(ts, p, n), p, n),
        expr_ok(p_expression(ts, p, n), n as int),
    decreases ts.len() - p, 30nat,
{
    unfold_expression(ts, p, n);
    lemma_assignment_ids(ts, p, n);
}

pub proof fn lemma_assignment_ids(ts: Seq<Token>, p: int, n: nat)
    requires
        room(ts, p, n),
    ensures
        orderly(p_assignment(ts, p, n), p, n),
        expr_ok(p_assignment(ts, p, n), n as int),
    decreases ts.len() - p, 29nat,
{
    unfold_assignment(ts, p, n);
    lemma_or_ids(ts, p, n);
    let r = p_or(ts, p, n);
    if r.pos <= ts.len() && r.result is Ok && checks(ts, r.pos, TokenType::Equal) {
        lemma_assignment_ids(ts, r.pos + 1, r.next_id);
        let v = p_assignment(ts, r.pos + 1, r.next_id);
        if v.result is Ok {
            lemma_assign_target_ids(r.result->Ok_0, v.result->Ok_0, ts[r.pos], n as int, r.next_id as int, v.next_id as int);
        }
    }
}

pub proof fn lemma_or_ids(ts: Seq<Token>, p: int, n: nat)
    requires
        room(ts, p, n),
    ensures
        orderly(p_or(ts, p, n), p, n),
        expr_ok(p_or(ts, p, n), n as int),
    decreases ts.len() - p, 28nat,
{
    unfold_or(ts, p, n);
    lemma_and_ids(ts, p, n);
    let r = p_and(ts, p, n);
    if r.pos <= ts.len() && r.result is Ok {
        lemma_or_loop_ids(ts, r.pos, r.next_id, r.result->Ok_0, n as int);
    }
}

pub proof fn lemma_or_loop_ids(ts: Seq<Token>, p: int, n: nat, left: SpecExpr, lo: int)
    requires
        room(ts, p, n),
        lo <= n,
        numbered(expr_ids(left), lo, n as int),
    ensures
        orderly(or_loop(ts, p, n, left), p, n),
        expr_ok(or_loop(ts, p, n, left), lo),
    decreases ts.len() - p, 27nat,
{
    unfold_or_loop(ts, p, n, left);
    if checks(ts, p, TokenType::Or) {
        lemma_and_ids(ts, p + 1, n);
        let r = p_and(ts, p + 1, n);
        if r.pos <= ts.len() && r.result is Ok {
            let e = SpecExpr::Logical { left: Box::new(left), operator: ts[p], right: Box::new(r.result->Ok_0) };
            lemma_numbered_concat(expr_ids(left), expr_ids(r.result->Ok_0), lo, n as int, r.next_id as int);
            lemma_or_loop_ids(ts, r.pos, r.next_id, e, lo);
        }
    }
}

pub proof fn lemma_and_ids(ts: Seq<Token>, p: int, n: nat)
    requires
        room(ts, p, n),
    ensures
        orderly(p_and(ts, p, n), p, n),
        expr_ok(p_and(ts, p, n), n as int),
    decreases ts.len() - p, 26nat,
{
    unfold_and(ts, p, n);
    lemma_equality_ids(ts, p, n);
    let r = p_equality(ts, p, n);
    if r.pos <= ts.len() && r.result is Ok {
        lemma_and_loop_ids(ts, r.pos, r.next_id, r.result->Ok_0, n as int);
    }
}

pub proof fn lemma_and_loop_ids(ts: Seq<Token>, p: int, n: nat, left: SpecExpr, lo: int)
    requires
        room(ts, p, n),
        lo <= n,
        numbered(expr_ids(left), lo, n as int),
    ensures
        orderly(and_loop(ts, p, n, left), p, n),
        expr_ok(and_loop(ts, p, n, left), lo),
    decreases ts.len() - p, 25nat,
{
    unfold_and_loop(ts, p, n, left);
    if checks(ts, p, TokenType::And) {
        lemma_equality_ids(ts, p + 1, n);
        let r = p_equality(ts, p + 1, n);
        if r.pos <= ts.len() && r.result is Ok {
            let e = SpecExpr::Logical { left: Box::new(left), operator: ts[p], right: Box::new(r.result->Ok_0) };
            lemma_numbered_concat(expr_ids(left), expr_ids(r.result->Ok_0), lo, n as int, r.next_id as int);
            lemma_and_loop_ids(ts, r.pos, r.next_id, e, lo);
        }
    }
}

pub proof fn lemma_equality_ids(ts: Seq<Token>, p: int, n: nat)
    requires
        room(ts, p, n),
    ensures
        orderly(p_equality(ts, p, n), p, n),
        expr_ok(p_equality(ts, p, n), n as int),
    decreases ts.len() - p, 24nat,
{
    unfold_equality(ts, p, n);
    lemma_comparison_ids(ts, p, n);
    let r = p_comparison(ts, p, n);
    if r.pos <= ts.len() && r.result is Ok {
        lemma_equality_loop_ids(ts, r.pos, r.next_id, r.result->Ok_0, n as int);
    }
}

pub proof fn lemma_equality_loop_ids(ts: Seq<Token>, p: int, n: nat, left: SpecExpr, lo: int)
    requires
        room(ts, p, n),
        lo <= n,
        numbered(expr_ids(left), lo, n as int),
    ensures
        orderly(equality_loop(ts, p, n, left), p, n),
        expr_ok(equality_loop(ts, p, n, left), lo),
    decreases ts.len() - p, 23nat,
{
    unfold_equality_loop(ts, p, n, left);
    if checks(ts, p, TokenType::BangEqual) || checks(ts, p, TokenType::EqualEqual) {
        lemma_comparison_ids(ts, p + 1, n);
        let r = p_comparison(ts, p + 1, n);
        if r.pos <= ts.len() && r.result is Ok {
            let e = SpecExpr::Binary { left: Box::new(left), operator: ts[p], right: Box::new(r.result->Ok_0) };
            lemma_numbered_concat(expr_ids(left), expr_ids(r.result->Ok_0), lo, n as int, r.next_id as int);
            lemma_equality_loop_ids(ts, r.pos, r.next_id, e, lo);
        }
    }
}

pub proof fn lemma_comparison_ids(ts: Seq<Token>, p: int, n: nat)
    requires
        room(ts, p, n),
    ensures
        orderly(p_comparison(ts, p, n), p, n),
        expr_ok(p_comparison(ts, p, n), n as int),
    decreases ts.len() - p, 22nat,
{
    unfold_comparison(ts, p, n);
    lemma_term_ids(ts, p, n);
    let r = p_term(ts, p, n);
    if r.pos <= ts.len() && r.result is Ok {
        lemma_comparison_loop_ids(ts, r.pos, r.next_id, r.result->Ok_0, n as int);
    }
}

pub proof fn lemma_comparison_loop_ids(ts: Seq<Token>, p: int, n: nat, left: SpecExpr, lo: int)
    requires
        room(ts, p, n),
        lo <= n,
        numbered(expr_ids(left), lo, n as int),
    ensures
        orderly(comparison_loop(ts, p, n, left), p, n),
        expr_ok(comparison_loop(ts, p, n, left), lo),
    decreases ts.len() - p, 21nat,
{
    unfold_comparison_loop(ts, p, n, left);
    if checks(ts, p, TokenType::Greater) || checks(ts, p, TokenType::GreaterEqual) || checks(ts, p, TokenType::Less)
        || checks(ts, p, TokenType::LessEqual) {
        lemma_term_ids(ts, p + 1, n);
        let r = p_term(ts, p + 1, n);
        if r.pos <= ts.len() && r.result is Ok {
            let e = SpecExpr::Binary { left: Box::new(left), operator: ts[p], right: Box::new(r.result->Ok_0) };
            lemma_numbered_concat(expr_ids(left), expr_ids(r.result->Ok_0), lo, n as int, r.next_id as int);
            lemma_comparison_loop_ids(ts, r.pos, r.next_id, e, lo);
        }
    }
}

pub proof fn lemma_term_ids(ts: Seq<Token>, p: int, n: nat)
    requires
        room(ts, p, n),
    ensures
        orderly(p_term(ts, p, n), p, n),
        expr_ok(p_term(ts, p, n), n as int),
    decreases ts.len() - p, 20nat,
{
    unfold_term(ts, p, n);
    lemma_factor_ids(ts, p, n);
    let r = p_factor(ts, p, n);
    if r.pos <= ts.len() && r.result is Ok {
        lemma_term_loop_ids(ts, r.pos, r.next_id, r.result->Ok_0, n as int);
    }
}

pub proof fn lemma_term_loop_ids(ts: Seq<Token>, p: int, n: nat, left: SpecExpr, lo: int)
    requires
        room(ts, p, n),
        lo <= n,
        numbered(expr_ids(left), lo, n as int),
    ensures
        orderly(term_loop(ts, p, n, left), p, n),
        expr_ok(term_loop(ts, p, n, left), lo),
    decreases ts.len() - p, 19nat,
{
    unfold_term_loop(ts, p, n, left);
    if checks(ts, p, TokenType::Minus) || checks(ts, p, TokenType::Plus) {
        lemma_factor_ids(ts, p + 1, n);
        let r = p_factor(ts, p + 1, n);
        if r.pos <= ts.len() && r.result is Ok {
            let e = SpecExpr::Binary { left: Box::new(left), operator: ts[p], right: Box::new(r.result->Ok_0) };
            lemma_numbered_concat(expr_ids(left), expr_ids(r.result->Ok_0), lo, n as int, r.next_id as int);
            lemma_term_loop_ids(ts, r.pos, r.next_id, e, lo);
        }
    }
}

pub proof fn lemma_factor_ids(ts: Seq<Token>, p: int, n: nat)
    requires
        room(ts, p, n),
    ensures
        orderly(p_factor(ts, p, n), p, n),
        expr_ok(p_factor(ts, p, n), n as int),
    decreases ts.len() - p, 18nat,
{
    unfold_factor(ts, p, n);
    lemma_unary_ids(ts, p, n);
    let r = p_unary(ts, p, n);
    if r.pos <= ts.len() && r.result is Ok {
        lemma_factor_loop_ids(ts, r.pos, r.next_id, r.result->Ok_0, n as int);
    }
}

pub proof fn lemma_factor_loop_ids(ts: Seq<Token>, p: int, n: nat, left: SpecExpr, lo: int)
    requires
        room(ts, p, n),
        lo <= n,
        numbered(expr_ids(left), lo, n as int),
    ensures
        orderly(factor_loop(ts, p, n, left), p, n),
        expr_ok(factor_loop(ts, p, n, left), lo),
    decreases ts.len() - p, 17nat,
{
    unfold_factor_loop(ts, p, n, left);
    if checks(ts, p, TokenType::Slash) || checks(ts, p, TokenType::Star) {
        lemma_unary_ids(ts, p + 1, n);
        let r = p_unary(ts, p + 1, n);
        if r.pos <= ts.len() && r.result is Ok {
            let e = SpecExpr::Binary { left: Box::new(left), operator: ts[p], right: Box::new(r.result->Ok_0) };
            lemma_numbered_concat(expr_ids(left), expr_ids(r.result->Ok_0), lo, n as int, r.next_id as int);
            lemma_factor_loop_ids(ts, r.pos, r.next_id, e, lo);
        }
    }
}

pub proof fn lemma_unary_ids(ts: Seq<Token>, p: int, n: nat)
    requires
        room(ts, p, n),
    ensures
        orderly(p_unary(ts, p, n), p, n),
        expr_ok(p_unary(ts, p, n), n as int),
    decreases ts.len() - p, 16nat,
{
    unfold_unary(ts, p, n);
    if checks(ts, p, TokenType::Bang) || checks(ts, p, TokenType::Minus) {
        lemma_unary_ids(ts, p + 1, n);
    } else {
        lemma_call_ids(ts, p, n);
    }
}

pub proof fn lemma_call_ids(ts: Seq<Token>, p: int, n: nat)
    requires
        room(ts, p, n),
    ensures
        orderly(p_call(ts, p, n), p, n),
        expr_ok(p_call(ts, p, n), n as int),
    decreases ts.len() - p, 15nat,
{
    unfold_call(ts, p, n);
    lemma_primary_ids(ts, p, n);
    let r = p_primary(ts, p, n);
    if r.pos <= ts.len() && r.result is Ok {
        lemma_call_loop_ids(ts, r.pos, r.next_id, r.result->Ok_0, n as int);
    }
}

pub proof fn lemma_call_loop_ids(ts: Seq<Token>, p: int, n: nat, e: SpecExpr, lo: int)
    requires
        room(ts, p, n),
        lo <= n,
        numbered(expr_ids(e), lo, n as int),
    ensures
        orderly(call_loop(ts, p, n, e), p, n),
        expr_ok(call_loop(ts, p, n, e), lo),
    decreases ts.len() - p, 14nat,
{
    unfold_call_loop(ts, p, n, e);
    if checks(ts, p, TokenType::LeftParen) {
        lemma_finish_call_ids(ts, p + 1, n, e, lo);
        let r = finish_call(ts, p + 1, n, e);
        if r.pos <= ts.len() && r.result is Ok {
            lemma_call_loop_ids(ts, r.pos, r.next_id, r.result->Ok_0, lo);
        }
    } else if checks(ts, p, TokenType::Dot) && checks(ts, p + 1, TokenType::Identifier) {
        lemma_call_loop_ids(ts, p + 2, n, SpecExpr::Get { object: Box::new(e), name: ts[p + 1] }, lo);
    }
}

pub proof fn lemma_finish_call_ids(ts: Seq<Token>, p: int, n: nat, callee: SpecExpr, lo: int)
    requires
        room(ts, p, n),
        lo <= n,
        numbered(expr_ids(callee), lo, n as int),
    ensures
        orderly(finish_call(ts, p, n, callee), p, n),
        expr_ok(finish_call(ts, p, n, callee), lo),
    decreases ts.len() - p, 32nat,
{
    unfold_finish_call(ts, p, n, callee);
    if !checks(ts, p, TokenType::RightParen) {
        lemma_numbered_empty(n as int, n as int);
        lemma_args_loop_ids(ts, p, n, seq![], n as int);
        let r = args_loop(ts, p, n, seq![]);
        if r.pos <= ts.len() && r.result is Ok {
            let args = r.result->Ok_0;
            lemma_numbered_concat(expr_ids(callee), exprs_ids(args, args.len() as int), lo, n as int, r.next_id as int);
        }
    } else {
        let args = Seq::<SpecExpr>::empty();
        assert(exprs_ids(args, 0) =~= Seq::<usize>::empty());
        lemma_numbered_concat(expr_ids(callee), exprs_ids(args, args.len() as int), lo, n as int, n as int);
    }
}

proof fn lemma_exprs_ids_prefix(es: Seq<SpecExpr>, e: SpecExpr, i: int)
    requires
        0 <= i <= es.len(),
    ensures
        exprs_ids(es.push(e), i) == exprs_ids(es, i),
    decreases i,
{
    if i > 0 {
        lemma_exprs_ids_prefix(es, e, i - 1);
        assert(es.push(e)[i - 1] == es[i - 1]);
    }
}

/// The ids of the arguments, with one more argument at the end.
pub proof fn lemma_exprs_ids_push(es: Seq<SpecExpr>, e: SpecExpr)
    ensures
        exprs_ids(es.push(e), es.len() + 1int) == exprs_ids(es, es.len() as int) + expr_ids(e),
{
    lemma_exprs_ids_prefix(es, e, es.len() as int);
    assert(es.push(e)[es.len() as int] == e);
}

pub proof fn lemma_args_loop_ids(ts: Seq<Token>, p: int, n: nat, args: Seq<SpecExpr>, lo: int)
    requires
        room(ts, p, n),
        lo <= n,
        numbered(exprs_ids(args, args.len() as int), lo, n as int),
    ensures
        orderly(args_loop(ts, p, n, args), p, n),
        args_loop(ts, p, n, args).result matches Ok(es) ==> numbered(
            exprs_ids(es, es.len() as int),
            lo,
            args_loop(ts, p, n, args).next_id as int,
        ),
    decreases ts.len() - p, 31nat,
{
    unfold_args_loop(ts, p, n, args);
    if args.len() < 255 {
        lemma_expression_ids(ts, p, n);
        let r = p_expression(ts, p, n);
        if r.pos <= ts.len() && r.result is Ok {
            let args2 = args.push(r.result->Ok_0);
            lemma_exprs_ids_push(args, r.result->Ok_0);
            lemma_numbered_concat(exprs_ids(args, args.len() as int), expr_ids(r.result->Ok_0), lo, n as int, r.next_id as int);
            if checks(ts, r.pos, TokenType::Comma) {
                lemma_args_loop_ids(ts, r.pos + 1, r.next_id, args2, lo);
            }
        }
    }
}

pub proof fn lemma_primary_ids(ts: Seq<Token>, p: int, n: nat)
    requires
        room(ts, p, n),
    ensures
        orderly(p_primary(ts, p, n), p, n),
        expr_ok(p_primary(ts, p, n), n as int),
    decreases ts.len() - p, 13nat,
{
    unfold_primary(ts, p, n);
    if checks(ts, p, TokenType::LeftParen) {
        lemma_expression_ids(ts, p + 1, n);
    }
}


/// The variable-use ids in a statement.
pub open spec fn stmt_ids(s: SpecStmt) -> Seq<usize>
    decreases s, 0int,
{
    match s {
        SpecStmt::Expression(e) => expr_ids(*e),
        SpecStmt::Print(e) => expr_ids(*e),
        SpecStmt::Return { value, .. } => match value {
            Some(v) => expr_ids(v),
            None => seq![],
        },
        SpecStmt::Var { initializer, .. } => match initializer {
            Some(i) => expr_ids(*i),
            None => seq![],
        },
        SpecStmt::Block { statements } => stmts_ids(statements, statements.len() as int),
        SpecStmt::If { condition, then_branch, else_branch } => {
            let rest = match else_branch {
                Some(b) => stmt_ids(*b),
                None => seq![],
            };
            expr_ids(condition) + stmt_ids(*then_branch) + rest
        },
        SpecStmt::While { condition, body } => expr_ids(condition) + stmt_ids(*body),
        SpecStmt::Function(decl) => stmts_ids(decl.body, decl.body.len() as int),
        SpecStmt::Class { methods, superclass, .. } => {
            let sc = match superclass {
                Some(c) => expr_ids(c),
                None => seq![],
            };
            sc + stmts_ids(methods, methods.len() as int)
        },
    }
}

/// The ids in the first `i` statements of `ss`.
pub open spec fn stmts_ids(ss: Seq<SpecStmt>, i: int) -> Seq<usize>
    decreases ss, i,
{
    if 0 < i <= ss.len() {
        stmts_ids(ss, i - 1) + stmt_ids(ss[i - 1])
    } else {
        seq![]
    }
}

pub open spec fn opt_expr_ids(o: Option<SpecExpr>) -> Seq<usize> {
    match o {
        Some(e) => expr_ids(e),
        None => seq![],
    }
}

pub open spec fn opt_stmt_ids(o: Option<SpecStmt>) -> Seq<usize> {
    match o {
        Some(s) => stmt_ids(s),
        None => seq![],
    }
}

pub open spec fn stmt_ok(r: Parsed<SpecStmt>, lo: int) -> bool {
    r.result is Ok ==> numbered(stmt_ids(r.result->Ok_0), lo, r.next_id as int)
}

pub proof fn lemma_numbered_concat_rev(a: Seq<usize>, b: Seq<usize>, lo: int, m: int, hi: int)
    requires
        lo <= m <= hi,
        numbered(a, m, hi),
        numbered(b, lo, m),
    ensures
        numbered(a + b, lo, hi),
{
    let c = a + b;
    assert forall|i: int, j: int| 0 <= i < c.len() && 0 <= j < c.len() && i != j implies c[i] != c[j] by {
        if i < a.len() && j < a.len() {
            assert(c[i] == a[i] && c[j] == a[j]);
        } else if i >= a.len() && j >= a.len() {
            assert(c[i] == b[i - a.len()] && c[j] == b[j - a.len()]);
        } else if i < a.len() {
            assert(c[i] == a[i] && c[j] == b[j - a.len()]);
        } else {
            assert(c[j] == a[j] && c[i] == b[i - a.len()]);
        }
    }
    assert forall|i: int| 0 <= i < c.len() implies lo <= #[trigger] c[i] < hi by {
        if i < a.len() {
            assert(c[i] == a[i]);
        } else {
            assert(c[i] == b[i - a.len()]);
        }
    }
}

proof fn lemma_stmts_ids_prefix(ss: Seq<SpecStmt>, s: SpecStmt, i: int)
    requires
        0 <= i <= ss.len(),
    ensures
        stmts_ids(ss.push(s), i) == stmts_ids(ss, i),
    decreases i,
{
    if i > 0 {
        lemma_stmts_ids_prefix(ss, s, i - 1);
        assert(ss.push(s)[i - 1] == ss[i - 1]);
    }
}

/// The ids of statements, with one more statement at the end.
pub proof fn lemma_stmts_ids_push(ss: Seq<SpecStmt>, s: SpecStmt)
    ensures
        stmts_ids(ss.push(s), ss.len() + 1int) == stmts_ids(ss, ss.len() as int) + stmt_ids(s),
{
    lemma_stmts_ids_prefix(ss, s, ss.len() as int);
    assert(ss.push(s)[ss.len() as int] == s);
}

/// The loop a `for` stands for holds the ids of its four parts.
proof fn lemma_desugar_for_ids(
    init: Option<SpecStmt>,
    cond: Option<SpecExpr>,
    inc: Option<SpecExpr>,
    body: SpecStmt,
    n0: int,
    n1: int,
    n2: int,
    n3: int,
    n4: int,
)
    requires
        n0 <= n1 <= n2 <= n3 <= n4,
        numbered(opt_stmt_ids(init), n0, n1),
        numbered(opt_expr_ids(cond), n1, n2),
        numbered(opt_expr_ids(inc), n2, n3),
        numbered(stmt_ids(body), n3, n4),
    ensures
        numbered(stmt_ids(desugar_for(init, cond, inc, body)), n0, n4),
{
    let body1 = match inc {
        Some(i) => SpecStmt::Block { statements: seq![body, SpecStmt::Expression(Box::new(i))] },
        None => body,
    };
    match inc {
        Some(i) => {
            let sts = seq![body, SpecStmt::Expression(Box::new(i))];
            assert(stmts_ids(sts, 0) =~= Seq::<usize>::empty());
            assert(stmts_ids(sts, 1) =~= stmt_ids(body));
            assert(sts[1] == SpecStmt::Expression(Box::new(i)));
            assert(stmt_ids(sts[1]) == expr_ids(i));
            assert(stmts_ids(sts, 2) == stmts_ids(sts, 1) + expr_ids(i));
            lemma_numbered_concat_rev(stmt_ids(body), expr_ids(i), n2, n3, n4);
        },
        None => {
            lemma_numbered_widen(stmt_ids(body), n3, n4, n2, n4);
        },
    }
    assert(numbered(stmt_ids(body1), n2, n4));
    let c = match cond {
        Some(c) => c,
        None => SpecExpr::Literal { value: crate::token::Literal::Bool(true) },
    };
    assert(numbered(expr_ids(c), n1, n2)) by {
        if cond is None {
            assert(expr_ids(c) =~= Seq::<usize>::empty());
        }
    }
    let w = SpecStmt::While { condition: c, body: Box::new(body1) };
    lemma_numbered_concat(expr_ids(c), stmt_ids(body1), n1, n2, n4);
    assert(numbered(stmt_ids(w), n1, n4));
    match init {
        Some(s) => {
            let sts = seq![s, w];
            assert(stmts_ids(sts, 0) =~= Seq::<usize>::empty());
            assert(stmts_ids(sts, 1) =~= stmt_ids(s));
            assert(stmts_ids(sts, 2) == stmts_ids(sts, 1) + stmt_ids(w));
            lemma_numbered_concat(stmt_ids(s), stmt_ids(w), n0, n1, n4);
        },
        None => {
            lemma_numbered_widen(stmt_ids(w), n1, n4, n0, n4);
        },
    }
}

pub proof fn lemma_declaration_ids(ts: Seq<Token>, p: int, n: nat)
    requires
        room(ts, p, n),
    ensures
        orderly(p_declaration(ts, p, n), p, n),
        stmt_ok(p_declaration(ts, p, n), n as int),
    decreases ts.len() - p, 9nat,
{
    unfold_declaration(ts, p, n);
    if checks(ts, p, TokenType::Fun) {
        lemma_function_ids(ts, p + 1, n, "function"@);
    } else if checks(ts, p, TokenType::Class) {
        lemma_class_ids(ts, p + 1, n);
    } else if checks(ts, p, TokenType::Var) {
        lemma_var_ids(ts, p + 1, n);
    } else {
        lemma_statement_ids(ts, p, n);
    }
}

pub proof fn lemma_statement_ids(ts: Seq<Token>, p: int, n: nat)
    requires
        room(ts, p, n),
    ensures
        orderly(p_statement(ts, p, n), p, n),
        stmt_ok(p_statement(ts, p, n), n as int),
    decreases ts.len() - p, 8nat,
{
    unfold_statement(ts, p, n);
    if checks(ts, p, TokenType::Print) {
        lemma_print_ids(ts, p + 1, n);
    } else if checks(ts, p, TokenType::Return) {
        lemma_return_ids(ts, p + 1, n);
    } else if checks(ts, p, TokenType::LeftBrace) {
        lemma_numbered_empty(n as int, n as int);
        assert(stmts_ids(Seq::<SpecStmt>::empty(), 0) =~= Seq::<usize>::empty());
        lemma_block_loop_ids(ts, p + 1, n, seq![], n as int);
    } else if checks(ts, p, TokenType::If) {
        lemma_if_ids(ts, p + 1, n);
    } else if checks(ts, p, TokenType::While) {
        lemma_while_ids(ts, p + 1, n);
    } else if checks(ts, p, TokenType::For) {
        lemma_for_ids(ts, p + 1, n);
    } else {
        lemma_expression_statement_ids(ts, p, n);
    }
}

pub proof fn lemma_expression_statement_ids(ts: Seq<Token>, p: int, n: nat)
    requires
        room(ts, p, n),
    ensures
        orderly(p_expression_statement(ts, p, n), p, n),
        stmt_ok(p_expression_statement(ts, p, n), n as int),
    decreases ts.len() - p, 7nat,
{
    unfold_expression_statement(ts, p, n);
    lemma_expression_ids(ts, p, n);
}

pub proof fn lemma_print_ids(ts: Seq<Token>, p: int, n: nat)
    requires
        room(ts, p, n),
    ensures
        orderly(p_print(ts, p, n), p, n),
        stmt_ok(p_print(ts, p, n), n as int),
    decreases ts.len() - p, 1nat,
{
    unfold_print(ts, p, n);
    lemma_expression_ids(ts, p, n);
}

pub proof fn lemma_block_loop_ids(ts: Seq<Token>, p: int, n: nat, stmts: Seq<SpecStmt>, lo: int)
    requires
        room(ts, p, n),
        lo <= n,
        numbered(stmts_ids(stmts, stmts.len() as int), lo, n as int),
    ensures
        orderly(block_loop(ts, p, n, stmts), p, n),
        block_loop(ts, p, n, stmts).result matches Ok(ss) ==> numbered(
            stmts_ids(ss, ss.len() as int),
            lo,
            block_loop(ts, p, n, stmts).next_id as int,
        ),
    decreases ts.len() - p, 10nat,
{
    unfold_block_loop(ts, p, n, stmts);
    if 0 <= p < ts.len() && !checks(ts, p, TokenType::RightBrace) && !is_end(ts, p) {
        lemma_declaration_ids(ts, p, n);
        let r = p_declaration(ts, p, n);
        if r.pos <= ts.len() && r.result is Ok && r.pos > p {
            lemma_stmts_ids_push(stmts, r.result->Ok_0);
            lemma_numbered_concat(stmts_ids(stmts, stmts.len() as int), stmt_ids(r.result->Ok_0), lo, n as int, r.next_id as int);
            lemma_block_loop_ids(ts, r.pos, r.next_id, stmts.push(r.result->Ok_0), lo);
        }
    }
}

pub proof fn lemma_if_ids(ts: Seq<Token>, p: int, n: nat)
    requires
        room(ts, p, n),
    ensures
        orderly(p_if(ts, p, n), p, n),
        stmt_ok(p_if(ts, p, n), n as int),
    decreases ts.len() - p, 1nat,
{
    unfold_if(ts, p, n);
    if checks(ts, p, TokenType::LeftParen) {
        lemma_expression_ids(ts, p + 1, n);
        let c = p_expression(ts, p + 1, n);
        if c.pos <= ts.len() && c.result is Ok && checks(ts, c.pos, TokenType::RightParen) {
            lemma_statement_ids(ts, c.pos + 1, c.next_id);
            let t = p_statement(ts, c.pos + 1, c.next_id);
            if t.pos <= ts.len() && t.result is Ok {
                lemma_numbered_concat(expr_ids(c.result->Ok_0), stmt_ids(t.result->Ok_0), n as int, c.next_id as int, t.next_id as int);
                if checks(ts, t.pos, TokenType::Else) {
                    lemma_statement_ids(ts, t.pos + 1, t.next_id);
                    let e = p_statement(ts, t.pos + 1, t.next_id);
                    if e.result is Ok {
                        lemma_numbered_concat(
                            expr_ids(c.result->Ok_0) + stmt_ids(t.result->Ok_0),
                            stmt_ids(e.result->Ok_0),
                            n as int,
                            t.next_id as int,
                            e.next_id as int,
                        );
                    }
                } else {
                    assert(expr_ids(c.result->Ok_0) + stmt_ids(t.result->Ok_0) + Seq::<usize>::empty() =~= expr_ids(
                        c.result->Ok_0,
                    ) + stmt_ids(t.result->Ok_0));
                }
            }
        }
    }
}

pub proof fn lemma_while_ids(ts: Seq<Token>, p: int, n: nat)
    requires
        room(ts, p, n),
    ensures
        orderly(p_while(ts, p, n), p, n),
        stmt_ok(p_while(ts, p, n), n as int),
    decreases ts.len() - p, 1nat,
{
    unfold_while(ts, p, n);
    if checks(ts, p, TokenType::LeftParen) {
        lemma_expression_ids(ts, p + 1, n);
        let c = p_expression(ts, p + 1, n);
        if c.pos <= ts.len() && c.result is Ok && checks(ts, c.pos, TokenType::RightParen) {
            lemma_statement_ids(ts, c.pos + 1, c.next_id);
            let b = p_statement(ts, c.pos + 1, c.next_id);
            if b.result is Ok {
                lemma_numbered_concat(expr_ids(c.result->Ok_0), stmt_ids(b.result->Ok_0), n as int, c.next_id as int, b.next_id as int);
            }
        }
    }
}

pub proof fn lemma_return_ids(ts: Seq<Token>, p: int, n: nat)
    requires
        room(ts, p, n),
    ensures
        orderly(p_return(ts, p, n), p, n),
        stmt_ok(p_return(ts, p, n), n as int),
    decreases ts.len() - p, 1nat,
{
    unfold_return(ts, p, n);
    if !checks(ts, p, TokenType::Semicolon) {
        lemma_expression_ids(ts, p, n);
    }
}

pub proof fn lemma_var_ids(ts: Seq<Token>, p: int, n: nat)
    requires
        room(ts, p, n),
    ensures
        orderly(p_var(ts, p, n), p, n),
        stmt_ok(p_var(ts, p, n), n as int),
    decreases ts.len() - p, 1nat,
{
    unfold_var(ts, p, n);
    if checks(ts, p, TokenType::Identifier) && checks(ts, p + 1, TokenType::Equal) {
        lemma_expression_ids(ts, p + 2, n);
    }
}

pub proof fn lemma_class_ids(ts: Seq<Token>, p: int, n: nat)
    requires
        room(ts, p, n),
    ensures
        orderly(p_class(ts, p, n), p, n),
        stmt_ok(p_class(ts, p, n), n as int),
    decreases ts.len() - p, 1nat,
{
    unfold_class(ts, p, n);
    if checks(ts, p, TokenType::Identifier) {
        let name = ts[p];
        let sc: Parsed<Option<SpecExpr>> = if checks(ts, p + 1, TokenType::Less) {
            if checks(ts, p + 2, TokenType::Identifier) {
                done(Some(SpecExpr::Variable { name: ts[p + 2], id: n as usize }), p + 3, n + 1)
            } else {
                fail(ts[p + 2], "Expect superclass name."@, p + 2, n)
            }
        } else {
            done(None, p + 1, n)
        };
        if sc.result is Ok && checks(ts, sc.pos, TokenType::LeftBrace) {
            assert(numbered(opt_expr_ids(sc.result->Ok_0), n as int, sc.next_id as int)) by {
                if checks(ts, p + 1, TokenType::Less) {
                    lemma_numbered_one(n as usize, n as int, n + 1int);
                }
            }
            lemma_class_body_ids(ts, sc.pos + 1, sc.next_id, name, sc.result->Ok_0, n as int);
        }
    }
}

pub proof fn lemma_class_body_ids(ts: Seq<Token>, q: int, n: nat, name: Token, superclass: Option<SpecExpr>, lo: int)
    requires
        room(ts, q, n),
        lo <= n,
        numbered(opt_expr_ids(superclass), lo, n as int),
    ensures
        orderly(class_body(ts, q, n, name, superclass), q, n),
        stmt_ok(class_body(ts, q, n, name, superclass), lo),
    decreases ts.len() - q, 4nat,
{
    unfold_class_body(ts, q, n, name, superclass);
    lemma_numbered_empty(n as int, n as int);
    assert(stmts_ids(Seq::<SpecStmt>::empty(), 0) =~= Seq::<usize>::empty());
    lemma_methods_loop_ids(ts, q, n, seq![], n as int);
    let m = methods_loop(ts, q, n, seq![]);
    if m.result is Ok {
        let ms = m.result->Ok_0;
        lemma_numbered_concat(opt_expr_ids(superclass), stmts_ids(ms, ms.len() as int), lo, n as int, m.next_id as int);
    }
}

pub proof fn lemma_methods_loop_ids(ts: Seq<Token>, p: int, n: nat, ms: Seq<SpecStmt>, lo: int)
    requires
        room(ts, p, n),
        lo <= n,
        numbered(stmts_ids(ms, ms.len() as int), lo, n as int),
    ensures
        orderly(methods_loop(ts, p, n, ms), p, n),
        methods_loop(ts, p, n, ms).result matches Ok(out) ==> numbered(
            stmts_ids(out, out.len() as int),
            lo,
            methods_loop(ts, p, n, ms).next_id as int,
        ),
    decreases ts.len() - p, 3nat,
{
    unfold_methods_loop(ts, p, n, ms);
    if 0 <= p < ts.len() && !checks(ts, p, TokenType::RightBrace) && !is_end(ts, p) {
        lemma_function_ids(ts, p, n, "method"@);
        let r = p_function(ts, p, n, "method"@);
        if r.pos <= ts.len() && r.result is Ok && r.pos > p {
            lemma_stmts_ids_push(ms, r.result->Ok_0);
            lemma_numbered_concat(stmts_ids(ms, ms.len() as int), stmt_ids(r.result->Ok_0), lo, n as int, r.next_id as int);
            lemma_methods_loop_ids(ts, r.pos, r.next_id, ms.push(r.result->Ok_0), lo);
        }
    }
}

proof fn lemma_params_loop_ids(ts: Seq<Token>, p: int, n: nat, name: Token, params: Seq<Token>)
    requires
        room(ts, p, n),
    ensures
        orderly(params_loop(ts, p, n, name, params), p, n),
        params_loop(ts, p, n, name, params).next_id == n,
    decreases ts.len() - p,
{
    unfold_params_loop(ts, p, n, name, params);
    if params.len() < 255 && checks(ts, p, TokenType::Identifier) && checks(ts, p + 1, TokenType::Comma) {
        lemma_params_loop_ids(ts, p + 2, n, name, params.push(ts[p]));
    }
}

pub proof fn lemma_function_ids(ts: Seq<Token>, p: int, n: nat, kind: Seq<char>)
    requires
        room(ts, p, n),
    ensures
        orderly(p_function(ts, p, n, kind), p, n),
        stmt_ok(p_function(ts, p, n, kind), n as int),
    decreases ts.len() - p, 2nat,
{
    unfold_function(ts, p, n, kind);
    if checks(ts, p, TokenType::Identifier) && checks(ts, p + 1, TokenType::LeftParen) {
        if !checks(ts, p + 2, TokenType::RightParen) {
            lemma_params_loop_ids(ts, p + 2, n, ts[p], seq![]);
        }
        let ps: Parsed<Seq<Token>> = if !checks(ts, p + 2, TokenType::RightParen) {
            params_loop(ts, p + 2, n, ts[p], seq![])
        } else {
            done(seq![], p + 2, n)
        };
        if ps.pos <= ts.len() && ps.result is Ok && checks(ts, ps.pos, TokenType::RightParen) && checks(
            ts,
            ps.pos + 1,
            TokenType::LeftBrace,
        ) {
            lemma_numbered_empty(n as int, n as int);
            assert(stmts_ids(Seq::<SpecStmt>::empty(), 0) =~= Seq::<usize>::empty());
            lemma_block_loop_ids(ts, ps.pos + 2, ps.next_id, seq![], n as int);
        }
    }
}

pub proof fn lemma_for_ids(ts: Seq<Token>, p: int, n: nat)
    requires
        room(ts, p, n),
    ensures
        orderly(p_for(ts, p, n), p, n),
        stmt_ok(p_for(ts, p, n), n as int),
    decreases ts.len() - p, 1nat,
{
    unfold_for(ts, p, n);
    if checks(ts, p, TokenType::LeftParen) {
        let q = p + 1;
        if checks(ts, q, TokenType::Semicolon) {
        } else if checks(ts, q, TokenType::Var) {
            lemma_var_ids(ts, q + 1, n);
        } else {
            lemma_expression_statement_ids(ts, q, n);
        }
        let init: Parsed<Option<SpecStmt>> = if checks(ts, q, TokenType::Semicolon) {
            done(None, q + 1, n)
        } else if checks(ts, q, TokenType::Var) {
            let v = p_var(ts, q + 1, n);
            if v.result is Err {
                pass_err(v)
            } else {
                done(Some(v.result->Ok_0), v.pos, v.next_id)
            }
        } else {
            let v = p_expression_statement(ts, q, n);
            if v.result is Err {
                pass_err(v)
            } else {
                done(Some(v.result->Ok_0), v.pos, v.next_id)
            }
        };
        if init.pos <= ts.len() && init.result is Ok {
            assert(numbered(opt_stmt_ids(init.result->Ok_0), n as int, init.next_id as int));
            let q2 = init.pos;
            if !checks(ts, q2, TokenType::Semicolon) {
                lemma_expression_ids(ts, q2, init.next_id);
            }
            let cond: Parsed<Option<SpecExpr>> = if !checks(ts, q2, TokenType::Semicolon) {
                let c = p_expression(ts, q2, init.next_id);
                if c.result is Err {
                    pass_err(c)
                } else {
                    done(Some(c.result->Ok_0), c.pos, c.next_id)
                }
            } else {
                done(None, q2, init.next_id)
            };
            if cond.pos <= ts.len() && cond.result is Ok && checks(ts, cond.pos, TokenType::Semicolon) {
                let q3 = cond.pos + 1;
                if !checks(ts, q3, TokenType::RightParen) {
                    lemma_expression_ids(ts, q3, cond.next_id);
                }
                let inc: Parsed<Option<SpecExpr>> = if !checks(ts, q3, TokenType::RightParen) {
                    let c = p_expression(ts, q3, cond.next_id);
                    if c.result is Err {
                        pass_err(c)
                    } else {
                        done(Some(c.result->Ok_0), c.pos, c.next_id)
                    }
                } else {
                    done(None, q3, cond.next_id)
                };
                if inc.pos <= ts.len() && inc.result is Ok && checks(ts, inc.pos, TokenType::RightParen) {
                    lemma_statement_ids(ts, inc.pos + 1, inc.next_id);
                    let b = p_statement(ts, inc.pos + 1, inc.next_id);
                    if b.result is Ok {
                        lemma_desugar_for_ids(
                            init.result->Ok_0,
                            cond.result->Ok_0,
                            inc.result->Ok_0,
                            b.result->Ok_0,
                            n as int,
                            init.next_id as int,
                            cond.next_id as int,
                            inc.next_id as int,
                            b.next_id as int,
                        );
                    }
                }
            }
        }
    }
}


proof fn lemma_sync_loop_forward(ts: Seq<Token>, q: int)
    ensures
        q <= sync_loop(ts, q),
    decreases ts.len() - q,
{
    if 0 <= q < ts.len() && !is_end(ts, q) && ts[q - 1].token_type != TokenType::Semicolon && !starts_statement(
        ts[q].token_type,
    ) {
        lemma_sync_loop_forward(ts, q + 1);
    }
}

proof fn lemma_program_ids(ts: Seq<Token>, p: int, n: nat, stmts: Seq<SpecStmt>, errors: Seq<SpecParseError>, lo: int)
    requires
        room(ts, p, n),
        lo <= n,
        numbered(stmts_ids(stmts, stmts.len() as int), lo, n as int),
    ensures
        n <= p_program(ts, p, n, stmts, errors).next_id,
        numbered(
            stmts_ids(p_program(ts, p, n, stmts, errors).stmts, p_program(ts, p, n, stmts, errors).stmts.len() as int),
            lo,
            p_program(ts, p, n, stmts, errors).next_id as int,
        ),
    decreases ts.len() - p,
{
    if 0 <= p < ts.len() && !is_end(ts, p) {
        lemma_declaration_ids(ts, p, n);
        let r = p_declaration(ts, p, n);
        if r.pos <= ts.len() {
            if r.result is Ok {
                if r.pos > p {
                    lemma_stmts_ids_push(stmts, r.result->Ok_0);
                    lemma_numbered_concat(stmts_ids(stmts, stmts.len() as int), stmt_ids(r.result->Ok_0), lo, n as int, r.next_id as int);
                    lemma_program_ids(ts, r.pos, r.next_id, stmts.push(r.result->Ok_0), errors, lo);
                }
            } else {
                let q0 = if 0 <= r.pos < ts.len() && !is_end(ts, r.pos) { r.pos + 1 } else { r.pos };
                lemma_sync_loop_forward(ts, q0);
                let q = synchronize_from(ts, r.pos);
                if p < q <= ts.len() {
                    lemma_numbered_widen(stmts_ids(stmts, stmts.len() as int), lo, n as int, lo, r.next_id as int);
                    lemma_program_ids(ts, q, r.next_id, stmts, errors.push(r.result->Err_0), lo);
                }
            }
        }
    }
}

/// Each variable use in the statements the parser produces has an id of its
/// own: from any position `p` and any starting id `n` (the parser's state
/// when `parse` is called), the ids are distinct, at least `n` and below
/// the parser's next free id, so depths recorded by id never collide.
pub proof fn lemma_parsed_ids_distinct(ts: Seq<Token>, p: int, n: nat)
    requires
        0 <= p <= ts.len(),
        n + (ts.len() - p) <= usize::MAX,
    ensures
        n <= p_program(ts, p, n, seq![], seq![]).next_id,
        numbered(
            stmts_ids(p_program(ts, p, n, seq![], seq![]).stmts, p_program(ts, p, n, seq![], seq![]).stmts.len() as int),
            n as int,
            p_program(ts, p, n, seq![], seq![]).next_id as int,
        ),
{
    lemma_numbered_empty(n as int, n as int);
    assert(stmts_ids(Seq::<SpecStmt>::empty(), 0) =~= Seq::<usize>::empty());
    lemma_program_ids(ts, p, n, seq![], seq![], n as int);
}

} // verus!
