//! The syntax tree of the tree-walking front end, and its mathematical
//! model (the same shapes, with sequences in place of vectors).
use std::rc::Rc;
use vstd::prelude::*;

use crate::token::{Literal, Token, TokenType};

verus! {

/// An expression. `Variable`, `Assign`, `This` and `Super` carry an id, by
/// which the resolver records how far away their binding is.
#[derive(Debug)]
pub enum Expr {
    Assign { name: Token, value: Box<Expr>, id: usize },
    Binary { left: Box<Expr>, operator: Token, right: Box<Expr> },
    Call { callee: Box<Expr>, paren: Token, args: Vec<Expr> },
    Grouping { expression: Box<Expr> },
    Get { object: Box<Expr>, name: Token },
    SetProperty { object: Box<Expr>, value: Box<Expr>, name: Token },
    Literal { value: Literal },
    Logical { left: Box<Expr>, operator: Token, right: Box<Expr> },
    Unary { operator: Token, right: Box<Expr> },
    Variable { name: Token, id: usize },
    This { keyword: Token, id: usize },
    Super { keyword: Token, method: Token, id: usize },
}

/// A function (or method) declaration.
#[derive(Debug)]
pub struct FuncDecl {
    pub name: Token,
    pub params: Vec<Token>,
    pub body: Vec<Stmt>,
}

/// A statement.
#[derive(Debug)]
pub enum Stmt {
    Expression(Box<Expr>),
    Print(Box<Expr>),
    Return { keyword: Token, value: Option<Expr> },
    Var { name: Token, initializer: Option<Box<Expr>> },
    Block { statements: Vec<Stmt> },
    If { condition: Expr, then_branch: Box<Stmt>, else_branch: Option<Box<Stmt>> },
    While { condition: Expr, body: Box<Stmt> },
    Function(Rc<FuncDecl>),
    Class { name: Token, methods: Vec<Stmt>, superclass: Option<Expr> },
}

/// The model of an expression.
pub enum SpecExpr {
    Assign { name: Token, value: Box<SpecExpr>, id: usize },
    Binary { left: Box<SpecExpr>, operator: Token, right: Box<SpecExpr> },
    Call { callee: Box<SpecExpr>, paren: Token, args: Seq<SpecExpr> },
    Grouping { expression: Box<SpecExpr> },
    Get { object: Box<SpecExpr>, name: Token },
    SetProperty { object: Box<SpecExpr>, value: Box<SpecExpr>, name: Token },
    Literal { value: Literal },
    Logical { left: Box<SpecExpr>, operator: Token, right: Box<SpecExpr> },
    Unary { operator: Token, right: Box<SpecExpr> },
    Variable { name: Token, id: usize },
    This { keyword: Token, id: usize },
    Super { keyword: Token, method: Token, id: usize },
}

/// The model of a function declaration.
pub struct SpecFuncDecl {
    pub name: Token,
    pub params: Seq<Token>,
    pub body: Seq<SpecStmt>,
}

/// The model of a statement.
pub enum SpecStmt {
    Expression(Box<SpecExpr>),
    Print(Box<SpecExpr>),
    Return { keyword: Token, value: Option<SpecExpr> },
    Var { name: Token, initializer: Option<Box<SpecExpr>> },
    Block { statements: Seq<SpecStmt> },
    If { condition: SpecExpr, then_branch: Box<SpecStmt>, else_branch: Option<Box<SpecStmt>> },
    While { condition: SpecExpr, body: Box<SpecStmt> },
    Function(SpecFuncDecl),
    Class { name: Token, methods: Seq<SpecStmt>, superclass: Option<SpecExpr> },
}

pub open spec fn expr_view(e: Expr) -> SpecExpr
    decreases e,
{
    match e {
        Expr::Assign { name, value, id } => SpecExpr::Assign { name, value: Box::new(expr_view(*value)), id },
        Expr::Binary { left, operator, right } => SpecExpr::Binary {
            left: Box::new(expr_view(*left)),
            operator,
            right: Box::new(expr_view(*right)),
        },
        Expr::Call { callee, paren, args } => SpecExpr::Call {
            callee: Box::new(expr_view(*callee)),
            paren,
            args: exprs_view(args@),
        },
        Expr::Grouping { expression } => SpecExpr::Grouping { expression: Box::new(expr_view(*expression)) },
        Expr::Get { object, name } => SpecExpr::Get { object: Box::new(expr_view(*object)), name },
        Expr::SetProperty { object, value, name } => SpecExpr::SetProperty {
            object: Box::new(expr_view(*object)),
            value: Box::new(expr_view(*value)),
            name,
        },
        Expr::Literal { value } => SpecExpr::Literal { value },
        Expr::Logical { left, operator, right } => SpecExpr::Logical {
            left: Box::new(expr_view(*left)),
            operator,
            right: Box::new(expr_view(*right)),
        },
        Expr::Unary { operator, right } => SpecExpr::Unary { operator, right: Box::new(expr_view(*right)) },
        Expr::Variable { name, id } => SpecExpr::Variable { name, id },
        Expr::This { keyword, id } => SpecExpr::This { keyword, id },
        Expr::Super { keyword, method, id } => SpecExpr::Super { keyword, method, id },
    }
}

pub open spec fn exprs_view(s: Seq<Expr>) -> Seq<SpecExpr>
    decreases s,
{
    if s.len() == 0 {
        seq![]
    } else {
        seq![expr_view(s[0])] + exprs_view(s.drop_first())
    }
}

pub open spec fn stmt_view(s: Stmt) -> SpecStmt
    decreases s,
{
    match s {
        Stmt::Expression(e) => SpecStmt::Expression(Box::new(expr_view(*e))),
        Stmt::Print(e) => SpecStmt::Print(Box::new(expr_view(*e))),
        Stmt::Return { keyword, value } => SpecStmt::Return {
            keyword,
            value: match value {
                Some(v) => Some(expr_view(v)),
                None => None,
            },
        },
        Stmt::Var { name, initializer } => SpecStmt::Var {
            name,
            initializer: match initializer {
                Some(i) => Some(Box::new(expr_view(*i))),
                None => None,
            },
        },
        Stmt::Block { statements } => SpecStmt::Block { statements: stmts_view(statements@) },
        Stmt::If { condition, then_branch, else_branch } => SpecStmt::If {
            condition: expr_view(condition),
            then_branch: Box::new(stmt_view(*then_branch)),
            else_branch: match else_branch {
                Some(b) => Some(Box::new(stmt_view(*b))),
                None => None,
            },
        },
        Stmt::While { condition, body } => SpecStmt::While {
            condition: expr_view(condition),
            body: Box::new(stmt_view(*body)),
        },
        Stmt::Function(decl) => SpecStmt::Function(
            SpecFuncDecl { name: decl.name, params: decl.params@, body: stmts_view(decl.body@) },
        ),
        Stmt::Class { name, methods, superclass } => SpecStmt::Class {
            name,
            methods: stmts_view(methods@),
            superclass: match superclass {
                Some(c) => Some(expr_view(c)),
                None => None,
            },
        },
    }
}

pub open spec fn stmts_view(s: Seq<Stmt>) -> Seq<SpecStmt>
    decreases s,
{
    if s.len() == 0 {
        seq![]
    } else {
        seq![stmt_view(s[0])] + stmts_view(s.drop_first())
    }
}

pub open spec fn opt_expr_view(o: Option<Expr>) -> Option<SpecExpr> {
    match o {
        Some(e) => Some(expr_view(e)),
        None => None,
    }
}

pub open spec fn opt_stmt_view(o: Option<Stmt>) -> Option<SpecStmt> {
    match o {
        Some(s) => Some(stmt_view(s)),
        None => None,
    }
}

/// A syntax error: the token at which it was found and what was expected.
#[derive(Debug)]
pub struct ParseError {
    pub token: Token,
    pub message: String,
}

/// The model of a syntax error.
pub struct SpecParseError {
    pub token: Token,
    pub message: Seq<char>,
}

impl View for ParseError {
    type V = SpecParseError;

    open spec fn view(&self) -> SpecParseError {
        SpecParseError { token: self.token, message: self.message@ }
    }
}

/// Builds the error for a token and a message.
pub fn parse_error(token: &Token, msg: String) -> (e: ParseError)
    ensures
        e.token == *token,
        e.message@ == msg@,
{
    ParseError { token: token.clone(), message: msg }
}

impl ParseError {
    /// Whether the error was found at the end of the input (reported as
    /// "at end" rather than at a lexeme).
    pub fn at_end(&self) -> (r: bool)
        ensures
            r == (self.token.token_type == TokenType::EndFile),
    {
        self.token.token_type == TokenType::EndFile
    }
}

pub proof fn lemma_exprs_view_push(s: Seq<Expr>, e: Expr)
    ensures
        exprs_view(s.push(e)) == exprs_view(s).push(expr_view(e)),
    decreases s.len(),
{
    if s.len() == 0 {
        assert(s.push(e).drop_first() =~= Seq::<Expr>::empty());
        assert(exprs_view(Seq::<Expr>::empty()) =~= Seq::<SpecExpr>::empty());
        assert(exprs_view(s.push(e)) =~= seq![expr_view(e)]);
        assert(exprs_view(s) =~= Seq::<SpecExpr>::empty());
    } else {
        lemma_exprs_view_push(s.drop_first(), e);
        assert(s.push(e).drop_first() =~= s.drop_first().push(e));
        assert(exprs_view(s.push(e)) =~= seq![expr_view(s[0])] + exprs_view(s.drop_first().push(e)));
        assert(exprs_view(s.push(e)) =~= exprs_view(s).push(expr_view(e)));
    }
}

pub proof fn lemma_exprs_view_len(s: Seq<Expr>)
    ensures
        exprs_view(s).len() == s.len(),
    decreases s.len(),
{
    if s.len() > 0 {
        lemma_exprs_view_len(s.drop_first());
    }
}

pub proof fn lemma_stmts_view_pair(s: Seq<Stmt>)
    requires
        s.len() == 2,
    ensures
        stmts_view(s) == seq![stmt_view(s[0]), stmt_view(s[1])],
{
    let t = s.drop_first();
    assert(t.drop_first() =~= Seq::<Stmt>::empty());
    assert(stmts_view(t.drop_first()) =~= Seq::<SpecStmt>::empty());
    assert(stmts_view(t) =~= seq![stmt_view(s[1])]);
    assert(stmts_view(s) =~= seq![stmt_view(s[0]), stmt_view(s[1])]);
}

pub proof fn lemma_stmts_view_push(s: Seq<Stmt>, e: Stmt)
    ensures
        stmts_view(s.push(e)) == stmts_view(s).push(stmt_view(e)),
    decreases s.len(),
{
    if s.len() == 0 {
        assert(s.push(e).drop_first() =~= Seq::<Stmt>::empty());
        assert(stmts_view(Seq::<Stmt>::empty()) =~= Seq::<SpecStmt>::empty());
        assert(stmts_view(s.push(e)) =~= seq![stmt_view(e)]);
        assert(stmts_view(s) =~= Seq::<SpecStmt>::empty());
    } else {
        lemma_stmts_view_push(s.drop_first(), e);
        assert(s.push(e).drop_first() =~= s.drop_first().push(e));
        assert(stmts_view(s.push(e)) =~= seq![stmt_view(s[0])] + stmts_view(s.drop_first().push(e)));
        assert(stmts_view(s.push(e)) =~= stmts_view(s).push(stmt_view(e)));
    }
}

pub proof fn lemma_exprs_view_index(s: Seq<Expr>)
    ensures
        exprs_view(s).len() == s.len(),
        forall|i: int| 0 <= i < s.len() ==> #[trigger] exprs_view(s)[i] == expr_view(s[i]),
    decreases s.len(),
{
    if s.len() > 0 {
        lemma_exprs_view_index(s.drop_first());
        assert forall|i: int| 0 <= i < s.len() implies #[trigger] exprs_view(s)[i] == expr_view(s[i]) by {
            if i > 0 {
                assert(s.drop_first()[i - 1] == s[i]);
            }
        }
    }
}

pub proof fn lemma_stmts_view_index(s: Seq<Stmt>)
    ensures
        stmts_view(s).len() == s.len(),
        forall|i: int| 0 <= i < s.len() ==> #[trigger] stmts_view(s)[i] == stmt_view(s[i]),
    decreases s.len(),
{
    if s.len() > 0 {
        lemma_stmts_view_index(s.drop_first());
        assert forall|i: int| 0 <= i < s.len() implies #[trigger] stmts_view(s)[i] == stmt_view(s[i]) by {
            if i > 0 {
                assert(s.drop_first()[i - 1] == s[i]);
            }
        }
    }
}

} // verus!
