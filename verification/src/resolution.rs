//! What variable resolution computes: walking a program in order, with a
//! stack of scopes, which binding each variable use refers to (how many
//! scopes out), and the static errors found on the way.
use vstd::prelude::*;

use crate::ast::{SpecExpr, SpecStmt};
use crate::token::Token;

verus! {

/// What kind of function body the resolver is in.
#[derive(Debug, PartialEq, Eq, Clone, Copy, Structural)]
pub enum FunctionType {
    NONE,
    FUNCTION,
    METHOD,
    INITIALIZER,
}

/// What kind of class body the resolver is in.
#[derive(Debug, PartialEq, Eq, Clone, Copy, Structural)]
pub enum ClassType {
    NONE,
    CLASS,
    SUBCLASS,
}

/// The static errors the resolver reports.
#[derive(Debug, PartialEq, Eq, Clone, Copy, Structural)]
pub enum ResolveErrorKind {
    /// `return` outside any function.
    ReturnAtTopLevel,
    /// `return` with a value inside an `init` method.
    ReturnFromInitializer,
    /// `class A < A`.
    InheritFromSelf,
    /// A local variable read inside its own initializer.
    ReadInOwnInitializer,
    /// `this` outside a class body.
    ThisOutsideClass,
    /// `super` outside a class body.
    SuperOutsideClass,
    /// `super` in a class without a superclass.
    SuperWithoutSuperclass,
}

/// A static error and the (zero-based) line of the token it was found at.
#[derive(Debug, PartialEq, Eq, Clone, Copy, Structural)]
pub struct ResolveError {
    pub kind: ResolveErrorKind,
    pub line: usize,
}

/// The resolver's state: the scopes (innermost last; each maps a name to
/// whether its declaration is complete), the function and class kinds it is
/// in, the depth recorded for each resolved variable use (by the use's id),
/// and the errors so far.
pub struct ResolveState {
    pub scopes: Seq<Map<Seq<char>, bool>>,
    pub function: FunctionType,
    pub class: ClassType,
    pub locals: Map<usize, usize>,
    pub errors: Seq<ResolveError>,
}

pub open spec fn begin_scope(s: ResolveState) -> ResolveState {
    ResolveState { scopes: s.scopes.push(Map::empty()), ..s }
}

/// Leaving a scope (nothing happens when there is none).
pub open spec fn end_scope(s: ResolveState) -> ResolveState {
    if s.scopes.len() == 0 {
        s
    } else {
        ResolveState { scopes: s.scopes.drop_last(), ..s }
    }
}

/// Records `name` in the innermost scope as declared (`ready` false) or
/// defined (`ready` true); at the top level, where there is no scope,
/// nothing happens.
pub open spec fn mark(s: ResolveState, name: Seq<char>, ready: bool) -> ResolveState {
    if s.scopes.len() == 0 {
        s
    } else {
        ResolveState { scopes: s.scopes.update(s.scopes.len() - 1, s.scopes.last().insert(name, ready)), ..s }
    }
}

pub open spec fn report(s: ResolveState, kind: ResolveErrorKind, line: usize) -> ResolveState {
    ResolveState { errors: s.errors.push(ResolveError { kind, line }), ..s }
}

/// How many scopes out from the innermost the nearest one holding `name` is.
pub open spec fn scope_distance(scopes: Seq<Map<Seq<char>, bool>>, name: Seq<char>) -> Option<nat>
    decreases scopes.len(),
{
    if scopes.len() == 0 {
        None
    } else if scopes.last().contains_key(name) {
        Some(0)
    } else {
        match scope_distance(scopes.drop_last(), name) {
            Some(d) => Some(d + 1),
            None => None,
        }
    }
}

/// The depth found for a name is that of the nearest scope holding it,
/// counted outward from the innermost (0): that scope holds the name and no
/// scope inside it does; when no scope holds the name, none is found. So a
/// name in the innermost scope is found at depth 0, shadowing any outer one.
pub proof fn lemma_scope_distance_nearest(scopes: Seq<Map<Seq<char>, bool>>, name: Seq<char>)
    ensures
        match scope_distance(scopes, name) {
            Some(d) => {
                &&& d < scopes.len()
                &&& scopes[scopes.len() - 1 - d].contains_key(name)
                &&& forall|k: int| scopes.len() - 1 - d < k < scopes.len() ==> !(#[trigger] scopes[k]).contains_key(name)
            },
            None => forall|k: int| 0 <= k < scopes.len() ==> !(#[trigger] scopes[k]).contains_key(name),
        },
        scopes.len() > 0 && scopes.last().contains_key(name) ==> scope_distance(scopes, name) == Some(0nat),
    decreases scopes.len(),
{
    if scopes.len() > 0 && !scopes.last().contains_key(name) {
        let inner = scopes.drop_last();
        lemma_scope_distance_nearest(inner, name);
        assert forall|k: int| 0 <= k < inner.len() implies #[trigger] inner[k] == scopes[k] by {}
        match scope_distance(inner, name) {
            Some(d) => {
                assert(scopes[scopes.len() - 1 - (d + 1)] == inner[inner.len() - 1 - d]);
                assert forall|k: int| scopes.len() - 1 - (d + 1) < k < scopes.len() implies !(#[trigger] scopes[k]).contains_key(name) by {
                    if k < scopes.len() - 1 {
                        assert(scopes[k] == inner[k]);
                    }
                }
            },
            None => {
                assert forall|k: int| 0 <= k < scopes.len() implies !(#[trigger] scopes[k]).contains_key(name) by {
                    if k < scopes.len() - 1 {
                        assert(scopes[k] == inner[k]);
                    }
                }
            },
        }
    }
}

/// Records the depth of the use `id` of `name`, when a scope holds the
/// name; a global stays unrecorded.
pub open spec fn resolve_local(s: ResolveState, id: usize, name: Seq<char>) -> ResolveState {
    match scope_distance(s.scopes, name) {
        Some(d) => ResolveState { locals: s.locals.insert(id, d as usize), ..s },
        None => s,
    }
}

/// The variable `name` is declared but not yet defined in the innermost
/// scope.
pub open spec fn in_own_initializer(s: ResolveState, name: Seq<char>) -> bool {
    &&& s.scopes.len() > 0
    &&& s.scopes.last().contains_key(name)
    &&& s.scopes.last()[name] == false
}

/// Resolving an expression.
pub closed spec fn r_expr(s: ResolveState, e: SpecExpr) -> ResolveState
    decreases e, 0nat,
{
    match e {
        SpecExpr::Variable { name, id } => {
            let s1 = if in_own_initializer(s, name.lexeme@) {
                report(s, ResolveErrorKind::ReadInOwnInitializer, name.line)
            } else {
                s
            };
            resolve_local(s1, id, name.lexeme@)
        },
        SpecExpr::Assign { name, value, id } => resolve_local(r_expr(s, *value), id, name.lexeme@),
        SpecExpr::Binary { left, right, .. } => r_expr(r_expr(s, *left), *right),
        SpecExpr::Call { callee, args, .. } => r_exprs(r_expr(s, *callee), args, 0),
        SpecExpr::Grouping { expression } => r_expr(s, *expression),
        SpecExpr::Logical { left, right, .. } => r_expr(r_expr(s, *left), *right),
        SpecExpr::Unary { right, .. } => r_expr(s, *right),
        SpecExpr::Literal { .. } => s,
        SpecExpr::Get { object, .. } => r_expr(s, *object),
        SpecExpr::SetProperty { object, value, .. } => r_expr(r_expr(s, *object), *value),
        SpecExpr::This { keyword, id } => {
            let s1 = if s.class == ClassType::NONE {
                report(s, ResolveErrorKind::ThisOutsideClass, keyword.line)
            } else {
                s
            };
            resolve_local(s1, id, keyword.lexeme@)
        },
        SpecExpr::Super { keyword, id, .. } => match s.class {
            ClassType::SUBCLASS => resolve_local(s, id, keyword.lexeme@),
            ClassType::NONE => report(s, ResolveErrorKind::SuperOutsideClass, keyword.line),
            ClassType::CLASS => report(s, ResolveErrorKind::SuperWithoutSuperclass, keyword.line),
        },
    }
}

/// Resolving the expressions of `es` from index `i` on, in order.
pub closed spec fn r_exprs(s: ResolveState, es: Seq<SpecExpr>, i: int) -> ResolveState
    decreases es, es.len() - i,
{
    if 0 <= i < es.len() {
        r_exprs(r_expr(s, es[i]), es, i + 1)
    } else {
        s
    }
}

/// Declaring and defining the parameters of `ps` from index `i` on.
pub open spec fn r_params(s: ResolveState, ps: Seq<Token>, i: int) -> ResolveState
    decreases ps.len() - i,
{
    if 0 <= i < ps.len() {
        r_params(mark(mark(s, ps[i].lexeme@, false), ps[i].lexeme@, true), ps, i + 1)
    } else {
        s
    }
}

/// The class kind with another value.
pub open spec fn with_class(s: ResolveState, c: ClassType) -> ResolveState {
    ResolveState { class: c, ..s }
}

pub open spec fn with_function(s: ResolveState, f: FunctionType) -> ResolveState {
    ResolveState { function: f, ..s }
}

/// Resolving a statement.
pub closed spec fn r_stmt(s: ResolveState, st: SpecStmt) -> ResolveState
    decreases st, 0nat,
{
    match st {
        SpecStmt::Block { statements } => end_scope(r_stmts(begin_scope(s), statements, 0)),
        SpecStmt::Var { name, initializer } => {
            let s1 = mark(s, name.lexeme@, false);
            let s2 = match initializer {
                Some(i) => r_expr(s1, *i),
                None => s1,
            };
            mark(s2, name.lexeme@, true)
        },
        SpecStmt::Function(decl) => {
            let s1 = mark(mark(s, decl.name.lexeme@, false), decl.name.lexeme@, true);
            r_function(s1, decl.params, decl.body, FunctionType::FUNCTION)
        },
        SpecStmt::Expression(e) => r_expr(s, *e),
        SpecStmt::If { condition, then_branch, else_branch } => {
            let s1 = r_stmt(r_expr(s, condition), *then_branch);
            match else_branch {
                Some(b) => r_stmt(s1, *b),
                None => s1,
            }
        },
        SpecStmt::Print(e) => r_expr(s, *e),
        SpecStmt::Return { keyword, value } => {
            let s1 = if s.function == FunctionType::NONE {
                report(s, ResolveErrorKind::ReturnAtTopLevel, keyword.line)
            } else {
                s
            };
            match value {
                Some(v) => {
                    let s2 = if s1.function == FunctionType::INITIALIZER {
                        report(s1, ResolveErrorKind::ReturnFromInitializer, keyword.line)
                    } else {
                        s1
                    };
                    r_expr(s2, v)
                },
                None => s1,
            }
        },
        SpecStmt::While { condition, body } => r_expr(r_stmt(s, *body), condition),
        SpecStmt::Class { name, methods, superclass } => {
            let s1 = mark(mark(with_class(s, ClassType::CLASS), name.lexeme@, false), name.lexeme@, true);
            let s2 = match superclass {
                Some(SpecExpr::Variable { name: sc_name, .. }) => if sc_name.lexeme@ == name.lexeme@ {
                    report(s1, ResolveErrorKind::InheritFromSelf, name.line)
                } else {
                    s1
                },
                _ => s1,
            };
            let s3 = match superclass {
                Some(c) => mark(begin_scope(r_expr(with_class(s2, ClassType::SUBCLASS), c)), "super"@, true),
                None => s2,
            };
            let s4 = r_methods(mark(begin_scope(s3), "this"@, true), methods, 0);
            let s5 = end_scope(s4);
            let s6 = if superclass is Some {
                end_scope(s5)
            } else {
                s5
            };
            with_class(s6, s.class)
        },
    }
}

/// Resolving the statements of `sts` from index `i` on, in order.
pub closed spec fn r_stmts(s: ResolveState, sts: Seq<SpecStmt>, i: int) -> ResolveState
    decreases sts, sts.len() - i,
{
    if 0 <= i < sts.len() {
        r_stmts(r_stmt(s, sts[i]), sts, i + 1)
    } else {
        s
    }
}

/// Resolving the methods of a class body from index `i` on (an `init`
/// method is an initializer).
pub closed spec fn r_methods(s: ResolveState, ms: Seq<SpecStmt>, i: int) -> ResolveState
    decreases ms, ms.len() - i,
{
    if 0 <= i < ms.len() {
        let s1 = match ms[i] {
            SpecStmt::Function(decl) => r_function(
                s,
                decl.params,
                decl.body,
                if decl.name.lexeme@ == "init"@ {
                    FunctionType::INITIALIZER
                } else {
                    FunctionType::METHOD
                },
            ),
            _ => s,
        };
        r_methods(s1, ms, i + 1)
    } else {
        s
    }
}

/// Resolving a function body of kind `t`, in a scope of its own holding the
/// parameters.
pub closed spec fn r_function(s: ResolveState, params: Seq<Token>, body: Seq<SpecStmt>, t: FunctionType) -> ResolveState
    decreases body, body.len() + 1,
{
    let s1 = r_params(begin_scope(with_function(s, t)), params, 0);
    with_function(end_scope(r_stmts(s1, body, 0)), s.function)
}

// ----------------------------- unfolding -----------------------------

// The resolution functions above are closed: outside this module a proof sees one step of
// one of them only where it asks for it, by the lemma below that states that
// step. With the whole mutually recursive group unfolding by itself, proofs
// about the code that follows them get lost.

/// One step of `r_expr`.
pub proof fn unfold_r_expr(s: ResolveState, e: SpecExpr)
    ensures
        r_expr(s, e) == ({
        match e {
            SpecExpr::Variable { name, id } => {
                let s1 = if in_own_initializer(s, name.lexeme@) {
                    report(s, ResolveErrorKind::ReadInOwnInitializer, name.line)
                } else {
                    s
                };
                resolve_local(s1, id, name.lexeme@)
            },
            SpecExpr::Assign { name, value, id } => resolve_local(r_expr(s, *value), id, name.lexeme@),
            SpecExpr::Binary { left, right, .. } => r_expr(r_expr(s, *left), *right),
            SpecExpr::Call { callee, args, .. } => r_exprs(r_expr(s, *callee), args, 0),
            SpecExpr::Grouping { expression } => r_expr(s, *expression),
            SpecExpr::Logical { left, right, .. } => r_expr(r_expr(s, *left), *right),
            SpecExpr::Unary { right, .. } => r_expr(s, *right),
            SpecExpr::Literal { .. } => s,
            SpecExpr::Get { object, .. } => r_expr(s, *object),
            SpecExpr::SetProperty { object, value, .. } => r_expr(r_expr(s, *object), *value),
            SpecExpr::This { keyword, id } => {
                let s1 = if s.class == ClassType::NONE {
                    report(s, ResolveErrorKind::ThisOutsideClass, keyword.line)
                } else {
                    s
                };
                resolve_local(s1, id, keyword.lexeme@)
            },
            SpecExpr::Super { keyword, id, .. } => match s.class {
                ClassType::SUBCLASS => resolve_local(s, id, keyword.lexeme@),
                ClassType::NONE => report(s, ResolveErrorKind::SuperOutsideClass, keyword.line),
                ClassType::CLASS => report(s, ResolveErrorKind::SuperWithoutSuperclass, keyword.line),
            },
        }
        }),
{
}

/// One step of `r_exprs`.
pub proof fn unfold_r_exprs(s: ResolveState, es: Seq<SpecExpr>, i: int)
    ensures
        r_exprs(s, es, i) == ({
        if 0 <= i < es.len() {
            r_exprs(r_expr(s, es[i]), es, i + 1)
        } else {
            s
        }
        }),
{
}

/// One step of `r_stmt`.
pub proof fn unfold_r_stmt(s: ResolveState, st: SpecStmt)
    ensures
        r_stmt(s, st) == ({
        match st {
            SpecStmt::Block { statements } => end_scope(r_stmts(begin_scope(s), statements, 0)),
            SpecStmt::Var { name, initializer } => {
                let s1 = mark(s, name.lexeme@, false);
                let s2 = match initializer {
                    Some(i) => r_expr(s1, *i),
                    None => s1,
                };
                mark(s2, name.lexeme@, true)
            },
            SpecStmt::Function(decl) => {
                let s1 = mark(mark(s, decl.name.lexeme@, false), decl.name.lexeme@, true);
                r_function(s1, decl.params, decl.body, FunctionType::FUNCTION)
            },
            SpecStmt::Expression(e) => r_expr(s, *e),
            SpecStmt::If { condition, then_branch, else_branch } => {
                let s1 = r_stmt(r_expr(s, condition), *then_branch);
                match else_branch {
                    Some(b) => r_stmt(s1, *b),
                    None => s1,
                }
            },
            SpecStmt::Print(e) => r_expr(s, *e),
            SpecStmt::Return { keyword, value } => {
                let s1 = if s.function == FunctionType::NONE {
                    report(s, ResolveErrorKind::ReturnAtTopLevel, keyword.line)
                } else {
                    s
                };
                match value {
                    Some(v) => {
                        let s2 = if s1.function == FunctionType::INITIALIZER {
                            report(s1, ResolveErrorKind::ReturnFromInitializer, keyword.line)
                        } else {
                            s1
                        };
                        r_expr(s2, v)
                    },
                    None => s1,
                }
            },
            SpecStmt::While { condition, body } => r_expr(r_stmt(s, *body), condition),
            SpecStmt::Class { name, methods, superclass } => {
                let s1 = mark(mark(with_class(s, ClassType::CLASS), name.lexeme@, false), name.lexeme@, true);
                let s2 = match superclass {
                    Some(SpecExpr::Variable { name: sc_name, .. }) => if sc_name.lexeme@ == name.lexeme@ {
                        report(s1, ResolveErrorKind::InheritFromSelf, name.line)
                    } else {
                        s1
                    },
                    _ => s1,
                };
                let s3 = match superclass {
                    Some(c) => mark(begin_scope(r_expr(with_class(s2, ClassType::SUBCLASS), c)), "super"@, true),
                    None => s2,
                };
                let s4 = r_methods(mark(begin_scope(s3), "this"@, true), methods, 0);
                let s5 = end_scope(s4);
                let s6 = if superclass is Some {
                    end_scope(s5)
                } else {
                    s5
                };
                with_class(s6, s.class)
            },
        }
        }),
{
}

/// One step of `r_stmts`.
pub proof fn unfold_r_stmts(s: ResolveState, sts: Seq<SpecStmt>, i: int)
    ensures
        r_stmts(s, sts, i) == ({
        if 0 <= i < sts.len() {
            r_stmts(r_stmt(s, sts[i]), sts, i + 1)
        } else {
            s
        }
        }),
{
}

/// One step of `r_methods`.
pub proof fn unfold_r_methods(s: ResolveState, ms: Seq<SpecStmt>, i: int)
    ensures
        r_methods(s, ms, i) == ({
        if 0 <= i < ms.len() {
            let s1 = match ms[i] {
                SpecStmt::Function(decl) => r_function(
                    s,
                    decl.params,
                    decl.body,
                    if decl.name.lexeme@ == "init"@ {
                        FunctionType::INITIALIZER
                    } else {
                        FunctionType::METHOD
                    },
                ),
                _ => s,
            };
            r_methods(s1, ms, i + 1)
        } else {
            s
        }
        }),
{
}

/// One step of `r_function`.
pub proof fn unfold_r_function(s: ResolveState, params: Seq<Token>, body: Seq<SpecStmt>, t: FunctionType)
    ensures
        r_function(s, params, body, t) == ({
        let s1 = r_params(begin_scope(with_function(s, t)), params, 0);
        with_function(end_scope(r_stmts(s1, body, 0)), s.function)
        }),
{
}


// ----------------------------- laws -----------------------------

/// `after` keeps every error of `before`, in order, and may add more.
pub open spec fn errors_extend(before: Seq<ResolveError>, after: Seq<ResolveError>) -> bool {
    &&& before.len() <= after.len()
    &&& forall|i: int| 0 <= i < before.len() ==> #[trigger] after[i] == before[i]
}

/// `r` has the function and class kinds and the number of scopes of `s`,
/// and keeps its errors.
pub open spec fn same_context(s: ResolveState, r: ResolveState) -> bool {
    &&& r.function == s.function
    &&& r.class == s.class
    &&& r.scopes.len() == s.scopes.len()
    &&& errors_extend(s.errors, r.errors)
}

/// Resolving an expression touches neither the scopes nor the function and
/// class kinds, and keeps the errors found before.
pub proof fn lemma_r_expr_context(s: ResolveState, e: SpecExpr)
    ensures
        r_expr(s, e).scopes == s.scopes,
        same_context(s, r_expr(s, e)),
    decreases e, 0nat,
{
    match e {
        SpecExpr::Assign { value, .. } => {
            lemma_r_expr_context(s, *value);
        },
        SpecExpr::Binary { left, right, .. } => {
            lemma_r_expr_context(s, *left);
            lemma_r_expr_context(r_expr(s, *left), *right);
        },
        SpecExpr::Call { callee, args, .. } => {
            lemma_r_expr_context(s, *callee);
            lemma_r_exprs_context(r_expr(s, *callee), args, 0);
        },
        SpecExpr::Grouping { expression } => {
            lemma_r_expr_context(s, *expression);
        },
        SpecExpr::Logical { left, right, .. } => {
            lemma_r_expr_context(s, *left);
            lemma_r_expr_context(r_expr(s, *left), *right);
        },
        SpecExpr::Unary { right, .. } => {
            lemma_r_expr_context(s, *right);
        },
        SpecExpr::Get { object, .. } => {
            lemma_r_expr_context(s, *object);
        },
        SpecExpr::SetProperty { object, value, .. } => {
            lemma_r_expr_context(s, *object);
            lemma_r_expr_context(r_expr(s, *object), *value);
        },
        _ => {},
    }
}

pub proof fn lemma_r_exprs_context(s: ResolveState, es: Seq<SpecExpr>, i: int)
    ensures
        r_exprs(s, es, i).scopes == s.scopes,
        same_context(s, r_exprs(s, es, i)),
    decreases es, es.len() - i,
{
    if 0 <= i < es.len() {
        lemma_r_expr_context(s, es[i]);
        lemma_r_exprs_context(r_expr(s, es[i]), es, i + 1);
    }
}

proof fn lemma_r_params_context(s: ResolveState, ps: Seq<Token>, i: int)
    ensures
        same_context(s, r_params(s, ps, i)),
    decreases ps.len() - i,
{
    if 0 <= i < ps.len() {
        lemma_r_params_context(mark(mark(s, ps[i].lexeme@, false), ps[i].lexeme@, true), ps, i + 1);
    }
}

/// Resolving a statement leaves the function and class kinds and the
/// number of open scopes as they were, and keeps the errors found before:
/// every scope it opens, it closes.
pub proof fn lemma_r_stmt_context(s: ResolveState, st: SpecStmt)
    ensures
        same_context(s, r_stmt(s, st)),
    decreases st, 0nat,
{
    match st {
        SpecStmt::Block { statements } => {
            lemma_r_stmts_context(begin_scope(s), statements, 0);
        },
        SpecStmt::Var { name, initializer } => {
            match initializer {
                Some(i) => lemma_r_expr_context(mark(s, name.lexeme@, false), *i),
                None => {},
            }
        },
        SpecStmt::Function(decl) => {
            let s1 = mark(mark(s, decl.name.lexeme@, false), decl.name.lexeme@, true);
            lemma_r_function_context(s1, decl.params, decl.body, FunctionType::FUNCTION);
        },
        SpecStmt::Expression(e) => {
            lemma_r_expr_context(s, *e);
        },
        SpecStmt::If { condition, then_branch, else_branch } => {
            lemma_r_expr_context(s, condition);
            lemma_r_stmt_context(r_expr(s, condition), *then_branch);
            match else_branch {
                Some(b) => lemma_r_stmt_context(r_stmt(r_expr(s, condition), *then_branch), *b),
                None => {},
            }
        },
        SpecStmt::Print(e) => {
            lemma_r_expr_context(s, *e);
        },
        SpecStmt::Return { keyword, value } => {
            let s1 = if s.function == FunctionType::NONE {
                report(s, ResolveErrorKind::ReturnAtTopLevel, keyword.line)
            } else {
                s
            };
            match value {
                Some(v) => {
                    let s2 = if s1.function == FunctionType::INITIALIZER {
                        report(s1, ResolveErrorKind::ReturnFromInitializer, keyword.line)
                    } else {
                        s1
                    };
                    lemma_r_expr_context(s2, v);
                },
                None => {},
            }
        },
        SpecStmt::While { condition, body } => {
            lemma_r_stmt_context(s, *body);
            lemma_r_expr_context(r_stmt(s, *body), condition);
        },
        SpecStmt::Class { name, methods, superclass } => {
            let s1 = mark(mark(with_class(s, ClassType::CLASS), name.lexeme@, false), name.lexeme@, true);
            let s2 = match superclass {
                Some(SpecExpr::Variable { name: sc_name, .. }) => if sc_name.lexeme@ == name.lexeme@ {
                    report(s1, ResolveErrorKind::InheritFromSelf, name.line)
                } else {
                    s1
                },
                _ => s1,
            };
            match superclass {
                Some(c) => lemma_r_expr_context(with_class(s2, ClassType::SUBCLASS), c),
                None => {},
            }
            let s3 = match superclass {
                Some(c) => mark(begin_scope(r_expr(with_class(s2, ClassType::SUBCLASS), c)), "super"@, true),
                None => s2,
            };
            lemma_r_methods_context(mark(begin_scope(s3), "this"@, true), methods, 0);
        },
    }
}

pub proof fn lemma_r_stmts_context(s: ResolveState, sts: Seq<SpecStmt>, i: int)
    ensures
        same_context(s, r_stmts(s, sts, i)),
    decreases sts, sts.len() - i,
{
    if 0 <= i < sts.len() {
        lemma_r_stmt_context(s, sts[i]);
        lemma_r_stmts_context(r_stmt(s, sts[i]), sts, i + 1);
    }
}

proof fn lemma_r_methods_context(s: ResolveState, ms: Seq<SpecStmt>, i: int)
    ensures
        same_context(s, r_methods(s, ms, i)),
    decreases ms, ms.len() - i,
{
    if 0 <= i < ms.len() {
        let s1 = match ms[i] {
            SpecStmt::Function(decl) => r_function(
                s,
                decl.params,
                decl.body,
                if decl.name.lexeme@ == "init"@ {
                    FunctionType::INITIALIZER
                } else {
                    FunctionType::METHOD
                },
            ),
            _ => s,
        };
        match ms[i] {
            SpecStmt::Function(decl) => lemma_r_function_context(
                s,
                decl.params,
                decl.body,
                if decl.name.lexeme@ == "init"@ {
                    FunctionType::INITIALIZER
                } else {
                    FunctionType::METHOD
                },
            ),
            _ => {},
        }
        lemma_r_methods_context(s1, ms, i + 1);
    }
}

proof fn lemma_r_function_context(s: ResolveState, params: Seq<Token>, body: Seq<SpecStmt>, t: FunctionType)
    ensures
        same_context(s, r_function(s, params, body, t)),
    decreases body, body.len() + 1,
{
    let s0 = begin_scope(with_function(s, t));
    lemma_r_params_context(s0, params, 0);
    lemma_r_stmts_context(r_params(s0, params, 0), body, 0);
}

// ----------------------------- scopes and recorded depths -----------------------------

/// `b` is `a` after resolving something that opens no scope it does not
/// close: as many scopes, the outer ones unchanged, and in the innermost one
/// no name lost and each entry either as it was or marked complete.
pub open spec fn scopes_grow(a: Seq<Map<Seq<char>, bool>>, b: Seq<Map<Seq<char>, bool>>) -> bool {
    &&& b.len() == a.len()
    &&& forall|k: int| 0 <= k < a.len() - 1 ==> #[trigger] b[k] == a[k]
    &&& a.len() > 0 ==> forall|n: Seq<char>| #[trigger] a.last().contains_key(n) ==> b.last().contains_key(n)
    &&& a.len() > 0 ==> forall|n: Seq<char>| #[trigger] b.last().contains_key(n) ==> (b.last()[n] == true || (
        a.last().contains_key(n) && b.last()[n] == a.last()[n]))
}

/// Every use whose depth was recorded in `a` still has one in `b`.
pub open spec fn locals_kept(a: Map<usize, usize>, b: Map<usize, usize>) -> bool {
    forall|id: usize| #[trigger] a.contains_key(id) ==> b.contains_key(id)
}

/// `r` is `s` after resolving: scopes as `scopes_grow` says, no recorded
/// depth lost, and the errors kept.
pub open spec fn grows(s: ResolveState, r: ResolveState) -> bool {
    &&& scopes_grow(s.scopes, r.scopes)
    &&& locals_kept(s.locals, r.locals)
    &&& errors_extend(s.errors, r.errors)
}

proof fn lemma_grows_refl(s: ResolveState)
    ensures
        grows(s, s),
{
}

proof fn lemma_grows_trans(a: ResolveState, b: ResolveState, c: ResolveState)
    requires
        grows(a, b),
        grows(b, c),
    ensures
        grows(a, c),
{
    assert forall|k: int| 0 <= k < a.scopes.len() - 1 implies #[trigger] c.scopes[k] == a.scopes[k] by {
        assert(c.scopes[k] == b.scopes[k]);
        assert(b.scopes[k] == a.scopes[k]);
    }
    if a.scopes.len() > 0 {
        assert forall|n: Seq<char>| #[trigger] c.scopes.last().contains_key(n) implies (c.scopes.last()[n] == true || (
            a.scopes.last().contains_key(n) && c.scopes.last()[n] == a.scopes.last()[n])) by {
            if c.scopes.last()[n] != true {
                assert(b.scopes.last().contains_key(n));
            }
        }
        assert forall|n: Seq<char>| #[trigger] a.scopes.last().contains_key(n) implies c.scopes.last().contains_key(n) by {
            assert(b.scopes.last().contains_key(n));
        }
    }
    assert forall|i: int| 0 <= i < a.errors.len() implies #[trigger] c.errors[i] == a.errors[i] by {
        assert(c.errors[i] == b.errors[i]);
    }
}

/// Declaring and then defining a name in the innermost scope.
proof fn lemma_mark_grows(s: ResolveState, name: Seq<char>)
    ensures
        grows(s, mark(mark(s, name, false), name, true)),
        mark(mark(s, name, false), name, true) == mark(s, name, true),
{
    if s.scopes.len() > 0 {
        let r = mark(mark(s, name, false), name, true);
        assert(r.scopes.last() =~= s.scopes.last().insert(name, true));
        assert(r.scopes =~= mark(s, name, true).scopes);
    }
}

/// Marking a name complete in the innermost scope.
proof fn lemma_mark_true_grows(s: ResolveState, name: Seq<char>)
    ensures
        grows(s, mark(s, name, true)),
{
}

/// Closing a scope opened over `s`, after resolving inside it, gives back
/// the scopes of `s`.
proof fn lemma_close_scope(s: ResolveState, inner: ResolveState, r: ResolveState)
    requires
        inner.scopes == s.scopes.push(inner.scopes.last()),
        grows(inner, r),
        locals_kept(s.locals, inner.locals),
        errors_extend(s.errors, inner.errors),
    ensures
        end_scope(r).scopes == s.scopes,
        grows(s, end_scope(r)),
{
    assert forall|k: int| 0 <= k < s.scopes.len() implies #[trigger] r.scopes[k] == s.scopes[k] by {
        assert(r.scopes[k] == inner.scopes[k]);
    }
    assert(end_scope(r).scopes =~= s.scopes);
    assert forall|i: int| 0 <= i < s.errors.len() implies #[trigger] r.errors[i] == s.errors[i] by {
        assert(r.errors[i] == inner.errors[i]);
    }
}

proof fn lemma_r_expr_grows(s: ResolveState, e: SpecExpr)
    ensures
        grows(s, r_expr(s, e)),
    decreases e, 0nat,
{
    lemma_r_expr_context(s, e);
    match e {
        SpecExpr::Assign { value, .. } => {
            lemma_r_expr_grows(s, *value);
        },
        SpecExpr::Binary { left, right, .. } => {
            lemma_r_expr_grows(s, *left);
            lemma_r_expr_grows(r_expr(s, *left), *right);
            lemma_grows_trans(s, r_expr(s, *left), r_expr(r_expr(s, *left), *right));
        },
        SpecExpr::Call { callee, args, .. } => {
            lemma_r_expr_grows(s, *callee);
            lemma_r_exprs_grows(r_expr(s, *callee), args, 0);
            lemma_grows_trans(s, r_expr(s, *callee), r_exprs(r_expr(s, *callee), args, 0));
        },
        SpecExpr::Grouping { expression } => {
            lemma_r_expr_grows(s, *expression);
        },
        SpecExpr::Logical { left, right, .. } => {
            lemma_r_expr_grows(s, *left);
            lemma_r_expr_grows(r_expr(s, *left), *right);
            lemma_grows_trans(s, r_expr(s, *left), r_expr(r_expr(s, *left), *right));
        },
        SpecExpr::Unary { right, .. } => {
            lemma_r_expr_grows(s, *right);
        },
        SpecExpr::Get { object, .. } => {
            lemma_r_expr_grows(s, *object);
        },
        SpecExpr::SetProperty { object, value, .. } => {
            lemma_r_expr_grows(s, *object);
            lemma_r_expr_grows(r_expr(s, *object), *value);
            lemma_grows_trans(s, r_expr(s, *object), r_expr(r_expr(s, *object), *value));
        },
        _ => {},
    }
}

proof fn lemma_r_exprs_grows(s: ResolveState, es: Seq<SpecExpr>, i: int)
    ensures
        grows(s, r_exprs(s, es, i)),
    decreases es, es.len() - i,
{
    if 0 <= i < es.len() {
        lemma_r_expr_grows(s, es[i]);
        lemma_r_exprs_grows(r_expr(s, es[i]), es, i + 1);
        lemma_grows_trans(s, r_expr(s, es[i]), r_exprs(r_expr(s, es[i]), es, i + 1));
    }
}

proof fn lemma_r_params_grows(s: ResolveState, ps: Seq<Token>, i: int)
    ensures
        grows(s, r_params(s, ps, i)),
    decreases ps.len() - i,
{
    if 0 <= i < ps.len() {
        let s1 = mark(mark(s, ps[i].lexeme@, false), ps[i].lexeme@, true);
        lemma_mark_grows(s, ps[i].lexeme@);
        lemma_r_params_grows(s1, ps, i + 1);
        lemma_grows_trans(s, s1, r_params(s1, ps, i + 1));
    }
}

proof fn lemma_r_function_grows(s: ResolveState, params: Seq<Token>, body: Seq<SpecStmt>, t: FunctionType)
    ensures
        grows(s, r_function(s, params, body, t)),
        r_function(s, params, body, t).scopes == s.scopes,
    decreases body, body.len() + 1,
{
    let s0 = begin_scope(with_function(s, t));
    let s1 = r_params(s0, params, 0);
    lemma_r_params_grows(s0, params, 0);
    lemma_r_stmts_grows(s1, body, 0);
    lemma_grows_trans(s0, s1, r_stmts(s1, body, 0));
    lemma_close_scope(s, s0, r_stmts(s1, body, 0));
}

proof fn lemma_r_stmts_grows(s: ResolveState, sts: Seq<SpecStmt>, i: int)
    ensures
        grows(s, r_stmts(s, sts, i)),
    decreases sts, sts.len() - i,
{
    if 0 <= i < sts.len() {
        lemma_r_stmt_grows(s, sts[i]);
        lemma_r_stmts_grows(r_stmt(s, sts[i]), sts, i + 1);
        lemma_grows_trans(s, r_stmt(s, sts[i]), r_stmts(r_stmt(s, sts[i]), sts, i + 1));
    }
}

proof fn lemma_r_methods_grows(s: ResolveState, ms: Seq<SpecStmt>, i: int)
    ensures
        grows(s, r_methods(s, ms, i)),
    decreases ms, ms.len() - i,
{
    if 0 <= i < ms.len() {
        let t = match ms[i] {
            SpecStmt::Function(decl) => if decl.name.lexeme@ == "init"@ {
                FunctionType::INITIALIZER
            } else {
                FunctionType::METHOD
            },
            _ => FunctionType::NONE,
        };
        let s1 = match ms[i] {
            SpecStmt::Function(decl) => r_function(s, decl.params, decl.body, t),
            _ => s,
        };
        match ms[i] {
            SpecStmt::Function(decl) => lemma_r_function_grows(s, decl.params, decl.body, t),
            _ => {},
        }
        lemma_r_methods_grows(s1, ms, i + 1);
        lemma_grows_trans(s, s1, r_methods(s1, ms, i + 1));
    }
}

proof fn lemma_var_grows(s: ResolveState, name: Token, initializer: Option<Box<SpecExpr>>)
    ensures
        grows(s, r_stmt(s, SpecStmt::Var { name, initializer })),
{
    let n = name.lexeme@;
    let s1 = mark(s, n, false);
    let s2 = match initializer {
        Some(i) => r_expr(s1, *i),
        None => s1,
    };
    match initializer {
        Some(i) => {
            lemma_r_expr_context(s1, *i);
            lemma_r_expr_grows(s1, *i);
        },
        None => {},
    }
    assert(s2.scopes == s1.scopes);
    let r = mark(s2, n, true);
    if s.scopes.len() > 0 {
        assert(s1.scopes.last().insert(n, true) =~= s.scopes.last().insert(n, true));
        assert(r.scopes =~= mark(s, n, true).scopes);
    }
    lemma_mark_true_grows(s, n);
    assert forall|i: int| 0 <= i < s.errors.len() implies #[trigger] r.errors[i] == s.errors[i] by {
        assert(s2.errors[i] == s1.errors[i]);
    }
    assert forall|id: usize| #[trigger] s.locals.contains_key(id) implies r.locals.contains_key(id) by {
        assert(s1.locals.contains_key(id));
    }
}

proof fn lemma_class_grows(s: ResolveState, st: SpecStmt)
    requires
        st is Class,
    ensures
        grows(s, r_stmt(s, st)),
    decreases st, 0nat,
{
    match st {
        SpecStmt::Class { name, methods, superclass } => {
            let s1 = mark(mark(with_class(s, ClassType::CLASS), name.lexeme@, false), name.lexeme@, true);
            lemma_mark_grows(with_class(s, ClassType::CLASS), name.lexeme@);
            let s2 = match superclass {
                Some(SpecExpr::Variable { name: sc_name, .. }) => if sc_name.lexeme@ == name.lexeme@ {
                    report(s1, ResolveErrorKind::InheritFromSelf, name.line)
                } else {
                    s1
                },
                _ => s1,
            };
            lemma_grows_trans(s, s1, s2);
            let s3 = match superclass {
                Some(c) => mark(begin_scope(r_expr(with_class(s2, ClassType::SUBCLASS), c)), "super"@, true),
                None => s2,
            };
            let b = mark(begin_scope(s3), "this"@, true);
            assert(b.scopes =~= s3.scopes.push(b.scopes.last()));
            let s4 = r_methods(b, methods, 0);
            lemma_r_methods_grows(b, methods, 0);
            lemma_close_scope(s3, b, s4);
            let s5 = end_scope(s4);
            match superclass {
                Some(c) => {
                    let e = r_expr(with_class(s2, ClassType::SUBCLASS), c);
                    lemma_r_expr_context(with_class(s2, ClassType::SUBCLASS), c);
                    lemma_r_expr_grows(with_class(s2, ClassType::SUBCLASS), c);
                    assert(s3.scopes =~= e.scopes.push(s3.scopes.last()));
                    lemma_close_scope(e, s3, s5);
                    lemma_grows_trans(s2, e, end_scope(s5));
                    lemma_grows_trans(s, s2, end_scope(s5));
                },
                None => {
                    lemma_grows_trans(s, s2, s5);
                },
            }
        },
        _ => {},
    }
}

proof fn lemma_r_stmt_grows(s: ResolveState, st: SpecStmt)
    ensures
        grows(s, r_stmt(s, st)),
    decreases st, 1nat,
{
    match st {
        SpecStmt::Block { statements } => {
            let b = begin_scope(s);
            lemma_r_stmts_grows(b, statements, 0);
            lemma_close_scope(s, b, r_stmts(b, statements, 0));
        },
        SpecStmt::Var { name, initializer } => {
            lemma_var_grows(s, name, initializer);
        },
        SpecStmt::Function(decl) => {
            let s1 = mark(mark(s, decl.name.lexeme@, false), decl.name.lexeme@, true);
            lemma_mark_grows(s, decl.name.lexeme@);
            lemma_r_function_grows(s1, decl.params, decl.body, FunctionType::FUNCTION);
            lemma_grows_trans(s, s1, r_function(s1, decl.params, decl.body, FunctionType::FUNCTION));
        },
        SpecStmt::Expression(e) => {
            lemma_r_expr_grows(s, *e);
        },
        SpecStmt::If { condition, then_branch, else_branch } => {
            let s0 = r_expr(s, condition);
            let s1 = r_stmt(s0, *then_branch);
            lemma_r_expr_grows(s, condition);
            lemma_r_stmt_grows(s0, *then_branch);
            lemma_grows_trans(s, s0, s1);
            match else_branch {
                Some(b) => {
                    lemma_r_stmt_grows(s1, *b);
                    lemma_grows_trans(s, s1, r_stmt(s1, *b));
                },
                None => {},
            }
        },
        SpecStmt::Print(e) => {
            lemma_r_expr_grows(s, *e);
        },
        SpecStmt::Return { keyword, value } => {
            let s1 = if s.function == FunctionType::NONE {
                report(s, ResolveErrorKind::ReturnAtTopLevel, keyword.line)
            } else {
                s
            };
            match value {
                Some(v) => {
                    let s2 = if s1.function == FunctionType::INITIALIZER {
                        report(s1, ResolveErrorKind::ReturnFromInitializer, keyword.line)
                    } else {
                        s1
                    };
                    lemma_r_expr_grows(s2, v);
                    lemma_grows_trans(s, s2, r_expr(s2, v));
                },
                None => {},
            }
        },
        SpecStmt::While { condition, body } => {
            lemma_r_stmt_grows(s, *body);
            lemma_r_expr_grows(r_stmt(s, *body), condition);
            lemma_grows_trans(s, r_stmt(s, *body), r_expr(r_stmt(s, *body), condition));
        },
        SpecStmt::Class { name, methods, superclass } => {
            lemma_class_grows(s, st);
        },
    }
}

/// Resolving a statement leaves the function and class kinds and the
/// number of open scopes as they were, keeps the errors found before, leaves
/// every scope but the innermost as it was, in the innermost one loses no
/// name and only marks entries complete, and loses no recorded depth.
pub proof fn lemma_r_stmt_state(s: ResolveState, st: SpecStmt)
    ensures
        same_context(s, r_stmt(s, st)),
        grows(s, r_stmt(s, st)),
{
    lemma_r_stmt_context(s, st);
    lemma_r_stmt_grows(s, st);
}

/// Resolving an expression leaves the scopes and the function and class
/// kinds as they were, keeps the errors found before, and loses no recorded
/// depth.
pub proof fn lemma_r_expr_state(s: ResolveState, e: SpecExpr)
    ensures
        r_expr(s, e).scopes == s.scopes,
        same_context(s, r_expr(s, e)),
        grows(s, r_expr(s, e)),
{
    lemma_r_expr_context(s, e);
    lemma_r_expr_grows(s, e);
}

/// Resolving a variable use records, under the use's id, how many scopes
/// out the nearest scope holding its name is (0 for the innermost); a name
/// no scope holds is a global and gets no record.
pub proof fn lemma_variable_use_depth(s: ResolveState, name: Token, id: usize)
    requires
        s.scopes.len() <= usize::MAX,
    ensures
        forall|j: int|
            #![trigger s.scopes[j]]
            0 <= j < s.scopes.len() && s.scopes[j].contains_key(name.lexeme@) && (forall|k: int|
                j < k < s.scopes.len() ==> !(#[trigger] s.scopes[k]).contains_key(name.lexeme@)) ==> {
                let r = r_expr(s, SpecExpr::Variable { name, id });
                r.locals.contains_key(id) && r.locals[id] == s.scopes.len() - 1 - j
            },
        (forall|k: int| 0 <= k < s.scopes.len() ==> !(#[trigger] s.scopes[k]).contains_key(name.lexeme@)) ==> r_expr(
            s,
            SpecExpr::Variable { name, id },
        ).locals == s.locals,
{
    lemma_scope_distance_nearest(s.scopes, name.lexeme@);
    let n = name.lexeme@;
    assert forall|j: int|
        #![trigger s.scopes[j]]
        0 <= j < s.scopes.len() && s.scopes[j].contains_key(n) && (forall|k: int|
            j < k < s.scopes.len() ==> !(#[trigger] s.scopes[k]).contains_key(n)) implies {
            let r = r_expr(s, SpecExpr::Variable { name, id });
            r.locals.contains_key(id) && r.locals[id] == s.scopes.len() - 1 - j
        } by {
        match scope_distance(s.scopes, n) {
            Some(d) => {
                let i = s.scopes.len() - 1 - d;
                if i < j {
                    assert(!s.scopes[j].contains_key(n));
                } else if i > j {
                    assert(!s.scopes[i].contains_key(n));
                }
                assert(i == j);
                let s1 = if in_own_initializer(s, n) {
                    report(s, ResolveErrorKind::ReadInOwnInitializer, name.line)
                } else {
                    s
                };
                assert(r_expr(s, SpecExpr::Variable { name, id }) == resolve_local(s1, id, n));
                assert(resolve_local(s1, id, n).locals == s.locals.insert(id, d as usize));
            },
            None => {
                assert(!s.scopes[j].contains_key(n));
            },
        }
    }
    if forall|k: int| 0 <= k < s.scopes.len() ==> !(#[trigger] s.scopes[k]).contains_key(n) {
        match scope_distance(s.scopes, n) {
            Some(d) => {
                assert(s.scopes[s.scopes.len() - 1 - d].contains_key(n));
            },
            None => {},
        }
    }
}

} // verus!
