//! The resolver: a pass over the syntax tree before it runs, which finds
//! for each variable use how many scopes out its binding is, and reports
//! static errors. Each step is proved to do what `resolution` says.
use std::collections::HashMap;
use vstd::prelude::*;

use crate::ast::{
    expr_view, exprs_view, lemma_exprs_view_index, lemma_stmts_view_index, stmt_view,
    stmts_view, Expr, Stmt,
};
use crate::resolution::{
    begin_scope, end_scope, in_own_initializer, mark, r_expr, r_exprs, r_function, r_methods,
    r_params, r_stmt, r_stmts, report, resolve_local, scope_distance, unfold_r_expr,
    unfold_r_exprs, unfold_r_function, unfold_r_methods, unfold_r_stmt, unfold_r_stmts,
    with_class, with_function, ClassType, FunctionType, ResolveError, ResolveErrorKind,
    ResolveState,
};
use crate::token::Token;

verus! {

broadcast use vstd::std_specs::hash::group_hash_axioms;

/// A scope as a map: later entries for a name replace earlier ones.
pub open spec fn scope_view(sc: Seq<(String, bool)>) -> Map<Seq<char>, bool>
    decreases sc.len(),
{
    if sc.len() == 0 {
        Map::empty()
    } else {
        scope_view(sc.drop_last()).insert(sc.last().0@, sc.last().1)
    }
}

pub open spec fn scopes_view(v: Seq<Vec<(String, bool)>>) -> Seq<Map<Seq<char>, bool>> {
    v.map_values(|sc: Vec<(String, bool)>| scope_view(sc@))
}

/// Resolves variable uses to scope depths and reports static errors.
pub struct Resolver {
    scopes: Vec<Vec<(String, bool)>>,
    current_function: FunctionType,
    current_class: ClassType,
    had_error: bool,
    errors: Vec<ResolveError>,
    locals: HashMap<usize, usize>,
}

impl View for Resolver {
    type V = ResolveState;

    closed spec fn view(&self) -> ResolveState {
        ResolveState {
            scopes: scopes_view(self.scopes@),
            function: self.current_function,
            class: self.current_class,
            locals: self.locals@,
            errors: self.errors@,
        }
    }
}

/// Looks `name` up in one scope.
fn scope_lookup(sc: &Vec<(String, bool)>, name: &String) -> (r: Option<bool>)
    ensures
        r == (if scope_view(sc@).contains_key(name@) {
            Some(scope_view(sc@)[name@])
        } else {
            None::<bool>
        }),
{
    let mut k: usize = sc.len();
    assert(sc@.subrange(0, k as int) =~= sc@);
    while k > 0
        invariant
            k <= sc@.len(),
            scope_view(sc@).contains_key(name@) == scope_view(sc@.subrange(0, k as int)).contains_key(name@),
            scope_view(sc@.subrange(0, k as int)).contains_key(name@) ==> scope_view(sc@)[name@] == scope_view(
                sc@.subrange(0, k as int),
            )[name@],
        decreases k,
    {
        let ghost pre = sc@.subrange(0, k as int);
        assert(pre.drop_last() =~= sc@.subrange(0, k - 1));
        assert(pre.last() == sc@[k - 1]);
        if sc[k - 1].0 == *name {
            return Some(sc[k - 1].1);
        }
        k = k - 1;
    }
    assert(sc@.subrange(0, 0) =~= Seq::<(String, bool)>::empty());
    None
}

impl Resolver {
    /// The resolver's invariant: it has an error exactly when it recorded one.
    pub closed spec fn wf(&self) -> bool {
        self.had_error == (self.errors@.len() > 0)
    }

    pub fn new() -> (r: Self)
        ensures
            r.wf(),
            r@ == (ResolveState {
                scopes: Seq::empty(),
                function: FunctionType::NONE,
                class: ClassType::NONE,
                locals: Map::empty(),
                errors: Seq::empty(),
            }),
    {
        let r = Self {
            scopes: Vec::new(),
            current_function: FunctionType::NONE,
            current_class: ClassType::NONE,
            had_error: false,
            errors: Vec::new(),
            locals: HashMap::new(),
        };
        assert(scopes_view(r.scopes@) =~= Seq::<Map<Seq<char>, bool>>::empty());
        r
    }

    /// The depth recorded for each resolved variable use, by its id.
    pub fn locals(&self) -> (m: &HashMap<usize, usize>)
        ensures
            m@ == self@.locals,
    {
        &self.locals
    }

    /// The static errors reported so far, in order.
    pub fn errors(&self) -> (es: &Vec<ResolveError>)
        ensures
            es@ == self@.errors,
    {
        &self.errors
    }

    fn begin_scope(&mut self)
        requires
            old(self).wf(),
        ensures
            final(self).wf(),
            final(self)@ == begin_scope(old(self)@),
    {
        self.scopes.push(Vec::new());
        assert(scopes_view(self.scopes@) =~= scopes_view(old(self).scopes@).push(Map::empty()));
    }

    fn end_scope(&mut self)
        requires
            old(self).wf(),
        ensures
            final(self).wf(),
            final(self)@ == end_scope(old(self)@),
    {
        if self.scopes.len() > 0 {
            let _ = self.scopes.pop();
            assert(scopes_view(self.scopes@) =~= scopes_view(old(self).scopes@).drop_last());
        }
    }

    /// Records `name` in the innermost scope, as declared or defined.
    fn mark(&mut self, name: &String, ready: bool)
        requires
            old(self).wf(),
        ensures
            final(self).wf(),
            final(self)@ == mark(old(self)@, name@, ready),
    {
        if self.scopes.len() == 0 {
            return;
        }
        let mut scope = self.scopes.pop().unwrap();
        scope.push((name.clone(), ready));
        assert(scope@.drop_last() =~= old(self).scopes@.last()@);
        self.scopes.push(scope);
        assert(scopes_view(self.scopes@) =~= scopes_view(old(self).scopes@).update(
            old(self).scopes@.len() - 1,
            scopes_view(old(self).scopes@).last().insert(name@, ready),
        ));
    }

    fn declare(&mut self, name: &Token)
        requires
            old(self).wf(),
        ensures
            final(self).wf(),
            final(self)@ == mark(old(self)@, name.lexeme@, false),
    {
        self.mark(&name.lexeme, false);
    }

    fn define(&mut self, name: &Token)
        requires
            old(self).wf(),
        ensures
            final(self).wf(),
            final(self)@ == mark(old(self)@, name.lexeme@, true),
    {
        self.mark(&name.lexeme, true);
    }

    fn report(&mut self, kind: ResolveErrorKind, line: usize)
        requires
            old(self).wf(),
        ensures
            final(self).wf(),
            final(self)@ == report(old(self)@, kind, line),
    {
        self.errors.push(ResolveError { kind, line });
        self.had_error = true;
    }

    /// Records how many scopes out the nearest binding of `name` is, for the
    /// use `id`; a name bound in no scope is a global and stays unrecorded.
    fn resolve_local(&mut self, id: usize, name: &Token)
        requires
            old(self).wf(),
        ensures
            final(self).wf(),
            final(self)@ == resolve_local(old(self)@, id, name.lexeme@),
    {
        let ghost sv = self@.scopes;
        let n = self.scopes.len();
        let mut distance: usize = 0;
        assert(sv.subrange(0, n as int) =~= sv);
        while distance < n
            invariant
                *self == *old(self),
                self.wf(),
                sv == self@.scopes,
                n == sv.len(),
                distance <= n,
                scope_distance(sv, name.lexeme@) == match scope_distance(sv.subrange(0, n - distance), name.lexeme@) {
                    Some(d) => Some((d + distance) as nat),
                    None => None::<nat>,
                },
            decreases n - distance,
        {
            let ghost pre = sv.subrange(0, n - distance);
            assert(pre.drop_last() =~= sv.subrange(0, n - distance - 1));
            assert(pre.last() == scope_view(self.scopes@[n - distance - 1]@));
            if scope_lookup(&self.scopes[n - 1 - distance], &name.lexeme).is_some() {
                self.locals.insert(id, distance);
                return;
            }
            distance = distance + 1;
        }
        assert(sv.subrange(0, 0) =~= Seq::<Map<Seq<char>, bool>>::empty());
    }

    fn resolve_expr(&mut self, expr: &Expr)
        requires
            old(self).wf(),
        ensures
            final(self).wf(),
            final(self)@ == r_expr(old(self)@, expr_view(*expr)),
        decreases expr,
    {
        proof {
            unfold_r_expr(self@, expr_view(*expr));
        }
        match expr {
            Expr::Variable { name, id } => {
                let in_initializer = match self.scopes.last() {
                    Some(scope) => scope_lookup(scope, &name.lexeme) == Some(false),
                    None => false,
                };
                if in_initializer {
                    self.report(ResolveErrorKind::ReadInOwnInitializer, name.line);
                }
                self.resolve_local(*id, name);
            },
            Expr::Assign { name, value, id } => {
                self.resolve_expr(value);
                self.resolve_local(*id, name);
            },
            Expr::Binary { left, right, .. } => {
                self.resolve_expr(left);
                self.resolve_expr(right);
            },
            Expr::Call { callee, args, .. } => {
                self.resolve_expr(callee);
                let ghost s1 = self@;
                let ghost ev = exprs_view(args@);
                proof {
                    lemma_exprs_view_index(args@);
                    assert(decreases_to!(*expr => *args));
                    assert forall|j: int| 0 <= j < args@.len() implies decreases_to!(*expr => #[trigger] args@[j]) by {
                        assert(decreases_to!(*args => args@));
                        assert(decreases_to!(args@ => args@[j]));
                    }
                }
                let mut i: usize = 0;
                while i < args.len()
                    invariant
                        self.wf(),
                        i <= args.len(),
                        ev == exprs_view(args@),
                        ev.len() == args@.len(),
                        forall|j: int| 0 <= j < args@.len() ==> #[trigger] ev[j] == expr_view(args@[j]),
                        r_exprs(s1, ev, 0) == r_exprs(self@, ev, i as int),
                        forall|j: int| 0 <= j < args@.len() ==> decreases_to!(*expr => #[trigger] args@[j]),
                    decreases args.len() - i,
                {
                    proof {
                        unfold_r_exprs(self@, ev, i as int);
                        assert(decreases_to!(*expr => args@[i as int]));
                    }
                    self.resolve_expr(&args[i]);
                    i = i + 1;
                }
                proof {
                    unfold_r_exprs(self@, ev, i as int);
                }
            },
            Expr::Grouping { expression } => {
                self.resolve_expr(expression);
            },
            Expr::Logical { left, right, .. } => {
                self.resolve_expr(left);
                self.resolve_expr(right);
            },
            Expr::Unary { right, .. } => {
                self.resolve_expr(right);
            },
            Expr::Literal { .. } => {},
            Expr::Get { object, .. } => {
                self.resolve_expr(object);
            },
            Expr::SetProperty { object, value, .. } => {
                self.resolve_expr(object);
                self.resolve_expr(value);
            },
            Expr::This { keyword, id } => {
                if self.current_class == ClassType::NONE {
                    self.report(ResolveErrorKind::ThisOutsideClass, keyword.line);
                }
                self.resolve_local(*id, keyword);
            },
            Expr::Super { keyword, id, .. } => {
                match self.current_class {
                    ClassType::SUBCLASS => {
                        self.resolve_local(*id, keyword);
                    },
                    ClassType::NONE => {
                        self.report(ResolveErrorKind::SuperOutsideClass, keyword.line);
                    },
                    ClassType::CLASS => {
                        self.report(ResolveErrorKind::SuperWithoutSuperclass, keyword.line);
                    },
                }
            },
        }
    }
}

impl Resolver {
    /// Resolves a function body of kind `t`: a scope of its own holds the
    /// parameters, and `t` is the function kind while inside.
    fn resolve_function(&mut self, params: &[Token], func: &[Stmt], t: FunctionType)
        requires
            old(self).wf(),
        ensures
            final(self).wf(),
            final(self)@ == r_function(old(self)@, params@, stmts_view(func@), t),
        decreases func@, 2nat,
    {
        proof {
            unfold_r_function(self@, params@, stmts_view(func@), t);
        }
        let enclosing_function = self.current_function;
        self.current_function = t;
        self.begin_scope();
        let ghost s1 = self@;
        let mut i: usize = 0;
        while i < params.len()
            invariant
                self.wf(),
                i <= params@.len(),
                self.current_function == t,
                r_params(s1, params@, 0) == r_params(self@, params@, i as int),
            decreases params.len() - i,
        {
            self.declare(&params[i]);
            self.define(&params[i]);
            i = i + 1;
        }
        self.resolve(func);
        self.end_scope();
        self.current_function = enclosing_function;
    }

    fn resolve_stmt(&mut self, stmt: &Stmt)
        requires
            old(self).wf(),
        ensures
            final(self).wf(),
            final(self)@ == r_stmt(old(self)@, stmt_view(*stmt)),
        decreases stmt, 0nat,
    {
        proof {
            unfold_r_stmt(self@, stmt_view(*stmt));
        }
        match stmt {
            Stmt::Block { statements } => {
                self.begin_scope();
                proof {
                    assert(decreases_to!(*stmt => *statements));
                    assert(decreases_to!(*statements => statements@));
                }
                self.resolve(statements.as_slice());
                self.end_scope();
            },
            Stmt::Var { name, initializer } => {
                self.declare(name);
                match initializer {
                    Some(i) => {
                        self.resolve_expr(i);
                    },
                    None => {},
                }
                self.define(name);
            },
            Stmt::Function(decl) => {
                self.declare(&decl.name);
                self.define(&decl.name);
                proof {
                    assert(decreases_to!(*stmt => *decl));
                    assert(decreases_to!(*decl => decl.body));
                    assert(decreases_to!(decl.body => decl.body@));
                }
                self.resolve_function(decl.params.as_slice(), decl.body.as_slice(), FunctionType::FUNCTION);
            },
            Stmt::Expression(e) => {
                self.resolve_expr(e);
            },
            Stmt::If { condition, then_branch, else_branch } => {
                self.resolve_expr(condition);
                self.resolve_stmt(then_branch);
                if let Some(else_branch) = else_branch {
                    self.resolve_stmt(else_branch);
                }
            },
            Stmt::Print(p) => {
                self.resolve_expr(p);
            },
            Stmt::Return { value, keyword } => {
                if self.current_function == FunctionType::NONE {
                    self.report(ResolveErrorKind::ReturnAtTopLevel, keyword.line);
                }
                if let Some(value) = value {
                    if self.current_function == FunctionType::INITIALIZER {
                        self.report(ResolveErrorKind::ReturnFromInitializer, keyword.line);
                    }
                    self.resolve_expr(value);
                }
            },
            Stmt::While { condition, body } => {
                self.resolve_stmt(body);
                self.resolve_expr(condition);
            },
            Stmt::Class { name, methods, superclass } => {
                let enclosing_class = self.current_class;
                self.current_class = ClassType::CLASS;
                self.declare(name);
                self.define(name);
                if let Some(Expr::Variable { name: sc_name, .. }) = superclass {
                    if sc_name.lexeme == name.lexeme {
                        self.report(ResolveErrorKind::InheritFromSelf, name.line);
                    }
                }
                if let Some(c) = superclass {
                    self.current_class = ClassType::SUBCLASS;
                    self.resolve_expr(c);
                    self.begin_scope();
                    self.mark(&"super".to_string(), true);
                }
                self.begin_scope();
                self.mark(&"this".to_string(), true);
                let ghost s6 = self@;
                let ghost mv = stmts_view(methods@);
                proof {
                    lemma_stmts_view_index(methods@);
                    assert(decreases_to!(*stmt => *methods));
                    assert forall|j: int| 0 <= j < methods@.len() implies decreases_to!(*stmt => #[trigger] methods@[j]) by {
                        assert(decreases_to!(*methods => methods@));
                        assert(decreases_to!(methods@ => methods@[j]));
                    }
                }
                let mut i: usize = 0;
                while i < methods.len()
                    invariant
                        self.wf(),
                        i <= methods@.len(),
                        mv == stmts_view(methods@),
                        mv.len() == methods@.len(),
                        forall|j: int| 0 <= j < methods@.len() ==> #[trigger] mv[j] == stmt_view(methods@[j]),
                        forall|j: int| 0 <= j < methods@.len() ==> decreases_to!(*stmt => #[trigger] methods@[j]),
                        r_methods(s6, mv, 0) == r_methods(self@, mv, i as int),
                    decreases methods.len() - i,
                {
                    proof {
                        unfold_r_methods(self@, mv, i as int);
                    }
                    if let Stmt::Function(decl) = &methods[i] {
                        let ty = if decl.name.lexeme == "init".to_string() {
                            FunctionType::INITIALIZER
                        } else {
                            FunctionType::METHOD
                        };
                        proof {
                            assert(decreases_to!(methods@[i as int] => *decl));
                            assert(decreases_to!(*decl => decl.body));
                            assert(decreases_to!(decl.body => decl.body@));
                        }
                        self.resolve_function(decl.params.as_slice(), decl.body.as_slice(), ty);
                    }
                    i = i + 1;
                }
                proof {
                    unfold_r_methods(self@, mv, i as int);
                }
                self.end_scope();
                if superclass.is_some() {
                    self.end_scope();
                }
                self.current_class = enclosing_class;
            },
        }
    }

    /// Resolves the statements in order; the result says whether an error
    /// has been reported (by this call or an earlier one).
    pub fn resolve(&mut self, stmts: &[Stmt]) -> (r: bool)
        requires
            old(self).wf(),
        ensures
            final(self).wf(),
            final(self)@ == r_stmts(old(self)@, stmts_view(stmts@), 0),
            r == (final(self)@.errors.len() > 0),
        decreases stmts@, 1nat,
    {
        let ghost s0 = self@;
        let ghost sv = stmts_view(stmts@);
        proof {
            lemma_stmts_view_index(stmts@);
        }
        let mut i: usize = 0;
        while i < stmts.len()
            invariant
                self.wf(),
                i <= stmts@.len(),
                sv == stmts_view(stmts@),
                sv.len() == stmts@.len(),
                forall|j: int| 0 <= j < stmts@.len() ==> #[trigger] sv[j] == stmt_view(stmts@[j]),
                r_stmts(s0, sv, 0) == r_stmts(self@, sv, i as int),
            decreases stmts.len() - i,
        {
            proof {
                unfold_r_stmts(self@, sv, i as int);
            }
            self.resolve_stmt(&stmts[i]);
            i = i + 1;
        }
        proof {
            unfold_r_stmts(self@, sv, i as int);
        }
        self.had_error
    }
}

} // verus!
