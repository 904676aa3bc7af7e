use alv::ast::Stmt;
use alv::lexer::Lexer;
use alv::parser::Parser;
use alv::resolution::{ResolveError, ResolveErrorKind};
use alv::resolver::Resolver;

fn program(src: &str) -> Vec<Stmt> {
    let tokens = Lexer::new(src).scan_tokens();
    Parser::new(tokens).parse().expect("the program parses")
}

fn resolve(src: &str) -> (bool, Resolver) {
    let stmts = program(src);
    let mut r = Resolver::new();
    let failed = r.resolve(&stmts);
    (failed, r)
}

fn kinds(r: &Resolver) -> Vec<ResolveErrorKind> {
    r.errors().iter().map(|e| e.kind).collect()
}

#[test]
fn globals_are_not_recorded() {
    let (failed, r) = resolve("var a = 1; print a;");
    assert!(!failed);
    assert!(r.locals().is_empty());
}

#[test]
fn block_locals_get_their_depth() {
    // ids: a in `print a` is 0, b in `print b` is 1
    let (failed, r) = resolve("{ var a = 1; { var b = 2; print a; print b; } }");
    assert!(!failed);
    assert_eq!(r.locals().get(&0), Some(&1));
    assert_eq!(r.locals().get(&1), Some(&0));
    assert_eq!(r.locals().len(), 2);
}

#[test]
fn parameters_are_locals_of_the_function() {
    let (failed, r) = resolve("fun f(x) { return x; }");
    assert!(!failed);
    assert_eq!(r.locals().get(&0), Some(&0));
}

#[test]
fn return_at_top_level_is_an_error() {
    let (failed, r) = resolve("return 1;");
    assert!(failed);
    assert_eq!(kinds(&r), vec![ResolveErrorKind::ReturnAtTopLevel]);
    assert_eq!(r.errors()[0], ResolveError { kind: ResolveErrorKind::ReturnAtTopLevel, line: 0 });
}

#[test]
fn returning_a_value_from_an_initializer_is_an_error() {
    let (failed, r) = resolve("class A { init() { return 1; } }");
    assert!(failed);
    assert_eq!(kinds(&r), vec![ResolveErrorKind::ReturnFromInitializer]);
    let (failed, _) = resolve("class A { init() { return; } }");
    assert!(!failed);
}

#[test]
fn reading_a_local_in_its_own_initializer_is_an_error() {
    let (failed, r) = resolve("{ var a = a; }");
    assert!(failed);
    assert_eq!(kinds(&r), vec![ResolveErrorKind::ReadInOwnInitializer]);
    let (failed, _) = resolve("var a = a;");
    assert!(!failed);
}

#[test]
fn this_outside_a_class_is_an_error() {
    let (failed, r) = resolve("print this;");
    assert!(failed);
    assert_eq!(kinds(&r), vec![ResolveErrorKind::ThisOutsideClass]);
    let (failed, r) = resolve("class A { f() { return this; } }");
    assert!(!failed);
    // `this` is one scope out from the method body
    assert_eq!(r.locals().get(&0), Some(&1));
}

#[test]
fn this_in_a_subclass_method_is_fine() {
    // ids: A in `< A` is 0, `this` is 1
    let (failed, r) = resolve("class A {} class B < A { f() { return this; } }");
    assert!(!failed);
    assert!(r.errors().is_empty());
    // `this` is one scope out from the method body (the `super` scope lies beyond it)
    assert_eq!(r.locals().get(&1), Some(&1));
}

#[test]
fn super_needs_a_subclass() {
    let (_, r) = resolve("print super.f;");
    assert_eq!(kinds(&r), vec![ResolveErrorKind::SuperOutsideClass]);
    let (_, r) = resolve("class A { f() { return super.f; } }");
    assert_eq!(kinds(&r), vec![ResolveErrorKind::SuperWithoutSuperclass]);
    let (failed, r) = resolve("class A {} class B < A { f() { return super.f; } }");
    assert!(!failed);
    // the superclass name is id 0 (a global), `super` is id 1: two scopes out
    assert_eq!(r.locals().get(&1), Some(&2));
}

#[test]
fn a_class_cannot_inherit_from_itself() {
    let (failed, r) = resolve("class A < A {}");
    assert!(failed);
    assert_eq!(kinds(&r), vec![ResolveErrorKind::InheritFromSelf]);
}

#[test]
fn the_result_stays_failed_across_calls() {
    let mut r = Resolver::new();
    assert!(r.resolve(&program("return;")));
    assert!(r.resolve(&program("print 1;")));
}

#[test]
fn while_body_is_resolved_before_its_condition() {
    let (failed, r) = resolve("{ var i = 0; while (i < 3) { var j = i; print j; } }");
    assert!(!failed);
    // i in the condition is id 0, in the body id 1, j in `print j` id 2
    assert_eq!(r.locals().get(&0), Some(&0));
    assert_eq!(r.locals().get(&1), Some(&1));
    assert_eq!(r.locals().get(&2), Some(&0));
}

#[test]
fn scopes_opened_by_a_statement_are_closed_after_it() {
    let mut r = Resolver::new();
    assert!(!r.resolve(&program("{ var a = 1; fun f(x) { print x; } class C { m() { return this; } } }")));
    let before = r.locals().len();
    assert_eq!(before, 2);
    // back at the top level: `a` (id 3 here) is a global again, so nothing
    // more is recorded
    assert!(!r.resolve(&program("b; b; b; print a;")));
    assert_eq!(r.locals().get(&3), None);
    assert_eq!(r.locals().len(), before);
}
