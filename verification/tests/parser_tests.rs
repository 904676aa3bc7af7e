use alv::ast::{Expr, Stmt};
use alv::lexer::Lexer;
use alv::parser::Parser;
use alv::token::{Literal, TokenType};

fn parse(src: &str) -> (Result<Vec<Stmt>, ()>, Parser) {
    let tokens = Lexer::new(src).scan_tokens();
    let mut p = Parser::new(tokens);
    let r = p.parse();
    (r, p)
}

fn parse_ok(src: &str) -> Vec<Stmt> {
    parse(src).0.expect("the program parses")
}

fn messages(p: &Parser) -> Vec<String> {
    p.errors().iter().map(|e| e.message.clone()).collect()
}

#[test]
fn precedence_of_arithmetic() {
    let stmts = parse_ok("1 + 2 * 3;");
    assert_eq!(stmts.len(), 1);
    match &stmts[0] {
        Stmt::Expression(e) => match e.as_ref() {
            Expr::Binary { left, operator, right } => {
                assert_eq!(operator.token_type, TokenType::Plus);
                assert!(matches!(left.as_ref(), Expr::Literal { value: Literal::Number(n) } if n == "1"));
                assert!(matches!(right.as_ref(), Expr::Binary { operator, .. } if operator.token_type == TokenType::Star));
            },
            other => panic!("unexpected {:?}", other),
        },
        other => panic!("unexpected {:?}", other),
    }
}

#[test]
fn binary_operators_associate_to_the_left() {
    let stmts = parse_ok("a - b - c;");
    match &stmts[0] {
        Stmt::Expression(e) => match e.as_ref() {
            Expr::Binary { left, right, .. } => {
                assert!(matches!(left.as_ref(), Expr::Binary { .. }));
                assert!(matches!(right.as_ref(), Expr::Variable { .. }));
            },
            other => panic!("unexpected {:?}", other),
        },
        other => panic!("unexpected {:?}", other),
    }
}

#[test]
fn assignment_is_right_associative() {
    let stmts = parse_ok("a = b = 3;");
    match &stmts[0] {
        Stmt::Expression(e) => match e.as_ref() {
            Expr::Assign { name, value, .. } => {
                assert_eq!(name.lexeme, "a");
                assert!(matches!(value.as_ref(), Expr::Assign { name, .. } if name.lexeme == "b"));
            },
            other => panic!("unexpected {:?}", other),
        },
        other => panic!("unexpected {:?}", other),
    }
}

#[test]
fn property_assignment_is_a_set() {
    let stmts = parse_ok("a.b = 1;");
    match &stmts[0] {
        Stmt::Expression(e) => assert!(matches!(e.as_ref(), Expr::SetProperty { name, .. } if name.lexeme == "b")),
        other => panic!("unexpected {:?}", other),
    }
}

#[test]
fn invalid_assignment_target_is_an_error() {
    let (r, p) = parse("1 = 2;");
    assert!(r.is_err());
    assert_eq!(messages(&p), vec!["Invalid assignment target.".to_string()]);
    assert_eq!(p.errors()[0].token.token_type, TokenType::Equal);
}

#[test]
fn logical_operators() {
    let stmts = parse_ok("a or b and c;");
    match &stmts[0] {
        Stmt::Expression(e) => match e.as_ref() {
            Expr::Logical { operator, right, .. } => {
                assert_eq!(operator.token_type, TokenType::Or);
                assert!(matches!(right.as_ref(), Expr::Logical { operator, .. } if operator.token_type == TokenType::And));
            },
            other => panic!("unexpected {:?}", other),
        },
        other => panic!("unexpected {:?}", other),
    }
}

#[test]
fn calls_and_properties_chain() {
    let stmts = parse_ok("f(1, 2).g();");
    match &stmts[0] {
        Stmt::Expression(e) => match e.as_ref() {
            Expr::Call { callee, args, .. } => {
                assert!(args.is_empty());
                match callee.as_ref() {
                    Expr::Get { object, name } => {
                        assert_eq!(name.lexeme, "g");
                        assert!(matches!(object.as_ref(), Expr::Call { args, .. } if args.len() == 2));
                    },
                    other => panic!("unexpected {:?}", other),
                }
            },
            other => panic!("unexpected {:?}", other),
        },
        other => panic!("unexpected {:?}", other),
    }
}

#[test]
fn variable_uses_get_fresh_ids() {
    let (r, p) = parse("a; b; this; a = c;");
    let stmts = r.expect("parses");
    let ids: Vec<usize> = stmts
        .iter()
        .map(|s| match s {
            Stmt::Expression(e) => match e.as_ref() {
                Expr::Variable { id, .. } => *id,
                Expr::This { id, .. } => *id,
                Expr::Assign { id, .. } => *id,
                other => panic!("unexpected {:?}", other),
            },
            other => panic!("unexpected {:?}", other),
        })
        .collect();
    assert_eq!(ids, vec![0, 1, 2, 3]);
    assert_eq!(p.id_counter, 5);
}

#[test]
fn for_loop_desugars_to_while_in_a_block() {
    let stmts = parse_ok("for (var i = 0; i < 3; i = i + 1) print i;");
    assert_eq!(stmts.len(), 1);
    match &stmts[0] {
        Stmt::Block { statements } => {
            assert_eq!(statements.len(), 2);
            assert!(matches!(&statements[0], Stmt::Var { name, .. } if name.lexeme == "i"));
            match &statements[1] {
                Stmt::While { body, .. } => match body.as_ref() {
                    Stmt::Block { statements } => {
                        assert_eq!(statements.len(), 2);
                        assert!(matches!(&statements[0], Stmt::Print(_)));
                        assert!(matches!(&statements[1], Stmt::Expression(_)));
                    },
                    other => panic!("unexpected {:?}", other),
                },
                other => panic!("unexpected {:?}", other),
            }
        },
        other => panic!("unexpected {:?}", other),
    }
}

#[test]
fn empty_for_loop_has_a_true_condition() {
    let stmts = parse_ok("for (;;) x;");
    match &stmts[0] {
        Stmt::While { condition, body } => {
            assert!(matches!(condition, Expr::Literal { value: Literal::Bool(true) }));
            assert!(matches!(body.as_ref(), Stmt::Expression(_)));
        },
        other => panic!("unexpected {:?}", other),
    }
}

#[test]
fn class_with_superclass_and_methods() {
    let stmts = parse_ok("class B < A { init(x) { this.x = x; } get() { return this.x; } }");
    match &stmts[0] {
        Stmt::Class { name, methods, superclass } => {
            assert_eq!(name.lexeme, "B");
            assert_eq!(methods.len(), 2);
            assert!(matches!(superclass, Some(Expr::Variable { name, .. }) if name.lexeme == "A"));
            match &methods[0] {
                Stmt::Function(decl) => {
                    assert_eq!(decl.name.lexeme, "init");
                    assert_eq!(decl.params.len(), 1);
                    assert_eq!(decl.body.len(), 1);
                },
                other => panic!("unexpected {:?}", other),
            }
        },
        other => panic!("unexpected {:?}", other),
    }
}

#[test]
fn if_else_and_while() {
    let stmts = parse_ok("if (a) print 1; else print 2; while (b) { b = false; }");
    assert_eq!(stmts.len(), 2);
    assert!(matches!(&stmts[0], Stmt::If { else_branch: Some(_), .. }));
    assert!(matches!(&stmts[1], Stmt::While { .. }));
}

#[test]
fn return_with_and_without_value() {
    let stmts = parse_ok("fun f() { return; } fun g() { return 1; }");
    match (&stmts[0], &stmts[1]) {
        (Stmt::Function(f), Stmt::Function(g)) => {
            assert!(matches!(&f.body[0], Stmt::Return { value: None, .. }));
            assert!(matches!(&g.body[0], Stmt::Return { value: Some(_), .. }));
        },
        other => panic!("unexpected {:?}", other),
    }
}

#[test]
fn errors_are_recovered_from_and_all_reported() {
    let (r, p) = parse("var = 1; print 2; var x 3; print 4;");
    assert!(r.is_err());
    assert_eq!(
        messages(&p),
        vec!["Expect variable name".to_string(), "Expect ';' after variable declaration".to_string()]
    );
}

#[test]
fn missing_semicolon_at_end() {
    let (r, p) = parse("print 1");
    assert!(r.is_err());
    assert_eq!(messages(&p), vec!["Expect ';' after value.".to_string()]);
    assert!(p.errors()[0].at_end());
}

#[test]
fn missing_expression() {
    let (r, p) = parse(";");
    assert!(r.is_err());
    assert_eq!(messages(&p), vec!["Expect expression.".to_string()]);
}

#[test]
fn unclosed_block() {
    let (r, p) = parse("{ print 1;");
    assert!(r.is_err());
    assert_eq!(messages(&p), vec!["Expect '}' after block.".to_string()]);
}

#[test]
fn function_errors_name_their_kind() {
    let (_, p) = parse("fun (a) {}");
    assert_eq!(messages(&p), vec!["Expect function name.".to_string()]);
    let (_, p) = parse("class C { 1 }");
    assert_eq!(messages(&p)[0], "Expect method name.".to_string());
    let (_, p) = parse("fun f() print 1;");
    assert_eq!(messages(&p), vec!["Expect '{' before function body.".to_string()]);
}

#[test]
fn super_needs_a_method_name() {
    let (_, p) = parse("super.;");
    assert_eq!(messages(&p), vec!["Expect superclass method name.".to_string()]);
    let (_, p) = parse("super;");
    assert_eq!(messages(&p), vec!["Expect '.' after 'super'.".to_string()]);
}

#[test]
fn too_many_arguments() {
    let mut src = String::from("f(");
    for i in 0..256 {
        if i > 0 {
            src.push_str(", ");
        }
        src.push('1');
    }
    src.push_str(");");
    let (r, p) = parse(&src);
    assert!(r.is_err());
    assert_eq!(messages(&p)[0], "Can't have more than 255 arguments.".to_string());
}

#[test]
fn empty_program() {
    let stmts = parse_ok("");
    assert!(stmts.is_empty());
}
