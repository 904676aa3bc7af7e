use alv::environment::Environment;

fn s(x: &str) -> String {
    x.to_string()
}

#[test]
fn get_after_define() {
    let mut env: Environment<i32> = Environment::new();
    env.define(0, s("a"), 1);
    assert_eq!(env.get(0, &s("a")), Some(&1));
    assert_eq!(env.get(0, &s("b")), None);
}

#[test]
fn redefinition_replaces() {
    let mut env: Environment<i32> = Environment::new();
    env.define(0, s("a"), 1);
    env.define(0, s("a"), 2);
    assert_eq!(env.get(0, &s("a")), Some(&2));
}

#[test]
fn nested_environment_sees_enclosing() {
    let mut env: Environment<i32> = Environment::new();
    env.define(0, s("a"), 1);
    let inner = env.from_enclosing(0);
    assert_eq!(inner, 1);
    assert_eq!(env.get(inner, &s("a")), Some(&1));
    env.define(inner, s("a"), 5);
    assert_eq!(env.get(inner, &s("a")), Some(&5));
    assert_eq!(env.get(0, &s("a")), Some(&1));
}

#[test]
fn assign_finds_the_nearest_binding() {
    let mut env: Environment<i32> = Environment::new();
    env.define(0, s("a"), 1);
    let inner = env.from_enclosing(0);
    assert!(env.assign(inner, &s("a"), 7));
    assert_eq!(env.get(0, &s("a")), Some(&7));
    assert_eq!(env.get(inner, &s("a")), Some(&7));
    assert!(!env.assign(inner, &s("zzz"), 3));
    assert_eq!(env.get(inner, &s("zzz")), None);
}

#[test]
fn get_at_and_assign_at_go_out_by_distance() {
    let mut env: Environment<&str> = Environment::new();
    env.define(0, s("x"), "global");
    let e1 = env.from_enclosing(0);
    env.define(e1, s("x"), "outer");
    let e2 = env.from_enclosing(e1);
    env.define(e2, s("x"), "inner");
    assert_eq!(env.get_at(e2, 0, &s("x")), Some(&"inner"));
    assert_eq!(env.get_at(e2, 1, &s("x")), Some(&"outer"));
    assert_eq!(env.get_at(e2, 2, &s("x")), Some(&"global"));
    assert_eq!(env.get_at(e2, 3, &s("x")), None);
    assert_eq!(env.get_at(e2, 1, &s("y")), None);
    env.assign_at(e2, 1, &s("x"), "changed");
    assert_eq!(env.get_at(e1, 0, &s("x")), Some(&"changed"));
    assert_eq!(env.get(e2, &s("x")), Some(&"inner"));
    env.assign_at(e2, 1, &s("y"), "ignored");
    assert_eq!(env.get(e2, &s("y")), None);
}

#[test]
fn ancestors() {
    let mut env: Environment<i32> = Environment::new();
    let e1 = env.from_enclosing(0);
    let e2 = env.from_enclosing(e1);
    assert_eq!(env.ancestor(e2, 0), Some(e2));
    assert_eq!(env.ancestor(e2, 2), Some(0));
    assert_eq!(env.ancestor(e2, 3), None);
    assert_eq!(env.len(), 3);
}

#[test]
fn runtime_errors_keep_message_and_line() {
    let e = alv::runtime::RuntimeError::new("Operand must be a number.".to_string(), 4);
    assert_eq!(e.message, "Operand must be a number.");
    assert_eq!(e.line, 4);
}

#[test]
fn lookup_variable_uses_the_depth_or_the_globals() {
    let mut e: Environment<i32> = Environment::new();
    e.define(0, "a".to_string(), 1);
    let inner = e.from_enclosing(0);
    e.define(inner, "a".to_string(), 2);
    assert_eq!(e.lookup_variable(inner, Some(0), &"a".to_string()), Some(&2));
    assert_eq!(e.lookup_variable(inner, Some(1), &"a".to_string()), Some(&1));
    assert_eq!(e.lookup_variable(inner, None, &"a".to_string()), Some(&1));
    assert_eq!(e.lookup_variable(inner, Some(5), &"a".to_string()), None);
    assert_eq!(e.lookup_variable(inner, None, &"b".to_string()), None);
}
