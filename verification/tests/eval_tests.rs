use abac::env::Env;
use abac::error::EvalError;
use abac::eval::eval;
use abac::expr::eq_expr;
use abac::expr::Expr;
use abac::mem::Memory;
use abac::parser::parse;
use abac::policy::Policy;
use abac::types::{Action, Resource};

fn str_expr(s: &str) -> Expr {
    Expr::Str(s.to_string())
}

#[test]
fn example1() {
    let condition = r#"
        (and (= resource.version "1.0.0")
             (= subject.name "John")
             (member? "John" resource.admins))
    "#;

    let action = Action::new("r");
    let resource = Resource::new("/foo/bar/baz");
    let mut store = Memory::new();

    store.set_policy(
        &resource,
        &action,
        &Policy::new(parse(condition).unwrap().unwrap()),
    );

    let mut e = Env::new();
    e.put("subject.age", Expr::Int(25));
    e.put("subject.name", str_expr("John"));
    e.put("resource.version", str_expr("1.0.0"));
    e.put(
        "resource.admins",
        Expr::Sequence(vec![str_expr("root"), str_expr("John")]),
    );

    let policy = store.get_policy(&resource, &action).unwrap();
    assert!(policy.evaluate_with_environment(&e).unwrap().unwrap());
}

#[test]
fn happy_path_policy_allows() {
    let condition = r#"(and (= resource.version "1.0.0") (member? "John" resource.admins))"#;
    let policy = Policy::new(parse(condition).unwrap().unwrap());
    let mut e = Env::new();
    e.put("resource.version", str_expr("1.0.0"));
    e.put(
        "resource.admins",
        Expr::Sequence(vec![str_expr("root"), str_expr("John")]),
    );
    assert_eq!(policy.evaluate_with_environment(&e).unwrap(), Some(true));
}

#[test]
fn eval_is_deterministic() {
    let e = parse("(and (= subject.x 3) (< subject.x 10))").unwrap().unwrap();
    let mut env = Env::new();
    env.put("subject.x", Expr::Int(3));
    let first = eval(&e, &env).unwrap();
    let second = eval(&e, &env).unwrap();
    assert!(eq_expr(&first, &second));
    assert!(eq_expr(&first, &Expr::Bool(true)));
}

#[test]
fn and_short_circuits_before_unbound() {
    let env = Env::new();
    let e = parse("(and false (= missing.name 1))").unwrap().unwrap();
    assert!(eq_expr(&eval(&e, &env).unwrap(), &Expr::Bool(false)));

    let alone = parse("(= missing.name 1)").unwrap().unwrap();
    assert_eq!(
        eval(&alone, &env).unwrap_err(),
        EvalError::Unbound("missing.name".to_string())
    );
}

#[test]
fn or_short_circuits_after_true() {
    let env = Env::new();
    let e = parse("(or true (= missing.name 1))").unwrap().unwrap();
    assert!(eq_expr(&eval(&e, &env).unwrap(), &Expr::Bool(true)));
}

#[test]
fn missing_identifier_reports_its_name() {
    let e = parse("(= subject.age 30)").unwrap().unwrap();
    let env = Env::new();
    assert_eq!(
        eval(&e, &env).unwrap_err(),
        EvalError::Unbound("subject.age".to_string())
    );
}

#[test]
fn comparison_of_string_and_int_is_a_type_mismatch() {
    let e = parse(r#"(< "x" 3)"#).unwrap().unwrap();
    let env = Env::new();
    match eval(&e, &env).unwrap_err() {
        EvalError::TypeMismatch { op, .. } => assert_eq!(op, "<"),
        other => panic!("expected a type mismatch, got {other:?}"),
    }
}

#[test]
fn arithmetic_follows_64_bit_semantics() {
    let env = Env::new();
    let sum = parse("(+ 2 40)").unwrap().unwrap();
    assert!(eq_expr(&eval(&sum, &env).unwrap(), &Expr::Int(42)));

    let diff = parse("(- 5 2)").unwrap().unwrap();
    assert!(eq_expr(&eval(&diff, &env).unwrap(), &Expr::Int(3)));

    let quot = parse("(/ -7 2)").unwrap().unwrap();
    assert!(eq_expr(&eval(&quot, &env).unwrap(), &Expr::Int(-3)));

    let by_zero = parse("(/ 1 0)").unwrap().unwrap();
    assert_eq!(eval(&by_zero, &env).unwrap_err(), EvalError::DivByZero);

    let too_big = parse("(* 9223372036854775807 2)").unwrap().unwrap();
    assert_eq!(eval(&too_big, &env).unwrap_err(), EvalError::Overflow);
}

#[test]
fn empty_connectives_have_their_units() {
    let env = Env::new();
    assert!(eq_expr(
        &eval(&parse("(and)").unwrap().unwrap(), &env).unwrap(),
        &Expr::Bool(true)
    ));
    assert!(eq_expr(
        &eval(&parse("(or)").unwrap().unwrap(), &env).unwrap(),
        &Expr::Bool(false)
    ));
}

#[test]
fn exists_checks_binding_without_evaluating() {
    let mut env = Env::new();
    env.put("subject.name", str_expr("John"));
    let bound = parse("(exists? subject.name)").unwrap().unwrap();
    assert!(eq_expr(&eval(&bound, &env).unwrap(), &Expr::Bool(true)));
    let unbound = parse("(exists? subject.age)").unwrap().unwrap();
    assert!(eq_expr(&eval(&unbound, &env).unwrap(), &Expr::Bool(false)));
}

#[test]
fn if_selects_branches_and_checks_condition() {
    let env = Env::new();
    let e = parse(r#"(if true "a" "b")"#).unwrap().unwrap();
    assert!(eq_expr(&eval(&e, &env).unwrap(), &str_expr("a")));
    let bad = parse(r#"(if 1 "a" "b")"#).unwrap().unwrap();
    match eval(&bad, &env).unwrap_err() {
        EvalError::TypeMismatch { op, want, .. } => {
            assert_eq!(op, "if");
            assert_eq!(want, "bool");
        }
        other => panic!("expected a type mismatch, got {other:?}"),
    }
}

#[test]
fn string_ordering_is_lexicographic() {
    let env = Env::new();
    let e = parse(r#"(< "abc" "abd")"#).unwrap().unwrap();
    assert!(eq_expr(&eval(&e, &env).unwrap(), &Expr::Bool(true)));
    let e2 = parse(r#"(>= "abc" "abd")"#).unwrap().unwrap();
    assert!(eq_expr(&eval(&e2, &env).unwrap(), &Expr::Bool(false)));
}

#[test]
fn list_builds_a_sequence_and_member_searches_it() {
    let env = Env::new();
    let e = parse(r#"(member? 2 (list 1 2 3))"#).unwrap().unwrap();
    assert!(eq_expr(&eval(&e, &env).unwrap(), &Expr::Bool(true)));
    let e2 = parse(r#"(member? 9 (list 1 2 3))"#).unwrap().unwrap();
    assert!(eq_expr(&eval(&e2, &env).unwrap(), &Expr::Bool(false)));
}

#[test]
fn wrong_arity_is_reported() {
    let env = Env::new();
    let e = parse("(not true false)").unwrap().unwrap();
    assert_eq!(
        eval(&e, &env).unwrap_err(),
        EvalError::Arity { op: "not".to_string(), want: 1, got: 2 }
    );
}

#[test]
fn unknown_operator_is_reported() {
    let env = Env::new();
    let e = parse("(frobnicate 1)").unwrap().unwrap();
    assert_eq!(
        eval(&e, &env).unwrap_err(),
        EvalError::UnknownOp("frobnicate".to_string())
    );
}
