use saida::{Env, ErrorKind, Expr, Neutral, Scope, Value};

fn var(x: &str) -> Expr {
    Expr::Var(x.to_string())
}

fn lam(x: &str, body: Expr) -> Expr {
    Expr::Lam(x.to_string(), Box::new(body))
}

fn app(f: Expr, a: Expr) -> Expr {
    Expr::App(Box::new(f), Box::new(a))
}

fn fun(d: Expr, c: Expr) -> Expr {
    Expr::Fun(Box::new(d), Box::new(c))
}

fn sub(x: &str, v: Expr, body: Expr) -> Expr {
    Expr::Sub(x.to_string(), Box::new(v), Box::new(body))
}

/// \x. x x
fn self_application() -> Expr {
    lam("x", app(var("x"), var("x")))
}

#[test]
fn nothing_has_a_value_without_fuel() {
    assert!(Expr::U(0).eval_within(&Env::new(), 0).is_none());
    assert!(var("a").eval_within(&Env::new(), 0).is_none());
}

#[test]
fn leaves_have_a_value_in_one_step() {
    assert!(matches!(
        Expr::U(3).eval_within(&Env::new(), 1),
        Some(Value::U(3))
    ));
    assert!(matches!(
        var("a").eval_within(&Env::new(), 1),
        Some(Value::Neutral(Neutral::Var(ref a))) if a == "a"
    ));
    assert!(matches!(
        lam("a", var("a")).eval_within(&Env::new(), 1),
        Some(Value::Lam(..))
    ));
}

#[test]
fn the_depth_of_the_computation_is_what_counts() {
    // (\x. \y. y) y takes depth 2: the parts in one step, then the body
    let e = app(lam("x", lam("y", var("y"))), var("y"));
    assert!(e.eval_within(&Env::new(), 1).is_none());
    assert!(e.eval_within(&Env::new(), 2).is_some());
    assert!(e.eval_within(&Env::new(), 100).is_some());

    let e = sub("a", sub("b", Expr::U(0), var("b")), var("a"));
    assert!(e.eval_within(&Env::new(), 2).is_none());
    assert!(matches!(e.eval_within(&Env::new(), 3), Some(Value::U(0))));
    assert!(matches!(e.eval_within(&Env::new(), 4), Some(Value::U(0))));
}

#[test]
fn a_bounded_value_is_the_value() {
    let e = app(
        lam("f", fun(app(var("f"), Expr::U(1)), var("t"))),
        lam("a", var("a")),
    );
    let bounded = e.eval_within(&Env::new(), 10).expect("a value");
    let value = e.eval(&Env::new());
    let xs = Scope::new();
    assert_eq!(bounded.quote(&xs), value.quote(&xs));
    assert_eq!(bounded.quote(&xs), fun(Expr::U(1), var("t")));
}

#[test]
fn a_loop_has_no_value_within_any_bound() {
    let omega = app(self_application(), self_application());
    for fuel in [0, 1, 2, 5, 50, 500] {
        assert!(omega.eval_within(&Env::new(), fuel).is_none());
    }
}

#[test]
fn applying_a_universe_or_a_function_type_has_no_value() {
    for fuel in [1, 2, 10] {
        assert!(app(Expr::U(0), var("z")).eval_within(&Env::new(), fuel).is_none());
        assert!(app(fun(Expr::U(0), Expr::U(0)), var("z"))
            .eval_within(&Env::new(), fuel)
            .is_none());
    }
}

#[test]
fn read_back_is_bounded_alike() {
    let v = Value::Fun(Box::new(Value::U(1)), Box::new(Value::U(2)));
    assert!(v.quote_within(&Scope::new(), 0).is_none());
    assert!(v.quote_within(&Scope::new(), 1).is_none());
    assert_eq!(
        v.quote_within(&Scope::new(), 2),
        Some(fun(Expr::U(1), Expr::U(2)))
    );

    let n = Neutral::App(
        Box::new(Neutral::Var("f".to_string())),
        Box::new(Value::U(0)),
    );
    assert!(n.quote_within(&Scope::new(), 1).is_none());
    assert_eq!(
        n.quote_within(&Scope::new(), 2),
        Some(app(var("f"), Expr::U(0)))
    );
    let v = Value::Neutral(n);
    assert!(v.quote_within(&Scope::new(), 2).is_none());
    assert_eq!(
        v.quote_within(&Scope::new(), 3),
        Some(app(var("f"), Expr::U(0)))
    );
}

#[test]
fn bounded_read_back_opens_closures() {
    let e = app(lam("x", lam("y", var("y"))), var("y"));
    let v = e.eval_within(&Env::new(), 2).expect("a value");
    let mut xs = Scope::new();
    xs.insert("y".to_string());
    assert!(v.quote_within(&xs, 1).is_none());
    let q = v.quote_within(&xs, 3).expect("a normal form");
    match &q {
        Expr::Lam(x, body) => {
            assert_eq!(x, "y'");
            assert!(matches!(**body, Expr::Var(ref y) if y == "y'"));
        }
        _ => panic!("not an abstraction"),
    }
    assert_eq!(q, v.quote(&xs));
}

#[test]
fn a_closure_whose_body_loops_has_no_normal_form() {
    let e = lam("a", app(self_application(), self_application()));
    let v = e.eval(&Env::new());
    for fuel in [0, 1, 3, 30, 300] {
        assert!(v.quote_within(&Scope::new(), fuel).is_none());
    }
}

#[test]
fn values_without_closures_are_recognized() {
    assert!(Value::U(0).is_closure_free());
    assert!(Value::Fun(Box::new(Value::U(0)), Box::new(Value::U(1))).is_closure_free());
    let stuck = Neutral::App(
        Box::new(Neutral::Var("f".to_string())),
        Box::new(Value::U(0)),
    );
    assert!(stuck.is_closure_free());
    assert!(Value::Neutral(stuck).is_closure_free());

    let closure = lam("x", var("x")).eval(&Env::new());
    assert!(!closure.is_closure_free());
    let holds_one = Value::Fun(Box::new(Value::U(0)), Box::new(closure));
    assert!(!holds_one.is_closure_free());
    let applied = Neutral::App(
        Box::new(Neutral::Var("f".to_string())),
        Box::new(lam("x", var("x")).eval(&Env::new())),
    );
    assert!(!applied.is_closure_free());
    assert!(!Value::Neutral(applied).is_closure_free());
}

#[test]
fn contexts_without_closures_are_recognized() {
    let mut cx = Env::new();
    assert!(cx.is_closure_free());
    cx.insert("a".to_string(), Value::U(0));
    cx.insert(
        "f".to_string(),
        Value::Fun(Box::new(Value::U(0)), Box::new(Value::U(0))),
    );
    assert!(cx.is_closure_free());
    cx.insert("c".to_string(), lam("x", var("x")).eval(&Env::new()));
    assert!(!cx.is_closure_free());
    cx.insert("c".to_string(), Value::U(0));
    assert!(!cx.is_closure_free());
}

fn context(entries: Vec<(&str, Value)>) -> Env {
    let mut cx = Env::new();
    for (name, ty) in entries {
        cx.insert(name.to_string(), ty);
    }
    cx
}

fn stuck(x: &str) -> Value {
    Value::Neutral(Neutral::Var(x.to_string()))
}

/// The type `f (\x. body)`: a closure under a stuck application.
fn applied_to_closure(x: &str, body: Expr) -> Value {
    Value::Neutral(Neutral::App(
        Box::new(Neutral::Var("f".to_string())),
        Box::new(lam(x, body).eval(&Env::new())),
    ))
}

#[test]
fn checking_without_a_comparison_needs_no_fuel() {
    let cx = Env::new();
    assert_eq!(Expr::U(2).check_within(&Value::U(3), &cx, 0), Some(Ok(())));
    assert_eq!(
        Expr::U(3).check_within(&Value::U(2), &cx, 0),
        Some(Err(ErrorKind::UniverseLevelError))
    );
    assert_eq!(
        fun(Expr::U(0), Expr::U(0)).check_within(&Value::U(1), &cx, 0),
        Some(Ok(()))
    );
    assert_eq!(
        var("z").check_within(&Value::U(1), &cx, 0),
        Some(Err(ErrorKind::UnknownIdentifier))
    );
    assert!(matches!(
        var("z").infer_within(&cx, 0),
        Some(Err(ErrorKind::UnknownIdentifier))
    ));
    assert!(matches!(
        Expr::U(0).infer_within(&cx, 0),
        Some(Err(ErrorKind::CannotInferType))
    ));
    let cx = context(vec![("f", Value::U(0))]);
    assert!(matches!(
        app(var("f"), var("z")).infer_within(&cx, 0),
        Some(Err(ErrorKind::NotAFunction))
    ));
    assert!(matches!(var("f").infer_within(&cx, 0), Some(Ok(Value::U(0)))));
}

#[test]
fn a_comparison_needs_the_depth_of_both_read_backs() {
    let cx = context(vec![("a", Value::U(1))]);
    assert_eq!(var("a").check_within(&Value::U(1), &cx, 0), None);
    assert_eq!(var("a").check_within(&Value::U(1), &cx, 1), Some(Ok(())));
    assert_eq!(
        var("a").check_within(&Value::U(2), &cx, 1),
        Some(Err(ErrorKind::TypeMismatch))
    );
    let arrow = Value::Fun(Box::new(Value::U(0)), Box::new(stuck("t")));
    assert_eq!(var("a").check_within(&arrow, &cx, 1), None);
    assert_eq!(var("a").check_within(&arrow, &cx, 2), None);
    assert_eq!(
        var("a").check_within(&arrow, &cx, 3),
        Some(Err(ErrorKind::TypeMismatch))
    );
}

#[test]
fn a_type_with_a_closure_under_a_stuck_application_is_compared() {
    let cx = context(vec![("a", applied_to_closure("x", var("x")))]);
    assert!(!cx.is_closure_free());
    let same_type = applied_to_closure("y", var("y"));
    let other_type = applied_to_closure("y", Expr::U(0));
    assert_eq!(var("a").check_within(&same_type, &cx, 1), None);
    assert_eq!(var("a").check_within(&same_type, &cx, 10), Some(Ok(())));
    assert_eq!(
        var("a").check_within(&other_type, &cx, 10),
        Some(Err(ErrorKind::TypeMismatch))
    );
    assert_eq!(var("a").check(&same_type, &cx), Ok(()));
    assert_eq!(
        var("a").check(&other_type, &cx),
        Err(ErrorKind::TypeMismatch)
    );
}

#[test]
fn a_type_without_a_normal_form_has_no_verdict() {
    let looping = lam("a", app(self_application(), self_application())).eval(&Env::new());
    let cx = context(vec![("a", Value::U(0))]);
    for fuel in [0, 1, 5, 50] {
        assert_eq!(var("a").check_within(&looping, &cx, fuel), None);
    }
}

#[test]
fn bounded_inference_gives_the_inferred_type() {
    let cx = context(vec![
        (
            "f",
            Value::Fun(Box::new(stuck("s")), Box::new(Value::U(7))),
        ),
        ("z", stuck("s")),
    ]);
    let e = sub("g", var("f"), app(var("g"), var("z")));
    assert!(e.infer_within(&cx, 0).is_none());
    assert!(matches!(e.infer_within(&cx, 2), Some(Ok(Value::U(7)))));
    assert!(matches!(e.infer(&cx), Ok(Value::U(7))));
    assert_eq!(e.check_within(&Value::U(7), &cx, 2), Some(Ok(())));
}
