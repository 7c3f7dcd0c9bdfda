use saida::{Env, ErrorKind, Expr, Neutral, Value};

fn var(x: &str) -> Expr {
    Expr::Var(x.to_string())
}

fn lam(x: &str, body: Expr) -> Expr {
    Expr::Lam(x.to_string(), Box::new(body))
}

fn app(f: Expr, a: Expr) -> Expr {
    Expr::App(Box::new(f), Box::new(a))
}

fn fun(d: Expr, c: Expr) -> Expr {
    Expr::Fun(Box::new(d), Box::new(c))
}

fn sub(x: &str, v: Expr, body: Expr) -> Expr {
    Expr::Sub(x.to_string(), Box::new(v), Box::new(body))
}

fn arrow(d: Value, c: Value) -> Value {
    Value::Fun(Box::new(d), Box::new(c))
}

fn stuck(x: &str) -> Value {
    Value::Neutral(Neutral::Var(x.to_string()))
}

fn context(entries: Vec<(&str, Value)>) -> Env {
    let mut cx = Env::new();
    for (name, ty) in entries {
        cx.insert(name.to_string(), ty);
    }
    cx
}

#[test]
fn a_universe_checks_against_a_higher_one() {
    assert_eq!(Expr::U(2).check(&Value::U(3), &Env::new()), Ok(()));
    assert_eq!(Expr::U(0).check(&Value::U(1), &Env::new()), Ok(()));
    assert_eq!(Expr::U(0).check(&Value::U(255), &Env::new()), Ok(()));
}

#[test]
fn a_universe_does_not_check_against_a_lower_or_equal_one() {
    assert_eq!(
        Expr::U(3).check(&Value::U(2), &Env::new()),
        Err(ErrorKind::UniverseLevelError)
    );
    assert_eq!(
        Expr::U(2).check(&Value::U(2), &Env::new()),
        Err(ErrorKind::UniverseLevelError)
    );
    assert_eq!(
        Expr::U(0).check(&Value::U(0), &Env::new()),
        Err(ErrorKind::UniverseLevelError)
    );
    assert_eq!(
        Expr::U(255).check(&Value::U(255), &Env::new()),
        Err(ErrorKind::UniverseLevelError)
    );
}

#[test]
fn a_function_type_is_formed_in_the_universe_of_its_sides() {
    let e = fun(Expr::U(0), Expr::U(0));
    assert_eq!(e.check(&Value::U(1), &Env::new()), Ok(()));
    assert_eq!(e.check(&Value::U(2), &Env::new()), Ok(()));
    assert_eq!(
        e.check(&Value::U(0), &Env::new()),
        Err(ErrorKind::UniverseLevelError)
    );
    let e = fun(Expr::U(0), Expr::U(1));
    assert_eq!(e.check(&Value::U(2), &Env::new()), Ok(()));
    assert_eq!(
        e.check(&Value::U(1), &Env::new()),
        Err(ErrorKind::UniverseLevelError)
    );
    let e = fun(Expr::U(1), Expr::U(0));
    assert_eq!(
        e.check(&Value::U(1), &Env::new()),
        Err(ErrorKind::UniverseLevelError)
    );
}

#[test]
fn the_first_failure_in_a_function_type_wins() {
    let e = fun(var("missing"), Expr::U(9));
    assert_eq!(
        e.check(&Value::U(1), &Env::new()),
        Err(ErrorKind::UnknownIdentifier)
    );
    let e = fun(Expr::U(9), var("missing"));
    assert_eq!(
        e.check(&Value::U(1), &Env::new()),
        Err(ErrorKind::UniverseLevelError)
    );
}

#[test]
fn an_unknown_name_has_no_type() {
    assert!(matches!(
        var("z").infer(&Env::new()),
        Err(ErrorKind::UnknownIdentifier)
    ));
    let cx = context(vec![("y", Value::U(0))]);
    assert!(matches!(var("z").infer(&cx), Err(ErrorKind::UnknownIdentifier)));
}

#[test]
fn a_name_has_the_type_of_the_context() {
    let cx = context(vec![("z", Value::U(4)), ("w", Value::U(5)), ("z", Value::U(6))]);
    assert!(matches!(var("z").infer(&cx), Ok(Value::U(6))));
    assert!(matches!(var("w").infer(&cx), Ok(Value::U(5))));
}

#[test]
fn applying_what_is_not_a_function_fails() {
    let cx = context(vec![("f", Value::U(0)), ("z", Value::U(0))]);
    assert!(matches!(
        app(var("f"), var("z")).infer(&cx),
        Err(ErrorKind::NotAFunction)
    ));
    let cx = context(vec![("f", stuck("t"))]);
    assert!(matches!(
        app(var("f"), var("z")).infer(&cx),
        Err(ErrorKind::NotAFunction)
    ));
}

#[test]
fn applying_a_universe_fails_at_the_universe() {
    assert!(matches!(
        app(Expr::U(0), var("z")).infer(&Env::new()),
        Err(ErrorKind::CannotInferType)
    ));
}

#[test]
fn the_failure_of_the_function_comes_first() {
    assert!(matches!(
        app(var("f"), var("z")).infer(&Env::new()),
        Err(ErrorKind::UnknownIdentifier)
    ));
    assert!(matches!(
        app(lam("x", var("x")), var("z")).infer(&Env::new()),
        Err(ErrorKind::CannotInferType)
    ));
}

#[test]
fn an_application_has_the_codomain() {
    let cx = context(vec![
        ("f", arrow(stuck("a"), stuck("b"))),
        ("z", stuck("a")),
    ]);
    match app(var("f"), var("z")).infer(&cx) {
        Ok(Value::Neutral(Neutral::Var(b))) => assert_eq!(b, "b"),
        other => panic!("unexpected outcome {:?}", other),
    }
}

#[test]
fn an_argument_of_the_wrong_type_is_a_mismatch() {
    let cx = context(vec![
        ("f", arrow(stuck("a"), stuck("b"))),
        ("z", stuck("c")),
    ]);
    assert!(matches!(
        app(var("f"), var("z")).infer(&cx),
        Err(ErrorKind::TypeMismatch)
    ));
    assert!(matches!(
        app(var("f"), var("missing")).infer(&cx),
        Err(ErrorKind::UnknownIdentifier)
    ));
}

#[test]
fn universes_function_types_and_abstractions_are_not_inferred() {
    let cx = Env::new();
    assert!(matches!(Expr::U(0).infer(&cx), Err(ErrorKind::CannotInferType)));
    assert!(matches!(
        fun(Expr::U(0), Expr::U(0)).infer(&cx),
        Err(ErrorKind::CannotInferType)
    ));
    assert!(matches!(
        lam("x", var("x")).infer(&cx),
        Err(ErrorKind::CannotInferType)
    ));
}

#[test]
fn a_let_has_the_type_of_its_body() {
    let cx = context(vec![("a", Value::U(3))]);
    assert!(matches!(
        sub("x", var("a"), var("x")).infer(&cx),
        Ok(Value::U(3))
    ));
    assert!(matches!(
        sub("x", var("missing"), var("x")).infer(&cx),
        Err(ErrorKind::UnknownIdentifier)
    ));
    assert!(matches!(
        sub("x", Expr::U(0), var("x")).infer(&cx),
        Err(ErrorKind::CannotInferType)
    ));
    assert!(matches!(
        sub("x", var("a"), Expr::U(0)).infer(&cx),
        Err(ErrorKind::CannotInferType)
    ));
}

#[test]
fn a_let_is_checked_with_its_name_bound() {
    let cx = context(vec![("a", stuck("t"))]);
    assert_eq!(sub("x", var("a"), var("x")).check(&stuck("t"), &cx), Ok(()));
    assert_eq!(
        sub("x", var("a"), var("x")).check(&stuck("s"), &cx),
        Err(ErrorKind::TypeMismatch)
    );
    assert_eq!(
        sub("x", var("b"), var("x")).check(&stuck("t"), &cx),
        Err(ErrorKind::UnknownIdentifier)
    );
    assert_eq!(sub("x", var("a"), Expr::U(0)).check(&Value::U(1), &cx), Ok(()));
}

#[test]
fn an_abstraction_checks_against_a_function_type() {
    let id = lam("x", var("x"));
    assert_eq!(id.check(&arrow(stuck("a"), stuck("a")), &Env::new()), Ok(()));
    assert_eq!(
        id.check(&arrow(stuck("a"), stuck("b")), &Env::new()),
        Err(ErrorKind::TypeMismatch)
    );
    let constant = lam("x", lam("y", var("x")));
    let ty = arrow(stuck("a"), arrow(stuck("b"), stuck("a")));
    assert_eq!(constant.check(&ty, &Env::new()), Ok(()));
    let ty = arrow(stuck("a"), arrow(stuck("b"), stuck("b")));
    assert_eq!(constant.check(&ty, &Env::new()), Err(ErrorKind::TypeMismatch));
    assert_eq!(
        lam("x", var("y")).check(&arrow(stuck("a"), stuck("a")), &Env::new()),
        Err(ErrorKind::UnknownIdentifier)
    );
}

#[test]
fn an_abstraction_does_not_check_against_another_type() {
    assert_eq!(
        lam("x", var("x")).check(&Value::U(1), &Env::new()),
        Err(ErrorKind::CannotInferType)
    );
    assert_eq!(
        lam("x", var("x")).check(&stuck("a"), &Env::new()),
        Err(ErrorKind::CannotInferType)
    );
}

#[test]
fn a_universe_checks_against_universes_only() {
    assert_eq!(
        Expr::U(0).check(&stuck("a"), &Env::new()),
        Err(ErrorKind::CannotInferType)
    );
    assert_eq!(
        Expr::U(0).check(&arrow(Value::U(1), Value::U(1)), &Env::new()),
        Err(ErrorKind::CannotInferType)
    );
    assert_eq!(
        fun(Expr::U(0), Expr::U(0)).check(&stuck("a"), &Env::new()),
        Err(ErrorKind::CannotInferType)
    );
}

#[test]
fn a_name_checks_against_its_own_type() {
    let cx = context(vec![
        ("a", Value::U(1)),
        ("f", arrow(Value::U(0), stuck("t"))),
        ("n", Value::Neutral(Neutral::App(
            Box::new(Neutral::Var("g".to_string())),
            Box::new(Value::U(2)),
        ))),
    ]);
    assert_eq!(var("a").check(&Value::U(1), &cx), Ok(()));
    assert_eq!(var("a").check(&Value::U(2), &cx), Err(ErrorKind::TypeMismatch));
    assert_eq!(var("a").check(&stuck("t"), &cx), Err(ErrorKind::TypeMismatch));
    assert_eq!(var("f").check(&arrow(Value::U(0), stuck("t")), &cx), Ok(()));
    assert_eq!(
        var("f").check(&arrow(Value::U(0), stuck("s")), &cx),
        Err(ErrorKind::TypeMismatch)
    );
    assert_eq!(
        var("n").check(
            &Value::Neutral(Neutral::App(
                Box::new(Neutral::Var("g".to_string())),
                Box::new(Value::U(2)),
            )),
            &cx
        ),
        Ok(())
    );
    assert_eq!(var("b").check(&Value::U(1), &cx), Err(ErrorKind::UnknownIdentifier));
}

#[test]
fn types_are_compared_by_their_normal_forms() {
    // the type of `a` is the closure \x. x, the expected type the closure \y. y
    let closure = |x: &str| lam(x, var(x)).eval(&Env::new());
    let cx = context(vec![("a", closure("x"))]);
    assert_eq!(var("a").check(&closure("y"), &cx), Ok(()));
    let other = lam("y", Expr::U(0)).eval(&Env::new());
    assert_eq!(var("a").check(&other, &cx), Err(ErrorKind::TypeMismatch));
}

#[test]
fn checking_an_application_goes_through_inference() {
    let cx = context(vec![
        ("f", arrow(Value::U(1), Value::U(2))),
        ("z", Value::U(1)),
    ]);
    assert_eq!(app(var("f"), var("z")).check(&Value::U(2), &cx), Ok(()));
    assert_eq!(
        app(var("f"), var("z")).check(&Value::U(3), &cx),
        Err(ErrorKind::TypeMismatch)
    );
    assert_eq!(
        app(var("z"), var("f")).check(&Value::U(2), &cx),
        Err(ErrorKind::NotAFunction)
    );
}

#[test]
fn checking_is_repeatable() {
    let cx = context(vec![("f", arrow(stuck("a"), stuck("b"))), ("z", stuck("a"))]);
    let e = app(var("f"), var("z"));
    assert_eq!(e.check(&stuck("b"), &cx), e.check(&stuck("b"), &cx));
    assert_eq!(e.check(&stuck("a"), &cx), e.check(&stuck("a"), &cx));
}

#[test]
fn an_expression_checks_against_its_inferred_type() {
    let cx = context(vec![
        ("f", arrow(stuck("a"), arrow(Value::U(0), stuck("b")))),
        ("z", stuck("a")),
        ("u", Value::U(0)),
    ]);
    let es = vec![
        var("f"),
        var("u"),
        app(var("f"), var("z")),
        app(app(var("f"), var("z")), var("u")),
        sub("g", var("f"), app(var("g"), var("z"))),
        sub("z", var("u"), var("z")),
    ];
    for e in es {
        match e.infer(&cx) {
            Ok(ty) => assert_eq!(e.check(&ty, &cx), Ok(())),
            Err(kind) => panic!("no type is inferred: {:?}", kind),
        }
    }
}
