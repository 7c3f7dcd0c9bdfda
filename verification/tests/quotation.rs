use saida::{Env, Expr, Neutral, Scope, Value};

fn var(x: &str) -> Expr {
    Expr::Var(x.to_string())
}

fn lam(x: &str, body: Expr) -> Expr {
    Expr::Lam(x.to_string(), Box::new(body))
}

fn app(f: Expr, a: Expr) -> Expr {
    Expr::App(Box::new(f), Box::new(a))
}

fn fun(d: Expr, c: Expr) -> Expr {
    Expr::Fun(Box::new(d), Box::new(c))
}

fn scope(names: &[&str]) -> Scope {
    let mut xs = Scope::new();
    for name in names {
        xs.insert(name.to_string());
    }
    xs
}

/// Equality of expressions name by name, binders included.
fn same(a: &Expr, b: &Expr) -> bool {
    match (a, b) {
        (Expr::App(a1, a2), Expr::App(b1, b2)) => same(a1, b1) && same(a2, b2),
        (Expr::Fun(a1, a2), Expr::Fun(b1, b2)) => same(a1, b1) && same(a2, b2),
        (Expr::Lam(x, a1), Expr::Lam(y, b1)) => x == y && same(a1, b1),
        (Expr::Sub(x, a1, a2), Expr::Sub(y, b1, b2)) => x == y && same(a1, b1) && same(a2, b2),
        (Expr::U(i), Expr::U(j)) => i == j,
        (Expr::Var(x), Expr::Var(y)) => x == y,
        _ => false,
    }
}

#[test]
fn quotation_works() {
    let e = Expr::App(
        Box::new(Expr::Lam(
            "x".to_string(),
            Box::new(Expr::Lam(
                "y".to_string(),
                Box::new(Expr::Var("y".to_string())),
            )),
        )),
        Box::new(Expr::Var("y".to_string())),
    );

    let d = Env::new();
    let v = e.eval(&d);
    let mut xs = Scope::new();
    xs.insert("y".to_string());

    assert_eq!(
        v.quote(&xs),
        Expr::Lam("y'".to_string(), Box::new(Expr::Var("y'".to_string())))
    );
}

#[test]
fn quotation_renames_the_binder_and_its_references() {
    let e = app(lam("x", lam("y", var("y"))), var("y"));
    let v = e.eval(&Env::new());
    let q = v.quote(&scope(&["y"]));
    assert!(same(&q, &lam("y'", var("y'"))));
    assert!(!same(&q, &lam("y'", var("y"))));
    assert!(!same(&q, &lam("y", var("y"))));
    assert_eq!(q, lam("y", var("y")));
}

#[test]
fn quotation_keeps_a_free_name_apart_from_the_binder() {
    // the argument `y` stays free under the renamed binder
    let e = app(lam("x", lam("y", var("x"))), var("y"));
    let v = e.eval(&Env::new());
    let q = v.quote(&scope(&["y"]));
    assert!(same(&q, &lam("y'", var("y"))));
}

#[test]
fn quotation_avoids_the_names_in_scope() {
    let e = lam("x", app(var("x"), var("x'")));
    let v = e.eval(&Env::new());
    let q = v.quote(&scope(&["x", "x'"]));
    match &q {
        Expr::Lam(x, _) => {
            assert_ne!(x, "x");
            assert_ne!(x, "x'");
            assert_eq!(x, "x''");
        }
        _ => panic!("the normal form is not an abstraction"),
    }
    assert!(same(&q, &lam("x''", app(var("x''"), var("x'")))));
    assert_eq!(q, e);
}

#[test]
fn quotation_renames_past_a_name_in_scope() {
    let e = lam("x", app(var("x"), var("z")));
    let q = e.eval(&Env::new()).quote(&scope(&["x", "z"]));
    assert!(same(&q, &lam("x'", app(var("x'"), var("z")))));
    assert_eq!(q, e);
}

#[test]
fn quotation_keeps_a_binder_that_is_not_in_scope() {
    let e = lam("x", app(var("x"), var("z")));
    let q = e.eval(&Env::new()).quote(&scope(&["z", "y"]));
    assert!(same(&q, &lam("x", app(var("x"), var("z")))));
}

#[test]
fn quotation_skips_every_taken_extension() {
    let e = lam("x", var("w"));
    let q = e.eval(&Env::new()).quote(&scope(&["x", "x'", "x''"]));
    assert!(same(&q, &lam("x'''", var("w"))));
}

#[test]
fn quotation_brings_the_fresh_name_into_scope() {
    let e = lam("x", lam("x", var("z")));
    let q = e.eval(&Env::new()).quote(&Scope::new());
    assert!(same(&q, &lam("x", lam("x'", var("z")))));
}

#[test]
fn quotation_of_a_universe() {
    assert!(same(&Value::U(7).quote(&Scope::new()), &Expr::U(7)));
    assert!(same(&Value::U(0).quote(&scope(&["a"])), &Expr::U(0)));
}

#[test]
fn quotation_of_a_function_type() {
    let v = Value::Fun(Box::new(Value::U(1)), Box::new(Value::U(2)));
    assert!(same(&v.quote(&Scope::new()), &fun(Expr::U(1), Expr::U(2))));
}

#[test]
fn quotation_of_a_stuck_application() {
    let n = Neutral::App(
        Box::new(Neutral::App(
            Box::new(Neutral::Var("f".to_string())),
            Box::new(Value::U(3)),
        )),
        Box::new(Value::Neutral(Neutral::Var("a".to_string()))),
    );
    let expected = app(app(var("f"), Expr::U(3)), var("a"));
    assert!(same(&n.quote(&Scope::new()), &expected));
    assert!(same(&Value::Neutral(n).quote(&Scope::new()), &expected));
}

#[test]
fn quotation_normalizes_under_a_binder() {
    // \a. (\b. b) a  normalizes to  \a. a
    let e = lam("a", app(lam("b", var("b")), var("a")));
    let q = e.eval(&Env::new()).quote(&Scope::new());
    assert!(same(&q, &lam("a", var("a"))));
}

#[test]
fn normal_forms_are_reproduced() {
    let forms = vec![
        lam("a", lam("b", app(var("a"), var("b")))),
        lam("f", app(app(var("f"), var("z")), lam("g", var("g")))),
        fun(Expr::U(0), fun(var("t"), Expr::U(1))),
        app(var("h"), lam("k", app(var("k"), var("h")))),
        Expr::U(4),
        var("v"),
    ];
    for e in forms {
        let q = e.eval(&Env::new()).quote(&scope(&["z", "t", "h", "v"]));
        assert!(same(&q, &e));
        assert_eq!(q, e);
    }
}

#[test]
fn a_renamed_binder_is_reproduced_up_to_its_name() {
    let e = lam("x", var("x"));
    let q = e.eval(&Env::new()).quote(&scope(&["x"]));
    assert!(same(&q, &lam("x'", var("x'"))));
    assert_eq!(q, e);

    let e = lam("x", Expr::U(0));
    let q = e.eval(&Env::new()).quote(&scope(&["x"]));
    assert!(same(&q, &lam("x'", Expr::U(0))));
    assert_eq!(q, e);
}

#[test]
fn normal_forms_are_reproduced_up_to_bound_names() {
    // every free name is in scope, and so are the names of the binders
    let xs = scope(&["a", "b", "f", "z", "x", "x'"]);
    let forms = vec![
        lam("a", lam("b", app(var("a"), var("b")))),
        lam("x", lam("x", app(var("x"), var("x'")))),
        lam("f", app(app(var("f"), var("z")), lam("f", var("f")))),
        fun(lam("a", var("a")), lam("b", var("z"))),
        app(var("f"), lam("z", app(var("z"), var("f")))),
    ];
    for e in forms {
        let q = e.eval(&Env::new()).quote(&xs);
        assert_eq!(q, e);
        assert!(!same(&q, &e));
    }
    let e = lam("x", lam("x", app(var("x"), var("x'"))));
    let q = e.eval(&Env::new()).quote(&xs);
    assert!(same(&q, &lam("x''", lam("x'''", app(var("x'''"), var("x'"))))));
}

#[test]
fn a_shadowing_binder_keeps_its_references() {
    let e = lam("x", lam("x", var("x")));
    let q = e.eval(&Env::new()).quote(&Scope::new());
    assert!(same(&q, &lam("x", lam("x'", var("x'")))));
    assert_eq!(q, e);
    assert_ne!(q, lam("a", lam("b", var("a"))));
}

#[test]
fn evaluation_is_deterministic() {
    let e = app(
        lam("f", lam("a", app(var("f"), app(var("f"), var("a"))))),
        lam("b", app(var("g"), var("b"))),
    );
    let d = Env::new();
    let xs = scope(&["g"]);
    let first = e.eval(&d).quote(&xs);
    let second = e.eval(&d).quote(&xs);
    assert_eq!(first, second);
    assert!(same(&first, &second));
    assert!(same(&first, &lam("a", app(var("g"), app(var("g"), var("a"))))));
}
