use saida::Expr;

fn var(x: &str) -> Expr {
    Expr::Var(x.to_string())
}

fn lam(x: &str, body: Expr) -> Expr {
    Expr::Lam(x.to_string(), Box::new(body))
}

fn app(f: Expr, a: Expr) -> Expr {
    Expr::App(Box::new(f), Box::new(a))
}

fn fun(d: Expr, c: Expr) -> Expr {
    Expr::Fun(Box::new(d), Box::new(c))
}

fn sub(x: &str, v: Expr, body: Expr) -> Expr {
    Expr::Sub(x.to_string(), Box::new(v), Box::new(body))
}

fn names(xs: &[&str]) -> Vec<String> {
    xs.iter().map(|x| x.to_string()).collect()
}

#[test]
fn every_expression_equals_itself() {
    let es = vec![
        var("a"),
        Expr::U(0),
        lam("x", var("x")),
        lam("x", lam("x", app(var("x"), var("y")))),
        fun(Expr::U(1), var("t")),
        sub("x", Expr::U(0), app(var("x"), var("x"))),
        app(lam("x", var("x")), lam("y", var("y"))),
    ];
    for e in &es {
        assert!(e.alpha_eq(e, &Vec::new(), &Vec::new()));
        assert!(e == e);
    }
}

#[test]
fn bound_names_do_not_matter() {
    assert_eq!(lam("x", var("x")), lam("y", var("y")));
    assert_eq!(
        lam("x", lam("y", app(var("x"), var("y")))),
        lam("a", lam("b", app(var("a"), var("b"))))
    );
    assert_eq!(
        lam("x", lam("y", app(var("x"), var("y")))),
        lam("y", lam("x", app(var("y"), var("x"))))
    );
}

#[test]
fn renaming_a_bound_variable_gives_an_equal_expression() {
    // every bound `x` becomes `w`; the free `x` in the argument stays
    let e = app(
        lam("x", app(var("x"), lam("x", app(var("x"), var("z"))))),
        var("x"),
    );
    let renamed = app(
        lam("w", app(var("w"), lam("w", app(var("w"), var("z"))))),
        var("x"),
    );
    assert_eq!(e, renamed);
    assert_eq!(renamed, e);
}

#[test]
fn renaming_the_name_of_a_let_gives_an_equal_expression() {
    let e = sub("x", var("x"), app(var("x"), var("y")));
    let renamed = sub("w", var("x"), app(var("w"), var("y")));
    assert_eq!(e, renamed);
}

#[test]
fn binders_at_different_depths_differ() {
    assert_ne!(
        lam("x", lam("y", var("x"))),
        lam("x", lam("y", var("y")))
    );
}

#[test]
fn the_innermost_binder_of_a_name_binds() {
    assert_eq!(lam("x", lam("x", var("x"))), lam("a", lam("b", var("b"))));
    assert_ne!(lam("x", lam("x", var("x"))), lam("a", lam("b", var("a"))));
}

#[test]
fn free_names_are_compared_by_name() {
    assert_eq!(var("a"), var("a"));
    assert_ne!(var("a"), var("b"));
    assert_eq!(lam("x", var("free")), lam("y", var("free")));
    assert_ne!(lam("x", var("free")), lam("y", var("other")));
}

#[test]
fn a_bound_name_never_equals_a_free_one() {
    assert_ne!(lam("x", var("x")), lam("y", var("x")));
    assert_ne!(lam("y", var("x")), lam("x", var("x")));
}

#[test]
fn universes_are_compared_by_level() {
    assert_eq!(Expr::U(3), Expr::U(3));
    assert_ne!(Expr::U(3), Expr::U(4));
}

#[test]
fn function_types_are_compared_side_by_side() {
    assert_eq!(fun(Expr::U(0), var("a")), fun(Expr::U(0), var("a")));
    assert_ne!(fun(Expr::U(0), var("a")), fun(var("a"), Expr::U(0)));
}

#[test]
fn lets_bind_in_the_body_only() {
    assert_eq!(
        sub("x", Expr::U(0), var("x")),
        sub("y", Expr::U(0), var("y"))
    );
    assert_ne!(
        sub("x", var("x"), var("x")),
        sub("y", var("y"), var("y"))
    );
    assert_ne!(
        sub("x", Expr::U(0), var("x")),
        sub("x", Expr::U(1), var("x"))
    );
}

#[test]
fn different_shapes_are_unequal() {
    let es = vec![
        var("a"),
        Expr::U(0),
        lam("a", var("a")),
        fun(var("a"), var("a")),
        app(var("a"), var("a")),
        sub("a", var("a"), var("a")),
    ];
    for (i, a) in es.iter().enumerate() {
        for (j, b) in es.iter().enumerate() {
            assert_eq!(a == b, i == j);
            assert_eq!(a.alpha_eq(b, &Vec::new(), &Vec::new()), i == j);
        }
    }
}

#[test]
fn binders_around_the_expressions_count() {
    // `x` under [x] and `y` under [y] are both bound at position 0
    assert!(var("x").alpha_eq(&var("y"), &names(&["x"]), &names(&["y"])));
    // `x` under [x, y] is bound at 0, `y` under [x, y] at 1
    assert!(!var("x").alpha_eq(&var("y"), &names(&["x", "y"]), &names(&["x", "y"])));
    // `x` is bound on one side and free on the other
    assert!(!var("x").alpha_eq(&var("x"), &names(&["x"]), &names(&[])));
    // the innermost of two binders with one name counts
    assert!(var("x").alpha_eq(&var("b"), &names(&["x", "x"]), &names(&["a", "b"])));
    assert!(!var("x").alpha_eq(&var("a"), &names(&["x", "x"]), &names(&["a", "b"])));
}

#[test]
fn a_clone_equals_what_was_cloned() {
    let e = app(lam("x", sub("y", Expr::U(2), fun(var("x"), var("y")))), var("z"));
    let c = e.clone();
    assert_eq!(e, c);
    assert_eq!(format!("{:?}", e), format!("{:?}", c));
}

#[test]
fn renaming_one_binder_gives_an_equal_expression() {
    // only the outer binder of `x` becomes `w`; the inner one keeps its name
    let e = app(
        lam("x", app(var("x"), lam("x", app(var("x"), var("z"))))),
        var("x"),
    );
    let renamed = app(
        lam("w", app(var("w"), lam("x", app(var("x"), var("z"))))),
        var("x"),
    );
    assert!(e.alpha_eq(&renamed, &Vec::new(), &Vec::new()));
    assert!(renamed.alpha_eq(&e, &Vec::new(), &Vec::new()));

    // only the inner binder
    let renamed = app(
        lam("x", app(var("x"), lam("w", app(var("w"), var("z"))))),
        var("x"),
    );
    assert!(e.alpha_eq(&renamed, &Vec::new(), &Vec::new()));
    assert!(renamed.alpha_eq(&e, &Vec::new(), &Vec::new()));

    // the binder of a let, under an abstraction
    let e = lam("a", sub("x", var("a"), fun(var("x"), var("a"))));
    let renamed = lam("a", sub("w", var("a"), fun(var("w"), var("a"))));
    assert!(e.alpha_eq(&renamed, &Vec::new(), &Vec::new()));
    assert!(renamed.alpha_eq(&e, &Vec::new(), &Vec::new()));
}

#[test]
fn renaming_a_binder_to_a_name_in_use_may_change_the_expression() {
    let e = lam("x", lam("y", var("x")));
    let captured = lam("y", lam("y", var("y")));
    assert!(!e.alpha_eq(&captured, &Vec::new(), &Vec::new()));
}
