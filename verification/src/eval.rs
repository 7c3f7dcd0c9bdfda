//! Evaluation of expressions to values.
//!
//! Evaluation of an expression need not end, and it has no outcome where
//! something other than a closure or a stuck computation is applied. The
//! model therefore bounds the depth of the computation: `eval_steps` gives the
//! value that is reached within a bound, if there is one. `eval_value` is the
//! value that is reached within some bound.

use vstd::prelude::*;
use crate::domain::{Env, Neutral, Sem, Stuck, Value};
use crate::least::{least, lemma_least};
use crate::syntax::{Expr, Term};

verus! {

/// The value of `t` under `env`, where it is reached by a computation of depth
/// at most `fuel`.
pub open spec fn eval_steps(t: Term, env: Map<Seq<char>, Sem>, fuel: nat) -> Option<Sem>
    decreases fuel,
{
    if fuel == 0 {
        None
    } else {
        let rest = (fuel - 1) as nat;
        match t {
            Term::App(f, a) => match eval_steps(*f, env, rest) {
                Some(Sem::Lam(x, body, captured)) => match eval_steps(*a, env, rest) {
                    Some(arg) => eval_steps(body, captured.insert(x, arg), rest),
                    None => None,
                },
                Some(Sem::Neutral(n)) => match eval_steps(*a, env, rest) {
                    Some(arg) => Some(Sem::Neutral(Stuck::App(Box::new(n), Box::new(arg)))),
                    None => None,
                },
                _ => None,
            },
            Term::Fun(d, c) => match (eval_steps(*d, env, rest), eval_steps(*c, env, rest)) {
                (Some(dv), Some(cv)) => Some(Sem::Fun(Box::new(dv), Box::new(cv))),
                _ => None,
            },
            Term::Lam(x, body) => Some(Sem::Lam(x, *body, env)),
            Term::Sub(x, v, body) => match eval_steps(*v, env, rest) {
                Some(bound) => eval_steps(*body, env.insert(x, bound), rest),
                None => None,
            },
            Term::U(i) => Some(Sem::U(i)),
            Term::Var(x) => Some(
                if env.dom().contains(x) {
                    env[x]
                } else {
                    Sem::Neutral(Stuck::Var(x))
                },
            ),
        }
    }
}

/// Evaluation of `t` under `env` ends in a value.
pub open spec fn evaluates(t: Term, env: Map<Seq<char>, Sem>) -> bool {
    exists|fuel: nat| (#[trigger] eval_steps(t, env, fuel)) is Some
}

/// The bounds within which evaluation of `t` under `env` reaches a value.
pub open spec fn eval_reaches(t: Term, env: Map<Seq<char>, Sem>) -> spec_fn(nat) -> bool {
    |fuel: nat| eval_steps(t, env, fuel) is Some
}

/// The depth of the computation that evaluates `t` under `env`: the least
/// bound within which `eval_steps` reaches a value.
pub open spec fn eval_depth(t: Term, env: Map<Seq<char>, Sem>) -> nat {
    least(eval_reaches(t, env))
}

/// The value of `t` under `env`, where evaluation ends.
pub open spec fn eval_value(t: Term, env: Map<Seq<char>, Sem>) -> Sem {
    eval_steps(t, env, eval_depth(t, env))->0
}

/// More fuel does not change a value once it is reached.
pub proof fn lemma_eval_steps_monotone(t: Term, env: Map<Seq<char>, Sem>, fuel: nat, more: nat)
    requires
        eval_steps(t, env, fuel) is Some,
        fuel <= more,
    ensures
        eval_steps(t, env, more) == eval_steps(t, env, fuel),
    decreases fuel,
{
    let rest = (fuel - 1) as nat;
    let rest_more = (more - 1) as nat;
    match t {
        Term::App(f, a) => {
            lemma_eval_steps_monotone(*f, env, rest, rest_more);
            lemma_eval_steps_monotone(*a, env, rest, rest_more);
            match eval_steps(*f, env, rest) {
                Some(Sem::Lam(x, body, captured)) => {
                    let arg = eval_steps(*a, env, rest)->0;
                    lemma_eval_steps_monotone(body, captured.insert(x, arg), rest, rest_more);
                },
                _ => {},
            }
        },
        Term::Fun(d, c) => {
            lemma_eval_steps_monotone(*d, env, rest, rest_more);
            lemma_eval_steps_monotone(*c, env, rest, rest_more);
        },
        Term::Sub(x, v, body) => {
            lemma_eval_steps_monotone(*v, env, rest, rest_more);
            let bound = eval_steps(*v, env, rest)->0;
            lemma_eval_steps_monotone(*body, env.insert(x, bound), rest, rest_more);
        },
        _ => {},
    }
}

/// A value reached within some bound is the value of the term, and the depth
/// of the computation is at most that bound.
pub proof fn lemma_eval_reached(t: Term, env: Map<Seq<char>, Sem>, fuel: nat)
    requires
        eval_steps(t, env, fuel) is Some,
    ensures
        evaluates(t, env),
        0 < eval_depth(t, env) <= fuel,
        eval_steps(t, env, fuel) == Some(eval_value(t, env)),
        eval_steps(t, env, eval_depth(t, env)) == Some(eval_value(t, env)),
{
    assert(eval_reaches(t, env)(fuel));
    lemma_least(eval_reaches(t, env), fuel);
    assert(eval_reaches(t, env)(eval_depth(t, env)));
    lemma_eval_steps_monotone(t, env, eval_depth(t, env), fuel);
}

/// Where evaluation ends, `eval_steps` reaches the value at the depth of the
/// computation.
pub proof fn lemma_eval_depth(t: Term, env: Map<Seq<char>, Sem>)
    requires
        evaluates(t, env),
    ensures
        eval_depth(t, env) > 0,
        eval_steps(t, env, eval_depth(t, env)) == Some(eval_value(t, env)),
{
    let fuel = choose|fuel: nat| (#[trigger] eval_steps(t, env, fuel)) is Some;
    lemma_eval_reached(t, env, fuel);
}

/// Where evaluation ends, every bound from the depth of the computation on
/// reaches the value.
pub proof fn lemma_eval_at(t: Term, env: Map<Seq<char>, Sem>, fuel: nat)
    requires
        evaluates(t, env),
        eval_depth(t, env) <= fuel,
    ensures
        eval_steps(t, env, fuel) == Some(eval_value(t, env)),
{
    lemma_eval_depth(t, env);
    lemma_eval_steps_monotone(t, env, eval_depth(t, env), fuel);
}

/// Evaluation is deterministic: whatever the bounds within which two
/// computations of the same expression under the same environment reach a
/// value, the values are equal.
pub proof fn lemma_eval_deterministic(
    t: Term,
    env: Map<Seq<char>, Sem>,
    first: nat,
    second: nat,
)
    requires
        eval_steps(t, env, first) is Some,
        eval_steps(t, env, second) is Some,
    ensures
        eval_steps(t, env, first) == eval_steps(t, env, second),
{
    lemma_eval_reached(t, env, first);
    lemma_eval_reached(t, env, second);
}

/// Names, universes and abstractions evaluate in one step.
pub proof fn lemma_eval_leaf(t: Term, env: Map<Seq<char>, Sem>)
    requires
        t is Var || t is U || t is Lam,
    ensures
        evaluates(t, env),
        eval_value(t, env) == match t {
            Term::Var(x) => if env.dom().contains(x) {
                env[x]
            } else {
                Sem::Neutral(Stuck::Var(x))
            },
            Term::U(i) => Sem::U(i),
            Term::Lam(x, body) => Sem::Lam(x, *body, env),
            _ => arbitrary(),
        },
{
    lemma_eval_reached(t, env, 1);
}

/// How an application evaluates: the function first, then the argument, then
/// the closure's body under the captured bindings extended by the argument.
/// Applied to a stuck function, the application is stuck.
pub proof fn lemma_eval_app(f: Term, a: Term, env: Map<Seq<char>, Sem>)
    requires
        evaluates(Term::App(Box::new(f), Box::new(a)), env),
    ensures
        evaluates(f, env),
        evaluates(a, env),
        eval_depth(f, env) < eval_depth(Term::App(Box::new(f), Box::new(a)), env),
        eval_depth(a, env) < eval_depth(Term::App(Box::new(f), Box::new(a)), env),
        match eval_value(f, env) {
            Sem::Lam(x, body, captured) => {
                let inner = captured.insert(x, eval_value(a, env));
                &&& evaluates(body, inner)
                &&& eval_depth(body, inner) < eval_depth(
                    Term::App(Box::new(f), Box::new(a)),
                    env,
                )
                &&& eval_value(Term::App(Box::new(f), Box::new(a)), env) == eval_value(body, inner)
            },
            Sem::Neutral(n) => eval_value(Term::App(Box::new(f), Box::new(a)), env)
                == Sem::Neutral(Stuck::App(Box::new(n), Box::new(eval_value(a, env)))),
            _ => false,
        },
{
    let t = Term::App(Box::new(f), Box::new(a));
    lemma_eval_depth(t, env);
    let rest = (eval_depth(t, env) - 1) as nat;
    lemma_eval_reached(f, env, rest);
    lemma_eval_reached(a, env, rest);
    match eval_value(f, env) {
        Sem::Lam(x, body, captured) => {
            lemma_eval_reached(body, captured.insert(x, eval_value(a, env)), rest);
        },
        _ => {},
    }
}

/// A function type evaluates both of its sides.
pub proof fn lemma_eval_fun(d: Term, c: Term, env: Map<Seq<char>, Sem>)
    requires
        evaluates(Term::Fun(Box::new(d), Box::new(c)), env),
    ensures
        evaluates(d, env),
        evaluates(c, env),
        eval_depth(d, env) < eval_depth(Term::Fun(Box::new(d), Box::new(c)), env),
        eval_depth(c, env) < eval_depth(Term::Fun(Box::new(d), Box::new(c)), env),
        eval_value(Term::Fun(Box::new(d), Box::new(c)), env) == Sem::Fun(
            Box::new(eval_value(d, env)),
            Box::new(eval_value(c, env)),
        ),
{
    let t = Term::Fun(Box::new(d), Box::new(c));
    lemma_eval_depth(t, env);
    let rest = (eval_depth(t, env) - 1) as nat;
    lemma_eval_reached(d, env, rest);
    lemma_eval_reached(c, env, rest);
}

/// A let-binding evaluates the bound expression, then the body under the
/// environment extended by its value.
pub proof fn lemma_eval_sub(x: Seq<char>, v: Term, body: Term, env: Map<Seq<char>, Sem>)
    requires
        evaluates(Term::Sub(x, Box::new(v), Box::new(body)), env),
    ensures
        evaluates(v, env),
        eval_depth(v, env) < eval_depth(Term::Sub(x, Box::new(v), Box::new(body)), env),
        evaluates(body, env.insert(x, eval_value(v, env))),
        eval_depth(body, env.insert(x, eval_value(v, env))) < eval_depth(
            Term::Sub(x, Box::new(v), Box::new(body)),
            env,
        ),
        eval_value(Term::Sub(x, Box::new(v), Box::new(body)), env) == eval_value(
            body,
            env.insert(x, eval_value(v, env)),
        ),
{
    let t = Term::Sub(x, Box::new(v), Box::new(body));
    lemma_eval_depth(t, env);
    let rest = (eval_depth(t, env) - 1) as nat;
    lemma_eval_reached(v, env, rest);
    lemma_eval_reached(body, env.insert(x, eval_value(v, env)), rest);
}

impl Expr {
    /// Evaluates the expression under the environment `d`.
    ///
    /// A name without a binding in `d` evaluates to itself, stuck. An
    /// abstraction captures `d` as it stands. An application evaluates the
    /// function, then the argument under `d`, and then the closure's body
    /// under the captured bindings extended by the argument.
    ///
    /// The caller owes that evaluation ends: the expression may not loop and
    /// may not apply a universe or a function type.
    pub fn eval(&self, d: &Env) -> (r: Value)
        requires
            evaluates(self@, d@),
        ensures
            r@ == eval_value(self@, d@),
            eval_steps(self@, d@, eval_depth(self@, d@)) == Some(r@),
        decreases eval_depth(self@, d@),
    {
        proof {
            lemma_eval_depth(self@, d@);
        }
        match self {
            Expr::App(e_1, e_2) => {
                proof {
                    lemma_eval_app(e_1@, e_2@, d@);
                }
                match e_1.eval(d) {
                    Value::Lam(x, e, captured) => {
                        let arg = e_2.eval(d);
                        let mut d_ = captured;
                        d_.insert(x, arg);
                        e.eval(&d_)
                    },
                    Value::Neutral(n) => {
                        let arg = e_2.eval(d);
                        let stuck = Neutral::App(Box::new(n), Box::new(arg));
                        assert(stuck@ == Stuck::App(Box::new(n@), Box::new(arg@)));
                        Value::Neutral(stuck)
                    },
                    _ => {
                        proof {
                            assert(false);
                        }
                        vstd::pervasive::unreached()
                    },
                }
            },
            Expr::Fun(e_1, e_2) => {
                proof {
                    lemma_eval_fun(e_1@, e_2@, d@);
                }
                Value::Fun(Box::new(e_1.eval(d)), Box::new(e_2.eval(d)))
            },
            Expr::Lam(x, e) => {
                proof {
                    lemma_eval_leaf(self@, d@);
                }
                Value::Lam(x.clone(), Box::new((**e).clone()), d.clone())
            },
            Expr::Sub(x, e_1, e_2) => {
                proof {
                    lemma_eval_sub(x@, e_1@, e_2@, d@);
                }
                let v = e_1.eval(d);
                let mut d_1 = d.clone();
                d_1.insert(x.clone(), v);
                e_2.eval(&d_1)
            },
            Expr::U(i) => {
                proof {
                    lemma_eval_leaf(self@, d@);
                }
                Value::U(*i)
            },
            Expr::Var(x) => {
                proof {
                    lemma_eval_leaf(self@, d@);
                }
                match d.get(x) {
                    Some(v) => v.clone(),
                    None => {
                        let stuck = Neutral::Var(x.clone());
                        assert(stuck@ == Stuck::Var(x@));
                        Value::Neutral(stuck)
                    },
                }
            },
        }
    }
}

impl Expr {
    /// Evaluates the expression under the environment `d` by a computation of
    /// depth at most `fuel`.
    ///
    /// Returns nothing where no value is reached within that depth: the
    /// computation is deeper, does not end, or applies what is neither a
    /// closure nor stuck. A value that is returned is the value that `eval`
    /// returns.
    pub fn eval_within(&self, d: &Env, fuel: usize) -> (r: Option<Value>)
        ensures
            match r {
                Some(v) => eval_steps(self@, d@, fuel as nat) == Some(v@),
                None => eval_steps(self@, d@, fuel as nat) is None,
            },
            r is Some ==> evaluates(self@, d@) && r->0@ == eval_value(self@, d@),
        decreases fuel,
    {
        if fuel == 0 {
            return None;
        }
        let rest: usize = fuel - 1;
        let r = match self {
            Expr::App(e_1, e_2) => match e_1.eval_within(d, rest) {
                Some(Value::Lam(x, e, captured)) => match e_2.eval_within(d, rest) {
                    Some(arg) => {
                        let mut d_ = captured;
                        d_.insert(x, arg);
                        e.eval_within(&d_, rest)
                    },
                    None => None,
                },
                Some(Value::Neutral(n)) => match e_2.eval_within(d, rest) {
                    Some(arg) => {
                        let stuck = Neutral::App(Box::new(n), Box::new(arg));
                        assert(stuck@ == Stuck::App(Box::new(n@), Box::new(arg@)));
                        Some(Value::Neutral(stuck))
                    },
                    None => None,
                },
                _ => None,
            },
            Expr::Fun(e_1, e_2) => match e_1.eval_within(d, rest) {
                Some(v_1) => match e_2.eval_within(d, rest) {
                    Some(v_2) => Some(Value::Fun(Box::new(v_1), Box::new(v_2))),
                    None => None,
                },
                None => None,
            },
            Expr::Lam(x, e) => Some(Value::Lam(x.clone(), Box::new((**e).clone()), d.clone())),
            Expr::Sub(x, e_1, e_2) => match e_1.eval_within(d, rest) {
                Some(v) => {
                    let mut d_1 = d.clone();
                    d_1.insert(x.clone(), v);
                    e_2.eval_within(&d_1, rest)
                },
                None => None,
            },
            Expr::U(i) => Some(Value::U(*i)),
            Expr::Var(x) => match d.get(x) {
                Some(v) => Some(v.clone()),
                None => {
                    let stuck = Neutral::Var(x.clone());
                    assert(stuck@ == Stuck::Var(x@));
                    Some(Value::Neutral(stuck))
                },
            },
        };
        proof {
            if r is Some {
                lemma_eval_reached(self@, d@, fuel as nat);
            }
        }
        r
    }
}

} // verus!
