//! Read-back of values into expressions in normal form.
//!
//! Reading back a closure evaluates its body, so read-back need not end
//! either. The model bounds the depth of the computation as it does for
//! evaluation: `quote_steps` gives the expression that is reached within a
//! bound, if there is one, and `quote_term` the expression that is reached
//! within some bound.

use vstd::prelude::*;
use crate::alpha::alpha_equivalent;
use crate::domain::{Neutral, Sem, Stuck, Value};
use crate::eval::{eval_steps, eval_value, evaluates, lemma_eval_reached, lemma_eval_steps_monotone};
use crate::least::{larger, least, lemma_least};
use crate::scope::{fresh_name, freshen, Scope};
use crate::syntax::{Expr, Term};

verus! {

/// The bindings under which the body of a closure is evaluated when the
/// closure is read back with `names` in scope: what the closure captured, with
/// its parameter `x` bound to the fresh name for `x`, stuck.
pub open spec fn opened(
    x: Seq<char>,
    captured: Map<Seq<char>, Sem>,
    names: Set<Seq<char>>,
) -> Map<Seq<char>, Sem> {
    captured.insert(x, Sem::Neutral(Stuck::Var(fresh_name(x, names))))
}

/// The normal form of `v` with the names `names` in scope, where it is reached
/// by a computation of depth at most `fuel`.
pub open spec fn quote_steps(v: Sem, names: Set<Seq<char>>, fuel: nat) -> Option<Term>
    decreases fuel,
{
    if fuel == 0 {
        None
    } else {
        let rest = (fuel - 1) as nat;
        match v {
            Sem::Fun(d, c) => match (quote_steps(*d, names, rest), quote_steps(*c, names, rest)) {
                (Some(dt), Some(ct)) => Some(Term::Fun(Box::new(dt), Box::new(ct))),
                _ => None,
            },
            Sem::Lam(x, body, captured) => {
                let fresh = fresh_name(x, names);
                match eval_steps(body, opened(x, captured, names), rest) {
                    Some(inner) => match quote_steps(inner, names.insert(fresh), rest) {
                        Some(t) => Some(Term::Lam(fresh, Box::new(t))),
                        None => None,
                    },
                    None => None,
                }
            },
            Sem::Neutral(n) => quote_stuck_steps(n, names, rest),
            Sem::U(i) => Some(Term::U(i)),
        }
    }
}

/// The normal form of the stuck computation `n`, as `quote_steps` gives that of
/// a value.
pub open spec fn quote_stuck_steps(n: Stuck, names: Set<Seq<char>>, fuel: nat) -> Option<Term>
    decreases fuel,
{
    if fuel == 0 {
        None
    } else {
        let rest = (fuel - 1) as nat;
        match n {
            Stuck::App(head, arg) => match (
                quote_stuck_steps(*head, names, rest),
                quote_steps(*arg, names, rest),
            ) {
                (Some(ht), Some(at)) => Some(Term::App(Box::new(ht), Box::new(at))),
                _ => None,
            },
            Stuck::Var(x) => Some(Term::Var(x)),
        }
    }
}

/// Read-back of `v` with `names` in scope ends in an expression.
pub open spec fn reads_back(v: Sem, names: Set<Seq<char>>) -> bool {
    exists|fuel: nat| (#[trigger] quote_steps(v, names, fuel)) is Some
}

/// Read-back of the stuck computation `n` with `names` in scope ends in an
/// expression.
pub open spec fn stuck_reads_back(n: Stuck, names: Set<Seq<char>>) -> bool {
    exists|fuel: nat| (#[trigger] quote_stuck_steps(n, names, fuel)) is Some
}

/// The bounds within which read-back of `v` reaches an expression.
pub open spec fn quote_reaches(v: Sem, names: Set<Seq<char>>) -> spec_fn(nat) -> bool {
    |fuel: nat| quote_steps(v, names, fuel) is Some
}

/// The bounds within which read-back of `n` reaches an expression.
pub open spec fn quote_stuck_reaches(n: Stuck, names: Set<Seq<char>>) -> spec_fn(nat) -> bool {
    |fuel: nat| quote_stuck_steps(n, names, fuel) is Some
}

/// The depth of the computation that reads `v` back.
pub open spec fn quote_depth(v: Sem, names: Set<Seq<char>>) -> nat {
    least(quote_reaches(v, names))
}

/// The depth of the computation that reads `n` back.
pub open spec fn quote_stuck_depth(n: Stuck, names: Set<Seq<char>>) -> nat {
    least(quote_stuck_reaches(n, names))
}

/// The normal form of `v` with `names` in scope, where read-back ends.
pub open spec fn quote_term(v: Sem, names: Set<Seq<char>>) -> Term {
    quote_steps(v, names, quote_depth(v, names))->0
}

/// The normal form of `n` with `names` in scope, where read-back ends.
pub open spec fn quote_stuck_term(n: Stuck, names: Set<Seq<char>>) -> Term {
    quote_stuck_steps(n, names, quote_stuck_depth(n, names))->0
}

/// More fuel does not change a normal form once it is reached.
pub proof fn lemma_quote_steps_monotone(v: Sem, names: Set<Seq<char>>, fuel: nat, more: nat)
    requires
        quote_steps(v, names, fuel) is Some,
        fuel <= more,
    ensures
        quote_steps(v, names, more) == quote_steps(v, names, fuel),
    decreases fuel,
{
    let rest = (fuel - 1) as nat;
    let rest_more = (more - 1) as nat;
    match v {
        Sem::Fun(d, c) => {
            lemma_quote_steps_monotone(*d, names, rest, rest_more);
            lemma_quote_steps_monotone(*c, names, rest, rest_more);
        },
        Sem::Lam(x, body, captured) => {
            let fresh = fresh_name(x, names);
            lemma_eval_steps_monotone(body, opened(x, captured, names), rest, rest_more);
            let inner = eval_steps(body, opened(x, captured, names), rest)->0;
            lemma_quote_steps_monotone(inner, names.insert(fresh), rest, rest_more);
        },
        Sem::Neutral(n) => {
            lemma_quote_stuck_steps_monotone(n, names, rest, rest_more);
        },
        Sem::U(_) => {},
    }
}

/// More fuel does not change the normal form of a stuck computation once it
/// is reached.
pub proof fn lemma_quote_stuck_steps_monotone(
    n: Stuck,
    names: Set<Seq<char>>,
    fuel: nat,
    more: nat,
)
    requires
        quote_stuck_steps(n, names, fuel) is Some,
        fuel <= more,
    ensures
        quote_stuck_steps(n, names, more) == quote_stuck_steps(n, names, fuel),
    decreases fuel,
{
    let rest = (fuel - 1) as nat;
    let rest_more = (more - 1) as nat;
    match n {
        Stuck::App(head, arg) => {
            lemma_quote_stuck_steps_monotone(*head, names, rest, rest_more);
            lemma_quote_steps_monotone(*arg, names, rest, rest_more);
        },
        Stuck::Var(_) => {},
    }
}

/// A normal form reached within some bound is the normal form of the value,
/// and the depth of the computation is at most that bound.
pub proof fn lemma_quote_reached(v: Sem, names: Set<Seq<char>>, fuel: nat)
    requires
        quote_steps(v, names, fuel) is Some,
    ensures
        reads_back(v, names),
        0 < quote_depth(v, names) <= fuel,
        quote_steps(v, names, fuel) == Some(quote_term(v, names)),
        quote_steps(v, names, quote_depth(v, names)) == Some(quote_term(v, names)),
{
    assert(quote_reaches(v, names)(fuel));
    lemma_least(quote_reaches(v, names), fuel);
    assert(quote_reaches(v, names)(quote_depth(v, names)));
    lemma_quote_steps_monotone(v, names, quote_depth(v, names), fuel);
}

/// The same for a stuck computation.
pub proof fn lemma_quote_stuck_reached(n: Stuck, names: Set<Seq<char>>, fuel: nat)
    requires
        quote_stuck_steps(n, names, fuel) is Some,
    ensures
        stuck_reads_back(n, names),
        0 < quote_stuck_depth(n, names) <= fuel,
        quote_stuck_steps(n, names, fuel) == Some(quote_stuck_term(n, names)),
        quote_stuck_steps(n, names, quote_stuck_depth(n, names)) == Some(
            quote_stuck_term(n, names),
        ),
{
    assert(quote_stuck_reaches(n, names)(fuel));
    lemma_least(quote_stuck_reaches(n, names), fuel);
    assert(quote_stuck_reaches(n, names)(quote_stuck_depth(n, names)));
    lemma_quote_stuck_steps_monotone(n, names, quote_stuck_depth(n, names), fuel);
}

/// Where read-back ends, `quote_steps` reaches the normal form at the depth of
/// the computation.
pub proof fn lemma_quote_depth(v: Sem, names: Set<Seq<char>>)
    requires
        reads_back(v, names),
    ensures
        quote_depth(v, names) > 0,
        quote_steps(v, names, quote_depth(v, names)) == Some(quote_term(v, names)),
{
    let fuel = choose|fuel: nat| (#[trigger] quote_steps(v, names, fuel)) is Some;
    lemma_quote_reached(v, names, fuel);
}

/// The same for a stuck computation.
pub proof fn lemma_quote_stuck_depth(n: Stuck, names: Set<Seq<char>>)
    requires
        stuck_reads_back(n, names),
    ensures
        quote_stuck_depth(n, names) > 0,
        quote_stuck_steps(n, names, quote_stuck_depth(n, names)) == Some(
            quote_stuck_term(n, names),
        ),
{
    let fuel = choose|fuel: nat| (#[trigger] quote_stuck_steps(n, names, fuel)) is Some;
    lemma_quote_stuck_reached(n, names, fuel);
}

/// Where read-back ends, every bound from the depth of the computation on
/// reaches the normal form.
pub proof fn lemma_quote_at(v: Sem, names: Set<Seq<char>>, fuel: nat)
    requires
        reads_back(v, names),
        quote_depth(v, names) <= fuel,
    ensures
        quote_steps(v, names, fuel) == Some(quote_term(v, names)),
{
    lemma_quote_depth(v, names);
    lemma_quote_steps_monotone(v, names, quote_depth(v, names), fuel);
}

/// The same for a stuck computation.
pub proof fn lemma_quote_stuck_at(n: Stuck, names: Set<Seq<char>>, fuel: nat)
    requires
        stuck_reads_back(n, names),
        quote_stuck_depth(n, names) <= fuel,
    ensures
        quote_stuck_steps(n, names, fuel) == Some(quote_stuck_term(n, names)),
{
    lemma_quote_stuck_depth(n, names);
    lemma_quote_stuck_steps_monotone(n, names, quote_stuck_depth(n, names), fuel);
}

/// Two evaluations of one expression under one environment give values with
/// alpha-equivalent normal forms, where the value has a normal form at all.
pub proof fn lemma_eval_then_quote_deterministic(
    t: Term,
    env: Map<Seq<char>, Sem>,
    names: Set<Seq<char>>,
    first: nat,
    second: nat,
)
    requires
        eval_steps(t, env, first) is Some,
        eval_steps(t, env, second) is Some,
        reads_back(eval_steps(t, env, first)->0, names),
    ensures
        eval_steps(t, env, first) == eval_steps(t, env, second),
        reads_back(eval_steps(t, env, second)->0, names),
        alpha_equivalent(
            quote_term(eval_steps(t, env, first)->0, names),
            quote_term(eval_steps(t, env, second)->0, names),
        ),
{
    lemma_eval_reached(t, env, first);
    lemma_eval_reached(t, env, second);
}

/// A universe reads back as itself.
pub proof fn lemma_quote_universe(i: u8, names: Set<Seq<char>>)
    ensures
        reads_back(Sem::U(i), names),
        quote_term(Sem::U(i), names) == Term::U(i),
{
    lemma_quote_reached(Sem::U(i), names, 1);
}

/// A function type reads back side by side.
pub proof fn lemma_quote_fun(d: Sem, c: Sem, names: Set<Seq<char>>)
    requires
        reads_back(Sem::Fun(Box::new(d), Box::new(c)), names),
    ensures
        reads_back(d, names),
        reads_back(c, names),
        quote_depth(d, names) < quote_depth(Sem::Fun(Box::new(d), Box::new(c)), names),
        quote_depth(c, names) < quote_depth(Sem::Fun(Box::new(d), Box::new(c)), names),
        quote_term(Sem::Fun(Box::new(d), Box::new(c)), names) == Term::Fun(
            Box::new(quote_term(d, names)),
            Box::new(quote_term(c, names)),
        ),
{
    let v = Sem::Fun(Box::new(d), Box::new(c));
    lemma_quote_depth(v, names);
    let rest = (quote_depth(v, names) - 1) as nat;
    lemma_quote_reached(d, names, rest);
    lemma_quote_reached(c, names, rest);
}

/// A closure reads back as an abstraction over a fresh name: its body is
/// evaluated with the closure opened, and the value is read back with the fresh
/// name in scope.
pub proof fn lemma_quote_lam(
    x: Seq<char>,
    body: Term,
    captured: Map<Seq<char>, Sem>,
    names: Set<Seq<char>>,
)
    requires
        reads_back(Sem::Lam(x, body, captured), names),
    ensures
        evaluates(body, opened(x, captured, names)),
        reads_back(
            eval_value(body, opened(x, captured, names)),
            names.insert(fresh_name(x, names)),
        ),
        quote_depth(
            eval_value(body, opened(x, captured, names)),
            names.insert(fresh_name(x, names)),
        ) < quote_depth(Sem::Lam(x, body, captured), names),
        quote_term(Sem::Lam(x, body, captured), names) == Term::Lam(
            fresh_name(x, names),
            Box::new(
                quote_term(
                    eval_value(body, opened(x, captured, names)),
                    names.insert(fresh_name(x, names)),
                ),
            ),
        ),
{
    let v = Sem::Lam(x, body, captured);
    lemma_quote_depth(v, names);
    let rest = (quote_depth(v, names) - 1) as nat;
    lemma_eval_reached(body, opened(x, captured, names), rest);
    lemma_quote_reached(
        eval_value(body, opened(x, captured, names)),
        names.insert(fresh_name(x, names)),
        rest,
    );
}

/// A stuck value reads back as the stuck computation does.
pub proof fn lemma_quote_neutral(n: Stuck, names: Set<Seq<char>>)
    requires
        reads_back(Sem::Neutral(n), names),
    ensures
        stuck_reads_back(n, names),
        quote_stuck_depth(n, names) < quote_depth(Sem::Neutral(n), names),
        quote_term(Sem::Neutral(n), names) == quote_stuck_term(n, names),
{
    let v = Sem::Neutral(n);
    lemma_quote_depth(v, names);
    let rest = (quote_depth(v, names) - 1) as nat;
    lemma_quote_stuck_reached(n, names, rest);
}

/// A free name reads back as a reference to it.
pub proof fn lemma_quote_stuck_var(x: Seq<char>, names: Set<Seq<char>>)
    ensures
        stuck_reads_back(Stuck::Var(x), names),
        quote_stuck_term(Stuck::Var(x), names) == Term::Var(x),
{
    lemma_quote_stuck_reached(Stuck::Var(x), names, 1);
}

/// A stuck application reads back as an application, side by side.
pub proof fn lemma_quote_stuck_app(head: Stuck, arg: Sem, names: Set<Seq<char>>)
    requires
        stuck_reads_back(Stuck::App(Box::new(head), Box::new(arg)), names),
    ensures
        stuck_reads_back(head, names),
        reads_back(arg, names),
        quote_stuck_depth(head, names) < quote_stuck_depth(
            Stuck::App(Box::new(head), Box::new(arg)),
            names,
        ),
        quote_depth(arg, names) < quote_stuck_depth(
            Stuck::App(Box::new(head), Box::new(arg)),
            names,
        ),
        quote_stuck_term(Stuck::App(Box::new(head), Box::new(arg)), names) == Term::App(
            Box::new(quote_stuck_term(head, names)),
            Box::new(quote_term(arg, names)),
        ),
{
    let n = Stuck::App(Box::new(head), Box::new(arg));
    lemma_quote_stuck_depth(n, names);
    let rest = (quote_stuck_depth(n, names) - 1) as nat;
    lemma_quote_stuck_reached(head, names, rest);
    lemma_quote_reached(arg, names, rest);
}

impl Neutral {
    /// Reads the stuck computation back as an expression, with the names `xs`
    /// in scope.
    pub fn quote(&self, xs: &Scope) -> (r: Expr)
        requires
            stuck_reads_back(self@, xs@),
        ensures
            r@ == quote_stuck_term(self@, xs@),
            quote_stuck_steps(self@, xs@, quote_stuck_depth(self@, xs@)) == Some(r@),
        decreases quote_stuck_depth(self@, xs@),
    {
        proof {
            lemma_quote_stuck_depth(self@, xs@);
        }
        match self {
            Neutral::App(n, v) => {
                proof {
                    lemma_quote_stuck_app(n@, v@, xs@);
                }
                Expr::App(Box::new(n.quote(xs)), Box::new(v.quote(xs)))
            },
            Neutral::Var(x) => {
                proof {
                    lemma_quote_stuck_var(x@, xs@);
                }
                Expr::Var(x.clone())
            },
        }
    }
}

impl Value {
    /// Reads the value back as an expression in normal form, with the names
    /// `xs` in scope.
    ///
    /// A closure becomes an abstraction over the shortest extension of its
    /// parameter's name by apostrophes that is not in `xs`. Its body is
    /// evaluated under the captured bindings, with the parameter bound to
    /// that fresh name, stuck, and the value is read back with the fresh name
    /// in scope as well. The references to the parameter in the body so come
    /// out as references to the abstraction's new name.
    ///
    /// The caller owes that read-back ends: the body of every closure on the
    /// way has a value.
    pub fn quote(&self, xs: &Scope) -> (r: Expr)
        requires
            reads_back(self@, xs@),
        ensures
            r@ == quote_term(self@, xs@),
            quote_steps(self@, xs@, quote_depth(self@, xs@)) == Some(r@),
            self is Lam ==> r is Lam && !xs@.contains(r->Lam_0@),
        decreases quote_depth(self@, xs@),
    {
        proof {
            lemma_quote_depth(self@, xs@);
        }
        match self {
            Value::Fun(v_1, v_2) => {
                proof {
                    lemma_quote_fun(v_1@, v_2@, xs@);
                }
                Expr::Fun(Box::new(v_1.quote(xs)), Box::new(v_2.quote(xs)))
            },
            Value::Lam(x, e, d) => {
                proof {
                    lemma_quote_lam(x@, e@, d@, xs@);
                }
                let x_ = freshen(x.clone(), xs);
                let stuck = Neutral::Var(x_.clone());
                assert(stuck@ == Stuck::Var(x_@));
                let mut d_ = d.clone();
                d_.insert(x.clone(), Value::Neutral(stuck));
                let mut xs_ = xs.clone();
                xs_.insert(x_.clone());
                let e_ = e.eval(&d_).quote(&xs_);
                Expr::Lam(x_, Box::new(e_))
            },
            Value::Neutral(n) => {
                proof {
                    lemma_quote_neutral(n@, xs@);
                }
                n.quote(xs)
            },
            Value::U(i) => {
                proof {
                    lemma_quote_universe(*i, xs@);
                }
                Expr::U(*i)
            },
        }
    }
}

impl Neutral {
    /// Reads the stuck computation back by a computation of depth at most
    /// `fuel`, with the names `xs` in scope.
    ///
    /// Returns nothing where no expression is reached within that depth. An
    /// expression that is returned is the one that `quote` returns.
    pub fn quote_within(&self, xs: &Scope, fuel: usize) -> (r: Option<Expr>)
        ensures
            match r {
                Some(e) => quote_stuck_steps(self@, xs@, fuel as nat) == Some(e@),
                None => quote_stuck_steps(self@, xs@, fuel as nat) is None,
            },
            r is Some ==> stuck_reads_back(self@, xs@) && r->0@ == quote_stuck_term(self@, xs@),
        decreases fuel,
    {
        if fuel == 0 {
            return None;
        }
        let rest: usize = fuel - 1;
        let r = match self {
            Neutral::App(n, v) => match n.quote_within(xs, rest) {
                Some(head) => match v.quote_within(xs, rest) {
                    Some(arg) => Some(Expr::App(Box::new(head), Box::new(arg))),
                    None => None,
                },
                None => None,
            },
            Neutral::Var(x) => Some(Expr::Var(x.clone())),
        };
        proof {
            if r is Some {
                lemma_quote_stuck_reached(self@, xs@, fuel as nat);
            }
        }
        r
    }
}

impl Value {
    /// Reads the value back by a computation of depth at most `fuel`, with the
    /// names `xs` in scope.
    ///
    /// Returns nothing where no expression is reached within that depth: the
    /// computation is deeper, or the body of a closure has no value. An
    /// expression that is returned is the one that `quote` returns.
    pub fn quote_within(&self, xs: &Scope, fuel: usize) -> (r: Option<Expr>)
        ensures
            match r {
                Some(e) => quote_steps(self@, xs@, fuel as nat) == Some(e@),
                None => quote_steps(self@, xs@, fuel as nat) is None,
            },
            r is Some ==> reads_back(self@, xs@) && r->0@ == quote_term(self@, xs@),
            r is Some && self is Lam ==> r->0 is Lam && !xs@.contains(r->0->Lam_0@),
        decreases fuel,
    {
        if fuel == 0 {
            return None;
        }
        let rest: usize = fuel - 1;
        let r = match self {
            Value::Fun(v_1, v_2) => match v_1.quote_within(xs, rest) {
                Some(e_1) => match v_2.quote_within(xs, rest) {
                    Some(e_2) => Some(Expr::Fun(Box::new(e_1), Box::new(e_2))),
                    None => None,
                },
                None => None,
            },
            Value::Lam(x, e, d) => {
                let x_ = freshen(x.clone(), xs);
                let stuck = Neutral::Var(x_.clone());
                assert(stuck@ == Stuck::Var(x_@));
                let mut d_ = d.clone();
                d_.insert(x.clone(), Value::Neutral(stuck));
                match e.eval_within(&d_, rest) {
                    Some(v) => {
                        let mut xs_ = xs.clone();
                        xs_.insert(x_.clone());
                        match v.quote_within(&xs_, rest) {
                            Some(e_) => Some(Expr::Lam(x_, Box::new(e_))),
                            None => None,
                        }
                    },
                    None => None,
                }
            },
            Value::Neutral(n) => n.quote_within(xs, rest),
            Value::U(i) => Some(Expr::U(*i)),
        };
        proof {
            if r is Some {
                lemma_quote_reached(self@, xs@, fuel as nat);
            }
        }
        r
    }
}

/// `v` holds no closure: it is built from universes, function types and stuck
/// computations alone.
pub open spec fn closure_free(v: Sem) -> bool
    decreases v,
{
    match v {
        Sem::Fun(d, c) => closure_free(*d) && closure_free(*c),
        Sem::Lam(_, _, _) => false,
        Sem::Neutral(n) => stuck_closure_free(n),
        Sem::U(_) => true,
    }
}

/// The stuck computation `n` holds no closure.
pub open spec fn stuck_closure_free(n: Stuck) -> bool
    decreases n,
{
    match n {
        Stuck::App(head, arg) => stuck_closure_free(*head) && closure_free(*arg),
        Stuck::Var(_) => true,
    }
}

impl Neutral {
    /// Whether the stuck computation holds no closure.
    pub fn is_closure_free(&self) -> (r: bool)
        ensures
            r == stuck_closure_free(self@),
        decreases self,
    {
        match self {
            Neutral::App(n, v) => n.is_closure_free() && v.is_closure_free(),
            Neutral::Var(_) => true,
        }
    }
}

impl Value {
    /// Whether the value holds no closure. Read-back of such a value ends.
    pub fn is_closure_free(&self) -> (r: bool)
        ensures
            r == closure_free(self@),
        decreases self,
    {
        match self {
            Value::Fun(v_1, v_2) => v_1.is_closure_free() && v_2.is_closure_free(),
            Value::Lam(_, _, _) => false,
            Value::Neutral(n) => n.is_closure_free(),
            Value::U(_) => true,
        }
    }
}

/// Read-back of a value without closures ends, whatever names are in scope.
pub proof fn lemma_closure_free_reads_back(v: Sem, names: Set<Seq<char>>)
    requires
        closure_free(v),
    ensures
        reads_back(v, names),
    decreases v,
{
    match v {
        Sem::Fun(d, c) => {
            lemma_closure_free_reads_back(*d, names);
            lemma_closure_free_reads_back(*c, names);
            let fuel = larger(quote_depth(*d, names), quote_depth(*c, names));
            lemma_quote_at(*d, names, fuel);
            lemma_quote_at(*c, names, fuel);
            lemma_quote_reached(v, names, fuel + 1);
        },
        Sem::Lam(_, _, _) => {},
        Sem::Neutral(n) => {
            lemma_closure_free_stuck_reads_back(n, names);
            lemma_quote_stuck_at(n, names, quote_stuck_depth(n, names));
            lemma_quote_reached(v, names, quote_stuck_depth(n, names) + 1);
        },
        Sem::U(_) => {
            lemma_quote_reached(v, names, 1);
        },
    }
}

/// Read-back of a stuck computation without closures ends.
pub proof fn lemma_closure_free_stuck_reads_back(n: Stuck, names: Set<Seq<char>>)
    requires
        stuck_closure_free(n),
    ensures
        stuck_reads_back(n, names),
    decreases n,
{
    match n {
        Stuck::App(head, arg) => {
            lemma_closure_free_stuck_reads_back(*head, names);
            lemma_closure_free_reads_back(*arg, names);
            let fuel = larger(quote_stuck_depth(*head, names), quote_depth(*arg, names));
            lemma_quote_stuck_at(*head, names, fuel);
            lemma_quote_at(*arg, names, fuel);
            lemma_quote_stuck_reached(n, names, fuel + 1);
        },
        Stuck::Var(_) => {
            lemma_quote_stuck_reached(n, names, 1);
        },
    }
}

} // verus!
