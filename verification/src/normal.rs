//! Normal forms, and what evaluation followed by read-back does to them.
//!
//! A normal form evaluates to a value that reads back as the same expression
//! with a fresh name for every binder and for the references to it. Where the
//! free names of the normal form are in scope, that expression is
//! alpha-equivalent to the normal form.

use vstd::prelude::*;
use crate::alpha::{alpha_equivalent, binder_of, nameless};
use crate::domain::{Sem, Stuck};
use crate::eval::{eval_depth, eval_value, evaluates, lemma_eval_at, lemma_eval_reached};
use crate::least::larger;
use crate::quote::{
    lemma_quote_at,
    lemma_quote_reached,
    lemma_quote_stuck_at,
    lemma_quote_stuck_reached,
    opened,
    quote_depth,
    quote_stuck_depth,
    quote_stuck_term,
    quote_term,
    reads_back,
    stuck_reads_back,
};
use crate::scope::{fresh_name, lemma_fresh_name_exists, lemma_fresh_name_unchanged};
use crate::syntax::Term;

verus! {

/// `t` is in normal form: nothing in it can be evaluated further. Abstractions,
/// function types and universes of normal parts are normal, and so is what is
/// stuck.
pub open spec fn is_normal(t: Term) -> bool
    decreases t, 1nat,
{
    match t {
        Term::Fun(d, c) => is_normal(*d) && is_normal(*c),
        Term::Lam(_, body) => is_normal(*body),
        Term::U(_) => true,
        _ => is_stuck(t),
    }
}

/// `t` is stuck: a name, or something stuck applied to a normal form.
pub open spec fn is_stuck(t: Term) -> bool
    decreases t, 0nat,
{
    match t {
        Term::App(f, a) => is_stuck(*f) && is_normal(*a),
        Term::Var(_) => true,
        _ => false,
    }
}

/// What is stuck is in normal form.
pub proof fn lemma_stuck_is_normal(t: Term)
    requires
        is_stuck(t),
    ensures
        is_normal(t),
{
}

/// The name that a reference to `z` gets under the renaming `renaming`, which
/// gives the new name of each bound variable.
pub open spec fn renamed(z: Seq<char>, renaming: Map<Seq<char>, Seq<char>>) -> Seq<char> {
    if renaming.dom().contains(z) {
        renaming[z]
    } else {
        z
    }
}

/// The normal form `t` as read-back gives it where `names` are in scope and
/// `renaming` holds the new names of the variables bound around `t`: every
/// abstraction binds the fresh name for its own under the names in scope, its
/// body is treated with that name in scope and as the new name of its
/// parameter, and every reference gets the new name of what it refers to.
pub open spec fn with_fresh_binders(
    t: Term,
    renaming: Map<Seq<char>, Seq<char>>,
    names: Set<Seq<char>>,
) -> Term
    decreases t,
{
    match t {
        Term::App(f, a) => Term::App(
            Box::new(with_fresh_binders(*f, renaming, names)),
            Box::new(with_fresh_binders(*a, renaming, names)),
        ),
        Term::Fun(d, c) => Term::Fun(
            Box::new(with_fresh_binders(*d, renaming, names)),
            Box::new(with_fresh_binders(*c, renaming, names)),
        ),
        Term::Lam(x, body) => {
            let fresh = fresh_name(x, names);
            Term::Lam(
                fresh,
                Box::new(with_fresh_binders(*body, renaming.insert(x, fresh), names.insert(fresh))),
            )
        },
        Term::Var(z) => Term::Var(renamed(z, renaming)),
        _ => t,
    }
}

/// The environment `env` binds exactly the names that `renaming` renames, each
/// to its new name, stuck.
pub open spec fn binds_to_new_names(
    env: Map<Seq<char>, Sem>,
    renaming: Map<Seq<char>, Seq<char>>,
) -> bool {
    &&& forall|z: Seq<char>| #[trigger] env.dom().contains(z) <==> renaming.dom().contains(z)
    &&& forall|z: Seq<char>| #[trigger]
        env.dom().contains(z) ==> env[z] == Sem::Neutral(Stuck::Var(renaming[z]))
}

/// A normal form evaluates, under an environment that binds names to new
/// names only, to a value that reads back as the normal form with fresh
/// binders.
proof fn lemma_read_back_normal(
    t: Term,
    env: Map<Seq<char>, Sem>,
    renaming: Map<Seq<char>, Seq<char>>,
    names: Set<Seq<char>>,
)
    requires
        is_normal(t),
        binds_to_new_names(env, renaming),
    ensures
        evaluates(t, env),
        reads_back(eval_value(t, env), names),
        quote_term(eval_value(t, env), names) == with_fresh_binders(t, renaming, names),
    decreases t, 1nat,
{
    match t {
        Term::Fun(d, c) => {
            lemma_read_back_normal(*d, env, renaming, names);
            lemma_read_back_normal(*c, env, renaming, names);
            let eval_fuel = larger(eval_depth(*d, env), eval_depth(*c, env));
            lemma_eval_at(*d, env, eval_fuel);
            lemma_eval_at(*c, env, eval_fuel);
            lemma_eval_reached(t, env, eval_fuel + 1);
            let dv = eval_value(*d, env);
            let cv = eval_value(*c, env);
            let quote_fuel = larger(quote_depth(dv, names), quote_depth(cv, names));
            lemma_quote_at(dv, names, quote_fuel);
            lemma_quote_at(cv, names, quote_fuel);
            lemma_quote_reached(eval_value(t, env), names, quote_fuel + 1);
        },
        Term::Lam(x, body) => {
            lemma_eval_reached(t, env, 1);
            let fresh = fresh_name(x, names);
            let inner = opened(x, env, names);
            let inner_renaming = renaming.insert(x, fresh);
            assert(binds_to_new_names(inner, inner_renaming));
            lemma_read_back_normal(*body, inner, inner_renaming, names.insert(fresh));
            let bv = eval_value(*body, inner);
            let fuel = larger(eval_depth(*body, inner), quote_depth(bv, names.insert(fresh)));
            lemma_eval_at(*body, inner, fuel);
            lemma_quote_at(bv, names.insert(fresh), fuel);
            lemma_quote_reached(eval_value(t, env), names, fuel + 1);
        },
        Term::U(i) => {
            lemma_eval_reached(t, env, 1);
            lemma_quote_reached(Sem::U(i), names, 1);
        },
        _ => {
            lemma_read_back_stuck(t, env, renaming, names);
            let n = eval_value(t, env)->Neutral_0;
            let fuel = quote_stuck_depth(n, names);
            lemma_quote_stuck_at(n, names, fuel);
            lemma_quote_reached(Sem::Neutral(n), names, fuel + 1);
        },
    }
}

/// What is stuck evaluates to a stuck value that reads back as the same
/// expression with fresh binders, under the conditions of
/// `lemma_read_back_normal`.
proof fn lemma_read_back_stuck(
    t: Term,
    env: Map<Seq<char>, Sem>,
    renaming: Map<Seq<char>, Seq<char>>,
    names: Set<Seq<char>>,
)
    requires
        is_stuck(t),
        binds_to_new_names(env, renaming),
    ensures
        evaluates(t, env),
        eval_value(t, env) is Neutral,
        stuck_reads_back(eval_value(t, env)->Neutral_0, names),
        quote_stuck_term(eval_value(t, env)->Neutral_0, names) == with_fresh_binders(
            t,
            renaming,
            names,
        ),
    decreases t, 0nat,
{
    match t {
        Term::App(f, a) => {
            lemma_read_back_stuck(*f, env, renaming, names);
            lemma_read_back_normal(*a, env, renaming, names);
            let eval_fuel = larger(eval_depth(*f, env), eval_depth(*a, env));
            lemma_eval_at(*f, env, eval_fuel);
            lemma_eval_at(*a, env, eval_fuel);
            lemma_eval_reached(t, env, eval_fuel + 1);
            let head = eval_value(*f, env)->Neutral_0;
            let arg = eval_value(*a, env);
            let quote_fuel = larger(quote_stuck_depth(head, names), quote_depth(arg, names));
            lemma_quote_stuck_at(head, names, quote_fuel);
            lemma_quote_at(arg, names, quote_fuel);
            lemma_quote_stuck_reached(eval_value(t, env)->Neutral_0, names, quote_fuel + 1);
        },
        Term::Var(x) => {
            lemma_eval_reached(t, env, 1);
            lemma_quote_stuck_reached(eval_value(t, env)->Neutral_0, names, 1);
        },
        _ => {},
    }
}

/// What evaluation followed by read-back makes of a normal form.
///
/// An expression in normal form has a value under the empty environment, and
/// that value reads back, whatever names are in scope, as the expression with
/// fresh binders.
pub proof fn lemma_normal_form_read_back(t: Term, names: Set<Seq<char>>)
    requires
        is_normal(t),
    ensures
        evaluates(t, Map::empty()),
        reads_back(eval_value(t, Map::empty()), names),
        quote_term(eval_value(t, Map::empty()), names) == with_fresh_binders(
            t,
            Map::empty(),
            names,
        ),
{
    lemma_read_back_normal(t, Map::empty(), Map::empty(), names);
}

/// No binder of `t` is named like a name in `names` or like a binder around
/// it, so that read-back with `names` in scope has no bound variable to rename.
pub open spec fn binders_fresh(t: Term, names: Set<Seq<char>>) -> bool
    decreases t,
{
    match t {
        Term::App(f, a) => binders_fresh(*f, names) && binders_fresh(*a, names),
        Term::Fun(d, c) => binders_fresh(*d, names) && binders_fresh(*c, names),
        Term::Lam(x, body) => !names.contains(x) && binders_fresh(*body, names.insert(x)),
        _ => true,
    }
}

/// Binders that are all out of scope are their own fresh binders, where every
/// variable bound around the expression has kept its name.
proof fn lemma_fresh_binders_kept(
    t: Term,
    renaming: Map<Seq<char>, Seq<char>>,
    names: Set<Seq<char>>,
)
    requires
        is_normal(t),
        binders_fresh(t, names),
        forall|z: Seq<char>| #[trigger] renaming.dom().contains(z) ==> renaming[z] == z,
    ensures
        with_fresh_binders(t, renaming, names) == t,
    decreases t,
{
    match t {
        Term::App(f, a) => {
            assert(is_stuck(t));
            lemma_stuck_is_normal(*f);
            lemma_fresh_binders_kept(*f, renaming, names);
            lemma_fresh_binders_kept(*a, renaming, names);
        },
        Term::Fun(d, c) => {
            lemma_fresh_binders_kept(*d, renaming, names);
            lemma_fresh_binders_kept(*c, renaming, names);
        },
        Term::Lam(x, body) => {
            lemma_fresh_name_unchanged(x, names);
            lemma_fresh_binders_kept(*body, renaming.insert(x, x), names.insert(x));
        },
        _ => {},
    }
}

/// A normal form whose binders are all out of scope reads back as itself.
///
/// For an expression in normal form that is evaluated under the empty
/// environment, where no binder of the expression is named like a name in
/// scope or like a binder around it, the value reads back as the expression,
/// name by name.
pub proof fn lemma_normal_form_reproduced(t: Term, names: Set<Seq<char>>)
    requires
        is_normal(t),
        binders_fresh(t, names),
    ensures
        evaluates(t, Map::empty()),
        reads_back(eval_value(t, Map::empty()), names),
        quote_term(eval_value(t, Map::empty()), names) == t,
{
    lemma_read_back_normal(t, Map::empty(), Map::empty(), names);
    lemma_fresh_binders_kept(t, Map::empty(), names);
}

/// The name `x` occurs free in `t`: in a reference that no binder of `t`
/// binds.
pub open spec fn free_in(t: Term, x: Seq<char>) -> bool
    decreases t,
{
    match t {
        Term::App(f, a) => free_in(*f, x) || free_in(*a, x),
        Term::Fun(d, c) => free_in(*d, x) || free_in(*c, x),
        Term::Lam(z, body) => z != x && free_in(*body, x),
        Term::Sub(z, v, body) => free_in(*v, x) || (z != x && free_in(*body, x)),
        Term::U(_) => false,
        Term::Var(z) => z == x,
    }
}

/// How the binders `to`, which read-back has given new names, stand to the
/// binders `from` that they replace: they are equally many; every new binder
/// is in scope by now and was not in scope at the start; and `renaming` gives,
/// for exactly the names that `from` binds, a new name that `to` binds at the
/// same position.
pub open spec fn binders_renamed(
    from: Seq<Seq<char>>,
    to: Seq<Seq<char>>,
    renaming: Map<Seq<char>, Seq<char>>,
    given: Set<Seq<char>>,
    names: Set<Seq<char>>,
) -> bool {
    &&& from.len() == to.len()
    &&& names.finite()
    &&& forall|z: Seq<char>| given.contains(z) ==> names.contains(z)
    &&& forall|z: Seq<char>| #[trigger]
        binder_of(to, z) is Some ==> names.contains(z) && !given.contains(z)
    &&& forall|z: Seq<char>| #[trigger]
        renaming.dom().contains(z) <==> binder_of(from, z) is Some
    &&& forall|z: Seq<char>| #[trigger]
        binder_of(from, z) is Some ==> binder_of(to, renaming[z]) == binder_of(from, z)
}

/// Every free name of `t` that `from` does not bind was in scope at the start.
pub open spec fn free_names_given(t: Term, from: Seq<Seq<char>>, given: Set<Seq<char>>) -> bool {
    forall|z: Seq<char>| #[trigger] free_in(t, z) && binder_of(from, z) is None ==> given.contains(z)
}

/// One more binder on each side, the new one fresh, keeps the binders
/// renamed.
proof fn lemma_binders_renamed_push(
    x: Seq<char>,
    from: Seq<Seq<char>>,
    to: Seq<Seq<char>>,
    renaming: Map<Seq<char>, Seq<char>>,
    given: Set<Seq<char>>,
    names: Set<Seq<char>>,
)
    requires
        binders_renamed(from, to, renaming, given, names),
    ensures
        binders_renamed(
            from.push(x),
            to.push(fresh_name(x, names)),
            renaming.insert(x, fresh_name(x, names)),
            given,
            names.insert(fresh_name(x, names)),
        ),
{
    let fresh = fresh_name(x, names);
    lemma_fresh_name_exists(x, names);
    let from2 = from.push(x);
    let to2 = to.push(fresh);
    let renaming2 = renaming.insert(x, fresh);
    assert(from2.drop_last() =~= from);
    assert(to2.drop_last() =~= to);
    assert forall|z: Seq<char>| #[trigger] binder_of(to2, z) is Some implies names.insert(
        fresh,
    ).contains(z) && !given.contains(z) by {
        if z != fresh {
            assert(binder_of(to, z) is Some);
        }
    }
    assert forall|z: Seq<char>| #[trigger] renaming2.dom().contains(z) <==> binder_of(
        from2,
        z,
    ) is Some by {
        if z != x {
            assert(renaming.dom().contains(z) <==> binder_of(from, z) is Some);
        }
    }
    assert forall|z: Seq<char>| #[trigger] binder_of(from2, z) is Some implies binder_of(
        to2,
        renaming2[z],
    ) == binder_of(from2, z) by {
        if z != x {
            assert(binder_of(from, z) is Some);
            assert(binder_of(to, renaming[z]) is Some);
        }
    }
}

/// Fresh binders keep the nameless form, where the binders around the
/// expression are renamed alike and its free names were in scope at the start.
proof fn lemma_fresh_binders_alike(
    t: Term,
    from: Seq<Seq<char>>,
    to: Seq<Seq<char>>,
    renaming: Map<Seq<char>, Seq<char>>,
    given: Set<Seq<char>>,
    names: Set<Seq<char>>,
)
    requires
        is_normal(t),
        binders_renamed(from, to, renaming, given, names),
        free_names_given(t, from, given),
    ensures
        nameless(with_fresh_binders(t, renaming, names), to) == nameless(t, from),
    decreases t,
{
    match t {
        Term::App(f, a) => {
            assert(is_stuck(t));
            lemma_stuck_is_normal(*f);
            assert(free_names_given(*f, from, given)) by {
                assert forall|z: Seq<char>| #[trigger]
                    free_in(*f, z) && binder_of(from, z) is None implies given.contains(z) by {
                    assert(free_in(t, z));
                }
            }
            assert(free_names_given(*a, from, given)) by {
                assert forall|z: Seq<char>| #[trigger]
                    free_in(*a, z) && binder_of(from, z) is None implies given.contains(z) by {
                    assert(free_in(t, z));
                }
            }
            lemma_fresh_binders_alike(*f, from, to, renaming, given, names);
            lemma_fresh_binders_alike(*a, from, to, renaming, given, names);
        },
        Term::Fun(d, c) => {
            assert(free_names_given(*d, from, given)) by {
                assert forall|z: Seq<char>| #[trigger]
                    free_in(*d, z) && binder_of(from, z) is None implies given.contains(z) by {
                    assert(free_in(t, z));
                }
            }
            assert(free_names_given(*c, from, given)) by {
                assert forall|z: Seq<char>| #[trigger]
                    free_in(*c, z) && binder_of(from, z) is None implies given.contains(z) by {
                    assert(free_in(t, z));
                }
            }
            lemma_fresh_binders_alike(*d, from, to, renaming, given, names);
            lemma_fresh_binders_alike(*c, from, to, renaming, given, names);
        },
        Term::Lam(x, body) => {
            let fresh = fresh_name(x, names);
            lemma_binders_renamed_push(x, from, to, renaming, given, names);
            assert(free_names_given(*body, from.push(x), given)) by {
                assert(from.push(x).drop_last() =~= from);
                assert forall|z: Seq<char>| #[trigger]
                    free_in(*body, z) && binder_of(from.push(x), z) is None implies given.contains(
                    z,
                ) by {
                    assert(free_in(t, z));
                }
            }
            lemma_fresh_binders_alike(
                *body,
                from.push(x),
                to.push(fresh),
                renaming.insert(x, fresh),
                given,
                names.insert(fresh),
            );
        },
        Term::Sub(_, _, _) => {
            assert(is_stuck(t));
        },
        Term::U(_) => {},
        Term::Var(z) => {
            assert(free_in(t, z));
            if binder_of(from, z) is None {
                assert(given.contains(z));
                assert(!renaming.dom().contains(z));
                if binder_of(to, z) is Some {
                    assert(!given.contains(z));
                }
            }
        },
    }
}

/// Evaluation followed by read-back reproduces a normal form up to the names
/// of bound variables.
///
/// For an expression in normal form that is evaluated under the empty
/// environment, the value reads back, with finitely many names in scope and
/// the free names of the expression among them, as an expression that is
/// alpha-equivalent to the given one.
pub proof fn lemma_normal_form_round_trip(t: Term, names: Set<Seq<char>>)
    requires
        is_normal(t),
        names.finite(),
        forall|z: Seq<char>| free_in(t, z) ==> names.contains(z),
    ensures
        evaluates(t, Map::empty()),
        reads_back(eval_value(t, Map::empty()), names),
        alpha_equivalent(quote_term(eval_value(t, Map::empty()), names), t),
{
    lemma_read_back_normal(t, Map::empty(), Map::empty(), names);
    let none = Seq::<Seq<char>>::empty();
    let renaming = Map::<Seq<char>, Seq<char>>::empty();
    assert(binders_renamed(none, none, renaming, names, names));
    assert(free_names_given(t, none, names));
    lemma_fresh_binders_alike(t, none, none, renaming, names, names);
}

} // verus!
