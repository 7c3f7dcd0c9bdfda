//! Bidirectional type checking: an expression is checked against a type, or
//! its type is inferred.
//!
//! Two types are compared by reading both back, with the names of the context
//! in scope, and comparing the normal forms up to the names of bound
//! variables.

use vstd::prelude::*;
use crate::alpha::alpha_equivalent;
use crate::domain::{
    lemma_bindings_dom,
    lemma_bindings_last,
    lemma_last_binding,
    Context,
    Env,
    Sem,
    Type,
    Value,
};
use crate::least::larger;
use crate::quote::{
    closure_free,
    lemma_closure_free_reads_back,
    lemma_quote_at,
    lemma_quote_reached,
    lemma_quote_steps_monotone,
    quote_depth,
    quote_steps,
    quote_term,
    reads_back,
};
use crate::syntax::{Expr, Term};

verus! {

/// Why an expression was rejected.
#[derive(Clone, Copy, Debug, PartialEq, Eq, Structural)]
pub enum ErrorKind {
    /// A name has no binding in the context.
    UnknownIdentifier,
    /// The type of what is applied is not a function type.
    NotAFunction,
    /// The expression can only be checked against a type: none is inferred
    /// for it.
    CannotInferType,
    /// The type of the expression differs from the type expected.
    TypeMismatch,
    /// A universe was checked against a universe that is not above it.
    UniverseLevelError,
}

/// The normal form of `v` with `names` in scope, if read-back ends.
pub open spec fn quote_outcome(v: Sem, names: Set<Seq<char>>) -> Option<Term> {
    if reads_back(v, names) {
        Some(quote_term(v, names))
    } else {
        None
    }
}

/// Whether the types `found` and `expected` agree under the context `cx`: the
/// verdict of comparing their normal forms up to the names of bound variables,
/// or nothing where the read-back of one of them does not end.
pub open spec fn compare_outcome(found: Sem, expected: Sem, cx: Map<Seq<char>, Sem>) -> Option<
    Result<(), ErrorKind>,
> {
    match (quote_outcome(found, cx.dom()), quote_outcome(expected, cx.dom())) {
        (Some(a), Some(b)) => Some(
            if alpha_equivalent(a, b) {
                Ok(())
            } else {
                Err(ErrorKind::TypeMismatch)
            },
        ),
        _ => None,
    }
}

/// The type inferred for `t` under the context `cx`, or the reason why there is
/// none; nothing where a comparison of types on the way does not end.
pub open spec fn infer_outcome(t: Term, cx: Map<Seq<char>, Sem>) -> Option<Result<Sem, ErrorKind>>
    decreases t, 0nat,
{
    match t {
        Term::App(f, a) => match infer_outcome(*f, cx) {
            Some(Ok(Sem::Fun(d, c))) => match check_outcome(*a, *d, cx) {
                Some(Ok(())) => Some(Ok(*c)),
                Some(Err(e)) => Some(Err(e)),
                None => None,
            },
            Some(Ok(_)) => Some(Err(ErrorKind::NotAFunction)),
            Some(Err(e)) => Some(Err(e)),
            None => None,
        },
        Term::Sub(x, v, body) => match infer_outcome(*v, cx) {
            Some(Ok(bound)) => infer_outcome(*body, cx.insert(x, bound)),
            Some(Err(e)) => Some(Err(e)),
            None => None,
        },
        Term::Var(x) => Some(
            if cx.dom().contains(x) {
                Ok(cx[x])
            } else {
                Err(ErrorKind::UnknownIdentifier)
            },
        ),
        _ => Some(Err(ErrorKind::CannotInferType)),
    }
}

/// The verdict of checking `t` against the type `ty` under the context `cx`;
/// nothing where a comparison of types on the way does not end.
pub open spec fn check_outcome(t: Term, ty: Sem, cx: Map<Seq<char>, Sem>) -> Option<
    Result<(), ErrorKind>,
>
    decreases t, 1nat,
{
    match (t, ty) {
        (Term::Fun(d, c), Sem::U(_)) => match check_outcome(*d, ty, cx) {
            Some(Ok(())) => check_outcome(*c, ty, cx),
            other => other,
        },
        (Term::Lam(x, body), Sem::Fun(d, c)) => check_outcome(*body, *c, cx.insert(x, *d)),
        (Term::Sub(x, v, body), _) => match infer_outcome(*v, cx) {
            Some(Ok(bound)) => check_outcome(*body, ty, cx.insert(x, bound)),
            Some(Err(e)) => Some(Err(e)),
            None => None,
        },
        (Term::U(i), Sem::U(j)) => Some(
            if i < j {
                Ok(())
            } else {
                Err(ErrorKind::UniverseLevelError)
            },
        ),
        _ => match infer_outcome(t, cx) {
            Some(Ok(found)) => compare_outcome(found, ty, cx),
            Some(Err(e)) => Some(Err(e)),
            None => None,
        },
    }
}

/// Whether the types `found` and `expected` agree under the context `cx`, where
/// the read-back of each is a computation of depth at most `fuel`; nothing
/// where one of them is deeper or does not end.
pub open spec fn compare_steps(
    found: Sem,
    expected: Sem,
    cx: Map<Seq<char>, Sem>,
    fuel: nat,
) -> Option<Result<(), ErrorKind>> {
    match (quote_steps(found, cx.dom(), fuel), quote_steps(expected, cx.dom(), fuel)) {
        (Some(a), Some(b)) => Some(
            if alpha_equivalent(a, b) {
                Ok(())
            } else {
                Err(ErrorKind::TypeMismatch)
            },
        ),
        _ => None,
    }
}

/// The outcome of inference for `t` under `cx`, where every comparison of types
/// on the way is made within the bound `fuel`; nothing where one is not.
pub open spec fn infer_steps(t: Term, cx: Map<Seq<char>, Sem>, fuel: nat) -> Option<
    Result<Sem, ErrorKind>,
>
    decreases t, 0nat,
{
    match t {
        Term::App(f, a) => match infer_steps(*f, cx, fuel) {
            Some(Ok(Sem::Fun(d, c))) => match check_steps(*a, *d, cx, fuel) {
                Some(Ok(())) => Some(Ok(*c)),
                Some(Err(e)) => Some(Err(e)),
                None => None,
            },
            Some(Ok(_)) => Some(Err(ErrorKind::NotAFunction)),
            Some(Err(e)) => Some(Err(e)),
            None => None,
        },
        Term::Sub(x, v, body) => match infer_steps(*v, cx, fuel) {
            Some(Ok(bound)) => infer_steps(*body, cx.insert(x, bound), fuel),
            Some(Err(e)) => Some(Err(e)),
            None => None,
        },
        Term::Var(x) => Some(
            if cx.dom().contains(x) {
                Ok(cx[x])
            } else {
                Err(ErrorKind::UnknownIdentifier)
            },
        ),
        _ => Some(Err(ErrorKind::CannotInferType)),
    }
}

/// The verdict of checking `t` against `ty` under `cx`, where every comparison
/// of types on the way is made within the bound `fuel`; nothing where one is
/// not.
pub open spec fn check_steps(t: Term, ty: Sem, cx: Map<Seq<char>, Sem>, fuel: nat) -> Option<
    Result<(), ErrorKind>,
>
    decreases t, 1nat,
{
    match (t, ty) {
        (Term::Fun(d, c), Sem::U(_)) => match check_steps(*d, ty, cx, fuel) {
            Some(Ok(())) => check_steps(*c, ty, cx, fuel),
            other => other,
        },
        (Term::Lam(x, body), Sem::Fun(d, c)) => check_steps(*body, *c, cx.insert(x, *d), fuel),
        (Term::Sub(x, v, body), _) => match infer_steps(*v, cx, fuel) {
            Some(Ok(bound)) => check_steps(*body, ty, cx.insert(x, bound), fuel),
            Some(Err(e)) => Some(Err(e)),
            None => None,
        },
        (Term::U(i), Sem::U(j)) => Some(
            if i < j {
                Ok(())
            } else {
                Err(ErrorKind::UniverseLevelError)
            },
        ),
        _ => match infer_steps(t, cx, fuel) {
            Some(Ok(found)) => compare_steps(found, ty, cx, fuel),
            Some(Err(e)) => Some(Err(e)),
            None => None,
        },
    }
}

/// A verdict on two types that is reached within a bound is the verdict.
pub proof fn lemma_compare_steps_agree(
    found: Sem,
    expected: Sem,
    cx: Map<Seq<char>, Sem>,
    fuel: nat,
)
    requires
        compare_steps(found, expected, cx, fuel) is Some,
    ensures
        compare_outcome(found, expected, cx) == compare_steps(found, expected, cx, fuel),
{
    lemma_quote_reached(found, cx.dom(), fuel);
    lemma_quote_reached(expected, cx.dom(), fuel);
}

/// An outcome of inference that is reached within a bound is the outcome.
pub proof fn lemma_infer_steps_agree(t: Term, cx: Map<Seq<char>, Sem>, fuel: nat)
    requires
        infer_steps(t, cx, fuel) is Some,
    ensures
        infer_outcome(t, cx) == infer_steps(t, cx, fuel),
    decreases t, 0nat,
{
    match t {
        Term::App(f, a) => {
            lemma_infer_steps_agree(*f, cx, fuel);
            match infer_steps(*f, cx, fuel) {
                Some(Ok(Sem::Fun(d, c))) => {
                    lemma_check_steps_agree(*a, *d, cx, fuel);
                },
                _ => {},
            }
        },
        Term::Sub(x, v, body) => {
            lemma_infer_steps_agree(*v, cx, fuel);
            match infer_steps(*v, cx, fuel) {
                Some(Ok(bound)) => {
                    lemma_infer_steps_agree(*body, cx.insert(x, bound), fuel);
                },
                _ => {},
            }
        },
        _ => {},
    }
}

/// A verdict of checking that is reached within a bound is the verdict.
pub proof fn lemma_check_steps_agree(t: Term, ty: Sem, cx: Map<Seq<char>, Sem>, fuel: nat)
    requires
        check_steps(t, ty, cx, fuel) is Some,
    ensures
        check_outcome(t, ty, cx) == check_steps(t, ty, cx, fuel),
    decreases t, 1nat,
{
    match (t, ty) {
        (Term::Fun(d, c), Sem::U(_)) => {
            lemma_check_steps_agree(*d, ty, cx, fuel);
            match check_steps(*d, ty, cx, fuel) {
                Some(Ok(unit)) => {
                    assert(unit == ());
                    lemma_check_steps_agree(*c, ty, cx, fuel);
                },
                _ => {},
            }
        },
        (Term::Lam(x, body), Sem::Fun(d, c)) => {
            lemma_check_steps_agree(*body, *c, cx.insert(x, *d), fuel);
        },
        (Term::Sub(x, v, body), _) => {
            lemma_infer_steps_agree(*v, cx, fuel);
            match infer_steps(*v, cx, fuel) {
                Some(Ok(bound)) => {
                    lemma_check_steps_agree(*body, ty, cx.insert(x, bound), fuel);
                },
                _ => {},
            }
        },
        (Term::U(_), Sem::U(_)) => {},
        _ => {
            lemma_infer_steps_agree(t, cx, fuel);
            match infer_steps(t, cx, fuel) {
                Some(Ok(found)) => {
                    lemma_compare_steps_agree(found, ty, cx, fuel);
                },
                _ => {},
            }
        },
    }
}

/// A larger bound does not change a verdict on two types once it is reached.
pub proof fn lemma_compare_steps_monotone(
    found: Sem,
    expected: Sem,
    cx: Map<Seq<char>, Sem>,
    fuel: nat,
    more: nat,
)
    requires
        compare_steps(found, expected, cx, fuel) is Some,
        fuel <= more,
    ensures
        compare_steps(found, expected, cx, more) == compare_steps(found, expected, cx, fuel),
{
    lemma_quote_steps_monotone(found, cx.dom(), fuel, more);
    lemma_quote_steps_monotone(expected, cx.dom(), fuel, more);
}

/// A larger bound does not change an outcome of inference once it is reached.
pub proof fn lemma_infer_steps_monotone(t: Term, cx: Map<Seq<char>, Sem>, fuel: nat, more: nat)
    requires
        infer_steps(t, cx, fuel) is Some,
        fuel <= more,
    ensures
        infer_steps(t, cx, more) == infer_steps(t, cx, fuel),
    decreases t, 0nat,
{
    match t {
        Term::App(f, a) => {
            lemma_infer_steps_monotone(*f, cx, fuel, more);
            match infer_steps(*f, cx, fuel) {
                Some(Ok(Sem::Fun(d, c))) => {
                    lemma_check_steps_monotone(*a, *d, cx, fuel, more);
                },
                _ => {},
            }
        },
        Term::Sub(x, v, body) => {
            lemma_infer_steps_monotone(*v, cx, fuel, more);
            match infer_steps(*v, cx, fuel) {
                Some(Ok(bound)) => {
                    lemma_infer_steps_monotone(*body, cx.insert(x, bound), fuel, more);
                },
                _ => {},
            }
        },
        _ => {},
    }
}

/// A larger bound does not change a verdict of checking once it is reached.
pub proof fn lemma_check_steps_monotone(
    t: Term,
    ty: Sem,
    cx: Map<Seq<char>, Sem>,
    fuel: nat,
    more: nat,
)
    requires
        check_steps(t, ty, cx, fuel) is Some,
        fuel <= more,
    ensures
        check_steps(t, ty, cx, more) == check_steps(t, ty, cx, fuel),
    decreases t, 1nat,
{
    match (t, ty) {
        (Term::Fun(d, c), Sem::U(_)) => {
            lemma_check_steps_monotone(*d, ty, cx, fuel, more);
            match check_steps(*d, ty, cx, fuel) {
                Some(Ok(unit)) => {
                    assert(unit == ());
                    lemma_check_steps_monotone(*c, ty, cx, fuel, more);
                },
                _ => {},
            }
        },
        (Term::Lam(x, body), Sem::Fun(d, c)) => {
            lemma_check_steps_monotone(*body, *c, cx.insert(x, *d), fuel, more);
        },
        (Term::Sub(x, v, body), _) => {
            lemma_infer_steps_monotone(*v, cx, fuel, more);
            match infer_steps(*v, cx, fuel) {
                Some(Ok(bound)) => {
                    lemma_check_steps_monotone(*body, ty, cx.insert(x, bound), fuel, more);
                },
                _ => {},
            }
        },
        (Term::U(_), Sem::U(_)) => {},
        _ => {
            lemma_infer_steps_monotone(t, cx, fuel, more);
            match infer_steps(t, cx, fuel) {
                Some(Ok(found)) => {
                    lemma_compare_steps_monotone(found, ty, cx, fuel, more);
                },
                _ => {},
            }
        },
    }
}

/// An outcome of inference is reached within some bound, which is returned.
pub proof fn lemma_infer_reached(t: Term, cx: Map<Seq<char>, Sem>) -> (fuel: nat)
    requires
        infer_outcome(t, cx) is Some,
    ensures
        infer_steps(t, cx, fuel) == infer_outcome(t, cx),
    decreases t, 0nat,
{
    match t {
        Term::App(f, a) => {
            let first = lemma_infer_reached(*f, cx);
            match infer_outcome(*f, cx) {
                Some(Ok(Sem::Fun(d, c))) => {
                    let second = lemma_check_reached(*a, *d, cx);
                    let fuel = larger(first, second);
                    lemma_infer_steps_monotone(*f, cx, first, fuel);
                    lemma_check_steps_monotone(*a, *d, cx, second, fuel);
                    fuel
                },
                _ => first,
            }
        },
        Term::Sub(x, v, body) => {
            let first = lemma_infer_reached(*v, cx);
            match infer_outcome(*v, cx) {
                Some(Ok(bound)) => {
                    let second = lemma_infer_reached(*body, cx.insert(x, bound));
                    let fuel = larger(first, second);
                    lemma_infer_steps_monotone(*v, cx, first, fuel);
                    lemma_infer_steps_monotone(*body, cx.insert(x, bound), second, fuel);
                    fuel
                },
                _ => first,
            }
        },
        _ => 0,
    }
}

/// A verdict of checking is reached within some bound, which is returned.
pub proof fn lemma_check_reached(t: Term, ty: Sem, cx: Map<Seq<char>, Sem>) -> (fuel: nat)
    requires
        check_outcome(t, ty, cx) is Some,
    ensures
        check_steps(t, ty, cx, fuel) == check_outcome(t, ty, cx),
    decreases t, 1nat,
{
    match (t, ty) {
        (Term::Fun(d, c), Sem::U(_)) => {
            let first = lemma_check_reached(*d, ty, cx);
            match check_outcome(*d, ty, cx) {
                Some(Ok(unit)) => {
                    assert(unit == ());
                    let second = lemma_check_reached(*c, ty, cx);
                    let fuel = larger(first, second);
                    lemma_check_steps_monotone(*d, ty, cx, first, fuel);
                    lemma_check_steps_monotone(*c, ty, cx, second, fuel);
                    fuel
                },
                _ => first,
            }
        },
        (Term::Lam(x, body), Sem::Fun(d, c)) => lemma_check_reached(*body, *c, cx.insert(x, *d)),
        (Term::Sub(x, v, body), _) => {
            let first = lemma_infer_reached(*v, cx);
            match infer_outcome(*v, cx) {
                Some(Ok(bound)) => {
                    let second = lemma_check_reached(*body, ty, cx.insert(x, bound));
                    let fuel = larger(first, second);
                    lemma_infer_steps_monotone(*v, cx, first, fuel);
                    lemma_check_steps_monotone(*body, ty, cx.insert(x, bound), second, fuel);
                    fuel
                },
                _ => first,
            }
        },
        (Term::U(_), Sem::U(_)) => 0,
        _ => {
            let first = lemma_infer_reached(t, cx);
            match infer_outcome(t, cx) {
                Some(Ok(found)) => {
                    let second = larger(
                        quote_depth(found, cx.dom()),
                        quote_depth(ty, cx.dom()),
                    );
                    lemma_quote_at(found, cx.dom(), second);
                    lemma_quote_at(ty, cx.dom(), second);
                    let fuel = larger(first, second);
                    lemma_infer_steps_monotone(t, cx, first, fuel);
                    lemma_compare_steps_monotone(found, ty, cx, second, fuel);
                    fuel
                },
                _ => first,
            }
        },
    }
}

/// Universes are cumulative, strictly: a universe checks against the
/// universes above it and against no other universe.
pub proof fn lemma_universe_cumulativity(i: u8, j: u8, cx: Map<Seq<char>, Sem>)
    ensures
        i < j ==> check_outcome(Term::U(i), Sem::U(j), cx) == Some(Ok::<(), ErrorKind>(())),
        i >= j ==> check_outcome(Term::U(i), Sem::U(j), cx) == Some(
            Err::<(), ErrorKind>(ErrorKind::UniverseLevelError),
        ),
{
}

/// A function type is formed in a universe exactly where both of its sides
/// check against that universe.
pub proof fn lemma_function_type_formation(d: Term, c: Term, j: u8, cx: Map<Seq<char>, Sem>)
    ensures
        check_outcome(Term::Fun(Box::new(d), Box::new(c)), Sem::U(j), cx) == Some(
            Ok::<(), ErrorKind>(()),
        ) <==> check_outcome(d, Sem::U(j), cx) == Some(Ok::<(), ErrorKind>(())) && check_outcome(
            c,
            Sem::U(j),
            cx,
        ) == Some(Ok::<(), ErrorKind>(())),
{
    match check_outcome(d, Sem::U(j), cx) {
        Some(Ok(unit)) => {
            assert(unit == ());
        },
        _ => {},
    }
}

/// A name that the context does not bind has no type.
pub proof fn lemma_unknown_identifier(x: Seq<char>, cx: Map<Seq<char>, Sem>)
    requires
        !cx.dom().contains(x),
    ensures
        infer_outcome(Term::Var(x), cx) == Some(
            Err::<Sem, ErrorKind>(ErrorKind::UnknownIdentifier),
        ),
{
}

/// Applying an expression whose type is inferred, and is not a function type,
/// fails as the application of what is not a function. Where no type is
/// inferred for the expression, the application fails as that inference does.
pub proof fn lemma_application_to_non_function(f: Term, a: Term, cx: Map<Seq<char>, Sem>)
    ensures
        infer_outcome(f, cx) matches Some(Ok(ty)) && !(ty is Fun) ==> infer_outcome(
            Term::App(Box::new(f), Box::new(a)),
            cx,
        ) == Some(Err::<Sem, ErrorKind>(ErrorKind::NotAFunction)),
        infer_outcome(f, cx) matches Some(Err(e)) ==> infer_outcome(
            Term::App(Box::new(f), Box::new(a)),
            cx,
        ) == Some(Err::<Sem, ErrorKind>(e)),
{
}

/// Every type that `cx` holds is free of closures.
pub open spec fn context_closure_free(cx: Map<Seq<char>, Sem>) -> bool {
    forall|x: Seq<char>| #[trigger] cx.dom().contains(x) ==> closure_free(cx[x])
}

impl Env {
    /// Whether no binding holds a closure, the shadowed ones included. Under
    /// such a context checking against a type without closures has an outcome.
    pub fn is_closure_free(&self) -> (r: bool)
        ensures
            r == forall|i: int| 0 <= i < self.entries.len() ==> closure_free(self.entries[i].1@),
            r ==> context_closure_free(self@),
    {
        let mut i: usize = 0;
        while i < self.entries.len()
            invariant
                i <= self.entries.len(),
                forall|j: int| 0 <= j < i ==> closure_free(self.entries[j].1@),
            decreases self.entries.len() - i,
        {
            if !self.entries[i].1.is_closure_free() {
                return false;
            }
            i += 1;
        }
        proof {
            assert forall|x: Seq<char>| #[trigger]
                self@.dom().contains(x) implies closure_free(self@[x]) by {
                lemma_bindings_dom(self.entries@, x);
                let j = lemma_last_binding(self.entries@, x);
                lemma_bindings_last(self.entries@, j, x);
            }
        }
        true
    }
}

/// Under a context whose types hold no closure, inference always has an
/// outcome, and a type that it infers holds no closure.
pub proof fn lemma_infer_ends(t: Term, cx: Map<Seq<char>, Sem>)
    requires
        context_closure_free(cx),
    ensures
        infer_outcome(t, cx) is Some,
        infer_outcome(t, cx)->0 matches Ok(ty) ==> closure_free(ty),
    decreases t, 0nat,
{
    match t {
        Term::App(f, a) => {
            lemma_infer_ends(*f, cx);
            match infer_outcome(*f, cx) {
                Some(Ok(Sem::Fun(d, c))) => {
                    lemma_check_ends(*a, *d, cx);
                },
                _ => {},
            }
        },
        Term::Sub(x, v, body) => {
            lemma_infer_ends(*v, cx);
            match infer_outcome(*v, cx) {
                Some(Ok(bound)) => {
                    lemma_infer_ends(*body, cx.insert(x, bound));
                },
                _ => {},
            }
        },
        _ => {},
    }
}

/// Under a context whose types hold no closure, checking against a type that
/// holds no closure always has an outcome.
pub proof fn lemma_check_ends(t: Term, ty: Sem, cx: Map<Seq<char>, Sem>)
    requires
        closure_free(ty),
        context_closure_free(cx),
    ensures
        check_outcome(t, ty, cx) is Some,
    decreases t, 1nat,
{
    match (t, ty) {
        (Term::Fun(d, c), Sem::U(_)) => {
            lemma_check_ends(*d, ty, cx);
            lemma_check_ends(*c, ty, cx);
        },
        (Term::Lam(x, body), Sem::Fun(d, c)) => {
            lemma_check_ends(*body, *c, cx.insert(x, *d));
        },
        (Term::Sub(x, v, body), _) => {
            lemma_infer_ends(*v, cx);
            match infer_outcome(*v, cx) {
                Some(Ok(bound)) => {
                    lemma_check_ends(*body, ty, cx.insert(x, bound));
                },
                _ => {},
            }
        },
        (Term::U(_), Sem::U(_)) => {},
        _ => {
            lemma_infer_ends(t, cx);
            match infer_outcome(t, cx) {
                Some(Ok(found)) => {
                    lemma_closure_free_reads_back(found, cx.dom());
                    lemma_closure_free_reads_back(ty, cx.dom());
                },
                _ => {},
            }
        },
    }
}

/// An expression checks against the type that is inferred for it, under a
/// context whose types hold no closure.
pub proof fn lemma_inferred_type_checks(t: Term, ty: Sem, cx: Map<Seq<char>, Sem>)
    requires
        context_closure_free(cx),
        infer_outcome(t, cx) == Some(Ok::<Sem, ErrorKind>(ty)),
    ensures
        check_outcome(t, ty, cx) == Some(Ok::<(), ErrorKind>(())),
    decreases t,
{
    lemma_infer_ends(t, cx);
    match t {
        Term::Sub(x, v, body) => {
            lemma_infer_ends(*v, cx);
            let bound = infer_outcome(*v, cx)->0->Ok_0;
            lemma_inferred_type_checks(*body, ty, cx.insert(x, bound));
        },
        _ => {
            lemma_closure_free_reads_back(ty, cx.dom());
        },
    }
}

/// Compares the type `found` with the type `expected` under the context `cx`.
pub fn compare_types(found: &Type, expected: &Type, cx: &Context) -> (r: Result<(), ErrorKind>)
    requires
        compare_outcome(found@, expected@, cx@) is Some,
    ensures
        Some(r) == compare_outcome(found@, expected@, cx@),
{
    let xs = cx.keys();
    if found.quote(&xs) == expected.quote(&xs) {
        Ok(())
    } else {
        Err(ErrorKind::TypeMismatch)
    }
}

impl Expr {
    /// Checks the expression against the type `t` under the context `cx`.
    ///
    /// A function type is checked against a universe side by side, an
    /// abstraction against a function type with its parameter bound to the
    /// domain, a let-binding with its name bound to the type inferred for the
    /// bound expression, and a universe against a universe strictly above it.
    /// Any other expression has its type inferred and compared with `t`.
    ///
    /// The caller owes that every comparison of types on the way ends;
    /// `check_within` asks for no such thing.
    pub fn check(&self, t: &Type, cx: &Context) -> (r: Result<(), ErrorKind>)
        requires
            check_outcome(self@, t@, cx@) is Some,
        ensures
            Some(r) == check_outcome(self@, t@, cx@),
        decreases self, 1nat,
    {
        match (self, t) {
            (Expr::Fun(e_1, e_2), Value::U(_)) => {
                match e_1.check(t, cx) {
                    Ok(()) => e_2.check(t, cx),
                    Err(e) => Err(e),
                }
            },
            (Expr::Lam(x, e), Value::Fun(t_1, t_2)) => {
                let mut cx_ = cx.clone();
                cx_.insert(x.clone(), (**t_1).clone());
                e.check(t_2, &cx_)
            },
            (Expr::Sub(x, e_1, e_2), _) => {
                match e_1.infer(cx) {
                    Ok(t_1) => {
                        let mut cx_ = cx.clone();
                        cx_.insert(x.clone(), t_1);
                        e_2.check(t, &cx_)
                    },
                    Err(e) => Err(e),
                }
            },
            (Expr::U(i), Value::U(j)) => {
                if *i < *j {
                    Ok(())
                } else {
                    Err(ErrorKind::UniverseLevelError)
                }
            },
            _ => {
                match self.infer(cx) {
                    Ok(t_) => compare_types(&t_, t, cx),
                    Err(e) => Err(e),
                }
            },
        }
    }

    /// Infers the type of the expression under the context `cx`.
    ///
    /// A name has the type that `cx` binds it to. An application has the
    /// codomain of the function's type, once the argument checks against the
    /// domain. A let-binding has the type of its body, inferred with the name
    /// bound to the type of the bound expression. Universes, function types
    /// and abstractions have no inferred type.
    ///
    /// The caller owes that every comparison of types on the way ends;
    /// `infer_within` asks for no such thing.
    pub fn infer(&self, cx: &Context) -> (r: Result<Type, ErrorKind>)
        requires
            infer_outcome(self@, cx@) is Some,
        ensures
            match r {
                Ok(t) => infer_outcome(self@, cx@) == Some(Ok::<Sem, ErrorKind>(t@)),
                Err(e) => infer_outcome(self@, cx@) == Some(Err::<Sem, ErrorKind>(e)),
            },
        decreases self, 0nat,
    {
        match self {
            Expr::App(e_1, e_2) => {
                match e_1.infer(cx) {
                    Ok(Value::Fun(v_1, v_2)) => {
                        match e_2.check(&v_1, cx) {
                            Ok(()) => Ok(*v_2),
                            Err(e) => Err(e),
                        }
                    },
                    Ok(_) => Err(ErrorKind::NotAFunction),
                    Err(e) => Err(e),
                }
            },
            Expr::Sub(x, e_1, e_2) => {
                match e_1.infer(cx) {
                    Ok(t_1) => {
                        let mut cx_ = cx.clone();
                        cx_.insert(x.clone(), t_1);
                        e_2.infer(&cx_)
                    },
                    Err(e) => Err(e),
                }
            },
            Expr::Var(x) => match cx.get(x) {
                Some(t) => Ok(t.clone()),
                None => Err(ErrorKind::UnknownIdentifier),
            },
            _ => Err(ErrorKind::CannotInferType),
        }
    }
}

/// Compares the type `found` with the type `expected` under the context `cx`,
/// reading each back by a computation of depth at most `fuel`.
///
/// Returns nothing where one of the two has no normal form within that depth.
/// A verdict that is returned is the verdict of `compare_types`.
pub fn compare_types_within(found: &Type, expected: &Type, cx: &Context, fuel: usize) -> (r: Option<
    Result<(), ErrorKind>,
>)
    ensures
        r == compare_steps(found@, expected@, cx@, fuel as nat),
        r is Some ==> compare_outcome(found@, expected@, cx@) == r,
{
    let xs = cx.keys();
    let r = match found.quote_within(&xs, fuel) {
        Some(a) => match expected.quote_within(&xs, fuel) {
            Some(b) => if a == b {
                Some(Ok(()))
            } else {
                Some(Err(ErrorKind::TypeMismatch))
            },
            None => None,
        },
        None => None,
    };
    proof {
        if r is Some {
            lemma_compare_steps_agree(found@, expected@, cx@, fuel as nat);
        }
    }
    r
}

impl Expr {
    /// Checks the expression against the type `t` under the context `cx`, with
    /// every comparison of types made by computations of depth at most `fuel`.
    ///
    /// Returns nothing where a comparison on the way has no verdict within
    /// that depth. A verdict that is returned is the verdict of `check`.
    pub fn check_within(&self, t: &Type, cx: &Context, fuel: usize) -> (r: Option<
        Result<(), ErrorKind>,
    >)
        ensures
            r == check_steps(self@, t@, cx@, fuel as nat),
            r is Some ==> check_outcome(self@, t@, cx@) == r,
        decreases self, 1nat,
    {
        let r = match (self, t) {
            (Expr::Fun(e_1, e_2), Value::U(_)) => {
                match e_1.check_within(t, cx, fuel) {
                    Some(Ok(())) => e_2.check_within(t, cx, fuel),
                    other => other,
                }
            },
            (Expr::Lam(x, e), Value::Fun(t_1, t_2)) => {
                let mut cx_ = cx.clone();
                cx_.insert(x.clone(), (**t_1).clone());
                e.check_within(t_2, &cx_, fuel)
            },
            (Expr::Sub(x, e_1, e_2), _) => {
                match e_1.infer_within(cx, fuel) {
                    Some(Ok(t_1)) => {
                        let mut cx_ = cx.clone();
                        cx_.insert(x.clone(), t_1);
                        e_2.check_within(t, &cx_, fuel)
                    },
                    Some(Err(e)) => Some(Err(e)),
                    None => None,
                }
            },
            (Expr::U(i), Value::U(j)) => {
                if *i < *j {
                    Some(Ok(()))
                } else {
                    Some(Err(ErrorKind::UniverseLevelError))
                }
            },
            _ => {
                match self.infer_within(cx, fuel) {
                    Some(Ok(t_)) => compare_types_within(&t_, t, cx, fuel),
                    Some(Err(e)) => Some(Err(e)),
                    None => None,
                }
            },
        };
        proof {
            if r is Some {
                lemma_check_steps_agree(self@, t@, cx@, fuel as nat);
            }
        }
        r
    }

    /// Infers the type of the expression under the context `cx`, with every
    /// comparison of types made by computations of depth at most `fuel`.
    ///
    /// Returns nothing where a comparison on the way has no verdict within
    /// that depth. An outcome that is returned is the outcome of `infer`.
    pub fn infer_within(&self, cx: &Context, fuel: usize) -> (r: Option<Result<Type, ErrorKind>>)
        ensures
            match r {
                Some(Ok(t)) => infer_steps(self@, cx@, fuel as nat) == Some(
                    Ok::<Sem, ErrorKind>(t@),
                ),
                Some(Err(e)) => infer_steps(self@, cx@, fuel as nat) == Some(
                    Err::<Sem, ErrorKind>(e),
                ),
                None => infer_steps(self@, cx@, fuel as nat) is None,
            },
            r is Some ==> infer_outcome(self@, cx@) == infer_steps(self@, cx@, fuel as nat),
        decreases self, 0nat,
    {
        let r = match self {
            Expr::App(e_1, e_2) => {
                match e_1.infer_within(cx, fuel) {
                    Some(Ok(Value::Fun(v_1, v_2))) => {
                        match e_2.check_within(&v_1, cx, fuel) {
                            Some(Ok(())) => Some(Ok(*v_2)),
                            Some(Err(e)) => Some(Err(e)),
                            None => None,
                        }
                    },
                    Some(Ok(_)) => Some(Err(ErrorKind::NotAFunction)),
                    Some(Err(e)) => Some(Err(e)),
                    None => None,
                }
            },
            Expr::Sub(x, e_1, e_2) => {
                match e_1.infer_within(cx, fuel) {
                    Some(Ok(t_1)) => {
                        let mut cx_ = cx.clone();
                        cx_.insert(x.clone(), t_1);
                        e_2.infer_within(&cx_, fuel)
                    },
                    Some(Err(e)) => Some(Err(e)),
                    None => None,
                }
            },
            Expr::Var(x) => match cx.get(x) {
                Some(t) => Some(Ok(t.clone())),
                None => Some(Err(ErrorKind::UnknownIdentifier)),
            },
            _ => Some(Err(ErrorKind::CannotInferType)),
        };
        proof {
            if r is Some {
                lemma_infer_steps_agree(self@, cx@, fuel as nat);
            }
        }
        r
    }
}

} // verus!
