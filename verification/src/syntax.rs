//! The syntax tree and its mathematical model.

use vstd::prelude::*;

verus! {

/// A name, as a binder or as a reference.
pub type Identifier = String;

/// Universe levels.
pub type Level = u8;

/// The mathematical model of an expression: the same tree, with names as
/// sequences of characters.
pub enum Term {
    /// Application of a function to an argument.
    App(Box<Term>, Box<Term>),
    /// The type of functions from a domain to a codomain.
    Fun(Box<Term>, Box<Term>),
    /// An abstraction binding a name in a body.
    Lam(Seq<char>, Box<Term>),
    /// A let-binding of a name to a value within a body.
    Sub(Seq<char>, Box<Term>, Box<Term>),
    /// A universe.
    U(Level),
    /// A reference to a name.
    Var(Seq<char>),
}

/// An expression of the calculus.
#[derive(Debug)]
pub enum Expr {
    /// Application of a function to an argument.
    App(Box<Expr>, Box<Expr>),
    /// The type of functions from a domain to a codomain.
    Fun(Box<Expr>, Box<Expr>),
    /// An abstraction binding a name in a body.
    Lam(Identifier, Box<Expr>),
    /// A let-binding of a name to a value within a body.
    Sub(Identifier, Box<Expr>, Box<Expr>),
    /// A universe.
    U(Level),
    /// A reference to a name.
    Var(Identifier),
}

impl View for Expr {
    type V = Term;

    open spec fn view(&self) -> Term
        decreases self,
    {
        match self {
            Expr::App(f, a) => Term::App(Box::new((**f).view()), Box::new((**a).view())),
            Expr::Fun(d, c) => Term::Fun(Box::new((**d).view()), Box::new((**c).view())),
            Expr::Lam(x, b) => Term::Lam(x@, Box::new((**b).view())),
            Expr::Sub(x, v, b) => Term::Sub(
                x@,
                Box::new((**v).view()),
                Box::new((**b).view()),
            ),
            Expr::U(i) => Term::U(*i),
            Expr::Var(x) => Term::Var(x@),
        }
    }
}

impl Clone for Expr {
    /// A copy of the expression.
    fn clone(&self) -> (r: Expr)
        ensures
            r@ == self@,
        decreases self,
    {
        match self {
            Expr::App(f, a) => Expr::App(Box::new((**f).clone()), Box::new((**a).clone())),
            Expr::Fun(d, c) => Expr::Fun(Box::new((**d).clone()), Box::new((**c).clone())),
            Expr::Lam(x, b) => Expr::Lam(x.clone(), Box::new((**b).clone())),
            Expr::Sub(x, v, b) => Expr::Sub(
                x.clone(),
                Box::new((**v).clone()),
                Box::new((**b).clone()),
            ),
            Expr::U(i) => Expr::U(*i),
            Expr::Var(x) => Expr::Var(x.clone()),
        }
    }
}

} // verus!
