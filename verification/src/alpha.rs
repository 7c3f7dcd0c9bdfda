//! Equality of expressions up to the names of bound variables.
//!
//! Two expressions are alpha-equivalent when they have the same nameless
//! form: the expression in which every reference to a bound variable is
//! replaced by the position of its binder, counted from the outside.

use vstd::prelude::*;
use crate::syntax::{Expr, Level, Term};

verus! {

/// An expression without the names of its bound variables.
pub enum Nameless {
    App(Box<Nameless>, Box<Nameless>),
    Fun(Box<Nameless>, Box<Nameless>),
    Lam(Box<Nameless>),
    Sub(Box<Nameless>, Box<Nameless>),
    U(Level),
    /// A reference to the binder at this position, the outermost being 0.
    Bound(int),
    /// A reference to a name that no enclosing binder binds.
    Free(Seq<char>),
}

/// The position of the innermost binder named `x` among `binders`, which are
/// listed from the outside in.
pub open spec fn binder_of(binders: Seq<Seq<char>>, x: Seq<char>) -> Option<int>
    decreases binders.len(),
{
    if binders.len() == 0 {
        None
    } else if binders.last() == x {
        Some(binders.len() - 1)
    } else {
        binder_of(binders.drop_last(), x)
    }
}

/// The nameless form of `t` where it stands under `binders`.
pub open spec fn nameless(t: Term, binders: Seq<Seq<char>>) -> Nameless
    decreases t,
{
    match t {
        Term::App(f, a) => Nameless::App(
            Box::new(nameless(*f, binders)),
            Box::new(nameless(*a, binders)),
        ),
        Term::Fun(d, c) => Nameless::Fun(
            Box::new(nameless(*d, binders)),
            Box::new(nameless(*c, binders)),
        ),
        Term::Lam(x, body) => Nameless::Lam(Box::new(nameless(*body, binders.push(x)))),
        Term::Sub(x, v, body) => Nameless::Sub(
            Box::new(nameless(*v, binders)),
            Box::new(nameless(*body, binders.push(x))),
        ),
        Term::U(i) => Nameless::U(i),
        Term::Var(x) => match binder_of(binders, x) {
            Some(position) => Nameless::Bound(position),
            None => Nameless::Free(x),
        },
    }
}

/// `a` and `b` are equal up to the names of their bound variables.
pub open spec fn alpha_equivalent(a: Term, b: Term) -> bool {
    nameless(a, Seq::empty()) == nameless(b, Seq::empty())
}

/// The names that a list of strings holds.
pub open spec fn names_view(names: Seq<String>) -> Seq<Seq<char>> {
    Seq::new(names.len(), |i: int| names[i]@)
}

/// The position of the last of `binders` that is named `x`.
fn binder_position(binders: &Vec<String>, x: &String) -> (r: Option<usize>)
    ensures
        match r {
            Some(position) => binder_of(names_view(binders@), x@) == Some(position as int),
            None => binder_of(names_view(binders@), x@) is None,
        },
{
    let ghost all = names_view(binders@);
    let mut i: usize = binders.len();
    proof {
        assert(all.take(i as int) =~= all);
    }
    while i > 0
        invariant
            i <= binders.len(),
            all == names_view(binders@),
            binder_of(all, x@) == binder_of(all.take(i as int), x@),
        decreases i,
    {
        i -= 1;
        proof {
            assert(all.take(i + 1).drop_last() =~= all.take(i as int));
            assert(all.take(i + 1).last() == binders[i as int]@);
        }
        if binders[i] == *x {
            return Some(i);
        }
    }
    None
}

/// The list `binders` with `x` added as its innermost binder.
fn with_binder(binders: &Vec<String>, x: &String) -> (r: Vec<String>)
    ensures
        names_view(r@) == names_view(binders@).push(x@),
{
    let mut r: Vec<String> = Vec::new();
    let mut i: usize = 0;
    while i < binders.len()
        invariant
            i <= binders.len(),
            r.len() == i,
            forall|j: int| 0 <= j < i ==> r[j]@ == binders[j]@,
        decreases binders.len() - i,
    {
        r.push(binders[i].clone());
        i += 1;
    }
    r.push(x.clone());
    proof {
        assert(names_view(r@) =~= names_view(binders@).push(x@));
    }
    r
}

impl Expr {
    /// Whether the expression, standing under the binders `xs`, equals `other`,
    /// standing under the binders `ys`, up to the names of bound variables.
    ///
    /// The binders are listed from the outside in. Two references are equal
    /// where both are bound, by binders at the same position, or both are
    /// free and name the same identifier. Expressions of different shapes are
    /// unequal.
    pub fn alpha_eq(&self, other: &Expr, xs: &Vec<String>, ys: &Vec<String>) -> (r: bool)
        ensures
            r == (nameless(self@, names_view(xs@)) == nameless(other@, names_view(ys@))),
        decreases self,
    {
        match (self, other) {
            (Expr::App(e_1, e_2), Expr::App(e_3, e_4)) => {
                e_1.alpha_eq(e_3, xs, ys) && e_2.alpha_eq(e_4, xs, ys)
            },
            (Expr::Fun(e_1, e_2), Expr::Fun(e_3, e_4)) => {
                e_1.alpha_eq(e_3, xs, ys) && e_2.alpha_eq(e_4, xs, ys)
            },
            (Expr::Lam(x, e_1), Expr::Lam(y, e_2)) => {
                let xs_ = with_binder(xs, x);
                let ys_ = with_binder(ys, y);
                e_1.alpha_eq(e_2, &xs_, &ys_)
            },
            (Expr::Sub(x, e_1, e_2), Expr::Sub(y, e_3, e_4)) => {
                if e_1.alpha_eq(e_3, xs, ys) {
                    let xs_ = with_binder(xs, x);
                    let ys_ = with_binder(ys, y);
                    e_2.alpha_eq(e_4, &xs_, &ys_)
                } else {
                    false
                }
            },
            (Expr::U(i), Expr::U(j)) => *i == *j,
            (Expr::Var(x), Expr::Var(y)) => match (binder_position(xs, x), binder_position(ys, y)) {
                (None, None) => *x == *y,
                (Some(j), Some(k)) => j == k,
                _ => false,
            },
            _ => false,
        }
    }
}

impl PartialEq for Expr {
    /// Equality of expressions is alpha-equivalence.
    fn eq(&self, other: &Expr) -> (r: bool) {
        let xs: Vec<String> = Vec::new();
        let ys: Vec<String> = Vec::new();
        proof {
            assert(names_view(xs@) =~= Seq::empty());
            assert(names_view(ys@) =~= Seq::empty());
        }
        self.alpha_eq(other, &xs, &ys)
    }
}

impl vstd::std_specs::cmp::PartialEqSpecImpl for Expr {
    open spec fn obeys_eq_spec() -> bool {
        true
    }

    open spec fn eq_spec(&self, other: &Expr) -> bool {
        alpha_equivalent(self@, other@)
    }
}

/// Alpha-equivalence is an equivalence relation.
pub proof fn lemma_alpha_equivalence(a: Term, b: Term, c: Term)
    ensures
        alpha_equivalent(a, a),
        alpha_equivalent(a, b) ==> alpha_equivalent(b, a),
        alpha_equivalent(a, b) && alpha_equivalent(b, c) ==> alpha_equivalent(a, c),
{
}

/// The name `x` occurs in `t`, as a reference or as the name of a binder.
pub open spec fn occurs(t: Term, x: Seq<char>) -> bool
    decreases t,
{
    match t {
        Term::App(f, a) => occurs(*f, x) || occurs(*a, x),
        Term::Fun(d, c) => occurs(*d, x) || occurs(*c, x),
        Term::Lam(z, body) => z == x || occurs(*body, x),
        Term::Sub(z, v, body) => z == x || occurs(*v, x) || occurs(*body, x),
        Term::U(_) => false,
        Term::Var(z) => z == x,
    }
}

/// The name `z`, or `y` in place of `x`.
pub open spec fn rename_name(z: Seq<char>, x: Seq<char>, y: Seq<char>) -> Seq<char> {
    if z == x {
        y
    } else {
        z
    }
}

/// `t` with the name `y` in place of every occurrence of the name `x`,
/// references and binders alike.
pub open spec fn rename_all(t: Term, x: Seq<char>, y: Seq<char>) -> Term
    decreases t,
{
    match t {
        Term::App(f, a) => Term::App(
            Box::new(rename_all(*f, x, y)),
            Box::new(rename_all(*a, x, y)),
        ),
        Term::Fun(d, c) => Term::Fun(
            Box::new(rename_all(*d, x, y)),
            Box::new(rename_all(*c, x, y)),
        ),
        Term::Lam(z, body) => Term::Lam(rename_name(z, x, y), Box::new(rename_all(*body, x, y))),
        Term::Sub(z, v, body) => Term::Sub(
            rename_name(z, x, y),
            Box::new(rename_all(*v, x, y)),
            Box::new(rename_all(*body, x, y)),
        ),
        Term::U(i) => Term::U(i),
        Term::Var(z) => Term::Var(rename_name(z, x, y)),
    }
}

/// `t` with every bound variable named `x` renamed to `y`: each binder of `x`
/// becomes a binder of `y`, and so does every reference within its reach.
/// References to `x` that no binder in `t` binds stay as they are.
pub open spec fn rename_bound(t: Term, x: Seq<char>, y: Seq<char>) -> Term
    decreases t,
{
    match t {
        Term::App(f, a) => Term::App(
            Box::new(rename_bound(*f, x, y)),
            Box::new(rename_bound(*a, x, y)),
        ),
        Term::Fun(d, c) => Term::Fun(
            Box::new(rename_bound(*d, x, y)),
            Box::new(rename_bound(*c, x, y)),
        ),
        Term::Lam(z, body) => if z == x {
            Term::Lam(y, Box::new(rename_all(*body, x, y)))
        } else {
            Term::Lam(z, Box::new(rename_bound(*body, x, y)))
        },
        Term::Sub(z, v, body) => if z == x {
            Term::Sub(y, Box::new(rename_bound(*v, x, y)), Box::new(rename_all(*body, x, y)))
        } else {
            Term::Sub(z, Box::new(rename_bound(*v, x, y)), Box::new(rename_bound(*body, x, y)))
        },
        Term::U(i) => Term::U(i),
        Term::Var(z) => Term::Var(z),
    }
}

/// The binders `to` are the binders `from` with `y` in place of `x`.
pub open spec fn renamed_binders(
    from: Seq<Seq<char>>,
    to: Seq<Seq<char>>,
    x: Seq<char>,
    y: Seq<char>,
) -> bool {
    &&& from.len() == to.len()
    &&& forall|i: int| 0 <= i < from.len() ==> to[i] == rename_name(#[trigger] from[i], x, y)
}

/// A name is bound among `binders` exactly where it is one of them.
proof fn lemma_binder_of_contains(binders: Seq<Seq<char>>, z: Seq<char>)
    ensures
        binder_of(binders, z) is Some <==> binders.contains(z),
    decreases binders.len(),
{
    if binders.len() > 0 {
        lemma_binder_of_contains(binders.drop_last(), z);
        if binders.contains(z) && binders.last() != z {
            let i = choose|i: int| 0 <= i < binders.len() && binders[i] == z;
            assert(binders.drop_last()[i] == z);
        }
        if binders.drop_last().contains(z) {
            let i = choose|i: int| 0 <= i < binders.drop_last().len() && binders.drop_last()[i] == z;
            assert(binders[i] == z);
        }
    }
}

/// Renaming `x` to a name `y` that is not among the binders keeps the position
/// at which each name is bound.
proof fn lemma_binder_of_renamed(
    from: Seq<Seq<char>>,
    to: Seq<Seq<char>>,
    x: Seq<char>,
    y: Seq<char>,
    z: Seq<char>,
)
    requires
        renamed_binders(from, to, x, y),
        !from.contains(y),
        z != y,
    ensures
        binder_of(to, rename_name(z, x, y)) == binder_of(from, z),
    decreases from.len(),
{
    if from.len() > 0 {
        let last = from.len() - 1;
        assert(to[last] == rename_name(from[last], x, y));
        assert(from.contains(from[last]));
        assert forall|i: int| 0 <= i < from.drop_last().len() implies to.drop_last()[i]
            == rename_name(#[trigger] from.drop_last()[i], x, y) by {
            assert(to[i] == rename_name(from[i], x, y));
        }
        if from.drop_last().contains(y) {
            let i = choose|i: int| 0 <= i < from.drop_last().len() && from.drop_last()[i] == y;
            assert(from[i] == y);
        }
        lemma_binder_of_renamed(from.drop_last(), to.drop_last(), x, y, z);
    }
}

/// Pushing a binder and its renamed counterpart keeps two lists of binders in
/// step.
proof fn lemma_renamed_binders_push(
    from: Seq<Seq<char>>,
    to: Seq<Seq<char>>,
    x: Seq<char>,
    y: Seq<char>,
    z: Seq<char>,
)
    requires
        renamed_binders(from, to, x, y),
        !from.contains(y),
        z != y,
    ensures
        renamed_binders(from.push(z), to.push(rename_name(z, x, y)), x, y),
        !from.push(z).contains(y),
{
    if from.push(z).contains(y) {
        let i = choose|i: int| 0 <= i < from.push(z).len() && from.push(z)[i] == y;
        if i < from.len() {
            assert(from[i] == y);
        }
    }
}

/// Within the reach of a binder of `x`, replacing `x` by a new name `y`
/// throughout, binders included, keeps the nameless form.
proof fn lemma_rename_all(
    t: Term,
    x: Seq<char>,
    y: Seq<char>,
    from: Seq<Seq<char>>,
    to: Seq<Seq<char>>,
)
    requires
        !occurs(t, y),
        renamed_binders(from, to, x, y),
        !from.contains(y),
        from.contains(x),
    ensures
        nameless(rename_all(t, x, y), to) == nameless(t, from),
    decreases t,
{
    match t {
        Term::App(f, a) => {
            lemma_rename_all(*f, x, y, from, to);
            lemma_rename_all(*a, x, y, from, to);
        },
        Term::Fun(d, c) => {
            lemma_rename_all(*d, x, y, from, to);
            lemma_rename_all(*c, x, y, from, to);
        },
        Term::Lam(z, body) => {
            lemma_renamed_binders_push(from, to, x, y, z);
            let i = choose|i: int| 0 <= i < from.len() && from[i] == x;
            assert(from.push(z)[i] == x);
            lemma_rename_all(*body, x, y, from.push(z), to.push(rename_name(z, x, y)));
        },
        Term::Sub(z, v, body) => {
            lemma_rename_all(*v, x, y, from, to);
            lemma_renamed_binders_push(from, to, x, y, z);
            let i = choose|i: int| 0 <= i < from.len() && from[i] == x;
            assert(from.push(z)[i] == x);
            lemma_rename_all(*body, x, y, from.push(z), to.push(rename_name(z, x, y)));
        },
        Term::U(_) => {},
        Term::Var(z) => {
            lemma_binder_of_renamed(from, to, x, y, z);
            lemma_binder_of_contains(from, z);
        },
    }
}

/// Under binders that name neither `x` nor `y`, renaming the bound variables
/// named `x` to a new name `y` keeps the nameless form.
proof fn lemma_rename_bound_under(t: Term, x: Seq<char>, y: Seq<char>, binders: Seq<Seq<char>>)
    requires
        !occurs(t, y),
        !binders.contains(x),
        !binders.contains(y),
    ensures
        nameless(rename_bound(t, x, y), binders) == nameless(t, binders),
    decreases t, 0nat,
{
    match t {
        Term::App(f, a) => {
            lemma_rename_bound_under(*f, x, y, binders);
            lemma_rename_bound_under(*a, x, y, binders);
        },
        Term::Fun(d, c) => {
            lemma_rename_bound_under(*d, x, y, binders);
            lemma_rename_bound_under(*c, x, y, binders);
        },
        Term::Lam(z, body) => {
            lemma_rename_bound_body(*body, z, x, y, binders);
        },
        Term::Sub(z, v, body) => {
            lemma_rename_bound_under(*v, x, y, binders);
            lemma_rename_bound_body(*body, z, x, y, binders);
        },
        Term::U(_) => {},
        Term::Var(_) => {},
    }
}

/// The step of `lemma_rename_bound_under` into the body of a binder named `z`.
proof fn lemma_rename_bound_body(
    body: Term,
    z: Seq<char>,
    x: Seq<char>,
    y: Seq<char>,
    binders: Seq<Seq<char>>,
)
    requires
        !occurs(body, y),
        z != y,
        !binders.contains(x),
        !binders.contains(y),
    ensures
        z == x ==> nameless(rename_all(body, x, y), binders.push(y)) == nameless(
            body,
            binders.push(x),
        ),
        z != x ==> nameless(rename_bound(body, x, y), binders.push(z)) == nameless(
            body,
            binders.push(z),
        ),
    decreases body, 1nat,
{
    if z == x {
        assert(renamed_binders(binders, binders, x, y)) by {
            assert forall|i: int| 0 <= i < binders.len() implies binders[i] == rename_name(
                #[trigger] binders[i],
                x,
                y,
            ) by {
                assert(binders.contains(binders[i]));
            }
        }
        lemma_renamed_binders_push(binders, binders, x, y, x);
        assert(binders.push(x)[binders.len() as int] == x);
        lemma_rename_all(body, x, y, binders.push(x), binders.push(y));
    } else {
        if binders.push(z).contains(x) {
            let i = choose|i: int| 0 <= i < binders.push(z).len() && binders.push(z)[i] == x;
            assert(binders[i] == x);
        }
        if binders.push(z).contains(y) {
            let i = choose|i: int| 0 <= i < binders.push(z).len() && binders.push(z)[i] == y;
            assert(binders[i] == y);
        }
        lemma_rename_bound_under(body, x, y, binders.push(z));
    }
}

/// Renaming the bound variables named `x` to a name `y` that does not occur in
/// the expression gives an alpha-equivalent expression.
pub proof fn lemma_rename_bound(t: Term, x: Seq<char>, y: Seq<char>)
    requires
        !occurs(t, y),
    ensures
        alpha_equivalent(rename_bound(t, x, y), t),
{
    lemma_rename_bound_under(t, x, y, Seq::empty());
}

/// `t` with the name `z` in place of every free reference to `x`: every
/// reference to `x` that no binder of `t` binds.
pub open spec fn rename_free(t: Term, x: Seq<char>, z: Seq<char>) -> Term
    decreases t,
{
    match t {
        Term::App(f, a) => Term::App(
            Box::new(rename_free(*f, x, z)),
            Box::new(rename_free(*a, x, z)),
        ),
        Term::Fun(d, c) => Term::Fun(
            Box::new(rename_free(*d, x, z)),
            Box::new(rename_free(*c, x, z)),
        ),
        Term::Lam(w, body) => if w == x {
            t
        } else {
            Term::Lam(w, Box::new(rename_free(*body, x, z)))
        },
        Term::Sub(w, v, body) => Term::Sub(
            w,
            Box::new(rename_free(*v, x, z)),
            if w == x {
                body
            } else {
                Box::new(rename_free(*body, x, z))
            },
        ),
        Term::U(i) => Term::U(i),
        Term::Var(w) => Term::Var(rename_name(w, x, z)),
    }
}

/// `t` with its outermost binder renamed to `z`, and with it the references
/// that it binds. An expression that is no binder stays as it is.
pub open spec fn rename_binder(t: Term, z: Seq<char>) -> Term {
    match t {
        Term::Lam(x, body) => Term::Lam(z, Box::new(rename_free(*body, x, z))),
        Term::Sub(x, v, body) => Term::Sub(z, v, Box::new(rename_free(*body, x, z))),
        _ => t,
    }
}

/// `t` with one binder renamed to `z`: the binder that `path` leads to. Each
/// step of the path is `true` for the left part of an expression (function,
/// domain, bound expression) and `false` for the right part (argument,
/// codomain, body); under an abstraction a step leads into the body. A path
/// that leaves the expression leads nowhere, and the expression stays as it is.
pub open spec fn rename_binder_at(t: Term, path: Seq<bool>, z: Seq<char>) -> Term
    decreases path.len(),
{
    if path.len() == 0 {
        rename_binder(t, z)
    } else {
        let rest = path.drop_first();
        match t {
            Term::App(f, a) => if path[0] {
                Term::App(Box::new(rename_binder_at(*f, rest, z)), a)
            } else {
                Term::App(f, Box::new(rename_binder_at(*a, rest, z)))
            },
            Term::Fun(d, c) => if path[0] {
                Term::Fun(Box::new(rename_binder_at(*d, rest, z)), c)
            } else {
                Term::Fun(d, Box::new(rename_binder_at(*c, rest, z)))
            },
            Term::Lam(x, body) => Term::Lam(x, Box::new(rename_binder_at(*body, rest, z))),
            Term::Sub(x, v, body) => if path[0] {
                Term::Sub(x, Box::new(rename_binder_at(*v, rest, z)), body)
            } else {
                Term::Sub(x, v, Box::new(rename_binder_at(*body, rest, z)))
            },
            _ => t,
        }
    }
}

/// The binders `from` and `to` are equally many and bind every name at the
/// same position, but for the names `x` and `z`.
spec fn binders_agree_but(
    from: Seq<Seq<char>>,
    to: Seq<Seq<char>>,
    x: Seq<char>,
    z: Seq<char>,
) -> bool {
    &&& from.len() == to.len()
    &&& forall|w: Seq<char>|
        w != x && w != z ==> #[trigger] binder_of(from, w) == binder_of(to, w)
}

/// One more binder of the same name on each side keeps the binders in
/// agreement.
proof fn lemma_binders_agree_push(
    from: Seq<Seq<char>>,
    to: Seq<Seq<char>>,
    x: Seq<char>,
    z: Seq<char>,
    w: Seq<char>,
)
    requires
        binders_agree_but(from, to, x, z),
    ensures
        binders_agree_but(from.push(w), to.push(w), x, z),
        binder_of(from.push(w), w) == binder_of(to.push(w), w),
        forall|v: Seq<char>| v != w ==> binder_of(from.push(w), v) == binder_of(from, v),
        forall|v: Seq<char>| v != w ==> binder_of(to.push(w), v) == binder_of(to, v),
{
    assert(from.push(w).drop_last() =~= from);
    assert(to.push(w).drop_last() =~= to);
    assert forall|v: Seq<char>| v != x && v != z implies #[trigger] binder_of(from.push(w), v)
        == binder_of(to.push(w), v) by {
        if v != w {
            assert(binder_of(from, v) == binder_of(to, v));
        }
    }
}

/// An expression has the same nameless form under binders that bind every
/// name at the same position, but for a name that does not occur in it.
proof fn lemma_nameless_agree(t: Term, from: Seq<Seq<char>>, to: Seq<Seq<char>>, z: Seq<char>)
    requires
        !occurs(t, z),
        binders_agree_but(from, to, z, z),
    ensures
        nameless(t, from) == nameless(t, to),
    decreases t,
{
    match t {
        Term::App(f, a) => {
            lemma_nameless_agree(*f, from, to, z);
            lemma_nameless_agree(*a, from, to, z);
        },
        Term::Fun(d, c) => {
            lemma_nameless_agree(*d, from, to, z);
            lemma_nameless_agree(*c, from, to, z);
        },
        Term::Lam(w, body) => {
            lemma_binders_agree_push(from, to, z, z, w);
            lemma_nameless_agree(*body, from.push(w), to.push(w), z);
        },
        Term::Sub(w, v, body) => {
            lemma_nameless_agree(*v, from, to, z);
            lemma_binders_agree_push(from, to, z, z, w);
            lemma_nameless_agree(*body, from.push(w), to.push(w), z);
        },
        Term::U(_) => {},
        Term::Var(_) => {},
    }
}

/// Where `to` binds `z` at the position at which `from` binds `x`, and the two
/// agree on every other name, renaming the free references to `x` to a new
/// name `z` keeps the nameless form.
proof fn lemma_rename_free(
    t: Term,
    x: Seq<char>,
    z: Seq<char>,
    from: Seq<Seq<char>>,
    to: Seq<Seq<char>>,
)
    requires
        !occurs(t, z),
        binders_agree_but(from, to, x, z),
        binder_of(from, x) is Some,
        binder_of(to, z) == binder_of(from, x),
    ensures
        nameless(rename_free(t, x, z), to) == nameless(t, from),
    decreases t, 0nat,
{
    match t {
        Term::App(f, a) => {
            lemma_rename_free(*f, x, z, from, to);
            lemma_rename_free(*a, x, z, from, to);
        },
        Term::Fun(d, c) => {
            lemma_rename_free(*d, x, z, from, to);
            lemma_rename_free(*c, x, z, from, to);
        },
        Term::Lam(w, body) => {
            lemma_rename_free_body(*body, w, x, z, from, to);
        },
        Term::Sub(w, v, body) => {
            lemma_rename_free(*v, x, z, from, to);
            lemma_rename_free_body(*body, w, x, z, from, to);
        },
        Term::U(_) => {},
        Term::Var(_) => {},
    }
}

/// The step of `lemma_rename_free` into the body of a binder named `w`: under
/// a binder of `x` itself the body stays as it is, under another it is renamed.
proof fn lemma_rename_free_body(
    body: Term,
    w: Seq<char>,
    x: Seq<char>,
    z: Seq<char>,
    from: Seq<Seq<char>>,
    to: Seq<Seq<char>>,
)
    requires
        !occurs(body, z),
        w != z,
        binders_agree_but(from, to, x, z),
        binder_of(from, x) is Some,
        binder_of(to, z) == binder_of(from, x),
    ensures
        w == x ==> nameless(body, to.push(w)) == nameless(body, from.push(w)),
        w != x ==> nameless(rename_free(body, x, z), to.push(w)) == nameless(body, from.push(w)),
    decreases body, 1nat,
{
    lemma_binders_agree_push(from, to, x, z, w);
    if w == x {
        assert(binders_agree_but(from.push(w), to.push(w), z, z));
        lemma_nameless_agree(body, from.push(w), to.push(w), z);
    } else {
        lemma_rename_free(body, x, z, from.push(w), to.push(w));
    }
}

/// Renaming the outermost binder of an expression to a name that does not
/// occur in it keeps the nameless form, whatever binders are around it.
proof fn lemma_rename_binder(t: Term, z: Seq<char>, binders: Seq<Seq<char>>)
    requires
        !occurs(t, z),
    ensures
        nameless(rename_binder(t, z), binders) == nameless(t, binders),
{
    match t {
        Term::Lam(x, body) => {
            lemma_rename_binder_body(*body, x, z, binders);
        },
        Term::Sub(x, v, body) => {
            lemma_rename_binder_body(*body, x, z, binders);
        },
        _ => {},
    }
}

/// The body of a binder of `x` that is renamed to `z` keeps its nameless form.
proof fn lemma_rename_binder_body(body: Term, x: Seq<char>, z: Seq<char>, binders: Seq<Seq<char>>)
    requires
        !occurs(body, z),
    ensures
        nameless(rename_free(body, x, z), binders.push(z)) == nameless(body, binders.push(x)),
{
    let from = binders.push(x);
    let to = binders.push(z);
    assert(from.drop_last() =~= binders);
    assert(to.drop_last() =~= binders);
    assert(binders_agree_but(from, to, x, z));
    lemma_rename_free(body, x, z, from, to);
}

/// Renaming one binder, wherever it stands, to a name that does not occur in
/// the expression keeps the nameless form, whatever binders are around it.
proof fn lemma_rename_binder_at(t: Term, path: Seq<bool>, z: Seq<char>, binders: Seq<Seq<char>>)
    requires
        !occurs(t, z),
    ensures
        nameless(rename_binder_at(t, path, z), binders) == nameless(t, binders),
    decreases path.len(),
{
    if path.len() == 0 {
        lemma_rename_binder(t, z, binders);
    } else {
        let rest = path.drop_first();
        match t {
            Term::App(f, a) => {
                lemma_rename_binder_at(*f, rest, z, binders);
                lemma_rename_binder_at(*a, rest, z, binders);
            },
            Term::Fun(d, c) => {
                lemma_rename_binder_at(*d, rest, z, binders);
                lemma_rename_binder_at(*c, rest, z, binders);
            },
            Term::Lam(x, body) => {
                lemma_rename_binder_at(*body, rest, z, binders.push(x));
            },
            Term::Sub(x, v, body) => {
                lemma_rename_binder_at(*v, rest, z, binders);
                lemma_rename_binder_at(*body, rest, z, binders.push(x));
            },
            _ => {},
        }
    }
}

/// Renaming one binder of an expression, and the references that it binds, to
/// a name that occurs nowhere in the expression gives an alpha-equivalent
/// expression.
pub proof fn lemma_rename_one_binder(t: Term, path: Seq<bool>, z: Seq<char>)
    requires
        !occurs(t, z),
    ensures
        alpha_equivalent(rename_binder_at(t, path, z), t),
        alpha_equivalent(t, rename_binder_at(t, path, z)),
{
    lemma_rename_binder_at(t, path, z, Seq::empty());
}

} // verus!
