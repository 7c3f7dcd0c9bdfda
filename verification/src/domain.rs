//! The semantic domain: values, stuck computations and environments.

use vstd::prelude::*;
use crate::scope::Scope;
use crate::syntax::{Expr, Identifier, Level, Term};

verus! {

/// The model of a value.
pub enum Sem {
    /// A function type between two evaluated types.
    Fun(Box<Sem>, Box<Sem>),
    /// A closure: parameter, body, and the bindings captured with it.
    Lam(Seq<char>, Term, Map<Seq<char>, Sem>),
    /// A computation stuck on a free name.
    Neutral(Stuck),
    /// A universe.
    U(Level),
}

/// The model of a stuck computation.
pub enum Stuck {
    /// A stuck head applied to an argument.
    App(Box<Stuck>, Box<Sem>),
    /// A free name.
    Var(Seq<char>),
}

/// A computation that cannot proceed until a free name is given a value.
#[derive(Debug)]
pub enum Neutral {
    /// A stuck head applied to an argument.
    App(Box<Neutral>, Box<Value>),
    /// A free name.
    Var(Identifier),
}

/// The result of evaluation. Types are values too.
#[derive(Debug)]
pub enum Value {
    /// A function type between two evaluated types.
    Fun(Box<Value>, Box<Value>),
    /// A closure: parameter, body, and the environment captured with it.
    Lam(Identifier, Box<Expr>, Env),
    /// A computation stuck on a free name.
    Neutral(Neutral),
    /// A universe.
    U(Level),
}

/// Types share the representation of values.
pub type Type = Value;

/// Bindings of names to values, latest last. A later binding of a name
/// shadows the earlier ones.
#[derive(Debug)]
pub struct Env {
    pub entries: Vec<(Identifier, Value)>,
}

/// A typing context binds names to types.
pub type Context = Env;

/// The finite map that a list of bindings stands for.
pub open spec fn bindings_view(s: Seq<(String, Value)>) -> Map<Seq<char>, Sem>
    decreases s,
{
    if s.len() == 0 {
        Map::empty()
    } else {
        bindings_view(s.drop_last()).insert(s.last().0@, s.last().1@)
    }
}

impl View for Env {
    type V = Map<Seq<char>, Sem>;

    open spec fn view(&self) -> Map<Seq<char>, Sem>
        decreases self,
    {
        bindings_view(self.entries@)
    }
}

impl View for Neutral {
    type V = Stuck;

    open spec fn view(&self) -> Stuck
        decreases self,
    {
        match self {
            Neutral::App(n, v) => Stuck::App(Box::new((**n).view()), Box::new((**v).view())),
            Neutral::Var(x) => Stuck::Var(x@),
        }
    }
}

impl View for Value {
    type V = Sem;

    open spec fn view(&self) -> Sem
        decreases self,
    {
        match self {
            Value::Fun(d, c) => Sem::Fun(Box::new((**d).view()), Box::new((**c).view())),
            Value::Lam(x, b, env) => Sem::Lam(x@, (**b).view(), env.view()),
            Value::Neutral(n) => Sem::Neutral(n.view()),
            Value::U(i) => Sem::U(*i),
        }
    }
}

/// Appending a binding to the list inserts it into the map.
pub proof fn lemma_bindings_push(s: Seq<(String, Value)>, k: String, v: Value)
    ensures
        bindings_view(s.push((k, v))) == bindings_view(s).insert(k@, v@),
{
    assert(s.push((k, v)).drop_last() =~= s);
}

/// The position of the last binding under the name `k`.
pub proof fn lemma_last_binding(s: Seq<(String, Value)>, k: Seq<char>) -> (i: int)
    requires
        exists|j: int| 0 <= j < s.len() && s[j].0@ == k,
    ensures
        0 <= i < s.len(),
        s[i].0@ == k,
        forall|j: int| i < j < s.len() ==> s[j].0@ != k,
    decreases s.len(),
{
    let last = s.len() - 1;
    if s[last].0@ == k {
        last
    } else {
        let j = choose|j: int| 0 <= j < s.len() && s[j].0@ == k;
        assert(s.drop_last()[j].0@ == k);
        let i = lemma_last_binding(s.drop_last(), k);
        assert forall|j: int| i < j < s.len() implies s[j].0@ != k by {
            if j < last {
                assert(s.drop_last()[j].0@ != k);
            }
        }
        i
    }
}

/// The binding that a name resolves to is the last one in the list under that name.
pub proof fn lemma_bindings_last(s: Seq<(String, Value)>, i: int, k: Seq<char>)
    requires
        0 <= i < s.len(),
        s[i].0@ == k,
        forall|j: int| i < j < s.len() ==> s[j].0@ != k,
    ensures
        bindings_view(s).dom().contains(k),
        bindings_view(s)[k] == s[i].1@,
    decreases s.len(),
{
    let last = s.len() - 1;
    assert(bindings_view(s) == bindings_view(s.drop_last()).insert(s[last].0@, s[last].1@));
    if i < last {
        assert(s[last].0@ != k);
        assert forall|j: int| i < j < s.drop_last().len() implies s.drop_last()[j].0@ != k by {
            assert(s.drop_last()[j] == s[j]);
        }
        lemma_bindings_last(s.drop_last(), i, k);
    }
}

/// The names that the map binds are those under which the list holds a binding.
pub proof fn lemma_bindings_dom(s: Seq<(String, Value)>, k: Seq<char>)
    ensures
        bindings_view(s).dom().contains(k) <==> exists|i: int| 0 <= i < s.len() && s[i].0@ == k,
    decreases s.len(),
{
    if s.len() > 0 {
        let last = s.len() - 1;
        assert(bindings_view(s) == bindings_view(s.drop_last()).insert(s[last].0@, s[last].1@));
        lemma_bindings_dom(s.drop_last(), k);
        if bindings_view(s).dom().contains(k) {
            if s[last].0@ != k {
                let i = choose|i: int| 0 <= i < s.drop_last().len() && s.drop_last()[i].0@ == k;
                assert(s[i].0@ == k);
            }
        }
        if exists|i: int| 0 <= i < s.len() && s[i].0@ == k {
            let i = choose|i: int| 0 <= i < s.len() && s[i].0@ == k;
            if i < last {
                assert(s.drop_last()[i].0@ == k);
            }
        }
    }
}

impl Env {
    /// The environment without bindings.
    pub fn new() -> (r: Env)
        ensures
            r@ == Map::<Seq<char>, Sem>::empty(),
    {
        Env { entries: Vec::new() }
    }

    /// Binds `name` to `value`, shadowing any earlier binding of `name`.
    pub fn insert(&mut self, name: String, value: Value)
        ensures
            final(self)@ == old(self)@.insert(name@, value@),
    {
        proof {
            lemma_bindings_push(self.entries@, name, value);
        }
        self.entries.push((name, value));
    }

    /// The value bound to `name`, if there is one.
    pub fn get(&self, name: &String) -> (r: Option<&Value>)
        ensures
            match r {
                Some(v) => self@.dom().contains(name@) && v@ == self@[name@],
                None => !self@.dom().contains(name@),
            },
    {
        let mut i: usize = self.entries.len();
        while i > 0
            invariant
                i <= self.entries.len(),
                forall|j: int| i <= j < self.entries.len() ==> self.entries[j].0@ != name@,
            decreases i,
        {
            i -= 1;
            if self.entries[i].0 == *name {
                proof {
                    lemma_bindings_last(self.entries@, i as int, name@);
                }
                return Some(&self.entries[i].1);
            }
        }
        proof {
            lemma_bindings_dom(self.entries@, name@);
        }
        None
    }
}

impl Env {
    /// The names that the environment binds.
    pub fn keys(&self) -> (r: Scope)
        ensures
            r@ == self@.dom(),
    {
        let mut names: Vec<String> = Vec::new();
        let mut i: usize = 0;
        while i < self.entries.len()
            invariant
                i <= self.entries.len(),
                names.len() == i,
                forall|j: int| 0 <= j < i ==> names[j]@ == self.entries[j].0@,
            decreases self.entries.len() - i,
        {
            names.push(self.entries[i].0.clone());
            i += 1;
        }
        let r = Scope { names };
        proof {
            assert forall|x: Seq<char>| r@.contains(x) <==> self@.dom().contains(x) by {
                lemma_bindings_dom(self.entries@, x);
                if r@.contains(x) {
                    let j = choose|j: int| 0 <= j < r.names.len() && r.names[j]@ == x;
                    assert(self.entries[j].0@ == x);
                }
                if self@.dom().contains(x) {
                    let j = choose|j: int| 0 <= j < self.entries.len() && self.entries[j].0@ == x;
                    assert(r.names[j]@ == x);
                }
            }
            assert(r@ =~= self@.dom());
        }
        r
    }
}

impl Clone for Neutral {
    /// A copy of the stuck computation.
    fn clone(&self) -> (r: Neutral)
        ensures
            r@ == self@,
        decreases self,
    {
        match self {
            Neutral::App(n, v) => Neutral::App(Box::new((**n).clone()), Box::new((**v).clone())),
            Neutral::Var(x) => Neutral::Var(x.clone()),
        }
    }
}

impl Clone for Value {
    /// A copy of the value, with a copy of what a closure in it captured.
    fn clone(&self) -> (r: Value)
        ensures
            r@ == self@,
        decreases self,
    {
        match self {
            Value::Fun(d, c) => Value::Fun(Box::new((**d).clone()), Box::new((**c).clone())),
            Value::Lam(x, b, env) => Value::Lam(x.clone(), Box::new((**b).clone()), env.clone()),
            Value::Neutral(n) => Value::Neutral(n.clone()),
            Value::U(i) => Value::U(*i),
        }
    }
}

impl Clone for Env {
    /// A copy of the environment. What is bound in one of the two later on
    /// leaves the other as it was.
    fn clone(&self) -> (r: Env)
        ensures
            r@ == self@,
        decreases self,
    {
        let mut entries: Vec<(String, Value)> = Vec::new();
        let mut i: usize = 0;
        while i < self.entries.len()
            invariant
                i <= self.entries.len(),
                bindings_view(entries@) == bindings_view(self.entries@.take(i as int)),
            decreases self.entries.len() - i,
        {
            let name = self.entries[i].0.clone();
            let value = self.entries[i].1.clone();
            proof {
                lemma_bindings_push(entries@, name, value);
                lemma_bindings_push(
                    self.entries@.take(i as int),
                    self.entries[i as int].0,
                    self.entries[i as int].1,
                );
                assert(self.entries@.take(i as int).push(self.entries[i as int])
                    =~= self.entries@.take(i as int + 1));
            }
            entries.push((name, value));
            i += 1;
        }
        proof {
            assert(self.entries@.take(i as int) =~= self.entries@);
        }
        Env { entries }
    }
}

} // verus!
