//! Sets of names in scope, and the choice of a name that is not among them.

use vstd::prelude::*;
use vstd::string::StringExecFns;
use crate::least::{larger, least, lemma_least};

verus! {

/// The names that are in scope. Read-back of a value avoids them when it has
/// to name a bound variable.
#[derive(Debug)]
pub struct Scope {
    pub names: Vec<String>,
}

impl View for Scope {
    type V = Set<Seq<char>>;

    open spec fn view(&self) -> Set<Seq<char>> {
        Set::new(|x: Seq<char>| exists|i: int| 0 <= i < self.names.len() && self.names[i]@ == x)
    }
}

/// The set of the names in a list, built name by name.
spec fn listed(names: Seq<String>) -> Set<Seq<char>>
    decreases names.len(),
{
    if names.len() == 0 {
        Set::empty()
    } else {
        listed(names.drop_last()).insert(names.last()@)
    }
}

/// The set of the names in a list is finite and holds what the list holds.
proof fn lemma_listed(names: Seq<String>)
    ensures
        listed(names).finite(),
        forall|x: Seq<char>|
            listed(names).contains(x) <==> exists|i: int| 0 <= i < names.len() && names[i]@ == x,
    decreases names.len(),
{
    if names.len() > 0 {
        let front = names.drop_last();
        lemma_listed(front);
        assert forall|x: Seq<char>| listed(names).contains(x) <==> exists|i: int|
            0 <= i < names.len() && names[i]@ == x by {
            if listed(names).contains(x) && names.last()@ != x {
                let i = choose|i: int| 0 <= i < front.len() && front[i]@ == x;
                assert(names[i]@ == x);
            }
            if exists|i: int| 0 <= i < names.len() && names[i]@ == x {
                let i = choose|i: int| 0 <= i < names.len() && names[i]@ == x;
                if i < front.len() {
                    assert(front[i]@ == x);
                }
            }
        }
    }
}

/// The names in scope are finitely many.
pub proof fn lemma_scope_finite(scope: Scope)
    ensures
        scope@.finite(),
{
    lemma_listed(scope.names@);
    assert(scope@ =~= listed(scope.names@));
}

/// The name `x` followed by `k` apostrophes.
pub open spec fn primed(x: Seq<char>, k: nat) -> Seq<char> {
    x + Seq::new(k, |i: int| '\'')
}

/// `k` is the least number of apostrophes that takes `x` out of `names`.
pub open spec fn is_fresh_index(x: Seq<char>, names: Set<Seq<char>>, k: nat) -> bool {
    &&& !names.contains(primed(x, k))
    &&& forall|j: nat| j < k ==> names.contains(#[trigger] primed(x, j))
}

/// The shortest extension of `x` by apostrophes that is not in `names`.
pub open spec fn fresh_name(x: Seq<char>, names: Set<Seq<char>>) -> Seq<char> {
    primed(x, choose|k: nat| is_fresh_index(x, names, k))
}

/// There is at most one least number of apostrophes, so it names the fresh name.
pub proof fn lemma_fresh_name(x: Seq<char>, names: Set<Seq<char>>, k: nat)
    requires
        is_fresh_index(x, names, k),
    ensures
        fresh_name(x, names) == primed(x, k),
        !names.contains(fresh_name(x, names)),
{
    let chosen = choose|k: nat| is_fresh_index(x, names, k);
    assert(is_fresh_index(x, names, chosen));
    if chosen < k {
        assert(names.contains(primed(x, chosen)));
    }
    if k < chosen {
        assert(names.contains(primed(x, k)));
    }
}

/// A name that is not in scope is its own fresh name.
pub proof fn lemma_fresh_name_unchanged(x: Seq<char>, names: Set<Seq<char>>)
    requires
        !names.contains(x),
    ensures
        fresh_name(x, names) == x,
{
    assert(primed(x, 0) =~= x);
    lemma_fresh_name(x, names, 0);
}

/// A bound on the lengths of the names of a finite set.
proof fn lemma_lengths_bounded(names: Set<Seq<char>>) -> (bound: nat)
    requires
        names.finite(),
    ensures
        forall|z: Seq<char>| names.contains(z) ==> z.len() <= bound,
    decreases names.len(),
{
    if names.len() == 0 {
        0
    } else {
        let z = names.choose();
        let rest = lemma_lengths_bounded(names.remove(z));
        assert forall|w: Seq<char>| names.contains(w) implies w.len() <= larger(rest, z.len()) by {
            if w != z {
                assert(names.remove(z).contains(w));
            }
        }
        larger(rest, z.len())
    }
}

/// The numbers of apostrophes that take `x` out of `names`.
spec fn takes_out(x: Seq<char>, names: Set<Seq<char>>) -> spec_fn(nat) -> bool {
    |k: nat| !names.contains(primed(x, k))
}

/// A finite set of names leaves a fresh name for every name: the fresh name
/// is not in the set.
pub proof fn lemma_fresh_name_exists(x: Seq<char>, names: Set<Seq<char>>)
    requires
        names.finite(),
    ensures
        !names.contains(fresh_name(x, names)),
        exists|k: nat| is_fresh_index(x, names, k) && fresh_name(x, names) == primed(x, k),
{
    let bound = lemma_lengths_bounded(names);
    let beyond = bound + 1;
    assert(primed(x, beyond).len() > bound);
    let p = takes_out(x, names);
    assert(p(beyond));
    lemma_least(p, beyond);
    let k = least(p);
    assert(p(k));
    assert forall|j: nat| j < k implies names.contains(#[trigger] primed(x, j)) by {
        assert(!p(j));
    }
    lemma_fresh_name(x, names, k);
}

/// The length of the longest of the names.
spec fn longest(names: Seq<String>) -> nat
    decreases names.len(),
{
    if names.len() == 0 {
        0
    } else if names.last()@.len() > longest(names.drop_last()) {
        names.last()@.len()
    } else {
        longest(names.drop_last())
    }
}

/// No name is longer than the longest.
proof fn lemma_longest(names: Seq<String>, i: int)
    requires
        0 <= i < names.len(),
    ensures
        names[i]@.len() <= longest(names),
    decreases names.len(),
{
    if i < names.len() - 1 {
        lemma_longest(names.drop_last(), i);
    }
}

impl Scope {
    /// The empty scope.
    pub fn new() -> (r: Scope)
        ensures
            r@ == Set::<Seq<char>>::empty(),
    {
        let r = Scope { names: Vec::new() };
        assert(r@ =~= Set::<Seq<char>>::empty());
        r
    }

    /// Brings `name` into scope.
    pub fn insert(&mut self, name: String)
        ensures
            final(self)@ == old(self)@.insert(name@),
    {
        let ghost before = self.names@;
        self.names.push(name);
        proof {
            assert forall|x: Seq<char>| self@.contains(x) <==> old(self)@.insert(name@).contains(
                x,
            ) by {
                if self@.contains(x) {
                    let i = choose|i: int| 0 <= i < self.names.len() && self.names[i]@ == x;
                    if i < before.len() {
                        assert(before[i]@ == x);
                    }
                }
                if old(self)@.contains(x) {
                    let i = choose|i: int| 0 <= i < before.len() && before[i]@ == x;
                    assert(self.names[i]@ == x);
                }
                if x == name@ {
                    assert(self.names[before.len() as int]@ == x);
                }
            }
            assert(self@ =~= old(self)@.insert(name@));
        }
    }

    /// Whether `name` is in scope.
    pub fn contains(&self, name: &String) -> (r: bool)
        ensures
            r == self@.contains(name@),
    {
        let mut i: usize = 0;
        while i < self.names.len()
            invariant
                i <= self.names.len(),
                forall|j: int| 0 <= j < i ==> self.names[j]@ != name@,
            decreases self.names.len() - i,
        {
            if self.names[i] == *name {
                return true;
            }
            i += 1;
        }
        false
    }
}

impl Clone for Scope {
    /// A copy of the scope.
    fn clone(&self) -> (r: Scope)
        ensures
            r@ == self@,
    {
        let mut names: Vec<String> = Vec::new();
        let mut i: usize = 0;
        while i < self.names.len()
            invariant
                i <= self.names.len(),
                names.len() == i,
                forall|j: int| 0 <= j < i ==> names[j]@ == self.names[j]@,
            decreases self.names.len() - i,
        {
            names.push(self.names[i].clone());
            i += 1;
        }
        let r = Scope { names };
        proof {
            assert forall|x: Seq<char>| r@.contains(x) <==> self@.contains(x) by {
                if r@.contains(x) {
                    let i = choose|i: int| 0 <= i < r.names.len() && r.names[i]@ == x;
                    assert(self.names[i]@ == x);
                }
                if self@.contains(x) {
                    let i = choose|i: int| 0 <= i < self.names.len() && self.names[i]@ == x;
                    assert(r.names[i]@ == x);
                }
            }
            assert(r@ =~= self@);
        }
        r
    }
}

/// Extends `x` by apostrophes until it is not in scope.
///
/// Returns the shortest such extension, which is `x` itself where `x` is not
/// in scope.
pub fn freshen(x: String, xs: &Scope) -> (r: String)
    ensures
        r@ == fresh_name(x@, xs@),
        !xs@.contains(r@),
        exists|k: nat| is_fresh_index(x@, xs@, k) && r@ == primed(x@, k),
{
    let ghost given = x@;
    let ghost mut k: nat = 0;
    let mut x = x;
    proof {
        assert(primed(given, 0) =~= given);
    }
    while xs.contains(&x)
        invariant
            x@ == primed(given, k),
            forall|j: nat| j < k ==> xs@.contains(#[trigger] primed(given, j)),
        decreases longest(xs.names@) + 1 - x@.len(),
    {
        proof {
            let i = choose|i: int| 0 <= i < xs.names.len() && xs.names[i]@ == x@;
            lemma_longest(xs.names@, i);
            reveal_strlit("'");
            assert(primed(given, k) + "'"@ =~= primed(given, k + 1));
        }
        x.append("'");
        proof {
            k = k + 1;
        }
    }
    proof {
        lemma_fresh_name(given, xs@, k);
    }
    x
}

} // verus!
