//! The least natural number with a property, and the larger of two.

use vstd::prelude::*;

verus! {

/// The larger of two numbers.
pub open spec fn larger(a: nat, b: nat) -> nat {
    if a < b {
        b
    } else {
        a
    }
}

/// `n` has the property `p`, and no smaller number has it.
pub open spec fn is_least(p: spec_fn(nat) -> bool, n: nat) -> bool {
    &&& p(n)
    &&& forall|m: nat| m < n ==> !#[trigger] p(m)
}

/// The least number with the property `p`, where some number has it.
pub open spec fn least(p: spec_fn(nat) -> bool) -> nat {
    choose|n: nat| is_least(p, n)
}

/// Where `n` has the property, there is a least number with it, at most `n`.
pub proof fn lemma_least(p: spec_fn(nat) -> bool, n: nat)
    requires
        p(n),
    ensures
        is_least(p, least(p)),
        least(p) <= n,
    decreases n,
{
    if exists|m: nat| m < n && #[trigger] p(m) {
        let m = choose|m: nat| m < n && #[trigger] p(m);
        lemma_least(p, m);
    } else {
        assert(is_least(p, n));
        if least(p) > n {
            assert(!p(n));
        }
    }
}

} // verus!
