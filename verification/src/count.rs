//! Counting and summing over a range of whole numbers.

use vstd::prelude::*;

verus! {

/// How many of the numbers below `n` have a property.
pub open spec fn how_many(n: nat, p: spec_fn(int) -> bool) -> nat {
    vstd::set_lib::set_int_range(0, n as int).filter(p).len()
}

pub(crate) proof fn lemma_how_many(n: nat, p: spec_fn(int) -> bool)
    requires
        n > 0,
    ensures
        how_many(0, p) == 0,
        how_many(n, p) == how_many((n - 1) as nat, p) + (if p(n - 1) {
            1nat
        } else {
            0nat
        }),
        how_many(n, p) <= n,
    decreases n,
{
    let none = vstd::set_lib::set_int_range(0, 0);
    assert(none.filter(p) =~= Set::<int>::empty());
    let now = vstd::set_lib::set_int_range(0, n as int);
    let before = vstd::set_lib::set_int_range(0, n - 1);
    vstd::set_lib::lemma_int_range(0, n as int);
    vstd::set_lib::lemma_int_range(0, n - 1);
    vstd::set_lib::lemma_len_subset(before.filter(p), before);
    if p(n - 1) {
        assert(now.filter(p) =~= before.filter(p).insert(n - 1));
    } else {
        assert(now.filter(p) =~= before.filter(p));
    }
    if n > 1 {
        lemma_how_many((n - 1) as nat, p);
    }
}

pub(crate) proof fn lemma_how_many_bound(n: nat, p: spec_fn(int) -> bool)
    ensures
        how_many(n, p) <= n,
{
    lemma_how_many(n + 1, p);
    if n > 0 {
        lemma_how_many(n, p);
    }
}

/// Properties that agree below `n` hold as often.
pub(crate) proof fn lemma_same_count(n: nat, p: spec_fn(int) -> bool, q: spec_fn(int) -> bool)
    requires
        forall|i: int| 0 <= i < n ==> #[trigger] p(i) == q(i),
    ensures
        how_many(n, p) == how_many(n, q),
{
    let all = vstd::set_lib::set_int_range(0, n as int);
    assert(all.filter(p) =~= all.filter(q));
}

/// The sum of the first `n` values of a function.
pub open spec fn sum_of(n: nat, f: spec_fn(int) -> int) -> int
    decreases n,
{
    if n == 0 {
        0
    } else {
        sum_of((n - 1) as nat, f) + f(n - 1)
    }
}

} // verus!
