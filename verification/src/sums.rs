//! Sums of natural numbers over a finite set, and how they change with the set.

use vstd::prelude::*;

verus! {

/// The sum of `f(k)` over every `k` in `dom`. An infinite `dom` sums to zero.
pub open spec fn sum<K>(dom: Set<K>, f: spec_fn(K) -> nat) -> nat
    decreases dom.len(),
{
    if dom.finite() && dom.len() > 0 {
        let k = dom.choose();
        f(k) + sum(dom.remove(k), f)
    } else {
        0
    }
}

/// Any member can be split off the sum.
pub proof fn lemma_sum_split<K>(dom: Set<K>, f: spec_fn(K) -> nat, k: K)
    requires
        dom.finite(),
        dom.contains(k),
    ensures
        sum(dom, f) == f(k) + sum(dom.remove(k), f),
    decreases dom.len(),
{
    let c = dom.choose();
    if c != k {
        lemma_sum_split(dom.remove(c), f, k);
        lemma_sum_split(dom.remove(k), f, c);
        assert(dom.remove(c).remove(k) =~= dom.remove(k).remove(c));
    }
}

/// A new member adds its own value.
pub proof fn lemma_sum_insert<K>(dom: Set<K>, f: spec_fn(K) -> nat, k: K)
    requires
        dom.finite(),
        !dom.contains(k),
    ensures
        sum(dom.insert(k), f) == f(k) + sum(dom, f),
{
    lemma_sum_split(dom.insert(k), f, k);
    assert(dom.insert(k).remove(k) =~= dom);
}

/// Two functions that agree on the set have the same sum.
pub proof fn lemma_sum_congruent<K>(dom: Set<K>, f: spec_fn(K) -> nat, g: spec_fn(K) -> nat)
    requires
        forall|k: K| #[trigger] dom.contains(k) ==> f(k) == g(k),
    ensures
        sum(dom, f) == sum(dom, g),
    decreases dom.len(),
{
    if dom.finite() && dom.len() > 0 {
        let c = dom.choose();
        assert(dom.contains(c));
        lemma_sum_congruent(dom.remove(c), f, g);
    }
}

/// A larger function has a larger sum.
pub proof fn lemma_sum_monotone<K>(dom: Set<K>, f: spec_fn(K) -> nat, g: spec_fn(K) -> nat)
    requires
        forall|k: K| #[trigger] dom.contains(k) ==> f(k) <= g(k),
    ensures
        sum(dom, f) <= sum(dom, g),
    decreases dom.len(),
{
    if dom.finite() && dom.len() > 0 {
        let c = dom.choose();
        assert(dom.contains(c));
        lemma_sum_monotone(dom.remove(c), f, g);
    }
}

/// A larger set has a larger sum.
pub proof fn lemma_sum_subset<K>(small: Set<K>, large: Set<K>, f: spec_fn(K) -> nat)
    requires
        large.finite(),
        small.subset_of(large),
    ensures
        sum(small, f) <= sum(large, f),
    decreases large.len(),
{
    vstd::set_lib::lemma_set_subset_finite(large, small);
    if small.len() > 0 {
        let c = small.choose();
        assert(large.contains(c));
        lemma_sum_split(large, f, c);
        lemma_sum_subset(small.remove(c), large.remove(c), f);
    }
}

/// The sum of a bounded function is bounded by the size of the set.
pub proof fn lemma_sum_bound<K>(dom: Set<K>, f: spec_fn(K) -> nat, bound: nat)
    requires
        dom.finite(),
        forall|k: K| #[trigger] dom.contains(k) ==> f(k) <= bound,
    ensures
        sum(dom, f) <= dom.len() * bound,
    decreases dom.len(),
{
    if dom.len() > 0 {
        let c = dom.choose();
        assert(dom.contains(c));
        lemma_sum_bound(dom.remove(c), f, bound);
        assert(bound + (dom.len() - 1) * bound == dom.len() * bound) by (nonlinear_arith);
    } else {
        assert(dom.len() * bound == 0) by (nonlinear_arith)
            requires
                dom.len() == 0,
        ;
    }
}

/// Members that count for nothing can be left out of a sum.
pub proof fn lemma_sum_ignores_zeros<K>(all: Set<K>, part: Set<K>, f: spec_fn(K) -> nat)
    requires
        all.finite(),
        part.subset_of(all),
        forall|k: K| #[trigger] all.contains(k) && !part.contains(k) ==> f(k) == 0,
    ensures
        sum(all, f) == sum(part, f),
    decreases all.len(),
{
    if all =~= part {
    } else {
        let k = choose|k: K| all.contains(k) && !part.contains(k);
        lemma_sum_split(all, f, k);
        lemma_sum_ignores_zeros(all.remove(k), part, f);
    }
}

/// The sum of two functions added is their sums added.
pub proof fn lemma_sum_of_sums<K>(
    dom: Set<K>,
    f: spec_fn(K) -> nat,
    g: spec_fn(K) -> nat,
    both: spec_fn(K) -> nat,
)
    requires
        forall|k: K| #[trigger] dom.contains(k) ==> both(k) == f(k) + g(k),
    ensures
        sum(dom, both) == sum(dom, f) + sum(dom, g),
    decreases dom.len(),
{
    if dom.finite() && dom.len() > 0 {
        let c = dom.choose();
        assert(dom.contains(c));
        lemma_sum_of_sums(dom.remove(c), f, g, both);
    }
}

} // verus!
