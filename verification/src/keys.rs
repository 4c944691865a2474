//! What a node id or a scope name has to be for the maps keyed by it to behave.

use std::collections::btree_map::Iter;
use std::collections::BTreeMap;

use vstd::laws_cmp::obeys_cmp;
use vstd::prelude::*;
use vstd::std_specs::btree::increasing_seq;
use vstd::std_specs::iter::IteratorSpec;

verus! {

/// `T` can serve as a map key: its order is a lawful total order, and a clone of a key is that
/// key. Every integer type qualifies, and so does a reference to one.
pub open spec fn lawful_key<T: Ord + Clone>() -> bool {
    &&& obeys_cmp::<T>()
    &&& forall|a: T, b: T| #[trigger] cloned(a, b) ==> a == b
}

/// A clone of a lawful key is the key itself.
pub(crate) fn copy_key<T: Ord + Clone>(key: &T) -> (copy: T)
    requires
        lawful_key::<T>(),
    ensures
        copy == *key,
{
    let copy = key.clone();
    assert(cloned(*key, copy));
    copy
}

/// The keys of a walk, in walk order.
pub open spec fn keys_of<K, V>(walk: Seq<(&K, &V)>) -> Seq<K> {
    walk.map_values(|e: (&K, &V)| *e.0)
}

/// `walk` visits every entry of `m` exactly once, in key order.
pub open spec fn walks<K, V>(walk: Seq<(&K, &V)>, m: Map<K, V>) -> bool {
    &&& walk.len() == m.dom().len()
    &&& increasing_seq(keys_of(walk))
    &&& keys_of(walk).no_duplicates()
    &&& keys_of(walk).to_set() == m.dom()
    &&& forall|i: int| 0 <= i < walk.len() ==> #[trigger] m.contains_key(keys_of(walk)[i])
    &&& forall|i: int| 0 <= i < walk.len() ==> m[keys_of(walk)[i]] == *(#[trigger] walk[i]).1
}

/// An iterator over the entries of `m`, in key order.
pub(crate) fn entries<'a, K: Ord + Clone, V>(m: &'a BTreeMap<K, V>) -> (iter: Iter<'a, K, V>)
    requires
        lawful_key::<K>(),
    ensures
        walks(iter.remaining(), m@),
        IteratorSpec::decrease(&iter) is Some,
        IteratorSpec::initial_value_relation(&iter, &iter),
{
    let iter = m.iter();
    proof {
        let walk = iter.remaining();
        let ks = keys_of(walk);
        assert forall|i: int| 0 <= i < walk.len() implies m@.contains_key(#[trigger] ks[i]) && m@[ks[i]]
            == *walk[i].1 by {
            assert(m@.contains_key(*walk[i].0));
        }
        assert forall|i: int, j: int| 0 <= i < ks.len() && 0 <= j < ks.len() && i != j implies ks[i]
            != ks[j] by {
            if ks[i] == ks[j] {
                assert(m@[ks[i]] == *walk[i].1);
                assert(m@[ks[j]] == *walk[j].1);
                assert(walk[i] == walk[j]);
            }
        }
        assert forall|k: K| ks.to_set().contains(k) <==> m@.contains_key(k) by {
            if m@.contains_key(k) {
                assert(walk.contains((&k, &m@[k])));
                let i = choose|i: int| 0 <= i < walk.len() && walk[i] == (&k, &m@[k]);
                assert(ks[i] == k);
            }
            if ks.to_set().contains(k) {
                let i = choose|i: int| 0 <= i < ks.len() && ks[i] == k;
                assert(m@.contains_key(ks[i]));
            }
        }
        assert(ks.to_set() =~= m@.dom());
    }
    iter
}

/// One more step of a walk visits one more key, and a key not visited before.
pub proof fn lemma_walk_step<K, V>(walk: Seq<(&K, &V)>, m: Map<K, V>, n: int)
    requires
        walks(walk, m),
        0 <= n < walk.len(),
    ensures
        m.contains_key(*walk[n].0),
        m[*walk[n].0] == *walk[n].1,
        !keys_of(walk).take(n).to_set().contains(*walk[n].0),
        keys_of(walk).take(n).to_set().finite(),
        keys_of(walk).take(n + 1).to_set() == keys_of(walk).take(n).to_set().insert(*walk[n].0),
{
    let ks = keys_of(walk);
    assert(ks[n] == *walk[n].0);
    assert(m.contains_key(ks[n]));
    assert(ks.take(n + 1) =~= ks.take(n).push(ks[n]));
    vstd::seq_lib::seq_to_set_is_finite(ks.take(n));
    assert forall|k: K| ks.take(n + 1).to_set().contains(k) <==> ks.take(n).to_set().insert(
        ks[n],
    ).contains(k) by {
        if ks.take(n).to_set().contains(k) {
            let i = choose|i: int| 0 <= i < n && ks.take(n)[i] == k;
            assert(ks.take(n + 1)[i] == k);
        }
        if ks.take(n + 1).to_set().contains(k) {
            let i = choose|i: int| 0 <= i < n + 1 && #[trigger] ks.take(n + 1)[i] == k;
            if i < n {
                assert(ks.take(n)[i] == k);
            }
        }
        assert(ks.take(n + 1)[n] == ks[n]);
    }
    assert(ks.take(n + 1).to_set() =~= ks.take(n).to_set().insert(ks[n]));
    if ks.take(n).to_set().contains(ks[n]) {
        let i = choose|i: int| 0 <= i < n && ks.take(n)[i] == ks[n];
        assert(ks[i] == ks[n]);
    }
}

/// A walk that is over has visited every key.
pub proof fn lemma_walk_end<K, V>(walk: Seq<(&K, &V)>, m: Map<K, V>)
    requires
        walks(walk, m),
    ensures
        keys_of(walk).take(walk.len() as int).to_set() == m.dom(),
{
    assert(keys_of(walk).take(walk.len() as int) =~= keys_of(walk));
}

} // verus!
