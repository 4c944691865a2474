//! A map of named [`BCounter`]s -- one quota per scope, charged as a path.
//!
//! A single write is often subject to **several** limits at once: an object counts against its
//! bucket's capacity, its tenant's, and the cluster's; a request counts against a user's quota
//! and a global one. Those scopes form a path, and a write must be admitted by **every** level
//! or by none -- charging the inner scope but not the outer would leave the outer understated
//! the moment the write is refused higher up.
//!
//! # All-or-none fan-out
//!
//! [`inc`](BCounterMap::inc) takes the whole path -- each scope with its own limit -- and one
//! amount. It checks every scope first and records nothing unless all have room, so a refused
//! write leaves no partial charge behind and the caller gets back the scope that ran out. No
//! rollback: the check precedes the first mutation.
//!
//! # Limits live at the call site, not in the merged state
//!
//! A scope's limit is passed in on every call, applied afresh. The merged state is pure usage
//! -- the per-node slots of each [`BCounter`] -- so reconfiguring a limit takes effect on the
//! next call with no state change to gossip, and two nodes that briefly disagree on a limit
//! still converge on usage. This is why [`available`](BCounterMap::available) takes the limit
//! as an argument rather than reading a stored one.
//!
//! # Sparse
//!
//! A scope appears only once it has usage: an untouched scope reads zero and costs nothing, and
//! a *denied* charge creates no entry.

use std::collections::BTreeMap;

use vstd::prelude::*;
use vstd::std_specs::btree::increasing_seq;
use vstd::std_specs::iter::IteratorSpec;

use crate::counter::{BCounter, CounterView, Denied};
use crate::keys::{self, copy_key, entries};
use crate::slots;

verus! {

/// A map of per-scope capacity counters, keyed by scope identity `K`.
///
/// `K` is whatever names a limited scope -- a bucket id, a tenant id, a `(kind, id)` pair.
/// `Id` is the node identity of the underlying [`BCounter`]s (defaults to `u32`). See the
/// module docs for the fan-out and limit model.
#[derive(Debug, PartialEq, Eq)]
pub struct BCounterMap<K: Ord + Clone, Id: Ord + Clone = u32> {
    /// This node's slot, stamped into every counter it creates.
    me: Id,
    /// One counter per scope that has usage. Sparse.
    counters: BTreeMap<K, BCounter<Id>>,
}

/// What a [`BCounterMap`] is: a node, and one counter for each scope it has seen used.
#[verifier::ext_equal]
#[verifier::reject_recursive_types(K)]
#[verifier::reject_recursive_types(Id)]
pub struct CounterMapView<K, Id> {
    /// The node whose view this is.
    pub me: Id,
    /// The counter of each scope with usage.
    pub counters: Map<K, CounterView<Id>>,
}

impl<K, Id> CounterMapView<K, Id> {
    /// Every counter belongs to this node.
    pub open spec fn well_formed(self) -> bool {
        forall|scope: K| #[trigger]
            self.counters.contains_key(scope) ==> self.counters[scope].me == self.me
    }

    /// Every scope held has usage recorded in it: some node has written or freed there.
    pub open spec fn sparse(self) -> bool {
        forall|scope: K| #[trigger]
            self.counters.contains_key(scope) ==> self.counters[scope].slots != Map::<
                Id,
                slots::SlotState,
            >::empty()
    }

    /// Every counter holds finitely many slots.
    pub open spec fn finite(self) -> bool {
        forall|scope: K| #[trigger]
            self.counters.contains_key(scope) ==> self.counters[scope].slots.dom().finite()
    }

    /// Net usage of `scope` as this node sees it; zero for an untouched scope.
    pub open spec fn used(self, scope: K) -> u64 {
        if self.counters.contains_key(scope) {
            self.counters[scope].used()
        } else {
            0
        }
    }

    /// Room left for `scope` under `limit`.
    pub open spec fn room(self, scope: K, limit: u64) -> u64 {
        if self.used(scope) <= limit {
            (limit - self.used(scope)) as u64
        } else {
            0
        }
    }

    /// A write of `amount` fits under `limit` in `scope`.
    pub open spec fn admits(self, scope: K, limit: u64, amount: u64) -> bool {
        self.used(scope) + amount <= limit
    }

    /// A write of `amount` fits every scope of `path`, each under its own limit.
    pub open spec fn admits_path(self, path: Seq<(K, u64)>, amount: u64) -> bool {
        forall|i: int|
            0 <= i < path.len() ==> self.admits((#[trigger] path[i]).0, path[i].1, amount)
    }

    /// The counter of `scope`, or a fresh one with `limit` where there is none.
    pub open spec fn counter_at(self, scope: K, limit: u64) -> CounterView<Id> {
        if self.counters.contains_key(scope) {
            self.counters[scope]
        } else {
            CounterView::fresh(self.me, limit)
        }
    }

    /// The counter of `scope` with its limit refreshed to `limit`.
    pub open spec fn refreshed(self, scope: K, limit: u64) -> CounterView<Id> {
        CounterView { limit, ..self.counter_at(scope, limit) }
    }

    /// The map after `amount` was offered to `scope` under `limit`.
    pub open spec fn charge(self, scope: K, limit: u64, amount: u64) -> Self {
        CounterMapView {
            counters: self.counters.insert(scope, self.refreshed(scope, limit).offer(amount)),
            ..self
        }
    }

    /// The map after `amount` was offered to each scope of `path` in turn. Offering nothing
    /// changes nothing.
    pub open spec fn charge_path(self, path: Seq<(K, u64)>, amount: u64) -> Self
        decreases path.len(),
    {
        if amount == 0 || path.len() == 0 {
            self
        } else {
            self.charge_path(path.drop_last(), amount).charge(
                path.last().0,
                path.last().1,
                amount,
            )
        }
    }

    /// No slot overflows while `path` is charged.
    pub open spec fn charge_fits(self, path: Seq<(K, u64)>, amount: u64) -> bool {
        forall|i: int|
            0 <= i < path.len() ==> {
                let c = self.charge_path(path.take(i), amount).refreshed(
                    (#[trigger] path[i]).0,
                    path[i].1,
                );
                c.admits(amount) ==> c.own().consumed + amount <= u64::MAX
            }
    }

    /// The map after this node freed `amount` in `scope`.
    pub open spec fn credit(self, scope: K, amount: u64) -> Self {
        CounterMapView {
            counters: self.counters.insert(
                scope,
                self.counter_at(scope, u64::MAX).credit(amount),
            ),
            ..self
        }
    }

    /// The map after this node freed `amount` in each scope of `path` in turn. Freeing nothing
    /// changes nothing.
    pub open spec fn credit_path(self, path: Seq<K>, amount: u64) -> Self
        decreases path.len(),
    {
        if amount == 0 || path.len() == 0 {
            self
        } else {
            self.credit_path(path.drop_last(), amount).credit(path.last(), amount)
        }
    }

    /// The map after it has merged `other`: the usage of each of the other's scopes is joined in.
    /// A limit is not merged: a scope this map did not know is adopted without one.
    pub open spec fn merge(self, other: Self) -> Self {
        CounterMapView {
            me: self.me,
            counters: Map::new(
                |scope: K| self.counters.contains_key(scope) || other.counters.contains_key(scope),
                |scope: K|
                    if other.counters.contains_key(scope) {
                        self.counter_at(scope, u64::MAX).merge(other.counters[scope])
                    } else {
                        self.counters[scope]
                    },
            ),
        }
    }
}

impl<K: Ord + Clone, Id: Ord + Clone> View for BCounterMap<K, Id> {
    type V = CounterMapView<K, Id>;

    closed spec fn view(&self) -> CounterMapView<K, Id> {
        CounterMapView {
            me: self.me,
            counters: self.counters@.map_values(|c: BCounter<Id>| c@),
        }
    }
}

impl<K: Ord + Clone, Id: Ord + Clone> Clone for BCounterMap<K, Id> {
    fn clone(&self) -> (copy: Self)
        ensures
            keys::lawful_key::<Id>() ==> copy@ == self@,
    {
        let me = self.me.clone();
        proof {
            assert(cloned(self.me, me));
        }
        BCounterMap { me, counters: self.counters.clone() }
    }
}

impl<K: Ord + Clone, Id: Ord + Clone> BCounterMap<K, Id> {
    /// A fresh, empty map for the node identified by `me`.
    #[must_use]
    pub fn new(me: Id) -> (map: Self)
        ensures
            map@ == (CounterMapView { me, counters: Map::<K, CounterView<Id>>::empty() }),
            map@.well_formed(),
            map@.sparse(),
    {
        let map = BCounterMap { me, counters: BTreeMap::<K, BCounter<Id>>::new() };
        proof {
            assert(map@.counters =~= Map::<K, CounterView<Id>>::empty());
        }
        map
    }

    /// True until the first scope gains usage.
    #[must_use]
    pub fn is_empty(&self) -> (empty: bool)
        ensures
            empty <==> self@.counters == Map::<K, CounterView<Id>>::empty(),
    {
        let empty = self.counters.is_empty();
        proof {
            if empty {
                assert(self@.counters =~= Map::<K, CounterView<Id>>::empty());
            } else {
                assert(exists|k: K| self.counters@.contains_key(k)) by {
                    if forall|k: K| !self.counters@.contains_key(k) {
                        assert(self.counters@ =~= Map::empty());
                    }
                }
                let k = choose|k: K| self.counters@.contains_key(k);
                assert(self@.counters.contains_key(k));
            }
        }
        empty
    }

    /// Net usage recorded against `scope`, from this node's view. Zero for an untouched scope.
    #[must_use]
    pub fn read(&self, scope: &K) -> (used: u64)
        requires
            keys::lawful_key::<K>(),
            keys::lawful_key::<Id>(),
        ensures
            used == self@.used(*scope),
    {
        match self.counters.get(scope) {
            Some(counter) => counter.read(),
            None => 0,
        }
    }

    /// Room left under `limit` for `scope`, from this node's view. The limit is supplied here,
    /// not stored -- see the module docs.
    #[must_use]
    pub fn available(&self, scope: &K, limit: u64) -> (room: u64)
        requires
            keys::lawful_key::<K>(),
            keys::lawful_key::<Id>(),
        ensures
            room == self@.room(*scope, limit),
            self@.used(*scope) <= limit ==> room + self@.used(*scope) == limit,
            self@.used(*scope) >= limit ==> room == 0,
    {
        limit.saturating_sub(self.read(scope))
    }

    /// Takes the counter of `scope` out of the map, or makes a fresh one under `limit`.
    fn take(&mut self, scope: &K, limit: u64) -> (counter: BCounter<Id>)
        requires
            keys::lawful_key::<K>(),
            keys::lawful_key::<Id>(),
        ensures
            counter@ == old(self)@.counter_at(*scope, limit),
            final(self)@.me == old(self)@.me,
            final(self)@.counters == old(self)@.counters.remove(*scope),
    {
        let taken = self.counters.remove(scope);
        proof {
            assert(self@.counters =~= old(self)@.counters.remove(*scope));
        }
        match taken {
            Some(counter) => counter,
            None => BCounter::new(copy_key(&self.me), limit),
        }
    }

    /// Puts `counter` in the map as the counter of `scope`.
    fn put(&mut self, scope: &K, counter: BCounter<Id>)
        requires
            keys::lawful_key::<K>(),
        ensures
            final(self)@.me == old(self)@.me,
            final(self)@.counters == old(self)@.counters.insert(*scope, counter@),
    {
        self.counters.insert(copy_key(scope), counter);
        proof {
            assert(self@.counters =~= old(self)@.counters.insert(*scope, counter@));
        }
    }

    /// Charge `amount` against every scope on `path`, all-or-none.
    ///
    /// Each entry pairs a scope with its current limit. Every scope is checked before any is
    /// charged, so on refusal nothing is recorded and no entry is created; on success the
    /// amount lands on this node's slot in each scope. A charge of nothing creates no entry. Scopes on a path are expected distinct
    /// (a bucket, its tenant, the root -- never the same scope twice).
    ///
    /// # Errors
    ///
    /// The first scope (in `path` order) that lacks room, with its [`Denied`]. Nothing is
    /// charged in that case.
    pub fn inc(&mut self, path: &[(K, u64)], amount: u64) -> (outcome: Result<(), (K, Denied)>)
        requires
            keys::lawful_key::<K>(),
            keys::lawful_key::<Id>(),
            old(self)@.admits_path(path@, amount) ==> old(self)@.charge_fits(path@, amount),
        ensures
            outcome is Ok <==> old(self)@.admits_path(path@, amount),
            outcome is Ok ==> final(self)@ == old(self)@.charge_path(path@, amount),
            outcome is Err ==> final(self)@ == old(self)@,
            outcome is Err ==> exists|i: int|
                {
                    &&& 0 <= i < path@.len()
                    &&& old(self)@.admits_path(path@.take(i), amount)
                    &&& !old(self)@.admits((#[trigger] path@[i]).0, path@[i].1, amount)
                    &&& outcome == Err::<(), _>(
                        (path@[i].0, Denied { available: old(self)@.room(path@[i].0, path@[i].1) }),
                    )
                },
            outcome is Ok && distinct_scopes(path@) ==> forall|i: int|
                0 <= i < path@.len() ==> final(self)@.used((#[trigger] path@[i]).0) <= path@[i].1,
            old(self)@.well_formed() ==> final(self)@.well_formed(),
            old(self)@.sparse() ==> final(self)@.sparse(),
    {
        // Check every level first; a partial charge is never allowed to exist.
        let mut i: usize = 0;
        while i < path.len()
            invariant
                keys::lawful_key::<K>(),
                keys::lawful_key::<Id>(),
                self@ == old(self)@,
                i <= path@.len(),
                forall|j: int|
                    0 <= j < i ==> self@.admits((#[trigger] path@[j]).0, path@[j].1, amount),
            decreases path.len() - i,
        {
            let scope = &path[i].0;
            let limit: u64 = path[i].1;
            let used: u64 = self.read(scope);
            if (used as u128) + (amount as u128) > (limit as u128) {
                proof {
                    assert(self@.admits_path(path@.take(i as int), amount));
                    assert(!self@.admits(path@[i as int].0, path@[i as int].1, amount));
                }
                return Err(
                    (copy_key(scope), Denied { available: limit.saturating_sub(used) }),
                );
            }
            i += 1;
        }
        if amount == 0 {
            return Ok(());
        }
        proof {
            self.law_slots_are_finite();
            if distinct_scopes(path@) {
                law_a_charge_raises_each_usage(self@, path@, amount);
            }
            if self@.sparse() {
                lemma_charge_is_sparse(self@, path@, amount);
            }
        }
        // All had room: record on each. The limit is refreshed into the counter so its own
        // guard agrees with what was just checked.
        let ghost base = self@;
        let mut i: usize = 0;
        while i < path.len()
            invariant
                keys::lawful_key::<K>(),
                keys::lawful_key::<Id>(),
                i <= path@.len(),
                base.charge_fits(path@, amount),
                self@ == base.charge_path(path@.take(i as int), amount),
                amount > 0,
                base.well_formed() ==> self@.well_formed(),
            decreases path.len() - i,
        {
            let ghost before = self@;
            let scope = &path[i].0;
            let limit: u64 = path[i].1;
            let mut counter = self.take(scope, limit);
            counter.set_limit(limit);
            proof {
                assert(counter@ == before.refreshed(path@[i as int].0, path@[i as int].1));
            }
            let _ = counter.inc(amount);
            self.put(scope, counter);
            proof {
                assert(self@ =~= before.charge(*scope, limit, amount));
                assert(path@.take(i + 1).drop_last() =~= path@.take(i as int));
            }
            i += 1;
        }
        proof {
            assert(path@.take(i as int) =~= path@);
        }
        Ok(())
    }

    /// Free `amount` from every scope on `path`. Always succeeds; a free only lowers usage. Freeing
    /// nothing creates no entry.
    pub fn dec(&mut self, path: &[K], amount: u64)
        requires
            keys::lawful_key::<K>(),
            keys::lawful_key::<Id>(),
        ensures
            final(self)@ == old(self)@.credit_path(path@, amount),
            forall|scope: K| #[trigger] final(self)@.used(scope) <= old(self)@.used(scope),
            old(self)@.well_formed() ==> final(self)@.well_formed(),
            old(self)@.sparse() ==> final(self)@.sparse(),
    {
        if amount == 0 {
            return ;
        }
        proof {
            if self@.sparse() {
                lemma_credit_is_sparse(self@, path@, amount);
            }
        }
        let ghost base = self@;
        let mut i: usize = 0;
        while i < path.len()
            invariant
                keys::lawful_key::<K>(),
                keys::lawful_key::<Id>(),
                i <= path@.len(),
                amount > 0,
                self@ == base.credit_path(path@.take(i as int), amount),
                forall|scope: K| #[trigger] self@.used(scope) <= base.used(scope),
                base.well_formed() ==> self@.well_formed(),
            decreases path.len() - i,
        {
            let ghost before = self@;
            let scope = &path[i];
            let mut counter = self.take(scope, u64::MAX);
            proof {
                assert(counter@ == before.counter_at(path@[i as int], u64::MAX));
            }
            counter.dec(amount);
            self.put(scope, counter);
            proof {
                assert(self@ =~= before.credit(*scope, amount));
                assert(path@.take(i + 1).drop_last() =~= path@.take(i as int));
                assert forall|s: K| #[trigger] self@.used(s) <= base.used(s) by {
                    assert(before.used(s) <= base.used(s));
                    if s != *scope {
                        assert(self@.used(s) == before.used(s));
                    }
                }
            }
            i += 1;
        }
        proof {
            assert(path@.take(i as int) =~= path@);
        }
    }

    /// Every scope with usage, and its net usage, in scope order. For metrics and inspection.
    #[must_use]
    pub fn iter(&self) -> (items: Vec<(&K, u64)>)
        requires
            keys::lawful_key::<K>(),
            keys::lawful_key::<Id>(),
        ensures
            items@.map_values(|e: (&K, u64)| *e.0).to_set() == self@.counters.dom(),
            items@.map_values(|e: (&K, u64)| *e.0).no_duplicates(),
            increasing_seq(items@.map_values(|e: (&K, u64)| *e.0)),
            forall|i: int|
                0 <= i < items@.len() ==> (#[trigger] items@[i]).1 == self@.used(*items@[i].0),
    {
        let mut items: Vec<(&K, u64)> = Vec::new();
        let iter = entries(&self.counters);
        let ghost walk = iter.remaining();
        for e in it: iter
            invariant
                it.seq() == walk,
                keys::lawful_key::<Id>(),
                keys::walks(walk, self.counters@),
                items@.len() == it.index(),
                forall|i: int| 0 <= i < items@.len() ==> (#[trigger] items@[i]).0 == walk[i].0,
                forall|i: int|
                    0 <= i < items@.len() ==> (#[trigger] items@[i]).1 == self@.used(*items@[i].0),
        {
            proof {
                keys::lemma_walk_step(walk, self.counters@, it.index());
            }
            items.push((e.0, e.1.read()));
        }
        proof {
            assert(items@.map_values(|e: (&K, u64)| *e.0) =~= keys::keys_of(walk));
            assert(self@.counters.dom() =~= self.counters@.dom());
        }
        items
    }

    /// Fold another replica's map in: merge each scope's counter, scope by scope. The join that
    /// makes the map a CRDT -- idempotent, commutative, associative, so replicas converge under
    /// gossip in any order. A scope only this replica knows is kept; one only the other knows
    /// is adopted. Limits are not merged.
    pub fn merge(&mut self, other: &Self)
        requires
            keys::lawful_key::<K>(),
            keys::lawful_key::<Id>(),
        ensures
            final(self)@ == old(self)@.merge(other@),
            old(self)@.well_formed() ==> final(self)@.well_formed(),
            old(self)@.sparse() && other@.sparse() ==> final(self)@.sparse(),
    {
        let iter = entries(&other.counters);
        let ghost walk = iter.remaining();
        let ghost base = self@;
        let ghost m = other.counters@;
        proof {
            assert(base.merge(
                CounterMapView {
                    me: other@.me,
                    counters: other@.counters.restrict(keys::keys_of(walk).take(0).to_set()),
                },
            ) =~= base);
        }
        for e in it: iter
            invariant
                it.seq() == walk,
                keys::lawful_key::<K>(),
                keys::lawful_key::<Id>(),
                keys::walks(walk, m),
                m == other.counters@,
                self@ == base.merge(
                    CounterMapView {
                        me: other@.me,
                        counters: other@.counters.restrict(
                            keys::keys_of(walk).take(it.index()).to_set(),
                        ),
                    },
                ),
        {
            let ghost before = self@;
            let ghost seen = keys::keys_of(walk).take(it.index()).to_set();
            proof {
                keys::lemma_walk_step(walk, m, it.index());
                assert(other@.counters[*e.0] == e.1@);
            }
            let mut counter = self.take(e.0, u64::MAX);
            counter.merge(e.1);
            self.put(e.0, counter);
            proof {
                assert(self@ =~= base.merge(
                    CounterMapView {
                        me: other@.me,
                        counters: other@.counters.restrict(seen.insert(*e.0)),
                    },
                ));
            }
        }
        proof {
            keys::lemma_walk_end(walk, m);
            assert(other@.counters.restrict(m.dom()) =~= other@.counters);
            if base.sparse() && other@.sparse() {
                lemma_merge_is_sparse(base, other@);
            }
        }
    }
}

impl<K: Ord + Clone, Id: Ord + Clone> BCounterMap<K, Id> {
    /// A map's counters hold finitely many slots.
    pub proof fn law_slots_are_finite(&self)
        ensures
            self@.finite(),
    {
        assert forall|scope: K| #[trigger] self@.counters.contains_key(scope) implies self@.counters[scope].slots.dom().finite() by {
            self.counters@[scope].law_slots_are_finite();
        }
    }
}

/// An admitted charge makes no scope without usage.
proof fn lemma_charge_is_sparse<K, Id>(
    m: CounterMapView<K, Id>,
    path: Seq<(K, u64)>,
    amount: u64,
)
    requires
        m.sparse(),
        m.admits_path(path, amount),
    ensures
        m.charge_path(path, amount).sparse(),
        m.charge_path(path, amount).me == m.me,
        forall|scope: K| #[trigger]
            m.counters.contains_key(scope) ==> m.charge_path(path, amount).counters.contains_key(
                scope,
            ),
    decreases path.len(),
{
    if amount > 0 && path.len() > 0 {
        let front = path.drop_last();
        let (last, limit) = path.last();
        assert forall|i: int| 0 <= i < front.len() implies m.admits(
            (#[trigger] front[i]).0,
            front[i].1,
            amount,
        ) by {
            assert(path[i] == front[i]);
        }
        lemma_charge_is_sparse(m, front, amount);
        let mid = m.charge_path(front, amount);
        let next = mid.refreshed(last, limit).offer(amount);
        assert(m.admits(path[path.len() - 1].0, path[path.len() - 1].1, amount));
        assert(next.slots != Map::<Id, slots::SlotState>::empty()) by {
            if !mid.counters.contains_key(last) {
                lemma_fresh_reads_zero(mid.me, limit);
                assert(next.slots.contains_key(mid.me));
            } else if mid.refreshed(last, limit).admits(amount) {
                assert(next.slots.contains_key(mid.counters[last].me));
            }
        }
        assert(m.charge_path(path, amount) == mid.charge(last, limit, amount));
    }
}

/// A free makes no scope without usage.
proof fn lemma_credit_is_sparse<K, Id>(m: CounterMapView<K, Id>, path: Seq<K>, amount: u64)
    requires
        m.sparse(),
    ensures
        m.credit_path(path, amount).sparse(),
    decreases path.len(),
{
    if amount > 0 && path.len() > 0 {
        lemma_credit_is_sparse(m, path.drop_last(), amount);
        let mid = m.credit_path(path.drop_last(), amount);
        let c = mid.counter_at(path.last(), u64::MAX);
        assert(c.credit(amount).slots.contains_key(c.me));
        assert(m.credit_path(path, amount) == mid.credit(path.last(), amount));
    }
}

/// Merging maps without idle scopes makes none.
proof fn lemma_merge_is_sparse<K, Id>(a: CounterMapView<K, Id>, b: CounterMapView<K, Id>)
    requires
        a.sparse(),
        b.sparse(),
    ensures
        a.merge(b).sparse(),
{
    let none = Map::<Id, slots::SlotState>::empty();
    assert forall|scope: K| #[trigger] a.merge(b).counters.contains_key(scope) implies a.merge(
        b,
    ).counters[scope].slots != none by {
        let part = if b.counters.contains_key(scope) {
            b.counters[scope].slots
        } else {
            a.counters[scope].slots
        };
        assert(exists|id: Id| part.contains_key(id)) by {
            if forall|id: Id| !part.contains_key(id) {
                assert(part =~= none);
            }
        }
        let id = choose|id: Id| part.contains_key(id);
        assert(a.merge(b).counters[scope].slots.contains_key(id));
    }
}

/// The scopes of a path, all different.
pub open spec fn distinct_scopes<K>(path: Seq<(K, u64)>) -> bool {
    path.map_values(|e: (K, u64)| e.0).no_duplicates()
}

/// The scope is on the path.
pub open spec fn on_path<K>(path: Seq<(K, u64)>, scope: K) -> bool {
    exists|i: int| 0 <= i < path.len() && (#[trigger] path[i]).0 == scope
}

/// An admitted charge lands on every level and nowhere else. On a path of distinct scopes each
/// scope's counter is charged exactly once, by exactly the amount, on this node's own slot and
/// under the limit the call gave; every other scope is as it was. (A charge of nothing is left out:
/// it lands nowhere.)
pub proof fn law_a_charge_lands_on_every_level<K, Id>(
    m: CounterMapView<K, Id>,
    path: Seq<(K, u64)>,
    amount: u64,
)
    requires
        distinct_scopes(path),
        m.admits_path(path, amount),
        amount > 0,
    ensures
        forall|i: int|
            0 <= i < path.len() ==> {
                let (scope, limit) = #[trigger] path[i];
                let after = m.charge_path(path, amount).counters;
                after.contains_key(scope) && after[scope] == m.refreshed(scope, limit).charge(
                    amount,
                )
            },
        forall|scope: K|
            #![trigger m.charge_path(path, amount).counters.contains_key(scope)]
            !on_path(path, scope) ==> {
                let after = m.charge_path(path, amount).counters;
                &&& after.contains_key(scope) <==> m.counters.contains_key(scope)
                &&& after.contains_key(scope) ==> after[scope] == m.counters[scope]
            },
        m.charge_path(path, amount).me == m.me,
    decreases path.len(),
{
    if path.len() > 0 {
        let front = path.drop_last();
        let (last, limit) = path.last();
        let names = path.map_values(|e: (K, u64)| e.0);
        assert(front.map_values(|e: (K, u64)| e.0) =~= names.drop_last());
        assert forall|i: int| 0 <= i < front.len() implies m.admits(
            (#[trigger] front[i]).0,
            front[i].1,
            amount,
        ) by {
            assert(path[i] == front[i]);
        }
        law_a_charge_lands_on_every_level(m, front, amount);
        let mid = m.charge_path(front, amount);
        let after = m.charge_path(path, amount);
        assert(!on_path(front, last)) by {
            if on_path(front, last) {
                let i = choose|i: int| 0 <= i < front.len() && (#[trigger] front[i]).0 == last;
                assert(names[i] == names[path.len() - 1]);
            }
        }
        assert(mid.counters.contains_key(last) <==> m.counters.contains_key(last));
        assert(mid.refreshed(last, limit) == m.refreshed(last, limit));
        assert(m.admits(path[path.len() - 1].0, path[path.len() - 1].1, amount));
        assert(m.refreshed(last, limit).used() == m.used(last)) by {
            if !m.counters.contains_key(last) {
                lemma_fresh_reads_zero(m.me, limit);
            }
        }
        assert forall|i: int| 0 <= i < path.len() implies {
            let (scope, lim) = #[trigger] path[i];
            after.counters.contains_key(scope) && after.counters[scope] == m.refreshed(
                scope,
                lim,
            ).charge(amount)
        } by {
            if i < front.len() {
                assert(front[i] == path[i]);
                assert(names[i] != names[path.len() - 1]);
            }
        }
        assert forall|scope: K| !on_path(path, scope) implies {
            &&& #[trigger] after.counters.contains_key(scope) <==> m.counters.contains_key(scope)
            &&& after.counters.contains_key(scope) ==> after.counters[scope] == m.counters[scope]
        } by {
            assert(path[path.len() - 1].0 == last);
            assert(scope != last);
            if on_path(front, scope) {
                let i = choose|i: int| 0 <= i < front.len() && (#[trigger] front[i]).0 == scope;
                assert(path[i].0 == scope);
            }
            assert(mid.counters.contains_key(scope) <==> m.counters.contains_key(scope));
        }
    }
}

/// An admitted charge raises the usage of every scope on a path of distinct scopes by its amount,
/// where the view has seen no more frees than writes there; within its limit the usage stays in any
/// case. Every other scope reads what it read.
pub proof fn law_a_charge_raises_each_usage<K, Id>(
    m: CounterMapView<K, Id>,
    path: Seq<(K, u64)>,
    amount: u64,
)
    requires
        m.finite(),
        distinct_scopes(path),
        m.admits_path(path, amount),
        m.charge_fits(path, amount),
    ensures
        forall|i: int|
            0 <= i < path.len() ==> m.charge_path(path, amount).used((#[trigger] path[i]).0)
                <= path[i].1,
        forall|i: int|
            0 <= i < path.len() && slots::credited(m.usage_at((#[trigger] path[i]).0))
                <= slots::charged(m.usage_at(path[i].0)) ==> m.charge_path(path, amount).used(
                path[i].0,
            ) == m.used(path[i].0) + amount,
        forall|scope: K|
            !on_path(path, scope) ==> #[trigger] m.charge_path(path, amount).used(scope)
                == m.used(scope),
{
    if amount == 0 {
        assert forall|i: int| 0 <= i < path.len() implies m.used((#[trigger] path[i]).0)
            <= path[i].1 by {
            assert(m.admits(path[i].0, path[i].1, amount));
        }
        return;
    }
    let after = m.charge_path(path, amount);
    law_a_charge_lands_on_every_level(m, path, amount);
    assert forall|i: int| 0 <= i < path.len() implies after.used((#[trigger] path[i]).0)
        <= path[i].1 && (slots::credited(m.usage_at(path[i].0)) <= slots::charged(
        m.usage_at(path[i].0),
    ) ==> after.used(path[i].0) == m.used(path[i].0) + amount) by {
        let (scope, limit) = path[i];
        let c = m.refreshed(scope, limit);
        lemma_prefix_leaves_the_next(m, path, amount, i);
        assert(m.admits(path[i].0, path[i].1, amount));
        assert(c.slots =~= m.usage_at(scope));
        assert(c.slots.dom().finite());
        assert(c.used() == m.used(scope)) by {
            if !m.counters.contains_key(scope) {
                lemma_fresh_reads_zero(m.me, limit);
            }
        }
        slots::lemma_totals_after_put(
            c.slots,
            c.me,
            slots::charge(c.slots, c.me, amount)[c.me],
        );
    }
    assert forall|scope: K| !on_path(path, scope) implies #[trigger] after.used(scope) == m.used(
        scope,
    ) by {
        assert(after.counters.contains_key(scope) <==> m.counters.contains_key(scope));
    }
}

/// While a path of distinct scopes is charged, a scope is as it was until its turn comes.
proof fn lemma_prefix_leaves_the_next<K, Id>(
    m: CounterMapView<K, Id>,
    path: Seq<(K, u64)>,
    amount: u64,
    i: int,
)
    requires
        distinct_scopes(path),
        m.admits_path(path, amount),
        m.charge_fits(path, amount),
        amount > 0,
        0 <= i < path.len(),
    ensures
        m.refreshed(path[i].0, path[i].1).admits(amount) ==> m.refreshed(
            path[i].0,
            path[i].1,
        ).own().consumed + amount <= u64::MAX,
{
    let front = path.take(i);
    let names = path.map_values(|e: (K, u64)| e.0);
    assert(front.map_values(|e: (K, u64)| e.0) =~= names.take(i));
    assert forall|k: int| 0 <= k < front.len() implies m.admits(
        (#[trigger] front[k]).0,
        front[k].1,
        amount,
    ) by {
        assert(path[k] == front[k]);
    }
    law_a_charge_lands_on_every_level(m, front, amount);
    let mid = m.charge_path(front, amount);
    let scope = path[i].0;
    assert(!on_path(front, scope)) by {
        if on_path(front, scope) {
            let k = choose|k: int| 0 <= k < front.len() && (#[trigger] front[k]).0 == scope;
            assert(names[k] == names[i]);
        }
    }
    assert(mid.counters.contains_key(scope) <==> m.counters.contains_key(scope));
    assert(mid.refreshed(scope, path[i].1) == m.refreshed(scope, path[i].1));
}

/// A free lands on every level and nowhere else: on a path of distinct scopes each scope's counter
/// is credited exactly once, on this node's own slot, and every other scope is as it was. (A free
/// of nothing is left out: it lands nowhere.)
pub proof fn law_a_free_lands_on_every_level<K, Id>(
    m: CounterMapView<K, Id>,
    path: Seq<K>,
    amount: u64,
)
    requires
        path.no_duplicates(),
        amount > 0,
    ensures
        forall|i: int|
            0 <= i < path.len() ==> m.credit_path(path, amount).counters.contains_key(
                #[trigger] path[i],
            ) && m.credit_path(path, amount).counters[path[i]] == m.counter_at(
                path[i],
                u64::MAX,
            ).credit(amount),
        forall|scope: K|
            #![trigger m.credit_path(path, amount).counters.contains_key(scope)]
            !path.contains(scope) ==> {
                let after = m.credit_path(path, amount).counters;
                &&& after.contains_key(scope) <==> m.counters.contains_key(scope)
                &&& after.contains_key(scope) ==> after[scope] == m.counters[scope]
            },
        m.credit_path(path, amount).me == m.me,
    decreases path.len(),
{
    if path.len() > 0 {
        let front = path.drop_last();
        let last = path.last();
        law_a_free_lands_on_every_level(m, front, amount);
        let mid = m.credit_path(front, amount);
        let after = m.credit_path(path, amount);
        assert(path[path.len() - 1] == last);
        assert(!front.contains(last));
        assert(mid.counters.contains_key(last) <==> m.counters.contains_key(last));
        assert(mid.counter_at(last, u64::MAX) == m.counter_at(last, u64::MAX));
        assert forall|i: int| 0 <= i < path.len() implies after.counters.contains_key(
            #[trigger] path[i],
        ) && after.counters[path[i]] == m.counter_at(path[i], u64::MAX).credit(amount) by {
            if i < front.len() {
                assert(front[i] == path[i]);
            }
        }
        assert forall|scope: K| !path.contains(scope) implies {
            &&& #[trigger] after.counters.contains_key(scope) <==> m.counters.contains_key(scope)
            &&& after.counters.contains_key(scope) ==> after.counters[scope] == m.counters[scope]
        } by {
            assert(path.contains(path[path.len() - 1]));
            if front.contains(scope) {
                let k = front.index_of(scope);
                assert(path[k] == scope);
            }
            assert(mid.counters.contains_key(scope) <==> m.counters.contains_key(scope));
        }
    }
}

/// A free lowers the usage of every scope on a path of distinct scopes by its amount, down to zero,
/// where the view has seen no more frees than writes there and the figures can be told apart from
/// the largest there is. Every other scope reads what it read.
pub proof fn law_a_free_lowers_each_usage<K, Id>(
    m: CounterMapView<K, Id>,
    path: Seq<K>,
    amount: u64,
)
    requires
        m.finite(),
        path.no_duplicates(),
    ensures
        forall|i: int|
            0 <= i < path.len() && m.counter_at(#[trigger] path[i], u64::MAX).own().freed + amount
                <= u64::MAX && slots::credited(m.usage_at(path[i])) <= slots::charged(
                m.usage_at(path[i]),
            ) && slots::net(m.usage_at(path[i])) <= u64::MAX ==> m.credit_path(path, amount).used(
                path[i],
            ) == if m.used(path[i]) >= amount {
                m.used(path[i]) - amount
            } else {
                0
            },
        forall|scope: K|
            !path.contains(scope) ==> #[trigger] m.credit_path(path, amount).used(scope)
                == m.used(scope),
{
    if amount == 0 {
        return;
    }
    let after = m.credit_path(path, amount);
    law_a_free_lands_on_every_level(m, path, amount);
    assert forall|i: int|
        0 <= i < path.len() && m.counter_at(#[trigger] path[i], u64::MAX).own().freed + amount
            <= u64::MAX && slots::credited(m.usage_at(path[i])) <= slots::charged(
            m.usage_at(path[i]),
        ) && slots::net(m.usage_at(path[i])) <= u64::MAX implies after.used(path[i]) == if m.used(
        path[i],
    ) >= amount {
        m.used(path[i]) - amount
    } else {
        0
    } by {
        let c = m.counter_at(path[i], u64::MAX);
        assert(c.slots =~= m.usage_at(path[i]));
        assert(c.slots.dom().finite());
        assert(c.used() == m.used(path[i])) by {
            if !m.counters.contains_key(path[i]) {
                lemma_fresh_reads_zero(m.me, u64::MAX);
            }
        }
        slots::lemma_totals_after_put(
            c.slots,
            c.me,
            slots::credit(c.slots, c.me, amount)[c.me],
        );
    }
    assert forall|scope: K| !path.contains(scope) implies #[trigger] after.used(scope) == m.used(
        scope,
    ) by {
        assert(after.counters.contains_key(scope) <==> m.counters.contains_key(scope));
    }
}

/// A fresh counter reads zero.
proof fn lemma_fresh_reads_zero<Id>(me: Id, limit: u64)
    ensures
        CounterView::fresh(me, limit).used() == 0,
{
    assert(CounterView::<Id>::fresh(me, limit).slots.dom() =~= Set::<Id>::empty());
}

impl<K, Id> CounterMapView<K, Id> {
    /// The usage recorded in `scope`.
    pub open spec fn usage_at(self, scope: K) -> Map<Id, slots::SlotState> {
        if self.counters.contains_key(scope) {
            self.counters[scope].slots
        } else {
            Map::empty()
        }
    }

    /// The map after it has merged every one of `parts`, first to last.
    pub open spec fn merge_all(self, parts: Seq<Self>) -> Self
        decreases parts.len(),
    {
        if parts.len() == 0 {
            self
        } else {
            self.merge_all(parts.drop_last()).merge(parts.last())
        }
    }
}

/// Merging two maps joins the usage of each scope.
proof fn lemma_merge_joins_usage<K, Id>(a: CounterMapView<K, Id>, b: CounterMapView<K, Id>)
    ensures
        forall|scope: K| #[trigger]
            a.merge(b).usage_at(scope) == slots::join(a.usage_at(scope), b.usage_at(scope)),
        a.merge(b).counters.dom() == a.counters.dom().union(b.counters.dom()),
{
    assert forall|scope: K| #[trigger]
        a.merge(b).usage_at(scope) == slots::join(a.usage_at(scope), b.usage_at(scope)) by {
        assert(a.merge(b).usage_at(scope) =~= slots::join(a.usage_at(scope), b.usage_at(scope)));
    }
    assert(a.merge(b).counters.dom() =~= a.counters.dom().union(b.counters.dom()));
}

/// The limit a scope is held under after a merge: the one it was held under before, and none where
/// it was not held.
proof fn lemma_merge_keeps_limits<K, Id>(a: CounterMapView<K, Id>, b: CounterMapView<K, Id>)
    ensures
        forall|scope: K| #[trigger]
            a.merge(b).counters.contains_key(scope) ==> a.merge(b).counters[scope].limit
                == a.counter_at(scope, u64::MAX).limit && a.merge(b).counters[scope].me
                == a.counter_at(scope, u64::MAX).me,
{
}

/// Two maps that merged into the same base, and hold the same scopes with the same usage in each,
/// are the same.
proof fn lemma_same_map<K, Id>(
    base: CounterMapView<K, Id>,
    a: CounterMapView<K, Id>,
    b: CounterMapView<K, Id>,
)
    requires
        a.me == b.me,
        a.counters.dom() == b.counters.dom(),
        forall|scope: K| #[trigger] a.usage_at(scope) == b.usage_at(scope),
        forall|scope: K| #[trigger]
            a.counters.contains_key(scope) ==> a.counters[scope].limit == base.counter_at(
                scope,
                u64::MAX,
            ).limit && a.counters[scope].me == base.counter_at(scope, u64::MAX).me,
        forall|scope: K| #[trigger]
            b.counters.contains_key(scope) ==> b.counters[scope].limit == base.counter_at(
                scope,
                u64::MAX,
            ).limit && b.counters[scope].me == base.counter_at(scope, u64::MAX).me,
    ensures
        a == b,
{
    assert forall|scope: K| #[trigger] a.counters.contains_key(scope) implies a.counters[scope]
        == b.counters[scope] by {
        assert(b.counters.dom().contains(scope));
        assert(a.usage_at(scope) == b.usage_at(scope));
    }
    assert(a.counters =~= b.counters);
}

/// Merging a map into itself changes nothing, and neither does a merge repeated.
pub proof fn law_map_merge_is_idempotent<K, Id>(
    a: CounterMapView<K, Id>,
    b: CounterMapView<K, Id>,
)
    ensures
        a.merge(a) == a,
        a.merge(b).merge(b) == a.merge(b),
{
    assert forall|scope: K| #[trigger] a.counters.contains_key(scope) implies a.merge(
        a,
    ).counters[scope] == a.counters[scope] by {
        slots::law_join_is_idempotent(a.counters[scope].slots);
    }
    assert(a.merge(a) =~= a);
    let ab = a.merge(b);
    assert forall|scope: K| #[trigger] ab.counters.contains_key(scope) implies ab.merge(
        b,
    ).counters[scope] == ab.counters[scope] by {
        if b.counters.contains_key(scope) {
            slots::law_redelivery_changes_nothing(
                a.counter_at(scope, u64::MAX).slots,
                b.counters[scope].slots,
            );
        }
    }
    assert(ab.merge(b) =~= ab);
}

/// Two maps may be merged into a third in either order: the same map comes out, whatever limits
/// they were charged under.
pub proof fn law_map_merge_is_commutative<K, Id>(
    base: CounterMapView<K, Id>,
    a: CounterMapView<K, Id>,
    b: CounterMapView<K, Id>,
)
    ensures
        base.merge(a).merge(b) == base.merge(b).merge(a),
{
    let ab = seq![a, b];
    let ba = seq![b, a];
    assert(ab.to_set() =~= ba.to_set()) by {
        assert(ab[0] == a && ab[1] == b && ba[0] == b && ba[1] == a);
    }
    law_map_all_merge_orders_converge(base, ab, ba);
    assert(ab.drop_last() =~= seq![a]);
    assert(ba.drop_last() =~= seq![b]);
    assert(seq![a].drop_last() =~= Seq::empty());
    assert(seq![b].drop_last() =~= Seq::empty());
    reveal_with_fuel(CounterMapView::merge_all, 3);
}

/// A map may be merged directly, or by way of a replica that merged it first: the same map
/// comes out.
pub proof fn law_map_merge_is_associative<K, Id>(
    a: CounterMapView<K, Id>,
    b: CounterMapView<K, Id>,
    c: CounterMapView<K, Id>,
)
    ensures
        a.merge(b).merge(c) == a.merge(b.merge(c)),
{
    let left = a.merge(b).merge(c);
    let right = a.merge(b.merge(c));
    assert forall|scope: K| #[trigger] left.counters.contains_key(scope) implies left.counters[scope]
        == right.counters[scope] by {
        slots::law_join_is_associative(
            a.usage_at(scope),
            b.usage_at(scope),
            c.usage_at(scope),
        );
        assert(slots::join(a.usage_at(scope), Map::empty()) =~= a.usage_at(scope));
        assert(slots::join(b.usage_at(scope), Map::empty()) =~= b.usage_at(scope));
        assert(slots::join(Map::empty(), c.usage_at(scope)) =~= c.usage_at(scope));
    }
    assert(left =~= right);
}

/// The usage of a scope after many merges is the join of its usage in each of them.
proof fn lemma_merge_all_joins_usage<K, Id>(
    base: CounterMapView<K, Id>,
    parts: Seq<CounterMapView<K, Id>>,
    scope: K,
)
    ensures
        base.merge_all(parts).usage_at(scope) == slots::join_all(
            base.usage_at(scope),
            parts.map_values(|p: CounterMapView<K, Id>| p.usage_at(scope)),
        ),
        base.merge_all(parts).counters.contains_key(scope) <==> (base.counters.contains_key(scope)
            || exists|i: int|
            0 <= i < parts.len() && (#[trigger] parts[i]).counters.contains_key(scope)),
        base.merge_all(parts).counters.contains_key(scope) ==> base.merge_all(
            parts,
        ).counters[scope].limit == base.counter_at(scope, u64::MAX).limit && base.merge_all(
            parts,
        ).counters[scope].me == base.counter_at(scope, u64::MAX).me,
    decreases parts.len(),
{
    let at = |p: CounterMapView<K, Id>| p.usage_at(scope);
    if parts.len() > 0 {
        let front = parts.drop_last();
        lemma_merge_all_joins_usage(base, front, scope);
        lemma_merge_joins_usage(base.merge_all(front), parts.last());
        lemma_merge_keeps_limits(base.merge_all(front), parts.last());
        lemma_merge_all_me(base, front);
        assert(parts.map_values(at).drop_last() =~= front.map_values(at));
        assert(base.merge_all(parts).usage_at(scope) == slots::join(
            base.merge_all(front).usage_at(scope),
            parts.last().usage_at(scope),
        ));
        if base.merge_all(parts).counters.contains_key(scope) && !base.counters.contains_key(
            scope,
        ) {
            if base.merge_all(front).counters.contains_key(scope) {
                let i = choose|i: int|
                    0 <= i < front.len() && (#[trigger] front[i]).counters.contains_key(scope);
                assert(parts[i].counters.contains_key(scope));
            } else {
                assert(parts[parts.len() - 1].counters.contains_key(scope));
            }
        }
        if exists|i: int|
            0 <= i < parts.len() && (#[trigger] parts[i]).counters.contains_key(scope) {
            let i = choose|i: int|
                0 <= i < parts.len() && (#[trigger] parts[i]).counters.contains_key(scope);
            if i < front.len() {
                assert(front[i].counters.contains_key(scope));
            }
        }
    }
}

/// Replicas that started from the same map and have merged the same set of maps are the same, in
/// whatever order and however often each map was delivered.
pub proof fn law_map_all_merge_orders_converge<K, Id>(
    base: CounterMapView<K, Id>,
    parts: Seq<CounterMapView<K, Id>>,
    others: Seq<CounterMapView<K, Id>>,
)
    requires
        parts.to_set() == others.to_set(),
    ensures
        base.merge_all(parts) == base.merge_all(others),
{
    let left = base.merge_all(parts);
    let right = base.merge_all(others);
    assert forall|scope: K| #[trigger] left.usage_at(scope) == right.usage_at(scope) by {
        let at = |p: CounterMapView<K, Id>| p.usage_at(scope);
        lemma_merge_all_joins_usage(base, parts, scope);
        lemma_merge_all_joins_usage(base, others, scope);
        slots::lemma_same_set_mapped(parts, others, at);
        slots::law_all_merge_orders_converge(
            base.usage_at(scope),
            parts.map_values(at),
            others.map_values(at),
        );
    }
    assert forall|scope: K| left.counters.contains_key(scope) <==> right.counters.contains_key(
        scope,
    ) by {
        lemma_merge_all_joins_usage(base, parts, scope);
        lemma_merge_all_joins_usage(base, others, scope);
        lemma_same_scopes(parts, others, scope);
        lemma_same_scopes(others, parts, scope);
    }
    assert(left.counters.dom() =~= right.counters.dom());
    assert forall|scope: K| #[trigger] left.counters.contains_key(scope) implies left.counters[scope].limit
        == base.counter_at(scope, u64::MAX).limit && left.counters[scope].me == base.counter_at(
        scope,
        u64::MAX,
    ).me by {
        lemma_merge_all_joins_usage(base, parts, scope);
    }
    assert forall|scope: K| #[trigger] right.counters.contains_key(scope) implies right.counters[scope].limit
        == base.counter_at(scope, u64::MAX).limit && right.counters[scope].me == base.counter_at(
        scope,
        u64::MAX,
    ).me by {
        lemma_merge_all_joins_usage(base, others, scope);
    }
    assert(left.me == right.me) by {
        lemma_merge_all_me(base, parts);
        lemma_merge_all_me(base, others);
    }
    lemma_same_map(base, left, right);
}

/// Merging does not change whose map it is.
proof fn lemma_merge_all_me<K, Id>(
    base: CounterMapView<K, Id>,
    parts: Seq<CounterMapView<K, Id>>,
)
    ensures
        base.merge_all(parts).me == base.me,
    decreases parts.len(),
{
    if parts.len() > 0 {
        lemma_merge_all_me(base, parts.drop_last());
    }
}

/// Sequences with the same maps know the same scopes.
proof fn lemma_same_scopes<K, Id>(
    parts: Seq<CounterMapView<K, Id>>,
    others: Seq<CounterMapView<K, Id>>,
    scope: K,
)
    requires
        parts.to_set() == others.to_set(),
    ensures
        (exists|i: int|
            0 <= i < parts.len() && (#[trigger] parts[i]).counters.contains_key(scope)) ==> (
        exists|i: int|
            0 <= i < others.len() && (#[trigger] others[i]).counters.contains_key(scope)),
{
    if exists|i: int| 0 <= i < parts.len() && (#[trigger] parts[i]).counters.contains_key(scope) {
        let i = choose|i: int|
            0 <= i < parts.len() && (#[trigger] parts[i]).counters.contains_key(scope);
        assert(others.to_set().contains(parts[i]));
        let j = choose|j: int| 0 <= j < others.len() && others[j] == parts[i];
        assert(others[j].counters.contains_key(scope));
    }
}

/// The room reported in a scope and the scope's reading make up the limit the call gives, and
/// there is no room where the reading has reached it.
pub proof fn law_room_and_usage_make_up_the_limit_given<K, Id>(
    m: CounterMapView<K, Id>,
    scope: K,
    limit: u64,
)
    ensures
        m.counters.contains_key(scope) && slots::reading(m.counters[scope].slots) <= limit ==> m.room(
            scope,
            limit,
        ) + slots::reading(m.counters[scope].slots) == limit,
        m.counters.contains_key(scope) && slots::reading(m.counters[scope].slots) >= limit ==> m.room(
            scope,
            limit,
        ) == 0,
        !m.counters.contains_key(scope) ==> m.room(scope, limit) == limit,
{
}

/// Two maps that read the same in a scope report the same room there under the same limit,
/// whatever limits their counters were last charged under.
pub proof fn law_room_depends_on_usage_and_the_limit_given<K, Id>(
    a: CounterMapView<K, Id>,
    b: CounterMapView<K, Id>,
    scope: K,
    limit: u64,
)
    requires
        slots::reading(a.usage_at(scope)) == slots::reading(b.usage_at(scope)),
    ensures
        a.used(scope) == b.used(scope),
        a.room(scope, limit) == b.room(scope, limit),
        forall|amount: u64| #[trigger]
            a.admits(scope, limit, amount) == b.admits(scope, limit, amount),
{
    slots::law_nothing_recorded_reads_zero::<Id>();
}

/// A scope reads what its slots read, and zero where it was never touched.
pub proof fn law_a_scope_reads_its_slots<K, Id>(m: CounterMapView<K, Id>, scope: K)
    ensures
        m.counters.contains_key(scope) ==> m.used(scope) == slots::reading(
            m.counters[scope].slots,
        ) && m.usage_at(scope) == m.counters[scope].slots,
        !m.counters.contains_key(scope) ==> m.used(scope) == 0 && m.usage_at(scope) == Map::<
            Id,
            slots::SlotState,
        >::empty(),
{
}

/// A charge is admitted exactly where it fits in the room of every scope on the path, each under
/// the limit the call gives for it, and no scope has passed that limit.
pub proof fn law_a_charge_is_admitted_where_every_level_has_room<K, Id>(
    m: CounterMapView<K, Id>,
    path: Seq<(K, u64)>,
    amount: u64,
)
    ensures
        m.admits_path(path, amount) <==> forall|i: int|
            0 <= i < path.len() ==> amount <= m.room((#[trigger] path[i]).0, path[i].1) && m.used(
                path[i].0,
            ) <= path[i].1,
{
    if forall|i: int|
        0 <= i < path.len() ==> amount <= m.room((#[trigger] path[i]).0, path[i].1) && m.used(
            path[i].0,
        ) <= path[i].1 {
        assert(m.admits_path(path, amount));
    }
    if m.admits_path(path, amount) {
        assert forall|i: int| 0 <= i < path.len() implies amount <= m.room(
            (#[trigger] path[i]).0,
            path[i].1,
        ) && m.used(path[i].0) <= path[i].1 by {
            assert(m.admits(path[i].0, path[i].1, amount));
        }
    }
}

/// Where an admitted charge lands: in each scope of a path of distinct scopes this node's own slot
/// has written the amount more, no other slot has moved, and the counter is held under the limit
/// the call gave; outside the path no scope has moved. (A charge of nothing is left out: it moves
/// nothing.)
pub proof fn law_a_charge_lands_on_this_nodes_slots<K, Id>(
    m: CounterMapView<K, Id>,
    path: Seq<(K, u64)>,
    amount: u64,
)
    requires
        m.well_formed(),
        distinct_scopes(path),
        m.admits_path(path, amount),
        m.charge_fits(path, amount),
        amount > 0,
    ensures
        m.charge_path(path, amount).me == m.me,
        forall|i: int|
            0 <= i < path.len() ==> m.charge_path(path, amount).counters.contains_key(
                (#[trigger] path[i]).0,
            ),
        forall|i: int|
            0 <= i < path.len() ==> {
                let c = m.charge_path(path, amount).counters[(#[trigger] path[i]).0];
                let had = m.usage_at(path[i].0);
                &&& c.me == m.me
                &&& c.limit == path[i].1
                &&& c.slots.contains_key(m.me)
                &&& c.slots.remove(m.me) == had.remove(m.me)
                &&& had.contains_key(m.me) ==> c.slots[m.me].consumed == had[m.me].consumed + amount
                    && c.slots[m.me].freed == had[m.me].freed
                &&& !had.contains_key(m.me) ==> c.slots[m.me].consumed == amount
                    && c.slots[m.me].freed == 0
            },
        forall|scope: K|
            #![trigger m.charge_path(path, amount).counters.contains_key(scope)]
            !on_path(path, scope) ==> {
                let after = m.charge_path(path, amount).counters;
                &&& after.contains_key(scope) <==> m.counters.contains_key(scope)
                &&& after.contains_key(scope) ==> after[scope] == m.counters[scope]
            },
{
    law_a_charge_lands_on_every_level(m, path, amount);
    assert forall|i: int| 0 <= i < path.len() implies {
        let c = m.charge_path(path, amount).counters[(#[trigger] path[i]).0];
        let had = m.usage_at(path[i].0);
        &&& c.me == m.me
        &&& c.limit == path[i].1
        &&& c.slots.contains_key(m.me)
        &&& c.slots.remove(m.me) == had.remove(m.me)
        &&& had.contains_key(m.me) ==> c.slots[m.me].consumed == had[m.me].consumed + amount
            && c.slots[m.me].freed == had[m.me].freed
        &&& !had.contains_key(m.me) ==> c.slots[m.me].consumed == amount && c.slots[m.me].freed == 0
    } by {
        lemma_prefix_leaves_the_next(m, path, amount, i);
        let c = m.refreshed(path[i].0, path[i].1);
        assert(m.admits(path[i].0, path[i].1, amount));
        if !m.counters.contains_key(path[i].0) {
            lemma_fresh_reads_zero(m.me, path[i].1);
        }
        assert(c.admits(amount));
        crate::counter::law_a_write_lands_on_the_nodes_own_slot(c, amount);
    }
}

/// Where a free lands: in each scope of a path of distinct scopes this node's own slot has freed
/// the amount more, no other slot has moved, and the limit is as it was; outside the path no scope
/// has moved. (A free of nothing is left out: it moves nothing.)
pub proof fn law_a_free_lands_on_this_nodes_slots<K, Id>(
    m: CounterMapView<K, Id>,
    path: Seq<K>,
    amount: u64,
)
    requires
        m.well_formed(),
        path.no_duplicates(),
        amount > 0,
    ensures
        m.credit_path(path, amount).me == m.me,
        forall|i: int|
            0 <= i < path.len() ==> m.credit_path(path, amount).counters.contains_key(
                #[trigger] path[i],
            ),
        forall|i: int|
            0 <= i < path.len() ==> {
                let c = m.credit_path(path, amount).counters[#[trigger] path[i]];
                let had = m.usage_at(path[i]);
                &&& c.me == m.me
                &&& m.counters.contains_key(path[i]) ==> c.limit == m.counters[path[i]].limit
                &&& !m.counters.contains_key(path[i]) ==> c.limit == u64::MAX
                &&& c.slots.contains_key(m.me)
                &&& c.slots.remove(m.me) == had.remove(m.me)
                &&& had.contains_key(m.me) ==> c.slots[m.me].consumed == had[m.me].consumed
                &&& had.contains_key(m.me) && had[m.me].freed + amount <= u64::MAX
                    ==> c.slots[m.me].freed == had[m.me].freed + amount
                &&& !had.contains_key(m.me) ==> c.slots[m.me].consumed == 0 && c.slots[m.me].freed
                    == amount
            },
        forall|scope: K|
            #![trigger m.credit_path(path, amount).counters.contains_key(scope)]
            !path.contains(scope) ==> {
                let after = m.credit_path(path, amount).counters;
                &&& after.contains_key(scope) <==> m.counters.contains_key(scope)
                &&& after.contains_key(scope) ==> after[scope] == m.counters[scope]
            },
{
    law_a_free_lands_on_every_level(m, path, amount);
    assert forall|i: int| 0 <= i < path.len() implies {
        let c = m.credit_path(path, amount).counters[#[trigger] path[i]];
        let had = m.usage_at(path[i]);
        &&& c.me == m.me
        &&& m.counters.contains_key(path[i]) ==> c.limit == m.counters[path[i]].limit
        &&& !m.counters.contains_key(path[i]) ==> c.limit == u64::MAX
        &&& c.slots.contains_key(m.me)
        &&& c.slots.remove(m.me) == had.remove(m.me)
        &&& had.contains_key(m.me) ==> c.slots[m.me].consumed == had[m.me].consumed
        &&& had.contains_key(m.me) && had[m.me].freed + amount <= u64::MAX ==> c.slots[m.me].freed
            == had[m.me].freed + amount
        &&& !had.contains_key(m.me) ==> c.slots[m.me].consumed == 0 && c.slots[m.me].freed == amount
    } by {
        crate::counter::law_a_free_lands_on_the_nodes_own_slot(
            m.counter_at(path[i], u64::MAX),
            amount,
        );
    }
}

/// A charge or a free of nothing moves nothing.
pub proof fn law_nothing_moves_nothing<K, Id>(
    m: CounterMapView<K, Id>,
    charged: Seq<(K, u64)>,
    freed: Seq<K>,
)
    ensures
        m.charge_path(charged, 0) == m,
        m.credit_path(freed, 0) == m,
{
}

/// What a merge keeps: every scope either side holds; in it each slot either side has, its totals
/// no smaller than either side's and each one that a side has; and the limit and the node of this
/// side, with no limit on a scope this side did not hold.
pub proof fn law_a_map_merge_takes_over_usage_only<K, Id>(
    a: CounterMapView<K, Id>,
    b: CounterMapView<K, Id>,
    scope: K,
    id: Id,
)
    ensures
        a.merge(b).me == a.me,
        a.merge(b).counters.contains_key(scope) <==> a.counters.contains_key(scope)
            || b.counters.contains_key(scope),
        a.counters.contains_key(scope) ==> a.merge(b).counters[scope].limit
            == a.counters[scope].limit && a.merge(b).counters[scope].me == a.counters[scope].me,
        !a.counters.contains_key(scope) && b.counters.contains_key(scope) ==> a.merge(
            b,
        ).counters[scope].limit == u64::MAX && a.merge(b).counters[scope].me == a.me,
        a.merge(b).usage_at(scope).contains_key(id) <==> a.usage_at(scope).contains_key(id)
            || b.usage_at(scope).contains_key(id),
        a.usage_at(scope).contains_key(id) ==> a.merge(b).usage_at(scope)[id].consumed
            >= a.usage_at(scope)[id].consumed && a.merge(b).usage_at(scope)[id].freed >= a.usage_at(
            scope,
        )[id].freed,
        b.usage_at(scope).contains_key(id) ==> a.merge(b).usage_at(scope)[id].consumed
            >= b.usage_at(scope)[id].consumed && a.merge(b).usage_at(scope)[id].freed >= b.usage_at(
            scope,
        )[id].freed,
        a.merge(b).usage_at(scope).contains_key(id) ==> {
            ||| a.usage_at(scope).contains_key(id) && a.merge(b).usage_at(scope)[id].consumed
                == a.usage_at(scope)[id].consumed
            ||| b.usage_at(scope).contains_key(id) && a.merge(b).usage_at(scope)[id].consumed
                == b.usage_at(scope)[id].consumed
        },
        a.merge(b).usage_at(scope).contains_key(id) ==> {
            ||| a.usage_at(scope).contains_key(id) && a.merge(b).usage_at(scope)[id].freed
                == a.usage_at(scope)[id].freed
            ||| b.usage_at(scope).contains_key(id) && a.merge(b).usage_at(scope)[id].freed
                == b.usage_at(scope)[id].freed
        },
{
    lemma_merge_joins_usage(a, b);
    slots::law_a_merge_keeps_the_larger_totals(a.usage_at(scope), b.usage_at(scope));
}

/// A path is charged level by level: charging a longer path is charging all but its last scope, and
/// then that scope by itself. So it is with freeing.
pub proof fn law_a_path_is_taken_level_by_level<K, Id>(
    m: CounterMapView<K, Id>,
    charged: Seq<(K, u64)>,
    next: (K, u64),
    freed: Seq<K>,
    last: K,
    amount: u64,
)
    ensures
        m.charge_path(charged.push(next), amount) == m.charge_path(charged, amount).charge_path(
            seq![next],
            amount,
        ),
        m.credit_path(freed.push(last), amount) == m.credit_path(freed, amount).credit_path(
            seq![last],
            amount,
        ),
{
    assert(charged.push(next).drop_last() =~= charged);
    assert(freed.push(last).drop_last() =~= freed);
    assert(seq![next].drop_last() =~= Seq::<(K, u64)>::empty());
    assert(seq![last].drop_last() =~= Seq::<K>::empty());
    reveal_with_fuel(CounterMapView::charge_path, 2);
    reveal_with_fuel(CounterMapView::credit_path, 2);
}

/// A sparse map holds no idle scope: in every scope it holds some node has a slot.
pub proof fn law_a_sparse_map_holds_no_idle_scope<K, Id>(m: CounterMapView<K, Id>, scope: K)
    requires
        m.sparse(),
        m.counters.contains_key(scope),
    ensures
        exists|id: Id| m.counters[scope].slots.contains_key(id),
{
    if forall|id: Id| !m.counters[scope].slots.contains_key(id) {
        assert(m.counters[scope].slots =~= Map::<Id, slots::SlotState>::empty());
    }
}

/// A charge that does not fit in its scope moves no usage anywhere.
pub proof fn law_a_charge_that_does_not_fit_moves_no_usage<K, Id>(
    m: CounterMapView<K, Id>,
    scope: K,
    limit: u64,
    amount: u64,
    other: K,
)
    requires
        m.used(scope) + amount > limit,
    ensures
        m.charge_path(seq![(scope, limit)], amount).usage_at(other) == m.usage_at(other),
        m.charge_path(seq![(scope, limit)], amount).me == m.me,
{
    assert(seq![(scope, limit)].drop_last() =~= Seq::<(K, u64)>::empty());
    reveal_with_fuel(CounterMapView::charge_path, 2);
    lemma_fresh_reads_zero(m.me, limit);
    assert(m.charge_path(seq![(scope, limit)], amount).usage_at(other) =~= m.usage_at(other));
}

} // verus!
