//! A map of named [`Escrow`] counters -- one grant per scope, charged as a path.
//!
//! A single write is subject to several limits at once -- bucket, tenant, root -- so it charges
//! the whole path all-or-none: every level is checked before any is charged. Charging is local,
//! against the rights each scope was granted. When a scope is short, the map names it and charges
//! nothing; the server tops it up from that scope's quota and tries again.

use std::collections::BTreeMap;

use vstd::prelude::*;

use crate::counter::Denied;
use crate::escrow::{Escrow, EscrowView};
use crate::keys::{self, copy_key};
use crate::slots;

verus! {

/// A map of per-scope escrow counters, keyed by scope identity `K`.
#[derive(Debug, PartialEq, Eq)]
pub struct EscrowMap<K: Ord + Clone, Id: Ord + Clone = u32> {
    /// This node's slot, stamped into every counter it creates.
    me: Id,
    /// One counter per scope that has been granted or has used anything. Sparse.
    counters: BTreeMap<K, Escrow<Id>>,
}

/// What an [`EscrowMap`] is: a node, and one counter for each scope it has dealt with.
#[verifier::ext_equal]
#[verifier::reject_recursive_types(K)]
#[verifier::reject_recursive_types(Id)]
pub struct EscrowMapView<K, Id> {
    /// The node.
    pub me: Id,
    /// The counter of each scope.
    pub counters: Map<K, EscrowView<Id>>,
}

impl<K, Id> EscrowMapView<K, Id> {
    /// Every counter belongs to this node.
    pub open spec fn well_formed(self) -> bool {
        forall|scope: K| #[trigger]
            self.counters.contains_key(scope) ==> self.counters[scope].me == self.me
    }

    /// No scope uses more than it was granted.
    pub open spec fn within_grants(self) -> bool {
        forall|scope: K| #[trigger]
            self.counters.contains_key(scope) ==> self.counters[scope].within_grant()
    }

    /// The counter of `scope`, or a fresh one without rights where there is none.
    pub open spec fn counter_at(self, scope: K) -> EscrowView<Id> {
        if self.counters.contains_key(scope) {
            self.counters[scope]
        } else {
            EscrowView::fresh(self.me, 0)
        }
    }

    /// The map with `counter` in `scope`.
    pub open spec fn with(self, scope: K, counter: EscrowView<Id>) -> Self {
        EscrowMapView { counters: self.counters.insert(scope, counter), ..self }
    }

    /// Every scope of `path` holds the rights for `amount`.
    pub open spec fn admits_path(self, path: Seq<K>, amount: u64) -> bool {
        forall|i: int|
            0 <= i < path.len() ==> self.counter_at(#[trigger] path[i]).admits(amount)
    }

    /// No counter is kept for a scope that was neither granted nor has used anything.
    pub open spec fn sparse(self) -> bool {
        forall|scope: K| #[trigger]
            self.counters.contains_key(scope) ==> self.counters[scope].granted > 0
                || self.counters[scope].slots != Map::<Id, slots::SlotState>::empty()
    }

    /// Every counter holds finitely many slots.
    pub open spec fn finite(self) -> bool {
        forall|scope: K| #[trigger]
            self.counters.contains_key(scope) ==> self.counters[scope].slots.dom().finite()
    }

    /// The map after `scope` was lent `amount` more. Lending nothing changes nothing.
    pub open spec fn grant(self, scope: K, amount: u64) -> Self {
        if amount == 0 {
            self
        } else {
            self.with(scope, self.counter_at(scope).grant(amount))
        }
    }

    /// The map after `amount` was asked of each scope of `path` in turn. Asking for nothing
    /// changes nothing.
    pub open spec fn charge_path(self, path: Seq<K>, amount: u64) -> Self
        decreases path.len(),
    {
        if amount == 0 || path.len() == 0 {
            self
        } else {
            let before = self.charge_path(path.drop_last(), amount);
            before.with(path.last(), before.counter_at(path.last()).offer(amount))
        }
    }

    /// No slot overflows while `path` is charged.
    pub open spec fn charge_fits(self, path: Seq<K>, amount: u64) -> bool {
        forall|i: int|
            0 <= i < path.len() ==> {
                let c = self.charge_path(path.take(i), amount).counter_at(#[trigger] path[i]);
                c.admits(amount) ==> c.own().consumed + amount <= u64::MAX
            }
    }

    /// The map after each scope of `path` released `amount` in turn. Releasing nothing changes
    /// nothing.
    pub open spec fn credit_path(self, path: Seq<K>, amount: u64) -> Self
        decreases path.len(),
    {
        if amount == 0 || path.len() == 0 {
            self
        } else {
            let before = self.credit_path(path.drop_last(), amount);
            before.with(path.last(), before.counter_at(path.last()).credit(amount))
        }
    }
}

impl<K: Ord + Clone, Id: Ord + Clone> View for EscrowMap<K, Id> {
    type V = EscrowMapView<K, Id>;

    closed spec fn view(&self) -> EscrowMapView<K, Id> {
        EscrowMapView { me: self.me, counters: self.counters@.map_values(|c: Escrow<Id>| c@) }
    }
}

impl<K: Ord + Clone, Id: Ord + Clone> EscrowMap<K, Id> {
    /// A fresh, empty map for the node identified by `me`.
    #[must_use]
    pub fn new(me: Id) -> (map: Self)
        ensures
            map@ == (EscrowMapView { me, counters: Map::<K, EscrowView<Id>>::empty() }),
            map@.well_formed(),
            map@.within_grants(),
            map@.sparse(),
    {
        let map = EscrowMap { me, counters: BTreeMap::<K, Escrow<Id>>::new() };
        proof {
            assert(map@.counters =~= Map::<K, EscrowView<Id>>::empty());
        }
        map
    }

    /// Takes the counter of `scope` out of the map, or makes a fresh one.
    fn take(&mut self, scope: &K) -> (counter: Escrow<Id>)
        requires
            keys::lawful_key::<K>(),
            keys::lawful_key::<Id>(),
        ensures
            counter@ == old(self)@.counter_at(*scope),
            final(self)@.me == old(self)@.me,
            final(self)@.counters == old(self)@.counters.remove(*scope),
    {
        let taken = self.counters.remove(scope);
        proof {
            assert(self@.counters =~= old(self)@.counters.remove(*scope));
        }
        match taken {
            Some(counter) => counter,
            None => Escrow::new(copy_key(&self.me), 0),
        }
    }

    /// Puts `counter` in the map as the counter of `scope`.
    fn put(&mut self, scope: &K, counter: Escrow<Id>)
        requires
            keys::lawful_key::<K>(),
        ensures
            final(self)@.me == old(self)@.me,
            final(self)@.counters == old(self)@.counters.insert(*scope, counter@),
    {
        self.counters.insert(copy_key(scope), counter);
        proof {
            assert(self@.counters =~= old(self)@.counters.insert(*scope, counter@));
        }
    }

    /// Take in `amount` more rights for `scope`, lent by the scope's quota.
    pub fn grant(&mut self, scope: &K, amount: u64)
        requires
            keys::lawful_key::<K>(),
            keys::lawful_key::<Id>(),
            old(self)@.counter_at(*scope).granted + amount <= u64::MAX,
        ensures
            final(self)@ == old(self)@.grant(*scope, amount),
            old(self)@.well_formed() ==> final(self)@.well_formed(),
            old(self)@.within_grants() ==> final(self)@.within_grants(),
            old(self)@.sparse() ==> final(self)@.sparse(),
    {
        if amount == 0 {
            return ;
        }
        let mut counter = self.take(scope);
        counter.grant(amount);
        self.put(scope, counter);
        proof {
            assert(self@ =~= old(self)@.with(*scope, old(self)@.counter_at(*scope).grant(amount)));
        }
    }

    /// Rights `scope` holds and does not use; none for a scope that was never granted any.
    #[must_use]
    pub fn local_available(&self, scope: &K) -> (room: u64)
        requires
            keys::lawful_key::<K>(),
            keys::lawful_key::<Id>(),
        ensures
            room == self@.counter_at(*scope).room(),
    {
        match self.counters.get(scope) {
            Some(counter) => counter.local_available(),
            None => 0,
        }
    }

    /// Spend `amount` of the rights that every scope on `path` holds, all-or-none.
    ///
    /// Every scope is checked before any is charged, so on refusal nothing is recorded. Asking for
    /// nothing creates no entry. Scopes on a path are expected distinct.
    ///
    /// # Errors
    ///
    /// The first scope (in `path` order) that is short, with its [`Denied`]. Nothing is charged
    /// in that case.
    pub fn acquire(&mut self, path: &[K], amount: u64) -> (outcome: Result<(), (K, Denied)>)
        requires
            keys::lawful_key::<K>(),
            keys::lawful_key::<Id>(),
            old(self)@.within_grants(),
            old(self)@.admits_path(path@, amount) ==> old(self)@.charge_fits(path@, amount),
        ensures
            outcome is Ok <==> old(self)@.admits_path(path@, amount),
            outcome is Ok ==> final(self)@ == old(self)@.charge_path(path@, amount),
            outcome is Err ==> final(self)@ == old(self)@,
            outcome is Err ==> exists|i: int|
                {
                    &&& 0 <= i < path@.len()
                    &&& old(self)@.admits_path(path@.take(i), amount)
                    &&& !old(self)@.counter_at(#[trigger] path@[i]).admits(amount)
                    &&& outcome == Err::<(), _>(
                        (path@[i], Denied { available: old(self)@.counter_at(path@[i]).room() }),
                    )
                },
            old(self)@.well_formed() ==> final(self)@.well_formed(),
            final(self)@.within_grants(),
            old(self)@.sparse() ==> final(self)@.sparse(),
    {
        // Check every level first; a partial charge is never allowed to exist.
        let mut i: usize = 0;
        while i < path.len()
            invariant
                keys::lawful_key::<K>(),
                keys::lawful_key::<Id>(),
                self@ == old(self)@,
                self@.within_grants(),
                i <= path@.len(),
                forall|j: int|
                    0 <= j < i ==> self@.counter_at(#[trigger] path@[j]).admits(amount),
            decreases path.len() - i,
        {
            let room: u64 = self.local_available(&path[i]);
            if room < amount {
                proof {
                    assert(self@.admits_path(path@.take(i as int), amount));
                    assert(!self@.counter_at(path@[i as int]).admits(amount));
                }
                return Err((copy_key(&path[i]), Denied { available: room }));
            }
            i += 1;
        }
        if amount == 0 {
            return Ok(());
        }
        let ghost base = self@;
        proof {
            if base.sparse() {
                lemma_charge_is_sparse(base, path@, amount);
            }
        }
        let mut i: usize = 0;
        while i < path.len()
            invariant
                keys::lawful_key::<K>(),
                keys::lawful_key::<Id>(),
                i <= path@.len(),
                amount > 0,
                base.charge_fits(path@, amount),
                self@ == base.charge_path(path@.take(i as int), amount),
                self@.within_grants(),
                base.well_formed() ==> self@.well_formed(),
            decreases path.len() - i,
        {
            let ghost before = self@;
            let scope = &path[i];
            let mut counter = self.take(scope);
            proof {
                assert(counter@ == before.counter_at(path@[i as int]));
            }
            let _ = counter.acquire(amount);
            self.put(scope, counter);
            proof {
                assert(self@ =~= before.with(*scope, before.counter_at(*scope).offer(amount)));
                assert(path@.take(i + 1).drop_last() =~= path@.take(i as int));
            }
            i += 1;
        }
        proof {
            assert(path@.take(i as int) =~= path@);
        }
        Ok(())
    }

    /// Return `amount` that was in use in every scope on `path`. The rights stay with this node.
    pub fn release(&mut self, path: &[K], amount: u64)
        requires
            keys::lawful_key::<K>(),
            keys::lawful_key::<Id>(),
        ensures
            final(self)@ == old(self)@.credit_path(path@, amount),
            old(self)@.well_formed() ==> final(self)@.well_formed(),
            old(self)@.within_grants() ==> final(self)@.within_grants(),
            old(self)@.sparse() ==> final(self)@.sparse(),
    {
        if amount == 0 {
            return ;
        }
        let ghost base = self@;
        proof {
            if base.sparse() {
                lemma_credit_is_sparse(base, path@, amount);
            }
        }
        let mut i: usize = 0;
        while i < path.len()
            invariant
                keys::lawful_key::<K>(),
                keys::lawful_key::<Id>(),
                i <= path@.len(),
                amount > 0,
                self@ == base.credit_path(path@.take(i as int), amount),
                base.well_formed() ==> self@.well_formed(),
                base.within_grants() ==> self@.within_grants(),
            decreases path.len() - i,
        {
            let ghost before = self@;
            let scope = &path[i];
            let mut counter = self.take(scope);
            proof {
                assert(counter@ == before.counter_at(path@[i as int]));
            }
            counter.release(amount);
            self.put(scope, counter);
            proof {
                assert(self@ =~= before.with(*scope, before.counter_at(*scope).credit(amount)));
                assert(path@.take(i + 1).drop_last() =~= path@.take(i as int));
            }
            i += 1;
        }
        proof {
            assert(path@.take(i as int) =~= path@);
        }
    }

    /// Usage of `scope` across the cluster, as far as it is known to this node.
    #[must_use]
    pub fn global_used(&self, scope: &K) -> (used: u64)
        requires
            keys::lawful_key::<K>(),
            keys::lawful_key::<Id>(),
        ensures
            used == slots::reading(self@.counter_at(*scope).slots),
    {
        match self.counters.get(scope) {
            Some(counter) => counter.global_used(),
            None => {
                proof {
                    assert(Map::<Id, slots::SlotState>::empty().dom() =~= Set::<Id>::empty());
                }
                0
            },
        }
    }
}

impl<K: Ord + Clone, Id: Ord + Clone> EscrowMap<K, Id> {
    /// A map's counters hold finitely many slots.
    pub proof fn law_slots_are_finite(&self)
        ensures
            self@.finite(),
    {
        assert forall|scope: K| #[trigger]
            self@.counters.contains_key(scope) implies self@.counters[scope].slots.dom().finite() by {
            self.counters@[scope].law_slots_are_finite();
        }
    }
}

/// An admitted charge makes no counter that was neither granted nor has used anything.
proof fn lemma_charge_is_sparse<K, Id>(m: EscrowMapView<K, Id>, path: Seq<K>, amount: u64)
    requires
        m.sparse(),
        m.admits_path(path, amount),
    ensures
        m.charge_path(path, amount).sparse(),
        m.charge_path(path, amount).me == m.me,
        forall|scope: K| #[trigger]
            m.counters.contains_key(scope) ==> m.charge_path(path, amount).counters.contains_key(
                scope,
            ),
    decreases path.len(),
{
    if amount > 0 && path.len() > 0 {
        let front = path.drop_last();
        let last = path.last();
        assert forall|i: int| 0 <= i < front.len() implies m.counter_at(#[trigger] front[i]).admits(
            amount,
        ) by {
            assert(path[i] == front[i]);
        }
        lemma_charge_is_sparse(m, front, amount);
        let mid = m.charge_path(front, amount);
        assert(m.counter_at(path[path.len() - 1]).admits(amount));
        let c = mid.counter_at(last);
        if c.admits(amount) {
            assert(c.offer(amount).slots.contains_key(c.me));
        }
    }
}

/// A release makes no counter that was neither granted nor has used anything.
proof fn lemma_credit_is_sparse<K, Id>(m: EscrowMapView<K, Id>, path: Seq<K>, amount: u64)
    requires
        m.sparse(),
    ensures
        m.credit_path(path, amount).sparse(),
    decreases path.len(),
{
    if amount > 0 && path.len() > 0 {
        lemma_credit_is_sparse(m, path.drop_last(), amount);
        let mid = m.credit_path(path.drop_last(), amount);
        let c = mid.counter_at(path.last());
        assert(c.credit(amount).slots.contains_key(c.me));
    }
}

/// An admitted charge lands on every level and nowhere else: on a path of distinct scopes each
/// scope's counter is charged once, by exactly the amount, and every other scope is as it was. (A
/// charge of nothing is left out: it lands nowhere.)
pub proof fn law_an_acquire_lands_on_every_level<K, Id>(
    m: EscrowMapView<K, Id>,
    path: Seq<K>,
    amount: u64,
)
    requires
        path.no_duplicates(),
        m.admits_path(path, amount),
        amount > 0,
    ensures
        forall|i: int|
            0 <= i < path.len() ==> m.charge_path(path, amount).counters.contains_key(
                #[trigger] path[i],
            ) && m.charge_path(path, amount).counters[path[i]] == m.counter_at(path[i]).charge(
                amount,
            ),
        forall|scope: K|
            !path.contains(scope) ==> m.charge_path(path, amount).counter_at(scope)
                == #[trigger] m.counter_at(scope),
        m.charge_path(path, amount).me == m.me,
    decreases path.len(),
{
    if path.len() > 0 {
        let front = path.drop_last();
        let last = path.last();
        assert forall|i: int| 0 <= i < front.len() implies m.counter_at(#[trigger] front[i]).admits(
            amount,
        ) by {
            assert(path[i] == front[i]);
        }
        law_an_acquire_lands_on_every_level(m, front, amount);
        let mid = m.charge_path(front, amount);
        assert(!front.contains(last));
        assert(path[path.len() - 1] == last);
        assert(mid.counter_at(last) == m.counter_at(last));
        assert forall|i: int| 0 <= i < path.len() implies m.charge_path(
            path,
            amount,
        ).counters.contains_key(#[trigger] path[i]) && m.charge_path(path, amount).counters[path[i]]
            == m.counter_at(path[i]).charge(amount) by {
            if i < front.len() {
                assert(front[i] == path[i]);
            }
        }
        assert forall|scope: K| !path.contains(scope) implies m.charge_path(
            path,
            amount,
        ).counter_at(scope) == #[trigger] m.counter_at(scope) by {
            assert(path.contains(path[path.len() - 1]));
            if front.contains(scope) {
                let k = front.index_of(scope);
                assert(path[k] == scope);
            }
        }
    }
}

/// A release lands on every level and nowhere else: on a path of distinct scopes each scope's
/// counter is credited exactly once, on this node's own slot, and every other scope is as it was.
/// (A release of nothing is left out: it lands nowhere.)
pub proof fn law_a_release_lands_on_every_level<K, Id>(
    m: EscrowMapView<K, Id>,
    path: Seq<K>,
    amount: u64,
)
    requires
        path.no_duplicates(),
        amount > 0,
    ensures
        forall|i: int|
            0 <= i < path.len() ==> m.credit_path(path, amount).counters.contains_key(
                #[trigger] path[i],
            ) && m.credit_path(path, amount).counters[path[i]] == m.counter_at(path[i]).credit(
                amount,
            ),
        forall|scope: K|
            #![trigger m.credit_path(path, amount).counters.contains_key(scope)]
            !path.contains(scope) ==> {
                let after = m.credit_path(path, amount).counters;
                &&& after.contains_key(scope) <==> m.counters.contains_key(scope)
                &&& after.contains_key(scope) ==> after[scope] == m.counters[scope]
            },
        m.credit_path(path, amount).me == m.me,
    decreases path.len(),
{
    if path.len() > 0 {
        let front = path.drop_last();
        let last = path.last();
        law_a_release_lands_on_every_level(m, front, amount);
        let mid = m.credit_path(front, amount);
        let after = m.credit_path(path, amount);
        assert(path[path.len() - 1] == last);
        assert(!front.contains(last));
        assert(mid.counters.contains_key(last) <==> m.counters.contains_key(last));
        assert(mid.counter_at(last) == m.counter_at(last));
        assert forall|i: int| 0 <= i < path.len() implies after.counters.contains_key(
            #[trigger] path[i],
        ) && after.counters[path[i]] == m.counter_at(path[i]).credit(amount) by {
            if i < front.len() {
                assert(front[i] == path[i]);
            }
        }
        assert forall|scope: K| !path.contains(scope) implies {
            &&& #[trigger] after.counters.contains_key(scope) <==> m.counters.contains_key(scope)
            &&& after.counters.contains_key(scope) ==> after.counters[scope] == m.counters[scope]
        } by {
            assert(path.contains(path[path.len() - 1]));
            if front.contains(scope) {
                let k = front.index_of(scope);
                assert(path[k] == scope);
            }
            assert(mid.counters.contains_key(scope) <==> m.counters.contains_key(scope));
        }
    }
}

impl<K, Id> EscrowMapView<K, Id> {
    /// The usage recorded in `scope`.
    pub open spec fn usage_at(self, scope: K) -> Map<Id, slots::SlotState> {
        if self.counters.contains_key(scope) {
            self.counters[scope].slots
        } else {
            Map::empty()
        }
    }

    /// The rights lent in `scope`.
    pub open spec fn granted_at(self, scope: K) -> u64 {
        if self.counters.contains_key(scope) {
            self.counters[scope].granted
        } else {
            0
        }
    }
}

/// Where a release lands: in each scope of a path of distinct scopes this node's own slot has
/// released the amount more, no other slot has moved, and the rights are as they were; outside the
/// path no scope has moved. (A release of nothing is left out: it moves nothing.)
pub proof fn law_a_release_lands_on_this_nodes_slots<K, Id>(
    m: EscrowMapView<K, Id>,
    path: Seq<K>,
    amount: u64,
)
    requires
        m.well_formed(),
        path.no_duplicates(),
        amount > 0,
    ensures
        m.credit_path(path, amount).me == m.me,
        forall|i: int|
            0 <= i < path.len() ==> m.credit_path(path, amount).counters.contains_key(
                #[trigger] path[i],
            ),
        forall|i: int|
            0 <= i < path.len() ==> {
                let c = m.credit_path(path, amount).counters[#[trigger] path[i]];
                let had = m.usage_at(path[i]);
                &&& c.me == m.me
                &&& c.granted == m.granted_at(path[i])
                &&& c.slots.contains_key(m.me)
                &&& c.slots.remove(m.me) == had.remove(m.me)
                &&& had.contains_key(m.me) ==> c.slots[m.me].consumed == had[m.me].consumed
                &&& had.contains_key(m.me) && had[m.me].freed + amount <= u64::MAX
                    ==> c.slots[m.me].freed == had[m.me].freed + amount
                &&& !had.contains_key(m.me) ==> c.slots[m.me].consumed == 0 && c.slots[m.me].freed
                    == amount
            },
        forall|scope: K|
            #![trigger m.credit_path(path, amount).counters.contains_key(scope)]
            !path.contains(scope) ==> {
                let after = m.credit_path(path, amount).counters;
                &&& after.contains_key(scope) <==> m.counters.contains_key(scope)
                &&& after.contains_key(scope) ==> after[scope] == m.counters[scope]
            },
{
    law_a_release_lands_on_every_level(m, path, amount);
    assert forall|i: int| 0 <= i < path.len() implies {
        let c = m.credit_path(path, amount).counters[#[trigger] path[i]];
        let had = m.usage_at(path[i]);
        &&& c.me == m.me
        &&& c.granted == m.granted_at(path[i])
        &&& c.slots.contains_key(m.me)
        &&& c.slots.remove(m.me) == had.remove(m.me)
        &&& had.contains_key(m.me) ==> c.slots[m.me].consumed == had[m.me].consumed
        &&& had.contains_key(m.me) && had[m.me].freed + amount <= u64::MAX ==> c.slots[m.me].freed
            == had[m.me].freed + amount
        &&& !had.contains_key(m.me) ==> c.slots[m.me].consumed == 0 && c.slots[m.me].freed == amount
    } by {
        let c = m.counter_at(path[i]);
        slots::law_a_free_moves_one_figure(c.slots, c.me, amount);
    }
}

/// Where an admitted charge lands: in each scope of a path of distinct scopes this node's own slot
/// has acquired the amount more, no other slot has moved, and the rights are as they were; outside
/// the path no scope has moved. (A charge of nothing is left out: it moves nothing.)
pub proof fn law_an_acquire_lands_on_this_nodes_slots<K, Id>(
    m: EscrowMapView<K, Id>,
    path: Seq<K>,
    amount: u64,
)
    requires
        m.well_formed(),
        path.no_duplicates(),
        m.admits_path(path, amount),
        amount > 0,
        forall|i: int|
            0 <= i < path.len() && m.usage_at(#[trigger] path[i]).contains_key(m.me) ==> m.usage_at(
                path[i],
            )[m.me].consumed + amount <= u64::MAX,
    ensures
        m.charge_path(path, amount).me == m.me,
        forall|i: int|
            0 <= i < path.len() ==> m.charge_path(path, amount).counters.contains_key(
                #[trigger] path[i],
            ),
        forall|i: int|
            0 <= i < path.len() ==> {
                let c = m.charge_path(path, amount).counters[#[trigger] path[i]];
                let had = m.usage_at(path[i]);
                &&& c.me == m.me
                &&& c.granted == m.granted_at(path[i])
                &&& c.slots.contains_key(m.me)
                &&& c.slots.remove(m.me) == had.remove(m.me)
                &&& had.contains_key(m.me) ==> c.slots[m.me].consumed == had[m.me].consumed + amount
                    && c.slots[m.me].freed == had[m.me].freed
                &&& !had.contains_key(m.me) ==> c.slots[m.me].consumed == amount
                    && c.slots[m.me].freed == 0
            },
        forall|scope: K|
            !path.contains(scope) ==> (#[trigger] m.charge_path(path, amount).usage_at(scope))
                == m.usage_at(scope) && m.charge_path(path, amount).granted_at(scope)
                == m.granted_at(scope),
{
    law_an_acquire_lands_on_every_level(m, path, amount);
    assert forall|i: int| 0 <= i < path.len() implies {
        let c = m.charge_path(path, amount).counters[#[trigger] path[i]];
        let had = m.usage_at(path[i]);
        &&& c.me == m.me
        &&& c.granted == m.granted_at(path[i])
        &&& c.slots.contains_key(m.me)
        &&& c.slots.remove(m.me) == had.remove(m.me)
        &&& had.contains_key(m.me) ==> c.slots[m.me].consumed == had[m.me].consumed + amount
            && c.slots[m.me].freed == had[m.me].freed
        &&& !had.contains_key(m.me) ==> c.slots[m.me].consumed == amount && c.slots[m.me].freed == 0
    } by {
        let c = m.counter_at(path[i]);
        assert(c.slots == m.usage_at(path[i]));
        slots::law_a_write_moves_one_figure(c.slots, c.me, amount);
    }
    assert forall|scope: K| !path.contains(scope) implies (#[trigger] m.charge_path(
        path,
        amount,
    ).usage_at(scope)) == m.usage_at(scope) && m.charge_path(path, amount).granted_at(scope)
        == m.granted_at(scope) by {
        assert(m.charge_path(path, amount).counter_at(scope) == m.counter_at(scope));
    }
}

/// A charge is admitted exactly where every scope on the path holds the amount in unused rights.
pub proof fn law_an_acquire_is_admitted_where_every_level_has_room<K, Id>(
    m: EscrowMapView<K, Id>,
    path: Seq<K>,
    amount: u64,
)
    requires
        m.within_grants(),
    ensures
        m.admits_path(path, amount) <==> forall|i: int|
            0 <= i < path.len() ==> amount <= m.counter_at(#[trigger] path[i]).room(),
{
    if forall|i: int| 0 <= i < path.len() ==> amount <= m.counter_at(#[trigger] path[i]).room() {
        assert(m.admits_path(path, amount));
    }
    if m.admits_path(path, amount) {
        assert forall|i: int| 0 <= i < path.len() implies amount <= m.counter_at(
            #[trigger] path[i],
        ).room() by {
            assert(m.counter_at(path[i]).admits(amount));
        }
    }
}

/// Rights lent in a scope add to those it holds; its usage, and every other scope, is as it was. A
/// loan of nothing leaves no entry.
pub proof fn law_a_grant_adds_rights_in_one_scope<K, Id>(
    m: EscrowMapView<K, Id>,
    scope: K,
    amount: u64,
    other: K,
)
    requires
        m.granted_at(scope) + amount <= u64::MAX,
        other != scope,
    ensures
        m.grant(scope, amount).me == m.me,
        m.grant(scope, amount).granted_at(scope) == m.granted_at(scope) + amount,
        m.grant(scope, amount).usage_at(scope) == m.usage_at(scope),
        m.grant(scope, amount).granted_at(other) == m.granted_at(other),
        m.grant(scope, amount).usage_at(other) == m.usage_at(other),
        m.grant(scope, amount).counters.contains_key(other) <==> m.counters.contains_key(other),
        amount == 0 ==> (m.grant(scope, amount).counters.contains_key(scope)
            <==> m.counters.contains_key(scope)),
{
}

/// A charge or a release of nothing moves nothing.
pub proof fn law_nothing_moves_nothing<K, Id>(m: EscrowMapView<K, Id>, path: Seq<K>)
    ensures
        m.charge_path(path, 0) == m,
        m.credit_path(path, 0) == m,
{
}

/// What a scope is held to be: what its entry says, and without rights or usage where there is none.
pub proof fn law_a_scope_holds_what_its_entry_says<K, Id>(m: EscrowMapView<K, Id>, scope: K)
    ensures
        m.counter_at(scope).granted == m.granted_at(scope),
        m.counter_at(scope).slots == m.usage_at(scope),
        m.well_formed() ==> m.counter_at(scope).me == m.me,
        !m.counters.contains_key(scope) ==> m.counter_at(scope).room() == 0 && slots::reading(
            m.counter_at(scope).slots,
        ) == 0,
{
    slots::law_nothing_recorded_reads_zero::<Id>();
}

/// A path is charged level by level: charging a longer path is charging all but its last scope, and
/// then that scope by itself. So it is with releasing.
pub proof fn law_a_path_is_taken_level_by_level<K, Id>(
    m: EscrowMapView<K, Id>,
    path: Seq<K>,
    last: K,
    amount: u64,
)
    ensures
        m.charge_path(path.push(last), amount) == m.charge_path(path, amount).charge_path(
            seq![last],
            amount,
        ),
        m.credit_path(path.push(last), amount) == m.credit_path(path, amount).credit_path(
            seq![last],
            amount,
        ),
{
    assert(path.push(last).drop_last() =~= path);
    assert(seq![last].drop_last() =~= Seq::<K>::empty());
    reveal_with_fuel(EscrowMapView::charge_path, 2);
    reveal_with_fuel(EscrowMapView::credit_path, 2);
}

/// A sparse map holds no idle scope: every scope it holds has rights, or some node has a slot in it.
pub proof fn law_a_sparse_map_holds_no_idle_scope<K, Id>(m: EscrowMapView<K, Id>, scope: K)
    requires
        m.sparse(),
        m.counters.contains_key(scope),
        m.counters[scope].granted == 0,
    ensures
        exists|id: Id| m.counters[scope].slots.contains_key(id),
{
    if forall|id: Id| !m.counters[scope].slots.contains_key(id) {
        assert(m.counters[scope].slots =~= Map::<Id, slots::SlotState>::empty());
    }
}

/// A charge that a scope does not hold the rights for moves neither usage nor rights anywhere.
pub proof fn law_a_charge_without_rights_moves_nothing<K, Id>(
    m: EscrowMapView<K, Id>,
    scope: K,
    amount: u64,
    other: K,
)
    requires
        m.counter_at(scope).used() + amount > m.granted_at(scope),
    ensures
        m.charge_path(seq![scope], amount).usage_at(other) == m.usage_at(other),
        m.charge_path(seq![scope], amount).granted_at(other) == m.granted_at(other),
        m.charge_path(seq![scope], amount).me == m.me,
{
    assert(seq![scope].drop_last() =~= Seq::<K>::empty());
    reveal_with_fuel(EscrowMapView::charge_path, 2);
}

} // verus!
