//! The allocator contract, and a reference in-process implementation.
//!
//! The real allocator lives in the server embedding this crate: it needs durability across
//! leader changes (an outstanding-grant ledger that survives failover, or a new leader
//! re-hands-out budget already lent, which is overshoot), a clock for lease expiry and fencing,
//! and a rebalancing policy that decides when to move grants between nodes. None of that belongs
//! in a pure crate. What belongs here is the *contract* that allocator must meet -- the [`Pool`]
//! trait -- so an [`Escrow`](crate::Escrow) can be written against it.

use std::collections::BTreeMap;

use vstd::prelude::*;

use crate::keys;
use crate::ledger::{self, lend_within, take_back_from, total_lent};

verus! {

/// The contract a quota pool must satisfy to feed [`Escrow`](crate::Escrow) counters safely.
///
/// A pool owns a global budget and lends slices of it (*grants*) to nodes. Its **one invariant**
/// is that the rights it has lent never exceed its ceiling, the limit plus whatever overshoot is
/// tolerated.
///
/// Honor that and the escrow counters it feeds can never let the cluster exceed the ceiling.
/// Everything else -- persistence, lease TTLs, when and how to rebalance -- is the
/// implementor's, and the implementor is expected to be the server, not this crate.
pub trait Pool<Id> {
    /// The pool is in a state its operations can be called in.
    spec fn valid(&self) -> bool;

    /// The most the pool ever lends in total.
    spec fn ceiling(&self) -> u64;

    /// What is lent to each node.
    spec fn book(&self) -> Map<Id, u64>;

    /// The one rule: the total lent is never more than the ceiling.
    proof fn lends_within_its_ceiling(&self)
        requires
            self.valid(),
        ensures
            self.book().dom().finite(),
            ledger::lent(self.book()) <= self.ceiling(),
    ;

    /// Lend up to `want` additional rights to `who`. Returns the amount actually granted, at
    /// most `want`, which is `0` when the pool is exhausted. **Must not** let total outstanding
    /// grants exceed the ceiling.
    fn grant(&mut self, who: &Id, want: u64) -> (give: u64)
        requires
            old(self).valid(),
        ensures
            final(self).valid(),
            final(self).ceiling() == old(self).ceiling(),
            give <= want,
            give <= ledger::unlent(old(self).book(), old(self).ceiling()),
            final(self).book() == ledger::lend(old(self).book(), *who, give),
    ;

    /// Take `amount` previously-granted, now-unused rights back from `who`. Pairs with
    /// [`Escrow::reclaim`](crate::Escrow::reclaim), which computes how much is safe to return.
    fn release(&mut self, who: &Id, amount: u64)
        requires
            old(self).valid(),
        ensures
            final(self).valid(),
            final(self).ceiling() == old(self).ceiling(),
            amount <= ledger::held(old(self).book(), *who) ==> final(self).book()
                == ledger::take_back(old(self).book(), *who, amount),
    ;

    /// Rights currently free to be lent -- the ceiling minus the outstanding grants.
    fn available(&self) -> (room: u64)
        requires
            self.valid(),
        ensures
            room == ledger::unlent(self.book(), self.ceiling()),
    ;
}

/// A minimal in-process [`Pool`] for tests and examples. **Not for production**: it is neither
/// durable across restarts nor safe across a leader change, and it has no lease expiry -- a
/// crashed node's grant is stranded until something calls [`release`](Pool::release). The real
/// pool is the server's.
#[derive(Debug)]
pub struct LocalPool<Id: Ord + Clone> {
    ceiling: u64,
    outstanding: BTreeMap<Id, u64>,
}

impl<Id: Ord + Clone> Clone for LocalPool<Id> {
    fn clone(&self) -> (copy: Self)
        ensures
            copy.ceiling() == self.ceiling(),
            copy.book() == self.book(),
            copy.valid() == self.valid(),
    {
        LocalPool { ceiling: self.ceiling, outstanding: self.outstanding.clone() }
    }
}

impl<Id: Ord + Clone> Default for LocalPool<Id> {
    /// A pool that lends nothing.
    fn default() -> (pool: Self)
        ensures
            pool.ceiling() == 0,
            pool.book() == Map::<Id, u64>::empty(),
            keys::lawful_key::<Id>() ==> pool.valid(),
    {
        LocalPool::new(0)
    }
}

impl<Id: Ord + Clone> LocalPool<Id> {
    /// A pool that lends at most `ceiling` in total. Pass the limit plus the overshoot to
    /// allow.
    #[must_use]
    pub fn new(ceiling: u64) -> (pool: Self)
        ensures
            pool.ceiling() == ceiling,
            pool.book() == Map::<Id, u64>::empty(),
            keys::lawful_key::<Id>() ==> pool.valid(),
    {
        let pool = LocalPool { ceiling, outstanding: BTreeMap::<Id, u64>::new() };
        proof {
            assert(pool.outstanding@.dom() =~= Set::<Id>::empty());
        }
        pool
    }

    /// Total rights lent out across all nodes.
    #[must_use]
    pub fn outstanding(&self) -> (total: u64)
        requires
            self.valid(),
        ensures
            total == ledger::lent(self.book()),
            total <= self.ceiling(),
    {
        total_lent(&self.outstanding)
    }
}

impl<Id: Ord + Clone> Pool<Id> for LocalPool<Id> {
    closed spec fn valid(&self) -> bool {
        keys::lawful_key::<Id>() && ledger::lent(self.outstanding@) <= self.ceiling
    }

    closed spec fn ceiling(&self) -> u64 {
        self.ceiling
    }

    closed spec fn book(&self) -> Map<Id, u64> {
        self.outstanding@
    }

    proof fn lends_within_its_ceiling(&self) {
    }

    /// Lends `want`, or all that is left if that is less.
    fn grant(&mut self, who: &Id, want: u64) -> (give: u64)
        ensures
            give == if want <= ledger::unlent(old(self).book(), old(self).ceiling()) {
                want as nat
            } else {
                ledger::unlent(old(self).book(), old(self).ceiling())
            },
    {
        lend_within(&mut self.outstanding, self.ceiling, who, want)
    }

    /// Takes `amount` back, or all that `who` holds if that is less.
    fn release(&mut self, who: &Id, amount: u64)
        ensures
            final(self).book() == ledger::take_back(old(self).book(), *who, amount),
    {
        take_back_from(&mut self.outstanding, who, amount);
    }

    fn available(&self) -> (room: u64) {
        self.ceiling.saturating_sub(self.outstanding())
    }
}

} // verus!
