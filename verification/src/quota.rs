//! The quota contract, and a reference implementation for tests.
//!
//! The real quota is not in this crate. It has to survive leader changes (keep a ledger of
//! outstanding grants that outlives a failover, or a new leader lends budget that is already
//! out), use a clock for lease expiry, and decide when to move grants between nodes. All of that
//! belongs to the server that embeds this crate. The crate defines only the contract: the
//! [`Quota`] trait. An [`Escrow`](crate::Escrow) counter is written against it.

use std::collections::BTreeMap;

use vstd::prelude::*;

use crate::keys;
use crate::ledger::{self, lend_within, take_back_from, total_lent};

verus! {

/// The contract a quota must satisfy to feed [`Escrow`](crate::Escrow) counters safely.
///
/// A `Quota` holds a global budget and lends slices of it (*grants*) to nodes. It must keep one
/// rule: the total it has lent is never more than its ceiling, the limit plus whatever
/// overshoot is tolerated.
///
/// If it keeps that rule, the counters it feeds can never exceed the ceiling. A ceiling at the
/// limit means no overshoot. A ceiling above it lets the total go over the limit by the
/// difference, in exchange for fewer false denials. Persistence, lease expiry, and rebalancing
/// are the implementor's job. The implementor is the server, not this crate.
pub trait Quota<Id> {
    /// The quota is in a state its operations can be called in.
    spec fn valid(&self) -> bool;

    /// The most the quota ever lends in total.
    spec fn ceiling(&self) -> u64;

    /// What is lent to each node.
    spec fn book(&self) -> Map<Id, u64>;

    /// Asked by `who` for `want`, the quota may lend `give`. How much a quota lends is its own to
    /// decide; this is what it says of that.
    spec fn lends(&self, who: Id, want: u64, give: u64) -> bool;

    /// The one rule: the total lent is never more than the ceiling.
    proof fn lends_within_its_ceiling(&self)
        requires
            self.valid(),
        ensures
            self.book().dom().finite(),
            ledger::lent(self.book()) <= self.ceiling(),
    ;

    /// Lend up to `want` more rights to `who`. Returns the amount lent -- at most `want`, or `0`
    /// when the quota is empty. Must not let the total lent exceed the ceiling.
    fn grant(&mut self, who: &Id, want: u64) -> (give: u64)
        requires
            old(self).valid(),
        ensures
            final(self).valid(),
            final(self).ceiling() == old(self).ceiling(),
            old(self).lends(*who, want, give),
            give <= want,
            give <= ledger::unlent(old(self).book(), old(self).ceiling()),
            final(self).book() == ledger::lend(old(self).book(), *who, give),
    ;

    /// Take `amount` unused rights back from `who`. Pairs with
    /// [`Escrow::reclaim`](crate::Escrow::reclaim), which computes how much is safe to return.
    fn reclaim(&mut self, who: &Id, amount: u64)
        requires
            old(self).valid(),
        ensures
            final(self).valid(),
            final(self).ceiling() == old(self).ceiling(),
            amount <= ledger::held(old(self).book(), *who) ==> final(self).book()
                == ledger::take_back(old(self).book(), *who, amount),
    ;

    /// Rights free to lend: the ceiling minus the total lent.
    fn available(&self) -> (room: u64)
        requires
            self.valid(),
        ensures
            room == ledger::unlent(self.book(), self.ceiling()),
    ;
}

/// A small in-process [`Quota`] for tests and examples. **Not for production**: it is not
/// durable, it is not safe across a leader change, and it has no lease expiry, so a crashed
/// node's grant stays lent until something calls [`reclaim`](Quota::reclaim). The real quota is
/// the server's.
#[derive(Debug)]
pub struct LocalQuota<Id: Ord + Clone> {
    ceiling: u64,
    outstanding: BTreeMap<Id, u64>,
}

impl<Id: Ord + Clone> Clone for LocalQuota<Id> {
    fn clone(&self) -> (copy: Self)
        ensures
            copy.ceiling() == self.ceiling(),
            copy.book() == self.book(),
            copy.valid() == self.valid(),
    {
        LocalQuota { ceiling: self.ceiling, outstanding: self.outstanding.clone() }
    }
}

impl<Id: Ord + Clone> Default for LocalQuota<Id> {
    /// A quota that lends nothing.
    fn default() -> (quota: Self)
        ensures
            quota.ceiling() == 0,
            quota.book() == Map::<Id, u64>::empty(),
            keys::lawful_key::<Id>() ==> quota.valid(),
    {
        LocalQuota::new(0)
    }
}

impl<Id: Ord + Clone> LocalQuota<Id> {
    /// A quota that lends at most `ceiling` in total. Pass the limit plus the overshoot to
    /// allow.
    #[must_use]
    pub fn new(ceiling: u64) -> (quota: Self)
        ensures
            quota.ceiling() == ceiling,
            quota.book() == Map::<Id, u64>::empty(),
            keys::lawful_key::<Id>() ==> quota.valid(),
    {
        let quota = LocalQuota { ceiling, outstanding: BTreeMap::<Id, u64>::new() };
        proof {
            assert(quota.outstanding@.dom() =~= Set::<Id>::empty());
        }
        quota
    }

    /// Total rights lent out across all nodes.
    #[must_use]
    pub fn outstanding(&self) -> (total: u64)
        requires
            self.valid(),
        ensures
            total == ledger::lent(self.book()),
            total <= self.ceiling(),
    {
        total_lent(&self.outstanding)
    }
}

impl<Id: Ord + Clone> Quota<Id> for LocalQuota<Id> {
    closed spec fn valid(&self) -> bool {
        keys::lawful_key::<Id>() && ledger::lent(self.outstanding@) <= self.ceiling
    }

    closed spec fn ceiling(&self) -> u64 {
        self.ceiling
    }

    closed spec fn book(&self) -> Map<Id, u64> {
        self.outstanding@
    }

    /// All that was asked for, or all that is left if that is less.
    open spec fn lends(&self, who: Id, want: u64, give: u64) -> bool {
        give == if want <= ledger::unlent(self.book(), self.ceiling()) {
            want as nat
        } else {
            ledger::unlent(self.book(), self.ceiling())
        }
    }

    proof fn lends_within_its_ceiling(&self) {
    }

    /// Lends `want`, or all that is left if that is less.
    fn grant(&mut self, who: &Id, want: u64) -> (give: u64) {
        lend_within(&mut self.outstanding, self.ceiling, who, want)
    }

    /// Takes `amount` back, or all that `who` holds if that is less.
    fn reclaim(&mut self, who: &Id, amount: u64)
        ensures
            final(self).book() == ledger::take_back(old(self).book(), *who, amount),
    {
        take_back_from(&mut self.outstanding, who, amount);
    }

    fn available(&self) -> (room: u64) {
        self.ceiling.saturating_sub(self.outstanding())
    }
}

/// What the reference quota lends is no more than was asked for, no more than is left, and one of
/// the two: it never holds back.
pub proof fn law_a_loan_is_all_that_was_asked_or_all_that_is_left<Id: Ord + Clone>(
    quota: LocalQuota<Id>,
    who: Id,
    want: u64,
    give: u64,
)
    requires
        quota.lends(who, want, give),
    ensures
        give <= want,
        ledger::lent(quota.book()) <= quota.ceiling() ==> ledger::lent(quota.book()) + give
            <= quota.ceiling(),
        give < want && ledger::lent(quota.book()) <= quota.ceiling() ==> ledger::lent(quota.book())
            + give == quota.ceiling(),
{
}

} // verus!
