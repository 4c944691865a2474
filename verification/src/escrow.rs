//! The escrow counter: a node spends only the rights it has been lent.
//!
//! Where a [`BCounter`](crate::BCounter) admits a write against the usage it has heard of, an
//! [`Escrow`] admits it against a *grant*, a slice of the budget that a
//! [`Quota`] has lent to this node and to no other. The check needs no view of
//! other nodes:
//!
//! ```text
//!   acquire admitted  <=>  net used on this node + amount <= granted to this node
//! ```
//!
//! The quota never lends more than its ceiling and no node uses more than its grant, so the
//! ceiling is never exceeded. The cost is the false denial: a node that has used up its grant
//! refuses a write even when another node holds unused rights.
//!
//! Each counter also keeps every node's usage it has heard of, its own slot and the slots
//! reported to it. That map only ever grows, and merges by taking the larger value in each slot,
//! so a report may come by any route and any number of times, and no node is counted twice.

use std::collections::BTreeMap;

use vstd::prelude::*;
use vstd::std_specs::btree::increasing_seq;
use vstd::std_specs::iter::IteratorSpec;

use crate::counter::Denied;
use crate::keys::{self, copy_key, entries};
use crate::ledger;
use crate::quota::Quota;
use crate::slots::{self, charge_slot, credit_slot, raise_slot, read_slots, slot_of, SlotState};
use crate::sums;

verus! {

/// A counter that spends only what it has been granted.
#[derive(Debug, PartialEq, Eq)]
pub struct Escrow<Id: Ord + Clone = u32> {
    /// This node's slot -- the only one it writes.
    me: Id,
    /// Rights lent to this node.
    granted: u64,
    /// Every node's usage this one has heard of.
    slots: BTreeMap<Id, SlotState>,
}

/// What an [`Escrow`] is: a node, the rights it was lent, and the usage it has heard of.
#[verifier::ext_equal]
#[verifier::reject_recursive_types(Id)]
pub struct EscrowView<Id> {
    /// The node.
    pub me: Id,
    /// Rights lent to it.
    pub granted: u64,
    /// Every usage heard of.
    pub slots: Map<Id, SlotState>,
}

/// What a slot has in use: acquired less released, and zero where more was released.
pub open spec fn in_use(slot: SlotState) -> u64 {
    if slot.consumed >= slot.freed {
        (slot.consumed - slot.freed) as u64
    } else {
        0
    }
}

impl<Id> EscrowView<Id> {
    /// A node that has been lent `granted` and has used nothing.
    pub open spec fn fresh(me: Id, granted: u64) -> Self {
        EscrowView { me, granted, slots: Map::empty() }
    }

    /// This node's own slot.
    pub open spec fn own(self) -> SlotState {
        slots::slot_at(self.slots, self.me)
    }

    /// What this node has in use.
    pub open spec fn used(self) -> u64 {
        in_use(self.own())
    }

    /// Rights this node holds and does not use.
    pub open spec fn room(self) -> u64 {
        if self.used() <= self.granted {
            (self.granted - self.used()) as u64
        } else {
            0
        }
    }

    /// The node uses no more than it was lent.
    pub open spec fn within_grant(self) -> bool {
        self.used() <= self.granted
    }

    /// The node can acquire `amount` out of what it was lent.
    pub open spec fn admits(self, amount: u64) -> bool {
        self.used() + amount <= self.granted
    }

    /// The node after it was lent `amount` more.
    pub open spec fn grant(self, amount: u64) -> Self {
        EscrowView { granted: (self.granted + amount) as u64, ..self }
    }

    /// The node after it acquired `amount`.
    pub open spec fn charge(self, amount: u64) -> Self {
        EscrowView { slots: slots::charge(self.slots, self.me, amount), ..self }
    }

    /// The node after `amount` was asked of it: charged if it holds the rights, and as it was
    /// if it does not.
    pub open spec fn offer(self, amount: u64) -> Self {
        if self.admits(amount) {
            self.charge(amount)
        } else {
            self
        }
    }

    /// The node after it released `amount`.
    pub open spec fn credit(self, amount: u64) -> Self {
        EscrowView { slots: slots::credit(self.slots, self.me, amount), ..self }
    }

    /// How far the rights held fall short of `amount`.
    pub open spec fn shortfall(self, amount: u64) -> u64 {
        if self.room() < amount {
            (amount - self.room()) as u64
        } else {
            0
        }
    }

    /// The most that `quota` can lend towards `amount`: what the rights held fall short of it, or
    /// all that is left if that is less.
    pub open spec fn drawable<Q: Quota<Id>>(self, amount: u64, quota: Q) -> nat {
        let left = ledger::unlent(quota.book(), quota.ceiling());
        if self.shortfall(amount) <= left {
            self.shortfall(amount) as nat
        } else {
            left
        }
    }
}

/// One line of a report as a slot.
pub open spec fn line_slot<Id>(line: (Id, u64, u64)) -> SlotState {
    SlotState { consumed: line.1, freed: line.2 }
}

/// `slots` after every line of `report` was taken in: per slot, the larger totals win.
pub open spec fn absorb<Id>(
    slots: Map<Id, SlotState>,
    report: Seq<(Id, u64, u64)>,
) -> Map<Id, SlotState>
    decreases report.len(),
{
    if report.len() == 0 {
        slots
    } else {
        let before = absorb(slots, report.drop_last());
        let line = report.last();
        before.insert(line.0, slots::slot_at(before, line.0).join(line_slot(line)))
    }
}

/// Every line of `report` about `id` says no more than `slot`.
pub open spec fn says_no_more_of<Id>(
    report: Seq<(Id, u64, u64)>,
    id: Id,
    slot: SlotState,
) -> bool {
    forall|k: int|
        0 <= k < report.len() && (#[trigger] report[k]).0 == id ==> line_slot(report[k]).le(slot)
}

/// The nodes a report speaks of, in report order.
pub open spec fn report_ids<Id>(report: Seq<(Id, u64, u64)>) -> Seq<Id> {
    report.map_values(|line: (Id, u64, u64)| line.0)
}

/// `report` lists every slot of `slots`, each once, in node order.
pub open spec fn reports<Id>(report: Seq<(Id, u64, u64)>, slots: Map<Id, SlotState>) -> bool {
    &&& increasing_seq(report_ids(report))
    &&& report_ids(report).no_duplicates()
    &&& report_ids(report).to_set() == slots.dom()
    &&& forall|i: int|
        0 <= i < report.len() ==> slots[(#[trigger] report[i]).0] == line_slot(report[i])
}

impl<Id: Ord + Clone> View for Escrow<Id> {
    type V = EscrowView<Id>;

    closed spec fn view(&self) -> EscrowView<Id> {
        EscrowView { me: self.me, granted: self.granted, slots: self.slots@ }
    }
}

impl<Id: Ord + Clone> Clone for Escrow<Id> {
    fn clone(&self) -> (copy: Self)
        ensures
            keys::lawful_key::<Id>() ==> copy@ == self@,
    {
        let me = self.me.clone();
        proof {
            assert(cloned(self.me, me));
        }
        Escrow { me, granted: self.granted, slots: self.slots.clone() }
    }
}

impl<Id: Ord + Clone> Escrow<Id> {
    /// A counter for the node identified by `me`, holding `granted` rights and using none.
    #[must_use]
    pub fn new(me: Id, granted: u64) -> (counter: Self)
        ensures
            counter@ == EscrowView::fresh(me, granted),
            counter@.within_grant(),
    {
        Escrow { me, granted, slots: BTreeMap::new() }
    }

    /// Rights lent to this node.
    #[must_use]
    pub fn granted(&self) -> (granted: u64)
        ensures
            granted == self@.granted,
    {
        self.granted
    }

    /// Take in `amount` more rights, lent by the quota.
    pub fn grant(&mut self, amount: u64)
        requires
            old(self)@.granted + amount <= u64::MAX,
        ensures
            final(self)@ == old(self)@.grant(amount),
            old(self)@.within_grant() ==> final(self)@.within_grant(),
    {
        self.granted = self.granted + amount;
    }

    /// What this node has in use.
    fn used(&self) -> (used: u64)
        requires
            keys::lawful_key::<Id>(),
        ensures
            used == self@.used(),
    {
        let own = slot_of(&self.slots, &self.me);
        own.consumed.saturating_sub(own.freed)
    }

    /// Rights this node holds and does not use: what it can acquire without asking anyone.
    #[must_use]
    pub fn local_available(&self) -> (room: u64)
        requires
            keys::lawful_key::<Id>(),
        ensures
            room == self@.room(),
    {
        self.granted.saturating_sub(self.used())
    }

    /// Spend `amount` of the rights this node holds.
    ///
    /// # Errors
    ///
    /// [`Denied`] when the node does not hold that many unused rights, with how many it does.
    pub fn acquire(&mut self, amount: u64) -> (outcome: Result<(), Denied>)
        requires
            keys::lawful_key::<Id>(),
            old(self)@.admits(amount) ==> old(self)@.own().consumed + amount <= u64::MAX,
        ensures
            outcome is Ok <==> old(self)@.admits(amount),
            outcome is Ok ==> final(self)@ == old(self)@.charge(amount),
            outcome is Ok ==> final(self)@.within_grant(),
            outcome is Err ==> final(self)@ == old(self)@,
            outcome is Err ==> outcome == Err::<(), _>(Denied { available: old(self)@.room() }),
    {
        let used: u64 = self.used();
        if (used as u128) + (amount as u128) <= (self.granted as u128) {
            let me = copy_key(&self.me);
            charge_slot(&mut self.slots, &me, amount);
            Ok(())
        } else {
            Err(Denied { available: self.local_available() })
        }
    }

    /// Return `amount` that was in use -- a delete. The rights stay with this node.
    pub fn release(&mut self, amount: u64)
        requires
            keys::lawful_key::<Id>(),
        ensures
            final(self)@ == old(self)@.credit(amount),
            old(self)@.within_grant() ==> final(self)@.within_grant(),
    {
        let me = copy_key(&self.me);
        credit_slot(&mut self.slots, &me, amount);
    }

    /// Give up to `want` unused rights back, and say how many: what is safe to hand to
    /// [`Quota::reclaim`].
    pub fn reclaim(&mut self, want: u64) -> (given: u64)
        requires
            keys::lawful_key::<Id>(),
        ensures
            given == if want <= old(self)@.room() {
                want
            } else {
                old(self)@.room()
            },
            final(self)@ == (EscrowView {
                granted: (old(self)@.granted - given) as u64,
                ..old(self)@
            }),
            final(self)@.granted + given == old(self)@.granted,
            old(self)@.within_grant() ==> final(self)@.within_grant(),
    {
        let room: u64 = self.local_available();
        let given: u64 = if want <= room { want } else { room };
        self.granted = self.granted - given;
        given
    }

    /// Acquire `amount`, asking `quota` for what the rights held fall short of it, and for nothing
    /// where they suffice.
    ///
    /// Rights the quota lends stay with this node even where they do not suffice.
    ///
    /// # Errors
    ///
    /// [`Denied`] when the node is short and the quota did not lend enough.
    pub fn draw<Q: Quota<Id>>(&mut self, quota: &mut Q, amount: u64) -> (outcome: Result<
        (),
        Denied,
    >)
        requires
            keys::lawful_key::<Id>(),
            old(quota).valid(),
            old(self)@.granted + old(self)@.drawable(amount, *old(quota)) <= u64::MAX,
            old(self)@.used() + amount <= old(self)@.granted + old(self)@.drawable(
                amount,
                *old(quota),
            ) ==> old(self)@.own().consumed + amount <= u64::MAX,
        ensures
            final(quota).valid(),
            final(quota).ceiling() == old(quota).ceiling(),
            final(self)@.granted >= old(self)@.granted,
            old(self)@.room() >= amount ==> final(self)@.granted == old(self)@.granted,
            old(self)@.room() < amount ==> old(quota).lends(
                old(self)@.me,
                old(self)@.shortfall(amount),
                (final(self)@.granted - old(self)@.granted) as u64,
            ),
            final(self)@.granted - old(self)@.granted <= old(self)@.shortfall(amount),
            final(self)@.granted - old(self)@.granted <= ledger::unlent(
                old(quota).book(),
                old(quota).ceiling(),
            ),
            final(quota).book() == ledger::lend(
                old(quota).book(),
                old(self)@.me,
                (final(self)@.granted - old(self)@.granted) as u64,
            ),
            final(self)@.me == old(self)@.me,
            outcome is Ok <==> old(self)@.used() + amount <= final(self)@.granted,
            outcome is Ok ==> final(self)@.slots == slots::charge(
                old(self)@.slots,
                old(self)@.me,
                amount,
            ),
            outcome is Err ==> final(self)@.slots == old(self)@.slots,
            outcome is Err ==> outcome == Err::<(), _>(
                Denied { available: final(self)@.room() },
            ),
            outcome is Err && old(self)@.within_grant() && final(self)@.granted - old(self)@.granted
                == old(self)@.drawable(amount, *old(quota)) ==> ledger::unlent(
                final(quota).book(),
                final(quota).ceiling(),
            ) == 0,
            old(self)@.within_grant() ==> final(self)@.within_grant(),
    {
        proof {
            quota.lends_within_its_ceiling();
            let give = old(self)@.drawable(amount, *old(quota));
            if old(self)@.within_grant() && !old(self)@.grant(give as u64).admits(amount) {
                lemma_short_of_all_there_is(
                    old(self)@,
                    quota.book(),
                    quota.ceiling(),
                    amount,
                    give as u64,
                );
            }
        }
        let room: u64 = self.local_available();
        if room < amount {
            let got: u64 = quota.grant(&self.me, amount - room);
            self.grant(got);
        }
        self.acquire(amount)
    }

    /// Usage across the cluster, as far as it has been reported to this node.
    #[must_use]
    pub fn global_used(&self) -> (used: u64)
        requires
            keys::lawful_key::<Id>(),
        ensures
            used == slots::reading(self@.slots),
    {
        read_slots(&self.slots)
    }

    /// This node's slots as plain lines `(node, acquired, released)`, in node order: a report.
    #[must_use]
    pub fn delta(&self) -> (report: Vec<(Id, u64, u64)>)
        requires
            keys::lawful_key::<Id>(),
        ensures
            reports(report@, self@.slots),
    {
        let mut report: Vec<(Id, u64, u64)> = Vec::new();
        let iter = entries(&self.slots);
        let ghost walk = iter.remaining();
        for e in it: iter
            invariant
                it.seq() == walk,
                keys::lawful_key::<Id>(),
                keys::walks(walk, self.slots@),
                report@.len() == it.index(),
                forall|i: int|
                    0 <= i < report@.len() ==> (#[trigger] report@[i]).0 == *walk[i].0
                        && line_slot(report@[i]) == *walk[i].1,
        {
            report.push((copy_key(e.0), e.1.consumed, e.1.freed));
        }
        proof {
            assert(report_ids(report@) =~= keys::keys_of(walk));
            assert forall|i: int| 0 <= i < report@.len() implies self.slots@[(
            #[trigger] report@[i]).0] == line_slot(report@[i]) by {
                keys::lemma_walk_step(walk, self.slots@, i);
            }
        }
        report
    }

    /// Merge a report: per slot, the larger totals win. A report that says of this node no more than
    /// it has done leaves its own slot, and so what it may spend, as it was.
    pub fn apply(&mut self, report: &[(Id, u64, u64)])
        requires
            keys::lawful_key::<Id>(),
        ensures
            final(self)@ == (EscrowView {
                slots: absorb(old(self)@.slots, report@),
                ..old(self)@
            }),
            says_no_more_of(report@, old(self)@.me, old(self)@.own()) ==> {
                &&& final(self)@.own() == old(self)@.own()
                &&& final(self)@.room() == old(self)@.room()
                &&& old(self)@.within_grant() ==> final(self)@.within_grant()
            },
    {
        proof {
            if says_no_more_of(report@, self@.me, self@.own()) {
                lemma_absorb_keeps(self@.slots, report@, self@.me);
            }
        }
        let ghost base = self@;
        let mut i: usize = 0;
        while i < report.len()
            invariant
                keys::lawful_key::<Id>(),
                i <= report@.len(),
                self@ == (EscrowView { slots: absorb(base.slots, report@.take(i as int)), ..base }),
            decreases report.len() - i,
        {
            let floor = SlotState { consumed: report[i].1, freed: report[i].2 };
            raise_slot(&mut self.slots, &report[i].0, floor);
            proof {
                assert(report@.take(i + 1).drop_last() =~= report@.take(i as int));
            }
            i += 1;
        }
        proof {
            assert(report@.take(i as int) =~= report@);
        }
    }
}

impl<Id: Ord + Clone> Escrow<Id> {
    /// A counter holds finitely many slots.
    pub proof fn law_slots_are_finite(&self)
        ensures
            self@.slots.dom().finite(),
    {
    }
}

/// An acquisition raises the usage this node reports by exactly its amount, where no more was
/// reported released than acquired and the figure fits.
pub proof fn law_an_acquire_adds_its_amount<Id>(node: EscrowView<Id>, amount: u64)
    requires
        node.slots.dom().finite(),
        slots::credited(node.slots) <= slots::charged(node.slots),
        slots::net(node.slots) + amount <= u64::MAX,
        node.own().consumed + amount <= u64::MAX,
    ensures
        slots::reading(node.charge(amount).slots) == slots::reading(node.slots) + amount,
{
    slots::lemma_totals_after_put(
        node.slots,
        node.me,
        slots::charge(node.slots, node.me, amount)[node.me],
    );
}

/// A report loses nothing: what was recorded stays, and every line is recorded.
pub proof fn lemma_absorb_grows<Id>(slots: Map<Id, SlotState>, report: Seq<(Id, u64, u64)>)
    ensures
        slots::within(slots, absorb(slots, report)),
        forall|i: int|
            0 <= i < report.len() ==> absorb(slots, report).contains_key((#[trigger] report[i]).0)
                && line_slot(report[i]).le(absorb(slots, report)[report[i].0]),
    decreases report.len(),
{
    if report.len() > 0 {
        let front = report.drop_last();
        lemma_absorb_grows(slots, front);
        assert forall|i: int| 0 <= i < report.len() implies absorb(slots, report).contains_key(
            (#[trigger] report[i]).0,
        ) && line_slot(report[i]).le(absorb(slots, report)[report[i].0]) by {
            if i < front.len() {
                assert(front[i] == report[i]);
            }
        }
    }
}

/// A report that says no more of a node than is recorded leaves the node's slot as it was.
pub proof fn lemma_absorb_keeps<Id>(
    slots: Map<Id, SlotState>,
    report: Seq<(Id, u64, u64)>,
    id: Id,
)
    requires
        says_no_more_of(report, id, slots::slot_at(slots, id)),
    ensures
        slots::slot_at(absorb(slots, report), id) == slots::slot_at(slots, id),
    decreases report.len(),
{
    if report.len() > 0 {
        let front = report.drop_last();
        assert forall|k: int| 0 <= k < front.len() && (#[trigger] front[k]).0 == id implies line_slot(
            front[k],
        ).le(slots::slot_at(slots, id)) by {
            assert(report[k] == front[k]);
        }
        lemma_absorb_keeps(slots, front, id);
        assert(report[report.len() - 1] == report.last());
    }
}

/// A report stays below any state that both the receiver and every line of it stay below.
pub proof fn lemma_absorb_bounded<Id>(
    slots: Map<Id, SlotState>,
    report: Seq<(Id, u64, u64)>,
    bound: Map<Id, SlotState>,
)
    requires
        slots::within(slots, bound),
        forall|i: int|
            0 <= i < report.len() ==> bound.contains_key((#[trigger] report[i]).0) && line_slot(
                report[i],
            ).le(bound[report[i].0]),
    ensures
        slots::within(absorb(slots, report), bound),
    decreases report.len(),
{
    if report.len() > 0 {
        let front = report.drop_last();
        assert forall|i: int| 0 <= i < front.len() implies bound.contains_key(
            (#[trigger] front[i]).0,
        ) && line_slot(front[i]).le(bound[front[i].0]) by {
            assert(front[i] == report[i]);
        }
        lemma_absorb_bounded(slots, front, bound);
        assert(bound.contains_key(report[report.len() - 1].0));
    }
}

/// A report carries a merge: taking in a node's report is the same as merging its state.
pub proof fn law_a_report_carries_a_merge<Id>(
    mine: Map<Id, SlotState>,
    theirs: Map<Id, SlotState>,
    report: Seq<(Id, u64, u64)>,
)
    requires
        reports(report, theirs),
    ensures
        absorb(mine, report) == slots::join(mine, theirs),
{
    let joined = slots::join(mine, theirs);
    let got = absorb(mine, report);
    assert forall|i: int| 0 <= i < report.len() implies joined.contains_key((#[trigger] report[i]).0)
        && line_slot(report[i]).le(joined[report[i].0]) by {
        assert(report_ids(report)[i] == report[i].0);
        assert(report_ids(report).to_set().contains(report[i].0));
    }
    lemma_absorb_bounded(mine, report, joined);
    lemma_absorb_grows(mine, report);
    assert forall|id: Id| #[trigger] theirs.contains_key(id) implies got.contains_key(id)
        && theirs[id].le(got[id]) by {
        assert(report_ids(report).to_set().contains(id));
        let i = choose|i: int| 0 <= i < report_ids(report).len() && report_ids(report)[i] == id;
        assert(report[i].0 == id);
    }
    slots::law_join_is_the_least_upper_bound(mine, theirs, got);
    assert forall|id: Id| got.contains_key(id) <==> joined.contains_key(id) by {}
    assert forall|id: Id| got.contains_key(id) implies got[id] == joined[id] by {}
    assert(got =~= joined);
}

/// A report of nothing new changes nothing: the same report again, or any report that stays
/// below what is recorded already.
pub proof fn law_a_known_report_changes_nothing<Id>(
    slots: Map<Id, SlotState>,
    report: Seq<(Id, u64, u64)>,
)
    requires
        forall|i: int|
            0 <= i < report.len() ==> slots.contains_key((#[trigger] report[i]).0) && line_slot(
                report[i],
            ).le(slots[report[i].0]),
    ensures
        absorb(slots, report) == slots,
{
    lemma_absorb_bounded(slots, report, slots);
    lemma_absorb_grows(slots, report);
    let got = absorb(slots, report);
    assert forall|id: Id| got.contains_key(id) <==> slots.contains_key(id) by {}
    assert forall|id: Id| got.contains_key(id) implies got[id] == slots[id] by {}
    assert(got =~= slots);
}

/// A [`LocalQuota`](crate::LocalQuota) refuses a draw only when the node's own rights and the quota are both
/// exhausted. Where the quota may lend `give` towards what the node is short of, and the node with
/// that still cannot acquire, the quota's book once `give` is booked leaves nothing to lend.
/// [`Escrow::draw`] lends and books exactly so, and states the same of every quota that lends all
/// it can.
pub proof fn law_a_refused_draw_leaves_nothing_to_lend<Id: Ord + Clone>(
    node: EscrowView<Id>,
    quota: crate::quota::LocalQuota<Id>,
    amount: u64,
    give: u64,
)
    requires
        node.within_grant(),
        quota.valid(),
        node.room() < amount,
        quota.lends(node.me, node.shortfall(amount), give),
        node.granted + give <= u64::MAX,
        !node.grant(give).admits(amount),
    ensures
        ledger::unlent(ledger::lend(quota.book(), node.me, give), quota.ceiling()) == 0,
{
    quota.lends_within_its_ceiling();
    lemma_short_of_all_there_is(node, quota.book(), quota.ceiling(), amount, give);
}

/// A node that is short even of `amount` once it was lent all that could be lent towards it has left
/// nothing to lend.
proof fn lemma_short_of_all_there_is<Id>(
    node: EscrowView<Id>,
    book: Map<Id, u64>,
    ceiling: u64,
    amount: u64,
    give: u64,
)
    requires
        node.within_grant(),
        node.granted + give <= u64::MAX,
        book.dom().finite(),
        ledger::lent(book) <= ceiling,
        give == if node.shortfall(amount) <= ledger::unlent(book, ceiling) {
            node.shortfall(amount) as nat
        } else {
            ledger::unlent(book, ceiling)
        },
        !node.grant(give).admits(amount),
    ensures
        ledger::unlent(ledger::lend(book, node.me, give), ceiling) == 0,
{
    ledger::lemma_lent_after_put(
        book,
        node.me,
        (ledger::held(book, node.me) + give) as u64,
    );
}

/// Returning what was acquired undoes the acquisition: the node has in use, and in reserve, what
/// it had.
pub proof fn law_a_release_undoes_an_acquire<Id>(node: EscrowView<Id>, amount: u64)
    requires
        node.own().consumed + amount <= u64::MAX,
        node.own().freed + amount <= u64::MAX,
    ensures
        node.charge(amount).credit(amount).used() == node.used(),
        node.charge(amount).credit(amount).room() == node.room(),
        node.charge(amount).credit(amount).granted == node.granted,
{
}

/// The usage of a whole cluster: each node's own slot.
pub open spec fn true_usage<Id>(nodes: Map<Id, EscrowView<Id>>) -> Map<Id, SlotState> {
    nodes.map_values(|n: EscrowView<Id>| n.own())
}

/// The limit is never exceeded. Where every node uses no more than it was lent, and was lent no
/// more than the quota's book shows, and the book is within the ceiling, then what all nodes
/// use together is within the ceiling -- node by node, and as the cluster-wide net.
pub proof fn law_the_ceiling_is_never_exceeded<Id>(
    nodes: Map<Id, EscrowView<Id>>,
    book: Map<Id, u64>,
    ceiling: u64,
)
    requires
        nodes.dom().finite(),
        book.dom().finite(),
        forall|id: Id| #[trigger]
            nodes.contains_key(id) ==> nodes[id].within_grant() && nodes[id].granted
                <= ledger::held(book, id),
        ledger::lent(book) <= ceiling,
    ensures
        sums::sum(nodes.dom(), |id: Id| nodes[id].used() as nat) <= sums::sum(
            nodes.dom(),
            |id: Id| nodes[id].granted as nat,
        ),
        sums::sum(nodes.dom(), |id: Id| nodes[id].granted as nat) <= ceiling,
        slots::net(true_usage(nodes)) <= ceiling,
{
    let used = |id: Id| nodes[id].used() as nat;
    let granted = |id: Id| nodes[id].granted as nat;
    let booked = |id: Id| ledger::held(book, id) as nat;
    sums::lemma_sum_monotone(nodes.dom(), used, granted);
    sums::lemma_sum_monotone(nodes.dom(), granted, booked);
    lemma_booked_within(nodes.dom(), book);
    let truth = true_usage(nodes);
    assert(truth.dom() =~= nodes.dom());
    let c = |id: Id| truth[id].consumed as nat;
    let f = |id: Id| truth[id].freed as nat;
    lemma_net_of_sums(nodes.dom(), c, f, used);
}

/// What the book shows for some nodes is no more than what it shows for all.
proof fn lemma_booked_within<Id>(ids: Set<Id>, book: Map<Id, u64>)
    requires
        ids.finite(),
        book.dom().finite(),
    ensures
        sums::sum(ids, |id: Id| ledger::held(book, id) as nat) <= ledger::lent(book),
{
    let all = ids.union(book.dom());
    let booked = |id: Id| ledger::held(book, id) as nat;
    let entry = |id: Id| book[id] as nat;
    sums::lemma_sum_subset(ids, all, booked);
    sums::lemma_sum_ignores_zeros(all, book.dom(), booked);
    sums::lemma_sum_congruent(book.dom(), booked, entry);
}

/// The difference of two sums is no more than the sum of the differences, each taken as zero
/// where it would be negative.
proof fn lemma_net_of_sums<Id>(
    ids: Set<Id>,
    c: spec_fn(Id) -> nat,
    f: spec_fn(Id) -> nat,
    d: spec_fn(Id) -> nat,
)
    requires
        forall|id: Id| #[trigger] ids.contains(id) ==> c(id) <= f(id) + d(id),
    ensures
        sums::sum(ids, c) <= sums::sum(ids, f) + sums::sum(ids, d),
    decreases ids.len(),
{
    if ids.finite() && ids.len() > 0 {
        let id = ids.choose();
        assert(ids.contains(id));
        lemma_net_of_sums(ids.remove(id), c, f, d);
    }
}

/// What a node uses and what it has released make up what it has acquired; it uses nothing where
/// it has released as much as it acquired, or more.
pub proof fn law_usage_and_releases_make_up_what_was_acquired<Id>(node: EscrowView<Id>)
    ensures
        node.slots.contains_key(node.me) && node.slots[node.me].freed
            <= node.slots[node.me].consumed ==> node.used() + node.slots[node.me].freed
            == node.slots[node.me].consumed,
        node.slots.contains_key(node.me) && node.slots[node.me].freed
            >= node.slots[node.me].consumed ==> node.used() == 0,
        !node.slots.contains_key(node.me) ==> node.used() == 0,
{
}

/// The room and the usage make up the rights; there is no room where the usage has reached them.
pub proof fn law_room_and_usage_make_up_the_rights<Id>(node: EscrowView<Id>)
    ensures
        node.used() <= node.granted ==> node.room() + node.used() == node.granted,
        node.used() >= node.granted ==> node.room() == 0,
{
}

/// An acquisition is admitted exactly where it fits in the room; past the rights nothing is.
pub proof fn law_an_acquire_is_admitted_where_there_is_room<Id>(node: EscrowView<Id>, amount: u64)
    ensures
        node.used() <= node.granted ==> (node.admits(amount) <==> amount <= node.room()),
        node.used() > node.granted ==> !node.admits(amount),
        node.admits(amount) ==> node.offer(amount) == node.charge(amount),
        !node.admits(amount) ==> node.offer(amount) == node,
{
}

/// A loan adds to the rights, and so to the room, and touches no usage.
pub proof fn law_a_grant_adds_rights<Id>(node: EscrowView<Id>, amount: u64)
    requires
        node.granted + amount <= u64::MAX,
    ensures
        node.grant(amount).me == node.me,
        node.grant(amount).slots == node.slots,
        node.grant(amount).granted == node.granted + amount,
        node.used() <= node.granted ==> node.grant(amount).room() == node.room() + amount,
{
}

/// An acquisition lands on the node's own slot, out of its room; neither its rights nor another
/// node's slot moves.
pub proof fn law_an_acquire_lands_on_the_nodes_own_slot<Id>(node: EscrowView<Id>, amount: u64)
    requires
        node.slots.contains_key(node.me) ==> node.slots[node.me].consumed + amount <= u64::MAX,
    ensures
        node.charge(amount).me == node.me,
        node.charge(amount).granted == node.granted,
        node.charge(amount).slots.contains_key(node.me),
        node.charge(amount).slots.remove(node.me) == node.slots.remove(node.me),
        node.slots.contains_key(node.me) ==> node.charge(amount).slots[node.me].consumed
            == node.slots[node.me].consumed + amount && node.charge(amount).slots[node.me].freed
            == node.slots[node.me].freed,
        !node.slots.contains_key(node.me) ==> node.charge(amount).slots[node.me].consumed == amount
            && node.charge(amount).slots[node.me].freed == 0,
        node.admits(amount) && (node.slots.contains_key(node.me) ==> node.slots[node.me].freed
            <= node.slots[node.me].consumed) ==> node.charge(amount).room() + amount == node.room(),
{
    slots::law_a_write_moves_one_figure(node.slots, node.me, amount);
}

/// A release lands on the node's own slot and gives the room back; neither its rights nor another
/// node's slot moves.
pub proof fn law_a_release_lands_on_the_nodes_own_slot<Id>(node: EscrowView<Id>, amount: u64)
    ensures
        node.credit(amount).me == node.me,
        node.credit(amount).granted == node.granted,
        node.credit(amount).slots.contains_key(node.me),
        node.credit(amount).slots.remove(node.me) == node.slots.remove(node.me),
        node.slots.contains_key(node.me) ==> node.credit(amount).slots[node.me].consumed
            == node.slots[node.me].consumed,
        node.slots.contains_key(node.me) && node.slots[node.me].freed + amount <= u64::MAX
            ==> node.credit(amount).slots[node.me].freed == node.slots[node.me].freed + amount,
        !node.slots.contains_key(node.me) ==> node.credit(amount).slots[node.me].consumed == 0
            && node.credit(amount).slots[node.me].freed == amount,
        amount <= node.used() <= node.granted ==> node.credit(amount).room() == node.room()
            + amount,
        node.used() <= amount ==> node.credit(amount).room() == node.granted,
{
    slots::law_a_free_moves_one_figure(node.slots, node.me, amount);
}

/// The shortfall is what is missing from the room, and what can be drawn is no more than that, no
/// more than is left to lend, and one of the two.
pub proof fn law_a_shortfall_is_what_the_room_lacks<Id, Q: Quota<Id>>(
    node: EscrowView<Id>,
    amount: u64,
    quota: Q,
)
    ensures
        node.room() <= amount ==> node.room() + node.shortfall(amount) == amount,
        node.room() >= amount ==> node.shortfall(amount) == 0,
        node.drawable(amount, quota) <= node.shortfall(amount),
        node.drawable(amount, quota) <= ledger::unlent(quota.book(), quota.ceiling()),
        node.drawable(amount, quota) == node.shortfall(amount) || node.drawable(amount, quota)
            == ledger::unlent(quota.book(), quota.ceiling()),
{
}

/// The line of a report is about the node it names, and speaks of what that node acquired and then
/// of what it released.
pub proof fn law_a_report_names_acquired_and_released<Id>(
    report: Seq<(Id, u64, u64)>,
    slots: Map<Id, SlotState>,
)
    requires
        reports(report, slots),
    ensures
        forall|i: int|
            0 <= i < report.len() ==> slots.contains_key((#[trigger] report[i]).0) && report[i].1
                == slots[report[i].0].consumed && report[i].2 == slots[report[i].0].freed,
        forall|id: Id| #[trigger]
            slots.contains_key(id) ==> exists|i: int|
                0 <= i < report.len() && (#[trigger] report[i]).0 == id,
        forall|i: int, j: int|
            0 <= i < report.len() && 0 <= j < report.len() && (#[trigger] report[i]).0 == (
            #[trigger] report[j]).0 ==> i == j,
        increasing_seq(report.map_values(|line: (Id, u64, u64)| line.0)),
{
    let ids = report_ids(report);
    assert forall|i: int| 0 <= i < report.len() implies slots.contains_key((#[trigger] report[i]).0)
        && report[i].1 == slots[report[i].0].consumed && report[i].2
        == slots[report[i].0].freed by {
        assert(ids.to_set().contains(ids[i]));
        assert(line_slot(report[i]) == slots[report[i].0]);
    }
    assert forall|id: Id| #[trigger] slots.contains_key(id) implies exists|i: int|
        0 <= i < report.len() && (#[trigger] report[i]).0 == id by {
        assert(ids.to_set().contains(id));
        let i = choose|i: int| 0 <= i < ids.len() && ids[i] == id;
        assert(report[i].0 == id);
    }
    assert forall|i: int, j: int|
        0 <= i < report.len() && 0 <= j < report.len() && (#[trigger] report[i]).0 == (
        #[trigger] report[j]).0 implies i == j by {
        assert(ids[i] == ids[j]);
    }
}

/// What a report leaves of each slot: totals no smaller than were recorded, no smaller than any
/// line about it, and each one that was recorded or that a line names; and no slot that was neither
/// recorded nor named.
pub proof fn law_a_report_raises_totals_to_its_lines<Id>(
    slots: Map<Id, SlotState>,
    report: Seq<(Id, u64, u64)>,
)
    ensures
        forall|id: Id| #[trigger]
            slots.contains_key(id) ==> absorb(slots, report).contains_key(id) && absorb(
                slots,
                report,
            )[id].consumed >= slots[id].consumed && absorb(slots, report)[id].freed
                >= slots[id].freed,
        forall|k: int|
            0 <= k < report.len() ==> absorb(slots, report).contains_key((#[trigger] report[k]).0)
                && absorb(slots, report)[report[k].0].consumed >= report[k].1 && absorb(
                slots,
                report,
            )[report[k].0].freed >= report[k].2,
        forall|id: Id| #[trigger]
            absorb(slots, report).contains_key(id) ==> {
                ||| slots.contains_key(id)
                ||| exists|k: int| 0 <= k < report.len() && (#[trigger] report[k]).0 == id
            },
        forall|id: Id| #[trigger]
            absorb(slots, report).contains_key(id) ==> {
                ||| slots.contains_key(id) && absorb(slots, report)[id].consumed
                    == slots[id].consumed
                ||| exists|k: int|
                    0 <= k < report.len() && (#[trigger] report[k]).0 == id && absorb(
                        slots,
                        report,
                    )[id].consumed == report[k].1
            },
        forall|id: Id| #[trigger]
            absorb(slots, report).contains_key(id) ==> {
                ||| slots.contains_key(id) && absorb(slots, report)[id].freed == slots[id].freed
                ||| exists|k: int|
                    0 <= k < report.len() && (#[trigger] report[k]).0 == id && absorb(
                        slots,
                        report,
                    )[id].freed == report[k].2
            },
    decreases report.len(),
{
    lemma_absorb_grows(slots, report);
    if report.len() > 0 {
        let front = report.drop_last();
        law_a_report_raises_totals_to_its_lines(slots, front);
        let mid = absorb(slots, front);
        let after = absorb(slots, report);
        assert(report[report.len() - 1] == report.last());
        assert forall|id: Id| #[trigger] after.contains_key(id) implies {
            ||| slots.contains_key(id) && after[id].consumed == slots[id].consumed
            ||| exists|k: int|
                0 <= k < report.len() && (#[trigger] report[k]).0 == id && after[id].consumed
                    == report[k].1
        } by {
            if mid.contains_key(id) && after[id].consumed == mid[id].consumed {
                if !(slots.contains_key(id) && mid[id].consumed == slots[id].consumed) {
                    let k = choose|k: int|
                        0 <= k < front.len() && (#[trigger] front[k]).0 == id && mid[id].consumed
                            == front[k].1;
                    assert(report[k] == front[k]);
                }
            } else {
                assert(after[id].consumed == report.last().1);
            }
        }
        assert forall|id: Id| #[trigger] after.contains_key(id) implies {
            ||| slots.contains_key(id) && after[id].freed == slots[id].freed
            ||| exists|k: int|
                0 <= k < report.len() && (#[trigger] report[k]).0 == id && after[id].freed
                    == report[k].2
        } by {
            if mid.contains_key(id) && after[id].freed == mid[id].freed {
                if !(slots.contains_key(id) && mid[id].freed == slots[id].freed) {
                    let k = choose|k: int|
                        0 <= k < front.len() && (#[trigger] front[k]).0 == id && mid[id].freed
                            == front[k].2;
                    assert(report[k] == front[k]);
                }
            } else {
                assert(after[id].freed == report.last().2);
            }
        }
    }
}

/// A fresh node holds the rights it was lent and has used none of them.
pub proof fn law_a_fresh_node_is_all_room<Id>(me: Id, granted: u64)
    ensures
        EscrowView::fresh(me, granted).me == me,
        EscrowView::fresh(me, granted).granted == granted,
        EscrowView::fresh(me, granted).slots.dom() == Set::<Id>::empty(),
        EscrowView::fresh(me, granted).room() == granted,
{
    assert(Map::<Id, SlotState>::empty().dom() =~= Set::<Id>::empty());
}

} // verus!
