//! The optimistic capacity counter: one node's view of a cluster-wide usage, and its guard.

use std::collections::BTreeMap;

use vstd::prelude::*;

use crate::keys::{self, copy_key};
use crate::slots::{self, charge_slot, credit_slot, merge_slots, read_slots, SlotState};
use crate::sums;

verus! {

/// A refused write, carrying what the counter believes is still available.
///
/// No `retry_after`: for a capacity quota there is nothing that makes room but a free, and when
/// that happens is not the counter's to predict. The caller answers with a quota error and the
/// `available` figure.
#[derive(Clone, Copy, Debug, PartialEq, Eq, Structural)]
pub struct Denied {
    /// Room left under the limit, from this node's (possibly stale) view. Zero, or small.
    pub available: u64,
}

/// A distributed capacity counter enforcing `net usage <= limit`.
///
/// `Id` is the node identity -- the type that names a replica in your cluster. It defaults to
/// `u32` (a Raft node id, say); use `u64`, a uuid, or any `Ord + Clone` type instead. One
/// counter per limited resource per node. See the crate docs for the model.
#[derive(Debug, PartialEq, Eq)]
pub struct BCounter<Id: Ord + Clone = u32> {
    /// This node's slot -- the only one it writes.
    me: Id,
    /// The ceiling. Config, replicated to every node, not part of the merged state: a
    /// reconfiguration governs the usage already recorded, immediately, because the check reads
    /// the limit afresh every `inc`.
    limit: u64,
    /// Every node's contribution this replica has seen, merged. Sparse: a node appears only
    /// once it has charged or freed.
    slots: BTreeMap<Id, SlotState>,
}

/// What a [`BCounter`] is: a node, a ceiling, and the slots the node has seen.
#[verifier::ext_equal]
#[verifier::reject_recursive_types(Id)]
pub struct CounterView<Id> {
    /// The node whose view this is.
    pub me: Id,
    /// The ceiling in force.
    pub limit: u64,
    /// Every contribution seen.
    pub slots: Map<Id, SlotState>,
}

impl<Id> CounterView<Id> {
    /// A counter that has seen nothing.
    pub open spec fn fresh(me: Id, limit: u64) -> Self {
        CounterView { me, limit, slots: Map::empty() }
    }

    /// This node's own slot.
    pub open spec fn own(self) -> SlotState {
        slots::slot_at(self.slots, self.me)
    }

    /// Net usage as this node sees it.
    pub open spec fn used(self) -> u64 {
        slots::reading(self.slots)
    }

    /// Room left under the limit, as this node sees it.
    pub open spec fn room(self) -> u64 {
        if self.used() <= self.limit {
            (self.limit - self.used()) as u64
        } else {
            0
        }
    }

    /// A write of `amount` leaves the usage seen within the limit.
    pub open spec fn admits(self, amount: u64) -> bool {
        self.used() + amount <= self.limit
    }

    /// The counter after its node has written `amount`.
    pub open spec fn charge(self, amount: u64) -> Self {
        CounterView { slots: slots::charge(self.slots, self.me, amount), ..self }
    }

    /// The counter after its node has freed `amount`.
    pub open spec fn credit(self, amount: u64) -> Self {
        CounterView { slots: slots::credit(self.slots, self.me, amount), ..self }
    }

    /// The counter after a write of `amount` was offered to it: charged if it is admitted, and
    /// as it was if it is refused.
    pub open spec fn offer(self, amount: u64) -> Self {
        if self.admits(amount) {
            self.charge(amount)
        } else {
            self
        }
    }

    /// The counter after it has merged `other`.
    pub open spec fn merge(self, other: Self) -> Self {
        CounterView { slots: slots::join(self.slots, other.slots), ..self }
    }

    /// The counter after it has merged every one of `parts`, first to last.
    pub open spec fn merge_all(self, parts: Seq<Self>) -> Self
        decreases parts.len(),
    {
        if parts.len() == 0 {
            self
        } else {
            self.merge_all(parts.drop_last()).merge(parts.last())
        }
    }
}

impl<Id: Ord + Clone> View for BCounter<Id> {
    type V = CounterView<Id>;

    closed spec fn view(&self) -> CounterView<Id> {
        CounterView { me: self.me, limit: self.limit, slots: self.slots@ }
    }
}

impl<Id: Ord + Clone> Clone for BCounter<Id> {
    fn clone(&self) -> (copy: Self)
        ensures
            keys::lawful_key::<Id>() ==> copy@ == self@,
    {
        let me = self.me.clone();
        proof {
            assert(cloned(self.me, me));
        }
        BCounter { me, limit: self.limit, slots: self.slots.clone() }
    }
}

impl<Id: Ord + Clone> BCounter<Id> {
    /// A fresh counter for the node identified by `me`, with `limit` as the global ceiling.
    #[must_use]
    pub fn new(me: Id, limit: u64) -> (counter: Self)
        ensures
            counter@ == CounterView::fresh(me, limit),
    {
        BCounter { me, limit, slots: BTreeMap::new() }
    }

    /// Replace the ceiling. Governs usage already recorded, at once -- lowering it can put the
    /// counter over, which the next `inc` then refuses until frees bring it back.
    pub fn set_limit(&mut self, limit: u64)
        ensures
            final(self)@ == (CounterView { limit, ..old(self)@ }),
    {
        self.limit = limit;
    }

    /// The ceiling in force.
    #[must_use]
    pub fn limit(&self) -> (limit: u64)
        ensures
            limit == self@.limit,
    {
        self.limit
    }

    /// Net usage across the cluster, from this node's view: everything consumed less
    /// everything freed.
    ///
    /// Saturating at zero: in a stale view a node may have seen more frees than the writes they
    /// undo (a delete gossiped before the write it undoes), which is transient and means
    /// "nothing used", not a negative quantity.
    #[must_use]
    pub fn read(&self) -> (used: u64)
        requires
            keys::lawful_key::<Id>(),
        ensures
            used == self@.used(),
    {
        read_slots(&self.slots)
    }

    /// Room left under the limit, from this node's view. Zero once at or over the limit.
    #[must_use]
    pub fn available(&self) -> (room: u64)
        requires
            keys::lawful_key::<Id>(),
        ensures
            room == self@.room(),
    {
        self.limit.saturating_sub(self.read())
    }

    /// Record a write of `amount` -- the guarded operation. Admitted while this node's view of
    /// the usage leaves room under the limit; refused otherwise, with the room it believes is
    /// left. This is the upper-bounded counter's increment: usage rises, capped by `limit`.
    ///
    /// **Optimistic**: the check is against the *seen* usage, so two nodes writing concurrently
    /// against the same near-full limit can together exceed it -- by at most their mutual
    /// un-gossiped consumption (see the crate docs). The write lands on this node's own slot,
    /// which no other node writes.
    ///
    /// # Errors
    ///
    /// [`Denied`] when the write would breach the limit in this node's view.
    pub fn inc(&mut self, amount: u64) -> (outcome: Result<(), Denied>)
        requires
            keys::lawful_key::<Id>(),
            old(self)@.admits(amount) ==> old(self)@.own().consumed + amount <= u64::MAX,
        ensures
            outcome is Ok <==> old(self)@.admits(amount),
            outcome is Ok ==> final(self)@ == old(self)@.charge(amount),
            outcome is Ok ==> final(self)@.used() <= final(self)@.limit,
            outcome is Err ==> final(self)@ == old(self)@,
            outcome is Err ==> outcome == Err::<(), _>(Denied { available: old(self)@.room() }),
    {
        let used: u128 = self.read() as u128;
        if used + (amount as u128) <= (self.limit as u128) {
            proof {
                slots::lemma_totals_after_put(
                    self.slots@,
                    self.me,
                    slots::charge(self.slots@, self.me, amount)[self.me],
                );
            }
            let me = copy_key(&self.me);
            charge_slot(&mut self.slots, &me, amount);
            Ok(())
        } else {
            Err(Denied { available: self.available() })
        }
    }

    /// Record a free of `amount` -- a delete. The counter's decrement: always succeeds, it can
    /// only lower usage.
    ///
    /// Landed on this node's slot. A node may free what another node wrote (deleting someone
    /// else's object), so a single slot's `freed` may exceed its own `consumed`; only the
    /// cluster-wide sums are constrained, and globally frees never exceed writes. A node's total
    /// of frees stays at the largest figure there is once it has reached it.
    pub fn dec(&mut self, amount: u64)
        requires
            keys::lawful_key::<Id>(),
        ensures
            final(self)@ == old(self)@.credit(amount),
            final(self)@.used() <= old(self)@.used(),
    {
        proof {
            slots::lemma_totals_after_put(
                self.slots@,
                self.me,
                slots::credit(self.slots@, self.me, amount)[self.me],
            );
        }
        let me = copy_key(&self.me);
        credit_slot(&mut self.slots, &me, amount);
    }

    /// Fold another replica's state into this one: the join that makes this a CRDT.
    ///
    /// Per slot, the larger `consumed` and the larger `freed` win -- each is grow-only and
    /// single-writer, so the larger is the newer and nothing is lost. Idempotent (merging the
    /// same state twice is a no-op), commutative and associative, so gossip may arrive in any
    /// order, more than once, and every replica still converges. `me` and `limit` are local
    /// context and are left untouched.
    pub fn merge(&mut self, other: &Self)
        requires
            keys::lawful_key::<Id>(),
        ensures
            final(self)@ == old(self)@.merge(other@),
    {
        merge_slots(&mut self.slots, &other.slots);
    }
}

impl<Id: Ord + Clone> BCounter<Id> {
    /// A counter holds finitely many slots.
    pub proof fn law_slots_are_finite(&self)
        ensures
            self@.slots.dom().finite(),
    {
    }
}

/// A write that is admitted raises the usage by exactly its amount, where the view has seen no
/// more frees than writes and the usage can be told from the largest figure there is.
pub proof fn law_a_write_adds_its_amount<Id>(c: CounterView<Id>, amount: u64)
    requires
        c.slots.dom().finite(),
        slots::credited(c.slots) <= slots::charged(c.slots),
        slots::net(c.slots) <= u64::MAX,
        c.admits(amount),
        c.own().consumed + amount <= u64::MAX,
    ensures
        c.charge(amount).used() == c.used() + amount,
        c.charge(amount).room() == c.room() - amount,
{
    slots::lemma_totals_after_put(
        c.slots,
        c.me,
        slots::charge(c.slots, c.me, amount)[c.me],
    );
}

/// A free undoes a write: after a write and a free of the same amount the usage, and so the
/// room, is what it was.
pub proof fn law_a_free_undoes_a_write<Id>(c: CounterView<Id>, amount: u64)
    requires
        c.slots.dom().finite(),
        c.own().consumed + amount <= u64::MAX,
        c.own().freed + amount <= u64::MAX,
    ensures
        c.charge(amount).credit(amount).used() == c.used(),
        c.charge(amount).credit(amount).room() == c.room(),
{
    let mid = c.charge(amount);
    slots::lemma_totals_after_put(c.slots, c.me, mid.slots[c.me]);
    slots::lemma_totals_after_put(mid.slots, c.me, mid.credit(amount).slots[c.me]);
}

/// What nodes other than `me` have written by `truth` and is not in `seen`.
pub open spec fn unheard<Id>(
    me: Id,
    seen: Map<Id, SlotState>,
    truth: Map<Id, SlotState>,
) -> nat {
    sums::sum(
        truth.dom().remove(me),
        |id: Id| (truth[id].consumed - slots::slot_at(seen, id).consumed) as nat,
    )
}

/// Overshoot is bounded by what was not yet gossiped. Let `truth` hold what every node has done:
/// this node has seen no more of it than there is, and all of its own. When its own view admits a
/// write, the true usage with the write in it exceeds the limit by at most what the other nodes
/// have written and this one has not heard of, whatever was freed meanwhile. An empty write is
/// left out where the usage seen is past the largest figure there is.
pub proof fn law_overshoot_is_at_most_the_unheard<Id>(
    c: CounterView<Id>,
    truth: Map<Id, SlotState>,
    amount: u64,
)
    requires
        truth.dom().finite(),
        slots::within(c.slots, truth),
        c.own() == slots::slot_at(truth, c.me),
        c.admits(amount),
        c.own().consumed + amount <= u64::MAX,
        amount > 0 || slots::net(c.slots) <= u64::MAX,
    ensures
        slots::net(slots::charge(truth, c.me, amount)) <= c.limit + unheard(c.me, c.slots, truth),
{
    let all = truth.dom();
    let part = c.slots.dom();
    let tc = |id: Id| truth[id].consumed as nat;
    let tf = |id: Id| truth[id].freed as nat;
    let sc = |id: Id| slots::slot_at(c.slots, id).consumed as nat;
    let raw = |id: Id| c.slots[id].consumed as nat;
    let raw_f = |id: Id| c.slots[id].freed as nat;
    let gap = |id: Id| (truth[id].consumed - slots::slot_at(c.slots, id).consumed) as nat;
    assert(part.subset_of(all));
    sums::lemma_sum_ignores_zeros(all, part, sc);
    sums::lemma_sum_congruent(part, sc, raw);
    sums::lemma_sum_of_sums(all, sc, gap, tc);
    if all.contains(c.me) {
        sums::lemma_sum_split(all, gap, c.me);
    } else {
        assert(all.remove(c.me) =~= all);
    }
    sums::lemma_sum_monotone(part, raw_f, tf);
    sums::lemma_sum_subset(part, all, tf);
    slots::lemma_totals_after_put(truth, c.me, slots::charge(truth, c.me, amount)[c.me]);
}

/// Merging is idempotent, and a merge repeated changes nothing.
pub proof fn law_counter_merge_is_idempotent<Id>(a: CounterView<Id>, b: CounterView<Id>)
    ensures
        a.merge(a) == a,
        a.merge(b).merge(b) == a.merge(b),
{
    slots::law_join_is_idempotent(a.slots);
    slots::law_redelivery_changes_nothing(a.slots, b.slots);
}

/// Two states may be merged into a counter in either order.
pub proof fn law_counter_merge_is_commutative<Id>(
    base: CounterView<Id>,
    a: CounterView<Id>,
    b: CounterView<Id>,
)
    ensures
        base.merge(a).merge(b) == base.merge(b).merge(a),
{
    slots::law_join_is_associative(base.slots, a.slots, b.slots);
    slots::law_join_is_associative(base.slots, b.slots, a.slots);
    slots::law_join_is_commutative(a.slots, b.slots);
}

/// Counters that started from the same one and have merged the same set of states are the same, in
/// whatever order and however often each state was delivered.
pub proof fn law_counter_all_merge_orders_converge<Id>(
    base: CounterView<Id>,
    parts: Seq<CounterView<Id>>,
    others: Seq<CounterView<Id>>,
)
    requires
        parts.to_set() == others.to_set(),
    ensures
        base.merge_all(parts) == base.merge_all(others),
{
    let at = |c: CounterView<Id>| c.slots;
    lemma_merge_all_joins(base, parts);
    lemma_merge_all_joins(base, others);
    slots::lemma_same_set_mapped(parts, others, at);
    slots::law_all_merge_orders_converge(
        base.slots,
        parts.map_values(at),
        others.map_values(at),
    );
}

/// Merging many states joins their slots and leaves the rest.
pub proof fn lemma_merge_all_joins<Id>(base: CounterView<Id>, parts: Seq<CounterView<Id>>)
    ensures
        base.merge_all(parts) == (CounterView {
            slots: slots::join_all(base.slots, parts.map_values(|c: CounterView<Id>| c.slots)),
            ..base
        }),
    decreases parts.len(),
{
    let at = |c: CounterView<Id>| c.slots;
    if parts.len() > 0 {
        lemma_merge_all_joins(base, parts.drop_last());
        assert(parts.map_values(at).drop_last() =~= parts.drop_last().map_values(at));
    }
}

/// A state may be merged directly, or by way of a replica that merged it first.
pub proof fn law_counter_merge_is_associative<Id>(
    a: CounterView<Id>,
    b: CounterView<Id>,
    c: CounterView<Id>,
)
    ensures
        a.merge(b).merge(c) == a.merge(b.merge(c)),
{
    slots::law_join_is_associative(a.slots, b.slots, c.slots);
}

/// The room and the usage make up the limit; there is no room where the usage has reached it.
pub proof fn law_room_and_usage_make_up_the_limit<Id>(c: CounterView<Id>)
    ensures
        slots::reading(c.slots) <= c.limit ==> c.room() + slots::reading(c.slots) == c.limit,
        slots::reading(c.slots) >= c.limit ==> c.room() == 0,
{
}

/// A write is admitted exactly where it fits in the room; past the limit nothing is, not even a
/// write of nothing.
pub proof fn law_a_write_is_admitted_where_there_is_room<Id>(c: CounterView<Id>, amount: u64)
    ensures
        slots::reading(c.slots) <= c.limit ==> (c.admits(amount) <==> amount <= c.room()),
        slots::reading(c.slots) > c.limit ==> !c.admits(amount),
        c.admits(amount) ==> forall|less: u64| less <= amount ==> #[trigger] c.admits(less),
{
}

/// A fresh counter has all of its limit as room.
pub proof fn law_a_fresh_counter_is_all_room<Id>(me: Id, limit: u64)
    ensures
        CounterView::fresh(me, limit).me == me,
        CounterView::fresh(me, limit).limit == limit,
        CounterView::fresh(me, limit).slots.dom() == Set::<Id>::empty(),
        CounterView::fresh(me, limit).used() == 0,
        CounterView::fresh(me, limit).room() == limit,
{
    slots::law_nothing_recorded_reads_zero::<Id>();
    assert(Map::<Id, SlotState>::empty().dom() =~= Set::<Id>::empty());
}

/// A write lands on the slot of the node that makes it, and on no other; a refused one lands
/// nowhere.
pub proof fn law_a_write_lands_on_the_nodes_own_slot<Id>(c: CounterView<Id>, amount: u64)
    requires
        c.slots.contains_key(c.me) ==> c.slots[c.me].consumed + amount <= u64::MAX,
    ensures
        c.charge(amount).me == c.me,
        c.charge(amount).limit == c.limit,
        c.charge(amount).slots.contains_key(c.me),
        c.charge(amount).slots.remove(c.me) == c.slots.remove(c.me),
        c.slots.contains_key(c.me) ==> c.charge(amount).slots[c.me].consumed
            == c.slots[c.me].consumed + amount && c.charge(amount).slots[c.me].freed
            == c.slots[c.me].freed,
        !c.slots.contains_key(c.me) ==> c.charge(amount).slots[c.me].consumed == amount
            && c.charge(amount).slots[c.me].freed == 0,
        c.admits(amount) ==> c.offer(amount) == c.charge(amount),
        !c.admits(amount) ==> c.offer(amount) == c,
{
    slots::law_a_write_moves_one_figure(c.slots, c.me, amount);
}

/// A free lands on the slot of the node that makes it, and on no other.
pub proof fn law_a_free_lands_on_the_nodes_own_slot<Id>(c: CounterView<Id>, amount: u64)
    ensures
        c.credit(amount).me == c.me,
        c.credit(amount).limit == c.limit,
        c.credit(amount).slots.contains_key(c.me),
        c.credit(amount).slots.remove(c.me) == c.slots.remove(c.me),
        c.slots.contains_key(c.me) ==> c.credit(amount).slots[c.me].consumed
            == c.slots[c.me].consumed,
        c.slots.contains_key(c.me) && c.slots[c.me].freed + amount <= u64::MAX ==> c.credit(
            amount,
        ).slots[c.me].freed == c.slots[c.me].freed + amount,
        !c.slots.contains_key(c.me) ==> c.credit(amount).slots[c.me].consumed == 0 && c.credit(
            amount,
        ).slots[c.me].freed == amount,
{
    slots::law_a_free_moves_one_figure(c.slots, c.me, amount);
}

/// A free lowers the usage by its amount, and to zero where the usage was less, where the view has
/// seen no more frees than writes and the figures can be told apart from the largest there is.
pub proof fn law_a_free_lowers_the_usage<Id>(c: CounterView<Id>, amount: u64)
    requires
        c.slots.dom().finite(),
        slots::credited(c.slots) <= slots::charged(c.slots),
        slots::charged(c.slots) <= slots::credited(c.slots) + u64::MAX,
        c.slots.contains_key(c.me) ==> c.slots[c.me].freed + amount <= u64::MAX,
    ensures
        amount <= c.used() ==> c.credit(amount).used() + amount == c.used(),
        amount >= c.used() ==> c.credit(amount).used() == 0,
{
    slots::lemma_totals_after_put(c.slots, c.me, c.credit(amount).slots[c.me]);
}

/// A merge takes over usage and nothing else: the node and its limit stay, and each slot keeps the
/// larger of the totals the two sides have.
pub proof fn law_a_merge_takes_over_usage_only<Id>(a: CounterView<Id>, b: CounterView<Id>)
    ensures
        a.merge(b).me == a.me,
        a.merge(b).limit == a.limit,
        a.merge(b).slots.dom() == a.slots.dom().union(b.slots.dom()),
        forall|id: Id| #[trigger]
            a.slots.contains_key(id) ==> a.merge(b).slots[id].consumed >= a.slots[id].consumed
                && a.merge(b).slots[id].freed >= a.slots[id].freed,
        forall|id: Id| #[trigger]
            b.slots.contains_key(id) ==> a.merge(b).slots[id].consumed >= b.slots[id].consumed
                && a.merge(b).slots[id].freed >= b.slots[id].freed,
        forall|id: Id| #[trigger]
            a.merge(b).slots.contains_key(id) ==> {
                ||| a.slots.contains_key(id) && a.merge(b).slots[id].consumed
                    == a.slots[id].consumed
                ||| b.slots.contains_key(id) && a.merge(b).slots[id].consumed
                    == b.slots[id].consumed
            },
        forall|id: Id| #[trigger]
            a.merge(b).slots.contains_key(id) ==> {
                ||| a.slots.contains_key(id) && a.merge(b).slots[id].freed == a.slots[id].freed
                ||| b.slots.contains_key(id) && a.merge(b).slots[id].freed == b.slots[id].freed
            },
{
    slots::law_a_merge_keeps_the_larger_totals(a.slots, b.slots);
}

} // verus!
