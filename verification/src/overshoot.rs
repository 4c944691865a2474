//! A cluster of optimistic counters and the overshoot it runs into.
//!
//! Every node writes against its own, lagging view of the usage. From time to time the cluster
//! gossips: every node learns everything any node knows. Between two such exchanges the cluster
//! can write past the limit, and this module keeps count of by how much.

use vstd::prelude::*;

use crate::counter::{BCounter, CounterView};
use crate::slots::{self, SlotState};
use crate::sums;

verus! {

/// One run's measurements.
#[derive(Clone, Copy, Debug, PartialEq, Eq, Structural)]
pub struct Outcome {
    /// True cluster total at the end (ground truth: the sum of everything admitted).
    pub true_total: u64,
    /// The true total less the limit, saturating at zero.
    pub overshoot: u64,
    /// Writes admitted.
    pub admitted: u64,
    /// Writes refused.
    pub denied: u64,
    /// Writes refused that would have fit in the true remaining room.
    pub false_denials: u64,
}

/// A cluster of counters, node `i` at place `i`.
pub struct Cluster {
    nodes: Vec<BCounter<u32>>,
    limit: u64,
    true_total: u64,
    admitted: u64,
    denied: u64,
    false_denials: u64,
}

/// What a [`Cluster`] is.
#[verifier::ext_equal]
pub struct ClusterView {
    /// Each node's counter, in node order.
    pub nodes: Seq<CounterView<u32>>,
    /// The limit every node enforces.
    pub limit: u64,
    /// The sum of everything admitted.
    pub true_total: u64,
    /// Writes admitted.
    pub admitted: u64,
    /// Writes refused.
    pub denied: u64,
    /// Writes refused that would have fit.
    pub false_denials: u64,
}

/// What happens next in a run.
#[derive(Clone, Copy, Debug, PartialEq, Eq, Structural)]
pub enum Next {
    /// Nothing more: the next event comes after the end.
    Over,
    /// The nodes gossip.
    Gossip,
    /// The node at this place writes.
    Write(usize),
}

/// The first place of the earliest time.
pub open spec fn is_earliest(times: Seq<u64>, i: int) -> bool {
    &&& 0 <= i < times.len()
    &&& forall|j: int| 0 <= j < times.len() ==> times[i] <= #[trigger] times[j]
    &&& forall|j: int| 0 <= j < i ==> times[i] < #[trigger] times[j]
}

/// What happens next, given when each node writes next, when the nodes gossip next, and when the
/// run ends: whichever comes first, gossip where both come at once, and of several writes at once
/// the first node's. Times are ranks: any numbers that order the events do.
#[must_use]
pub fn next_event(writes: &[u64], gossip: u64, end: u64) -> (next: Next)
    requires
        writes@.len() > 0,
    ensures
        match next {
            Next::Over => gossip > end && forall|j: int|
                0 <= j < writes@.len() ==> #[trigger] writes@[j] > end,
            Next::Gossip => gossip <= end && forall|j: int|
                0 <= j < writes@.len() ==> gossip <= #[trigger] writes@[j],
            Next::Write(i) => is_earliest(writes@, i as int) && writes@[i as int] <= end
                && writes@[i as int] < gossip,
        },
{
    let mut soonest: usize = 0;
    let mut i: usize = 1;
    while i < writes.len()
        invariant
            1 <= i <= writes@.len(),
            is_earliest(writes@.take(i as int), soonest as int),
        decreases writes.len() - i,
    {
        proof {
            let seen = writes@.take(i as int);
            let more = writes@.take(i + 1);
            assert forall|j: int| 0 <= j < i implies #[trigger] more[j] == seen[j] by {}
        }
        if writes[i] < writes[soonest] {
            soonest = i;
        }
        i += 1;
    }
    proof {
        assert(writes@.take(i as int) =~= writes@);
    }
    let write: u64 = writes[soonest];
    let now: u64 = if gossip <= write {
        gossip
    } else {
        write
    };
    if now > end {
        Next::Over
    } else if gossip <= write {
        Next::Gossip
    } else {
        Next::Write(soonest)
    }
}

/// What the nodes have really done: each one's own slot.
pub open spec fn truth(nodes: Seq<CounterView<u32>>) -> Map<u32, SlotState> {
    Map::new(|id: u32| id < nodes.len(), |id: u32| nodes[id as int].own())
}

/// What the nodes know between them: every node's slots, joined.
pub open spec fn pooled(nodes: Seq<CounterView<u32>>) -> Map<u32, SlotState> {
    slots::join_all(Map::empty(), nodes.map_values(|n: CounterView<u32>| n.slots))
}

/// What nodes other than `i` have written and `i` has not heard of.
pub open spec fn unheard(nodes: Seq<CounterView<u32>>, i: int) -> nat {
    sums::sum(
        truth(nodes).dom().remove(i as u32),
        |id: u32|
            (truth(nodes)[id].consumed - slots::slot_at(nodes[i].slots, id).consumed) as nat,
    )
}

impl ClusterView {
    /// What holds of every cluster: each node knows no more of another than the other has done,
    /// nobody has freed anything, no node has written past the limit by itself, the true total
    /// is what the nodes have written, and nobody was refused a write that would have fit.
    pub open spec fn sound(self) -> bool {
        &&& 0 < self.nodes.len() <= u32::MAX
        &&& forall|i: int|
            0 <= i < self.nodes.len() ==> {
                let n = #[trigger] self.nodes[i];
                &&& n.me == i
                &&& n.limit == self.limit
                &&& n.slots.dom().finite()
                &&& slots::within(n.slots, truth(self.nodes))
                &&& n.own().consumed <= self.limit
                &&& n.own().freed == 0
            }
        &&& self.true_total == slots::charged(truth(self.nodes))
        &&& self.false_denials == 0
    }

    /// The cluster after node `i` was offered a write of `amount`.
    pub open spec fn write(self, i: int, amount: u64) -> Self {
        if self.nodes[i].admits(amount) {
            ClusterView {
                nodes: self.nodes.update(i, self.nodes[i].charge(amount)),
                true_total: (self.true_total + amount) as u64,
                admitted: (self.admitted + 1) as u64,
                ..self
            }
        } else {
            ClusterView { denied: (self.denied + 1) as u64, ..self }
        }
    }

    /// The cluster after an exchange in which everyone learns what anyone knows.
    pub open spec fn gossip(self) -> Self {
        ClusterView {
            nodes: self.nodes.map_values(
                |n: CounterView<u32>| CounterView { slots: pooled(self.nodes), ..n },
            ),
            ..self
        }
    }
}

impl View for Cluster {
    type V = ClusterView;

    closed spec fn view(&self) -> ClusterView {
        ClusterView {
            nodes: self.nodes@.map_values(|n: BCounter<u32>| n@),
            limit: self.limit,
            true_total: self.true_total,
            admitted: self.admitted,
            denied: self.denied,
            false_denials: self.false_denials,
        }
    }
}

impl Cluster {
    /// A cluster of `nodes` nodes that have written nothing, each under `limit`.
    #[must_use]
    pub fn new(nodes: u32, limit: u64) -> (cluster: Self)
        requires
            nodes > 0,
        ensures
            cluster@ == ClusterView::start(nodes, limit),
            cluster@.sound(),
    {
        let mut all: Vec<BCounter<u32>> = Vec::new();
        let mut id: u32 = 0;
        while id < nodes
            invariant
                id <= nodes,
                all@.len() == id,
                forall|i: int|
                    0 <= i < all@.len() ==> (#[trigger] all@[i])@ == CounterView::fresh(
                        i as u32,
                        limit,
                    ),
            decreases nodes - id,
        {
            all.push(BCounter::new(id, limit));
            id += 1;
        }
        let cluster = Cluster {
            nodes: all,
            limit,
            true_total: 0,
            admitted: 0,
            denied: 0,
            false_denials: 0,
        };
        proof {
            assert(cluster@ =~= ClusterView::start(nodes, limit));
            lemma_start_is_sound(nodes, limit);
        }
        cluster
    }

    /// How many nodes there are.
    #[must_use]
    pub fn len(&self) -> (n: usize)
        ensures
            n == self@.nodes.len(),
    {
        self.nodes.len()
    }

    /// Node `i` offers a write of `amount` to its own counter. Returns whether it was admitted.
    pub fn write(&mut self, i: usize, amount: u64) -> (admitted: bool)
        requires
            old(self)@.sound(),
            i < old(self)@.nodes.len(),
            old(self)@.true_total + amount <= u64::MAX,
            old(self)@.admitted < u64::MAX,
            old(self)@.denied < u64::MAX,
        ensures
            admitted == old(self)@.nodes[i as int].admits(amount),
            final(self)@ == old(self)@.write(i as int, amount),
            final(self)@.sound(),
    {
        proof {
            lemma_write(self@, i as int, amount);
        }
        let outcome = self.nodes[i].inc(amount);
        match outcome {
            Ok(()) => {
                self.admitted = self.admitted + 1;
                self.true_total = self.true_total + amount;
                proof {
                    assert(self@ =~= old(self)@.write(i as int, amount));
                }
                true
            },
            Err(_) => {
                self.denied = self.denied + 1;
                // A *false* denial refuses a write that would have fit in the true remaining
                // room -- not merely one issued while under the limit.
                if self.true_total + amount <= self.limit {
                    self.false_denials = self.false_denials + 1;
                }
                proof {
                    assert(self@ =~= old(self)@.write(i as int, amount));
                }
                false
            },
        }
    }

    /// Full-mesh gossip: fold every node's state, then hand the union back to each.
    pub fn gossip(&mut self)
        requires
            old(self)@.sound(),
        ensures
            final(self)@ == old(self)@.gossip(),
            final(self)@.sound(),
            forall|i: int|
                0 <= i < final(self)@.nodes.len() ==> (#[trigger] final(self)@.nodes[i]).used()
                    == final(self)@.true_total,
    {
        let mut merged = self.nodes[0].clone();
        let ghost base = self@;
        let ghost parts = base.nodes.map_values(|n: CounterView<u32>| n.slots);
        let count: usize = self.nodes.len();
        let mut i: usize = 1;
        proof {
            let none = Map::<u32, SlotState>::empty();
            assert(slots::join_all(none, parts.take(1).drop_last()) == none);
            assert(slots::join_all(none, parts.take(1)) == slots::join(none, parts[0]));
            assert(slots::join_all(Map::empty(), parts.take(1)) =~= parts[0]);
        }
        while i < count
            invariant
                self@ == base,
                count == base.nodes.len(),
                1 <= i <= count,
                parts == base.nodes.map_values(|n: CounterView<u32>| n.slots),
                merged@.slots == slots::join_all(Map::empty(), parts.take(i as int)),
            decreases count - i,
        {
            merged.merge(&self.nodes[i]);
            proof {
                assert(parts.take(i + 1).drop_last() =~= parts.take(i as int));
            }
            i += 1;
        }
        proof {
            assert(parts.take(i as int) =~= parts);
            lemma_gossip(base);
        }
        let mut i: usize = 0;
        while i < count
            invariant
                base.sound(),
                count == base.nodes.len(),
                self.nodes@.len() == count,
                i <= count,
                merged@.slots == pooled(base.nodes),
                self@.limit == base.limit,
                self@.true_total == base.true_total,
                self@.admitted == base.admitted,
                self@.denied == base.denied,
                self@.false_denials == base.false_denials,
                forall|j: int|
                    0 <= j < i ==> (#[trigger] self.nodes@[j])@ == base.gossip().nodes[j],
                forall|j: int| i <= j < count ==> (#[trigger] self.nodes@[j])@ == base.nodes[j],
            decreases count - i,
        {
            proof {
                lemma_join_pooled(base.nodes, i as int);
                assert(self.nodes@[i as int]@ == base.nodes[i as int]);
            }
            self.nodes[i].merge(&merged);
            i += 1;
        }
        proof {
            assert(self@ =~= base.gossip());
        }
    }

    /// The run's measurements so far.
    #[must_use]
    pub fn outcome(&self) -> (o: Outcome)
        requires
            self@.sound(),
        ensures
            o == self@.outcome(),
            o.false_denials == 0,
            o.overshoot <= (self@.nodes.len() - 1) * self@.limit,
    {
        proof {
            law_overshoot_is_at_most_a_limit_per_other_node(self@);
        }
        Outcome {
            true_total: self.true_total,
            overshoot: self.true_total.saturating_sub(self.limit),
            admitted: self.admitted,
            denied: self.denied,
            false_denials: self.false_denials,
        }
    }
}

/// The truth is about as many slots as there are nodes.
proof fn lemma_truth_finite(nodes: Seq<CounterView<u32>>)
    requires
        nodes.len() <= u32::MAX,
    ensures
        truth(nodes).dom().finite(),
        truth(nodes).dom().len() == nodes.len(),
{
    lemma_ids_finite(nodes.len());
    assert(truth(nodes).dom() =~= Set::new(|id: u32| id < nodes.len()));
}

proof fn lemma_ids_finite(n: nat)
    requires
        n <= u32::MAX,
    ensures
        Set::new(|id: u32| id < n).finite(),
        Set::new(|id: u32| id < n).len() == n,
    decreases n,
{
    if n == 0 {
        assert(Set::new(|id: u32| id < n) =~= Set::empty());
    } else {
        lemma_ids_finite((n - 1) as nat);
        assert(Set::new(|id: u32| id < n) =~= Set::new(|id: u32| id < n - 1).insert(
            (n - 1) as u32,
        ));
    }
}

/// Nobody has freed anything.
proof fn lemma_nothing_freed(c: ClusterView)
    requires
        c.sound(),
    ensures
        slots::credited(truth(c.nodes)) == 0,
{
    lemma_truth_finite(c.nodes);
    let f = |id: u32| truth(c.nodes)[id].freed as nat;
    assert forall|id: u32| #[trigger] truth(c.nodes).dom().contains(id) implies f(id) <= 0 by {
        assert(c.nodes[id as int].own().freed == 0);
    }
    sums::lemma_sum_bound(truth(c.nodes).dom(), f, 0);
    assert(truth(c.nodes).dom().len() * 0 == 0);
}

/// A view never runs ahead of the truth.
proof fn lemma_view_lags(c: ClusterView, i: int)
    requires
        c.sound(),
        0 <= i < c.nodes.len(),
    ensures
        slots::charged(c.nodes[i].slots) <= c.true_total,
        slots::credited(c.nodes[i].slots) == 0,
        c.nodes[i].used() == slots::charged(c.nodes[i].slots),
{
    lemma_truth_finite(c.nodes);
    lemma_nothing_freed(c);
    let n = c.nodes[i];
    let t = |id: u32| truth(c.nodes)[id].freed as nat;
    let s = |id: u32| n.slots[id].freed as nat;
    sums::lemma_sum_monotone(n.slots.dom(), s, t);
    sums::lemma_sum_subset(n.slots.dom(), truth(c.nodes).dom(), t);
    slots::lemma_reading_monotone(n.slots, truth(c.nodes));
}

/// A write keeps the cluster sound.
proof fn lemma_write(c: ClusterView, i: int, amount: u64)
    requires
        c.sound(),
        0 <= i < c.nodes.len(),
        c.true_total + amount <= u64::MAX,
    ensures
        c.write(i, amount).sound(),
        c.nodes[i].own().consumed + amount <= u64::MAX,
        !c.nodes[i].admits(amount) ==> c.true_total + amount > c.limit,
{
    lemma_view_lags(c, i);
    lemma_truth_finite(c.nodes);
    let before = truth(c.nodes);
    let n = c.nodes[i];
    assert(before.contains_key(i as u32));
    sums::lemma_sum_split(before.dom(), |id: u32| before[id].consumed as nat, i as u32);
    if n.admits(amount) {
        let next = c.write(i, amount);
        let after = truth(next.nodes);
        let own = n.charge(amount).own();
        assert(after =~= before.insert(i as u32, own));
        slots::lemma_totals_after_put(before, i as u32, own);
        lemma_own_within_view(n);
        assert forall|j: int| 0 <= j < next.nodes.len() implies {
            let m = #[trigger] next.nodes[j];
            &&& m.me == j
            &&& m.limit == next.limit
            &&& m.slots.dom().finite()
            &&& slots::within(m.slots, after)
            &&& m.own().consumed <= next.limit
            &&& m.own().freed == 0
        } by {
            let was = c.nodes[j];
            assert(slots::within(was.slots, before));
            assert(slots::within(before, after));
            assert(slots::within(was.slots, after)) by {
                assert forall|id: u32| #[trigger] was.slots.contains_key(id) implies after.contains_key(
                    id,
                ) && was.slots[id].le(after[id]) by {
                    assert(before.contains_key(id));
                }
            }
        }
    }
}

/// A node's own slot is part of what it sees.
proof fn lemma_own_within_view(n: CounterView<u32>)
    requires
        n.slots.dom().finite(),
    ensures
        n.own().consumed <= slots::charged(n.slots),
{
    if n.slots.contains_key(n.me) {
        sums::lemma_sum_split(n.slots.dom(), |id: u32| n.slots[id].consumed as nat, n.me);
    }
}

/// What the nodes know between them is the truth, but for nodes that have done nothing.
proof fn lemma_pooled(c: ClusterView)
    requires
        c.sound(),
    ensures
        slots::within(pooled(c.nodes), truth(c.nodes)),
        forall|i: int|
            0 <= i < c.nodes.len() ==> slots::within(
                (#[trigger] c.nodes[i]).slots,
                pooled(c.nodes),
            ),
        forall|i: int|
            0 <= i < c.nodes.len() ==> slots::slot_at(pooled(c.nodes), i as u32)
                == (#[trigger] c.nodes[i]).own(),
        pooled(c.nodes).dom().finite(),
        slots::charged(pooled(c.nodes)) == c.true_total,
        slots::credited(pooled(c.nodes)) == 0,
{
    let parts = c.nodes.map_values(|n: CounterView<u32>| n.slots);
    let t = truth(c.nodes);
    let p = pooled(c.nodes);
    lemma_truth_finite(c.nodes);
    lemma_nothing_freed(c);
    assert forall|i: int| 0 <= i < parts.len() implies slots::within(#[trigger] parts[i], t) by {
        assert(parts[i] == c.nodes[i].slots);
    }
    slots::lemma_join_all_is_least(Map::empty(), parts, t);
    slots::lemma_join_all_is_an_upper_bound(Map::empty(), parts);
    assert forall|i: int| 0 <= i < c.nodes.len() implies slots::within(
        (#[trigger] c.nodes[i]).slots,
        p,
    ) by {
        assert(parts[i] == c.nodes[i].slots);
    }
    assert forall|i: int| 0 <= i < c.nodes.len() implies slots::slot_at(p, i as u32) == (
    #[trigger] c.nodes[i]).own() by {
        assert(slots::within(c.nodes[i].slots, p));
        assert(t[i as u32] == c.nodes[i].own());
    }
    assert(p.dom().subset_of(t.dom()));
    vstd::set_lib::lemma_set_subset_finite(t.dom(), p.dom());
    let tc = |id: u32| t[id].consumed as nat;
    let pc = |id: u32| p[id].consumed as nat;
    let tf = |id: u32| t[id].freed as nat;
    let pf = |id: u32| p[id].freed as nat;
    assert forall|id: u32| #[trigger] t.dom().contains(id) && !p.dom().contains(id) implies tc(id)
        == 0 && tf(id) == 0 by {
        assert(slots::slot_at(p, id) == c.nodes[id as int].own());
    }
    assert forall|id: u32| #[trigger] p.dom().contains(id) implies tc(id) == pc(id) && tf(id)
        == pf(id) by {
        assert(t.dom().contains(id));
        assert(slots::slot_at(p, id) == c.nodes[id as int].own());
    }
    sums::lemma_sum_ignores_zeros(t.dom(), p.dom(), tc);
    sums::lemma_sum_ignores_zeros(t.dom(), p.dom(), tf);
    sums::lemma_sum_congruent(p.dom(), tc, pc);
    sums::lemma_sum_congruent(p.dom(), tf, pf);
}

/// Joining what everyone knows into what one node knows gives what everyone knows.
proof fn lemma_join_pooled(nodes: Seq<CounterView<u32>>, i: int)
    requires
        0 <= i < nodes.len(),
    ensures
        slots::join(nodes[i].slots, pooled(nodes)) == pooled(nodes),
{
    let parts = nodes.map_values(|n: CounterView<u32>| n.slots);
    slots::lemma_join_all_is_an_upper_bound(Map::empty(), parts);
    assert(slots::within(parts[i], pooled(nodes)));
    assert(slots::join(nodes[i].slots, pooled(nodes)) =~= pooled(nodes));
}

/// Gossip keeps the cluster sound, and shows every node the true total.
proof fn lemma_gossip(c: ClusterView)
    requires
        c.sound(),
    ensures
        c.gossip().sound(),
        forall|i: int|
            0 <= i < c.nodes.len() ==> (#[trigger] c.gossip().nodes[i]).used() == c.true_total,
{
    lemma_pooled(c);
    let next = c.gossip();
    assert forall|i: int| 0 <= i < c.nodes.len() implies (#[trigger] next.nodes[i]).own()
        == c.nodes[i].own() by {
        assert(slots::slot_at(pooled(c.nodes), i as u32) == c.nodes[i].own());
    }
    assert(truth(next.nodes) =~= truth(c.nodes));
}

/// The optimistic counter never denies falsely: where a node refuses a write, the write would
/// not have fit in the true remaining room either.
pub proof fn law_a_refused_write_would_not_have_fit(c: ClusterView, i: int, amount: u64)
    requires
        c.sound(),
        0 <= i < c.nodes.len(),
        !c.nodes[i].admits(amount),
    ensures
        c.true_total + amount > c.limit,
{
    lemma_view_lags(c, i);
}

/// Overshoot is bounded by what was not yet gossiped: right after a node's write is admitted,
/// the true total exceeds the limit by at most what the other nodes have written and this one
/// has not heard of.
pub proof fn law_overshoot_is_at_most_the_unheard(c: ClusterView, i: int, amount: u64)
    requires
        c.sound(),
        0 <= i < c.nodes.len(),
        c.nodes[i].admits(amount),
    ensures
        c.true_total + amount <= c.limit + unheard(c.nodes, i),
{
    lemma_view_lags(c, i);
    lemma_truth_finite(c.nodes);
    let t = truth(c.nodes);
    let n = c.nodes[i];
    let me = i as u32;
    let all = t.dom();
    let tc = |id: u32| t[id].consumed as nat;
    let sc = |id: u32| slots::slot_at(n.slots, id).consumed as nat;
    let raw = |id: u32| n.slots[id].consumed as nat;
    let gap = |id: u32| (t[id].consumed - slots::slot_at(n.slots, id).consumed) as nat;
    assert(n.slots.dom().subset_of(all));
    sums::lemma_sum_ignores_zeros(all, n.slots.dom(), sc);
    sums::lemma_sum_congruent(n.slots.dom(), sc, raw);
    assert(sums::sum(all, sc) == slots::charged(n.slots));
    sums::lemma_sum_of_sums(all, sc, gap, tc);
    sums::lemma_sum_split(all, gap, me);
    assert(gap(me) == 0);
}

/// However rarely the cluster gossips, it overshoots by at most one limit for each node but one.
pub proof fn law_overshoot_is_at_most_a_limit_per_other_node(c: ClusterView)
    requires
        c.sound(),
    ensures
        c.true_total <= c.nodes.len() * c.limit,
        c.true_total - c.limit <= (c.nodes.len() - 1) * c.limit,
        0 <= (c.nodes.len() - 1) * c.limit,
{
    lemma_truth_finite(c.nodes);
    let t = truth(c.nodes);
    let tc = |id: u32| t[id].consumed as nat;
    assert forall|id: u32| #[trigger] t.dom().contains(id) implies tc(id) <= c.limit by {
        assert(c.nodes[id as int].own().consumed <= c.limit);
    }
    sums::lemma_sum_bound(t.dom(), tc, c.limit as nat);
    assert(c.nodes.len() * c.limit == (c.nodes.len() - 1) * c.limit + c.limit) by (nonlinear_arith);
    assert(0 <= (c.nodes.len() - 1) * c.limit) by (nonlinear_arith)
        requires
            c.nodes.len() >= 1,
    ;
}

/// After an exchange every node sees the true total, so a write that would overshoot is refused
/// by every node.
pub proof fn law_gossip_shows_the_true_total(c: ClusterView)
    requires
        c.sound(),
    ensures
        c.gossip().sound(),
        forall|i: int|
            0 <= i < c.nodes.len() ==> (#[trigger] c.gossip().nodes[i]).used() == c.true_total,
{
    lemma_gossip(c);
}

/// One event of a run.
pub enum Event {
    /// The node at a place offers a write.
    Write(int, u64),
    /// The nodes gossip.
    Gossip,
}

impl Event {
    /// The event can happen among `nodes` nodes: a write is at one of them, and writes something.
    pub open spec fn possible(self, nodes: nat) -> bool {
        self matches Event::Write(i, amount) ==> 0 <= i < nodes && amount >= 1
    }
}

impl ClusterView {
    /// A cluster of nodes that have written nothing.
    pub open spec fn start(nodes: u32, limit: u64) -> Self {
        ClusterView {
            nodes: Seq::new(nodes as nat, |i: int| CounterView::fresh(i as u32, limit)),
            limit,
            true_total: 0,
            admitted: 0,
            denied: 0,
            false_denials: 0,
        }
    }

    /// The cluster after an event.
    pub open spec fn after(self, event: Event) -> Self {
        match event {
            Event::Write(i, amount) => self.write(i, amount),
            Event::Gossip => self.gossip(),
        }
    }

    /// The cluster after all of `events`, first to last.
    pub open spec fn after_all(self, events: Seq<Event>) -> Self
        decreases events.len(),
    {
        if events.len() == 0 {
            self
        } else {
            self.after_all(events.drop_last()).after(events.last())
        }
    }

    /// What a run that ends here measured.
    pub open spec fn outcome(self) -> Outcome {
        Outcome {
            true_total: self.true_total,
            overshoot: if self.true_total >= self.limit {
                (self.true_total - self.limit) as u64
            } else {
                0
            },
            admitted: self.admitted,
            denied: self.denied,
            false_denials: self.false_denials,
        }
    }
}

/// A write that is admitted leaves the total within one limit for each node.
proof fn lemma_admitted_write_fits(c: ClusterView, i: int, amount: u64)
    requires
        c.sound(),
        0 <= i < c.nodes.len(),
        c.nodes[i].admits(amount),
    ensures
        c.true_total + amount <= c.nodes.len() * c.limit,
{
    lemma_view_lags(c, i);
    lemma_truth_finite(c.nodes);
    lemma_own_within_view(c.nodes[i]);
    let t = truth(c.nodes);
    let me = i as u32;
    let tc = |id: u32| t[id].consumed as nat;
    assert(t.contains_key(me));
    sums::lemma_sum_split(t.dom(), tc, me);
    assert forall|id: u32| #[trigger] t.dom().remove(me).contains(id) implies tc(id) <= c.limit by {
        assert(c.nodes[id as int].own().consumed <= c.limit);
    }
    sums::lemma_sum_bound(t.dom().remove(me), tc, c.limit as nat);
    assert(t.dom().remove(me).len() * c.limit <= (c.nodes.len() - 1) * c.limit) by (nonlinear_arith)
        requires
            t.dom().remove(me).len() <= c.nodes.len() - 1,
            0 <= c.limit,
    ;
    assert(c.nodes.len() * c.limit == (c.nodes.len() - 1) * c.limit + c.limit) by (nonlinear_arith);
}

/// Whatever happens in a run, in whatever order: nobody is refused a write that would have fit, the
/// overshoot is what the true total has past the limit and at most one limit for each node but one,
/// every admitted write counts for at least one, and the outcome is that of the events alone.
pub proof fn law_any_run(nodes: u32, limit: u64, events: Seq<Event>)
    requires
        nodes > 0,
        nodes * limit <= u64::MAX,
        events.len() <= u64::MAX,
        forall|k: int| 0 <= k < events.len() ==> (#[trigger] events[k]).possible(nodes as nat),
    ensures
        ({
            let c = ClusterView::start(nodes, limit).after_all(events);
            let o = c.outcome();
            &&& c.sound()
            &&& c.nodes.len() == nodes
            &&& c.limit == limit
            &&& o.false_denials == 0
            &&& o.overshoot == if o.true_total >= limit {
                o.true_total - limit
            } else {
                0
            }
            &&& o.admitted <= o.true_total <= nodes * limit
            &&& o.overshoot <= (nodes - 1) * limit
            &&& o.admitted + o.denied <= events.len()
        }),
    decreases events.len(),
{
    let start = ClusterView::start(nodes, limit);
    if events.len() == 0 {
        lemma_start_is_sound(nodes, limit);
    } else {
        let front = events.drop_last();
        let c = start.after_all(front);
        assert forall|k: int| 0 <= k < front.len() implies (#[trigger] front[k]).possible(
            nodes as nat,
        ) by {
            assert(front[k] == events[k]);
        }
        law_any_run(nodes, limit, front);
        assert(events[events.len() - 1].possible(nodes as nat));
        match events.last() {
            Event::Write(i, amount) => {
                if c.nodes[i].admits(amount) {
                    lemma_admitted_write_fits(c, i, amount);
                    lemma_write(c, i, amount);
                }
            },
            Event::Gossip => {
                lemma_gossip(c);
            },
        }
    }
    law_overshoot_is_at_most_a_limit_per_other_node(start.after_all(events));
}

/// A cluster that has written nothing is sound.
proof fn lemma_start_is_sound(nodes: u32, limit: u64)
    requires
        nodes > 0,
    ensures
        ClusterView::start(nodes, limit).sound(),
{
    let views = ClusterView::start(nodes, limit).nodes;
    lemma_truth_finite(views);
    let c = |id: u32| truth(views)[id].consumed as nat;
    sums::lemma_sum_bound(truth(views).dom(), c, 0);
    assert(truth(views).dom().len() * 0 == 0);
}

/// What a write does: it is admitted exactly where the usage its node sees and the amount are
/// within the limit. An admitted one adds its amount to the node's own slot and to the true total,
/// and counts as admitted; a refused one counts as denied. Nothing else moves.
pub proof fn law_a_write_moves_one_node(c: ClusterView, i: int, amount: u64)
    requires
        c.sound(),
        0 <= i < c.nodes.len(),
        c.true_total + amount <= u64::MAX,
        c.admitted < u64::MAX,
        c.denied < u64::MAX,
    ensures
        c.write(i, amount).limit == c.limit,
        c.write(i, amount).false_denials == 0,
        c.write(i, amount).nodes.len() == c.nodes.len(),
        forall|j: int|
            0 <= j < c.nodes.len() && j != i ==> #[trigger] c.write(i, amount).nodes[j]
                == c.nodes[j],
        slots::reading(c.nodes[i].slots) + amount <= c.limit ==> {
            let after = c.write(i, amount);
            &&& after.true_total == c.true_total + amount
            &&& after.admitted == c.admitted + 1
            &&& after.denied == c.denied
            &&& after.nodes[i].me == c.nodes[i].me
            &&& after.nodes[i].limit == c.limit
            &&& after.nodes[i].slots.contains_key(i as u32)
            &&& after.nodes[i].slots[i as u32].consumed == slots::slot_at(
                c.nodes[i].slots,
                i as u32,
            ).consumed + amount
            &&& after.nodes[i].slots[i as u32].freed == 0
            &&& after.nodes[i].slots.remove(i as u32) == c.nodes[i].slots.remove(i as u32)
        },
        slots::reading(c.nodes[i].slots) + amount > c.limit ==> {
            let after = c.write(i, amount);
            &&& after.true_total == c.true_total
            &&& after.admitted == c.admitted
            &&& after.denied == c.denied + 1
            &&& after.nodes[i] == c.nodes[i]
        },
{
    let n = c.nodes[i];
    lemma_truth_finite(c.nodes);
    let t = truth(c.nodes);
    let f = |id: u32| t[id].consumed as nat;
    assert(t.contains_key(i as u32));
    sums::lemma_sum_split(t.dom(), f, i as u32);
    slots::law_a_write_moves_one_figure(n.slots, n.me, amount);
}

/// What an exchange does: every node's view holds, of every node, the larger of the totals that any
/// node's view held, and nothing else moves.
pub proof fn law_an_exchange_pools_what_is_known(c: ClusterView)
    ensures
        c.gossip().limit == c.limit,
        c.gossip().true_total == c.true_total,
        c.gossip().admitted == c.admitted,
        c.gossip().denied == c.denied,
        c.gossip().false_denials == c.false_denials,
        c.gossip().nodes.len() == c.nodes.len(),
        forall|j: int|
            0 <= j < c.nodes.len() ==> (#[trigger] c.gossip().nodes[j]).me == c.nodes[j].me
                && c.gossip().nodes[j].limit == c.nodes[j].limit,
        forall|i: int, j: int|
            0 <= i < c.nodes.len() && 0 <= j < c.nodes.len() ==> (#[trigger] c.gossip().nodes[j]).slots
                == (#[trigger] c.gossip().nodes[i]).slots,
        forall|i: int, j: int, id: u32|
            0 <= i < c.nodes.len() && 0 <= j < c.nodes.len() && (#[trigger] c.nodes[i].slots.contains_key(
                id,
            )) ==> {
                let known = (#[trigger] c.gossip().nodes[j]).slots;
                &&& known.contains_key(id)
                &&& known[id].consumed >= c.nodes[i].slots[id].consumed
                &&& known[id].freed >= c.nodes[i].slots[id].freed
            },
        forall|j: int, bound: Map<u32, SlotState>|
            0 <= j < c.nodes.len() && (forall|i: int|
                0 <= i < c.nodes.len() ==> slots::within(
                    (#[trigger] c.nodes[i]).slots,
                    bound,
                )) ==> #[trigger] slots::within(c.gossip().nodes[j].slots, bound),
{
    let parts = c.nodes.map_values(|n: CounterView<u32>| n.slots);
    slots::lemma_join_all_is_an_upper_bound(Map::empty(), parts);
    assert forall|i: int, j: int, id: u32|
        0 <= i < c.nodes.len() && 0 <= j < c.nodes.len() && (#[trigger] c.nodes[i].slots.contains_key(
            id,
        )) implies {
        let known = (#[trigger] c.gossip().nodes[j]).slots;
        &&& known.contains_key(id)
        &&& known[id].consumed >= c.nodes[i].slots[id].consumed
        &&& known[id].freed >= c.nodes[i].slots[id].freed
    } by {
        assert(slots::within(parts[i], pooled(c.nodes)));
    }
    assert forall|j: int, bound: Map<u32, SlotState>|
        0 <= j < c.nodes.len() && (forall|i: int|
            0 <= i < c.nodes.len() ==> slots::within(
                (#[trigger] c.nodes[i]).slots,
                bound,
            )) implies #[trigger] slots::within(c.gossip().nodes[j].slots, bound) by {
        assert forall|i: int| 0 <= i < parts.len() implies slots::within(
            #[trigger] parts[i],
            bound,
        ) by {
            assert(slots::within(c.nodes[i].slots, bound));
        }
        slots::lemma_join_all_is_least(Map::empty(), parts, bound);
    }
}

/// The overshoot and the limit make up the true total where it has passed the limit; where it has
/// not there is none. The other measurements are what was counted.
pub proof fn law_overshoot_and_limit_make_up_the_total(c: ClusterView)
    ensures
        c.true_total >= c.limit ==> c.outcome().overshoot + c.limit == c.true_total,
        c.true_total <= c.limit ==> c.outcome().overshoot == 0,
        c.outcome().true_total == c.true_total,
        c.outcome().admitted == c.admitted,
        c.outcome().denied == c.denied,
        c.outcome().false_denials == c.false_denials,
{
}

/// A cluster starts with every node in its place, under the limit, having written and heard nothing.
pub proof fn law_a_cluster_starts_with_nothing_written(nodes: u32, limit: u64)
    ensures
        ClusterView::start(nodes, limit).nodes.len() == nodes,
        ClusterView::start(nodes, limit).limit == limit,
        ClusterView::start(nodes, limit).true_total == 0,
        ClusterView::start(nodes, limit).admitted == 0,
        ClusterView::start(nodes, limit).denied == 0,
        forall|i: int|
            0 <= i < nodes ==> (#[trigger] ClusterView::start(nodes, limit).nodes[i]).me == i
                && ClusterView::start(nodes, limit).nodes[i].limit == limit && ClusterView::start(
                nodes,
                limit,
            ).nodes[i].slots.dom() == Set::<u32>::empty(),
{
    assert forall|i: int| 0 <= i < nodes implies (#[trigger] ClusterView::start(
        nodes,
        limit,
    ).nodes[i]).slots.dom() == Set::<u32>::empty() by {
        assert(Map::<u32, SlotState>::empty().dom() =~= Set::<u32>::empty());
    }
}

/// The earliest time is no later than any other, and earlier than every one before it; and there is
/// one place at most that has it first.
pub proof fn law_the_earliest_time_comes_first(times: Seq<u64>, i: int, k: int)
    requires
        is_earliest(times, i),
    ensures
        0 <= i < times.len(),
        forall|j: int| 0 <= j < times.len() ==> times[i] <= #[trigger] times[j],
        forall|j: int| 0 <= j < i ==> times[i] < #[trigger] times[j],
        is_earliest(times, k) ==> k == i,
{
    if is_earliest(times, k) && k != i {
        assert(times[i] <= times[k] && times[k] <= times[i]);
    }
}

} // verus!
