//! Counters that write and merge one another in any order.
//!
//! No exchange is prescribed here: any node may write at any time, and any node may merge any
//! other's state at any time. Whatever the order, nothing is lost, nothing is counted twice, and
//! the overshoot is bounded.

use vstd::prelude::*;

use crate::counter::{self, CounterView};
use crate::slots::{self, SlotState};
use crate::sums;

verus! {

/// Something one of the nodes does.
pub enum Deed {
    /// The node at a place offers a write to its own counter.
    Write(int, u64),
    /// The node at the first place merges the state of the node at the second.
    Merge(int, int),
}

/// Nodes with a counter each, and all that was ever admitted at any of them.
#[verifier::ext_equal]
#[verifier::reject_recursive_types(Id)]
pub struct Replicas<Id> {
    /// Each node's counter.
    pub nodes: Seq<CounterView<Id>>,
    /// The sum of all amounts admitted.
    pub admitted: nat,
}

impl<Id> Replicas<Id> {
    /// Fresh counters for these nodes, all under one limit.
    pub open spec fn start(ids: Seq<Id>, limit: u64) -> Self {
        Replicas { nodes: ids.map_values(|id: Id| CounterView::fresh(id, limit)), admitted: 0 }
    }

    /// The nodes after one of them did something. What no node is there to do is not done.
    pub open spec fn after(self, deed: Deed) -> Self {
        match deed {
            Deed::Write(i, amount) => if 0 <= i < self.nodes.len() && self.nodes[i].admits(
                amount,
            ) {
                Replicas {
                    nodes: self.nodes.update(i, self.nodes[i].offer(amount)),
                    admitted: self.admitted + amount as nat,
                }
            } else {
                self
            },
            Deed::Merge(i, j) => if 0 <= i < self.nodes.len() && 0 <= j < self.nodes.len() {
                Replicas {
                    nodes: self.nodes.update(i, self.nodes[i].merge(self.nodes[j])),
                    ..self
                }
            } else {
                self
            },
        }
    }

    /// The nodes after all of `deeds`, first to last.
    pub open spec fn after_all(self, deeds: Seq<Deed>) -> Self
        decreases deeds.len(),
    {
        if deeds.len() == 0 {
            self
        } else {
            self.after_all(deeds.drop_last()).after(deeds.last())
        }
    }

    /// Whose counters they are.
    pub open spec fn ids(self) -> Seq<Id> {
        self.nodes.map_values(|n: CounterView<Id>| n.me)
    }

    /// The counter of a node.
    pub open spec fn node(self, id: Id) -> CounterView<Id> {
        self.nodes[self.ids().index_of(id)]
    }

    /// What the nodes have really done: the own slot of each node that has written.
    pub open spec fn truth(self) -> Map<Id, SlotState> {
        Map::new(
            |id: Id| self.ids().contains(id) && self.node(id).slots.contains_key(id),
            |id: Id| self.node(id).slots[id],
        )
    }

    /// What holds after any deeds: ids are unique and every node has the limit, no node has written
    /// past it by itself, none knows more of another than the other has done, and what was admitted
    /// is what the nodes have written.
    pub open spec fn sound(self, limit: u64) -> bool {
        &&& self.ids().no_duplicates()
        &&& forall|i: int|
            0 <= i < self.nodes.len() ==> {
                let n = #[trigger] self.nodes[i];
                &&& n.limit == limit
                &&& n.slots.dom().finite()
                &&& n.own().consumed <= limit
                &&& n.own().freed == 0
                &&& slots::within(n.slots, self.truth())
            }
        &&& self.admitted == slots::charged(self.truth())
    }
}

/// A node is found by its id.
proof fn lemma_found<Id>(w: Replicas<Id>, i: int)
    requires
        w.ids().no_duplicates(),
        0 <= i < w.nodes.len(),
    ensures
        w.ids().contains(w.nodes[i].me),
        w.ids().index_of(w.nodes[i].me) == i,
        slots::slot_at(w.truth(), w.nodes[i].me) == w.nodes[i].own(),
        w.truth().contains_key(w.nodes[i].me) <==> w.nodes[i].slots.contains_key(w.nodes[i].me),
{
    assert(w.ids()[i] == w.nodes[i].me);
}

/// Finitely many nodes have written, and none of them has freed.
proof fn lemma_truth<Id>(w: Replicas<Id>, limit: u64)
    requires
        w.sound(limit),
    ensures
        w.truth().dom().finite(),
        w.truth().dom().len() <= w.nodes.len(),
        slots::credited(w.truth()) == 0,
        forall|id: Id| #[trigger]
            w.truth().contains_key(id) ==> w.truth()[id].consumed <= limit && w.truth()[id].freed
                == 0,
{
    let t = w.truth();
    let names = w.ids().to_set();
    w.ids().unique_seq_to_set();
    assert(t.dom().subset_of(names));
    vstd::set_lib::lemma_len_subset(t.dom(), names);
    assert forall|id: Id| #[trigger] t.contains_key(id) implies t[id].consumed <= limit
        && t[id].freed == 0 by {
        let i = w.ids().index_of(id);
        assert(w.ids()[i] == w.nodes[i].me);
        assert(w.nodes[i].own() == t[id]);
    }
    let f = |id: Id| t[id].freed as nat;
    sums::lemma_sum_bound(t.dom(), f, 0);
    assert(t.dom().len() * 0 == 0);
}

/// What a node knows it reads: nobody has freed, and its own writes are in it.
proof fn lemma_reading<Id>(w: Replicas<Id>, limit: u64, i: int)
    requires
        w.sound(limit),
        0 <= i < w.nodes.len(),
    ensures
        w.nodes[i].own().consumed <= w.nodes[i].used(),
{
    lemma_truth(w, limit);
    let n = w.nodes[i];
    let c = |id: Id| n.slots[id].consumed as nat;
    let f = |id: Id| n.slots[id].freed as nat;
    assert forall|id: Id| #[trigger] n.slots.dom().contains(id) implies f(id) <= 0 by {
        assert(n.slots.contains_key(id));
        assert(w.truth().contains_key(id));
    }
    sums::lemma_sum_bound(n.slots.dom(), f, 0);
    assert(n.slots.dom().len() * 0 == 0);
    if n.slots.contains_key(n.me) {
        sums::lemma_sum_split(n.slots.dom(), c, n.me);
    }
}

/// A deed keeps the nodes sound.
proof fn lemma_after<Id>(w: Replicas<Id>, limit: u64, deed: Deed)
    requires
        w.sound(limit),
    ensures
        w.after(deed).sound(limit),
        w.after(deed).ids() == w.ids(),
{
    let next = w.after(deed);
    assert(next.ids() =~= w.ids());
    lemma_truth(w, limit);
    match deed {
        Deed::Write(i, amount) => if 0 <= i < w.nodes.len() && w.nodes[i].admits(amount) {
            let n = w.nodes[i];
            lemma_reading(w, limit, i);
            lemma_found(w, i);
            let put = slots::charge(n.slots, n.me, amount)[n.me];
            assert(next.truth() =~= w.truth().insert(n.me, put)) by {
                assert forall|id: Id| #[trigger] next.truth().contains_key(id) implies (id == n.me
                    || w.truth().contains_key(id)) by {
                    let k = w.ids().index_of(id);
                    assert(w.ids()[k] == w.nodes[k].me);
                }
                assert forall|id: Id| w.truth().contains_key(id) && id != n.me implies #[trigger]
                    next.truth().contains_key(id) && next.truth()[id] == w.truth()[id] by {
                    let k = w.ids().index_of(id);
                    assert(w.ids()[k] == w.nodes[k].me);
                }
                assert(next.ids()[i] == n.me);
            }
            slots::lemma_totals_after_put(w.truth(), n.me, put);
            assert forall|k: int| 0 <= k < next.nodes.len() implies {
                let m = #[trigger] next.nodes[k];
                &&& m.limit == limit
                &&& m.slots.dom().finite()
                &&& m.own().consumed <= limit
                &&& m.own().freed == 0
                &&& slots::within(m.slots, next.truth())
            } by {
                assert(slots::within(w.nodes[k].slots, w.truth()));
            }
        },
        Deed::Merge(i, j) => if 0 <= i < w.nodes.len() && 0 <= j < w.nodes.len() {
            let n = w.nodes[i];
            let from = w.nodes[j];
            lemma_found(w, i);
            assert(slots::within(n.slots, w.truth()));
            assert(slots::within(from.slots, w.truth()));
            let merged = slots::join(n.slots, from.slots);
            assert(merged.contains_key(n.me) <==> n.slots.contains_key(n.me)) by {
                if from.slots.contains_key(n.me) {
                    assert(w.truth().contains_key(n.me));
                }
            }
            assert(slots::slot_at(merged, n.me) == n.own());
            assert(merged.dom() =~= n.slots.dom().union(from.slots.dom()));
            assert(next.truth() =~= w.truth()) by {
                assert forall|id: Id| next.truth().contains_key(id) <==> w.truth().contains_key(
                    id,
                ) by {
                    if w.ids().contains(id) {
                        let k = w.ids().index_of(id);
                        assert(w.ids()[k] == w.nodes[k].me);
                    }
                }
                assert forall|id: Id| #[trigger] w.truth().contains_key(id) implies next.truth()[id]
                    == w.truth()[id] by {
                    let k = w.ids().index_of(id);
                    assert(w.ids()[k] == w.nodes[k].me);
                }
            }
            assert forall|k: int| 0 <= k < next.nodes.len() implies {
                let m = #[trigger] next.nodes[k];
                &&& m.limit == limit
                &&& m.slots.dom().finite()
                &&& m.own().consumed <= limit
                &&& m.own().freed == 0
                &&& slots::within(m.slots, next.truth())
            } by {
                assert(slots::within(w.nodes[k].slots, w.truth()));
            }
        },
    }
}

/// Any deeds keep the nodes sound.
pub proof fn law_any_interleaving_keeps_the_nodes_sound<Id>(
    ids: Seq<Id>,
    limit: u64,
    deeds: Seq<Deed>,
)
    requires
        ids.no_duplicates(),
    ensures
        Replicas::start(ids, limit).after_all(deeds).sound(limit),
        Replicas::start(ids, limit).after_all(deeds).ids() == ids,
    decreases deeds.len(),
{
    let start = Replicas::start(ids, limit);
    if deeds.len() == 0 {
        assert(start.ids() =~= ids);
        assert(start.truth().dom() =~= Set::<Id>::empty());
    } else {
        law_any_interleaving_keeps_the_nodes_sound(ids, limit, deeds.drop_last());
        lemma_after(start.after_all(deeds.drop_last()), limit, deeds.last());
    }
}

/// Nothing is lost and nothing is counted twice. Let nodes with a counter each, under one limit,
/// write and merge one another in any order. A node that then merges all the others, in any order
/// and some of them more than once, reads the sum of all that was admitted anywhere -- and that is
/// at most one limit for each node, so the overshoot is at most what the other nodes can admit
/// unseen.
pub proof fn law_any_interleaving_adds_up<Id>(
    ids: Seq<Id>,
    limit: u64,
    deeds: Seq<Deed>,
    i: int,
    parts: Seq<CounterView<Id>>,
)
    requires
        ids.no_duplicates(),
        ids.len() * limit <= u64::MAX,
        0 <= i < ids.len(),
        forall|k: int|
            0 <= k < parts.len() ==> Replicas::start(ids, limit).after_all(deeds).nodes.contains(
                #[trigger] parts[k],
            ),
        forall|j: int|
            0 <= j < ids.len() && j != i ==> parts.contains(
                #[trigger] Replicas::start(ids, limit).after_all(deeds).nodes[j],
            ),
    ensures
        ({
            let w = Replicas::start(ids, limit).after_all(deeds);
            &&& w.nodes[i].merge_all(parts).used() == w.admitted
            &&& w.admitted <= ids.len() * limit
            &&& w.admitted - limit <= (ids.len() - 1) * limit
        }),
{
    let w = Replicas::start(ids, limit).after_all(deeds);
    law_any_interleaving_keeps_the_nodes_sound(ids, limit, deeds);
    assert(w.ids().len() == w.nodes.len());
    let t = w.truth();
    lemma_truth(w, limit);
    let at = |c: CounterView<Id>| c.slots;
    let states = parts.map_values(at);
    let joined = slots::join_all(w.nodes[i].slots, states);
    counter::lemma_merge_all_joins(w.nodes[i], parts);
    assert forall|k: int| 0 <= k < states.len() implies slots::within(#[trigger] states[k], t) by {
        assert(w.nodes.contains(parts[k]));
        let j = w.nodes.index_of(parts[k]);
        assert(slots::within(w.nodes[j].slots, t));
    }
    assert(slots::within(w.nodes[i].slots, t));
    slots::lemma_join_all_is_least(w.nodes[i].slots, states, t);
    slots::lemma_join_all_is_an_upper_bound(w.nodes[i].slots, states);
    assert forall|id: Id| #[trigger] t.contains_key(id) implies joined.contains_key(id)
        && t[id].le(joined[id]) by {
        let j = w.ids().index_of(id);
        assert(w.ids()[j] == w.nodes[j].me);
        assert(w.nodes[j].slots.contains_key(id));
        if j != i {
            assert(parts.contains(w.nodes[j]));
            let k = parts.index_of(w.nodes[j]);
            assert(states[k] == w.nodes[j].slots);
            assert(slots::within(states[k], joined));
        } else {
            assert(slots::within(w.nodes[i].slots, joined));
        }
    }
    slots::lemma_within_antisymmetric(joined, t);
    let c = |id: Id| t[id].consumed as nat;
    sums::lemma_sum_bound(t.dom(), c, limit as nat);
    assert(t.dom().len() * limit <= ids.len() * limit) by (nonlinear_arith)
        requires
            t.dom().len() <= ids.len(),
            0 <= limit,
    ;
    assert(ids.len() * limit == (ids.len() - 1) * limit + limit) by (nonlinear_arith);
}

} // verus!
