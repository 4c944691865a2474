//! Escrow counters and the lender that feeds them, whatever they do and in whatever order.
//!
//! Nodes are granted rights and draw them, acquire, release, hand unused rights back, and take in
//! reports. After any such deeds, what all nodes use together is within the lender's ceiling.

use vstd::prelude::*;

use crate::escrow::{self, EscrowView};
use crate::ledger;
use crate::slots;
use crate::sums;

verus! {

/// Something one of the nodes does.
#[verifier::reject_recursive_types(Id)]
pub enum Deed<Id> {
    /// The lender lends the node at a place this much.
    Grant(int, u64),
    /// The node at a place acquires an amount.
    Acquire(int, u64),
    /// The node at a place draws an amount, towards which the lender lends this much.
    Draw(int, u64, u64),
    /// The node at a place releases an amount.
    Release(int, u64),
    /// The node at a place gives back up to this much of what it does not use, and the lender takes
    /// it.
    GiveBack(int, u64),
    /// The node at a place takes in a report.
    Apply(int, Seq<(Id, u64, u64)>),
}

/// Nodes with a counter each, the lender's book, and its ceiling.
#[verifier::ext_equal]
#[verifier::reject_recursive_types(Id)]
pub struct Fleet<Id> {
    /// Each node's counter.
    pub nodes: Seq<EscrowView<Id>>,
    /// What is lent to each node.
    pub book: Map<Id, u64>,
    /// The most the lender lends in total.
    pub ceiling: u64,
}

impl<Id> Fleet<Id> {
    /// Fresh counters for these nodes, and a lender that has lent nothing.
    pub open spec fn start(ids: Seq<Id>, ceiling: u64) -> Self {
        Fleet {
            nodes: ids.map_values(|id: Id| EscrowView::fresh(id, 0)),
            book: Map::empty(),
            ceiling,
        }
    }

    /// The fleet with another counter at place `i`.
    pub open spec fn with_node(self, i: int, node: EscrowView<Id>) -> Self {
        Fleet { nodes: self.nodes.update(i, node), ..self }
    }

    /// The fleet after the node at `i` was lent `give`.
    pub open spec fn granted(self, i: int, give: u64) -> Self {
        Fleet {
            book: ledger::lend(self.book, self.nodes[i].me, give),
            ..self.with_node(i, self.nodes[i].grant(give))
        }
    }

    /// What the node at `i` gives back of `want`: no more than it does not use.
    pub open spec fn spare(self, i: int, want: u64) -> u64 {
        if want <= self.nodes[i].room() {
            want
        } else {
            self.nodes[i].room()
        }
    }

    /// The fleet after a deed.
    pub open spec fn after(self, deed: Deed<Id>) -> Self {
        match deed {
            Deed::Grant(i, give) => self.granted(i, give),
            Deed::Acquire(i, amount) => self.with_node(i, self.nodes[i].offer(amount)),
            Deed::Draw(i, amount, give) => {
                let lent = self.granted(i, give);
                lent.with_node(i, lent.nodes[i].offer(amount))
            },
            Deed::Release(i, amount) => self.with_node(i, self.nodes[i].credit(amount)),
            Deed::GiveBack(i, want) => {
                let n = self.nodes[i];
                let given = self.spare(i, want);
                Fleet {
                    book: ledger::take_back(self.book, n.me, given),
                    ..self.with_node(
                        i,
                        EscrowView { granted: (n.granted - given) as u64, ..n },
                    )
                }
            },
            Deed::Apply(i, report) => self.with_node(
                i,
                EscrowView {
                    slots: escrow::absorb(self.nodes[i].slots, report),
                    ..self.nodes[i]
                },
            ),
        }
    }

    /// The fleet after all of `deeds`, first to last.
    pub open spec fn after_all(self, deeds: Seq<Deed<Id>>) -> Self
        decreases deeds.len(),
    {
        if deeds.len() == 0 {
            self
        } else {
            self.after_all(deeds.drop_last()).after(deeds.last())
        }
    }

    /// The deed can be done: by a node that is there; the lender lends no more than it has left, nor
    /// more than it is asked for; no node's total of acquisitions overflows; and a report says no more
    /// of the node that takes it in than that node has done.
    pub open spec fn can(self, deed: Deed<Id>) -> bool {
        match deed {
            Deed::Grant(i, give) => {
                &&& 0 <= i < self.nodes.len()
                &&& give <= ledger::unlent(self.book, self.ceiling)
            },
            Deed::Acquire(i, amount) => {
                &&& 0 <= i < self.nodes.len()
                &&& self.nodes[i].admits(amount) ==> self.nodes[i].own().consumed + amount
                    <= u64::MAX
            },
            Deed::Draw(i, amount, give) => {
                &&& 0 <= i < self.nodes.len()
                &&& give <= ledger::unlent(self.book, self.ceiling)
                &&& give <= self.nodes[i].shortfall(amount)
                &&& self.nodes[i].grant(give).admits(amount) ==> self.nodes[i].own().consumed
                    + amount <= u64::MAX
            },
            Deed::Release(i, _) => 0 <= i < self.nodes.len(),
            Deed::GiveBack(i, _) => 0 <= i < self.nodes.len(),
            Deed::Apply(i, report) => {
                &&& 0 <= i < self.nodes.len()
                &&& escrow::says_no_more_of(report, self.nodes[i].me, self.nodes[i].own())
            },
        }
    }

    /// Each of `deeds` can be done when its turn comes.
    pub open spec fn can_all(self, deeds: Seq<Deed<Id>>) -> bool
        decreases deeds.len(),
    {
        deeds.len() == 0 || (self.can_all(deeds.drop_last()) && self.after_all(
            deeds.drop_last(),
        ).can(deeds.last()))
    }

    /// Whose counters they are.
    pub open spec fn ids(self) -> Seq<Id> {
        self.nodes.map_values(|n: EscrowView<Id>| n.me)
    }

    /// The counters by node.
    pub open spec fn by_id(self) -> Map<Id, EscrowView<Id>> {
        Map::new(
            |id: Id| self.ids().contains(id),
            |id: Id| self.nodes[self.ids().index_of(id)],
        )
    }

    /// What all nodes use together.
    pub open spec fn used(self) -> nat {
        sums::sum(self.by_id().dom(), |id: Id| self.by_id()[id].used() as nat)
    }

    /// What holds after any deeds: ids are unique, the book is within the ceiling, and every node
    /// holds what the book says and uses no more.
    pub open spec fn sound(self) -> bool {
        &&& self.ids().no_duplicates()
        &&& self.book.dom().finite()
        &&& ledger::lent(self.book) <= self.ceiling
        &&& forall|i: int|
            0 <= i < self.nodes.len() ==> (#[trigger] self.nodes[i]).within_grant()
                && self.nodes[i].granted == ledger::held(self.book, self.nodes[i].me)
    }
}

/// Changing one node's counter, and the book at that node alone, keeps the fleet sound where the
/// node still holds what the book says and uses no more.
proof fn lemma_sound_after<Id>(f: Fleet<Id>, next: Fleet<Id>, i: int)
    requires
        f.sound(),
        0 <= i < f.nodes.len(),
        next.nodes == f.nodes.update(i, next.nodes[i]),
        next.nodes[i].me == f.nodes[i].me,
        next.nodes[i].within_grant(),
        next.nodes[i].granted == ledger::held(next.book, f.nodes[i].me),
        next.ceiling == f.ceiling,
        next.book.dom().finite(),
        ledger::lent(next.book) <= next.ceiling,
        forall|id: Id|
            id != f.nodes[i].me ==> #[trigger] ledger::held(next.book, id) == ledger::held(
                f.book,
                id,
            ),
    ensures
        next.sound(),
        next.ids() == f.ids(),
{
    assert(next.ids() =~= f.ids());
    assert forall|k: int| 0 <= k < next.nodes.len() implies (#[trigger] next.nodes[k]).within_grant()
        && next.nodes[k].granted == ledger::held(next.book, next.nodes[k].me) by {
        if k != i {
            assert(next.nodes[k] == f.nodes[k]);
            assert(f.ids()[k] != f.ids()[i]);
        }
    }
}

/// A grant keeps the fleet sound, and what the node holds fits.
proof fn lemma_granted<Id>(f: Fleet<Id>, i: int, give: u64)
    requires
        f.sound(),
        0 <= i < f.nodes.len(),
        give <= ledger::unlent(f.book, f.ceiling),
    ensures
        f.granted(i, give).sound(),
        f.granted(i, give).ids() == f.ids(),
        f.nodes[i].granted + give <= u64::MAX,
{
    let me = f.nodes[i].me;
    ledger::lemma_lent_after_put(f.book, me, (ledger::held(f.book, me) + give) as u64);
    lemma_sound_after(f, f.granted(i, give), i);
}

/// A deed keeps the fleet sound.
proof fn lemma_after<Id>(f: Fleet<Id>, deed: Deed<Id>)
    requires
        f.sound(),
        f.can(deed),
    ensures
        f.after(deed).sound(),
        f.after(deed).ids() == f.ids(),
        f.after(deed).ceiling == f.ceiling,
{
    let next = f.after(deed);
    match deed {
        Deed::Grant(i, give) => {
            lemma_granted(f, i, give);
        },
        Deed::Acquire(i, amount) => {
            lemma_sound_after(f, next, i);
        },
        Deed::Draw(i, amount, give) => {
            lemma_granted(f, i, give);
            let lent = f.granted(i, give);
            assert(lent.nodes[i].own() == f.nodes[i].own());
            lemma_sound_after(lent, next, i);
        },
        Deed::Release(i, amount) => {
            lemma_sound_after(f, next, i);
        },
        Deed::GiveBack(i, want) => {
            let n = f.nodes[i];
            let given = f.spare(i, want);
            if f.book.contains_key(n.me) {
                ledger::lemma_lent_after_put(f.book, n.me, (f.book[n.me] - given) as u64);
            }
            assert(next.nodes[i].own() == n.own());
            lemma_sound_after(f, next, i);
        },
        Deed::Apply(i, report) => {
            escrow::lemma_absorb_keeps(f.nodes[i].slots, report, f.nodes[i].me);
            assert(next.nodes[i].own() == f.nodes[i].own());
            lemma_sound_after(f, next, i);
        },
    }
}

/// Any deeds keep the fleet sound: every node holds what the lender's book says, and uses no more.
pub proof fn law_any_deeds_keep_the_fleet_sound<Id>(
    ids: Seq<Id>,
    ceiling: u64,
    deeds: Seq<Deed<Id>>,
)
    requires
        ids.no_duplicates(),
        Fleet::start(ids, ceiling).can_all(deeds),
    ensures
        Fleet::start(ids, ceiling).after_all(deeds).sound(),
        Fleet::start(ids, ceiling).after_all(deeds).ids() == ids,
        Fleet::start(ids, ceiling).after_all(deeds).ceiling == ceiling,
    decreases deeds.len(),
{
    let start = Fleet::start(ids, ceiling);
    if deeds.len() == 0 {
        assert(start.ids() =~= ids);
        assert(start.book.dom() =~= Set::<Id>::empty());
    } else {
        law_any_deeds_keep_the_fleet_sound(ids, ceiling, deeds.drop_last());
        lemma_after(start.after_all(deeds.drop_last()), deeds.last());
    }
}

/// The limit is never exceeded. Let nodes be granted rights, draw, acquire, release, give back and
/// take in reports, in any order. What all of them use together is within the lender's ceiling, and
/// so is the net of what they have really done. With the ceiling at the limit there is no overshoot;
/// with a ceiling above it, the overshoot is at most the difference.
pub proof fn law_no_deeds_exceed_the_ceiling<Id>(
    ids: Seq<Id>,
    ceiling: u64,
    deeds: Seq<Deed<Id>>,
)
    requires
        ids.no_duplicates(),
        Fleet::start(ids, ceiling).can_all(deeds),
    ensures
        Fleet::start(ids, ceiling).after_all(deeds).used() <= ceiling,
        slots::net(
            escrow::true_usage(Fleet::start(ids, ceiling).after_all(deeds).by_id()),
        ) <= ceiling,
{
    let f = Fleet::start(ids, ceiling).after_all(deeds);
    law_any_deeds_keep_the_fleet_sound(ids, ceiling, deeds);
    vstd::seq_lib::seq_to_set_is_finite(f.ids());
    assert(f.by_id().dom() =~= f.ids().to_set());
    assert forall|id: Id| #[trigger] f.by_id().contains_key(id) implies f.by_id()[id].within_grant()
        && f.by_id()[id].granted <= ledger::held(f.book, id) by {
        let i = f.ids().index_of(id);
        assert(f.ids()[i] == f.nodes[i].me);
    }
    escrow::law_the_ceiling_is_never_exceeded(f.by_id(), f.book, ceiling);
}

} // verus!
