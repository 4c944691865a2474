//! Per-node slots and the join that merges two replicas' views of them.

use std::collections::BTreeMap;

use vstd::prelude::*;
use vstd::std_specs::iter::IteratorSpec;

use crate::keys::{self, copy_key, entries};
use crate::sums;

verus! {

/// What one node has contributed to a counter. Both fields are **grow-only**: a write only
/// adds to `consumed`, a free only adds to `freed`, so a slot merges by taking the larger of
/// each and never loses an update.
#[derive(Clone, Copy, Debug, PartialEq, Eq, Structural)]
pub struct SlotState {
    /// Total charged against this slot -- writes. Grow-only.
    pub consumed: u64,
    /// Total credited back to this slot -- frees, deletes. Grow-only.
    pub freed: u64,
}

impl SlotState {
    /// Nothing charged and nothing credited: the slot of a node that has done neither.
    pub open spec fn unused() -> SlotState {
        SlotState { consumed: 0, freed: 0 }
    }

    /// The larger of each total.
    pub open spec fn join(self, other: SlotState) -> SlotState {
        SlotState {
            consumed: if self.consumed >= other.consumed { self.consumed } else { other.consumed },
            freed: if self.freed >= other.freed { self.freed } else { other.freed },
        }
    }

    /// Neither total is larger than `other`'s.
    pub open spec fn le(self, other: SlotState) -> bool {
        self.consumed <= other.consumed && self.freed <= other.freed
    }
}

/// The slot of `id`: what `slots` holds for it, or an unused slot.
pub open spec fn slot_at<Id>(slots: Map<Id, SlotState>, id: Id) -> SlotState {
    if slots.contains_key(id) {
        slots[id]
    } else {
        SlotState::unused()
    }
}

/// Everything written, over every slot.
pub open spec fn charged<Id>(slots: Map<Id, SlotState>) -> nat {
    sums::sum(slots.dom(), |id: Id| slots[id].consumed as nat)
}

/// Everything freed, over every slot.
pub open spec fn credited<Id>(slots: Map<Id, SlotState>) -> nat {
    sums::sum(slots.dom(), |id: Id| slots[id].freed as nat)
}

/// Writes less frees, and zero where the frees seen outweigh the writes seen.
pub open spec fn net<Id>(slots: Map<Id, SlotState>) -> nat {
    if charged(slots) > credited(slots) {
        (charged(slots) - credited(slots)) as nat
    } else {
        0
    }
}

/// The net usage as a counter reports it: held at the largest value a `u64` has.
pub open spec fn reading<Id>(slots: Map<Id, SlotState>) -> u64 {
    if net(slots) <= u64::MAX {
        net(slots) as u64
    } else {
        u64::MAX
    }
}

/// The state that holds, slot by slot, the larger of what `a` and `b` hold.
pub open spec fn join<Id>(a: Map<Id, SlotState>, b: Map<Id, SlotState>) -> Map<Id, SlotState> {
    Map::new(
        |id: Id| a.contains_key(id) || b.contains_key(id),
        |id: Id| slot_at(a, id).join(slot_at(b, id)),
    )
}

/// `slots` after `id` has written `amount` more.
pub open spec fn charge<Id>(
    slots: Map<Id, SlotState>,
    id: Id,
    amount: u64,
) -> Map<Id, SlotState> {
    let mine = slot_at(slots, id);
    slots.insert(id, SlotState { consumed: (mine.consumed + amount) as u64, freed: mine.freed })
}

/// `slots` after `id` has freed `amount` more. The total of what is freed stays at the largest
/// figure there is once it has reached it.
pub open spec fn credit<Id>(
    slots: Map<Id, SlotState>,
    id: Id,
    amount: u64,
) -> Map<Id, SlotState> {
    let mine = slot_at(slots, id);
    slots.insert(
        id,
        SlotState {
            consumed: mine.consumed,
            freed: if mine.freed + amount <= u64::MAX {
                (mine.freed + amount) as u64
            } else {
                u64::MAX
            },
        },
    )
}

/// Everything `a` has recorded, `b` has recorded too: each slot of `a` is in `b`, no smaller.
pub open spec fn within<Id>(a: Map<Id, SlotState>, b: Map<Id, SlotState>) -> bool {
    forall|id: Id| #[trigger]
        a.contains_key(id) ==> b.contains_key(id) && a[id].le(b[id])
}

/// `base` with every state of `parts` joined in, first to last.
pub open spec fn join_all<Id>(
    base: Map<Id, SlotState>,
    parts: Seq<Map<Id, SlotState>>,
) -> Map<Id, SlotState>
    decreases parts.len(),
{
    if parts.len() == 0 {
        base
    } else {
        join(join_all(base, parts.drop_last()), parts.last())
    }
}

/// The slot of `id` in an executable map.
pub(crate) fn slot_of<Id: Ord + Clone>(slots: &BTreeMap<Id, SlotState>, id: &Id) -> (s: SlotState)
    requires
        keys::lawful_key::<Id>(),
    ensures
        s == slot_at(slots@, *id),
{
    match slots.get(id) {
        Some(s) => *s,
        None => SlotState { consumed: 0, freed: 0 },
    }
}

/// The net usage recorded in `slots`.
pub(crate) fn read_slots<Id: Ord + Clone>(slots: &BTreeMap<Id, SlotState>) -> (r: u64)
    requires
        keys::lawful_key::<Id>(),
    ensures
        r == reading(slots@),
{
    let mut consumed: u128 = 0;
    let mut freed: u128 = 0;
    let count: usize = slots.len();
    let iter = entries(slots);
    let ghost walk = iter.remaining();
    let ghost m = slots@;
    let ghost c = |id: Id| m[id].consumed as nat;
    let ghost f = |id: Id| m[id].freed as nat;
    for e in it: iter
        invariant
            it.seq() == walk,
            keys::walks(walk, m),
            walk.len() == count,
            c == (|id: Id| m[id].consumed as nat),
            f == (|id: Id| m[id].freed as nat),
            consumed == sums::sum(keys::keys_of(walk).take(it.index()).to_set(), c),
            freed == sums::sum(keys::keys_of(walk).take(it.index()).to_set(), f),
            consumed <= it.index() * u64::MAX,
            freed <= it.index() * u64::MAX,
    {
        proof {
            let n = it.index();
            let seen = keys::keys_of(walk).take(n).to_set();
            keys::lemma_walk_step(walk, m, n);
            sums::lemma_sum_insert(seen, c, *e.0);
            sums::lemma_sum_insert(seen, f, *e.0);
            assert((n + 1) * u64::MAX <= u128::MAX) by (nonlinear_arith)
                requires
                    0 <= n < usize::MAX,
            ;
            assert((n + 1) * u64::MAX == n * u64::MAX + u64::MAX) by (nonlinear_arith);
        }
        consumed = consumed + (e.1.consumed as u128);
        freed = freed + (e.1.freed as u128);
    }
    proof {
        keys::lemma_walk_end(walk, m);
    }
    let used: u128 = consumed.saturating_sub(freed);
    if used <= (u64::MAX as u128) {
        used as u64
    } else {
        u64::MAX
    }
}

/// Joins `theirs` into `mine`: per slot, the larger `consumed` and the larger `freed` win.
pub(crate) fn merge_slots<Id: Ord + Clone>(
    mine: &mut BTreeMap<Id, SlotState>,
    theirs: &BTreeMap<Id, SlotState>,
)
    requires
        keys::lawful_key::<Id>(),
    ensures
        final(mine)@ == join(old(mine)@, theirs@),
{
    let iter = entries(theirs);
    let ghost walk = iter.remaining();
    let ghost base = mine@;
    let ghost m = theirs@;
    for e in it: iter
        invariant
            it.seq() == walk,
            keys::lawful_key::<Id>(),
            keys::walks(walk, m),
            mine@ == join(base, m.restrict(keys::keys_of(walk).take(it.index()).to_set())),
    {
        proof {
            keys::lemma_walk_step(walk, m, it.index());
        }
        let ghost seen = keys::keys_of(walk).take(it.index()).to_set();
        let ghost before = mine@;
        raise_slot(mine, e.0, *e.1);
        proof {
            assert(join(base, m.restrict(seen.insert(*e.0))) =~= before.insert(
                *e.0,
                slot_at(before, *e.0).join(*e.1),
            ));
        }
    }
    proof {
        keys::lemma_walk_end(walk, m);
        assert(m.restrict(m.dom()) =~= m);
    }
}

/// Raises the slot of `id` to at least `floor` in both totals, creating it where it is absent.
pub(crate) fn raise_slot<Id: Ord + Clone>(
    slots: &mut BTreeMap<Id, SlotState>,
    id: &Id,
    floor: SlotState,
)
    requires
        keys::lawful_key::<Id>(),
    ensures
        final(slots)@ == old(slots)@.insert(*id, slot_at(old(slots)@, *id).join(floor)),
{
    let mine = slot_of(slots, id);
    let raised = SlotState {
        consumed: if mine.consumed >= floor.consumed { mine.consumed } else { floor.consumed },
        freed: if mine.freed >= floor.freed { mine.freed } else { floor.freed },
    };
    slots.insert(copy_key(id), raised);
}

/// Adds `amount` to what `id` has written.
pub(crate) fn charge_slot<Id: Ord + Clone>(
    slots: &mut BTreeMap<Id, SlotState>,
    id: &Id,
    amount: u64,
)
    requires
        keys::lawful_key::<Id>(),
        slot_at(old(slots)@, *id).consumed + amount <= u64::MAX,
    ensures
        final(slots)@ == charge(old(slots)@, *id, amount),
{
    let mine = slot_of(slots, id);
    let bumped = SlotState { consumed: mine.consumed + amount, freed: mine.freed };
    slots.insert(copy_key(id), bumped);
}

/// Adds `amount` to what `id` has freed, up to the largest figure there is.
pub(crate) fn credit_slot<Id: Ord + Clone>(
    slots: &mut BTreeMap<Id, SlotState>,
    id: &Id,
    amount: u64,
)
    requires
        keys::lawful_key::<Id>(),
    ensures
        final(slots)@ == credit(old(slots)@, *id, amount),
{
    let mine = slot_of(slots, id);
    let bumped = SlotState { consumed: mine.consumed, freed: mine.freed.saturating_add(amount) };
    slots.insert(copy_key(id), bumped);
}

/// Replacing one slot moves each total by the difference in that slot.
pub proof fn lemma_totals_after_put<Id>(slots: Map<Id, SlotState>, id: Id, put: SlotState)
    requires
        slots.dom().finite(),
    ensures
        charged(slots.insert(id, put)) == charged(slots) - slot_at(slots, id).consumed
            + put.consumed,
        credited(slots.insert(id, put)) == credited(slots) - slot_at(slots, id).freed + put.freed,
{
    let rest = slots.dom().remove(id);
    let next = slots.insert(id, put);
    let c = |k: Id| slots[k].consumed as nat;
    let f = |k: Id| slots[k].freed as nat;
    let nc = |k: Id| next[k].consumed as nat;
    let nf = |k: Id| next[k].freed as nat;
    if slots.contains_key(id) {
        sums::lemma_sum_split(slots.dom(), c, id);
        sums::lemma_sum_split(slots.dom(), f, id);
    } else {
        assert(rest =~= slots.dom());
    }
    sums::lemma_sum_split(next.dom(), nc, id);
    sums::lemma_sum_split(next.dom(), nf, id);
    assert(next.dom().remove(id) =~= rest);
    sums::lemma_sum_congruent(rest, c, nc);
    sums::lemma_sum_congruent(rest, f, nf);
}

/// Merging is idempotent: a replica that merges its own state is unchanged.
pub proof fn law_join_is_idempotent<Id>(a: Map<Id, SlotState>)
    ensures
        join(a, a) == a,
{
    assert(join(a, a) =~= a);
}

/// Merging is commutative: who merges whom does not matter.
pub proof fn law_join_is_commutative<Id>(a: Map<Id, SlotState>, b: Map<Id, SlotState>)
    ensures
        join(a, b) == join(b, a),
{
    assert(join(a, b) =~= join(b, a));
}

/// Merging is associative: a state may be merged directly or by way of another replica.
pub proof fn law_join_is_associative<Id>(
    a: Map<Id, SlotState>,
    b: Map<Id, SlotState>,
    c: Map<Id, SlotState>,
)
    ensures
        join(join(a, b), c) == join(a, join(b, c)),
{
    assert(join(join(a, b), c) =~= join(a, join(b, c)));
}

/// The same state delivered a second time changes nothing.
pub proof fn law_redelivery_changes_nothing<Id>(a: Map<Id, SlotState>, b: Map<Id, SlotState>)
    ensures
        join(join(a, b), b) == join(a, b),
{
    assert(join(join(a, b), b) =~= join(a, b));
}

/// A merge loses nothing: whatever either side had recorded, the result has recorded.
pub proof fn law_join_never_lowers_a_slot<Id>(a: Map<Id, SlotState>, b: Map<Id, SlotState>)
    ensures
        within(a, join(a, b)),
        within(b, join(a, b)),
{
}

/// A merge adds nothing either: it is the least state that has recorded what both sides had.
pub proof fn law_join_is_the_least_upper_bound<Id>(
    a: Map<Id, SlotState>,
    b: Map<Id, SlotState>,
    bound: Map<Id, SlotState>,
)
    requires
        within(a, bound),
        within(b, bound),
    ensures
        within(join(a, b), bound),
{
}

/// `within` is a partial order.
pub proof fn lemma_within_antisymmetric<Id>(a: Map<Id, SlotState>, b: Map<Id, SlotState>)
    requires
        within(a, b),
        within(b, a),
    ensures
        a == b,
{
    assert forall|id: Id| a.contains_key(id) <==> b.contains_key(id) by {}
    assert forall|id: Id| a.contains_key(id) implies a[id] == b[id] by {}
    assert(a =~= b);
}

/// `join_all` holds everything that `base` and each of `parts` hold.
pub proof fn lemma_join_all_is_an_upper_bound<Id>(
    base: Map<Id, SlotState>,
    parts: Seq<Map<Id, SlotState>>,
)
    ensures
        within(base, join_all(base, parts)),
        forall|i: int| 0 <= i < parts.len() ==> within(#[trigger] parts[i], join_all(base, parts)),
    decreases parts.len(),
{
    if parts.len() > 0 {
        let front = parts.drop_last();
        lemma_join_all_is_an_upper_bound(base, front);
        assert forall|i: int| 0 <= i < parts.len() implies within(
            #[trigger] parts[i],
            join_all(base, parts),
        ) by {
            if i < front.len() {
                assert(parts[i] == front[i]);
            }
        }
    }
}

/// `join_all` holds nothing beyond what bounds `base` and each of `parts`.
pub proof fn lemma_join_all_is_least<Id>(
    base: Map<Id, SlotState>,
    parts: Seq<Map<Id, SlotState>>,
    bound: Map<Id, SlotState>,
)
    requires
        within(base, bound),
        forall|i: int| 0 <= i < parts.len() ==> within(#[trigger] parts[i], bound),
    ensures
        within(join_all(base, parts), bound),
    decreases parts.len(),
{
    if parts.len() > 0 {
        let front = parts.drop_last();
        assert forall|i: int| 0 <= i < front.len() implies within(#[trigger] front[i], bound) by {
            assert(front[i] == parts[i]);
        }
        lemma_join_all_is_least(base, front, bound);
        assert(within(parts[parts.len() - 1], bound));
    }
}

/// Strong eventual consistency: replicas that have merged the same set of states agree, in
/// whatever order and however often each state was delivered.
pub proof fn law_all_merge_orders_converge<Id>(
    base: Map<Id, SlotState>,
    parts: Seq<Map<Id, SlotState>>,
    others: Seq<Map<Id, SlotState>>,
)
    requires
        parts.to_set() == others.to_set(),
    ensures
        join_all(base, parts) == join_all(base, others),
{
    lemma_join_all_covers(base, parts, others);
    lemma_join_all_covers(base, others, parts);
    lemma_within_antisymmetric(join_all(base, parts), join_all(base, others));
}

proof fn lemma_join_all_covers<Id>(
    base: Map<Id, SlotState>,
    parts: Seq<Map<Id, SlotState>>,
    others: Seq<Map<Id, SlotState>>,
)
    requires
        parts.to_set() == others.to_set(),
    ensures
        within(join_all(base, parts), join_all(base, others)),
{
    lemma_join_all_is_an_upper_bound(base, others);
    assert forall|i: int| 0 <= i < parts.len() implies within(
        #[trigger] parts[i],
        join_all(base, others),
    ) by {
        assert(others.to_set().contains(parts[i]));
        let j = choose|j: int| 0 <= j < others.len() && others[j] == parts[i];
        assert(within(others[j], join_all(base, others)));
    }
    lemma_join_all_is_least(base, parts, join_all(base, others));
}

/// Reports add up exactly. Let `truth` hold every node's own slot. A replica that starts from
/// nothing and merges reports, none of which runs ahead of the truth, ends at the truth itself
/// once each node's own slot is in one of them -- by whatever route the reports came, and
/// however many of them carried the same slot.
pub proof fn law_complete_reports_are_exact<Id>(
    truth: Map<Id, SlotState>,
    reports: Seq<Map<Id, SlotState>>,
)
    requires
        forall|i: int| 0 <= i < reports.len() ==> within(#[trigger] reports[i], truth),
        forall|id: Id| #[trigger]
            truth.contains_key(id) ==> exists|i: int|
                0 <= i < reports.len() && (#[trigger] reports[i]).contains_key(id) && reports[i][id]
                    == truth[id],
    ensures
        join_all(Map::empty(), reports) == truth,
        net(join_all(Map::empty(), reports)) == net(truth),
{
    let joined = join_all(Map::<Id, SlotState>::empty(), reports);
    lemma_join_all_is_least(Map::empty(), reports, truth);
    lemma_join_all_is_an_upper_bound(Map::empty(), reports);
    assert forall|id: Id| #[trigger] truth.contains_key(id) implies joined.contains_key(id)
        && truth[id].le(joined[id]) by {
        let i = choose|i: int|
            0 <= i < reports.len() && (#[trigger] reports[i]).contains_key(id) && reports[i][id]
                == truth[id];
        assert(within(reports[i], joined));
    }
    lemma_within_antisymmetric(joined, truth);
}

/// A view that lags the truth in writes, and has seen no fewer frees, reads no more than the
/// truth.
pub proof fn lemma_reading_monotone<Id>(seen: Map<Id, SlotState>, truth: Map<Id, SlotState>)
    requires
        truth.dom().finite(),
        within(seen, truth),
        credited(truth) <= credited(seen),
    ensures
        charged(seen) <= charged(truth),
        reading(seen) <= reading(truth),
{
    let s = |id: Id| seen[id].consumed as nat;
    let t = |id: Id| truth[id].consumed as nat;
    assert(seen.dom().subset_of(truth.dom()));
    sums::lemma_sum_monotone(seen.dom(), s, t);
    sums::lemma_sum_subset(seen.dom(), truth.dom(), t);
}

/// Sequences with the same elements still have the same elements once mapped.
pub proof fn lemma_same_set_mapped<A, B>(a: Seq<A>, b: Seq<A>, f: spec_fn(A) -> B)
    requires
        a.to_set() == b.to_set(),
    ensures
        a.map_values(f).to_set() == b.map_values(f).to_set(),
{
    assert forall|x: B| a.map_values(f).to_set().contains(x) implies b.map_values(
        f,
    ).to_set().contains(x) by {
        let i = choose|i: int| 0 <= i < a.len() && #[trigger] a.map_values(f)[i] == x;
        assert(b.to_set().contains(a[i]));
        let j = choose|j: int| 0 <= j < b.len() && b[j] == a[i];
        assert(b.map_values(f)[j] == x);
    }
    assert forall|x: B| b.map_values(f).to_set().contains(x) implies a.map_values(
        f,
    ).to_set().contains(x) by {
        let i = choose|i: int| 0 <= i < b.len() && #[trigger] b.map_values(f)[i] == x;
        assert(a.to_set().contains(b[i]));
        let j = choose|j: int| 0 <= j < a.len() && a[j] == b[i];
        assert(a.map_values(f)[j] == x);
    }
    assert(a.map_values(f).to_set() =~= b.map_values(f).to_set());
}

/// A state that has recorded nothing reads zero.
pub proof fn law_nothing_recorded_reads_zero<Id>()
    ensures
        charged(Map::<Id, SlotState>::empty()) == 0,
        credited(Map::<Id, SlotState>::empty()) == 0,
        reading(Map::<Id, SlotState>::empty()) == 0,
{
    assert(Map::<Id, SlotState>::empty().dom() =~= Set::<Id>::empty());
}

/// The totals count every slot once: a state is worth what it is worth without a slot, and that
/// slot's own totals.
pub proof fn law_totals_count_every_slot_once<Id>(slots: Map<Id, SlotState>, id: Id)
    requires
        slots.dom().finite(),
        slots.contains_key(id),
    ensures
        charged(slots) == charged(slots.remove(id)) + slots[id].consumed,
        credited(slots) == credited(slots.remove(id)) + slots[id].freed,
{
    let rest = slots.remove(id);
    assert(rest.insert(id, slots[id]) =~= slots);
    lemma_totals_after_put(rest, id, slots[id]);
}

/// A reading and the frees make up the writes; it is zero where the frees outweigh them, and the
/// largest figure there is where no figure is large enough.
pub proof fn law_a_reading_and_the_frees_make_up_the_writes<Id>(slots: Map<Id, SlotState>)
    ensures
        credited(slots) <= charged(slots) <= credited(slots) + u64::MAX ==> reading(slots)
            + credited(slots) == charged(slots),
        charged(slots) <= credited(slots) ==> reading(slots) == 0,
        charged(slots) >= credited(slots) + u64::MAX ==> reading(slots) == u64::MAX,
{
}

/// A write adds its amount to what the node has written and touches nothing else.
pub proof fn law_a_write_moves_one_figure<Id>(slots: Map<Id, SlotState>, id: Id, amount: u64)
    requires
        slots.contains_key(id) ==> slots[id].consumed + amount <= u64::MAX,
    ensures
        charge(slots, id, amount).contains_key(id),
        slots.contains_key(id) ==> charge(slots, id, amount)[id].consumed == slots[id].consumed
            + amount && charge(slots, id, amount)[id].freed == slots[id].freed,
        !slots.contains_key(id) ==> charge(slots, id, amount)[id].consumed == amount && charge(
            slots,
            id,
            amount,
        )[id].freed == 0,
        charge(slots, id, amount).remove(id) == slots.remove(id),
{
    assert(charge(slots, id, amount).remove(id) =~= slots.remove(id));
}

/// A free adds its amount to what the node has freed, as far as there are figures, and touches
/// nothing else.
pub proof fn law_a_free_moves_one_figure<Id>(slots: Map<Id, SlotState>, id: Id, amount: u64)
    ensures
        credit(slots, id, amount).contains_key(id),
        slots.contains_key(id) ==> credit(slots, id, amount)[id].consumed == slots[id].consumed,
        slots.contains_key(id) && slots[id].freed + amount <= u64::MAX ==> credit(
            slots,
            id,
            amount,
        )[id].freed == slots[id].freed + amount,
        slots.contains_key(id) && slots[id].freed + amount > u64::MAX ==> credit(
            slots,
            id,
            amount,
        )[id].freed == u64::MAX,
        !slots.contains_key(id) ==> credit(slots, id, amount)[id].consumed == 0 && credit(
            slots,
            id,
            amount,
        )[id].freed == amount,
        credit(slots, id, amount).remove(id) == slots.remove(id),
{
    assert(credit(slots, id, amount).remove(id) =~= slots.remove(id));
}

/// What a merge keeps of each slot: a slot either side has, each of its totals no smaller than
/// either side's, and each total one that a side has.
pub proof fn law_a_merge_keeps_the_larger_totals<Id>(
    a: Map<Id, SlotState>,
    b: Map<Id, SlotState>,
)
    ensures
        join(a, b).dom() == a.dom().union(b.dom()),
        forall|id: Id| #[trigger]
            a.contains_key(id) ==> join(a, b)[id].consumed >= a[id].consumed && join(a, b)[id].freed
                >= a[id].freed,
        forall|id: Id| #[trigger]
            b.contains_key(id) ==> join(a, b)[id].consumed >= b[id].consumed && join(a, b)[id].freed
                >= b[id].freed,
        forall|id: Id| #[trigger]
            join(a, b).contains_key(id) ==> {
                ||| a.contains_key(id) && join(a, b)[id].consumed == a[id].consumed
                ||| b.contains_key(id) && join(a, b)[id].consumed == b[id].consumed
            },
        forall|id: Id| #[trigger]
            join(a, b).contains_key(id) ==> {
                ||| a.contains_key(id) && join(a, b)[id].freed == a[id].freed
                ||| b.contains_key(id) && join(a, b)[id].freed == b[id].freed
            },
{
    assert(join(a, b).dom() =~= a.dom().union(b.dom()));
}

} // verus!
