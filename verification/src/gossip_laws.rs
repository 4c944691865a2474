//! What holds of a gossiping cluster in every run: nobody spends past a grant, nobody knows more
//! of a node than the node has done, and so the ceiling holds whatever the network does.

use vstd::prelude::*;

use crate::escrow::{self, EscrowView};
use crate::gossip::{self, Action, NodeView, Phase, Step, WorldView};
use crate::ledger;
use crate::rng::Rng;
use crate::slots::{self, SlotState};
use crate::sums;
use crate::wire;

verus! {

/// Each node's counter, by id.
pub open spec fn fleet(nodes: Seq<NodeView>) -> Map<u32, EscrowView<u32>> {
    Map::new(
        |id: u32| gossip::ids(nodes).contains(id),
        |id: u32| nodes[gossip::find(nodes, id).unwrap()].usage,
    )
}

/// What the nodes have really done: each one's own slot, by id.
pub open spec fn truth(nodes: Seq<NodeView>) -> Map<u32, SlotState> {
    escrow::true_usage(fleet(nodes))
}

/// Every line of the payload says of a node no more than the node has done.
pub open spec fn genuine(truth: Map<u32, SlotState>, payload: Seq<u8>) -> bool {
    forall|k: int|
        0 <= k < wire::report_of(payload).len() ==> {
            let line = #[trigger] wire::report_of(payload)[k];
            truth.contains_key(line.0) && escrow::line_slot(line).le(truth[line.0])
        }
}

/// What holds of a node in a sound world.
pub open spec fn node_sound(
    n: NodeView,
    book: Map<u32, u64>,
    truth: Map<u32, SlotState>,
) -> bool {
    &&& n.usage.me == n.id
    &&& n.usage.slots.dom().finite()
    &&& n.usage.granted == ledger::held(book, n.id)
    &&& n.usage.own().freed == 0
    &&& n.usage.own().consumed <= n.usage.granted
    &&& slots::within(n.usage.slots, truth)
}

/// What holds of every world that only ever delivers what was broadcast: ids are unique, the
/// governor's book is within its ceiling and names only nodes, each node holds exactly what the
/// book says and spends no more, no node knows more of another than the other has done, the true
/// total is what the nodes have acquired, and every payload broadcast is genuine.
pub open spec fn sound<M>(w: WorldView<M>) -> bool {
    &&& gossip::ids(w.nodes).no_duplicates()
    &&& w.book.dom().finite()
    &&& forall|id: u32| #[trigger]
        w.book.contains_key(id) ==> gossip::ids(w.nodes).contains(id)
    &&& ledger::lent(w.book) <= w.ceiling
    &&& w.ceiling == w.p.limit + w.p.delta
    &&& forall|i: int|
        0 <= i < w.nodes.len() ==> node_sound(#[trigger] w.nodes[i], w.book, truth(w.nodes))
    &&& w.true_total == slots::charged(truth(w.nodes))
    &&& forall|payload: Seq<u8>| #[trigger]
        w.sent.contains(payload) ==> genuine(truth(w.nodes), payload)
}

/// Everything the actions deliver was broadcast before.
pub open spec fn delivers_only_broadcasts<M>(w: WorldView<M>, actions: Seq<Action<M>>) -> bool {
    forall|k: int|
        0 <= k < actions.len() ==> match #[trigger] actions[k] {
            Action::Deliver(payload) => w.sent.contains(payload@),
            Action::Send(_, _) => true,
        }
}

/// Where ids are unique, a node is found at its own place.
proof fn lemma_found(nodes: Seq<NodeView>, i: int)
    requires
        gossip::ids(nodes).no_duplicates(),
        0 <= i < nodes.len(),
    ensures
        gossip::find(nodes, nodes[i].id) == Some(i),
        fleet(nodes).contains_key(nodes[i].id),
        fleet(nodes)[nodes[i].id] == nodes[i].usage,
        truth(nodes).contains_key(nodes[i].id),
        truth(nodes)[nodes[i].id] == nodes[i].usage.own(),
{
    let all = gossip::ids(nodes);
    let id = nodes[i].id;
    assert(all[i] == id);
    all.index_of_first_ensures(id);
}

/// Every id of the fleet is some node's.
proof fn lemma_fleet_node(nodes: Seq<NodeView>, id: u32) -> (i: int)
    requires
        gossip::ids(nodes).no_duplicates(),
        gossip::ids(nodes).contains(id),
    ensures
        0 <= i < nodes.len(),
        nodes[i].id == id,
        gossip::find(nodes, id) == Some(i),
        fleet(nodes)[id] == nodes[i].usage,
{
    let all = gossip::ids(nodes);
    all.index_of_first_ensures(id);
    let i = gossip::find(nodes, id).unwrap();
    assert(all[i] == nodes[i].id);
    i
}

/// There are finitely many nodes.
proof fn lemma_fleet_finite(nodes: Seq<NodeView>)
    ensures
        fleet(nodes).dom().finite(),
        truth(nodes).dom() == fleet(nodes).dom(),
        truth(nodes).dom().finite(),
{
    vstd::seq_lib::seq_to_set_is_finite(gossip::ids(nodes));
    assert(fleet(nodes).dom() =~= gossip::ids(nodes).to_set());
    assert(truth(nodes).dom() =~= fleet(nodes).dom());
}

/// Changing one node's counter changes the fleet at that node alone.
proof fn lemma_fleet_update(nodes: Seq<NodeView>, i: int, n: NodeView)
    requires
        gossip::ids(nodes).no_duplicates(),
        0 <= i < nodes.len(),
        n.id == nodes[i].id,
    ensures
        gossip::ids(nodes.update(i, n)) == gossip::ids(nodes),
        fleet(nodes.update(i, n)) == fleet(nodes).insert(n.id, n.usage),
        truth(nodes.update(i, n)) == truth(nodes).insert(n.id, n.usage.own()),
{
    let next = nodes.update(i, n);
    assert(gossip::ids(next) =~= gossip::ids(nodes));
    assert forall|id: u32| gossip::ids(nodes).contains(id) implies fleet(next)[id] == fleet(
        nodes,
    ).insert(n.id, n.usage)[id] by {
        let j = lemma_fleet_node(nodes, id);
        lemma_found(next, j);
        lemma_found(nodes, j);
        if id == n.id {
            lemma_found(nodes, i);
        }
    }
    lemma_found(nodes, i);
    assert(fleet(next) =~= fleet(nodes).insert(n.id, n.usage));
    assert(truth(next) =~= truth(nodes).insert(n.id, n.usage.own()));
}

/// A genuine payload stays genuine while the nodes go on.
proof fn lemma_genuine_persists(
    before: Map<u32, SlotState>,
    after: Map<u32, SlotState>,
    payload: Seq<u8>,
)
    requires
        genuine(before, payload),
        slots::within(before, after),
    ensures
        genuine(after, payload),
{
    assert forall|k: int| 0 <= k < wire::report_of(payload).len() implies {
        let line = #[trigger] wire::report_of(payload)[k];
        after.contains_key(line.0) && escrow::line_slot(line).le(after[line.0])
    } by {
        let line = wire::report_of(payload)[k];
        assert(before.contains_key(line.0));
    }
}

/// Merging a genuine payload tells a node nothing of itself, and nothing false of anyone.
proof fn lemma_absorb_genuine(n: NodeView, t: Map<u32, SlotState>, payload: Seq<u8>)
    requires
        n.usage.me == n.id,
        slots::within(n.usage.slots, t),
        t.contains_key(n.id),
        t[n.id] == n.usage.own(),
        n.usage.slots.dom().finite(),
        genuine(t, payload),
    ensures
        ({
            let after = escrow::absorb(n.usage.slots, wire::report_of(payload));
            &&& slots::within(after, t)
            &&& after.dom().finite()
            &&& slots::slot_at(after, n.id) == n.usage.own()
        }),
{
    let report = wire::report_of(payload);
    escrow::lemma_absorb_bounded(n.usage.slots, report, t);
    escrow::lemma_absorb_grows(n.usage.slots, report);
    lemma_absorb_finite(n.usage.slots, report);
}

proof fn lemma_absorb_finite(m: Map<u32, SlotState>, report: Seq<wire::Line>)
    requires
        m.dom().finite(),
    ensures
        escrow::absorb(m, report).dom().finite(),
    decreases report.len(),
{
    if report.len() > 0 {
        lemma_absorb_finite(m, report.drop_last());
    }
}

/// One action keeps the world sound.
proof fn lemma_run_one<M>(w: WorldView<M>, i: int, action: Action<M>)
    requires
        sound(w),
        0 <= i < w.nodes.len(),
        match action {
            Action::Deliver(payload) => w.sent.contains(payload@),
            Action::Send(_, _) => true,
        },
    ensures
        sound(w.run_one(i, action)),
        w.run_one(i, action).nodes.len() == w.nodes.len(),
        w.run_one(i, action).sent == w.sent,
{
    match action {
        Action::Send(dst, msg) => {
            assert(w.run_one(i, action).nodes == w.nodes);
        },
        Action::Deliver(payload) => {
            let n = w.nodes[i];
            let t = truth(w.nodes);
            lemma_found(w.nodes, i);
            lemma_absorb_genuine(n, t, payload@);
            let usage = EscrowView {
                slots: escrow::absorb(n.usage.slots, wire::report_of(payload@)),
                ..n.usage
            };
            let m = NodeView { usage, ..n };
            lemma_fleet_update(w.nodes, i, m);
            let after = w.run_one(i, action);
            assert(after.nodes == w.nodes.update(i, m));
            assert(truth(after.nodes) =~= t);
            assert forall|j: int| 0 <= j < after.nodes.len() implies node_sound(
                #[trigger] after.nodes[j],
                after.book,
                truth(after.nodes),
            ) by {
                assert(node_sound(w.nodes[j], w.book, t));
            }
        },
    }
}

/// Whatever a tree does, as long as it delivers only what was broadcast, the world stays sound.
pub proof fn law_delivering_broadcasts_keeps_the_world_sound<M>(
    w: WorldView<M>,
    node_id: u32,
    actions: Seq<Action<M>>,
)
    requires
        sound(w),
        delivers_only_broadcasts(w, actions),
    ensures
        sound(w.run(node_id, actions)),
        w.run(node_id, actions).sent == w.sent,
{
    gossip::ids(w.nodes).index_of_first_ensures(node_id);
    if let Some(i) = gossip::find(w.nodes, node_id) {
        lemma_run_all(w, i, actions);
    }
}

proof fn lemma_run_all<M>(w: WorldView<M>, i: int, actions: Seq<Action<M>>)
    requires
        sound(w),
        0 <= i < w.nodes.len(),
        delivers_only_broadcasts(w, actions),
    ensures
        sound(w.run_all(i, actions)),
        w.run_all(i, actions).nodes.len() == w.nodes.len(),
        w.run_all(i, actions).sent == w.sent,
    decreases actions.len(),
{
    if actions.len() > 0 {
        let front = actions.drop_last();
        assert forall|k: int| 0 <= k < front.len() implies match #[trigger] front[k] {
            Action::Deliver(payload) => w.sent.contains(payload@),
            Action::Send(_, _) => true,
        } by {
            assert(front[k] == actions[k]);
        }
        lemma_run_all(w, i, front);
        let last = actions[actions.len() - 1];
        lemma_run_one(w.run_all(i, front), i, last);
    }
}

/// What a node acquires is within what it holds, so nothing overflows under load.
proof fn lemma_load_fits<M>(w: WorldView<M>, i: int)
    requires
        sound(w),
        0 <= i < w.nodes.len(),
    ensures
        w.load_fits(i),
        w.nodes[i].usage.granted + w.top_up(i) == ledger::held(
            ledger::lend(w.book, w.nodes[i].id, w.top_up(i)),
            w.nodes[i].id,
        ),
        ledger::lent(ledger::lend(w.book, w.nodes[i].id, w.top_up(i))) <= w.ceiling,
{
    let n = w.nodes[i];
    let give = w.top_up(i);
    assert(node_sound(n, w.book, truth(w.nodes)));
    ledger::lemma_lent_after_put(w.book, n.id, 0);
    assert(n.usage.granted + give <= w.ceiling);
    ledger::lemma_lent_after_put(w.book, n.id, (n.usage.granted + give) as u64);
    let t = truth(w.nodes);
    lemma_fleet_finite(w.nodes);
    lemma_found(w.nodes, i);
    law_enforcement(w);
    if w.topped_up(i).admits(w.p.load_amount) {
        lemma_total_after_load(w, i);
    }
}

/// Even after the load the total is within the ceiling.
proof fn lemma_total_after_load<M>(w: WorldView<M>, i: int)
    requires
        sound(w),
        0 <= i < w.nodes.len(),
        w.topped_up(i).admits(w.p.load_amount),
        w.nodes[i].usage.granted + w.top_up(i) <= w.ceiling,
        ledger::lent(ledger::lend(w.book, w.nodes[i].id, w.top_up(i))) <= w.ceiling,
    ensures
        w.true_total + w.p.load_amount <= w.ceiling,
{
    let n = w.nodes[i];
    let m = NodeView { usage: w.topped_up(i).charge(w.p.load_amount), ..n };
    let book = ledger::lend(w.book, n.id, w.top_up(i));
    let t = truth(w.nodes);
    lemma_found(w.nodes, i);
    lemma_fleet_finite(w.nodes);
    lemma_fleet_update(w.nodes, i, m);
    assert(node_sound(n, w.book, t));
    let next = fleet(w.nodes).insert(n.id, m.usage);
    assert forall|id: u32| #[trigger] next.contains_key(id) implies next[id].within_grant()
        && next[id].granted <= ledger::held(book, id) by {
        if id != n.id {
            let j = lemma_fleet_node(w.nodes, id);
            assert(node_sound(w.nodes[j], w.book, t));
        }
    }
    escrow::law_the_ceiling_is_never_exceeded(next, book, w.ceiling);
    let after = escrow::true_usage(next);
    assert(after =~= t.insert(n.id, m.usage.own()));
    slots::lemma_totals_after_put(t, n.id, m.usage.own());
    lemma_nothing_released(w);
}

/// Nobody in this cluster releases anything.
proof fn lemma_nothing_released<M>(w: WorldView<M>)
    requires
        sound(w),
    ensures
        slots::credited(truth(w.nodes)) == 0,
{
    let t = truth(w.nodes);
    lemma_fleet_finite(w.nodes);
    let f = |id: u32| t[id].freed as nat;
    assert forall|id: u32| #[trigger] t.dom().contains(id) implies f(id) <= 0 by {
        let j = lemma_fleet_node(w.nodes, id);
        assert(node_sound(w.nodes[j], w.book, t));
    }
    sums::lemma_sum_bound(t.dom(), f, 0);
    assert(t.dom().len() * 0 == 0);
}

/// Enforcement: in a sound world the true total is within the limit and the tolerated
/// overshoot, and so is what any node believes it to be.
pub proof fn law_enforcement<M>(w: WorldView<M>)
    requires
        sound(w),
    ensures
        w.true_total <= w.p.limit + w.p.delta,
        forall|i: int|
            0 <= i < w.nodes.len() ==> slots::reading((#[trigger] w.nodes[i]).usage.slots)
                <= w.true_total,
{
    let t = truth(w.nodes);
    lemma_fleet_finite(w.nodes);
    lemma_nothing_released(w);
    assert forall|id: u32| #[trigger] fleet(w.nodes).contains_key(id) implies fleet(
        w.nodes,
    )[id].within_grant() && fleet(w.nodes)[id].granted <= ledger::held(w.book, id) by {
        let j = lemma_fleet_node(w.nodes, id);
        assert(node_sound(w.nodes[j], w.book, t));
    }
    escrow::law_the_ceiling_is_never_exceeded(fleet(w.nodes), w.book, w.ceiling);
    assert forall|i: int| 0 <= i < w.nodes.len() implies slots::reading(
        (#[trigger] w.nodes[i]).usage.slots,
    ) <= w.true_total by {
        assert(node_sound(w.nodes[i], w.book, t));
        slots::lemma_reading_monotone(w.nodes[i].usage.slots, t);
    }
}

/// Convergence: a node that knows every node's own slot as it stands reads the true total. So
/// once that holds of every live node, the views agree with the truth.
pub proof fn law_a_node_that_knows_every_slot_reads_the_true_total<M>(w: WorldView<M>, i: int)
    requires
        sound(w),
        0 <= i < w.nodes.len(),
        forall|j: int|
            0 <= j < w.nodes.len() ==> slots::slot_at(
                w.nodes[i].usage.slots,
                (#[trigger] w.nodes[j]).id,
            ) == w.nodes[j].usage.own(),
    ensures
        slots::reading(w.nodes[i].usage.slots) == w.true_total,
{
    let t = truth(w.nodes);
    let s = w.nodes[i].usage.slots;
    lemma_fleet_finite(w.nodes);
    lemma_nothing_released(w);
    assert(node_sound(w.nodes[i], w.book, t));
    let tc = |id: u32| t[id].consumed as nat;
    let sc = |id: u32| s[id].consumed as nat;
    let tf = |id: u32| t[id].freed as nat;
    let sf = |id: u32| s[id].freed as nat;
    assert(s.dom().subset_of(t.dom()));
    assert forall|id: u32| #[trigger] t.dom().contains(id) implies t[id] == slots::slot_at(
        s,
        id,
    ) by {
        let j = lemma_fleet_node(w.nodes, id);
        lemma_found(w.nodes, j);
        assert(w.nodes[j].id == id);
    }
    sums::lemma_sum_ignores_zeros(t.dom(), s.dom(), tc);
    sums::lemma_sum_ignores_zeros(t.dom(), s.dom(), tf);
    assert forall|id: u32| #[trigger] s.dom().contains(id) implies tc(id) == sc(id) && tf(id)
        == sf(id) by {
        assert(t.dom().contains(id));
    }
    sums::lemma_sum_congruent(s.dom(), tc, sc);
    sums::lemma_sum_congruent(s.dom(), tf, sf);
}

/// The node at `i` knows the own slot of the node at `j` as it stands.
pub open spec fn knows<M>(w: WorldView<M>, i: int, j: int) -> bool {
    slots::slot_at(w.nodes[i].usage.slots, w.nodes[j].id) == w.nodes[j].usage.own()
}

/// A report that gets through is enough. Once the node at `i` is handed what the node at `j`
/// broadcasts as it stands -- the bytes of its report -- it knows that node's slot, and it loses
/// nothing it knew. So after the load has stopped, one broadcast of each node that reaches `i`, by
/// whatever route and after however many were lost, makes `i` read the true total.
pub proof fn law_a_report_that_gets_through_is_known<M>(
    w: WorldView<M>,
    i: int,
    j: int,
    report: Seq<(u32, u64, u64)>,
    payload: Vec<u8>,
)
    requires
        sound(w),
        0 <= i < w.nodes.len(),
        0 <= j < w.nodes.len(),
        escrow::reports(report, w.nodes[j].usage.slots),
        payload@ == wire::bytes_of(report),
    ensures
        knows(w.run_one(i, Action::Deliver(payload)), i, j),
        forall|k: int|
            0 <= k < w.nodes.len() && #[trigger] knows(w, i, k) ==> knows(
                w.run_one(i, Action::Deliver(payload)),
                i,
                k,
            ),
{
    let t = truth(w.nodes);
    let after = w.run_one(i, Action::Deliver(payload));
    let mine = w.nodes[i].usage.slots;
    let theirs = w.nodes[j].usage.slots;
    wire::law_decode_undoes_encode(report);
    escrow::law_a_report_carries_a_merge(mine, theirs, report);
    assert(after.nodes[i].usage.slots == slots::join(mine, theirs));
    assert(node_sound(w.nodes[i], w.book, t));
    assert(node_sound(w.nodes[j], w.book, t));
    assert forall|k: int| 0 <= k < w.nodes.len() && (k == j || knows(w, i, k)) implies knows(
        after,
        i,
        k,
    ) by {
        let id = w.nodes[k].id;
        lemma_found(w.nodes, k);
        lemma_found(w.nodes, i);
        assert(node_sound(w.nodes[k], w.book, t));
        assert(slots::slot_at(mine, id).le(t[id]));
        assert(slots::slot_at(theirs, id).le(t[id]));
        if k == i {
            assert(slots::slot_at(mine, id) == w.nodes[i].usage.own());
        }
        assert(slots::slot_at(slots::join(mine, theirs), id) == t[id]);
        assert(after.nodes[k].usage.own() == t[id]);
    }
}

/// What a node that has acquired nothing has done is known to all.
pub proof fn lemma_nothing_to_know<M>(w: WorldView<M>, i: int, j: int)
    requires
        sound(w),
        0 <= i < w.nodes.len(),
        0 <= j < w.nodes.len(),
        w.nodes[j].usage.own() == SlotState::unused(),
    ensures
        knows(w, i, j),
{
    lemma_found(w.nodes, j);
    assert(node_sound(w.nodes[i], w.book, truth(w.nodes)));
}

/// What a tree asks for takes no knowledge away, and changes no node's own slot.
pub proof fn lemma_run_keeps_knowledge<M>(
    w: WorldView<M>,
    r: int,
    actions: Seq<Action<M>>,
    i: int,
    j: int,
)
    requires
        sound(w),
        0 <= r < w.nodes.len(),
        delivers_only_broadcasts(w, actions),
        0 <= i < w.nodes.len(),
        0 <= j < w.nodes.len(),
    ensures
        sound(w.run_all(r, actions)),
        w.run_all(r, actions).sent == w.sent,
        w.run_all(r, actions).nodes.len() == w.nodes.len(),
        w.run_all(r, actions).nodes[i].alive == w.nodes[i].alive,
        w.run_all(r, actions).nodes[j].id == w.nodes[j].id,
        w.run_all(r, actions).nodes[j].usage.own() == w.nodes[j].usage.own(),
        knows(w, i, j) ==> knows(w.run_all(r, actions), i, j),
    decreases actions.len(),
{
    if actions.len() > 0 {
        let front = actions.drop_last();
        assert forall|k: int| 0 <= k < front.len() implies match #[trigger] front[k] {
            Action::Deliver(payload) => w.sent.contains(payload@),
            Action::Send(_, _) => true,
        } by {
            assert(front[k] == actions[k]);
        }
        lemma_run_keeps_knowledge(w, r, front, i, j);
        let mid = w.run_all(r, front);
        let last = actions[actions.len() - 1];
        lemma_run_one(mid, r, last);
        if let Action::Deliver(payload) = last {
            lemma_delivery_keeps_knowledge(mid, r, payload, i, j);
        }
    }
}

/// A delivery takes no knowledge away, and changes no node's own slot.
proof fn lemma_delivery_keeps_knowledge<M>(
    w: WorldView<M>,
    r: int,
    payload: Vec<u8>,
    i: int,
    j: int,
)
    requires
        sound(w),
        0 <= r < w.nodes.len(),
        w.sent.contains(payload@),
        0 <= i < w.nodes.len(),
        0 <= j < w.nodes.len(),
    ensures
        w.run_one(r, Action::Deliver(payload)).nodes.len() == w.nodes.len(),
        w.run_one(r, Action::Deliver(payload)).nodes[i].alive == w.nodes[i].alive,
        w.run_one(r, Action::Deliver(payload)).nodes[j].id == w.nodes[j].id,
        w.run_one(r, Action::Deliver(payload)).nodes[j].usage.own() == w.nodes[j].usage.own(),
        knows(w, i, j) ==> knows(w.run_one(r, Action::Deliver(payload)), i, j),
{
    let t = truth(w.nodes);
    let report = wire::report_of(payload@);
    let slots_r = w.nodes[r].usage.slots;
    assert(genuine(t, payload@));
    assert(node_sound(w.nodes[r], w.book, t));
    lemma_found(w.nodes, r);
    lemma_found(w.nodes, j);
    lemma_absorb_genuine(w.nodes[r], t, payload@);
    escrow::lemma_absorb_grows(slots_r, report);
    let id = w.nodes[j].id;
    if slots_r.contains_key(id) {
        assert(slots::slot_at(slots_r, id).le(slots::slot_at(escrow::absorb(slots_r, report), id)));
    }
}

/// The payload tells what the node at `j` has done as it stands: one of its lines is that node's
/// own slot, or the node has done nothing.
pub open spec fn tells<M>(payload: Seq<u8>, w: WorldView<M>, j: int) -> bool {
    ||| w.nodes[j].usage.own() == SlotState::unused()
    ||| exists|k: int|
        0 <= k < wire::report_of(payload).len() && (#[trigger] wire::report_of(payload)[k]).0
            == w.nodes[j].id && escrow::line_slot(wire::report_of(payload)[k])
            == w.nodes[j].usage.own()
}

/// What a node broadcasts tells what it has done, and goes on telling it for as long as the node
/// does no more.
pub proof fn law_a_broadcast_tells_its_sender<M>(
    w: WorldView<M>,
    j: int,
    report: Seq<(u32, u64, u64)>,
    later: WorldView<M>,
)
    requires
        sound(w),
        0 <= j < w.nodes.len(),
        escrow::reports(report, w.nodes[j].usage.slots),
        later.nodes[j].id == w.nodes[j].id,
        later.nodes[j].usage.own() == w.nodes[j].usage.own(),
    ensures
        tells(wire::bytes_of(report), later, j),
{
    let mine = w.nodes[j].usage;
    assert(node_sound(w.nodes[j], w.book, truth(w.nodes)));
    wire::law_decode_undoes_encode(report);
    if mine.slots.contains_key(mine.me) {
        let names = escrow::report_ids(report);
        assert(names.to_set().contains(mine.me));
        let k = choose|k: int| 0 <= k < names.len() && names[k] == mine.me;
        assert(report[k].0 == mine.me);
        assert(escrow::line_slot(report[k]) == mine.own());
    }
}

/// Whoever is handed a payload that tells what a node has done knows it from then on, whatever else
/// is handed over in the same go.
pub proof fn law_a_payload_handed_over_is_known<M>(
    w: WorldView<M>,
    i: int,
    actions: Seq<Action<M>>,
    at: int,
    j: int,
)
    requires
        sound(w),
        0 <= i < w.nodes.len(),
        0 <= j < w.nodes.len(),
        delivers_only_broadcasts(w, actions),
        0 <= at < actions.len(),
        actions[at] matches Action::Deliver(payload) && tells(payload@, w, j),
    ensures
        knows(w.run(w.nodes[i].id, actions), i, j),
{
    lemma_found(w.nodes, i);
    let upto = actions.take(at);
    assert forall|k: int| 0 <= k < upto.len() implies match #[trigger] upto[k] {
        Action::Deliver(payload) => w.sent.contains(payload@),
        Action::Send(_, _) => true,
    } by {
        assert(upto[k] == actions[k]);
    }
    lemma_run_keeps_knowledge(w, i, upto, i, j);
    let mid = w.run_all(i, upto);
    let payload = actions[at]->Deliver_0;
    assert(w.sent.contains(payload@)) by {
        assert(match actions[at] {
            Action::Deliver(payload) => w.sent.contains(payload@),
            Action::Send(_, _) => true,
        });
    }
    lemma_run_one(mid, i, actions[at]);
    lemma_delivery_keeps_knowledge(mid, i, payload, i, j);
    let then = mid.run_one(i, actions[at]);
    assert(knows(then, i, j)) by {
        if w.nodes[j].usage.own() == SlotState::unused() {
            lemma_nothing_to_know(then, i, j);
        } else {
            let report = wire::report_of(payload@);
            let k = choose|k: int|
                0 <= k < report.len() && (#[trigger] report[k]).0 == w.nodes[j].id
                    && escrow::line_slot(report[k]) == w.nodes[j].usage.own();
            escrow::lemma_absorb_grows(mid.nodes[i].usage.slots, report);
            lemma_found(then.nodes, j);
            assert(node_sound(then.nodes[i], then.book, truth(then.nodes)));
            assert(then.nodes[i].usage.slots.contains_key(report[k].0));
        }
    }
    let rest = actions.skip(at + 1);
    assert forall|k: int| 0 <= k < rest.len() implies match #[trigger] rest[k] {
        Action::Deliver(payload) => then.sent.contains(payload@),
        Action::Send(_, _) => true,
    } by {
        assert(rest[k] == actions[at + 1 + k]);
        assert(match actions[at + 1 + k] {
            Action::Deliver(payload) => w.sent.contains(payload@),
            Action::Send(_, _) => true,
        });
    }
    lemma_run_keeps_knowledge(then, i, rest, i, j);
    assert(actions.take(at + 1).drop_last() =~= upto);
    assert(actions.take(at + 1).last() == actions[at]);
    assert(w.run_all(i, actions.take(at + 1)) == then);
    lemma_run_in_two(w, i, actions.take(at + 1), rest);
    assert(actions.take(at + 1) + rest =~= actions);
}

/// Actions may be carried out in two goes.
proof fn lemma_run_in_two<M>(
    w: WorldView<M>,
    i: int,
    first: Seq<Action<M>>,
    second: Seq<Action<M>>,
)
    ensures
        w.run_all(i, first + second) == w.run_all(i, first).run_all(i, second),
    decreases second.len(),
{
    if second.len() == 0 {
        assert(first + second =~= first);
    } else {
        lemma_run_in_two(w, i, first, second.drop_last());
        assert((first + second).drop_last() =~= first + second.drop_last());
        assert((first + second).last() == second.last());
    }
}

/// Once the load is over, a step changes no node's usage. A node that joins comes last, and has done
/// nothing.
pub proof fn lemma_quiet_step<M>(w: WorldView<M>, step: Step<M>, after: WorldView<M>)
    requires
        w.steps_to(step, after),
        w.now > w.p.load_until,
    ensures
        after.nodes.len() >= w.nodes.len(),
        forall|k: int|
            0 <= k < w.nodes.len() ==> (#[trigger] after.nodes[k]).id == w.nodes[k].id
                && after.nodes[k].usage == w.nodes[k].usage,
        forall|k: int|
            w.nodes.len() <= k < after.nodes.len() ==> (#[trigger] after.nodes[k]).usage.own()
                == SlotState::unused(),
{
    if w.phase is Rest && w.now < w.p.rounds {
        let g = w.next_round().after_governor();
        if let Some(victim) = g.killed() {
            gossip::ids(g.nodes).index_of_first_ensures(victim);
        }
        let k = g.after_kill();
        assert(k.nodes.len() == w.nodes.len());
        assert(after.nodes == k.after_join().nodes);
    }
}

/// A load keeps the world sound.
proof fn lemma_offer_load<M>(w: WorldView<M>, i: int)
    requires
        sound(w),
        0 <= i < w.nodes.len(),
    ensures
        sound(w.offer_load(i)),
        w.offer_load(i).nodes.len() == w.nodes.len(),
{
    lemma_load_fits(w, i);
    lemma_found(w.nodes, i);
    lemma_fleet_finite(w.nodes);
    let n = w.nodes[i];
    let t = truth(w.nodes);
    let after = w.offer_load(i);
    let m = after.nodes[i];
    assert(node_sound(n, w.book, t));
    assert(after.nodes =~= w.nodes.update(i, m));
    lemma_fleet_update(w.nodes, i, m);
    let t2 = truth(after.nodes);
    slots::lemma_totals_after_put(t, n.id, m.usage.own());
    assert(slots::within(t, t2));
    assert forall|j: int| 0 <= j < after.nodes.len() implies node_sound(
        #[trigger] after.nodes[j],
        after.book,
        t2,
    ) by {
        let was = w.nodes[j];
        assert(node_sound(was, w.book, t));
        lemma_within_transitive(was.usage.slots, t, t2);
        if j != i {
            assert(gossip::ids(w.nodes)[j] != gossip::ids(w.nodes)[i]);
        }
    }
    assert forall|payload: Seq<u8>| #[trigger] after.sent.contains(payload) implies genuine(
        t2,
        payload,
    ) by {
        lemma_genuine_persists(t, t2, payload);
    }
    assert forall|id: u32| #[trigger] after.book.contains_key(id) implies gossip::ids(
        after.nodes,
    ).contains(id) by {
        if id == n.id {
            assert(gossip::ids(w.nodes)[i] == id);
        } else {
            assert(w.book.contains_key(id));
        }
    }
}

proof fn lemma_within_transitive(
    a: Map<u32, SlotState>,
    b: Map<u32, SlotState>,
    c: Map<u32, SlotState>,
)
    requires
        slots::within(a, b),
        slots::within(b, c),
    ensures
        slots::within(a, c),
{
    assert forall|id: u32| #[trigger] a.contains_key(id) implies c.contains_key(id) && a[id].le(
        c[id],
    ) by {
        assert(b.contains_key(id));
    }
}

/// No id is above the largest.
proof fn lemma_max_id(nodes: Seq<NodeView>)
    ensures
        forall|i: int| 0 <= i < nodes.len() ==> (#[trigger] nodes[i]).id <= gossip::max_id(nodes),
    decreases nodes.len(),
{
    if nodes.len() > 0 {
        let front = nodes.drop_last();
        lemma_max_id(front);
        assert forall|i: int| 0 <= i < nodes.len() implies (#[trigger] nodes[i]).id
            <= gossip::max_id(nodes) by {
            if i < front.len() {
                assert(front[i] == nodes[i]);
            }
        }
    }
}

/// A scenario event keeps the world sound: a change of governor and a death move no rights, and
/// a node that joins has neither rights nor usage.
proof fn lemma_begin<M>(w: WorldView<M>)
    requires
        sound(w),
        w.now < u64::MAX,
        ({
            let k = w.next_round().after_governor().after_kill();
            k.joins() ==> gossip::max_id(k.nodes) < u32::MAX
        }),
    ensures
        sound(w.begin()),
{
    let g = w.next_round().after_governor();
    assert(sound(g));
    let k = g.after_kill();
    assert(sound(k)) by {
        if let Some(victim) = g.killed() {
            gossip::ids(g.nodes).index_of_first_ensures(victim);
            if let Some(i) = gossip::find(g.nodes, victim) {
                let n = NodeView { alive: false, ..g.nodes[i] };
                lemma_fleet_update(g.nodes, i, n);
                lemma_found(g.nodes, i);
                assert(truth(k.nodes) =~= truth(g.nodes));
                assert forall|j: int| 0 <= j < k.nodes.len() implies node_sound(
                    #[trigger] k.nodes[j],
                    k.book,
                    truth(k.nodes),
                ) by {
                    assert(node_sound(g.nodes[j], g.book, truth(g.nodes)));
                }
            }
        }
    }
    let j = k.after_join();
    if k.joins() {
        lemma_join(k);
    }
    assert(sound(j));
    assert(w.begin().nodes == j.nodes);
}

/// A node that joins brings nothing and knows nothing.
proof fn lemma_join<M>(k: WorldView<M>)
    requires
        sound(k),
        k.joins(),
        gossip::max_id(k.nodes) < u32::MAX,
    ensures
        sound(k.after_join()),
{
    let after = k.after_join();
    let id = (gossip::max_id(k.nodes) + 1) as u32;
    let t = truth(k.nodes);
    let t2 = truth(after.nodes);
    let old_ids = gossip::ids(k.nodes);
    let new_ids = gossip::ids(after.nodes);
    lemma_max_id(k.nodes);
    lemma_fleet_finite(k.nodes);
    assert(new_ids =~= old_ids.push(id));
    assert(!old_ids.contains(id)) by {
        if old_ids.contains(id) {
            let i = choose|i: int| 0 <= i < old_ids.len() && old_ids[i] == id;
            assert(k.nodes[i].id == id);
        }
    }
    assert(new_ids.no_duplicates());
    assert forall|x: u32| new_ids.contains(x) <==> (old_ids.contains(x) || x == id) by {
        if old_ids.contains(x) {
            let i = choose|i: int| 0 <= i < old_ids.len() && old_ids[i] == x;
            assert(new_ids[i] == x);
        }
        if new_ids.contains(x) {
            let i = choose|i: int| 0 <= i < new_ids.len() && new_ids[i] == x;
            if i < old_ids.len() {
                assert(old_ids[i] == x);
            }
        }
        assert(new_ids[old_ids.len() as int] == id);
    }
    assert forall|x: u32| old_ids.contains(x) implies #[trigger] t2[x] == t[x] by {
        let i = lemma_fleet_node(k.nodes, x);
        assert(after.nodes[i] == k.nodes[i]);
        lemma_found(after.nodes, i);
        lemma_found(k.nodes, i);
    }
    let last = k.nodes.len() as int;
    lemma_found(after.nodes, last);
    assert(after.nodes[last].usage.own() == SlotState::unused());
    assert(t2 =~= t.insert(id, SlotState::unused()));
    slots::lemma_totals_after_put(t, id, SlotState::unused());
    assert(slots::within(t, t2));
    assert forall|i: int| 0 <= i < after.nodes.len() implies node_sound(
        #[trigger] after.nodes[i],
        after.book,
        t2,
    ) by {
        if i < last {
            assert(after.nodes[i] == k.nodes[i]);
            assert(node_sound(k.nodes[i], k.book, t));
            lemma_within_transitive(k.nodes[i].usage.slots, t, t2);
        } else {
            assert(after.nodes[i].usage.slots.dom() =~= Set::<u32>::empty());
        }
    }
    assert forall|payload: Seq<u8>| #[trigger] after.sent.contains(payload) implies genuine(
        t2,
        payload,
    ) by {
        lemma_genuine_persists(t, t2, payload);
    }
}

/// What a node broadcasts is genuine.
proof fn lemma_broadcast_is_genuine<M>(w: WorldView<M>, i: int, report: Seq<wire::Line>)
    requires
        sound(w),
        0 <= i < w.nodes.len(),
        escrow::reports(report, w.nodes[i].usage.slots),
    ensures
        genuine(truth(w.nodes), wire::bytes_of(report)),
{
    let t = truth(w.nodes);
    wire::law_decode_undoes_encode(report);
    assert(node_sound(w.nodes[i], w.book, t));
    assert forall|k: int| 0 <= k < report.len() implies {
        let line = #[trigger] report[k];
        t.contains_key(line.0) && escrow::line_slot(line).le(t[line.0])
    } by {
        let names = escrow::report_ids(report);
        assert(names[k] == report[k].0);
        assert(names.to_set().contains(report[k].0));
    }
}

/// Soundness does not depend on the network, the clock or where in a round the world is.
proof fn lemma_sound_frame<M>(w: WorldView<M>, v: WorldView<M>)
    requires
        sound(w),
        v.nodes == w.nodes,
        v.book == w.book,
        v.ceiling == w.ceiling,
        v.p == w.p,
        v.true_total == w.true_total,
        v.sent == w.sent,
    ensures
        sound(v),
{
}

/// One more genuine payload keeps the world sound.
proof fn lemma_sound_with_payload<M>(w: WorldView<M>, payload: Seq<u8>)
    requires
        sound(w),
        genuine(truth(w.nodes), payload),
    ensures
        sound(WorldView { sent: w.sent.insert(payload), ..w }),
{
}

/// Load and gossip at a node keep the world sound.
proof fn lemma_load_step<M>(w: WorldView<M>, i: usize, step: Step<M>, after: WorldView<M>)
    requires
        sound(w),
        w.phase == Phase::Load(i),
        w.steps_to(step, after),
        i < w.nodes.len(),
        w.nodes[i as int].alive,
    ensures
        sound(after),
{
    let on = WorldView { phase: Phase::Load((i + 1) as usize), ..w };
    lemma_sound_frame(w, on);
    if w.now <= w.p.load_until {
        lemma_offer_load(on, i as int);
    }
    let loaded = on.loaded(i as int);
    if w.gossips() {
        let payload = step->Broadcast_1;
        let report = choose|report: Seq<wire::Line>|
            escrow::reports(report, loaded.nodes[i as int].usage.slots) && payload@
                == #[trigger] wire::bytes_of(report);
        lemma_broadcast_is_genuine(loaded, i as int, report);
        lemma_sound_with_payload(loaded, payload@);
        assert(loaded.sent == w.sent);
    }
}

/// A step keeps the world sound.
pub proof fn law_a_step_keeps_the_world_sound<M>(
    w: WorldView<M>,
    step: Step<M>,
    after: WorldView<M>,
)
    requires
        sound(w),
        w.can_step(),
        w.steps_to(step, after),
    ensures
        sound(after),
{
    match w.phase {
        Phase::Rest => {
            if w.now < w.p.rounds {
                lemma_begin(w);
            }
        },
        Phase::Load(i) => {
            if i < w.nodes.len() && w.nodes[i as int].alive {
                lemma_load_step(w, i, step, after);
            } else {
                lemma_sound_frame(w, after);
            }
        },
        _ => {
            lemma_sound_frame(w, after);
        },
    }
}

/// A sound world can always take its next step, as long as there is an id left for a node that
/// joins.
pub proof fn law_a_sound_world_can_step<M>(w: WorldView<M>)
    requires
        sound(w),
        w.phase is Rest ==> gossip::max_id(
            w.next_round().after_governor().after_kill().nodes,
        ) < u32::MAX,
    ensures
        w.can_step(),
{
    if let Phase::Load(i) = w.phase {
        if i < w.nodes.len() {
            lemma_load_fits(w, i as int);
        }
    }
}

/// A world of fresh nodes is sound.
pub proof fn lemma_fresh_is_sound<M>(w: WorldView<M>)
    requires
        w.nodes.len() <= u32::MAX,
        forall|i: int|
            0 <= i < w.nodes.len() ==> {
                let n = #[trigger] w.nodes[i];
                n.id == i && n.usage == EscrowView::<u32>::fresh(n.id, 0)
            },
        w.ceiling == w.p.limit + w.p.delta,
        w.book == Map::<u32, u64>::empty(),
        w.true_total == 0,
        w.sent == Set::<Seq<u8>>::empty(),
    ensures
        sound(w),
{
    let t = truth(w.nodes);
    let all = gossip::ids(w.nodes);
    assert forall|i: int, j: int| 0 <= i < all.len() && 0 <= j < all.len() && i != j implies all[i]
        != all[j] by {
        assert(w.nodes[i].id == i);
        assert(w.nodes[j].id == j);
    }
    lemma_fleet_finite(w.nodes);
    assert(w.book.dom() =~= Set::<u32>::empty());
    let c = |id: u32| t[id].consumed as nat;
    assert forall|id: u32| #[trigger] t.dom().contains(id) implies c(id) <= 0 by {
        let j = lemma_fleet_node(w.nodes, id);
        assert(w.nodes[j].usage == EscrowView::<u32>::fresh(w.nodes[j].id, 0));
    }
    sums::lemma_sum_bound(t.dom(), c, 0);
    assert(t.dom().len() * 0 == 0);
    assert forall|i: int| 0 <= i < w.nodes.len() implies node_sound(
        #[trigger] w.nodes[i],
        w.book,
        t,
    ) by {
        assert(w.nodes[i].usage.slots.dom() =~= Set::<u32>::empty());
    }
}

/// Replacing an item trades it for the new one.
proof fn lemma_update_items(s: Seq<u32>, i: int, x: u32)
    requires
        0 <= i < s.len(),
    ensures
        s.update(i, x).to_multiset() == s.to_multiset().remove(s[i]).insert(x),
{
    broadcast use vstd::seq_lib::group_to_multiset_ensures;

    let u = s.update(i, x);
    assert(u.remove(i) =~= s.remove(i));
    assert(u.remove(i).to_multiset() == u.to_multiset().remove(u[i]));
    assert(s.remove(i).to_multiset() == s.to_multiset().remove(s[i]));
    assert(u.contains(u[i]));
    assert(u.to_multiset().count(x) > 0);
    assert(u.to_multiset() =~= u.to_multiset().remove(x).insert(x));
}

/// A shuffle keeps every item.
proof fn lemma_shuffle_keeps_items(s: Seq<u32>, rng: Rng, i: int)
    requires
        i < s.len() <= u32::MAX,
    ensures
        gossip::shuffled(s, rng, i).to_multiset() == s.to_multiset(),
        gossip::shuffled(s, rng, i).len() == s.len(),
    decreases i,
{
    broadcast use vstd::seq_lib::group_to_multiset_ensures;

    if i >= 1 {
        let j = (rng.peek() % (i + 1) as u64) as int;
        assert(0 <= j <= i);
        let once = s.update(i, s[j]);
        let twice = gossip::swapped(s, i, j);
        lemma_update_items(s, i, s[j]);
        lemma_update_items(once, j, s[i]);
        assert(s.contains(s[i]));
        assert(s.contains(s[j]));
        assert(s.to_multiset().count(s[i]) > 0);
        assert(once.contains(once[j]));
        assert(twice.to_multiset() =~= s.to_multiset());
        lemma_shuffle_keeps_items(twice, rng.skip(), i - 1);
    }
}

/// Everyone else is a peer of a fresh node, each once: the eager peers and the lazy ones
/// together are the other nodes, and as many of them are eager as the fanout asks for.
pub proof fn law_the_peers_dealt_are_everyone_else(
    me: u32,
    others: Seq<u32>,
    fanout: usize,
    rng: Rng,
)
    requires
        others.len() <= u32::MAX,
    ensures
        ({
            let p = gossip::dealt(me, others, fanout, rng);
            let all = gossip::peers_of(me, others);
            &&& (p.eager + p.lazy).to_multiset() == all.to_multiset()
            &&& p.eager.len() == if fanout <= all.len() {
                fanout as nat
            } else {
                all.len()
            }
        }),
{
    let p = gossip::dealt(me, others, fanout, rng);
    let all = gossip::peers_of(me, others);
    let mixed = gossip::shuffled(all, rng, all.len() - 1);
    others.lemma_filter_len(|x: u32| x != me);
    assert(all.len() <= others.len());
    lemma_shuffle_keeps_items(all, rng, all.len() - 1);
    assert(p.eager + p.lazy =~= mixed);
}

} // verus!
