//! What each action, load and round does to a gossiping cluster, figure by figure.

use vstd::prelude::*;

use crate::escrow;
use crate::gossip::{self, Action, NodeView, Phase, Step, WorldView};
use crate::ledger;
use crate::queue;
use crate::rng::Rng;
use crate::slots;
use crate::wire;

verus! {

/// A node is found at the first place that has its id, and nowhere where none has.
pub proof fn law_a_node_is_found_by_its_id(nodes: Seq<NodeView>, id: u32)
    ensures
        gossip::find(nodes, id) matches Some(i) ==> 0 <= i < nodes.len() && nodes[i].id == id
            && forall|j: int| 0 <= j < i ==> (#[trigger] nodes[j]).id != id,
        gossip::find(nodes, id) is None ==> forall|j: int|
            0 <= j < nodes.len() ==> (#[trigger] nodes[j]).id != id,
        (exists|j: int| 0 <= j < nodes.len() && (#[trigger] nodes[j]).id == id) ==> gossip::find(
            nodes,
            id,
        ) is Some,
{
    let all = gossip::ids(nodes);
    all.index_of_first_ensures(id);
    assert forall|j: int| 0 <= j < nodes.len() implies #[trigger] nodes[j].id == all[j] by {}
    if exists|j: int| 0 <= j < nodes.len() && (#[trigger] nodes[j]).id == id {
        let j = choose|j: int| 0 <= j < nodes.len() && (#[trigger] nodes[j]).id == id;
        assert(all[j] == id);
        assert(all.contains(id));
    }
    if all.contains(id) {
        let i = gossip::find(nodes, id).unwrap();
        assert forall|j: int| 0 <= j < i implies (#[trigger] nodes[j]).id != id by {
            assert(all[j] != id);
        }
    }
}

/// No id is larger than the largest, and the largest is one that a node has; among no nodes it is
/// zero.
pub proof fn law_the_largest_id_is_the_largest(nodes: Seq<NodeView>)
    ensures
        forall|i: int| 0 <= i < nodes.len() ==> (#[trigger] nodes[i]).id <= gossip::max_id(nodes),
        nodes.len() > 0 ==> exists|i: int|
            0 <= i < nodes.len() && (#[trigger] nodes[i]).id == gossip::max_id(nodes),
        nodes.len() == 0 ==> gossip::max_id(nodes) == 0,
    decreases nodes.len(),
{
    if nodes.len() > 0 {
        let front = nodes.drop_last();
        law_the_largest_id_is_the_largest(front);
        assert(nodes[nodes.len() - 1] == nodes.last());
        assert forall|i: int| 0 <= i < nodes.len() implies (#[trigger] nodes[i]).id
            <= gossip::max_id(nodes) by {
            if i < front.len() {
                assert(front[i] == nodes[i]);
            }
        }
        if gossip::max_id(nodes) != nodes.last().id {
            let i = choose|i: int|
                0 <= i < front.len() && (#[trigger] front[i]).id == gossip::max_id(front);
            assert(nodes[i].id == gossip::max_id(nodes));
        }
    }
}

/// A filter lets nothing through exactly where no node passes.
proof fn lemma_filter_is_empty(nodes: Seq<NodeView>, f: spec_fn(NodeView) -> bool)
    ensures
        nodes.filter(f).len() == 0 <==> forall|i: int|
            0 <= i < nodes.len() ==> !f(#[trigger] nodes[i]),
    decreases nodes.len(),
{
    reveal(Seq::filter);
    if nodes.len() > 0 {
        let front = nodes.drop_last();
        lemma_filter_is_empty(front, f);
        assert forall|i: int| 0 <= i < front.len() implies #[trigger] front[i] == nodes[i] by {}
        assert forall|i: int| 0 <= i < nodes.len() - 1 implies #[trigger] nodes[i] == front[i] by {}
        assert(nodes[nodes.len() - 1] == nodes.last());
    }
}

/// The next node to govern after `id` is the first that is up and is not `id`; where there is none it
/// is `id` still.
pub proof fn law_the_next_to_govern_is_the_first_that_is_up(nodes: Seq<NodeView>, id: u32)
    ensures
        (exists|i: int| 0 <= i < nodes.len() && (#[trigger] nodes[i]).alive && nodes[i].id != id)
            ==> exists|i: int|
            0 <= i < nodes.len() && (#[trigger] nodes[i]).alive && nodes[i].id != id && nodes[i].id
                == gossip::live_after(nodes, id) && forall|j: int|
                0 <= j < i ==> !((#[trigger] nodes[j]).alive && nodes[j].id != id),
        (forall|i: int|
            0 <= i < nodes.len() ==> !((#[trigger] nodes[i]).alive && nodes[i].id != id))
            ==> gossip::live_after(nodes, id) == id,
    decreases nodes.len(),
{
    reveal(Seq::filter);
    let f = gossip::up_and_not(id);
    lemma_filter_is_empty(nodes, f);
    if exists|i: int| 0 <= i < nodes.len() && (#[trigger] nodes[i]).alive && nodes[i].id != id {
        let i = choose|i: int|
            0 <= i < nodes.len() && (#[trigger] nodes[i]).alive && nodes[i].id != id;
        assert(f(nodes[i]));
        assert(nodes.filter(f).len() > 0);
        let front = nodes.drop_last();
        let last = nodes.len() - 1;
        law_the_next_to_govern_is_the_first_that_is_up(front, id);
        lemma_filter_is_empty(front, f);
        assert forall|j: int| 0 <= j < last implies #[trigger] front[j] == nodes[j] by {}
        if front.filter(f).len() > 0 {
            let k = choose|k: int| 0 <= k < front.len() && f(#[trigger] front[k]);
            assert(front[k].alive && front[k].id != id);
            let first = choose|k: int|
                0 <= k < front.len() && (#[trigger] front[k]).alive && front[k].id != id
                    && front[k].id == gossip::live_after(front, id) && forall|j: int|
                    0 <= j < k ==> !((#[trigger] front[j]).alive && front[j].id != id);
            assert(nodes[first].alive);
            assert forall|j: int| 0 <= j < first implies !((#[trigger] nodes[j]).alive
                && nodes[j].id != id) by {
                assert(!(front[j].alive && front[j].id != id));
            }
        } else {
            assert(f(nodes[last]));
            assert(nodes.filter(f)[0] == nodes[last]);
            assert forall|j: int| 0 <= j < last implies !((#[trigger] nodes[j]).alive
                && nodes[j].id != id) by {
                assert(!f(front[j]));
            }
            assert(nodes[last].alive);
        }
    } else {
        assert forall|i: int| 0 <= i < nodes.len() implies !f(#[trigger] nodes[i]) by {}
    }
}

/// The nodes that are up are named in the order they came: with one more node behind the others, it
/// is named where it is up, and the others as before.
pub proof fn law_the_live_are_named_in_the_order_they_came(nodes: Seq<NodeView>, n: NodeView)
    ensures
        gossip::live_ids(Seq::empty()) == Seq::<u32>::empty(),
        n.alive ==> gossip::live_ids(nodes.push(n)) == gossip::live_ids(nodes).push(n.id),
        !n.alive ==> gossip::live_ids(nodes.push(n)) == gossip::live_ids(nodes),
{
    reveal(Seq::filter);
    let f = |n: NodeView| n.alive;
    assert(nodes.push(n).drop_last() =~= nodes);
    assert(gossip::live_ids(Seq::empty()) =~= Seq::<u32>::empty());
    if n.alive {
        assert(nodes.push(n).filter(f) =~= nodes.filter(f).push(n));
        assert(gossip::live_ids(nodes.push(n)) =~= gossip::live_ids(nodes).push(n.id));
    }
}

/// The places to be told are those of the nodes that are up, the one named left out; in order, each
/// once.
pub proof fn law_the_places_told_are_those_of_the_live(nodes: Seq<NodeView>, apart: Option<u32>)
    requires
        nodes.len() <= usize::MAX,
    ensures
        ({
            let places = gossip::live_places(nodes, apart);
            &&& forall|k: int|
                0 <= k < places.len() ==> (#[trigger] places[k]) < nodes.len()
                    && nodes[places[k] as int].alive && apart != Some(nodes[places[k] as int].id)
            &&& forall|i: int|
                0 <= i < nodes.len() && (#[trigger] nodes[i]).alive && apart != Some(nodes[i].id)
                    ==> places.contains(i as usize)
            &&& forall|j: int, k: int|
                0 <= j < k < places.len() ==> (#[trigger] places[j]) < (#[trigger] places[k])
        }),
{
    let all = Seq::new(nodes.len(), |i: int| i as usize);
    let f = gossip::up_and_apart(nodes, apart);
    lemma_filter_of_places(all, f, nodes.len() as int);
    let places = gossip::live_places(nodes, apart);
    assert(all.take(nodes.len() as int) =~= all);
    assert forall|i: int|
        0 <= i < nodes.len() && (#[trigger] nodes[i]).alive && apart != Some(
            nodes[i].id,
        ) implies places.contains(i as usize) by {
        assert(f(all[i]));
    }
}

/// A filter of places in order gives places in order.
proof fn lemma_filter_of_places(all: Seq<usize>, f: spec_fn(usize) -> bool, n: int)
    requires
        all.len() <= usize::MAX,
        forall|i: int| 0 <= i < all.len() ==> #[trigger] all[i] == i,
        0 <= n <= all.len(),
    ensures
        ({
            let places = all.take(n).filter(f);
            &&& forall|k: int| 0 <= k < places.len() ==> (#[trigger] places[k]) < n && f(places[k])
            &&& forall|i: int| 0 <= i < n && f(#[trigger] all[i]) ==> places.contains(all[i])
            &&& forall|j: int, k: int|
                0 <= j < k < places.len() ==> (#[trigger] places[j]) < (#[trigger] places[k])
        }),
    decreases n,
{
    reveal(Seq::filter);
    if n > 0 {
        lemma_filter_of_places(all, f, n - 1);
        let front = all.take(n - 1).filter(f);
        let places = all.take(n).filter(f);
        assert(all.take(n).drop_last() =~= all.take(n - 1));
        assert(all.take(n).last() == all[n - 1]);
        assert forall|i: int| 0 <= i < n && f(#[trigger] all[i]) implies places.contains(
            all[i],
        ) by {
            if i < n - 1 {
                let k = front.index_of(all[i]);
                assert(places[k] == all[i]);
            } else {
                assert(places[places.len() - 1] == all[i]);
            }
        }
    }
}

/// What sending a message does: one number is drawn for it, and it is put on the network exactly
/// where that number, as a part, is at least the run's loss, for whom it is meant, from the node that
/// sent it and due after the latency; where the number is below the loss the network is as it was.
/// Nothing else is touched.
pub proof fn law_a_message_gets_through_by_the_number_drawn<M>(
    w: WorldView<M>,
    i: int,
    dst: u32,
    msg: M,
)
    requires
        0 <= i < w.nodes.len(),
        w.now + w.p.latency <= u64::MAX,
    ensures
        ({
            let after = w.run_one(i, Action::Send(dst, msg));
            &&& after == (WorldView { rng: after.rng, net: after.net, ..w })
            &&& after.rng == w.rng.after(1)
            &&& w.rng.peek_part() < w.p.loss ==> after.net == w.net
            &&& w.rng.peek_part() >= w.p.loss ==> {
                &&& after.net.len() == w.net.len() + 1
                &&& after.net.drop_last() == w.net
                &&& after.net.last().due == w.now + w.p.latency
                &&& after.net.last().what.dst == dst
                &&& after.net.last().what.from == w.nodes[i].id
                &&& after.net.last().what.msg == msg
            }
            &&& w.p.loss == 0 ==> after.net.len() == w.net.len() + 1
            &&& w.p.loss >= crate::rng::PARTS ==> after.net == w.net
        }),
{
    reveal_with_fuel(Rng::after, 2);
    crate::rng::law_a_part_is_a_numbers_place(w.rng);
    let after = w.run_one(i, Action::Send(dst, msg));
    if w.rng.peek_part() >= w.p.loss {
        assert(after.net.drop_last() =~= w.net);
    }
}

/// What delivering a payload does, whatever its bytes: the node loses none of the slots it knew and
/// none of their totals falls; its rights are as they were, and nothing else is touched.
pub proof fn law_a_payload_loses_nothing<M>(w: WorldView<M>, i: int, payload: Vec<u8>, id: u32)
    requires
        0 <= i < w.nodes.len(),
    ensures
        ({
            let after = w.run_one(i, Action::Deliver(payload));
            let (was, is) = (w.nodes[i], after.nodes[i]);
            &&& after == (WorldView { nodes: after.nodes, ..w })
            &&& after.nodes.len() == w.nodes.len()
            &&& forall|j: int|
                0 <= j < w.nodes.len() && j != i ==> #[trigger] after.nodes[j] == w.nodes[j]
            &&& is.id == was.id && is.alive == was.alive
            &&& is.usage.me == was.usage.me && is.usage.granted == was.usage.granted
            &&& was.usage.slots.contains_key(id) ==> {
                &&& is.usage.slots.contains_key(id)
                &&& is.usage.slots[id].consumed >= was.usage.slots[id].consumed
                &&& is.usage.slots[id].freed >= was.usage.slots[id].freed
            }
        }),
{
    escrow::law_a_report_raises_totals_to_its_lines(
        w.nodes[i].usage.slots,
        wire::report_of(payload@),
    );
}

/// What delivering a payload tells the node: of the node that a line of it names, totals no smaller
/// than the line spells.
pub proof fn law_a_payload_raises_what_its_node_knows<M>(
    w: WorldView<M>,
    i: int,
    payload: Vec<u8>,
    k: int,
)
    requires
        0 <= i < w.nodes.len(),
        0 <= k,
        (k + 1) * 20 <= payload@.len(),
    ensures
        ({
            let knows = w.run_one(i, Action::Deliver(payload)).nodes[i].usage.slots;
            let about = wire::spelled(payload@, k * 20, 4) as u32;
            &&& knows.contains_key(about)
            &&& knows[about].consumed >= wire::spelled(payload@, k * 20 + 4, 8)
            &&& knows[about].freed >= wire::spelled(payload@, k * 20 + 12, 8)
        }),
{
    wire::law_decoding_reads_what_is_spelled(payload@, k);
    let report = wire::report_of(payload@);
    escrow::law_a_report_raises_totals_to_its_lines(w.nodes[i].usage.slots, report);
    assert(report[k].0 == wire::spelled(payload@, k * 20, 4));
}

/// A delivered payload raises nothing past what its lines say: a total that the node holds afterwards
/// is one it held before or one a line names, and a slot it holds is one it held or one a line is
/// about.
pub proof fn law_a_payload_makes_nothing_up<M>(
    w: WorldView<M>,
    i: int,
    payload: Vec<u8>,
    id: u32,
)
    requires
        0 <= i < w.nodes.len(),
        w.run_one(i, Action::Deliver(payload)).nodes[i].usage.slots.contains_key(id),
    ensures
        ({
            let had = w.nodes[i].usage.slots;
            let has = w.run_one(i, Action::Deliver(payload)).nodes[i].usage.slots;
            let report = wire::report_of(payload@);
            &&& {
                ||| had.contains_key(id) && has[id].consumed == had[id].consumed
                ||| exists|k: int|
                    0 <= k < report.len() && (#[trigger] report[k]).0 == id && has[id].consumed
                        == report[k].1
            }
            &&& {
                ||| had.contains_key(id) && has[id].freed == had[id].freed
                ||| exists|k: int|
                    0 <= k < report.len() && (#[trigger] report[k]).0 == id && has[id].freed
                        == report[k].2
            }
        }),
{
    escrow::law_a_report_raises_totals_to_its_lines(
        w.nodes[i].usage.slots,
        wire::report_of(payload@),
    );
}

/// Actions are carried out one after another, at the node they were asked of: none changes nothing,
/// one more is carried out in the world that those before it have left, and where no node has the id
/// nothing happens at all.
pub proof fn law_actions_are_carried_out_one_after_another<M>(
    w: WorldView<M>,
    id: u32,
    i: int,
    actions: Seq<Action<M>>,
    next: Action<M>,
)
    ensures
        w.run(id, Seq::empty()) == w,
        0 <= i < w.nodes.len() && w.nodes[i].id == id && (forall|j: int|
            0 <= j < i ==> (#[trigger] w.nodes[j]).id != id) ==> w.run(id, actions.push(next))
            == w.run(id, actions).run_one(i, next),
        (forall|j: int| 0 <= j < w.nodes.len() ==> (#[trigger] w.nodes[j]).id != id) ==> w.run(
            id,
            actions,
        ) == w,
{
    law_a_node_is_found_by_its_id(w.nodes, id);
    assert(actions.push(next).drop_last() =~= actions);
}

/// What a load does at a node. Where the node's room does not hold the amount, the governor lends it
/// a chunk, or all that is left to lend where that is less; where it does, nothing is lent. The node
/// then acquires the amount where its room holds it, on its own slot, and the true total has that
/// much more; where it does not, neither moves. Nothing else is touched.
pub proof fn law_a_load_draws_what_is_short_and_acquires<M>(w: WorldView<M>, i: int)
    requires
        0 <= i < w.nodes.len(),
        w.book.dom().finite(),
        ledger::lent(w.book) <= w.ceiling,
        w.nodes[i].usage.me == w.nodes[i].id,
        w.load_fits(i),
    ensures
        ({
            let after = w.offer_load(i);
            let (was, is) = (w.nodes[i].usage, after.nodes[i].usage);
            let amount = w.p.load_amount;
            let give = is.granted - was.granted;
            &&& after == (WorldView {
                nodes: after.nodes,
                book: after.book,
                true_total: after.true_total,
                ..w
            })
            &&& after.nodes.len() == w.nodes.len()
            &&& forall|j: int|
                0 <= j < w.nodes.len() && j != i ==> #[trigger] after.nodes[j] == w.nodes[j]
            &&& after.nodes[i].id == w.nodes[i].id && after.nodes[i].alive == w.nodes[i].alive
            &&& is.me == was.me
            &&& was.room() >= amount ==> give == 0
            &&& was.room() < amount ==> 0 <= give <= w.p.chunk && ledger::lent(w.book) + give
                <= w.ceiling && (give == w.p.chunk || ledger::lent(w.book) + give == w.ceiling)
            &&& ledger::lent(after.book) == ledger::lent(w.book) + give
            &&& after.book.remove(was.me) == w.book.remove(was.me)
            &&& was.used() + amount <= is.granted ==> {
                &&& after.true_total == w.true_total + amount
                &&& is.slots.contains_key(was.me)
                &&& is.slots[was.me].consumed == slots::slot_at(was.slots, was.me).consumed + amount
                &&& is.slots[was.me].freed == slots::slot_at(was.slots, was.me).freed
                &&& is.slots.remove(was.me) == was.slots.remove(was.me)
            }
            &&& was.used() + amount > is.granted ==> after.true_total == w.true_total && is.slots
                == was.slots
        }),
{
    let was = w.nodes[i].usage;
    let give = w.top_up(i);
    ledger::lemma_lent_after_put(w.book, was.me, 0);
    assert(ledger::held(w.book, was.me) + give <= u64::MAX);
    ledger::law_a_loan_moves_one_holding(w.book, was.me, give);
    if was.grant(give).admits(w.p.load_amount) {
        slots::law_a_write_moves_one_figure(was.slots, was.me, w.p.load_amount);
    }
}

/// `governor` is the first node of `nodes` that is up and is not `id`, or `id` where there is none.
pub open spec fn governs_next(nodes: Seq<NodeView>, id: u32, governor: u32) -> bool {
    ||| exists|i: int|
        {
            &&& 0 <= i < nodes.len()
            &&& (#[trigger] nodes[i]).alive && nodes[i].id != id && nodes[i].id == governor
            &&& forall|j: int| 0 <= j < i ==> !((#[trigger] nodes[j]).alive && nodes[j].id != id)
        }
    ||| governor == id && forall|i: int|
        0 <= i < nodes.len() ==> !((#[trigger] nodes[i]).alive && nodes[i].id != id)
}

/// What a change of governor does: at its round the next node that is up governs, and what was lent
/// stays lent; in any other round nothing happens. Nothing else is touched.
pub proof fn law_a_governor_hands_over_what_was_lent<M>(w: WorldView<M>)
    ensures
        w.after_governor() == (WorldView { governor: w.after_governor().governor, ..w }),
        w.p.change_governor_at == Some(w.now) ==> governs_next(
            w.nodes,
            w.governor,
            w.after_governor().governor,
        ),
        w.p.change_governor_at != Some(w.now) ==> w.after_governor().governor == w.governor,
{
    law_the_next_to_govern_is_the_first_that_is_up(w.nodes, w.governor);
}

/// What a kill does: at its round the first node with that id is down, and named as having left, its
/// usage and its rights as they were; where it governed, the next node that is up governs. In any
/// other round nothing happens. Nothing else is touched.
pub proof fn law_a_kill_takes_one_node_down<M>(w: WorldView<M>, at: u64, victim: u32)
    ensures
        w.killed() == Some(victim) <==> w.p.kill_at == Some((w.now, victim)),
        w.killed() is None ==> w.after_kill() == w,
        w.p.kill_at == Some((w.now, victim)) ==> {
            let after = w.after_kill();
            &&& after == (WorldView { nodes: after.nodes, governor: after.governor, ..w })
            &&& after.nodes.len() == w.nodes.len()
            &&& forall|i: int|
                0 <= i < w.nodes.len() && (#[trigger] w.nodes[i]).id != victim ==> after.nodes[i]
                    == w.nodes[i]
            &&& forall|i: int|
                0 <= i < w.nodes.len() && (#[trigger] w.nodes[i]).id == victim && (forall|j: int|
                    0 <= j < i ==> (#[trigger] w.nodes[j]).id != victim) ==> after.nodes[i] == (
                NodeView { alive: false, ..w.nodes[i] })
            &&& w.governor == victim ==> governs_next(after.nodes, victim, after.governor)
            &&& w.governor != victim ==> after.governor == w.governor
        },
        w.p.kill_at == Some((at, victim)) && at != w.now ==> w.after_kill() == w,
        w.p.kill_at is None ==> w.after_kill() == w,
{
    law_a_node_is_found_by_its_id(w.nodes, victim);
    law_the_next_to_govern_is_the_first_that_is_up(w.after_kill().nodes, victim);
}

/// What a join does: at its round one node comes to the others, up, under the next free id, without
/// rights and without usage, and is dealt its peers out of the nodes that are up; in any other round
/// nothing happens. But for the random numbers of the deal nothing else is touched.
pub proof fn law_a_join_adds_one_node<M>(w: WorldView<M>)
    requires
        gossip::max_id(w.nodes) < u32::MAX,
    ensures
        w.joins() <==> w.p.join_at == Some(w.now),
        w.p.join_at != Some(w.now) ==> w.after_join() == w,
        w.p.join_at == Some(w.now) ==> {
            let after = w.after_join();
            let n = after.nodes.last();
            &&& after == (WorldView { nodes: after.nodes, rng: after.rng, ..w })
            &&& after.nodes.len() == w.nodes.len() + 1
            &&& after.nodes.drop_last() == w.nodes
            &&& n.alive
            &&& forall|i: int| 0 <= i < w.nodes.len() ==> (#[trigger] w.nodes[i]).id < n.id
            &&& w.nodes.len() > 0 ==> exists|i: int|
                0 <= i < w.nodes.len() && (#[trigger] w.nodes[i]).id + 1 == n.id
            &&& n.usage.me == n.id
            &&& n.usage.granted == 0
            &&& n.usage.slots.dom() == Set::<u32>::empty()
            &&& w.joiner().me == n.id
            &&& w.joiner() == gossip::dealt(
                n.id,
                gossip::live_ids(w.nodes),
                w.p.fanout,
                w.rng,
            )
            &&& after.rng == gossip::rng_after_deal(n.id, gossip::live_ids(w.nodes), w.rng)
        },
{
    law_the_largest_id_is_the_largest(w.nodes);
    assert(Map::<u32, slots::SlotState>::empty().dom() =~= Set::<u32>::empty());
    if w.joins() {
        assert(w.after_join().nodes.drop_last() =~= w.nodes);
    }
}

/// The peers a fresh node deals among are the others, as often as they are named and without itself.
pub proof fn law_peers_are_the_others(me: u32, others: Seq<u32>, next: u32)
    ensures
        gossip::peers_of(me, Seq::empty()) == Seq::<u32>::empty(),
        next != me ==> gossip::peers_of(me, others.push(next)) == gossip::peers_of(me, others).push(
            next,
        ),
        next == me ==> gossip::peers_of(me, others.push(next)) == gossip::peers_of(me, others),
{
    reveal(Seq::filter);
    assert(others.push(next).drop_last() =~= others);
    assert(gossip::peers_of(me, Seq::empty()) =~= Seq::<u32>::empty());
}

/// A shuffle from place `i` down leaves what is behind it alone.
proof fn lemma_shuffle_touches_the_front(s: Seq<u32>, rng: Rng, i: int)
    requires
        -1 <= i < s.len() <= u32::MAX,
    ensures
        gossip::shuffled(s, rng, i).len() == s.len(),
        gossip::shuffled(s, rng, i) == gossip::shuffled(s.take(i + 1), rng, i) + s.skip(i + 1),
    decreases i,
{
    let front = s.take(i + 1);
    if i < 1 {
        assert(s =~= front + s.skip(i + 1));
    } else {
        let j = (rng.peek() % (i + 1) as u64) as int;
        assert(0 <= j <= i);
        let next = gossip::swapped(s, i, j);
        let near = gossip::swapped(front, i, j);
        lemma_shuffle_touches_the_front(next, rng.skip(), i - 1);
        lemma_shuffle_touches_the_front(near, rng.skip(), i - 1);
        assert(next.take(i) =~= near.take(i));
        assert(next.skip(i) =~= near.skip(i) + s.skip(i + 1));
        assert(gossip::shuffled(s, rng, i) =~= gossip::shuffled(front, rng, i) + s.skip(i + 1));
    }
}

/// How a shuffle is drawn: of two items or more, the number drawn names, by its remainder, the item
/// that comes last; the last of all takes that one's place, and those that are left are shuffled with
/// the numbers that follow.
pub proof fn law_a_shuffle_draws_its_last_item_first(s: Seq<u32>, rng: Rng)
    requires
        2 <= s.len() <= u32::MAX,
    ensures
        ({
            let j = rng.peek() % (s.len() as u64);
            gossip::shuffled(s, rng, s.len() - 1) == gossip::shuffled(
                s.update(j as int, s.last()).drop_last(),
                rng.after(1),
                s.len() - 2,
            ).push(s[j as int])
        }),
{
    reveal_with_fuel(Rng::after, 2);
    let i = s.len() - 1;
    let j = (rng.peek() % (s.len() as u64)) as int;
    assert(0 <= j <= i);
    let next = gossip::swapped(s, i, j);
    lemma_shuffle_touches_the_front(next, rng.skip(), i - 1);
    assert(next.take(i) =~= s.update(j, s.last()).drop_last());
    assert(next.skip(i) =~= seq![s[j]]);
    let rest = gossip::shuffled(next.take(i), rng.skip(), i - 1);
    assert(rest + seq![s[j]] =~= rest.push(s[j]));
}

/// Shuffling fewer than two items leaves them as they are.
pub proof fn law_one_item_needs_no_shuffle(s: Seq<u32>, rng: Rng)
    requires
        s.len() < 2,
    ensures
        gossip::shuffled(s, rng, s.len() - 1) == s,
{
}

/// What a fresh node is dealt: its own id, and its peers shuffled, the first of them eager and the
/// rest lazy, as many eager as the fanout asks for or all where there are fewer.
pub proof fn law_the_first_dealt_are_eager(me: u32, others: Seq<u32>, fanout: usize, rng: Rng)
    requires
        others.len() <= u32::MAX,
    ensures
        ({
            let p = gossip::dealt(me, others, fanout, rng);
            let all = gossip::peers_of(me, others);
            &&& p.me == me
            &&& p.eager + p.lazy == gossip::shuffled(all, rng, all.len() - 1)
            &&& p.eager.len() <= fanout
            &&& p.eager.len() < fanout ==> p.lazy.len() == 0
        }),
{
    let p = gossip::dealt(me, others, fanout, rng);
    let all = gossip::peers_of(me, others);
    let mixed = gossip::shuffled(all, rng, all.len() - 1);
    others.lemma_filter_len(|x: u32| x != me);
    lemma_shuffle_touches_the_front(all, rng, all.len() - 1);
    assert(p.eager + p.lazy =~= mixed);
}

/// Dealing draws one number for each peer but one, and deals are drawn one behind the other.
pub proof fn law_a_deal_draws_a_number_for_each_peer_but_one(
    n: nat,
    me: u32,
    others: Seq<u32>,
    rng: Rng,
)
    requires
        n < u32::MAX,
    ensures
        gossip::peers_of(me, others).len() == 0 ==> gossip::rng_after_deal(me, others, rng) == rng,
        gossip::peers_of(me, others).len() > 0 ==> gossip::rng_after_deal(me, others, rng)
            == rng.after((gossip::peers_of(me, others).len() - 1) as nat),
        gossip::rng_after_deals(0, others, rng) == rng,
        gossip::rng_after_deals(n + 1, others, rng) == gossip::rng_after_deal(
            n as u32,
            others,
            gossip::rng_after_deals(n, others, rng),
        ),
{
}

/// The nodes broadcast in the rounds that are a multiple of the period, and in no other; with no
/// period, in none but round zero.
pub proof fn law_nodes_broadcast_once_a_period<M>(w: WorldView<M>)
    ensures
        w.p.gossip_every > 0 ==> (w.gossips() <==> exists|k: int|
            w.now == #[trigger] (k * w.p.gossip_every)),
        w.p.gossip_every == 0 ==> (w.gossips() <==> w.now == 0),
{
    if w.p.gossip_every > 0 {
        let d = w.p.gossip_every as int;
        let n = w.now as int;
        vstd::arithmetic::div_mod::lemma_fundamental_div_mod(n, d);
        assert(d * (n / d) == (n / d) * d) by (nonlinear_arith);
        if exists|k: int| w.now == #[trigger] (k * w.p.gossip_every) {
            let k = choose|k: int| w.now == #[trigger] (k * w.p.gossip_every);
            vstd::arithmetic::div_mod::lemma_mod_multiples_basic(k, d);
        }
        if w.gossips() {
            assert(w.now == (n / d) * w.p.gossip_every);
        }
    }
}

/// What the beginning of a round does: the run is over once its rounds are; before that the clock
/// moves on by one, then the governor changes, a node is killed and a node joins, where it is the
/// round for it, and those that left and joined are named; of the messages on the network what is due
/// is set apart, nothing lost and nothing made up.
pub proof fn law_a_round_begins<M>(before: WorldView<M>, step: Step<M>, after: WorldView<M>)
    requires
        before.phase == Phase::Rest,
        before.steps_to(step, after),
    ensures
        before.now >= before.p.rounds ==> step is Finished && after == before,
        before.now < before.p.rounds ==> {
            let then = (WorldView { now: (before.now + 1) as u64, ..before });
            let w = then.after_governor().after_kill();
            &&& step matches Step::Round(left, joined)
            &&& left == then.killed()
            &&& joined is Some <==> before.p.join_at == Some((before.now + 1) as u64)
            &&& joined matches Some(peers) ==> peers@ == w.joiner()
            &&& after.phase == Phase::Deliver
            &&& after == (WorldView {
                inbox: after.inbox,
                net: after.net,
                phase: Phase::Deliver,
                ..w.after_join()
            })
            &&& forall|i: int|
                0 <= i < after.inbox.len() ==> (#[trigger] after.inbox[i]).due <= before.now + 1
            &&& forall|i: int|
                0 <= i < after.net.len() ==> (#[trigger] after.net[i]).due > before.now + 1
            &&& after.inbox.to_multiset().add(after.net.to_multiset()) == before.net.to_multiset()
        },
{
    if before.now < before.p.rounds {
        let then = before.next_round();
        assert(then == (WorldView { now: (before.now + 1) as u64, ..before }));
        queue::law_a_queue_is_split_by_what_is_due(before.net, then.now);
    }
}

/// What a step does with a message that is due: the tree of the node it is for gets it, from the one
/// that sent it, where that node is up; else it is dropped. No node is touched. Once no message is
/// left it is the load's turn.
pub proof fn law_a_message_reaches_its_node<M>(
    before: WorldView<M>,
    step: Step<M>,
    after: WorldView<M>,
)
    requires
        before.phase == Phase::Deliver,
        before.nodes.len() <= usize::MAX,
        before.steps_to(step, after),
    ensures
        after == (WorldView { inbox: after.inbox, phase: after.phase, ..before }),
        before.inbox.len() == 0 ==> step is Quiet && after.phase == Phase::Load(0) && after.inbox
            == before.inbox,
        before.inbox.len() > 0 ==> after.phase == Phase::Deliver && after.inbox
            == before.inbox.drop_first(),
        before.inbox.len() > 0 && (forall|i: int|
            0 <= i < before.nodes.len() ==> (#[trigger] before.nodes[i]).id
                != before.inbox[0].what.dst) ==> step is Quiet,
        forall|i: int|
            before.inbox.len() > 0 && 0 <= i < before.nodes.len() && (#[trigger] before.nodes[i]).id
                == before.inbox[0].what.dst && (forall|j: int|
                0 <= j < i ==> (#[trigger] before.nodes[j]).id != before.inbox[0].what.dst) ==> {
                if before.nodes[i].alive {
                    step == Step::OnMessage(
                        i as usize,
                        before.inbox[0].what.from,
                        before.inbox[0].what.msg,
                    )
                } else {
                    step is Quiet
                }
            },
{
    if before.inbox.len() > 0 {
        law_a_node_is_found_by_its_id(before.nodes, before.inbox[0].what.dst);
    }
}

/// What a step does at a node's turn for load: a node that is down is passed over. One that is up is
/// put under load as long as the run has load, and in a round with broadcasts broadcasts, in bytes, a
/// report that lists its slots as the load has left them. Behind the last node the clock's turn comes.
pub proof fn law_a_live_node_is_loaded_and_broadcasts<M>(
    before: WorldView<M>,
    i: usize,
    step: Step<M>,
    after: WorldView<M>,
)
    requires
        before.phase == Phase::Load(i),
        before.nodes.len() <= usize::MAX,
        before.steps_to(step, after),
    ensures
        i >= before.nodes.len() ==> step is Quiet && after == (WorldView {
            phase: Phase::Tick(0),
            ..before
        }),
        i < before.nodes.len() ==> after.phase == Phase::Load((i + 1) as usize),
        i < before.nodes.len() && !before.nodes[i as int].alive ==> step is Quiet && after == (
        WorldView { phase: after.phase, ..before }),
        i < before.nodes.len() && before.nodes[i as int].alive ==> {
            let loaded = before.offer_load(i as int);
            let then = if before.now <= before.p.load_until {
                loaded
            } else {
                before
            };
            &&& after == (WorldView { phase: after.phase, sent: after.sent, ..then })
            &&& !before.gossips() ==> step is Quiet && after.sent == before.sent
            &&& before.gossips() ==> {
                &&& step matches Step::Broadcast(at, payload)
                &&& at == i
                &&& after.sent == before.sent.insert(payload@)
                &&& escrow::reports(
                    wire::report_of(payload@),
                    after.nodes[i as int].usage.slots,
                )
                &&& payload@.len() == 20 * wire::report_of(payload@).len()
            }
        },
{
    if i < before.nodes.len() && before.nodes[i as int].alive {
        let on = WorldView { phase: Phase::Load((i + 1) as usize), ..before };
        let w = on.loaded(i as int);
        assert(on.offer_load(i as int) =~= (WorldView {
            phase: on.phase,
            ..before.offer_load(i as int)
        }));
        if before.gossips() {
            let payload = step->Broadcast_1;
            let report = choose|report: Seq<wire::Line>|
                escrow::reports(report, w.nodes[i as int].usage.slots) && payload@
                    == #[trigger] wire::bytes_of(report);
            wire::law_decode_undoes_encode(report);
        }
    }
}

/// What a step does at a node's turn for the clock: the tree of a node that is up sees it, a node that
/// is down is passed over, and behind the last the world rests. Nothing else is touched.
pub proof fn law_every_live_tree_sees_the_clock<M>(
    before: WorldView<M>,
    i: usize,
    step: Step<M>,
    after: WorldView<M>,
)
    requires
        before.phase == Phase::Tick(i),
        before.steps_to(step, after),
    ensures
        after == (WorldView { phase: after.phase, ..before }),
        i >= before.nodes.len() ==> step is Quiet && after.phase == Phase::Rest,
        i < before.nodes.len() ==> after.phase == Phase::Tick((i + 1) as usize),
        i < before.nodes.len() && before.nodes[i as int].alive ==> step == Step::<M>::Tick(i),
        i < before.nodes.len() && !before.nodes[i as int].alive ==> step is Quiet,
{
}

/// In a converged world every node that is up reads the true total; in any other there is one that
/// does not.
pub proof fn law_a_converged_world_reads_the_truth<M>(w: WorldView<M>)
    ensures
        w.converged() ==> forall|i: int|
            0 <= i < w.nodes.len() && (#[trigger] w.nodes[i]).alive ==> slots::reading(
                w.nodes[i].usage.slots,
            ) == w.true_total,
        !w.converged() ==> exists|i: int|
            0 <= i < w.nodes.len() && (#[trigger] w.nodes[i]).alive && slots::reading(
                w.nodes[i].usage.slots,
            ) != w.true_total,
{
}

/// The first ids are the numbers from zero up, as many as asked for.
pub proof fn law_the_first_ids_count_up(n: u32, i: int)
    ensures
        gossip::first_ids(n).len() == n,
        0 <= i < n ==> gossip::first_ids(n)[i] == i,
{
}

} // verus!
