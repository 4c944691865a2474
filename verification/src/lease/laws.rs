//! What every run keeps.

use vstd::prelude::*;

use super::tree;
use super::{Event, NodeView, Params, Phase, Step, WorldView};

verus! {

/// Changing one node changes a sum by what changed at that node.
pub proof fn lemma_total_after_update(
    nodes: Seq<NodeView>,
    i: int,
    n: NodeView,
    f: spec_fn(NodeView) -> nat,
)
    requires
        0 <= i < nodes.len(),
    ensures
        super::total(nodes.update(i, n), f) + f(nodes[i]) == super::total(nodes, f) + f(n),
    decreases nodes.len(),
{
    let after = nodes.update(i, n);
    if i == nodes.len() - 1 {
        assert(after.drop_last() =~= nodes.drop_last());
    } else {
        assert(after.drop_last() =~= nodes.drop_last().update(i, n));
        lemma_total_after_update(nodes.drop_last(), i, n, f);
    }
}

/// One node's part is no more than the sum.
pub proof fn lemma_part_of_total(nodes: Seq<NodeView>, i: int, f: spec_fn(NodeView) -> nat)
    requires
        0 <= i < nodes.len(),
    ensures
        f(nodes[i]) <= super::total(nodes, f),
    decreases nodes.len(),
{
    if i < nodes.len() - 1 {
        lemma_part_of_total(nodes.drop_last(), i, f);
    }
}

/// Some nodes' part is no more than the sum over all.
pub proof fn lemma_some_of_total(
    nodes: Seq<NodeView>,
    which: Seq<u32>,
    f: spec_fn(NodeView) -> nat,
)
    ensures
        super::total(nodes, super::of_those(which, f)) <= super::total(nodes, f),
    decreases nodes.len(),
{
    if nodes.len() > 0 {
        lemma_some_of_total(nodes.drop_last(), which, f);
    }
}

/// The sum over the first nodes is no more than the sum over all.
pub proof fn lemma_total_grows(nodes: Seq<NodeView>, n: int, f: spec_fn(NodeView) -> nat)
    requires
        0 <= n <= nodes.len(),
    ensures
        super::total(nodes.take(n), f) <= super::total(nodes, f),
    decreases nodes.len() - n,
{
    if n == nodes.len() {
        assert(nodes.take(n) =~= nodes);
    } else {
        lemma_total_grows(nodes, n + 1, f);
        assert(nodes.take(n + 1).drop_last() =~= nodes.take(n));
    }
}

/// Nodes that have seen no load offer and admit nothing.
proof fn lemma_unloaded_totals(nodes: Seq<NodeView>)
    requires
        forall|i: int|
            0 <= i < nodes.len() ==> (#[trigger] nodes[i]).offered == 0 && nodes[i].admitted == 0,
    ensures
        super::total(nodes, super::offered_by()) == 0,
        super::total(nodes, super::admitted_by()) == 0,
    decreases nodes.len(),
{
    if nodes.len() > 0 {
        lemma_unloaded_totals(nodes.drop_last());
    }
}

/// The world that a run starts with is sound.
pub proof fn lemma_start_is_sound<M>(p: Params)
    requires
        p.dcs > 0,
    ensures
        WorldView::<M>::start(p).sound(),
{
    let w = WorldView::<M>::start(p);
    lemma_unloaded_totals(w.nodes);
    assert forall|i: int, j: int|
        0 <= i < w.nodes.len() && 0 <= j < w.nodes.len() && i != j implies super::ids(w.nodes)[i]
        != super::ids(w.nodes)[j] by {}
}

/// No id is larger than the largest.
pub proof fn lemma_max_id(nodes: Seq<NodeView>, i: int)
    requires
        0 <= i < nodes.len(),
    ensures
        nodes[i].id <= super::max_id(nodes),
    decreases nodes.len(),
{
    if i < nodes.len() - 1 {
        lemma_max_id(nodes.drop_last(), i);
    }
}

/// The largest id depends on the ids alone.
proof fn lemma_max_id_congruent(a: Seq<NodeView>, b: Seq<NodeView>)
    requires
        super::ids(a) == super::ids(b),
    ensures
        super::max_id(a) == super::max_id(b),
    decreases a.len(),
{
    assert(a.len() == super::ids(a).len());
    assert(b.len() == super::ids(b).len());
    if a.len() > 0 {
        assert(super::ids(a.drop_last()) =~= super::ids(a).drop_last());
        assert(super::ids(b.drop_last()) =~= super::ids(b).drop_last());
        assert(super::ids(a).last() == a.last().id);
        assert(super::ids(b).last() == b.last().id);
        lemma_max_id_congruent(a.drop_last(), b.drop_last());
    }
}

/// Changing a node but not its id or its load keeps the world sound.
proof fn lemma_sound_after_update<M>(before: WorldView<M>, after: WorldView<M>, i: int, n: NodeView)
    requires
        before.sound(),
        0 <= i < before.nodes.len(),
        n.id == before.nodes[i].id,
        n.offered == before.nodes[i].offered,
        n.admitted == before.nodes[i].admitted,
        n.seen_term <= before.term,
        after.nodes == before.nodes.update(i, n),
        after == (WorldView {
            nodes: after.nodes,
            phase: after.phase,
            due_views: after.due_views,
            due_verdicts: after.due_verdicts,
            ..before
        }),
        after.phase !is Clock,
        after.phase matches Phase::Verdicts(k) ==> after.told_up_to(k as int),
    ensures
        after.sound(),
        super::ids(after.nodes) == super::ids(before.nodes),
{
    assert(super::ids(after.nodes) =~= super::ids(before.nodes));
    lemma_total_after_update(before.nodes, i, n, super::offered_by());
    lemma_total_after_update(before.nodes, i, n, super::admitted_by());
}

/// Where a found node is.
proof fn lemma_found(nodes: Seq<NodeView>, id: u32)
    ensures
        super::find(nodes, id) matches Some(i) ==> 0 <= i < nodes.len() && nodes[i].id == id,
        super::find(nodes, id) is None ==> forall|i: int|
            0 <= i < nodes.len() ==> (#[trigger] nodes[i]).id != id,
{
    let all = super::ids(nodes);
    all.index_of_first_ensures(id);
    if super::find(nodes, id) is None {
        assert forall|i: int| 0 <= i < nodes.len() implies (#[trigger] nodes[i]).id != id by {
            assert(all[i] == nodes[i].id);
            assert(!all.contains(id));
        }
    } else {
        let i = super::find(nodes, id).unwrap();
        assert(all[i] == nodes[i].id);
    }
}

/// What an event may touch: the nodes, who leads in which term, what is under way to the nodes,
/// where the random numbers stand, and what is watched. The clock, the network, the phase and
/// the measurements stay as they were.
pub open spec fn same_but_for_the_cluster<M>(before: WorldView<M>, after: WorldView<M>) -> bool {
    after == (WorldView {
        nodes: after.nodes,
        leader: after.leader,
        term: after.term,
        views: after.views,
        verdicts: after.verdicts,
        rng: after.rng,
        mid: after.mid,
        subtree: after.subtree,
        ..before
    })
}

/// A node going down or coming up keeps the world sound.
proof fn lemma_liveness_is_sound<M>(w: WorldView<M>, id: u32, up: bool)
    requires
        w.sound(),
        w.phase is Rest,
        w.has_headroom(1),
    ensures
        w.liveness(id, up).sound(),
        same_but_for_the_cluster(w, w.liveness(id, up)),
        super::ids(w.liveness(id, up).nodes) == super::ids(w.nodes),
        w.term <= w.liveness(id, up).term <= w.term + 1,
{
    lemma_found(w.nodes, id);
    if let Some(i) = super::find(w.nodes, id) {
        lemma_sound_after_update(w, w.with_up(i, up), i, NodeView { up, ..w.nodes[i] });
    }
}

/// An event keeps the world sound. It raises the term by one at most and never lowers it, adds
/// one node at most and takes none away, and touches neither the clock nor the network nor the
/// measurements.
pub proof fn law_an_event_keeps_the_world_sound<M>(
    before: WorldView<M>,
    e: Event,
    parents: Seq<Option<u32>>,
    after: WorldView<M>,
)
    requires
        before.sound(),
        before.phase is Rest,
        before.has_headroom(1),
        before.event_leads_to(e, parents, after),
    ensures
        after.sound(),
        same_but_for_the_cluster(before, after),
        before.term <= after.term <= before.term + 1,
        before.nodes.len() <= after.nodes.len() <= before.nodes.len() + 1,
        super::ids(after.nodes).take(before.nodes.len() as int) == super::ids(before.nodes),
        super::max_id(before.nodes) <= super::max_id(after.nodes) <= super::max_id(before.nodes)
            + 1,
{
    let all = super::ids(before.nodes);
    assert(all.take(before.nodes.len() as int) =~= all);
    match e {
        Event::Down(id) => {
            lemma_liveness_is_sound(before, id, false);
            lemma_max_id_congruent(before.nodes, after.nodes);
            assert(super::ids(after.nodes).len() == after.nodes.len());
        },
        Event::Up(id) => {
            lemma_liveness_is_sound(before, id, true);
            lemma_max_id_congruent(before.nodes, after.nodes);
            assert(super::ids(after.nodes).len() == after.nodes.len());
        },
        Event::DownMidTree => {
            if let Some(id) = before.mid {
                lemma_liveness_is_sound(before, id, false);
                lemma_max_id_congruent(before.nodes, after.nodes);
                assert(super::ids(after.nodes).len() == after.nodes.len());
            }
        },
        Event::UpMidTree => {
            if let Some(id) = before.mid {
                lemma_liveness_is_sound(before, id, true);
                lemma_max_id_congruent(before.nodes, after.nodes);
                assert(super::ids(after.nodes).len() == after.nodes.len());
            }
        },
        Event::Join => {
            let id = (super::max_id(before.nodes) + 1) as u32;
            let n = super::fresh_node(id, before.p.dcs, before.leader, before.term);
            assert(after.nodes == before.nodes.push(n));
            assert(after.nodes.drop_last() =~= before.nodes);
            assert(super::ids(after.nodes) =~= all.push(id));
            assert forall|k: int| 0 <= k < all.len() implies #[trigger] all[k] < id by {
                lemma_max_id(before.nodes, k);
            }
            assert(super::ids(after.nodes).take(before.nodes.len() as int) =~= all);
        },
        Event::Leader => {},
        Event::PickMidTree => {},
    }
}

/// A whole tick's events keep the world sound; the term never falls, and rises by one at most
/// with each event.
pub proof fn law_events_keep_the_world_sound<M>(
    before: WorldView<M>,
    events: Seq<Event>,
    parents: Seq<Option<u32>>,
    after: WorldView<M>,
)
    requires
        before.sound(),
        before.phase is Rest,
        before.has_headroom(events.len()),
        before.events_lead_to(events, parents, after),
    ensures
        after.sound(),
        same_but_for_the_cluster(before, after),
        before.term <= after.term <= before.term + events.len(),
        before.nodes.len() <= after.nodes.len() <= before.nodes.len() + events.len(),
        super::max_id(before.nodes) <= super::max_id(after.nodes) <= super::max_id(before.nodes)
            + events.len(),
    decreases events.len(),
{
    if events.len() > 0 {
        let mid = choose|mid: WorldView<M>|
            #![trigger mid.event_leads_to(events.last(), parents, after)]
            before.events_lead_to(events.drop_last(), parents, mid) && mid.event_leads_to(
                events.last(),
                parents,
                after,
            );
        law_events_keep_the_world_sound(before, events.drop_last(), parents, mid);
        law_an_event_keeps_the_world_sound(mid, events.last(), parents, after);
    }
}

/// A step keeps the world sound, and changes neither who leads nor the term nor which nodes
/// there are.
pub proof fn law_a_step_keeps_the_world_sound<M>(
    before: WorldView<M>,
    step: Step<M>,
    after: WorldView<M>,
)
    requires
        before.sound(),
        before.steps_to(step, after),
    ensures
        after.sound(),
        after.leader == before.leader,
        after.term == before.term,
        super::ids(after.nodes) == super::ids(before.nodes),
{
    match before.phase {
        Phase::Views => {
            if before.due_views.len() > 0 {
                lemma_found(before.nodes, before.due_views[0].what);
                if let Some(i) = super::find(before.nodes, before.due_views[0].what) {
                    let n = NodeView {
                        seen_leader: before.leader,
                        seen_term: before.term,
                        ..before.nodes[i]
                    };
                    lemma_sound_after_update(before, after, i, n);
                }
            }
        },
        Phase::Verdicts(i) => {
            if before.due_verdicts.len() > 0 && i < before.nodes.len() {
                let n = before.nodes[i as int];
                match before.due_verdicts[0].what {
                    Event::Down(id) => {
                        if n.active() && n.id != id {
                            lemma_sound_after_update(before, after, i as int, n.told(id, true));
                        }
                    },
                    Event::Up(id) => {
                        if n.active() && n.id != id {
                            lemma_sound_after_update(before, after, i as int, n.told(id, false));
                        }
                    },
                    _ => {},
                }
            }
        },
        _ => {},
    }
}

/// What a node's load adds to the tick is split in two: what was admitted and what was
/// throttled. The world stays sound.
pub proof fn law_every_request_is_admitted_or_throttled<M>(
    before: WorldView<M>,
    i: int,
    admitted: u64,
)
    requires
        before.sound(),
        0 <= i < before.nodes.len(),
        admitted <= before.p.offered,
        before.nodes[i].offered + before.p.offered <= u64::MAX,
        before.admitted_this_tick + admitted <= u64::MAX,
        before.throttled_this_tick + (before.p.offered - admitted) <= u64::MAX,
    ensures
        before.load_recorded(i, admitted).sound(),
        before.load_recorded(i, admitted).admitted_this_tick + before.load_recorded(
            i,
            admitted,
        ).throttled_this_tick == before.admitted_this_tick + before.throttled_this_tick
            + before.p.offered,
{
    let n = before.nodes[i];
    lemma_part_of_total(before.nodes, i, super::admitted_by());
    let loaded = before.load_recorded(i, admitted).nodes[i];
    assert(super::ids(before.load_recorded(i, admitted).nodes) =~= super::ids(before.nodes));
    lemma_total_after_update(before.nodes, i, loaded, super::offered_by());
    lemma_total_after_update(before.nodes, i, loaded, super::admitted_by());
}

/// Measuring a tick keeps the world sound, and puts on record all of what its nodes offered.
pub proof fn law_a_tick_is_measured_in_full<M>(before: WorldView<M>, parents: Seq<Option<u32>>)
    requires
        before.sound(),
    ensures
        before.measured(parents).sound(),
        before.measured(parents).admitted_by_tick.last() + before.measured(
            parents,
        ).throttled_by_tick.last() == super::total(before.nodes, super::offered_by()),
        before.measured(parents).admitted_by_tick.last() == super::total(
            before.nodes,
            super::admitted_by(),
        ),
{
    let after = before.measured(parents);
    lemma_unloaded_totals(after.nodes);
    assert(super::ids(after.nodes) =~= super::ids(before.nodes));
}

/// A verdict is dropped only once it has reached every active node.
pub proof fn law_a_verdict_reaches_every_active_node<M>(
    before: WorldView<M>,
    step: Step<M>,
    after: WorldView<M>,
    j: int,
)
    requires
        before.sound(),
        before.steps_to(step, after),
        before.phase is Verdicts,
        before.due_verdicts.len() > 0,
        after.due_verdicts != before.due_verdicts,
        0 <= j < before.nodes.len(),
        before.nodes[j].active(),
    ensures
        before.nodes[j].heard(before.due_verdicts[0].what),
        after.nodes == before.nodes,
{
}

/// Some node is active.
pub open spec fn someone_is_active<M>(w: WorldView<M>) -> bool {
    exists|i: int| 0 <= i < w.nodes.len() && (#[trigger] w.nodes[i]).active()
}

/// The leader is a node, and active.
pub open spec fn the_leader_is_active<M>(w: WorldView<M>) -> bool {
    match super::find(w.nodes, w.leader) {
        Some(i) => w.nodes[i].active(),
        None => false,
    }
}

/// The first node that a filter lets through is one that it lets through; and there is one
/// wherever some node passes.
proof fn lemma_first_id(nodes: Seq<NodeView>, f: spec_fn(NodeView) -> bool, otherwise: u32)
    ensures
        (exists|i: int| 0 <= i < nodes.len() && f(#[trigger] nodes[i])) ==> exists|i: int|
            0 <= i < nodes.len() && f(#[trigger] nodes[i]) && nodes[i].id == super::first_id(
                nodes,
                f,
                otherwise,
            ),
        (forall|i: int| 0 <= i < nodes.len() ==> !f(#[trigger] nodes[i])) ==> super::first_id(
            nodes,
            f,
            otherwise,
        ) == otherwise,
    decreases nodes.len(),
{
    reveal(Seq::filter);
    if nodes.len() > 0 {
        let front = nodes.drop_last();
        let last = nodes.len() - 1;
        lemma_first_id(front, f, otherwise);
        if exists|i: int| 0 <= i < front.len() && f(#[trigger] front[i]) {
            let k = choose|i: int|
                0 <= i < front.len() && f(#[trigger] front[i]) && front[i].id == super::first_id(
                    front,
                    f,
                    otherwise,
                );
            assert(front.filter(f).len() > 0) by {
                lemma_filter_is_empty(front, f);
            }
            assert(f(nodes[k]));
        } else {
            lemma_filter_is_empty(front, f);
            if f(nodes[last]) {
                assert(nodes.filter(f)[0] == nodes[last]);
            }
        }
        assert forall|i: int| 0 <= i < last implies #[trigger] nodes[i] == front[i] by {}
    }
}

/// A filter lets nothing through exactly where no node passes.
pub proof fn lemma_filter_is_empty(nodes: Seq<NodeView>, f: spec_fn(NodeView) -> bool)
    ensures
        nodes.filter(f).len() == 0 <==> forall|i: int|
            0 <= i < nodes.len() ==> !f(#[trigger] nodes[i]),
    decreases nodes.len(),
{
    reveal(Seq::filter);
    if nodes.len() > 0 {
        let front = nodes.drop_last();
        lemma_filter_is_empty(front, f);
        assert forall|i: int| 0 <= i < front.len() implies #[trigger] front[i] == nodes[i] by {}
        assert forall|i: int| 0 <= i < nodes.len() - 1 implies #[trigger] nodes[i] == front[i] by {}
        assert(nodes[nodes.len() - 1] == nodes.last());
    }
}

/// The leader's id leads to an active node.
proof fn lemma_active_leader<M>(w: WorldView<M>, i: int)
    requires
        w.sound(),
        0 <= i < w.nodes.len(),
        w.nodes[i].active(),
        w.nodes[i].id == w.leader,
    ensures
        the_leader_is_active(w),
{
    tree::lemma_found_by_id(w.nodes, i);
}

/// Leadership stays with an active node: where the leader was active and some node is active
/// after an event, the leader after it is active. Only where the last active node has gone can
/// the leader be one that is down.
pub proof fn law_leadership_stays_with_an_active_node<M>(
    before: WorldView<M>,
    e: Event,
    parents: Seq<Option<u32>>,
    after: WorldView<M>,
)
    requires
        before.sound(),
        before.phase is Rest,
        before.has_headroom(1),
        before.event_leads_to(e, parents, after),
        the_leader_is_active(before),
        someone_is_active(after),
    ensures
        the_leader_is_active(after),
{
    law_an_event_keeps_the_world_sound(before, e, parents, after);
    lemma_found(before.nodes, before.leader);
    let was = super::find(before.nodes, before.leader).unwrap();
    match e {
        Event::Leader => {
            let f = super::active_and_not(before.leader);
            lemma_first_id(before.nodes, f, before.leader);
            if exists|i: int| 0 <= i < before.nodes.len() && f(#[trigger] before.nodes[i]) {
                let i = choose|i: int|
                    0 <= i < before.nodes.len() && f(#[trigger] before.nodes[i])
                        && before.nodes[i].id == after.leader;
                lemma_active_leader(after, i);
            } else {
                lemma_active_leader(after, was);
            }
        },
        Event::Join => {
            assert(after.nodes[was] == before.nodes[was]);
            lemma_active_leader(after, was);
        },
        Event::Down(id) => {
            lemma_liveness_keeps_an_active_leader(before, id, false, was);
        },
        Event::Up(id) => {
            lemma_liveness_keeps_an_active_leader(before, id, true, was);
        },
        Event::DownMidTree => {
            if let Some(id) = before.mid {
                lemma_liveness_keeps_an_active_leader(before, id, false, was);
            }
        },
        Event::UpMidTree => {
            if let Some(id) = before.mid {
                lemma_liveness_keeps_an_active_leader(before, id, true, was);
            }
        },
        Event::PickMidTree => {},
    }
}

/// A node going down or coming up leaves an active leader, where there can be one.
proof fn lemma_liveness_keeps_an_active_leader<M>(w: WorldView<M>, id: u32, up: bool, was: int)
    requires
        w.sound(),
        w.phase is Rest,
        w.has_headroom(1),
        0 <= was < w.nodes.len(),
        w.nodes[was].active(),
        w.nodes[was].id == w.leader,
        someone_is_active(w.liveness(id, up)),
    ensures
        the_leader_is_active(w.liveness(id, up)),
{
    let after = w.liveness(id, up);
    lemma_liveness_is_sound(w, id, up);
    lemma_found(w.nodes, id);
    tree::lemma_found_by_id(w.nodes, was);
    match super::find(w.nodes, id) {
        None => {
            lemma_active_leader(after, was);
        },
        Some(i) => {
            let nodes = w.with_up(i, up).nodes;
            assert(after.nodes == nodes);
            if w.leader == id && !nodes[i].active() {
                let f = super::is_active();
                lemma_first_id(nodes, f, id);
                let k = choose|k: int| 0 <= k < nodes.len() && (#[trigger] nodes[k]).active();
                assert(f(nodes[k]));
                let first = choose|k: int|
                    0 <= k < nodes.len() && f(#[trigger] nodes[k]) && nodes[k].id == after.leader;
                lemma_active_leader(after, first);
            } else {
                assert(nodes[was].active());
                lemma_active_leader(after, was);
            }
        },
    }
}

/// A new leader leads in a new term.
pub proof fn law_a_new_leader_leads_in_a_new_term<M>(
    before: WorldView<M>,
    e: Event,
    parents: Seq<Option<u32>>,
    after: WorldView<M>,
)
    requires
        before.has_headroom(1),
        before.event_leads_to(e, parents, after),
        after.leader != before.leader,
    ensures
        after.term == before.term + 1,
{
}

} // verus!
