//! What each event, message and tick does to the world, figure by figure.

use vstd::prelude::*;

use super::tree;
use super::{Event, NodeView, Params, Phase, Step, WorldView};
use crate::queue::{self, Timed};
use crate::rng::Rng;
use crate::sums;

verus! {

/// A node is found at the first place that has its id, and nowhere where none has.
pub proof fn law_a_node_is_found_by_its_id(nodes: Seq<NodeView>, id: u32)
    ensures
        super::find(nodes, id) matches Some(i) ==> 0 <= i < nodes.len() && nodes[i].id == id
            && forall|j: int| 0 <= j < i ==> (#[trigger] nodes[j]).id != id,
        super::find(nodes, id) is None ==> forall|j: int|
            0 <= j < nodes.len() ==> (#[trigger] nodes[j]).id != id,
        (exists|j: int| 0 <= j < nodes.len() && (#[trigger] nodes[j]).id == id) ==> super::find(
            nodes,
            id,
        ) is Some,
{
    let all = super::ids(nodes);
    all.index_of_first_ensures(id);
    assert forall|j: int| 0 <= j < nodes.len() implies #[trigger] nodes[j].id == all[j] by {}
    if exists|j: int| 0 <= j < nodes.len() && (#[trigger] nodes[j]).id == id {
        let j = choose|j: int| 0 <= j < nodes.len() && (#[trigger] nodes[j]).id == id;
        assert(all[j] == id);
        assert(all.contains(id));
    }
    if all.contains(id) {
        let i = super::find(nodes, id).unwrap();
        assert forall|j: int| 0 <= j < i implies (#[trigger] nodes[j]).id != id by {
            assert(all[j] != id);
        }
    }
}

/// No id is larger than the largest, and the largest is one that a node has; among no nodes it is
/// zero.
pub proof fn law_the_largest_id_is_the_largest(nodes: Seq<NodeView>)
    ensures
        forall|i: int| 0 <= i < nodes.len() ==> (#[trigger] nodes[i]).id <= super::max_id(nodes),
        nodes.len() > 0 ==> exists|i: int|
            0 <= i < nodes.len() && (#[trigger] nodes[i]).id == super::max_id(nodes),
        nodes.len() == 0 ==> super::max_id(nodes) == 0,
    decreases nodes.len(),
{
    if nodes.len() > 0 {
        let front = nodes.drop_last();
        law_the_largest_id_is_the_largest(front);
        assert(nodes[nodes.len() - 1] == nodes.last());
        assert forall|i: int| 0 <= i < nodes.len() implies (#[trigger] nodes[i]).id
            <= super::max_id(nodes) by {
            if i < front.len() {
                assert(front[i] == nodes[i]);
            }
        }
        if super::max_id(nodes) != nodes.last().id {
            let i = choose|i: int|
                0 <= i < front.len() && (#[trigger] front[i]).id == super::max_id(front);
            assert(nodes[i].id == super::max_id(nodes));
        }
    }
}

/// The first node let through is let through, and no node before it is; where none is let through
/// it is the one named instead.
pub proof fn law_the_first_node_let_through_is_the_first(
    nodes: Seq<NodeView>,
    f: spec_fn(NodeView) -> bool,
    otherwise: u32,
)
    ensures
        (exists|i: int| 0 <= i < nodes.len() && f(#[trigger] nodes[i])) ==> exists|i: int|
            0 <= i < nodes.len() && f(#[trigger] nodes[i]) && nodes[i].id == super::first_id(
                nodes,
                f,
                otherwise,
            ) && forall|j: int| 0 <= j < i ==> !f(#[trigger] nodes[j]),
        (forall|i: int| 0 <= i < nodes.len() ==> !f(#[trigger] nodes[i])) ==> super::first_id(
            nodes,
            f,
            otherwise,
        ) == otherwise,
    decreases nodes.len(),
{
    reveal(Seq::filter);
    if nodes.len() > 0 {
        let front = nodes.drop_last();
        let last = nodes.len() - 1;
        law_the_first_node_let_through_is_the_first(front, f, otherwise);
        super::laws::lemma_filter_is_empty(front, f);
        assert forall|i: int| 0 <= i < last implies #[trigger] nodes[i] == front[i] by {}
        assert forall|i: int| 0 <= i < last implies #[trigger] front[i] == nodes[i] by {}
        if exists|i: int| 0 <= i < front.len() && f(#[trigger] front[i]) {
            let k = choose|i: int|
                0 <= i < front.len() && f(#[trigger] front[i]) && front[i].id == super::first_id(
                    front,
                    f,
                    otherwise,
                ) && forall|j: int| 0 <= j < i ==> !f(#[trigger] front[j]);
            assert(front.filter(f).len() > 0);
            assert(f(nodes[k]));
            assert forall|j: int| 0 <= j < k implies !f(#[trigger] nodes[j]) by {
                assert(!f(front[j]));
            }
        } else if f(nodes[last]) {
            assert(nodes.filter(f)[0] == nodes[last]);
        }
    }
}

/// When the leader's view, sent out at `now`, reaches a node: at once where the node is the leader,
/// else after the delay, or one tick more.
pub open spec fn arrives(due: u64, id: u32, leader: u32, now: u64, delay: u64) -> bool {
    if id == leader {
        due == now
    } else {
        due == now + delay || due == now + delay + 1
    }
}

/// A view goes out to every member and to nobody else, once each and in node order; it is due at
/// once for the leader, and for another after the delay and the remainder by two of the number
/// drawn for it.
pub proof fn law_a_view_goes_out_to_every_member(
    nodes: Seq<NodeView>,
    leader: u32,
    now: u64,
    delay: u64,
    rng: Rng,
)
    requires
        now + delay + 1 <= u64::MAX,
    ensures
        ({
            let told = super::scheduled(nodes, leader, now, delay, rng);
            &&& told.map_values(|t: Timed<u32>| t.what) == super::ids(
                nodes.filter(|n: NodeView| n.member),
            )
            &&& forall|j: int|
                0 <= j < told.len() ==> arrives(
                    (#[trigger] told[j]).due,
                    told[j].what,
                    leader,
                    now,
                    delay,
                )
            &&& forall|j: int|
                0 <= j < told.len() && (#[trigger] told[j]).what != leader ==> told[j].due == now
                    + delay + rng.after(j as nat).peek() % 2
            &&& forall|k: int|
                0 <= k < nodes.len() && (#[trigger] nodes[k]).member ==> exists|j: int|
                    0 <= j < told.len() && (#[trigger] told[j]).what == nodes[k].id
        }),
    decreases nodes.len(),
{
    reveal(Seq::filter);
    let told = super::scheduled(nodes, leader, now, delay, rng);
    let f = |n: NodeView| n.member;
    let g = |t: Timed<u32>| t.what;
    if nodes.len() == 0 {
        assert(told.map_values(g) =~= super::ids(nodes.filter(f)));
    } else {
        let front = nodes.drop_last();
        let before = super::scheduled(front, leader, now, delay, rng);
        law_a_view_goes_out_to_every_member(front, leader, now, delay, rng);
        if nodes.last().member {
            assert(told.map_values(g) =~= before.map_values(g).push(nodes.last().id));
            assert(nodes.filter(f) =~= front.filter(f).push(nodes.last()));
            assert(super::ids(nodes.filter(f)) =~= super::ids(front.filter(f)).push(
                nodes.last().id,
            ));
        }
        assert forall|j: int| 0 <= j < before.len() implies #[trigger] told[j] == before[j] by {}
        assert forall|k: int| 0 <= k < nodes.len() && (#[trigger] nodes[k]).member implies exists|
            j: int,
        |
            0 <= j < told.len() && (#[trigger] told[j]).what == nodes[k].id by {
            if k < front.len() {
                assert(front[k] == nodes[k]);
                let j = choose|j: int|
                    0 <= j < before.len() && (#[trigger] before[j]).what == front[k].id;
                assert(told[j] == before[j]);
            } else {
                assert(told[before.len() as int].what == nodes[k].id);
            }
        }
    }
}

/// `after` has, behind the views that were on their way in `had`, one for each member and no more.
pub open spec fn every_member_is_told<M>(
    had: Seq<Timed<u32>>,
    rng: Rng,
    after: WorldView<M>,
) -> bool {
    let new = after.views.skip(had.len() as int);
    &&& had.len() <= after.views.len()
    &&& after.views.take(had.len() as int) == had
    &&& new.map_values(|t: Timed<u32>| t.what) == super::ids(
        after.nodes.filter(|n: NodeView| n.member),
    )
    &&& forall|j: int|
        had.len() <= j < after.views.len() ==> arrives(
            (#[trigger] after.views[j]).due,
            after.views[j].what,
            after.leader,
            after.now,
            after.p.view_delay,
        )
    &&& forall|j: int|
        had.len() <= j < after.views.len() && (#[trigger] after.views[j]).what != after.leader
            ==> after.views[j].due == after.now + after.p.view_delay + rng.after(
            (j - had.len()) as nat,
        ).peek() % 2
    &&& forall|k: int|
        0 <= k < after.nodes.len() && (#[trigger] after.nodes[k]).member ==> exists|j: int|
            had.len() <= j < after.views.len() && (#[trigger] after.views[j]).what
                == after.nodes[k].id
    &&& after.rng == rng.after(new.len())
}

/// Sending the leader's view out tells every member.
proof fn lemma_every_member_is_told<M>(w: WorldView<M>)
    requires
        w.now + w.p.view_delay + 1 <= u64::MAX,
    ensures
        every_member_is_told(w.views, w.rng, w.views_scheduled()),
{
    law_a_view_goes_out_to_every_member(w.nodes, w.leader, w.now, w.p.view_delay, w.rng);
    let after = w.views_scheduled();
    let told = super::scheduled(w.nodes, w.leader, w.now, w.p.view_delay, w.rng);
    assert(after.views.skip(w.views.len() as int) =~= told);
    assert(after.views.take(w.views.len() as int) =~= w.views);
    assert forall|j: int| w.views.len() <= j < after.views.len() implies #[trigger] after.views[j]
        == told[j - w.views.len()] by {}
    assert forall|k: int|
        0 <= k < after.nodes.len() && (#[trigger] after.nodes[k]).member implies exists|j: int|
        w.views.len() <= j < after.views.len() && (#[trigger] after.views[j]).what
            == after.nodes[k].id by {
        let j = choose|j: int| 0 <= j < told.len() && (#[trigger] told[j]).what == w.nodes[k].id;
        assert(after.views[j + w.views.len()] == told[j]);
    }
}

/// What a join does. One node comes to the others, under the next free id, in its data centre, up, a
/// member, with the leader and the term of the cluster and nobody known down. Every member, the new
/// one among them, then has a view on its way that was not there before: due at once for the leader,
/// after the delay or one tick more for every other. Who leads, what verdicts are on their way, and
/// everything else, is as it was.
pub proof fn law_a_join_tells_every_member<M>(
    before: WorldView<M>,
    parents: Seq<Option<u32>>,
    after: WorldView<M>,
)
    requires
        before.has_headroom(1),
        before.event_leads_to(Event::Join, parents, after),
    ensures
        after == (WorldView {
            nodes: after.nodes,
            views: after.views,
            rng: after.rng,
            ..before
        }),
        after.nodes.len() == before.nodes.len() + 1,
        after.nodes.drop_last() == before.nodes,
        forall|i: int|
            0 <= i < before.nodes.len() ==> (#[trigger] before.nodes[i]).id < after.nodes.last().id,
        before.nodes.len() > 0 ==> exists|i: int|
            0 <= i < before.nodes.len() && (#[trigger] before.nodes[i]).id + 1
                == after.nodes.last().id,
        after.nodes.last().member,
        after.nodes.last().up,
        before.p.dcs > 0 ==> after.nodes.last().dc == after.nodes.last().id % before.p.dcs as u32,
        after.nodes.last().seen_leader == before.leader,
        after.nodes.last().seen_term == before.term,
        after.nodes.last().known_down == Set::<u32>::empty(),
        after.nodes.last().offered == 0,
        after.nodes.last().admitted == 0,
        after.leader == before.leader,
        after.term == before.term,
        after.verdicts == before.verdicts,
        every_member_is_told(before.views, before.rng, after),
        forall|k: int|
            0 <= k < after.nodes.len() && (#[trigger] after.nodes[k]).member ==> exists|j: int|
                before.views.len() <= j < after.views.len() && (#[trigger] after.views[j]).what
                    == after.nodes[k].id && (if after.nodes[k].id == before.leader {
                    after.views[j].due == before.now
                } else {
                    after.views[j].due == before.now + before.p.view_delay || after.views[j].due
                        == before.now + before.p.view_delay + 1
                }),
{
    law_the_largest_id_is_the_largest(before.nodes);
    let id = (super::max_id(before.nodes) + 1) as u32;
    let n = super::fresh_node(id, before.p.dcs, before.leader, before.term);
    let w = WorldView { nodes: before.nodes.push(n), ..before };
    assert(after == w.views_scheduled());
    assert(after.nodes.drop_last() =~= before.nodes);
    lemma_every_member_is_told(w);
    assert forall|k: int|
        0 <= k < after.nodes.len() && (#[trigger] after.nodes[k]).member implies exists|j: int|
        before.views.len() <= j < after.views.len() && (#[trigger] after.views[j]).what
            == after.nodes[k].id && (if after.nodes[k].id == before.leader {
            after.views[j].due == before.now
        } else {
            after.views[j].due == before.now + before.p.view_delay || after.views[j].due
                == before.now + before.p.view_delay + 1
        }) by {
        let j = choose|j: int|
            before.views.len() <= j < after.views.len() && (#[trigger] after.views[j]).what
                == after.nodes[k].id;
        assert(arrives(
            after.views[j].due,
            after.views[j].what,
            after.leader,
            after.now,
            after.p.view_delay,
        ));
    }
}

/// The leader of `after` is the first of its nodes that is active and not `apart`, or `otherwise`
/// where there is none.
pub open spec fn leads_first<M>(after: WorldView<M>, apart: Option<u32>, otherwise: u32) -> bool {
    ||| exists|i: int|
        {
            &&& 0 <= i < after.nodes.len()
            &&& (#[trigger] after.nodes[i]).id == after.leader
            &&& after.nodes[i].member && after.nodes[i].up && apart != Some(after.nodes[i].id)
            &&& forall|j: int|
                0 <= j < i ==> !((#[trigger] after.nodes[j]).member && after.nodes[j].up && apart
                    != Some(after.nodes[j].id))
        }
    ||| after.leader == otherwise && forall|j: int|
        0 <= j < after.nodes.len() ==> !((#[trigger] after.nodes[j]).member && after.nodes[j].up
            && apart != Some(after.nodes[j].id))
}

/// What a change of leader does. The first active node that is not the leader leads, in the next
/// term, and where there is none the leader stays; every member is told. No node, no verdict on its
/// way, and nothing else, is touched.
pub proof fn law_a_leader_change_tells_every_member<M>(
    before: WorldView<M>,
    parents: Seq<Option<u32>>,
    after: WorldView<M>,
)
    requires
        before.has_headroom(1),
        before.event_leads_to(Event::Leader, parents, after),
    ensures
        after == (WorldView {
            leader: after.leader,
            term: after.term,
            views: after.views,
            rng: after.rng,
            ..before
        }),
        after.nodes == before.nodes,
        after.term == before.term + 1,
        after.verdicts == before.verdicts,
        leads_first(after, Some(before.leader), before.leader),
        every_member_is_told(before.views, before.rng, after),
{
    let f = super::active_and_not(before.leader);
    law_the_first_node_let_through_is_the_first(before.nodes, f, before.leader);
    lemma_every_member_is_told(
        WorldView { term: (before.term + 1) as u64, leader: after.leader, ..before },
    );
    if exists|i: int| 0 <= i < before.nodes.len() && f(#[trigger] before.nodes[i]) {
        let i = choose|i: int|
            0 <= i < before.nodes.len() && f(#[trigger] before.nodes[i]) && before.nodes[i].id
                == after.leader && forall|j: int| 0 <= j < i ==> !f(#[trigger] before.nodes[j]);
        assert(after.nodes[i].id == after.leader);
        assert forall|j: int| 0 <= j < i implies !((#[trigger] after.nodes[j]).member
            && after.nodes[j].up && Some(before.leader) != Some(after.nodes[j].id)) by {
            assert(!f(before.nodes[j]));
        }
    } else {
        assert forall|j: int| 0 <= j < after.nodes.len() implies !((
        #[trigger] after.nodes[j]).member && after.nodes[j].up && Some(before.leader) != Some(
            after.nodes[j].id,
        )) by {
            assert(!f(before.nodes[j]));
        }
    }
}

/// What a node going down or coming up does: its own place is changed and no other's. The failure
/// detector's verdict on it is on its way; a node that came up has a view on its way; and where the
/// leader is not active any more, the first active node leads in the next term, or the same one where
/// there is none, and every member is told. Where no node has the id nothing happens.
pub open spec fn goes<M>(before: WorldView<M>, id: u32, up: bool, after: WorldView<M>) -> bool {
    if forall|i: int| 0 <= i < before.nodes.len() ==> (#[trigger] before.nodes[i]).id != id {
        after == before
    } else {
        exists|i: int|
            {
                let was = #[trigger] before.nodes[i];
                let is = after.nodes[i];
                let on_its_way = before.views + if up {
                    seq![Timed { due: (before.now + before.p.view_delay) as u64, what: id }]
                } else {
                    Seq::empty()
                };
                &&& after == (WorldView {
                    nodes: after.nodes,
                    leader: after.leader,
                    term: after.term,
                    views: after.views,
                    verdicts: after.verdicts,
                    rng: after.rng,
                    ..before
                })
                &&& 0 <= i < before.nodes.len()
                &&& was.id == id
                &&& forall|j: int| 0 <= j < i ==> (#[trigger] before.nodes[j]).id != id
                &&& after.nodes.len() == before.nodes.len()
                &&& forall|j: int|
                    0 <= j < before.nodes.len() && j != i ==> #[trigger] after.nodes[j]
                        == before.nodes[j]
                &&& is.id == id && is.dc == was.dc && is.member == was.member && is.up == up
                &&& is.seen_leader == was.seen_leader && is.seen_term == was.seen_term
                &&& is.known_down == was.known_down
                &&& is.offered == was.offered && is.admitted == was.admitted
                &&& after.verdicts.len() == before.verdicts.len() + 1
                &&& after.verdicts.drop_last() == before.verdicts
                &&& after.verdicts.last().due == before.now + before.p.fd_delay
                &&& up ==> after.verdicts.last().what == Event::Up(id)
                &&& !up ==> after.verdicts.last().what == Event::Down(id)
                &&& if before.leader == id && !(up && was.member) {
                    &&& after.term == before.term + 1
                    &&& leads_first(after, None, id)
                    &&& every_member_is_told(on_its_way, before.rng, after)
                } else {
                    &&& after.term == before.term
                    &&& after.leader == before.leader
                    &&& after.views == on_its_way
                    &&& after.rng == before.rng
                }
            }
    }
}

/// A node that goes down or comes up does so.
proof fn lemma_liveness_goes<M>(before: WorldView<M>, id: u32, up: bool)
    requires
        before.has_headroom(1),
    ensures
        goes(before, id, up, before.liveness(id, up)),
{
    law_a_node_is_found_by_its_id(before.nodes, id);
    let after = before.liveness(id, up);
    if let Some(i) = super::find(before.nodes, id) {
        let was = before.nodes[i];
        let w = before.with_up(i, up);
        let on_its_way = before.views + if up {
            seq![Timed { due: (before.now + before.p.view_delay) as u64, what: id }]
        } else {
            Seq::empty()
        };
        let e = if up {
            Event::Up(id)
        } else {
            Event::Down(id)
        };
        let told = WorldView {
            verdicts: w.verdicts.push(Timed { due: (w.now + w.p.fd_delay) as u64, what: e }),
            views: on_its_way,
            ..w
        };
        if up {
            assert(on_its_way =~= w.views.push(
                Timed { due: (w.now + w.p.view_delay) as u64, what: id },
            ));
        } else {
            assert(on_its_way =~= w.views);
        }
        assert(told.verdicts.drop_last() =~= before.verdicts);
        if before.leader == id && !(up && was.member) {
            let f = super::is_active();
            let next = super::first_id(told.nodes, f, id);
            law_the_first_node_let_through_is_the_first(told.nodes, f, id);
            assert(after == told.led_by(next));
            lemma_every_member_is_told(
                WorldView { term: (told.term + 1) as u64, leader: next, ..told },
            );
            if exists|k: int| 0 <= k < told.nodes.len() && f(#[trigger] told.nodes[k]) {
                let k = choose|k: int|
                    0 <= k < told.nodes.len() && f(#[trigger] told.nodes[k]) && told.nodes[k].id
                        == next && forall|j: int| 0 <= j < k ==> !f(#[trigger] told.nodes[j]);
                assert(after.nodes[k].id == after.leader);
                assert forall|j: int| 0 <= j < k implies !((#[trigger] after.nodes[j]).member
                    && after.nodes[j].up && None::<u32> != Some(after.nodes[j].id)) by {
                    assert(!f(told.nodes[j]));
                }
            } else {
                assert forall|j: int| 0 <= j < after.nodes.len() implies !((
                #[trigger] after.nodes[j]).member && after.nodes[j].up && None::<u32> != Some(
                    after.nodes[j].id,
                )) by {
                    assert(!f(told.nodes[j]));
                }
            }
            assert(leads_first(after, None, id));
        } else {
            assert(after == told);
        }
        assert(before.nodes[i].id == id);
    }
}

/// What a node going down does: see [`goes`].
pub proof fn law_a_node_goes_down<M>(
    before: WorldView<M>,
    id: u32,
    parents: Seq<Option<u32>>,
    after: WorldView<M>,
)
    requires
        before.has_headroom(1),
        before.event_leads_to(Event::Down(id), parents, after),
    ensures
        goes(before, id, false, after),
{
    lemma_liveness_goes(before, id, false);
}

/// What a node coming back does: see [`goes`].
pub proof fn law_a_node_comes_back<M>(
    before: WorldView<M>,
    id: u32,
    parents: Seq<Option<u32>>,
    after: WorldView<M>,
)
    requires
        before.has_headroom(1),
        before.event_leads_to(Event::Up(id), parents, after),
    ensures
        goes(before, id, true, after),
{
    lemma_liveness_goes(before, id, true);
}

/// The node that was picked goes down, and comes back, as any other does; where none was picked
/// nothing happens.
pub proof fn law_the_picked_node_goes_as_any_other<M>(
    before: WorldView<M>,
    parents: Seq<Option<u32>>,
    after: WorldView<M>,
    id: u32,
)
    ensures
        before.mid == Some(id) ==> (before.event_leads_to(Event::DownMidTree, parents, after)
            <==> before.event_leads_to(Event::Down(id), parents, after)),
        before.mid == Some(id) ==> (before.event_leads_to(Event::UpMidTree, parents, after)
            <==> before.event_leads_to(Event::Up(id), parents, after)),
        before.mid is None ==> (before.event_leads_to(Event::DownMidTree, parents, after)
            <==> after == before),
        before.mid is None ==> (before.event_leads_to(Event::UpMidTree, parents, after)
            <==> after == before),
{
}

/// The node at `i` is active, does not lead and has nodes below it.
pub open spec fn may_be_picked<M>(w: WorldView<M>, parents: Seq<Option<u32>>, i: int) -> bool {
    &&& 0 <= i < w.nodes.len()
    &&& w.nodes[i].member && w.nodes[i].up && w.nodes[i].id != w.leader
    &&& tree::subtree_of(w.nodes, parents, w.nodes[i].id).len() > 0
}

/// What a pick does: it names an active node that does not lead and has nodes below it, with as many
/// below it as any such node and, of those with as many, the largest id, whatever was picked before;
/// the watched nodes are the ones below it, each once. Where no node can be picked nothing happens;
/// otherwise nothing else does.
pub proof fn law_a_pick_names_the_largest_subtree<M>(
    before: WorldView<M>,
    parents: Seq<Option<u32>>,
    after: WorldView<M>,
)
    requires
        before.event_leads_to(Event::PickMidTree, parents, after),
    ensures
        after == (WorldView { mid: after.mid, subtree: after.subtree, ..before }),
        (forall|i: int| !#[trigger] may_be_picked(before, parents, i)) ==> after == before,
        (exists|i: int| #[trigger] may_be_picked(before, parents, i)) ==> exists|i: int|
            {
                let n = before.nodes[i];
                let below = tree::subtree_of(before.nodes, parents, n.id);
                &&& #[trigger] may_be_picked(before, parents, i)
                &&& after.mid == Some(n.id)
                &&& after.subtree.len() == below.len()
                &&& after.subtree.no_duplicates()
                &&& forall|id: u32| #[trigger] after.subtree.contains(id) <==> below.contains(id)
                &&& forall|j: int| #[trigger]
                    may_be_picked(before, parents, j) ==> {
                        let other = tree::subtree_of(
                            before.nodes,
                            parents,
                            before.nodes[j].id,
                        ).len();
                        other < below.len() || (other == below.len() && before.nodes[j].id <= n.id)
                    }
            },
{
    if exists|i: int| #[trigger] tree::is_pick(before.nodes, parents, before.leader, i) {
        let i = choose|i: int|
            {
                &&& #[trigger] tree::is_pick(before.nodes, parents, before.leader, i)
                &&& after.mid == Some(before.nodes[i].id)
                &&& after.subtree.no_duplicates()
                &&& after.subtree.to_set() == tree::subtree_of(
                    before.nodes,
                    parents,
                    before.nodes[i].id,
                )
                &&& after == (WorldView { mid: after.mid, subtree: after.subtree, ..before })
            };
        after.subtree.unique_seq_to_set();
        let n = before.nodes[i];
        let below = tree::subtree_of(before.nodes, parents, n.id);
        assert(may_be_picked(before, parents, i));
        assert forall|id: u32| #[trigger] after.subtree.contains(id) <==> below.contains(id) by {
            assert(after.subtree.to_set().contains(id) <==> after.subtree.contains(id));
        }
        assert forall|j: int| #[trigger] may_be_picked(before, parents, j) implies {
            let other = tree::subtree_of(before.nodes, parents, before.nodes[j].id).len();
            other < below.len() || (other == below.len() && before.nodes[j].id <= n.id)
        } by {
            assert(tree::can_pick(before.nodes, parents, before.leader, j));
            assert(tree::no_larger(before.nodes, parents, j, i));
        }
    } else {
        tree::lemma_someone_is_picked(before.nodes, parents, before.leader);
        assert forall|i: int| !#[trigger] may_be_picked(before, parents, i) by {
            if may_be_picked(before, parents, i) {
                assert(tree::can_pick(before.nodes, parents, before.leader, i));
            }
        }
    }
}

/// The events of a tick are those given for it, in the order they were given: with one more event at
/// the end of the list, there is one more at the end of those of its tick, and the others are as
/// they were.
pub proof fn law_the_events_of_a_tick_are_those_given_for_it(
    events: Seq<(u64, Event)>,
    at: u64,
    e: Event,
    now: u64,
)
    ensures
        super::events_at(Seq::empty(), now) == Seq::<Event>::empty(),
        super::events_at(events.push((at, e)), at) == super::events_at(events, at).push(e),
        at != now ==> super::events_at(events.push((at, e)), now) == super::events_at(events, now),
{
    reveal(Seq::filter);
    assert(events.push((at, e)).drop_last() =~= events);
    assert(super::events_at(Seq::empty(), now) =~= Seq::<Event>::empty());
    let f = |e: (u64, Event)| e.0 == at;
    assert(events.push((at, e)).filter(f) =~= events.filter(f).push((at, e)));
    assert(super::events_at(events.push((at, e)), at) =~= super::events_at(events, at).push(e));
}

/// Events happen one after another: none of them changes nothing, one by itself is that one, and
/// one more happens to the world that those before it have left.
pub proof fn law_events_happen_one_after_another<M>(
    before: WorldView<M>,
    events: Seq<Event>,
    mid: WorldView<M>,
    e: Event,
    parents: Seq<Option<u32>>,
    after: WorldView<M>,
)
    ensures
        before.events_lead_to(Seq::empty(), parents, after) <==> after == before,
        before.events_lead_to(seq![e], parents, after) <==> before.event_leads_to(
            e,
            parents,
            after,
        ),
        before.events_lead_to(events, parents, mid) && mid.event_leads_to(e, parents, after)
            ==> before.events_lead_to(events.push(e), parents, after),
{
    assert(events.push(e).drop_last() =~= events);
    assert(seq![e].drop_last() =~= Seq::<Event>::empty());
    reveal_with_fuel(WorldView::events_lead_to, 2);
    if before.events_lead_to(seq![e], parents, after) {
        let w = choose|w: WorldView<M>|
            #![trigger w.event_leads_to(e, parents, after)]
            before.events_lead_to(seq![e].drop_last(), parents, w) && w.event_leads_to(
                e,
                parents,
                after,
            );
        assert(w == before);
    }
    if before.event_leads_to(e, parents, after) {
        assert(before.events_lead_to(seq![e].drop_last(), parents, before));
        assert(before.event_leads_to(seq![e].last(), parents, after));
    }
    if before.events_lead_to(events, parents, mid) && mid.event_leads_to(e, parents, after) {
        assert(mid.event_leads_to(events.push(e).last(), parents, after));
    }
}

/// What is on its way in `had` is split by what is due by `now`: what is due is set apart, and what
/// is not stays, nothing lost and nothing made up.
pub open spec fn is_set_apart<T>(
    had: Seq<Timed<T>>,
    now: u64,
    due: Seq<Timed<T>>,
    left: Seq<Timed<T>>,
) -> bool {
    &&& forall|i: int| 0 <= i < due.len() ==> (#[trigger] due[i]).due <= now
    &&& forall|i: int| 0 <= i < left.len() ==> (#[trigger] left[i]).due > now
    &&& due.to_multiset().add(left.to_multiset()) == had.to_multiset()
}

/// What the beginning of a tick does: the clock moves on by one; the events of the new tick happen,
/// one after another, to the world as it stood; of the views and the verdicts on their way then, what
/// is due is set apart; views come first. The network is left alone.
pub proof fn law_a_tick_begins<M>(
    before: WorldView<M>,
    parents: Seq<Option<u32>>,
    after: WorldView<M>,
)
    requires
        before.now < u64::MAX,
        before.begins_to(parents, after),
    ensures
        after.phase == Phase::Views,
        exists|then: WorldView<M>, events: Seq<Event>|
            {
                &&& events == super::events_at(before.p.events@, (before.now + 1) as u64)
                &&& #[trigger] (WorldView {
                    now: (before.now + 1) as u64,
                    ..before
                }).events_lead_to(events, parents, then)
                &&& is_set_apart(then.views, then.now, after.due_views, after.views)
                &&& is_set_apart(then.verdicts, then.now, after.due_verdicts, after.verdicts)
                &&& after == (WorldView {
                    views: after.views,
                    due_views: after.due_views,
                    verdicts: after.verdicts,
                    due_verdicts: after.due_verdicts,
                    phase: Phase::Views,
                    ..then
                })
            },
{
    let then = choose|mid: WorldView<M>|
        #![trigger mid.collected()]
        before.ticked().events_lead_to(
            super::events_at(before.p.events@, before.ticked().now),
            parents,
            mid,
        ) && after == mid.collected();
    queue::law_a_queue_is_split_by_what_is_due(then.views, then.now);
    queue::law_a_queue_is_split_by_what_is_due(then.verdicts, then.now);
    let events = super::events_at(before.p.events@, (before.now + 1) as u64);
    let ticked = WorldView { now: (before.now + 1) as u64, ..before };
    assert(ticked == before.ticked());
    assert(ticked.events_lead_to(events, parents, then));
}

/// A tick for which no event was given begins with nothing changed but the clock and what is due.
pub proof fn law_a_quiet_tick_begins<M>(
    before: WorldView<M>,
    parents: Seq<Option<u32>>,
    after: WorldView<M>,
)
    requires
        before.now < u64::MAX,
        before.begins_to(parents, after),
        forall|k: int|
            0 <= k < before.p.events@.len() ==> (#[trigger] before.p.events@[k]).0 != before.now + 1,
    ensures
        after.now == before.now + 1,
        after.nodes == before.nodes,
        after.leader == before.leader,
        after.term == before.term,
        after.net == before.net,
        after.rng == before.rng,
        is_set_apart(before.views, after.now, after.due_views, after.views),
        is_set_apart(before.verdicts, after.now, after.due_verdicts, after.verdicts),
{
    let now = (before.now + 1) as u64;
    lemma_no_event(before.p.events@, now);
    let then = choose|mid: WorldView<M>|
        #![trigger mid.collected()]
        before.ticked().events_lead_to(
            super::events_at(before.p.events@, before.ticked().now),
            parents,
            mid,
        ) && after == mid.collected();
    assert(then == before.ticked());
    queue::law_a_queue_is_split_by_what_is_due(then.views, then.now);
    queue::law_a_queue_is_split_by_what_is_due(then.verdicts, then.now);
}

/// Where no event was given for a tick there is none.
proof fn lemma_no_event(events: Seq<(u64, Event)>, now: u64)
    requires
        forall|k: int| 0 <= k < events.len() ==> (#[trigger] events[k]).0 != now,
    ensures
        super::events_at(events, now) == Seq::<Event>::empty(),
    decreases events.len(),
{
    reveal(Seq::filter);
    if events.len() > 0 {
        let front = events.drop_last();
        assert forall|k: int| 0 <= k < front.len() implies (#[trigger] front[k]).0 != now by {
            assert(front[k] == events[k]);
        }
        lemma_no_event(front, now);
        assert(events[events.len() - 1] == events.last());
    }
    assert(super::events_at(events, now) =~= Seq::<Event>::empty());
}

/// Nothing but the place in the tick, what is set apart for it and the nodes is touched by a step.
pub open spec fn same_but_for_the_tick<M>(before: WorldView<M>, after: WorldView<M>) -> bool {
    after == (WorldView {
        nodes: after.nodes,
        phase: after.phase,
        net: after.net,
        inbox: after.inbox,
        due_views: after.due_views,
        due_verdicts: after.due_verdicts,
        ..before
    })
}

/// What a step does with a view that is due: the node it is for takes over who leads and in which
/// term, and is named to be brought in line; no other node, and nothing else of that one, is touched.
/// Once no view is left it is the verdicts' turn.
pub proof fn law_a_view_reaches_its_node<M>(
    before: WorldView<M>,
    step: Step<M>,
    after: WorldView<M>,
)
    requires
        before.phase == Phase::Views,
        before.nodes.len() <= usize::MAX,
        before.steps_to(step, after),
    ensures
        same_but_for_the_tick(before, after),
        after.net == before.net,
        after.inbox == before.inbox,
        after.due_verdicts == before.due_verdicts,
        before.due_views.len() == 0 ==> step is Quiet && after.phase == Phase::Verdicts(0)
            && after.nodes == before.nodes && after.due_views == before.due_views,
        before.due_views.len() > 0 ==> after.phase == Phase::Views && after.due_views
            == before.due_views.drop_first(),
        before.due_views.len() > 0 && (forall|i: int|
            0 <= i < before.nodes.len() ==> (#[trigger] before.nodes[i]).id
                != before.due_views[0].what) ==> step is Quiet && after.nodes == before.nodes,
        forall|i: int|
            before.due_views.len() > 0 && 0 <= i < before.nodes.len() && (
            #[trigger] before.nodes[i]).id == before.due_views[0].what && (forall|j: int|
                0 <= j < i ==> (#[trigger] before.nodes[j]).id != before.due_views[0].what) ==> {
                let (was, is) = (before.nodes[i], after.nodes[i]);
                &&& step == Step::<M>::View(i as usize)
                &&& after.nodes.len() == before.nodes.len()
                &&& is.seen_leader == before.leader && is.seen_term == before.term
                &&& is.id == was.id && is.dc == was.dc && is.member == was.member && is.up
                    == was.up
                &&& is.known_down == was.known_down && is.offered == was.offered && is.admitted
                    == was.admitted
                &&& forall|j: int|
                    0 <= j < before.nodes.len() && j != i ==> #[trigger] after.nodes[j]
                        == before.nodes[j]
            },
{
    if before.due_views.len() > 0 {
        law_a_node_is_found_by_its_id(before.nodes, before.due_views[0].what);
    }
}

/// What a step does with a verdict that is due, at the node at `i`: where that node is a member, is
/// up and is not the one judged, it takes the one judged to be down, or not to be, and is named to be
/// told; no other node, and nothing else of that one, is touched. The verdict goes on to the next
/// place, and is dropped behind the last. Once no verdict is left, of the messages on the network
/// those that are due are set apart.
pub proof fn law_a_verdict_reaches_a_node<M>(
    before: WorldView<M>,
    i: usize,
    step: Step<M>,
    after: WorldView<M>,
)
    requires
        before.phase == Phase::Verdicts(i),
        before.nodes.len() <= usize::MAX,
        before.steps_to(step, after),
    ensures
        same_but_for_the_tick(before, after),
        after.due_views == before.due_views,
        before.due_verdicts.len() == 0 ==> step is Quiet && after.phase == Phase::Mail
            && after.nodes == before.nodes && after.due_verdicts == before.due_verdicts
            && is_set_apart(before.net, before.now, after.inbox, after.net),
        before.due_verdicts.len() > 0 ==> after.net == before.net && after.inbox == before.inbox,
        before.due_verdicts.len() > 0 && i >= before.nodes.len() ==> step is Quiet
            && after.due_verdicts == before.due_verdicts.drop_first() && after.phase
            == Phase::Verdicts(0) && after.nodes == before.nodes,
        forall|id: u32, down: bool|
            before.due_verdicts.len() > 0 && i < before.nodes.len()
                && before.due_verdicts[0].what == (if down {
                Event::Down(id)
            } else {
                Event::Up(id)
            }) ==> {
                let (was, is) = (before.nodes[i as int], after.nodes[i as int]);
                &&& after.due_verdicts == before.due_verdicts
                &&& after.phase == Phase::Verdicts((i + 1) as usize)
                &&& after.nodes.len() == before.nodes.len()
                &&& forall|j: int|
                    0 <= j < before.nodes.len() && j != i ==> #[trigger] after.nodes[j]
                        == before.nodes[j]
                &&& is == (NodeView { known_down: is.known_down, ..was })
                &&& if was.member && was.up && was.id != id {
                    &&& #[trigger] step_names(step, i, id, down)
                    &&& is.known_down.contains(id) <==> down
                    &&& forall|other: u32|
                        other != id ==> (#[trigger] is.known_down.contains(other)
                            <==> was.known_down.contains(other))
                } else {
                    &&& step is Quiet
                    &&& is == was
                }
            },
{
    queue::law_a_queue_is_split_by_what_is_due(before.net, before.now);
}

/// The step names the machine at `i` to be told that `id` is down, or up.
pub open spec fn step_names<M>(step: Step<M>, i: usize, id: u32, down: bool) -> bool {
    if down {
        step == Step::<M>::Down(i, id)
    } else {
        step == Step::<M>::Up(i, id)
    }
}

/// What a step does with a message that is due: the machine of the node it is for gets it, from the
/// one that sent it, where that node is a member and is up; else it is dropped. No node is touched.
/// Once no message is left it is the nodes' turn.
pub proof fn law_a_message_reaches_its_node<M>(
    before: WorldView<M>,
    step: Step<M>,
    after: WorldView<M>,
)
    requires
        before.phase == Phase::Mail,
        before.nodes.len() <= usize::MAX,
        before.steps_to(step, after),
    ensures
        same_but_for_the_tick(before, after),
        after.nodes == before.nodes,
        after.net == before.net,
        after.due_views == before.due_views,
        after.due_verdicts == before.due_verdicts,
        before.inbox.len() == 0 ==> step is Quiet && after.phase == Phase::Work(0) && after.inbox
            == before.inbox,
        before.inbox.len() > 0 ==> after.phase == Phase::Mail && after.inbox
            == before.inbox.drop_first(),
        before.inbox.len() > 0 && (forall|i: int|
            0 <= i < before.nodes.len() ==> (#[trigger] before.nodes[i]).id
                != before.inbox[0].what.dst) ==> step is Quiet,
        forall|i: int|
            before.inbox.len() > 0 && 0 <= i < before.nodes.len() && (#[trigger] before.nodes[i]).id
                == before.inbox[0].what.dst && (forall|j: int|
                0 <= j < i ==> (#[trigger] before.nodes[j]).id != before.inbox[0].what.dst) ==> {
                if before.nodes[i].member && before.nodes[i].up {
                    step == Step::Message(
                        i as usize,
                        before.inbox[0].what.from,
                        before.inbox[0].what.msg,
                    )
                } else {
                    step is Quiet
                }
            },
{
    if before.inbox.len() > 0 {
        law_a_node_is_found_by_its_id(before.nodes, before.inbox[0].what.dst);
    }
}

/// What a step does at the nodes' turn: a member that is up is put under load, and then every member
/// sees the clock; then comes the next place, and behind the last the tick is measured.
pub proof fn law_every_member_works_and_sees_the_clock<M>(
    before: WorldView<M>,
    i: usize,
    step: Step<M>,
    after: WorldView<M>,
)
    requires
        before.phase == Phase::Work(i) || before.phase == Phase::Clock(i),
        before.steps_to(step, after),
    ensures
        after == (WorldView { phase: after.phase, ..before }),
        before.phase == Phase::Work(i) && i >= before.nodes.len() ==> step is Quiet && after.phase
            == Phase::Measure,
        before.phase == Phase::Work(i) && i < before.nodes.len() && !before.nodes[i as int].member
            ==> step is Quiet && after.phase == Phase::Work((i + 1) as usize),
        before.phase == Phase::Work(i) && i < before.nodes.len() && before.nodes[i as int].member
            ==> after.phase == Phase::Clock(i) && (before.nodes[i as int].up ==> step
            == Step::<M>::Load(i)) && (!before.nodes[i as int].up ==> step is Quiet),
        before.phase == Phase::Clock(i) ==> step == Step::<M>::Tick(i) && after.phase
            == Phase::Work((i + 1) as usize),
{
}

/// Between two ticks, and before a tick is measured, a step changes nothing and says so.
pub proof fn law_a_world_at_rest_waits<M>(
    before: WorldView<M>,
    step: Step<M>,
    after: WorldView<M>,
)
    requires
        before.phase == Phase::Rest || before.phase == Phase::Measure,
        before.steps_to(step, after),
    ensures
        after == before,
        before.phase == Phase::Rest ==> step is Begin,
        before.phase == Phase::Measure ==> step is Measure,
{
}

/// What a message does when it is sent: it is counted, and counted again where it crosses between
/// data centres; one number is drawn for it; and it is put on the network exactly where that number,
/// as a part, is at least the run's loss, due after the latency inside a data centre or between two.
/// Where it is lost the network is as it was. Nothing else is touched.
pub proof fn law_a_message_gets_through_by_the_number_drawn<M>(
    w: WorldView<M>,
    from: u32,
    dst: u32,
    msg: M,
    a: int,
    b: int,
)
    requires
        w.sound(),
        0 <= a < w.nodes.len(),
        0 <= b < w.nodes.len(),
        w.nodes[a].id == from,
        w.nodes[b].id == dst,
        w.lease_msgs < u64::MAX,
        w.now + w.p.latency <= u64::MAX,
        w.now + w.p.cross_latency <= u64::MAX,
    ensures
        ({
            let after = w.sent(from, dst, msg);
            &&& after == (WorldView {
                lease_msgs: after.lease_msgs,
                cross_lease_msgs: after.cross_lease_msgs,
                rng: after.rng,
                net: after.net,
                ..w
            })
            &&& after.lease_msgs == w.lease_msgs + 1
            &&& w.nodes[a].dc == w.nodes[b].dc ==> after.cross_lease_msgs == w.cross_lease_msgs
            &&& w.nodes[a].dc != w.nodes[b].dc ==> after.cross_lease_msgs == w.cross_lease_msgs + 1
            &&& after.rng == w.rng.after(1)
            &&& w.rng.peek_part() < w.p.loss ==> after.net == w.net
            &&& w.rng.peek_part() >= w.p.loss ==> {
                &&& after.net.len() == w.net.len() + 1
                &&& after.net.drop_last() == w.net
                &&& after.net.last().what.dst == dst
                &&& after.net.last().what.from == from
                &&& after.net.last().what.msg == msg
                &&& w.nodes[a].dc == w.nodes[b].dc ==> after.net.last().due == w.now + w.p.latency
                &&& w.nodes[a].dc != w.nodes[b].dc ==> after.net.last().due == w.now
                    + w.p.cross_latency
            }
        }),
{
    tree::lemma_found_by_id(w.nodes, a);
    tree::lemma_found_by_id(w.nodes, b);
    reveal_with_fuel(Rng::after, 2);
    assert(w.sent(from, dst, msg).net.drop_last() =~= w.net || w.rng.peek_part() < w.p.loss);
}

/// What a machine has ready is sent where its node is a member and is up, a message for each peer
/// named, first to last; else it is dropped and nothing changes.
pub proof fn law_a_machine_sends_what_it_has_ready<M>(
    w: WorldView<M>,
    i: int,
    calls: Seq<(u32, M)>,
    call: (u32, M),
)
    requires
        0 <= i < w.nodes.len(),
    ensures
        w.nodes[i].member && w.nodes[i].up ==> {
            &&& w.pumped(i, Seq::empty()) == w
            &&& w.pumped(i, calls.push(call)) == w.pumped(i, calls).sent(
                w.nodes[i].id,
                call.0,
                call.1,
            )
        },
        !(w.nodes[i].member && w.nodes[i].up) ==> w.pumped(i, calls) == w,
{
    assert(calls.push(call).drop_last() =~= calls);
}

/// However much a machine sends, every message is counted, no node is touched, and what was on the
/// network is on it still; no more is put on it than was sent, and all of it where nothing is lost.
pub proof fn law_every_message_is_counted<M>(w: WorldView<M>, from: u32, calls: Seq<(u32, M)>)
    requires
        w.lease_msgs + calls.len() <= u64::MAX,
    ensures
        ({
            let after = w.sent_all(from, calls);
            &&& after.nodes == w.nodes && after.leader == w.leader && after.term == w.term
            &&& after.p == w.p && after.now == w.now && after.phase == w.phase
            &&& after.lease_msgs == w.lease_msgs + calls.len()
            &&& w.net.len() <= after.net.len() <= w.net.len() + calls.len()
            &&& after.net.take(w.net.len() as int) == w.net
            &&& w.p.loss == 0 ==> after.net.len() == w.net.len() + calls.len()
            &&& w.p.loss >= crate::rng::PARTS ==> after.net == w.net
            &&& after.rng == w.rng.after(calls.len())
        }),
    decreases calls.len(),
{
    if calls.len() == 0 {
        assert(w.net.take(w.net.len() as int) =~= w.net);
    } else {
        let front = calls.drop_last();
        let mid = w.sent_all(from, front);
        law_every_message_is_counted(w, from, front);
        let after = w.sent_all(from, calls);
        assert(after == mid.sent(from, calls.last().0, calls.last().1));
        assert(after.net.take(w.net.len() as int) =~= mid.net.take(w.net.len() as int));
        crate::rng::law_a_part_is_a_numbers_place(mid.rng);
        w.rng.lemma_one_more(front.len());
    }
}

/// What recording a load does: the node has offered what a node offers in a tick, and has admitted of
/// it what it admitted; the tick has that much more admitted, and the rest throttled. Nothing else is
/// touched.
pub proof fn law_a_load_is_recorded_at_its_node<M>(w: WorldView<M>, i: int, admitted: u64)
    requires
        w.sound(),
        0 <= i < w.nodes.len(),
        admitted <= w.p.offered,
        w.nodes[i].offered + w.p.offered <= u64::MAX,
        w.admitted_this_tick + admitted <= u64::MAX,
        w.throttled_this_tick + (w.p.offered - admitted) <= u64::MAX,
    ensures
        ({
            let after = w.load_recorded(i, admitted);
            let (was, is) = (w.nodes[i], after.nodes[i]);
            &&& after == (WorldView {
                nodes: after.nodes,
                admitted_this_tick: after.admitted_this_tick,
                throttled_this_tick: after.throttled_this_tick,
                ..w
            })
            &&& after.nodes.len() == w.nodes.len()
            &&& forall|j: int|
                0 <= j < w.nodes.len() && j != i ==> #[trigger] after.nodes[j] == w.nodes[j]
            &&& is == (NodeView { offered: is.offered, admitted: is.admitted, ..was })
            &&& is.offered == was.offered + w.p.offered
            &&& is.admitted == was.admitted + admitted
            &&& after.admitted_this_tick == w.admitted_this_tick + admitted
            &&& after.throttled_this_tick + admitted == w.throttled_this_tick + w.p.offered
        }),
{
    super::laws::lemma_part_of_total(w.nodes, i, super::admitted_by());
}

/// A sum over the nodes is the sum over their places.
pub proof fn law_a_total_counts_every_node_once(nodes: Seq<NodeView>, f: spec_fn(NodeView) -> nat)
    ensures
        super::total(nodes, f) == sums::sum(
            vstd::set_lib::set_int_range(0, nodes.len() as int),
            |i: int| f(nodes[i]),
        ),
    decreases nodes.len(),
{
    let all = vstd::set_lib::set_int_range(0, nodes.len() as int);
    let g = |i: int| f(nodes[i]);
    vstd::set_lib::lemma_int_range(0, nodes.len() as int);
    if nodes.len() > 0 {
        let front = nodes.drop_last();
        let h = |i: int| f(front[i]);
        let last = nodes.len() - 1;
        law_a_total_counts_every_node_once(front, f);
        sums::lemma_sum_split(all, g, last);
        assert(all.remove(last) =~= vstd::set_lib::set_int_range(0, last));
        sums::lemma_sum_congruent(all.remove(last), g, h);
    }
}

/// What the watched nodes offered, and what of it was admitted, is the sum over the places of the
/// nodes that are watched.
pub proof fn law_the_flow_is_that_of_the_watched_nodes<M>(w: WorldView<M>)
    ensures
        w.subtree_offered() == sums::sum(
            Set::new(|i: int| 0 <= i < w.nodes.len() && w.subtree.contains(w.nodes[i].id)),
            |i: int| w.nodes[i].offered as nat,
        ),
        w.subtree_admitted() == sums::sum(
            Set::new(|i: int| 0 <= i < w.nodes.len() && w.subtree.contains(w.nodes[i].id)),
            |i: int| w.nodes[i].admitted as nat,
        ),
{
    let all = vstd::set_lib::set_int_range(0, w.nodes.len() as int);
    let watched = Set::new(|i: int| 0 <= i < w.nodes.len() && w.subtree.contains(w.nodes[i].id));
    vstd::set_lib::lemma_int_range(0, w.nodes.len() as int);
    assert(watched.subset_of(all));
    let (o, a) = (
        super::of_those(w.subtree, super::offered_by()),
        super::of_those(w.subtree, super::admitted_by()),
    );
    law_a_total_counts_every_node_once(w.nodes, o);
    law_a_total_counts_every_node_once(w.nodes, a);
    let (op, ap) = (|i: int| o(w.nodes[i]), |i: int| a(w.nodes[i]));
    sums::lemma_sum_ignores_zeros(all, watched, op);
    sums::lemma_sum_ignores_zeros(all, watched, ap);
    sums::lemma_sum_congruent(watched, op, |i: int| w.nodes[i].offered as nat);
    sums::lemma_sum_congruent(watched, ap, |i: int| w.nodes[i].admitted as nat);
}

/// What measuring a tick does: each record has one entry more, which is what the tick came to, and
/// the watched nodes' flow has one where nodes are watched; the counts start again at nothing, at the
/// cluster and at every node; and the world rests. Nothing else is touched.
pub proof fn law_a_tick_is_put_on_record<M>(w: WorldView<M>, parents: Seq<Option<u32>>)
    requires
        tree::max_depth(w.nodes, parents, w.leader, w.nodes.len() as int) <= u16::MAX,
        w.mid is Some ==> w.subtree_offered() <= u64::MAX && w.subtree_admitted() <= u64::MAX,
    ensures
        ({
            let after = w.measured(parents);
            let n = w.depth_by_tick.len() as int;
            &&& after == (WorldView {
                nodes: after.nodes,
                phase: Phase::Rest,
                admitted_by_tick: after.admitted_by_tick,
                throttled_by_tick: after.throttled_by_tick,
                admitted_this_tick: 0,
                throttled_this_tick: 0,
                depth_by_tick: after.depth_by_tick,
                subtree_flow: after.subtree_flow,
                ..w
            })
            &&& after.admitted_by_tick.drop_last() == w.admitted_by_tick
            &&& after.admitted_by_tick.len() == w.admitted_by_tick.len() + 1
            &&& after.admitted_by_tick.last() == w.admitted_this_tick
            &&& after.throttled_by_tick.drop_last() == w.throttled_by_tick
            &&& after.throttled_by_tick.len() == w.throttled_by_tick.len() + 1
            &&& after.throttled_by_tick.last() == w.throttled_this_tick
            &&& after.depth_by_tick.drop_last() == w.depth_by_tick
            &&& after.depth_by_tick.len() == w.depth_by_tick.len() + 1
            &&& forall|i: int|
                0 <= i < w.nodes.len() && (#[trigger] w.nodes[i]).member && w.nodes[i].up ==> (
                tree::depth(w.nodes, parents, w.leader, w.nodes[i].id) matches Some(d) ==> d
                    <= after.depth_by_tick[n])
            &&& after.depth_by_tick[n] > 0 ==> exists|i: int|
                0 <= i < w.nodes.len() && (#[trigger] w.nodes[i]).member && w.nodes[i].up
                    && tree::depth(w.nodes, parents, w.leader, w.nodes[i].id) == Some(
                    after.depth_by_tick[n] as nat,
                )
            &&& w.mid is None ==> after.subtree_flow == w.subtree_flow
            &&& w.mid is Some ==> {
                &&& after.subtree_flow.len() == w.subtree_flow.len() + 1
                &&& after.subtree_flow.drop_last() == w.subtree_flow
                &&& after.subtree_flow.last().0 == w.subtree_admitted()
                &&& after.subtree_flow.last().1 == w.subtree_offered()
            }
            &&& after.nodes.len() == w.nodes.len()
            &&& forall|i: int|
                0 <= i < w.nodes.len() ==> (#[trigger] after.nodes[i]) == (NodeView {
                    offered: 0,
                    admitted: 0,
                    ..w.nodes[i]
                })
        }),
{
    let after = w.measured(parents);
    tree::law_the_tree_is_as_deep_as_its_deepest_node(
        w.nodes,
        parents,
        w.leader,
        w.nodes.len() as int,
    );
    assert(after.admitted_by_tick.drop_last() =~= w.admitted_by_tick);
    assert(after.throttled_by_tick.drop_last() =~= w.throttled_by_tick);
    assert(after.depth_by_tick.drop_last() =~= w.depth_by_tick);
    if w.mid is Some {
        assert(after.subtree_flow.drop_last() =~= w.subtree_flow);
    }
}

/// The true view, and the view a node holds, name nodes in the order they came: with one more node
/// behind the others, the true view names it where it is a member and is up, the view a node holds
/// where it is a member that the node does not take to be down, and the others as before.
pub proof fn law_a_view_names_nodes_in_the_order_they_came<M>(
    w: WorldView<M>,
    n: NodeView,
    i: int,
)
    requires
        0 <= i < w.nodes.len(),
    ensures
        ({
            let more = WorldView { nodes: w.nodes.push(n), ..w };
            let none = WorldView { nodes: Seq::<NodeView>::empty(), ..w };
            &&& none.active_members() == Seq::<(u32, u8)>::empty()
            &&& more.active_members() == if n.member && n.up {
                w.active_members().push((n.id, n.dc))
            } else {
                w.active_members()
            }
            &&& more.members_seen(i) == if n.member && !w.nodes[i].known_down.contains(n.id) {
                w.members_seen(i).push((n.id, n.dc))
            } else {
                w.members_seen(i)
            }
        }),
{
    reveal(Seq::filter);
    let more = WorldView { nodes: w.nodes.push(n), ..w };
    let none = WorldView { nodes: Seq::<NodeView>::empty(), ..w };
    assert(more.nodes.drop_last() =~= w.nodes);
    assert(none.active_members() =~= Seq::<(u32, u8)>::empty());
    if n.member && n.up {
        assert(more.active_members() =~= w.active_members().push((n.id, n.dc)));
    } else {
        assert(more.active_members() =~= w.active_members());
    }
    if n.member && !w.nodes[i].known_down.contains(n.id) {
        assert(more.members_seen(i) =~= w.members_seen(i).push((n.id, n.dc)));
    } else {
        assert(more.members_seen(i) =~= w.members_seen(i));
    }
}

/// The view a node holds names exactly the members it does not take to be down, and the true view
/// exactly the members that are up.
pub proof fn law_a_view_names_whom_it_takes_to_be_up<M>(w: WorldView<M>, i: int, k: int)
    requires
        0 <= i < w.nodes.len(),
        0 <= k < w.nodes.len(),
        w.sound(),
    ensures
        w.members_seen(i).contains((w.nodes[k].id, w.nodes[k].dc)) <==> w.nodes[k].member
            && !w.nodes[i].known_down.contains(w.nodes[k].id),
        w.active_members().contains((w.nodes[k].id, w.nodes[k].dc)) <==> w.nodes[k].member
            && w.nodes[k].up,
{
    let f = super::not_known_down(w.nodes[i].known_down);
    lemma_named_where_let_through(w.nodes, f, k);
    lemma_named_where_let_through(w.nodes, super::is_active(), k);
}

/// A node is named exactly where it is let through.
proof fn lemma_named_where_let_through(
    nodes: Seq<NodeView>,
    f: spec_fn(NodeView) -> bool,
    k: int,
)
    requires
        0 <= k < nodes.len(),
        super::ids(nodes).no_duplicates(),
    ensures
        nodes.filter(f).map_values(super::id_and_dc()).contains((nodes[k].id, nodes[k].dc))
            <==> f(nodes[k]),
{
    let named = nodes.filter(f).map_values(super::id_and_dc());
    let ids = super::ids(nodes);
    broadcast use vstd::seq_lib::group_filter_ensures;

    if f(nodes[k]) {
        assert(nodes.contains(nodes[k]));
        assert(nodes.filter(f).contains(nodes[k]));
        let j = nodes.filter(f).index_of(nodes[k]);
        assert(named[j] == (nodes[k].id, nodes[k].dc));
    }
    if named.contains((nodes[k].id, nodes[k].dc)) {
        let j = named.index_of((nodes[k].id, nodes[k].dc));
        let n = nodes.filter(f)[j];
        assert(nodes.filter(f).contains(n));
        nodes.lemma_filter_contains_rev(f, n);
        let m = nodes.index_of(n);
        assert(ids[m] == ids[k]);
    }
}

/// What a run starts with: as many nodes as asked for, numbered from zero and dealt round the data
/// centres, members all and up, knowing of the first node as leader in the first term and of nobody
/// down; nothing under way and nothing measured, at tick zero.
pub proof fn law_a_run_starts_with_every_node_in_the_cluster<M>(p: Params)
    requires
        p.dcs > 0,
    ensures
        ({
            let w = WorldView::<M>::start(p);
            &&& w.nodes.len() == p.nodes
            &&& forall|i: int|
                0 <= i < p.nodes ==> {
                    let n = #[trigger] w.nodes[i];
                    &&& n.id == i
                    &&& n.dc == i % p.dcs as int
                    &&& n.member && n.up
                    &&& n.seen_leader == 0 && n.seen_term == 1
                    &&& n.known_down == Set::<u32>::empty()
                    &&& n.offered == 0 && n.admitted == 0
                }
            &&& w.leader == 0 && w.term == 1 && w.now == 0
            &&& w.net.len() == 0 && w.views.len() == 0 && w.verdicts.len() == 0
            &&& w.inbox.len() == 0 && w.due_views.len() == 0 && w.due_verdicts.len() == 0
            &&& w.phase == Phase::Rest && w.rng.state == p.seed && w.p == p
            &&& w.mid is None && w.subtree.len() == 0
            &&& w.lease_msgs == 0 && w.cross_lease_msgs == 0
            &&& w.admitted_by_tick.len() == 0 && w.throttled_by_tick.len() == 0
            &&& w.admitted_this_tick == 0 && w.throttled_this_tick == 0
            &&& w.depth_by_tick.len() == 0 && w.subtree_flow.len() == 0
        }),
{
}

} // verus!
