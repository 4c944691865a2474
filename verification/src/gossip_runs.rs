//! What a gossiping cluster keeps over a whole run, however the driver interleaves its steps with
//! what the trees ask for.
//!
//! The clock and the total hold of any run, whatever the trees deliver. That the total stays within
//! the ceiling, and that views converge, hold where the trees deliver only what was broadcast: a
//! made-up report could tell a node that it has released what it has not.

use vstd::prelude::*;

use crate::gossip::{self, Action, Step, WorldView};
use crate::gossip_laws;
use crate::slots::{self, SlotState};

verus! {

/// The world takes its next step.
pub open spec fn steps<M>(a: WorldView<M>, b: WorldView<M>) -> bool {
    exists|step: Step<M>| a.can_step() && #[trigger] a.steps_to(step, b)
}

/// A node carries out what its tree asks for, whatever that is.
pub open spec fn acts<M>(a: WorldView<M>, b: WorldView<M>) -> bool {
    exists|id: u32, actions: Seq<Action<M>>| b == #[trigger] a.run(id, actions)
}

/// A node carries out what its tree asks for, which delivers only what was broadcast.
pub open spec fn acts_honestly<M>(a: WorldView<M>, b: WorldView<M>) -> bool {
    exists|id: u32, actions: Seq<Action<M>>|
        gossip_laws::delivers_only_broadcasts(a, actions) && b == #[trigger] a.run(id, actions)
}

/// The world makes a move of any run from place `k` of `worlds` to the next.
pub open spec fn moves_at<M>(worlds: Seq<WorldView<M>>, k: int) -> bool {
    steps(worlds[k], worlds[k + 1]) || acts(worlds[k], worlds[k + 1])
}

/// The world makes a move of an honest run from place `k` of `worlds` to the next.
pub open spec fn moves_honestly_at<M>(worlds: Seq<WorldView<M>>, k: int) -> bool {
    steps(worlds[k], worlds[k + 1]) || acts_honestly(worlds[k], worlds[k + 1])
}

/// `worlds` are the worlds of a run, one after the other, whatever the trees deliver.
pub open spec fn is_any_run<M>(worlds: Seq<WorldView<M>>) -> bool {
    &&& worlds.len() > 0
    &&& forall|k: int| 0 <= k && k + 1 < worlds.len() ==> #[trigger] moves_at(worlds, k)
}

/// `worlds` are the worlds of a run from a sound world, in which the trees deliver only what was
/// broadcast.
pub open spec fn is_run<M>(worlds: Seq<WorldView<M>>) -> bool {
    &&& worlds.len() > 0
    &&& gossip_laws::sound(worlds[0])
    &&& forall|k: int| 0 <= k && k + 1 < worlds.len() ==> #[trigger] moves_honestly_at(worlds, k)
}

/// An honest run is a run.
proof fn lemma_a_run_is_any_run<M>(worlds: Seq<WorldView<M>>)
    requires
        is_run(worlds),
    ensures
        is_any_run(worlds),
{
    assert forall|k: int| 0 <= k && k + 1 < worlds.len() implies #[trigger] moves_at(worlds, k) by {
        assert(moves_honestly_at(worlds, k));
    }
}

/// What a tree asks for touches neither the clock nor the total nor where in the round the world
/// is.
proof fn lemma_run_frame<M>(w: WorldView<M>, i: int, actions: Seq<Action<M>>)
    ensures
        w.run_all(i, actions).now == w.now,
        w.run_all(i, actions).true_total == w.true_total,
        w.run_all(i, actions).phase == w.phase,
        w.run_all(i, actions).p == w.p,
    decreases actions.len(),
{
    if actions.len() > 0 {
        lemma_run_frame(w, i, actions.drop_last());
    }
}

/// What one move keeps of the clock and the total.
proof fn lemma_move<M>(worlds: Seq<WorldView<M>>, k: int)
    requires
        is_any_run(worlds),
        0 <= k && k + 1 < worlds.len(),
    ensures
        ({
            let (a, b) = (worlds[k], worlds[k + 1]);
            &&& b.p == a.p
            &&& a.true_total <= b.true_total
            &&& a.now > a.p.load_until || a.phase is Rest ==> b.true_total == a.true_total
            &&& b.now == if a.phase is Rest && b.phase !is Rest {
                a.now + 1
            } else {
                a.now as int
            }
        }),
{
    let (a, b) = (worlds[k], worlds[k + 1]);
    assert(moves_at(worlds, k));
    if !steps(a, b) {
        let (id, actions) = choose|id: u32, actions: Seq<Action<M>>|
            b == #[trigger] a.run(id, actions);
        if let Some(i) = gossip::find(a.nodes, id) {
            lemma_run_frame(a, i, actions);
        }
    }
}

/// At any two moments of a run, whatever was lost, killed, joined, put under another governor or
/// delivered meanwhile: the true total has not fallen, it stands still once the load is over, and
/// the clock has not gone back.
pub proof fn law_clock_and_total_never_go_back<M>(worlds: Seq<WorldView<M>>, i: int, j: int)
    requires
        is_any_run(worlds),
        0 <= i <= j < worlds.len(),
    ensures
        worlds[j].p == worlds[i].p,
        worlds[i].true_total <= worlds[j].true_total,
        worlds[i].now <= worlds[j].now,
        worlds[i].now > worlds[i].p.load_until ==> worlds[j].true_total == worlds[i].true_total,
    decreases j - i,
{
    if i < j {
        law_clock_and_total_never_go_back(worlds, i, j - 1);
        lemma_move(worlds, j - 1);
    }
}

/// A round moves the clock by one, whatever is delivered in it. A round starts and ends between
/// rounds, and is inside of one in between.
pub proof fn law_a_round_moves_the_clock_by_one<M>(worlds: Seq<WorldView<M>>)
    requires
        is_any_run(worlds),
        worlds.len() > 2,
        worlds[0].phase is Rest,
        worlds.last().phase is Rest,
        forall|k: int| 0 < k < worlds.len() - 1 ==> (#[trigger] worlds[k]).phase !is Rest,
    ensures
        worlds.last().now == worlds[0].now + 1,
        worlds[0].true_total <= worlds.last().true_total,
        worlds.last().now > worlds[0].p.load_until ==> worlds.last().true_total
            == worlds[0].true_total,
{
    lemma_move(worlds, 0);
    assert(worlds[1].phase !is Rest);
    lemma_same_clock(worlds, worlds.len() - 1);
    law_clock_and_total_never_go_back(worlds, 1, worlds.len() - 1);
}

/// Inside of a round the clock stands still.
proof fn lemma_same_clock<M>(worlds: Seq<WorldView<M>>, j: int)
    requires
        is_any_run(worlds),
        1 <= j < worlds.len(),
        forall|k: int| 0 < k < worlds.len() - 1 ==> (#[trigger] worlds[k]).phase !is Rest,
    ensures
        worlds[j].now == worlds[1].now,
    decreases j,
{
    if j > 1 {
        lemma_same_clock(worlds, j - 1);
        assert(worlds[j - 1].phase !is Rest);
        lemma_move(worlds, j - 1);
    }
}

/// A run that starts sound stays sound.
proof fn lemma_sound_throughout<M>(worlds: Seq<WorldView<M>>, j: int)
    requires
        is_run(worlds),
        0 <= j < worlds.len(),
    ensures
        gossip_laws::sound(worlds[j]),
    decreases j,
{
    if j > 0 {
        lemma_sound_throughout(worlds, j - 1);
        assert(moves_honestly_at(worlds, j - 1));
        let (a, b) = (worlds[j - 1], worlds[j]);
        if steps(a, b) {
            let step = choose|step: Step<M>| a.can_step() && #[trigger] a.steps_to(step, b);
            gossip_laws::law_a_step_keeps_the_world_sound(a, step, b);
        } else {
            let (id, actions) = choose|id: u32, actions: Seq<Action<M>>|
                gossip_laws::delivers_only_broadcasts(a, actions) && b == #[trigger] a.run(
                    id,
                    actions,
                );
            gossip_laws::law_delivering_broadcasts_keeps_the_world_sound(a, id, actions);
        }
    }
}

/// Enforcement: at every moment of a run, whatever was lost, killed, joined or put under another
/// governor, the true total is within the limit and the tolerated overshoot. It never falls, and
/// stands still once the load is over.
pub proof fn law_the_total_holds_over_a_run<M>(worlds: Seq<WorldView<M>>, i: int, j: int)
    requires
        is_run(worlds),
        0 <= i <= j < worlds.len(),
    ensures
        gossip_laws::sound(worlds[j]),
        worlds[j].p == worlds[i].p,
        worlds[j].true_total <= worlds[j].p.limit + worlds[j].p.delta,
        worlds[i].true_total <= worlds[j].true_total,
        worlds[i].now <= worlds[j].now,
        worlds[i].now > worlds[i].p.load_until ==> worlds[j].true_total == worlds[i].true_total,
{
    lemma_a_run_is_any_run(worlds);
    law_clock_and_total_never_go_back(worlds, i, j);
    lemma_sound_throughout(worlds, j);
    gossip_laws::law_enforcement(worlds[j]);
}

/// One move once the load is over changes no node's own slot and takes no knowledge away; a node
/// that joins has done nothing.
proof fn lemma_quiet_move<M>(worlds: Seq<WorldView<M>>, k: int)
    requires
        is_run(worlds),
        0 <= k && k + 1 < worlds.len(),
        worlds[k].now > worlds[k].p.load_until,
    ensures
        ({
            let (a, b) = (worlds[k], worlds[k + 1]);
            &&& a.nodes.len() <= b.nodes.len()
            &&& forall|j: int|
                0 <= j < a.nodes.len() ==> (#[trigger] b.nodes[j]).usage.own()
                    == a.nodes[j].usage.own()
            &&& forall|j: int|
                a.nodes.len() <= j < b.nodes.len() ==> (#[trigger] b.nodes[j]).usage.own()
                    == SlotState::unused()
            &&& forall|i: int, j: int|
                0 <= i < a.nodes.len() && 0 <= j < a.nodes.len() && #[trigger] gossip_laws::knows(
                    a,
                    i,
                    j,
                ) ==> gossip_laws::knows(b, i, j)
        }),
{
    let (a, b) = (worlds[k], worlds[k + 1]);
    lemma_sound_throughout(worlds, k);
    assert(moves_honestly_at(worlds, k));
    if steps(a, b) {
        let step = choose|step: Step<M>| a.can_step() && #[trigger] a.steps_to(step, b);
        gossip_laws::lemma_quiet_step(a, step, b);
        assert forall|i: int, j: int|
            0 <= i < a.nodes.len() && 0 <= j < a.nodes.len() && #[trigger] gossip_laws::knows(
                a,
                i,
                j,
            ) implies gossip_laws::knows(b, i, j) by {
            assert(b.nodes[i].usage == a.nodes[i].usage);
            assert(b.nodes[j].usage == a.nodes[j].usage);
        }
    } else {
        let (id, actions) = choose|id: u32, actions: Seq<Action<M>>|
            gossip_laws::delivers_only_broadcasts(a, actions) && b == #[trigger] a.run(
                id,
                actions,
            );
        gossip::ids(a.nodes).index_of_first_ensures(id);
        if let Some(r) = gossip::find(a.nodes, id) {
            gossip_laws::lemma_run_keeps_knowledge(a, r, actions, r, r);
            assert forall|j: int| 0 <= j < a.nodes.len() implies (#[trigger] b.nodes[j]).usage.own()
                == a.nodes[j].usage.own() by {
                gossip_laws::lemma_run_keeps_knowledge(a, r, actions, r, j);
            }
            assert forall|i: int, j: int|
                0 <= i < a.nodes.len() && 0 <= j < a.nodes.len() && #[trigger] gossip_laws::knows(
                    a,
                    i,
                    j,
                ) implies gossip_laws::knows(b, i, j) by {
                gossip_laws::lemma_run_keeps_knowledge(a, r, actions, i, j);
            }
        }
    }
}

/// After the load is over no node's own slot changes and no node goes from the list; whoever joins
/// has done nothing, and goes on doing nothing.
pub proof fn law_no_node_does_more_once_the_load_is_over<M>(
    worlds: Seq<WorldView<M>>,
    from: int,
    to: int,
)
    requires
        is_run(worlds),
        0 <= from <= to < worlds.len(),
        worlds[from].now > worlds[from].p.load_until,
    ensures
        worlds[from].nodes.len() <= worlds[to].nodes.len(),
        forall|j: int|
            0 <= j < worlds[from].nodes.len() ==> (#[trigger] worlds[to].nodes[j]).usage.own()
                == worlds[from].nodes[j].usage.own(),
        forall|j: int|
            worlds[from].nodes.len() <= j < worlds[to].nodes.len() ==> (
            #[trigger] worlds[to].nodes[j]).usage.own() == SlotState::unused(),
    decreases to - from,
{
    if from < to {
        law_no_node_does_more_once_the_load_is_over(worlds, from, to - 1);
        lemma_a_run_is_any_run(worlds);
        law_clock_and_total_never_go_back(worlds, from, to - 1);
        lemma_quiet_move(worlds, to - 1);
        let (a, b) = (worlds[to - 1], worlds[to]);
        assert forall|j: int| 0 <= j < worlds[from].nodes.len() implies (
        #[trigger] b.nodes[j]).usage.own() == worlds[from].nodes[j].usage.own() by {
            assert(a.nodes[j].usage.own() == worlds[from].nodes[j].usage.own());
        }
        assert forall|j: int| worlds[from].nodes.len() <= j < b.nodes.len() implies (
        #[trigger] b.nodes[j]).usage.own() == SlotState::unused() by {
            if j < a.nodes.len() {
                assert(a.nodes[j].usage.own() == SlotState::unused());
            }
        }
    }
}

/// Knowledge, once had, is kept: after the load is over, what a node knows of another it knows at
/// every later moment of the run.
pub proof fn law_knowledge_is_kept<M>(
    worlds: Seq<WorldView<M>>,
    from: int,
    to: int,
    i: int,
    j: int,
)
    requires
        is_run(worlds),
        0 <= from <= to < worlds.len(),
        worlds[from].now > worlds[from].p.load_until,
        0 <= i < worlds[from].nodes.len(),
        0 <= j < worlds[from].nodes.len(),
        gossip_laws::knows(worlds[from], i, j),
    ensures
        gossip_laws::knows(worlds[to], i, j),
    decreases to - from,
{
    if from < to {
        law_knowledge_is_kept(worlds, from, to - 1, i, j);
        law_no_node_does_more_once_the_load_is_over(worlds, from, to - 1);
        lemma_a_run_is_any_run(worlds);
        law_clock_and_total_never_go_back(worlds, from, to - 1);
        lemma_quiet_move(worlds, to - 1);
    }
}

/// The node at `i` came to know, at some moment of the run, what the node at `j` has done.
pub open spec fn learns<M>(worlds: Seq<WorldView<M>>, i: int, j: int) -> bool {
    exists|k: int|
        #![trigger worlds[k]]
        0 <= k < worlds.len() && i < worlds[k].nodes.len() && gossip_laws::knows(worlds[k], i, j)
}

/// Convergence. Let the load be over when a run of worlds begins, and let every node that is live at
/// its end have come to know, at some moment or other, what each node there was at its beginning has
/// done -- through whatever loss, change of governor, death and join. Then at the end every live
/// node's view of the global usage is the true total. Nodes that join meanwhile have done nothing, so
/// there is nothing to know of them; they too converge, once they have heard of the others.
pub proof fn law_views_converge_on_the_true_total<M>(worlds: Seq<WorldView<M>>)
    requires
        is_run(worlds),
        worlds[0].now > worlds[0].p.load_until,
        forall|i: int, j: int|
            0 <= i < worlds.last().nodes.len() && worlds.last().nodes[i].alive && 0 <= j
                < worlds[0].nodes.len() ==> #[trigger] learns(worlds, i, j),
    ensures
        worlds.last().converged(),
{
    let end = worlds.len() - 1;
    let last = worlds[end];
    let first = worlds[0];
    lemma_a_run_is_any_run(worlds);
    lemma_sound_throughout(worlds, end);
    assert forall|i: int| 0 <= i < last.nodes.len() && (#[trigger] last.nodes[i]).alive implies slots::reading(
        last.nodes[i].usage.slots,
    ) == last.true_total by {
        assert forall|j: int| 0 <= j < last.nodes.len() implies gossip_laws::knows(last, i, j) by {
            if j < first.nodes.len() {
                assert(learns(worlds, i, j));
                let k = choose|k: int|
                    #![trigger worlds[k]]
                    0 <= k < worlds.len() && i < worlds[k].nodes.len() && gossip_laws::knows(
                        worlds[k],
                        i,
                        j,
                    );
                law_no_node_does_more_once_the_load_is_over(worlds, 0, k);
                law_clock_and_total_never_go_back(worlds, 0, k);
                law_knowledge_is_kept(worlds, k, end, i, j);
            } else {
                law_no_node_does_more_once_the_load_is_over(worlds, 0, end);
                assert(last.nodes[j].usage.own() == SlotState::unused());
                gossip_laws::lemma_nothing_to_know(last, i, j);
            }
        }
        assert forall|j: int| 0 <= j < last.nodes.len() implies slots::slot_at(
            last.nodes[i].usage.slots,
            (#[trigger] last.nodes[j]).id,
        ) == last.nodes[j].usage.own() by {
            assert(gossip_laws::knows(last, i, j));
        }
        gossip_laws::law_a_node_that_knows_every_slot_reads_the_true_total(last, i);
    }
}

} // verus!
