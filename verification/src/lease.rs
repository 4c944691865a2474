//! A cluster under a tree-leased rate limit, driven the way a server drives it.
//!
//! Every node runs a lease machine and has a place in a tree that the cluster view it holds
//! defines. Neither the machine nor the tree is here, and nothing here decides anything about
//! shares. A [`World`] is the rest of what a server does: a network with latency and loss, the
//! leader's view arriving with a delay, a failure detector with a delay, a load, the events that
//! disturb the cluster, and the measurements. It says what happens next as a [`Step`]; whoever
//! drives it puts the step to the node's lease machine and hands back what the machine sends.

use std::collections::BTreeSet;
use std::collections::VecDeque;

use vstd::prelude::*;

use crate::queue::{self, take_due, Timed};
use crate::rng::Rng;

pub mod effects;
pub mod figures;
pub mod laws;
pub mod scenarios;
pub mod tree;

use tree::holds;

verus! {

/// Something that happens to the cluster.
#[derive(Clone, Copy, Debug, PartialEq, Eq, Structural)]
pub enum Event {
    /// Another node becomes leader.
    Leader,
    /// A fresh node joins.
    Join,
    /// A node goes down.
    Down(u32),
    /// A node comes back.
    Up(u32),
    /// The node with the largest subtree is picked to be watched.
    PickMidTree,
    /// The node that was picked goes down.
    DownMidTree,
    /// The node that was picked comes back.
    UpMidTree,
}

/// A run's inputs.
#[derive(Debug, PartialEq, Eq)]
pub struct Params {
    /// Nodes at the start.
    pub nodes: u32,
    /// Data centres; node `i` is in `i % dcs`.
    pub dcs: u8,
    /// The tree's radix: ids are read as base-`radix` numbers.
    pub radix: usize,
    /// The share of messages lost, in parts of [`PARTS`](crate::rng::PARTS).
    pub loss: u64,
    /// Ticks a message is under way inside a data centre.
    pub latency: u64,
    /// Ticks a message is under way between data centres.
    pub cross_latency: u64,
    /// Ticks a lease lives.
    pub ttl: u64,
    /// The cluster-wide rate.
    pub rate: u64,
    /// What each node offers per tick.
    pub offered: u64,
    /// What a node asks for at a time.
    pub chunk: u64,
    /// Ticks the leader's view takes to reach a node.
    pub view_delay: u64,
    /// Ticks the failure detector takes to reach its verdict.
    pub fd_delay: u64,
    /// Ticks in the run.
    pub rounds: u64,
    /// What happens, and at which tick.
    pub events: Vec<(u64, Event)>,
    /// Where the random numbers start.
    pub seed: u64,
}

/// A message on its way from one node to another.
#[derive(Debug, PartialEq, Eq)]
pub struct Envelope<M> {
    /// Who it is for.
    pub dst: u32,
    /// Who sent it.
    pub from: u32,
    /// What it says.
    pub msg: M,
}

/// A node: where it is, whether it is in the cluster and up, the cluster view it holds -- the
/// leader and term it was told, and the members its failure detector has called down -- and its
/// load this tick.
pub struct Node {
    id: u32,
    dc: u8,
    member: bool,
    up: bool,
    seen_leader: u32,
    seen_term: u64,
    known_down: BTreeSet<u32>,
    offered: u64,
    admitted: u64,
}

/// Where in a tick the world is.
#[derive(Clone, Copy, Debug, PartialEq, Eq, Structural)]
pub enum Phase {
    /// Between two ticks.
    Rest,
    /// Views reach their nodes.
    Views,
    /// The first verdict that is due reaches the node at this place.
    Verdicts(usize),
    /// Messages reach their nodes.
    Mail,
    /// Load at the node at this place.
    Work(usize),
    /// The node at this place sees the clock.
    Clock(usize),
    /// The tick is to be measured.
    Measure,
}

/// What is to be done next.
#[derive(Debug, PartialEq, Eq)]
pub enum Step<M> {
    /// The run goes on with [`World::begin`], or is over.
    Begin,
    /// The node at this place is to be brought in line with the view it holds.
    View(usize),
    /// The lease machine at this place is to be told that a node is down, and then brought in
    /// line with the view it holds.
    Down(usize, u32),
    /// The lease machine at this place is to be told that a node is up, and then brought in line
    /// with the view it holds.
    Up(usize, u32),
    /// The lease machine at this place gets a message from a peer.
    Message(usize, u32, M),
    /// The node at this place is under load; [`World::record_load`] takes how much of it was
    /// admitted.
    Load(usize),
    /// The lease machine at this place is to see the clock.
    Tick(usize),
    /// The tick goes on with [`World::measure`].
    Measure,
    /// Nothing; ask again.
    Quiet,
}

/// The cluster, its network, its clock and the measurements.
pub struct World<M> {
    nodes: Vec<Node>,
    leader: u32,
    term: u64,
    net: Vec<Timed<Envelope<M>>>,
    views: Vec<Timed<u32>>,
    verdicts: Vec<Timed<Event>>,
    inbox: VecDeque<Timed<Envelope<M>>>,
    due_views: VecDeque<Timed<u32>>,
    due_verdicts: VecDeque<Timed<Event>>,
    phase: Phase,
    rng: Rng,
    now: u64,
    mid: Option<u32>,
    subtree: Vec<u32>,
    p: Params,
    lease_msgs: u64,
    cross_lease_msgs: u64,
    admitted_by_tick: Vec<u64>,
    throttled_by_tick: Vec<u64>,
    admitted_this_tick: u64,
    throttled_this_tick: u64,
    depth_by_tick: Vec<u16>,
    subtree_flow: Vec<(u64, u64)>,
}

/// What a [`Node`] is.
#[verifier::ext_equal]
pub struct NodeView {
    /// Its id.
    pub id: u32,
    /// Its data centre.
    pub dc: u8,
    /// Whether it is in the cluster.
    pub member: bool,
    /// Whether it is up.
    pub up: bool,
    /// The leader it was told of.
    pub seen_leader: u32,
    /// The term it was told of.
    pub seen_term: u64,
    /// The nodes it takes to be down.
    pub known_down: Set<u32>,
    /// What it offered this tick.
    pub offered: u64,
    /// What of it was admitted.
    pub admitted: u64,
}

/// What a [`World`] is.
#[verifier::ext_equal]
#[verifier::reject_recursive_types(M)]
pub struct WorldView<M> {
    /// The nodes, in the order they came.
    pub nodes: Seq<NodeView>,
    /// The leader.
    pub leader: u32,
    /// Its term.
    pub term: u64,
    /// Messages under way.
    pub net: Seq<Timed<Envelope<M>>>,
    /// Nodes that will be told of the leader.
    pub views: Seq<Timed<u32>>,
    /// Verdicts of the failure detector under way.
    pub verdicts: Seq<Timed<Event>>,
    /// Messages due this tick and not handed out yet.
    pub inbox: Seq<Timed<Envelope<M>>>,
    /// Nodes to be told this tick and not told yet.
    pub due_views: Seq<Timed<u32>>,
    /// Verdicts due this tick and not given yet.
    pub due_verdicts: Seq<Timed<Event>>,
    /// Where in the tick the world is.
    pub phase: Phase,
    /// Where the random numbers stand.
    pub rng: Rng,
    /// The tick.
    pub now: u64,
    /// The node that was picked.
    pub mid: Option<u32>,
    /// The nodes that were below it.
    pub subtree: Seq<u32>,
    /// The run's inputs.
    pub p: Params,
    /// Messages sent.
    pub lease_msgs: u64,
    /// Messages sent between data centres.
    pub cross_lease_msgs: u64,
    /// Requests admitted per tick, cluster-wide.
    pub admitted_by_tick: Seq<u64>,
    /// Requests throttled per tick, cluster-wide.
    pub throttled_by_tick: Seq<u64>,
    /// Requests admitted this tick.
    pub admitted_this_tick: u64,
    /// Requests throttled this tick.
    pub throttled_this_tick: u64,
    /// Depth of the tree per tick.
    pub depth_by_tick: Seq<u16>,
    /// What the watched subtree admitted and offered per tick.
    pub subtree_flow: Seq<(u64, u64)>,
}

impl NodeView {
    /// In the cluster and up.
    pub open spec fn active(self) -> bool {
        self.member && self.up
    }

    /// The node takes the one the verdict is about to be what the verdict says; a node has no view
    /// of itself.
    pub open spec fn heard(self, verdict: Event) -> bool {
        match verdict {
            Event::Down(id) => self.id == id || self.known_down.contains(id),
            Event::Up(id) => self.id == id || !self.known_down.contains(id),
            _ => true,
        }
    }

    /// The node after a failure detector's verdict on `id` reached it.
    pub open spec fn told(self, id: u32, down: bool) -> Self {
        NodeView {
            known_down: if down {
                self.known_down.insert(id)
            } else {
                self.known_down.remove(id)
            },
            ..self
        }
    }
}

/// A fresh member: up, holding the view it was given, with nobody known down.
pub open spec fn fresh_node(id: u32, dcs: u8, leader: u32, term: u64) -> NodeView {
    NodeView {
        id,
        dc: dc_of_id(id, dcs),
        member: true,
        up: true,
        seen_leader: leader,
        seen_term: term,
        known_down: Set::empty(),
        offered: 0,
        admitted: 0,
    }
}

/// The data centre of a node.
pub open spec fn dc_of_id(id: u32, dcs: u8) -> u8 {
    (id % (dcs as u32)) as u8
}

/// The ids of the nodes, in node order.
pub open spec fn ids(nodes: Seq<NodeView>) -> Seq<u32> {
    nodes.map_values(|n: NodeView| n.id)
}

/// The place of the first node with this id.
pub open spec fn find(nodes: Seq<NodeView>, id: u32) -> Option<int> {
    ids(nodes).index_of_first(id)
}

/// Whether a node is active and is not `id`.
pub open spec fn active_and_not(id: u32) -> spec_fn(NodeView) -> bool {
    |n: NodeView| n.active() && n.id != id
}

/// Whether a node is active.
pub open spec fn is_active() -> spec_fn(NodeView) -> bool {
    |n: NodeView| n.active()
}

/// The id of the first node that `f` lets through, or `otherwise` where there is none.
pub open spec fn first_id(
    nodes: Seq<NodeView>,
    f: spec_fn(NodeView) -> bool,
    otherwise: u32,
) -> u32 {
    if nodes.filter(f).len() > 0 {
        nodes.filter(f)[0].id
    } else {
        otherwise
    }
}

/// The largest id, or zero where there is no node.
pub open spec fn max_id(nodes: Seq<NodeView>) -> u32
    decreases nodes.len(),
{
    if nodes.len() == 0 {
        0
    } else {
        let front = max_id(nodes.drop_last());
        if nodes.last().id >= front {
            nodes.last().id
        } else {
            front
        }
    }
}

/// Nodes that will be told of the leader: every member, the leader at once, the others after
/// the delay and a random tick more. One number is drawn for each member.
pub open spec fn scheduled(
    nodes: Seq<NodeView>,
    leader: u32,
    now: u64,
    delay: u64,
    rng: Rng,
) -> Seq<Timed<u32>>
    decreases nodes.len(),
{
    if nodes.len() == 0 {
        Seq::empty()
    } else {
        let front = nodes.drop_last();
        let before = scheduled(front, leader, now, delay, rng);
        let last = nodes.last();
        if last.member {
            let jitter = rng.after(before.len()).peek() % 2;
            let due = if last.id == leader {
                now
            } else {
                (now + delay + jitter) as u64
            };
            before.push(Timed { due, what: last.id })
        } else {
            before
        }
    }
}

/// The events of this tick, in the order they were given.
pub open spec fn events_at(events: Seq<(u64, Event)>, now: u64) -> Seq<Event> {
    events.filter(|e: (u64, Event)| e.0 == now).map_values(|e: (u64, Event)| e.1)
}

impl<M> WorldView<M> {
    /// The world that a run starts with.
    pub open spec fn start(p: Params) -> Self {
        WorldView {
            nodes: Seq::new(p.nodes as nat, |i: int| fresh_node(i as u32, p.dcs, 0, 1)),
            leader: 0,
            term: 1,
            net: Seq::empty(),
            views: Seq::empty(),
            verdicts: Seq::empty(),
            inbox: Seq::empty(),
            due_views: Seq::empty(),
            due_verdicts: Seq::empty(),
            phase: Phase::Rest,
            rng: Rng { state: p.seed },
            now: 0,
            mid: None,
            subtree: Seq::empty(),
            p,
            lease_msgs: 0,
            cross_lease_msgs: 0,
            admitted_by_tick: Seq::empty(),
            throttled_by_tick: Seq::empty(),
            admitted_this_tick: 0,
            throttled_this_tick: 0,
            depth_by_tick: Seq::empty(),
            subtree_flow: Seq::empty(),
        }
    }

    /// What holds of every world: ids are unique, no node holds a view from a later term,
    /// messages between data centres are among the messages, what is counted for the cluster
    /// this tick is what is counted for its nodes, every tick measured is measured in full, and a
    /// verdict on its way through the nodes has reached those it has passed.
    pub open spec fn sound(self) -> bool {
        &&& ids(self.nodes).no_duplicates()
        &&& forall|i: int|
            0 <= i < self.nodes.len() ==> (#[trigger] self.nodes[i]).seen_term <= self.term
        &&& self.cross_lease_msgs <= self.lease_msgs
        &&& self.admitted_this_tick == total(self.nodes, admitted_by())
        &&& self.admitted_this_tick + self.throttled_this_tick == total(self.nodes, offered_by())
        &&& self.admitted_by_tick.len() == self.throttled_by_tick.len()
        &&& self.admitted_by_tick.len() == self.depth_by_tick.len()
        &&& self.phase matches Phase::Clock(i) ==> i < self.nodes.len()
        &&& self.phase matches Phase::Verdicts(i) ==> self.told_up_to(i as int)
        &&& self.p.dcs > 0
    }

    /// The verdict that is being given has reached the active nodes before `i`.
    pub open spec fn told_up_to(self, i: int) -> bool {
        self.due_verdicts.len() > 0 ==> forall|j: int|
            0 <= j < i && j < self.nodes.len() && (#[trigger] self.nodes[j]).active()
                ==> self.nodes[j].heard(self.due_verdicts[0].what)
    }

    /// The world after the leader's view was sent out to every member.
    pub open spec fn views_scheduled(self) -> Self {
        let told = scheduled(self.nodes, self.leader, self.now, self.p.view_delay, self.rng);
        WorldView { views: self.views + told, rng: self.rng.after(told.len()), ..self }
    }

    /// The world after `next` took over as leader, in a new term.
    pub open spec fn led_by(self, next: u32) -> Self {
        WorldView { term: (self.term + 1) as u64, leader: next, ..self }.views_scheduled()
    }

    /// The world after the node at `i` went down or came up.
    pub open spec fn with_up(self, i: int, up: bool) -> Self {
        WorldView { nodes: self.nodes.update(i, NodeView { up, ..self.nodes[i] }), ..self }
    }

    /// The world after `id` went down (or came up): the failure detector's verdict is on its
    /// way, and a node that came up will be told of the leader like any other. If the leader is
    /// not active after this, the first active node takes over.
    pub open spec fn liveness(self, id: u32, up: bool) -> Self {
        match find(self.nodes, id) {
            None => self,
            Some(i) => {
                let e = if up {
                    Event::Up(id)
                } else {
                    Event::Down(id)
                };
                let w = self.with_up(i, up);
                let told = WorldView {
                    verdicts: w.verdicts.push(
                        Timed { due: (w.now + w.p.fd_delay) as u64, what: e },
                    ),
                    views: if up {
                        w.views.push(Timed { due: (w.now + w.p.view_delay) as u64, what: id })
                    } else {
                        w.views
                    },
                    ..w
                };
                if w.leader == id && !w.nodes[i].active() {
                    told.led_by(first_id(told.nodes, is_active(), id))
                } else {
                    told
                }
            },
        }
    }

    /// The world after a fresh node joined.
    pub open spec fn joined(self) -> Self {
        let id = (max_id(self.nodes) + 1) as u32;
        WorldView {
            nodes: self.nodes.push(fresh_node(id, self.p.dcs, self.leader, self.term)),
            ..self
        }.views_scheduled()
    }

    /// `after` is the world after one event, with `parents` the lease parent of each node.
    pub open spec fn event_leads_to(
        self,
        e: Event,
        parents: Seq<Option<u32>>,
        after: Self,
    ) -> bool {
        match e {
            Event::Leader => after == self.led_by(
                first_id(self.nodes, active_and_not(self.leader), self.leader),
            ),
            Event::Join => after == self.joined(),
            Event::Down(id) => after == self.liveness(id, false),
            Event::Up(id) => after == self.liveness(id, true),
            Event::PickMidTree => if exists|i: int| #[trigger]
                tree::is_pick(self.nodes, parents, self.leader, i) {
                exists|i: int|
                    {
                        &&& #[trigger] tree::is_pick(self.nodes, parents, self.leader, i)
                        &&& after.mid == Some(self.nodes[i].id)
                        &&& after.subtree.no_duplicates()
                        &&& after.subtree.to_set() == tree::subtree_of(
                            self.nodes,
                            parents,
                            self.nodes[i].id,
                        )
                        &&& after == (WorldView { mid: after.mid, subtree: after.subtree, ..self })
                    }
            } else {
                after == self
            },
            Event::DownMidTree => match self.mid {
                Some(id) => after == self.liveness(id, false),
                None => after == self,
            },
            Event::UpMidTree => match self.mid {
                Some(id) => after == self.liveness(id, true),
                None => after == self,
            },
        }
    }

    /// `after` is the world after all of `events`, first to last.
    pub open spec fn events_lead_to(
        self,
        events: Seq<Event>,
        parents: Seq<Option<u32>>,
        after: Self,
    ) -> bool
        decreases events.len(),
    {
        if events.len() == 0 {
            after == self
        } else {
            exists|mid: Self|
                #![trigger mid.event_leads_to(events.last(), parents, after)]
                self.events_lead_to(events.drop_last(), parents, mid) && mid.event_leads_to(
                    events.last(),
                    parents,
                    after,
                )
        }
    }

    /// The clocks, terms and ids of a tick with `events` events in it do not overflow.
    pub open spec fn has_headroom(self, events: nat) -> bool {
        &&& self.now + self.p.view_delay + 1 <= u64::MAX
        &&& self.now + self.p.fd_delay <= u64::MAX
        &&& self.term + events <= u64::MAX
        &&& max_id(self.nodes) + events <= u32::MAX
    }

    /// The world at the next tick.
    pub open spec fn ticked(self) -> Self {
        WorldView { now: (self.now + 1) as u64, ..self }
    }

    /// `after` is the world once the next tick has begun.
    pub open spec fn begins_to(self, parents: Seq<Option<u32>>, after: Self) -> bool {
        exists|mid: Self|
            #![trigger mid.collected()]
            self.ticked().events_lead_to(
                events_at(self.p.events@, self.ticked().now),
                parents,
                mid,
            ) && after == mid.collected()
    }

    /// The world with what is due this tick set apart.
    pub open spec fn collected(self) -> Self {
        WorldView {
            due_views: queue::due_by(self.views, self.now),
            views: queue::due_after(self.views, self.now),
            due_verdicts: queue::due_by(self.verdicts, self.now),
            verdicts: queue::due_after(self.verdicts, self.now),
            phase: Phase::Views,
            ..self
        }
    }

    /// The world with the messages that are due set apart.
    pub open spec fn mail_collected(self) -> Self {
        WorldView {
            inbox: queue::due_by(self.net, self.now),
            net: queue::due_after(self.net, self.now),
            phase: Phase::Mail,
            ..self
        }
    }

    /// The world after the node at `i` was told of the leader.
    pub open spec fn seen_by(self, i: int) -> Self {
        WorldView {
            nodes: self.nodes.update(
                i,
                NodeView { seen_leader: self.leader, seen_term: self.term, ..self.nodes[i] },
            ),
            ..self
        }
    }

    /// The world after a verdict on `id` reached the node at `i`.
    pub open spec fn told(self, i: int, id: u32, down: bool) -> Self {
        WorldView { nodes: self.nodes.update(i, self.nodes[i].told(id, down)), ..self }
    }

    /// `step` is what the world does next, and `after` is the world it leaves.
    pub open spec fn steps_to(self, step: Step<M>, after: Self) -> bool {
        match self.phase {
            Phase::Rest => step is Begin && after == self,
            Phase::Views => if self.due_views.len() == 0 {
                step is Quiet && after == (WorldView { phase: Phase::Verdicts(0), ..self })
            } else {
                let rest = WorldView { due_views: self.due_views.drop_first(), ..self };
                match find(self.nodes, self.due_views[0].what) {
                    Some(i) => step == Step::<M>::View(i as usize) && after == rest.seen_by(i),
                    None => step is Quiet && after == rest,
                }
            },
            Phase::Verdicts(i) => if self.due_verdicts.len() == 0 {
                step is Quiet && after == self.mail_collected()
            } else {
                let given = WorldView {
                    due_verdicts: self.due_verdicts.drop_first(),
                    phase: Phase::Verdicts(0),
                    ..self
                };
                let on = WorldView { phase: Phase::Verdicts((i + 1) as usize), ..self };
                match self.due_verdicts[0].what {
                    Event::Down(id) => if i >= self.nodes.len() {
                        step is Quiet && after == given
                    } else if self.nodes[i as int].active() && self.nodes[i as int].id != id {
                        step == Step::<M>::Down(i, id) && after == on.told(i as int, id, true)
                    } else {
                        step is Quiet && after == on
                    },
                    Event::Up(id) => if i >= self.nodes.len() {
                        step is Quiet && after == given
                    } else if self.nodes[i as int].active() && self.nodes[i as int].id != id {
                        step == Step::<M>::Up(i, id) && after == on.told(i as int, id, false)
                    } else {
                        step is Quiet && after == on
                    },
                    _ => step is Quiet && after == given,
                }
            },
            Phase::Mail => if self.inbox.len() == 0 {
                step is Quiet && after == (WorldView { phase: Phase::Work(0), ..self })
            } else {
                let letter = self.inbox[0].what;
                &&& after == (WorldView { inbox: self.inbox.drop_first(), ..self })
                &&& match find(self.nodes, letter.dst) {
                    Some(i) => if self.nodes[i].active() {
                        step matches Step::Message(at, from, msg) && at == i && from
                            == letter.from && msg == letter.msg
                    } else {
                        step is Quiet
                    },
                    None => step is Quiet,
                }
            },
            Phase::Work(i) => if i >= self.nodes.len() {
                step is Quiet && after == (WorldView { phase: Phase::Measure, ..self })
            } else if !self.nodes[i as int].member {
                step is Quiet && after == (WorldView {
                    phase: Phase::Work((i + 1) as usize),
                    ..self
                })
            } else {
                &&& after == (WorldView { phase: Phase::Clock(i), ..self })
                &&& if self.nodes[i as int].up {
                    step == Step::<M>::Load(i)
                } else {
                    step is Quiet
                }
            },
            Phase::Clock(i) => {
                &&& step == Step::<M>::Tick(i)
                &&& after == (WorldView { phase: Phase::Work((i + 1) as usize), ..self })
            },
            Phase::Measure => step is Measure && after == self,
        }
    }

    /// The world after `from` sent `msg` to `dst`.
    pub open spec fn sent(self, from: u32, dst: u32, msg: M) -> Self {
        let cross = self.nodes[find(self.nodes, from).unwrap()].dc != self.nodes[find(
            self.nodes,
            dst,
        ).unwrap()].dc;
        let latency = if cross {
            self.p.cross_latency
        } else {
            self.p.latency
        };
        let counted = WorldView {
            lease_msgs: (self.lease_msgs + 1) as u64,
            cross_lease_msgs: if cross {
                (self.cross_lease_msgs + 1) as u64
            } else {
                self.cross_lease_msgs
            },
            rng: self.rng.skip(),
            ..self
        };
        if self.rng.peek_part() >= self.p.loss {
            WorldView {
                net: self.net.push(
                    Timed { due: (self.now + latency) as u64, what: Envelope { dst, from, msg } },
                ),
                ..counted
            }
        } else {
            counted
        }
    }

    /// The world after `from` sent all of `calls`, first to last.
    pub open spec fn sent_all(self, from: u32, calls: Seq<(u32, M)>) -> Self
        decreases calls.len(),
    {
        if calls.len() == 0 {
            self
        } else {
            self.sent_all(from, calls.drop_last()).sent(from, calls.last().0, calls.last().1)
        }
    }

    /// The world after the lease machine at `i` had `calls` ready: sent if its node is active, and
    /// dropped if it is not.
    pub open spec fn pumped(self, i: int, calls: Seq<(u32, M)>) -> Self {
        if self.nodes[i].active() {
            self.sent_all(self.nodes[i].id, calls)
        } else {
            self
        }
    }

    /// The world after the node at `i` admitted `admitted` of what it offers in a tick.
    pub open spec fn load_recorded(self, i: int, admitted: u64) -> Self {
        let n = self.nodes[i];
        WorldView {
            nodes: self.nodes.update(
                i,
                NodeView {
                    offered: (n.offered + self.p.offered) as u64,
                    admitted: (n.admitted + admitted) as u64,
                    ..n
                },
            ),
            admitted_this_tick: (self.admitted_this_tick + admitted) as u64,
            throttled_this_tick: (self.throttled_this_tick + (self.p.offered - admitted)) as u64,
            ..self
        }
    }

    /// What the nodes of the watched subtree offered this tick.
    pub open spec fn subtree_offered(self) -> nat {
        total(self.nodes, of_those(self.subtree, offered_by()))
    }

    /// What of it was admitted.
    pub open spec fn subtree_admitted(self) -> nat {
        total(self.nodes, of_those(self.subtree, admitted_by()))
    }

    /// The world after the tick was measured: the totals are on record, and every node starts
    /// the next tick with none.
    pub open spec fn measured(self, parents: Seq<Option<u32>>) -> Self {
        WorldView {
            admitted_by_tick: self.admitted_by_tick.push(self.admitted_this_tick),
            throttled_by_tick: self.throttled_by_tick.push(self.throttled_this_tick),
            admitted_this_tick: 0,
            throttled_this_tick: 0,
            depth_by_tick: self.depth_by_tick.push(
                tree::max_depth(self.nodes, parents, self.leader, self.nodes.len() as int) as u16,
            ),
            subtree_flow: if self.mid is Some {
                self.subtree_flow.push(
                    (self.subtree_admitted() as u64, self.subtree_offered() as u64),
                )
            } else {
                self.subtree_flow
            },
            nodes: self.nodes.map_values(idle()),
            phase: Phase::Rest,
            ..self
        }
    }

    /// The members that the node at `i` takes to be online, with their data centres.
    pub open spec fn members_seen(self, i: int) -> Seq<(u32, u8)> {
        self.nodes.filter(not_known_down(self.nodes[i].known_down)).map_values(id_and_dc())
    }

    /// The active nodes, with their data centres.
    pub open spec fn active_members(self) -> Seq<(u32, u8)> {
        self.nodes.filter(is_active()).map_values(id_and_dc())
    }
}

/// Whether a node is a member that `down` does not name.
pub open spec fn not_known_down(down: Set<u32>) -> spec_fn(NodeView) -> bool {
    |n: NodeView| n.member && !down.contains(n.id)
}

/// A node's id and its data centre.
pub open spec fn id_and_dc() -> spec_fn(NodeView) -> (u32, u8) {
    |n: NodeView| (n.id, n.dc)
}

/// What a node offered this tick.
pub open spec fn offered_by() -> spec_fn(NodeView) -> nat {
    |n: NodeView| n.offered as nat
}

/// What of it was admitted.
pub open spec fn admitted_by() -> spec_fn(NodeView) -> nat {
    |n: NodeView| n.admitted as nat
}

/// What `f` says of the nodes that `which` names, and zero of the others.
pub open spec fn of_those(
    which: Seq<u32>,
    f: spec_fn(NodeView) -> nat,
) -> spec_fn(NodeView) -> nat {
    |n: NodeView|
        if which.contains(n.id) {
            f(n)
        } else {
            0
        }
}

/// The sum of `f` over the nodes.
pub open spec fn total(nodes: Seq<NodeView>, f: spec_fn(NodeView) -> nat) -> nat
    decreases nodes.len(),
{
    if nodes.len() == 0 {
        0
    } else {
        total(nodes.drop_last(), f) + f(nodes.last())
    }
}

/// A node with nothing offered yet.
pub open spec fn idle() -> spec_fn(NodeView) -> NodeView {
    |n: NodeView| NodeView { offered: 0, admitted: 0, ..n }
}

impl View for Node {
    type V = NodeView;

    closed spec fn view(&self) -> NodeView {
        NodeView {
            id: self.id,
            dc: self.dc,
            member: self.member,
            up: self.up,
            seen_leader: self.seen_leader,
            seen_term: self.seen_term,
            known_down: self.known_down@,
            offered: self.offered,
            admitted: self.admitted,
        }
    }
}

impl<M> View for World<M> {
    type V = WorldView<M>;

    closed spec fn view(&self) -> WorldView<M> {
        WorldView {
            nodes: self.nodes@.map_values(|n: Node| n@),
            leader: self.leader,
            term: self.term,
            net: self.net@,
            views: self.views@,
            verdicts: self.verdicts@,
            inbox: self.inbox@,
            due_views: self.due_views@,
            due_verdicts: self.due_verdicts@,
            phase: self.phase,
            rng: self.rng,
            now: self.now,
            mid: self.mid,
            subtree: self.subtree@,
            p: self.p,
            lease_msgs: self.lease_msgs,
            cross_lease_msgs: self.cross_lease_msgs,
            admitted_by_tick: self.admitted_by_tick@,
            throttled_by_tick: self.throttled_by_tick@,
            admitted_this_tick: self.admitted_this_tick,
            throttled_this_tick: self.throttled_this_tick,
            depth_by_tick: self.depth_by_tick@,
            subtree_flow: self.subtree_flow@,
        }
    }
}

impl Node {
    /// In the cluster and up.
    #[must_use]
    fn active(&self) -> (yes: bool)
        ensures
            yes == self@.active(),
    {
        self.member && self.up
    }
}

impl<M> World<M> {
    /// The place of the first node with this id.
    #[must_use]
    pub fn idx(&self, id: u32) -> (place: Option<usize>)
        ensures
            match place {
                Some(i) => find(self@.nodes, id) == Some(i as int) && i < self@.nodes.len(),
                None => find(self@.nodes, id) is None,
            },
    {
        proof {
            ids(self@.nodes).index_of_first_ensures(id);
        }
        let mut i: usize = 0;
        while i < self.nodes.len()
            invariant
                i <= self.nodes@.len(),
                forall|j: int| 0 <= j < i ==> #[trigger] ids(self@.nodes)[j] != id,
            decreases self.nodes.len() - i,
        {
            if self.nodes[i].id == id {
                proof {
                    ids(self@.nodes).index_of_first_ensures(id);
                    assert(ids(self@.nodes)[i as int] == id);
                }
                return Some(i);
            }
            i += 1;
        }
        None
    }
}

impl<M> World<M> {
    /// A fresh member.
    fn fresh(id: u32, dcs: u8, leader: u32, term: u64) -> (node: Node)
        requires
            dcs > 0,
        ensures
            node@ == fresh_node(id, dcs, leader, term),
    {
        Node {
            id,
            dc: (id % (dcs as u32)) as u8,
            member: true,
            up: true,
            seen_leader: leader,
            seen_term: term,
            known_down: BTreeSet::new(),
            offered: 0,
            admitted: 0,
        }
    }

    /// A world of fresh nodes `0..p.nodes` under leader `0`, in term one. Every node is still to
    /// be brought in line with the view it holds.
    #[must_use]
    pub fn new(p: Params) -> (world: Self)
        requires
            p.dcs > 0,
        ensures
            world@.sound(),
            world@ == WorldView::<M>::start(p),
    {
        let mut nodes: Vec<Node> = Vec::new();
        let mut id: u32 = 0;
        while id < p.nodes
            invariant
                p.dcs > 0,
                id <= p.nodes,
                nodes@.len() == id,
                forall|i: int|
                    0 <= i < id ==> (#[trigger] nodes@[i])@ == fresh_node(i as u32, p.dcs, 0, 1),
            decreases p.nodes - id,
        {
            nodes.push(Self::fresh(id, p.dcs, 0, 1));
            id += 1;
        }
        let world = World {
            nodes,
            leader: 0,
            term: 1,
            net: Vec::new(),
            views: Vec::new(),
            verdicts: Vec::new(),
            inbox: VecDeque::new(),
            due_views: VecDeque::new(),
            due_verdicts: VecDeque::new(),
            phase: Phase::Rest,
            rng: Rng::new(p.seed),
            now: 0,
            mid: None,
            subtree: Vec::new(),
            p,
            lease_msgs: 0,
            cross_lease_msgs: 0,
            admitted_by_tick: Vec::new(),
            throttled_by_tick: Vec::new(),
            admitted_this_tick: 0,
            throttled_this_tick: 0,
            depth_by_tick: Vec::new(),
            subtree_flow: Vec::new(),
        };
        proof {
            assert(world@ =~= WorldView::<M>::start(p));
            laws::lemma_start_is_sound::<M>(p);
        }
        world
    }

    /// Sends `msg` from one node to another: counts it, and puts it on the network unless it is
    /// lost.
    pub fn send(&mut self, from: u32, dst: u32, msg: M)
        requires
            old(self)@.sound(),
            find(old(self)@.nodes, from) is Some,
            find(old(self)@.nodes, dst) is Some,
            old(self)@.lease_msgs < u64::MAX,
            old(self)@.now + old(self)@.p.latency <= u64::MAX,
            old(self)@.now + old(self)@.p.cross_latency <= u64::MAX,
        ensures
            final(self)@.sound(),
            final(self)@ == old(self)@.sent(from, dst, msg),
    {
        let (Some(a), Some(b)) = (self.idx(from), self.idx(dst)) else { return  };
        proof {
            assert(self@.nodes[a as int] == self.nodes@[a as int]@);
            assert(self@.nodes[b as int] == self.nodes@[b as int]@);
        }
        let cross: bool = self.nodes[a].dc != self.nodes[b].dc;
        self.lease_msgs = self.lease_msgs + 1;
        if cross {
            self.cross_lease_msgs = self.cross_lease_msgs + 1;
        }
        if self.rng.delivers(self.p.loss) {
            let latency: u64 = if cross {
                self.p.cross_latency
            } else {
                self.p.latency
            };
            self.net.push(
                Timed { due: self.now + latency, what: Envelope { dst, from, msg } },
            );
        }
        proof {
            assert(self@ =~= old(self)@.sent(from, dst, msg));
        }
    }

    /// Sends what the lease machine at `i` has ready, a message for each peer named; drops it if
    /// the node is not active.
    pub fn pump(&mut self, i: usize, calls: Vec<(u32, M)>)
        requires
            old(self)@.sound(),
            i < old(self)@.nodes.len(),
            old(self)@.nodes[i as int].active() ==> {
                &&& forall|k: int|
                    0 <= k < calls@.len() ==> find(
                        old(self)@.nodes,
                        (#[trigger] calls@[k]).0,
                    ) is Some
                &&& old(self)@.lease_msgs + calls@.len() <= u64::MAX
                &&& old(self)@.now + old(self)@.p.latency <= u64::MAX
                &&& old(self)@.now + old(self)@.p.cross_latency <= u64::MAX
            },
        ensures
            final(self)@.sound(),
            final(self)@ == old(self)@.pumped(i as int, calls@),
    {
        let ghost w = self@;
        let ghost all = calls@;
        let from: u32 = self.nodes[i].id;
        proof {
            assert(w.nodes[i as int] == self.nodes@[i as int]@);
            tree::lemma_found_by_id(w.nodes, i as int);
        }
        if !self.nodes[i].active() {
            return ;
        }
        for call in it: calls
            invariant
                it.seq() == all,
                self@.sound(),
                forall|k: int|
                    0 <= k < all.len() ==> find(w.nodes, (#[trigger] all[k]).0) is Some,
                find(w.nodes, from) is Some,
                w.lease_msgs + all.len() <= u64::MAX,
                w.now + w.p.latency <= u64::MAX,
                w.now + w.p.cross_latency <= u64::MAX,
                self@.nodes == w.nodes,
                self@.now == w.now,
                self@.p == w.p,
                self@.lease_msgs == w.lease_msgs + it.index(),
                self@ == w.sent_all(from, all.take(it.index())),
        {
            proof {
                assert(all.take(it.index() + 1).drop_last() =~= all.take(it.index()));
                assert(all.take(it.index() + 1).last() == all[it.index()]);
                assert(find(w.nodes, all[it.index()].0) is Some);
            }
            let (dst, msg) = call;
            self.send(from, dst, msg);
        }
        proof {
            assert(all.take(all.len() as int) =~= all);
        }
    }

    /// Sends the leader's view out to every member.
    fn schedule_views(&mut self)
        requires
            old(self)@.now + old(self)@.p.view_delay + 1 <= u64::MAX,
        ensures
            final(self)@ == old(self)@.views_scheduled(),
    {
        let ghost w = self@;
        let ghost told = |i: int|
            scheduled(w.nodes.take(i), w.leader, w.now, w.p.view_delay, w.rng);
        let mut i: usize = 0;
        proof {
            assert(w.nodes.take(0) =~= Seq::empty());
            assert(w.views + told(0) =~= w.views);
        }
        while i < self.nodes.len()
            invariant
                told == (|i: int|
                    scheduled(w.nodes.take(i), w.leader, w.now, w.p.view_delay, w.rng)),
                i <= w.nodes.len(),
                w.nodes.len() == self.nodes@.len(),
                w.now + w.p.view_delay + 1 <= u64::MAX,
                self@ == (WorldView {
                    views: w.views + told(i as int),
                    rng: w.rng.after(told(i as int).len()),
                    ..w
                }),
            decreases self.nodes.len() - i,
        {
            proof {
                assert(w.nodes.take(i + 1).drop_last() =~= w.nodes.take(i as int));
                assert(w.nodes.take(i + 1).last() == self.nodes@[i as int]@);
                w.rng.lemma_one_more(told(i as int).len());
            }
            if self.nodes[i].member {
                let id: u32 = self.nodes[i].id;
                let jitter: u64 = self.rng.below(2) as u64;
                let due: u64 = if id == self.leader {
                    self.now
                } else {
                    self.now + self.p.view_delay + jitter
                };
                self.views.push(Timed { due, what: id });
                proof {
                    assert(self.views@ =~= w.views + told(i + 1));
                }
            }
            i += 1;
        }
        proof {
            assert(w.nodes.take(i as int) =~= w.nodes);
        }
    }

    /// The id of the first node that is active and is not `apart`, or `otherwise` where there is
    /// none. With no `apart`, the first active node.
    fn first_active(&self, apart: Option<u32>, otherwise: u32) -> (id: u32)
        ensures
            id == first_id(
                self@.nodes,
                match apart {
                    Some(apart) => active_and_not(apart),
                    None => is_active(),
                },
                otherwise,
            ),
    {
        let ghost f = match apart {
            Some(apart) => active_and_not(apart),
            None => is_active(),
        };
        let mut i: usize = 0;
        proof {
            reveal(Seq::filter);
            assert(self@.nodes.take(0) =~= Seq::empty());
        }
        while i < self.nodes.len()
            invariant
                f == (match apart {
                    Some(apart) => active_and_not(apart),
                    None => is_active(),
                }),
                i <= self.nodes@.len(),
                self@.nodes.take(i as int).filter(f) =~= Seq::empty(),
            decreases self.nodes.len() - i,
        {
            proof {
                reveal(Seq::filter);
                let upto = self@.nodes.take(i + 1);
                assert(upto.drop_last() =~= self@.nodes.take(i as int));
                assert(upto.last() == self.nodes@[i as int]@);
            }
            let other: bool = match apart {
                Some(apart) => self.nodes[i].id != apart,
                None => true,
            };
            if self.nodes[i].active() && other {
                proof {
                    queue::lemma_filter_prefix(self@.nodes, f, i + 1);
                    let through = self@.nodes.filter(f);
                    assert(through[0] == through.take(1)[0]);
                }
                return self.nodes[i].id;
            }
            i += 1;
        }
        proof {
            assert(self@.nodes.take(i as int) =~= self@.nodes);
        }
        otherwise
    }

    /// Makes `next` the leader, in a new term.
    fn lead(&mut self, next: u32)
        requires
            old(self)@.now + old(self)@.p.view_delay + 1 <= u64::MAX,
            old(self)@.term < u64::MAX,
        ensures
            final(self)@ == old(self)@.led_by(next),
    {
        self.term = self.term + 1;
        self.leader = next;
        proof {
            assert(self@ =~= (WorldView {
                term: (old(self)@.term + 1) as u64,
                leader: next,
                ..old(self)@
            }));
        }
        self.schedule_views();
    }

    /// Takes `id` down, or brings it up.
    fn liveness(&mut self, id: u32, up: bool)
        requires
            old(self)@.has_headroom(1),
        ensures
            final(self)@ == old(self)@.liveness(id, up),
    {
        let Some(i) = self.idx(id) else { return  };
        let ghost w = self@;
        self.nodes[i].up = up;
        proof {
            assert(self@.nodes =~= w.with_up(i as int, up).nodes);
        }
        let verdict: Event = if up {
            Event::Up(id)
        } else {
            Event::Down(id)
        };
        self.verdicts.push(Timed { due: self.now + self.p.fd_delay, what: verdict });
        if up {
            // Back up with a stale view: the leader's word reaches it like any other node's.
            self.views.push(Timed { due: self.now + self.p.view_delay, what: id });
        }
        proof {
            assert(self@.nodes[i as int] == self.nodes@[i as int]@);
        }
        let ghost told = WorldView {
            verdicts: w.verdicts.push(
                Timed { due: (w.now + w.p.fd_delay) as u64, what: verdict },
            ),
            views: if up {
                w.views.push(Timed { due: (w.now + w.p.view_delay) as u64, what: id })
            } else {
                w.views
            },
            ..w.with_up(i as int, up)
        };
        proof {
            assert(self@ =~= told);
        }
        if self.leader == id && !self.nodes[i].active() {
            let next: u32 = self.first_active(None, id);
            self.lead(next);
        }
    }

    /// The largest id there is.
    fn largest_id(&self) -> (largest: u32)
        ensures
            largest == max_id(self@.nodes),
    {
        let mut largest: u32 = 0;
        let mut i: usize = 0;
        while i < self.nodes.len()
            invariant
                i <= self.nodes@.len(),
                largest == max_id(self@.nodes.take(i as int)),
            decreases self.nodes.len() - i,
        {
            proof {
                let upto = self@.nodes.take(i + 1);
                assert(upto.drop_last() =~= self@.nodes.take(i as int));
                assert(upto.last() == self.nodes@[i as int]@);
            }
            if self.nodes[i].id >= largest {
                largest = self.nodes[i].id;
            }
            i += 1;
        }
        proof {
            assert(self@.nodes.take(i as int) =~= self@.nodes);
        }
        largest
    }

    /// Lets one event happen.
    fn apply_event(&mut self, e: Event, parents: &[Option<u32>])
        requires
            old(self)@.sound(),
            old(self)@.phase is Rest,
            old(self)@.has_headroom(1),
        ensures
            old(self)@.event_leads_to(e, parents@, final(self)@),
            final(self)@.sound(),
    {
        match e {
            Event::Leader => {
                let next: u32 = self.first_active(Some(self.leader), self.leader);
                self.lead(next);
            },
            Event::Join => {
                let id: u32 = self.largest_id() + 1;
                let node = Self::fresh(id, self.p.dcs, self.leader, self.term);
                self.nodes.push(node);
                proof {
                    let w = old(self)@;
                    assert(self@ =~= (WorldView {
                        nodes: w.nodes.push(fresh_node(id, w.p.dcs, w.leader, w.term)),
                        ..w
                    }));
                }
                self.schedule_views();
            },
            Event::Down(id) => {
                self.liveness(id, false);
            },
            Event::Up(id) => {
                self.liveness(id, true);
            },
            Event::PickMidTree => {
                if let Some(id) = self.mid_tree(parents) {
                    self.subtree = self.descendants(parents, id);
                    self.mid = Some(id);
                    proof {
                        assert(self@ =~= (WorldView {
                            mid: self@.mid,
                            subtree: self@.subtree,
                            ..old(self)@
                        }));
                    }
                }
            },
            Event::DownMidTree => {
                if let Some(id) = self.mid {
                    self.liveness(id, false);
                }
            },
            Event::UpMidTree => {
                if let Some(id) = self.mid {
                    self.liveness(id, true);
                }
            },
        }
        proof {
            laws::law_an_event_keeps_the_world_sound(old(self)@, e, parents@, self@);
        }
    }

    /// Lets happen what the run has for this tick, in the order it was given.
    fn apply_events(&mut self, parents: &[Option<u32>])
        requires
            old(self)@.sound(),
            old(self)@.phase is Rest,
            old(self)@.has_headroom(events_at(old(self)@.p.events@, old(self)@.now).len()),
        ensures
            old(self)@.events_lead_to(
                events_at(old(self)@.p.events@, old(self)@.now),
                parents@,
                final(self)@,
            ),
            final(self)@.sound(),
            laws::same_but_for_the_cluster(old(self)@, final(self)@),
    {
        let ghost w = self@;
        let ghost all = w.p.events@;
        let mut k: usize = 0;
        proof {
            reveal(Seq::filter);
            assert(all.take(0) =~= Seq::empty());
            assert(events_at(all.take(0), w.now) =~= Seq::empty());
        }
        while k < self.p.events.len()
            invariant
                w.sound(),
                w.phase is Rest,
                all == w.p.events@,
                w.has_headroom(events_at(all, w.now).len()),
                k <= all.len(),
                self@.sound(),
                laws::same_but_for_the_cluster(w, self@),
                w.events_lead_to(events_at(all.take(k as int), w.now), parents@, self@),
            decreases all.len() - k,
        {
            let ghost before = self@;
            let ghost sofar = events_at(all.take(k as int), w.now);
            let ghost more = events_at(all.take(k + 1), w.now);
            proof {
                lemma_events_prefix(all, w.now, k + 1);
                lemma_events_prefix(all, w.now, k as int);
                laws::law_events_keep_the_world_sound(w, sofar, parents@, before);
                lemma_one_more_event(all, w.now, k as int);
            }
            let (at, e) = self.p.events[k];
            if at == self.now {
                self.apply_event(e, parents);
                proof {
                    laws::law_an_event_keeps_the_world_sound(before, e, parents@, self@);
                    assert(more.drop_last() =~= sofar);
                    assert(before.event_leads_to(more.last(), parents@, self@));
                }
            }
            k += 1;
        }
        proof {
            assert(all.take(k as int) =~= all);
        }
    }

    /// Begins the next tick: the clock moves on, what the run has for the tick happens, and what
    /// is due this tick is set apart. `parents` has the lease parent of each node, in node order.
    pub fn begin(&mut self, parents: &[Option<u32>])
        requires
            old(self)@.sound(),
            old(self)@.phase is Rest,
            old(self)@.now < u64::MAX,
            old(self)@.ticked().has_headroom(
                events_at(old(self)@.p.events@, old(self)@.ticked().now).len(),
            ),
        ensures
            old(self)@.begins_to(parents@, final(self)@),
            final(self)@.sound(),
    {
        self.now = self.now + 1;
        proof {
            assert(self@ =~= old(self)@.ticked());
        }
        self.apply_events(parents);
        let ghost mid = self@;
        self.due_views = take_due(&mut self.views, self.now);
        self.due_verdicts = take_due(&mut self.verdicts, self.now);
        self.phase = Phase::Views;
        proof {
            assert(self@ =~= mid.collected());
        }
    }

    /// What is to be done next. Ask again once it is done.
    pub fn step(&mut self) -> (step: Step<M>)
        requires
            old(self)@.sound(),
        ensures
            old(self)@.steps_to(step, final(self)@),
            final(self)@.sound(),
    {
        let step = self.advance();
        proof {
            laws::law_a_step_keeps_the_world_sound(old(self)@, step, self@);
        }
        step
    }

    /// Takes the next step.
    fn advance(&mut self) -> (step: Step<M>)
        requires
            old(self)@.sound(),
        ensures
            old(self)@.steps_to(step, final(self)@),
    {
        match self.phase {
            Phase::Rest => Step::Begin,
            Phase::Views => match self.due_views.pop_front() {
                None => {
                    self.phase = Phase::Verdicts(0);
                    Step::Quiet
                },
                Some(due) => {
                    let ghost rest = self@;
                    proof {
                        assert(rest.due_views =~= old(self)@.due_views.drop_first());
                        assert(rest =~= (WorldView { due_views: rest.due_views, ..old(self)@ }));
                    }
                    match self.idx(due.what) {
                        Some(i) => {
                            self.nodes[i].seen_leader = self.leader;
                            self.nodes[i].seen_term = self.term;
                            proof {
                                assert(self@.nodes =~= rest.seen_by(i as int).nodes);
                                assert(self@ =~= rest.seen_by(i as int));
                            }
                            Step::View(i)
                        },
                        None => Step::Quiet,
                    }
                },
            },
            Phase::Verdicts(i) => self.give_verdict(i),
            Phase::Mail => match self.inbox.pop_front() {
                None => {
                    self.phase = Phase::Work(0);
                    Step::Quiet
                },
                Some(letter) => {
                    proof {
                        assert(self@.inbox =~= old(self)@.inbox.drop_first());
                        assert(self@ =~= (WorldView { inbox: self@.inbox, ..old(self)@ }));
                    }
                    match self.idx(letter.what.dst) {
                        Some(i) => {
                            proof {
                                assert(self@.nodes[i as int] == self.nodes@[i as int]@);
                            }
                            if self.nodes[i].active() {
                                Step::Message(i, letter.what.from, letter.what.msg)
                            } else {
                                Step::Quiet
                            }
                        },
                        None => Step::Quiet,
                    }
                },
            },
            Phase::Work(i) => {
                if i >= self.nodes.len() {
                    self.phase = Phase::Measure;
                    return Step::Quiet;
                }
                proof {
                    assert(self@.nodes[i as int] == self.nodes@[i as int]@);
                }
                if !self.nodes[i].member {
                    self.phase = Phase::Work(i + 1);
                    return Step::Quiet;
                }
                self.phase = Phase::Clock(i);
                if self.nodes[i].up {
                    Step::Load(i)
                } else {
                    Step::Quiet
                }
            },
            Phase::Clock(i) => {
                assert(i < self.nodes.len());
                self.phase = Phase::Work(i + 1);
                Step::Tick(i)
            },
            Phase::Measure => Step::Measure,
        }
    }

    /// The failure detector's verdict reaches the node at `i`, if it is active: the view it holds
    /// changes, and so may its place.
    fn give_verdict(&mut self, i: usize) -> (step: Step<M>)
        requires
            old(self)@.phase == Phase::Verdicts(i),
        ensures
            old(self)@.steps_to(step, final(self)@),
    {
        if self.due_verdicts.len() == 0 {
            self.inbox = take_due(&mut self.net, self.now);
            self.phase = Phase::Mail;
            proof {
                assert(self@ =~= old(self)@.mail_collected());
            }
            return Step::Quiet;
        }
        let told: Option<(u32, bool)> = match self.due_verdicts[0].what {
            Event::Down(id) => Some((id, true)),
            Event::Up(id) => Some((id, false)),
            _ => None,
        };
        if let Some((id, down)) = told {
            if i < self.nodes.len() {
                self.phase = Phase::Verdicts(i + 1);
                let ghost on = self@;
                proof {
                    assert(on =~= (WorldView {
                        phase: Phase::Verdicts((i + 1) as usize),
                        ..old(self)@
                    }));
                    assert(self@.nodes[i as int] == self.nodes@[i as int]@);
                }
                if !self.nodes[i].active() || self.nodes[i].id == id {
                    return Step::Quiet;
                }
                if down {
                    self.nodes[i].known_down.insert(id);
                } else {
                    self.nodes[i].known_down.remove(&id);
                }
                proof {
                    assert(self@.nodes =~= on.told(i as int, id, down).nodes);
                    assert(self@ =~= on.told(i as int, id, down));
                }
                return if down {
                    Step::Down(i, id)
                } else {
                    Step::Up(i, id)
                };
            }
        }
        self.due_verdicts.pop_front();
        self.phase = Phase::Verdicts(0);
        proof {
            assert(self@.due_verdicts =~= old(self)@.due_verdicts.drop_first());
        }
        Step::Quiet
    }

    /// Counts the load at the node at `i`: of what a node offers in a tick, `admitted` was
    /// admitted, and the rest throttled.
    pub fn record_load(&mut self, i: usize, admitted: u64)
        requires
            old(self)@.sound(),
            i < old(self)@.nodes.len(),
            admitted <= old(self)@.p.offered,
            old(self)@.nodes[i as int].offered + old(self)@.p.offered <= u64::MAX,
            old(self)@.admitted_this_tick + admitted <= u64::MAX,
            old(self)@.throttled_this_tick + (old(self)@.p.offered - admitted) <= u64::MAX,
        ensures
            final(self)@ == old(self)@.load_recorded(i as int, admitted),
            final(self)@.sound(),
    {
        let offered: u64 = self.p.offered;
        proof {
            assert(self@.nodes[i as int] == self.nodes@[i as int]@);
            laws::lemma_part_of_total(self@.nodes, i as int, admitted_by());
            laws::law_every_request_is_admitted_or_throttled(self@, i as int, admitted);
        }
        self.nodes[i].offered = self.nodes[i].offered + offered;
        self.nodes[i].admitted = self.nodes[i].admitted + admitted;
        self.admitted_this_tick = self.admitted_this_tick + admitted;
        self.throttled_this_tick = self.throttled_this_tick + (offered - admitted);
        proof {
            assert(self@.nodes =~= old(self)@.load_recorded(i as int, admitted).nodes);
            assert(self@ =~= old(self)@.load_recorded(i as int, admitted));
        }
    }

    /// What the nodes of the watched subtree admitted this tick, and what they offered.
    fn subtree_load(&self) -> (load: (u64, u64))
        requires
            self@.sound(),
            self@.subtree_offered() <= u64::MAX,
        ensures
            load.0 == self@.subtree_admitted(),
            load.1 == self@.subtree_offered(),
    {
        let ghost nodes = self@.nodes;
        let ghost o = of_those(self@.subtree, offered_by());
        let ghost a = of_those(self@.subtree, admitted_by());
        let mut offered: u64 = 0;
        let mut admitted: u64 = 0;
        proof {
            laws::lemma_some_of_total(nodes, self@.subtree, admitted_by());
        }
        let mut i: usize = 0;
        while i < self.nodes.len()
            invariant
                nodes == self@.nodes,
                o == of_those(self@.subtree, offered_by()),
                a == of_those(self@.subtree, admitted_by()),
                i <= self.nodes@.len(),
                total(nodes, o) <= u64::MAX,
                total(nodes, a) <= u64::MAX,
                offered == total(nodes.take(i as int), o),
                admitted == total(nodes.take(i as int), a),
            decreases self.nodes.len() - i,
        {
            proof {
                assert(nodes.take(i + 1).drop_last() =~= nodes.take(i as int));
                assert(nodes.take(i + 1).last() == self.nodes@[i as int]@);
                laws::lemma_total_grows(nodes, i + 1, o);
                laws::lemma_total_grows(nodes, i + 1, a);
            }
            if holds(&self.subtree, self.nodes[i].id) {
                offered = offered + self.nodes[i].offered;
                admitted = admitted + self.nodes[i].admitted;
            }
            i += 1;
        }
        proof {
            assert(nodes.take(i as int) =~= nodes);
        }
        (admitted, offered)
    }

    /// Measures the tick and ends it: puts on record what was admitted and throttled, how deep
    /// the tree is, and what flowed to the watched subtree. `parents` has the lease parent of
    /// each node, in node order.
    pub fn measure(&mut self, parents: &[Option<u32>])
        requires
            old(self)@.sound(),
            old(self)@.phase is Measure,
            tree::max_depth(
                old(self)@.nodes,
                parents@,
                old(self)@.leader,
                old(self)@.nodes.len() as int,
            ) <= u16::MAX,
            old(self)@.mid is Some ==> old(self)@.subtree_offered() <= u64::MAX,
        ensures
            final(self)@ == old(self)@.measured(parents@),
            final(self)@.sound(),
    {
        proof {
            laws::law_a_tick_is_measured_in_full(self@, parents@);
        }
        let depth: u16 = self.depth(parents);
        if self.mid.is_some() {
            let load: (u64, u64) = self.subtree_load();
            self.subtree_flow.push(load);
        }
        self.admitted_by_tick.push(self.admitted_this_tick);
        self.throttled_by_tick.push(self.throttled_this_tick);
        self.depth_by_tick.push(depth);
        self.admitted_this_tick = 0;
        self.throttled_this_tick = 0;
        self.phase = Phase::Rest;
        let ghost nodes = self@.nodes;
        let ghost rest = self@;
        let mut i: usize = 0;
        while i < self.nodes.len()
            invariant
                i <= self.nodes@.len(),
                self.nodes@.len() == nodes.len(),
                forall|j: int| 0 <= j < i ==> (#[trigger] self.nodes@[j])@ == idle()(nodes[j]),
                forall|j: int| i <= j < nodes.len() ==> (#[trigger] self.nodes@[j])@ == nodes[j],
                self@ == (WorldView { nodes: self@.nodes, ..rest }),
            decreases self.nodes.len() - i,
        {
            self.nodes[i].offered = 0;
            self.nodes[i].admitted = 0;
            i += 1;
        }
        proof {
            assert(self@.nodes =~= nodes.map_values(idle()));
            assert(self@ =~= old(self)@.measured(parents@));
        }
    }

    /// The view the node at `i` holds: the members it takes to be online, with their data
    /// centres; the leader; and the term.
    #[must_use]
    pub fn view_at(&self, i: usize) -> (view: (Vec<(u32, u8)>, u32, u64))
        requires
            i < self@.nodes.len(),
        ensures
            view.0@ == self@.members_seen(i as int),
            view.1 == self@.nodes[i as int].seen_leader,
            view.2 == self@.nodes[i as int].seen_term,
    {
        let ghost nodes = self@.nodes;
        let ghost f = not_known_down(nodes[i as int].known_down);
        let mut members: Vec<(u32, u8)> = Vec::new();
        let mut k: usize = 0;
        proof {
            assert(nodes[i as int] == self.nodes@[i as int]@);
            reveal(Seq::filter);
            assert(nodes.take(0) =~= Seq::empty());
            assert(members@ =~= nodes.take(0).filter(f).map_values(id_and_dc()));
        }
        while k < self.nodes.len()
            invariant
                nodes == self@.nodes,
                f == not_known_down(nodes[i as int].known_down),
                i < self.nodes@.len(),
                k <= self.nodes@.len(),
                nodes[i as int] == self.nodes@[i as int]@,
                members@ == nodes.take(k as int).filter(f).map_values(id_and_dc()),
            decreases self.nodes.len() - k,
        {
            proof {
                reveal(Seq::filter);
                assert(nodes.take(k + 1).drop_last() =~= nodes.take(k as int));
                assert(nodes.take(k + 1).last() == self.nodes@[k as int]@);
            }
            let n = &self.nodes[k];
            if n.member && !self.nodes[i].known_down.contains(&n.id) {
                members.push((n.id, n.dc));
            }
            k += 1;
            proof {
                assert(members@ =~= nodes.take(k as int).filter(f).map_values(id_and_dc()));
            }
        }
        proof {
            assert(nodes.take(k as int) =~= nodes);
        }
        (members, self.nodes[i].seen_leader, self.nodes[i].seen_term)
    }

    /// The active nodes, with their data centres: the members of the true view.
    #[must_use]
    pub fn active_members(&self) -> (members: Vec<(u32, u8)>)
        ensures
            members@ == self@.active_members(),
    {
        let ghost nodes = self@.nodes;
        let mut members: Vec<(u32, u8)> = Vec::new();
        let mut k: usize = 0;
        proof {
            reveal(Seq::filter);
            assert(nodes.take(0) =~= Seq::empty());
            assert(members@ =~= nodes.take(0).filter(is_active()).map_values(id_and_dc()));
        }
        while k < self.nodes.len()
            invariant
                nodes == self@.nodes,
                k <= self.nodes@.len(),
                members@ == nodes.take(k as int).filter(is_active()).map_values(id_and_dc()),
            decreases self.nodes.len() - k,
        {
            proof {
                reveal(Seq::filter);
                assert(nodes.take(k + 1).drop_last() =~= nodes.take(k as int));
                assert(nodes.take(k + 1).last() == self.nodes@[k as int]@);
            }
            if self.nodes[k].active() {
                members.push((self.nodes[k].id, self.nodes[k].dc));
            }
            k += 1;
            proof {
                assert(members@ =~= nodes.take(k as int).filter(is_active()).map_values(
                    id_and_dc(),
                ));
            }
        }
        proof {
            assert(nodes.take(k as int) =~= nodes);
        }
        members
    }

    /// How many nodes there have ever been.
    #[must_use]
    pub fn len(&self) -> (n: usize)
        ensures
            n == self@.nodes.len(),
    {
        self.nodes.len()
    }

    /// The id of the node at `i`.
    #[must_use]
    pub fn id_at(&self, i: usize) -> (id: u32)
        requires
            i < self@.nodes.len(),
        ensures
            id == self@.nodes[i as int].id,
    {
        self.nodes[i].id
    }

    /// Whether the node at `i` is in the cluster and up.
    #[must_use]
    pub fn is_active(&self, i: usize) -> (yes: bool)
        requires
            i < self@.nodes.len(),
        ensures
            yes == self@.nodes[i as int].active(),
    {
        self.nodes[i].active()
    }

    /// The leader.
    #[must_use]
    pub fn leader(&self) -> (leader: u32)
        ensures
            leader == self@.leader,
    {
        self.leader
    }

    /// The leader's term.
    #[must_use]
    pub fn term(&self) -> (term: u64)
        ensures
            term == self@.term,
    {
        self.term
    }

    /// The tick.
    #[must_use]
    pub fn now(&self) -> (now: u64)
        ensures
            now == self@.now,
    {
        self.now
    }

    /// Whether all ticks of the run have begun.
    #[must_use]
    pub fn is_over(&self) -> (over: bool)
        ensures
            over == (self@.now >= self@.p.rounds),
    {
        self.now >= self.p.rounds
    }

    /// The run's inputs.
    #[must_use]
    pub fn params(&self) -> (p: &Params)
        ensures
            *p == self@.p,
    {
        &self.p
    }

    /// The node that is watched, if one was picked.
    #[must_use]
    pub fn watched(&self) -> (mid: Option<u32>)
        ensures
            mid == self@.mid,
    {
        self.mid
    }

    /// Messages sent, and how many of them between data centres.
    #[must_use]
    pub fn messages(&self) -> (sent: (u64, u64))
        ensures
            sent.0 == self@.lease_msgs,
            sent.1 == self@.cross_lease_msgs,
            self@.sound() ==> sent.1 <= sent.0,
    {
        (self.lease_msgs, self.cross_lease_msgs)
    }

    /// How deep the tree was at each tick.
    #[must_use]
    pub fn depth_by_tick(&self) -> (depths: &[u16])
        ensures
            depths@ == self@.depth_by_tick,
    {
        &self.depth_by_tick
    }

    /// What the watched subtree admitted and offered at each tick since it was picked.
    #[must_use]
    pub fn subtree_flow(&self) -> (flow: &[(u64, u64)])
        ensures
            flow@ == self@.subtree_flow,
    {
        &self.subtree_flow
    }
}

/// The events of a tick, one more of the run's events seen.
proof fn lemma_one_more_event(all: Seq<(u64, Event)>, now: u64, k: int)
    requires
        0 <= k < all.len(),
    ensures
        events_at(all.take(k + 1), now) == if all[k].0 == now {
            events_at(all.take(k), now).push(all[k].1)
        } else {
            events_at(all.take(k), now)
        },
{
    reveal(Seq::filter);
    assert(all.take(k + 1).drop_last() =~= all.take(k));
    assert(all.take(k + 1).last() == all[k]);
    assert(events_at(all.take(k + 1), now) =~= if all[k].0 == now {
        events_at(all.take(k), now).push(all[k].1)
    } else {
        events_at(all.take(k), now)
    });
}

/// Fewer of the run's events hold no more for a tick.
proof fn lemma_events_prefix(all: Seq<(u64, Event)>, now: u64, k: int)
    requires
        0 <= k <= all.len(),
    ensures
        events_at(all.take(k), now).len() <= events_at(all, now).len(),
    decreases all.len() - k,
{
    if k == all.len() {
        assert(all.take(k) =~= all);
    } else {
        lemma_one_more_event(all, now, k);
        lemma_events_prefix(all, now, k + 1);
    }
}

} // verus!
