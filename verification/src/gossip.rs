//! A cluster of escrow counters that gossip their usage over a lossy network.
//!
//! Every node acquires quota against the rights the governor has lent it, and broadcasts its
//! usage as a report over a broadcast tree; its peers merge what reaches them. The tree is not
//! here. A [`World`] decides what happens next and says so as a [`Step`]; whoever drives it puts
//! the step to the node's tree and hands the tree's answer back to [`World::run`]. The network
//! drops a set share of the messages, and a run can change the governor and add or remove a node
//! partway through.
//!
//! Two things are of interest: **enforcement**, that the true total usage never exceeds the
//! quota's ceiling, and **convergence**, that once the load stops every live node's view of the
//! global usage comes to agree with the truth.

use std::collections::VecDeque;

use vstd::prelude::*;

use crate::escrow::{self, Escrow, EscrowView};
use crate::gossip_laws;
use crate::ledger;
use crate::queue::{self, take_due, Timed};
use crate::quota::{LocalQuota, Quota};
use crate::rng::Rng;
use crate::slots;
use crate::wire::{self, decode, encode};

verus! {

/// A run's inputs.
#[derive(Clone, Copy, Debug, PartialEq, Eq)]
pub struct Params {
    /// Nodes at the start.
    pub nodes: u32,
    /// The limit to enforce.
    pub limit: u64,
    /// The overshoot tolerated on top of it.
    pub delta: u64,
    /// How much a node asks the governor for when it is short.
    pub chunk: u64,
    /// Eager peers of a fresh node.
    pub fanout: usize,
    /// The share of messages lost, in parts of [`PARTS`](crate::rng::PARTS).
    pub loss: u64,
    /// Rounds a message is under way.
    pub latency: u64,
    /// Every node broadcasts its usage each time this many rounds have passed.
    pub gossip_every: u64,
    /// What each node acquires in a round with load.
    pub load_amount: u64,
    /// The last round with load.
    pub load_until: u64,
    /// Rounds in the run.
    pub rounds: u64,
    /// Move the governor to a new node at this round.
    pub change_governor_at: Option<u64>,
    /// Kill a node at this round.
    pub kill_at: Option<(u64, u32)>,
    /// Add a fresh node at this round.
    pub join_at: Option<u64>,
    /// Where the random numbers start.
    pub seed: u64,
}

/// A message on its way from one node to another.
#[derive(Debug, PartialEq, Eq)]
pub struct Envelope<M> {
    /// Who it is for.
    pub dst: u32,
    /// Who sent it.
    pub from: u32,
    /// What it says.
    pub msg: M,
}

/// What a node's tree asks for.
pub enum Action<M> {
    /// Send a message to a peer.
    Send(u32, M),
    /// Hand a payload to the node.
    Deliver(Vec<u8>),
}

/// The peers a fresh node's tree starts with.
#[derive(Debug, PartialEq, Eq)]
pub struct Peers {
    /// The node.
    pub me: u32,
    /// Peers that get every message.
    pub eager: Vec<u32>,
    /// Peers that hear of every message.
    pub lazy: Vec<u32>,
}

/// Where in a round the world is.
#[derive(Clone, Copy, Debug, PartialEq, Eq, Structural)]
pub enum Phase {
    /// Between two rounds.
    Rest,
    /// Handing out the messages that are due.
    Deliver,
    /// Load and gossip, at this node.
    Load(usize),
    /// Letting the trees see the clock, at this node.
    Tick(usize),
}

/// What is to be done next.
pub enum Step<M> {
    /// A round begins. Every live tree is to be told of the node that left, if one did; then, if
    /// a node joined, it needs a tree with these peers, and every other live tree is to be told
    /// of it.
    Round(Option<u32>, Option<Peers>),
    /// The tree at this place gets a message from a peer.
    OnMessage(usize, u32, M),
    /// The tree at this place is to broadcast a payload.
    Broadcast(usize, Vec<u8>),
    /// The tree at this place is to see the clock.
    Tick(usize),
    /// Nothing; ask again.
    Quiet,
    /// The run is over.
    Finished,
}

/// A node: its usage, and whether it is up.
pub struct Node {
    id: u32,
    usage: Escrow<u32>,
    alive: bool,
}

/// The cluster, its network and its clock.
pub struct World<M> {
    nodes: Vec<Node>,
    quota: LocalQuota<u32>,
    governor: u32,
    net: Vec<Timed<Envelope<M>>>,
    inbox: VecDeque<Timed<Envelope<M>>>,
    phase: Phase,
    rng: Rng,
    now: u64,
    true_total: u64,
    p: Params,
    sent: Ghost<Set<Seq<u8>>>,
}

/// What a [`Node`] is.
pub struct NodeView {
    /// Its id.
    pub id: u32,
    /// Its usage counter.
    pub usage: EscrowView<u32>,
    /// Whether it is up.
    pub alive: bool,
}

/// What [`Peers`] are.
#[verifier::ext_equal]
pub struct PeersView {
    /// The node.
    pub me: u32,
    /// Peers that get every message.
    pub eager: Seq<u32>,
    /// Peers that hear of every message.
    pub lazy: Seq<u32>,
}

/// What a [`World`] is.
#[verifier::ext_equal]
#[verifier::reject_recursive_types(M)]
pub struct WorldView<M> {
    /// The nodes, in the order they came.
    pub nodes: Seq<NodeView>,
    /// The most the governor lends.
    pub ceiling: u64,
    /// What the governor has lent to each node.
    pub book: Map<u32, u64>,
    /// The node that governs.
    pub governor: u32,
    /// Messages under way.
    pub net: Seq<Timed<Envelope<M>>>,
    /// Messages that are due this round and not handed out yet.
    pub inbox: Seq<Timed<Envelope<M>>>,
    /// Where in the round the world is.
    pub phase: Phase,
    /// Where the random numbers stand.
    pub rng: Rng,
    /// The round.
    pub now: u64,
    /// Everything acquired, over all nodes.
    pub true_total: u64,
    /// The run's inputs.
    pub p: Params,
    /// Every payload broadcast so far.
    pub sent: Set<Seq<u8>>,
}

/// The ids of the nodes, in node order.
pub open spec fn ids(nodes: Seq<NodeView>) -> Seq<u32> {
    nodes.map_values(|n: NodeView| n.id)
}

/// The place of the first node with this id.
pub open spec fn find(nodes: Seq<NodeView>, id: u32) -> Option<int> {
    ids(nodes).index_of_first(id)
}

/// The ids of the nodes that are up.
pub open spec fn live_ids(nodes: Seq<NodeView>) -> Seq<u32> {
    ids(nodes.filter(|n: NodeView| n.alive))
}

/// Whether a node is up and is not `id`.
pub open spec fn up_and_not(id: u32) -> spec_fn(NodeView) -> bool {
    |n: NodeView| n.alive && n.id != id
}

/// The first live node other than `id`, or `id` where there is none.
pub open spec fn live_after(nodes: Seq<NodeView>, id: u32) -> u32 {
    let others = nodes.filter(up_and_not(id));
    if others.len() > 0 {
        others[0].id
    } else {
        id
    }
}

/// The largest id, or zero where there is no node.
pub open spec fn max_id(nodes: Seq<NodeView>) -> u32
    decreases nodes.len(),
{
    if nodes.len() == 0 {
        0
    } else {
        let front = max_id(nodes.drop_last());
        if nodes.last().id >= front {
            nodes.last().id
        } else {
            front
        }
    }
}

/// `s` with the items at `i` and `j` exchanged.
pub open spec fn swapped(s: Seq<u32>, i: int, j: int) -> Seq<u32> {
    s.update(i, s[j]).update(j, s[i])
}

/// `s` shuffled in place from item `i` down, each item exchanged with a random one at or before
/// it.
pub open spec fn shuffled(s: Seq<u32>, rng: Rng, i: int) -> Seq<u32>
    decreases i,
{
    if i < 1 {
        s
    } else {
        shuffled(swapped(s, i, (rng.peek() % (i + 1) as u64) as int), rng.skip(), i - 1)
    }
}

/// How many numbers it takes to shuffle `n` items.
pub open spec fn shuffle_draws(n: nat) -> nat {
    if n == 0 {
        0
    } else {
        (n - 1) as nat
    }
}

/// The nodes of `others` that are not `me`.
pub open spec fn peers_of(me: u32, others: Seq<u32>) -> Seq<u32> {
    others.filter(|p: u32| p != me)
}

/// The peers of a fresh node: the others shuffled, the first `fanout` of them eager.
pub open spec fn dealt(me: u32, others: Seq<u32>, fanout: usize, rng: Rng) -> PeersView {
    let all = peers_of(me, others);
    let mixed = shuffled(all, rng, all.len() - 1);
    let cut = if fanout <= all.len() {
        fanout as int
    } else {
        all.len() as int
    };
    PeersView { me, eager: mixed.take(cut), lazy: mixed.skip(cut) }
}

/// The generator once a fresh node's peers have been dealt.
pub open spec fn rng_after_deal(me: u32, others: Seq<u32>, rng: Rng) -> Rng {
    rng.after(shuffle_draws(peers_of(me, others).len()))
}

/// The generator once the peers of nodes `0..n` of `others` have been dealt, one by one.
pub open spec fn rng_after_deals(n: nat, others: Seq<u32>, rng: Rng) -> Rng
    decreases n,
{
    if n == 0 {
        rng
    } else {
        rng_after_deal((n - 1) as u32, others, rng_after_deals((n - 1) as nat, others, rng))
    }
}

impl<M> WorldView<M> {
    /// When a message sent now is due.
    pub open spec fn arrival(self) -> u64 {
        (self.now + self.p.latency) as u64
    }

    /// The world after the node at `i` carried out one action.
    pub open spec fn run_one(self, i: int, action: Action<M>) -> Self {
        match action {
            Action::Send(dst, msg) => {
                let drawn = WorldView { rng: self.rng.skip(), ..self };
                if self.rng.peek_part() >= self.p.loss {
                    let letter = Envelope { dst, from: self.nodes[i].id, msg };
                    WorldView {
                        net: self.net.push(Timed { due: self.arrival(), what: letter }),
                        ..drawn
                    }
                } else {
                    drawn
                }
            },
            Action::Deliver(payload) => self.with_usage(
                i,
                EscrowView {
                    slots: escrow::absorb(self.nodes[i].usage.slots, wire::report_of(payload@)),
                    ..self.nodes[i].usage
                },
            ),
        }
    }

    /// The world after the node at `i` carried out `actions`, first to last.
    pub open spec fn run_all(self, i: int, actions: Seq<Action<M>>) -> Self
        decreases actions.len(),
    {
        if actions.len() == 0 {
            self
        } else {
            self.run_all(i, actions.drop_last()).run_one(i, actions.last())
        }
    }

    /// The world after `node_id` carried out `actions`; nothing happens where no node has that
    /// id.
    pub open spec fn run(self, node_id: u32, actions: Seq<Action<M>>) -> Self {
        match find(self.nodes, node_id) {
            Some(i) => self.run_all(i, actions),
            None => self,
        }
    }

    /// The world with another usage counter at `i`.
    pub open spec fn with_usage(self, i: int, usage: EscrowView<u32>) -> Self {
        WorldView { nodes: self.nodes.update(i, NodeView { usage, ..self.nodes[i] }), ..self }
    }

    /// What the governor lends the node at `i` before a load: a chunk if the node is short, or
    /// what is left if that is less.
    pub open spec fn top_up(self, i: int) -> u64 {
        if self.nodes[i].usage.room() < self.p.load_amount {
            if self.p.chunk <= ledger::unlent(self.book, self.ceiling) {
                self.p.chunk
            } else {
                ledger::unlent(self.book, self.ceiling) as u64
            }
        } else {
            0
        }
    }

    /// The node's counter once it has been topped up.
    pub open spec fn topped_up(self, i: int) -> EscrowView<u32> {
        self.nodes[i].usage.grant(self.top_up(i))
    }

    /// The world after the node at `i` was put under load: it draws a chunk if it is short, then
    /// acquires if it can.
    pub open spec fn offer_load(self, i: int) -> Self {
        let usage = self.topped_up(i);
        let taken = if usage.admits(self.p.load_amount) {
            self.p.load_amount as int
        } else {
            0
        };
        WorldView {
            book: ledger::lend(self.book, self.nodes[i].id, self.top_up(i)),
            true_total: (self.true_total + taken) as u64,
            ..self.with_usage(i, usage.offer(self.p.load_amount))
        }
    }

    /// No total overflows when the node at `i` is put under load.
    pub open spec fn load_fits(self, i: int) -> bool {
        &&& self.nodes[i].usage.granted + self.top_up(i) <= u64::MAX
        &&& self.topped_up(i).admits(self.p.load_amount) ==> {
            &&& self.nodes[i].usage.own().consumed + self.p.load_amount <= u64::MAX
            &&& self.true_total + self.p.load_amount <= u64::MAX
        }
    }

    /// The governor changes this round.
    pub open spec fn governor_changes(self) -> bool {
        self.p.change_governor_at == Some(self.now)
    }

    /// The node that is killed this round, if one is.
    pub open spec fn killed(self) -> Option<u32> {
        match self.p.kill_at {
            Some((at, victim)) => if at == self.now {
                Some(victim)
            } else {
                None
            },
            None => None,
        }
    }

    /// A node joins this round.
    pub open spec fn joins(self) -> bool {
        self.p.join_at == Some(self.now)
    }

    /// The world after a change of governor. What was lent stays lent: the book moves with the
    /// office.
    pub open spec fn after_governor(self) -> Self {
        if self.governor_changes() {
            WorldView { governor: live_after(self.nodes, self.governor), ..self }
        } else {
            self
        }
    }

    /// The world after a node was killed. If it governed, the first live node does now.
    pub open spec fn after_kill(self) -> Self {
        match self.killed() {
            Some(victim) => {
                let nodes = match find(self.nodes, victim) {
                    Some(i) => self.nodes.update(i, NodeView { alive: false, ..self.nodes[i] }),
                    None => self.nodes,
                };
                WorldView {
                    nodes,
                    governor: if self.governor == victim {
                        live_after(nodes, victim)
                    } else {
                        self.governor
                    },
                    ..self
                }
            },
            None => self,
        }
    }

    /// The peers of the node that joins.
    pub open spec fn joiner(self) -> PeersView {
        dealt(
            (max_id(self.nodes) + 1) as u32,
            live_ids(self.nodes),
            self.p.fanout,
            self.rng,
        )
    }

    /// The world after a node joined: a new id, no rights, no usage.
    pub open spec fn after_join(self) -> Self {
        if self.joins() {
            let id = (max_id(self.nodes) + 1) as u32;
            WorldView {
                nodes: self.nodes.push(
                    NodeView { id, usage: EscrowView::fresh(id, 0), alive: true },
                ),
                rng: rng_after_deal(id, live_ids(self.nodes), self.rng),
                ..self
            }
        } else {
            self
        }
    }

    /// The world with the clock moved on.
    pub open spec fn next_round(self) -> Self {
        WorldView { now: (self.now + 1) as u64, ..self }
    }

    /// The world with what is due taken off the network.
    pub open spec fn collect_due(self) -> Self {
        WorldView {
            inbox: queue::due_by(self.net, self.now),
            net: queue::due_after(self.net, self.now),
            phase: Phase::Deliver,
            ..self
        }
    }

    /// The world once a round has begun.
    pub open spec fn begin(self) -> Self {
        self.next_round().after_governor().after_kill().after_join().collect_due()
    }

    /// Every node broadcasts this round.
    pub open spec fn gossips(self) -> bool {
        if self.p.gossip_every == 0 {
            self.now == 0
        } else {
            self.now % self.p.gossip_every == 0
        }
    }

    /// The world once the load of this round, if there is one, was put on the node at `i`.
    pub open spec fn loaded(self, i: int) -> Self {
        if self.now <= self.p.load_until {
            self.offer_load(i)
        } else {
            self
        }
    }

    /// The next step can be taken without a total or an id overflowing.
    pub open spec fn can_step(self) -> bool {
        match self.phase {
            Phase::Rest => {
                let w = self.next_round().after_governor().after_kill();
                self.now < self.p.rounds && w.joins() ==> max_id(w.nodes) < u32::MAX
            },
            Phase::Load(i) => i < self.nodes.len() && self.nodes[i as int].alive && self.now
                <= self.p.load_until ==> self.load_fits(i as int),
            _ => true,
        }
    }

    /// `step` is what the world does next, and `after` is the world it leaves.
    pub open spec fn steps_to(self, step: Step<M>, after: Self) -> bool {
        match self.phase {
            Phase::Rest => if self.now >= self.p.rounds {
                step is Finished && after == self
            } else {
                let w = self.next_round().after_governor().after_kill();
                &&& step matches Step::Round(left, joined)
                &&& left == self.next_round().after_governor().killed()
                &&& match joined {
                    Some(peers) => w.joins() && peers@ == w.joiner(),
                    None => !w.joins(),
                }
                &&& after == self.begin()
            },
            Phase::Deliver => if self.inbox.len() == 0 {
                step is Quiet && after == (WorldView { phase: Phase::Load(0), ..self })
            } else {
                let letter = self.inbox[0].what;
                &&& after == (WorldView { inbox: self.inbox.drop_first(), ..self })
                &&& match find(self.nodes, letter.dst) {
                    Some(i) => if self.nodes[i].alive {
                        step matches Step::OnMessage(at, from, msg) && at == i && from
                            == letter.from && msg == letter.msg
                    } else {
                        step is Quiet
                    },
                    None => step is Quiet,
                }
            },
            Phase::Load(i) => if i >= self.nodes.len() {
                step is Quiet && after == (WorldView { phase: Phase::Tick(0), ..self })
            } else {
                let on = WorldView { phase: Phase::Load((i + 1) as usize), ..self };
                if !self.nodes[i as int].alive {
                    step is Quiet && after == on
                } else {
                    let w = on.loaded(i as int);
                    if self.gossips() {
                        &&& step matches Step::Broadcast(at, payload)
                        &&& at == i
                        &&& exists|report: Seq<wire::Line>|
                            escrow::reports(report, w.nodes[i as int].usage.slots) && payload@
                                == #[trigger] wire::bytes_of(report)
                        &&& after == (WorldView { sent: self.sent.insert(payload@), ..w })
                    } else {
                        step is Quiet && after == w
                    }
                }
            },
            Phase::Tick(i) => if i >= self.nodes.len() {
                step is Quiet && after == (WorldView { phase: Phase::Rest, ..self })
            } else {
                &&& after == (WorldView { phase: Phase::Tick((i + 1) as usize), ..self })
                &&& if self.nodes[i as int].alive {
                    step matches Step::Tick(at) && at == i
                } else {
                    step is Quiet
                }
            },
        }
    }

    /// Every live node's view of the global usage is the truth.
    pub open spec fn converged(self) -> bool {
        forall|i: int|
            0 <= i < self.nodes.len() && (#[trigger] self.nodes[i]).alive ==> slots::reading(
                self.nodes[i].usage.slots,
            ) == self.true_total
    }
}

/// Whether the node at a place is up and is not `apart`.
pub open spec fn up_and_apart(
    nodes: Seq<NodeView>,
    apart: Option<u32>,
) -> spec_fn(usize) -> bool {
    |i: usize| nodes[i as int].alive && apart != Some(nodes[i as int].id)
}

/// The places of the nodes that are up, that of `apart` left out.
pub open spec fn live_places(nodes: Seq<NodeView>, apart: Option<u32>) -> Seq<usize> {
    Seq::new(nodes.len(), |i: int| i as usize).filter(up_and_apart(nodes, apart))
}

impl View for Node {
    type V = NodeView;

    closed spec fn view(&self) -> NodeView {
        NodeView { id: self.id, usage: self.usage@, alive: self.alive }
    }
}

impl View for Peers {
    type V = PeersView;

    open spec fn view(&self) -> PeersView {
        PeersView { me: self.me, eager: self.eager@, lazy: self.lazy@ }
    }
}

impl<M> View for World<M> {
    type V = WorldView<M>;

    closed spec fn view(&self) -> WorldView<M> {
        WorldView {
            nodes: self.nodes@.map_values(|n: Node| n@),
            ceiling: self.quota.ceiling(),
            book: self.quota.book(),
            governor: self.governor,
            net: self.net@,
            inbox: self.inbox@,
            phase: self.phase,
            rng: self.rng,
            now: self.now,
            true_total: self.true_total,
            p: self.p,
            sent: self.sent@,
        }
    }
}

/// Deals a fresh node its peers: `fanout` random eager ones out of `others`, the rest lazy.
#[must_use]
pub fn fresh_peers(me: u32, others: &[u32], fanout: usize, rng: &mut Rng) -> (peers: Peers)
    ensures
        peers@ == dealt(me, others@, fanout, *old(rng)),
        *final(rng) == rng_after_deal(me, others@, *old(rng)),
{
    let mut all: Vec<u32> = Vec::new();
    let mut k: usize = 0;
    proof {
        reveal(Seq::filter);
    }
    while k < others.len()
        invariant
            k <= others@.len(),
            all@ == peers_of(me, others@.take(k as int)),
        decreases others.len() - k,
    {
        proof {
            reveal(Seq::filter);
            assert(others@.take(k + 1).drop_last() =~= others@.take(k as int));
        }
        if others[k] != me {
            all.push(others[k]);
        }
        k += 1;
    }
    proof {
        assert(others@.take(k as int) =~= others@);
    }
    let n: usize = all.len();
    let ghost first = *rng;
    let ghost start = all@;
    let mut i: usize = if n == 0 { 0 } else { n - 1 };
    while i >= 1
        invariant
            all@.len() == n,
            i < n || n == 0 && i == 0,
            shuffled(all@, *rng, i as int) == shuffled(start, first, n - 1),
            rng.after(i as nat) == first.after(shuffle_draws(n as nat)),
        decreases i,
    {
        let j: usize = rng.below(i + 1);
        let a: u32 = all[i];
        let b: u32 = all[j];
        all.set(i, b);
        all.set(j, a);
        i -= 1;
    }
    let cut: usize = if fanout <= n { fanout } else { n };
    let mut eager: Vec<u32> = Vec::new();
    let mut lazy: Vec<u32> = Vec::new();
    let mut i: usize = 0;
    while i < n
        invariant
            all@.len() == n,
            cut <= n,
            i <= n,
            eager@ == all@.take(if i <= cut { i as int } else { cut as int }),
            lazy@ == all@.subrange(if i <= cut { i as int } else { cut as int }, i as int),
        decreases n - i,
    {
        if i < cut {
            eager.push(all[i]);
        } else {
            lazy.push(all[i]);
        }
        i += 1;
        proof {
            assert(eager@ =~= all@.take(if i <= cut { i as int } else { cut as int }));
            assert(lazy@ =~= all@.subrange(
                if i <= cut {
                    i as int
                } else {
                    cut as int
                },
                i as int,
            ));
        }
    }
    proof {
        assert(all@ == shuffled(start, first, n - 1));
        assert(*rng == first.after(shuffle_draws(n as nat)));
        assert(lazy@ =~= all@.skip(cut as int));
    }
    Peers { me, eager, lazy }
}

/// A run with nothing to disturb it: sixteen nodes and a quota of a million, load for two hundred
/// rounds and then two hundred quiet ones. `loss` is the share of messages lost, in parts of
/// [`PARTS`](crate::rng::PARTS).
#[must_use]
pub fn base(loss: u64) -> (p: Params)
    ensures
        p == (Params {
            nodes: 16,
            limit: 1_000_000,
            delta: 0,
            chunk: 62_500,
            fanout: 3,
            loss,
            latency: 1,
            gossip_every: 4,
            load_amount: 50,
            load_until: 200,
            rounds: 400,
            change_governor_at: None,
            kill_at: None,
            join_at: None,
            seed: 0xB0A710,
        }),
{
    Params {
        nodes: 16,
        limit: 1_000_000,
        delta: 0,
        chunk: 1_000_000 / 16,
        fanout: 3,
        loss,
        latency: 1,
        gossip_every: 4,
        load_amount: 50,
        load_until: 200,
        rounds: 400,
        change_governor_at: None,
        kill_at: None,
        join_at: None,
        seed: 0xB0A710,
    }
}

/// How a table says whether something held.
#[must_use]
pub fn yesno(held: bool) -> (word: &'static str)
    ensures
        held ==> word@ == "yes"@,
        !held ==> word@ == "NO"@,
{
    if held {
        "yes"
    } else {
        "NO"
    }
}

/// Node ids `0..n`.
pub open spec fn first_ids(n: u32) -> Seq<u32> {
    Seq::new(n as nat, |i: int| i as u32)
}

impl<M> World<M> {
    /// The governor's book is in order.
    pub closed spec fn well_formed(&self) -> bool {
        self.quota.valid()
    }

    /// A world of fresh nodes `0..p.nodes` under governor `0`, and the peers each node's tree
    /// starts with.
    #[must_use]
    pub fn new(p: Params) -> (made: (Self, Vec<Peers>))
        requires
            p.limit + p.delta <= u64::MAX,
        ensures
            made.0.well_formed(),
            gossip_laws::sound(made.0@),
            made.0@ == (WorldView::<M> {
                nodes: Seq::new(
                    p.nodes as nat,
                    |i: int|
                        NodeView {
                            id: i as u32,
                            usage: EscrowView::fresh(i as u32, 0),
                            alive: true,
                        },
                ),
                ceiling: (p.limit + p.delta) as u64,
                book: Map::empty(),
                governor: 0,
                net: Seq::empty(),
                inbox: Seq::empty(),
                phase: Phase::Rest,
                rng: rng_after_deals(
                    p.nodes as nat,
                    first_ids(p.nodes),
                    Rng { state: p.seed },
                ),
                now: 0,
                true_total: 0,
                p,
                sent: Set::empty(),
            }),
            made.1@.len() == p.nodes,
            forall|i: int|
                0 <= i < p.nodes ==> (#[trigger] made.1@[i])@ == dealt(
                    i as u32,
                    first_ids(p.nodes),
                    p.fanout,
                    rng_after_deals(i as nat, first_ids(p.nodes), Rng { state: p.seed }),
                ),
    {
        let mut rng = Rng::new(p.seed);
        let ghost seed = rng;
        let mut ids: Vec<u32> = Vec::new();
        let mut id: u32 = 0;
        while id < p.nodes
            invariant
                id <= p.nodes,
                ids@ == first_ids(p.nodes).take(id as int),
            decreases p.nodes - id,
        {
            ids.push(id);
            proof {
                assert(ids@ =~= first_ids(p.nodes).take(id + 1));
            }
            id += 1;
        }
        proof {
            assert(ids@ =~= first_ids(p.nodes));
        }
        let mut nodes: Vec<Node> = Vec::new();
        let mut peers: Vec<Peers> = Vec::new();
        let mut id: u32 = 0;
        while id < p.nodes
            invariant
                id <= p.nodes,
                ids@ == first_ids(p.nodes),
                nodes@.len() == id,
                peers@.len() == id,
                rng == rng_after_deals(id as nat, first_ids(p.nodes), seed),
                forall|i: int|
                    0 <= i < id ==> (#[trigger] nodes@[i])@ == (NodeView {
                        id: i as u32,
                        usage: EscrowView::fresh(i as u32, 0),
                        alive: true,
                    }),
                forall|i: int|
                    0 <= i < id ==> (#[trigger] peers@[i])@ == dealt(
                        i as u32,
                        first_ids(p.nodes),
                        p.fanout,
                        rng_after_deals(i as nat, first_ids(p.nodes), seed),
                    ),
            decreases p.nodes - id,
        {
            peers.push(fresh_peers(id, &ids, p.fanout, &mut rng));
            nodes.push(Node { id, usage: Escrow::new(id, 0), alive: true });
            id += 1;
        }
        let world = World {
            nodes,
            quota: LocalQuota::new(p.limit + p.delta),
            governor: 0,
            net: Vec::new(),
            inbox: VecDeque::new(),
            phase: Phase::Rest,
            rng,
            now: 0,
            true_total: 0,
            p,
            sent: Ghost(Set::empty()),
        };
        proof {
            assert(world@.nodes =~= Seq::new(
                p.nodes as nat,
                |i: int|
                    NodeView { id: i as u32, usage: EscrowView::fresh(i as u32, 0), alive: true },
            ));
            gossip_laws::lemma_fresh_is_sound(world@);
        }
        (world, peers)
    }

    /// How many nodes there have ever been.
    #[must_use]
    pub fn len(&self) -> (n: usize)
        ensures
            n == self@.nodes.len(),
    {
        self.nodes.len()
    }

    /// The id of the node at `i`.
    #[must_use]
    pub fn id_at(&self, i: usize) -> (id: u32)
        requires
            i < self@.nodes.len(),
        ensures
            id == self@.nodes[i as int].id,
    {
        self.nodes[i].id
    }

    /// Whether the node at `i` is up.
    #[must_use]
    pub fn is_alive(&self, i: usize) -> (alive: bool)
        requires
            i < self@.nodes.len(),
        ensures
            alive == self@.nodes[i as int].alive,
    {
        self.nodes[i].alive
    }

    /// The round.
    #[must_use]
    pub fn now(&self) -> (now: u64)
        ensures
            now == self@.now,
    {
        self.now
    }

    /// The node that governs.
    #[must_use]
    pub fn governor(&self) -> (governor: u32)
        ensures
            governor == self@.governor,
    {
        self.governor
    }

    /// Everything acquired, over all nodes.
    #[must_use]
    pub fn true_total(&self) -> (total: u64)
        ensures
            total == self@.true_total,
    {
        self.true_total
    }

    /// The place of the first node with this id.
    #[must_use]
    pub fn idx(&self, id: u32) -> (place: Option<usize>)
        ensures
            match place {
                Some(i) => find(self@.nodes, id) == Some(i as int) && i < self@.nodes.len(),
                None => find(self@.nodes, id) is None,
            },
    {
        proof {
            ids(self@.nodes).index_of_first_ensures(id);
        }
        let mut i: usize = 0;
        while i < self.nodes.len()
            invariant
                i <= self.nodes@.len(),
                forall|j: int| 0 <= j < i ==> #[trigger] ids(self@.nodes)[j] != id,
            decreases self.nodes.len() - i,
        {
            if self.nodes[i].id == id {
                proof {
                    ids(self@.nodes).index_of_first_ensures(id);
                    assert(ids(self@.nodes)[i as int] == id);
                }
                return Some(i);
            }
            i += 1;
        }
        None
    }

    /// Run the actions a node's tree produced: put what it sends on the network, dropping some,
    /// and merge what it delivers.
    pub fn run(&mut self, node_id: u32, actions: Vec<Action<M>>)
        requires
            old(self).well_formed(),
            old(self)@.now + old(self)@.p.latency <= u64::MAX,
        ensures
            final(self).well_formed(),
            final(self)@ == old(self)@.run(node_id, actions@),
            gossip_laws::sound(old(self)@) && gossip_laws::delivers_only_broadcasts(
                old(self)@,
                actions@,
            ) ==> gossip_laws::sound(final(self)@),
    {
        proof {
            if gossip_laws::sound(self@) && gossip_laws::delivers_only_broadcasts(self@, actions@) {
                gossip_laws::law_delivering_broadcasts_keeps_the_world_sound(
                    self@,
                    node_id,
                    actions@,
                );
            }
        }
        let place = self.idx(node_id);
        let Some(i) = place else { return  };
        proof {
            ids(self@.nodes).index_of_first_ensures(node_id);
        }
        let ghost base = self@;
        let ghost all = actions@;
        for a in it: actions
            invariant
                it.seq() == all,
                self.well_formed(),
                i < self.nodes@.len(),
                base.now + base.p.latency <= u64::MAX,
                self@ == base.run_all(i as int, all.take(it.index())),
                self@.now == base.now,
                self@.p == base.p,
                self@.nodes[i as int].id == node_id,
        {
            let ghost before = self@;
            proof {
                assert(all.take(it.index() + 1).drop_last() =~= all.take(it.index()));
                assert(all.take(it.index() + 1).last() == all[it.index()]);
            }
            match a {
                Action::Send(dst, msg) => {
                    if self.rng.delivers(self.p.loss) {
                        self.net.push(
                            Timed {
                                due: self.now + self.p.latency,
                                what: Envelope { dst, from: node_id, msg },
                            },
                        );
                    }
                    proof {
                        assert(self@ =~= before.run_one(i as int, a));
                    }
                },
                Action::Deliver(payload) => {
                    let report = decode(&payload);
                    self.nodes[i].usage.apply(&report);
                    proof {
                        assert(self@ =~= before.run_one(i as int, a));
                    }
                },
            }
        }
        proof {
            assert(all.take(all.len() as int) =~= all);
        }
    }
}

impl<M> World<M> {
    /// A node draws a lease chunk from the governor if it is short, then acquires.
    fn offer_load(&mut self, i: usize)
        requires
            old(self).well_formed(),
            i < old(self)@.nodes.len(),
            old(self)@.load_fits(i as int),
        ensures
            final(self).well_formed(),
            final(self)@ == old(self)@.offer_load(i as int),
    {
        let amount: u64 = self.p.load_amount;
        if self.nodes[i].usage.local_available() < amount {
            let id: u32 = self.nodes[i].id;
            let got: u64 = self.quota.grant(&id, self.p.chunk);
            self.nodes[i].usage.grant(got);
        }
        let ghost mid = self@;
        proof {
            assert(mid =~= (WorldView {
                book: ledger::lend(
                    old(self)@.book,
                    old(self)@.nodes[i as int].id,
                    old(self)@.top_up(i as int),
                ),
                ..old(self)@.with_usage(i as int, old(self)@.topped_up(i as int))
            }));
        }
        let outcome = self.nodes[i].usage.acquire(amount);
        if outcome.is_ok() {
            self.true_total = self.true_total + amount;
        }
        proof {
            assert(self@ =~= old(self)@.offer_load(i as int));
        }
    }

    /// The first live node other than `id`, or `id` where there is none.
    #[must_use]
    pub fn next_live_after(&self, id: u32) -> (next: u32)
        ensures
            next == live_after(self@.nodes, id),
    {
        let mut i: usize = 0;
        proof {
            reveal(Seq::filter);
            assert(self@.nodes.take(0) =~= Seq::empty());
        }
        while i < self.nodes.len()
            invariant
                i <= self.nodes@.len(),
                self@.nodes.take(i as int).filter(up_and_not(id)) =~= Seq::empty(),
            decreases self.nodes.len() - i,
        {
            proof {
                reveal(Seq::filter);
                let upto = self@.nodes.take(i + 1);
                assert(upto.drop_last() =~= self@.nodes.take(i as int));
                assert(upto.last() == self.nodes@[i as int]@);
            }
            if self.nodes[i].alive && self.nodes[i].id != id {
                proof {
                    let others = self@.nodes.filter(up_and_not(id));
                    queue::lemma_filter_prefix(self@.nodes, up_and_not(id), i + 1);
                    assert(others[0] == others.take(1)[0]);
                }
                return self.nodes[i].id;
            }
            i += 1;
        }
        proof {
            assert(self@.nodes.take(i as int) =~= self@.nodes);
        }
        id
    }

    /// The places of the nodes that are up, in order, that of `apart` left out: whose trees are to
    /// be told when a node leaves or joins, with the one that joined for `apart`.
    #[must_use]
    pub fn live_places(&self, apart: Option<u32>) -> (places: Vec<usize>)
        ensures
            places@ == live_places(self@.nodes, apart),
    {
        let ghost all = Seq::new(self@.nodes.len(), |i: int| i as usize);
        let ghost f = up_and_apart(self@.nodes, apart);
        let mut places: Vec<usize> = Vec::new();
        let mut i: usize = 0;
        proof {
            reveal(Seq::filter);
            assert(all.take(0) =~= Seq::empty());
        }
        while i < self.nodes.len()
            invariant
                i <= self.nodes@.len(),
                all == Seq::new(self@.nodes.len(), |i: int| i as usize),
                f == up_and_apart(self@.nodes, apart),
                places@ == all.take(i as int).filter(f),
            decreases self.nodes.len() - i,
        {
            proof {
                reveal(Seq::filter);
                assert(all.take(i + 1).drop_last() =~= all.take(i as int));
                assert(all.take(i + 1).last() == i);
                assert(self@.nodes[i as int] == self.nodes@[i as int]@);
            }
            let other: bool = match apart {
                Some(apart) => self.nodes[i].id != apart,
                None => true,
            };
            if self.nodes[i].alive && other {
                places.push(i);
            }
            i += 1;
        }
        proof {
            assert(all.take(i as int) =~= all);
        }
        places
    }

    /// The ids of the nodes that are up.
    fn live(&self) -> (live: Vec<u32>)
        ensures
            live@ == live_ids(self@.nodes),
    {
        let mut live: Vec<u32> = Vec::new();
        let mut i: usize = 0;
        proof {
            reveal(Seq::filter);
            assert(self@.nodes.take(0) =~= Seq::empty());
            assert(live_ids(self@.nodes.take(0)) =~= Seq::empty());
        }
        while i < self.nodes.len()
            invariant
                i <= self.nodes@.len(),
                live@ == live_ids(self@.nodes.take(i as int)),
            decreases self.nodes.len() - i,
        {
            proof {
                reveal(Seq::filter);
                let upto = self@.nodes.take(i + 1);
                assert(upto.drop_last() =~= self@.nodes.take(i as int));
                assert(upto.last() == self.nodes@[i as int]@);
            }
            if self.nodes[i].alive {
                live.push(self.nodes[i].id);
            }
            i += 1;
            proof {
                assert(live@ =~= live_ids(self@.nodes.take(i as int)));
            }
        }
        proof {
            assert(self@.nodes.take(i as int) =~= self@.nodes);
        }
        live
    }

    /// The largest id there is.
    fn largest_id(&self) -> (largest: u32)
        ensures
            largest == max_id(self@.nodes),
    {
        let mut largest: u32 = 0;
        let mut i: usize = 0;
        while i < self.nodes.len()
            invariant
                i <= self.nodes@.len(),
                largest == max_id(self@.nodes.take(i as int)),
            decreases self.nodes.len() - i,
        {
            proof {
                let upto = self@.nodes.take(i + 1);
                assert(upto.drop_last() =~= self@.nodes.take(i as int));
                assert(upto.last() == self.nodes@[i as int]@);
            }
            if self.nodes[i].id >= largest {
                largest = self.nodes[i].id;
            }
            i += 1;
        }
        proof {
            assert(self@.nodes.take(i as int) =~= self@.nodes);
        }
        largest
    }

    /// Lets happen what the scenario has for this round. Returns the node that left and the
    /// peers of the one that joined.
    fn apply_scenario_events(&mut self) -> (changes: (Option<u32>, Option<Peers>))
        requires
            old(self).well_formed(),
            ({
                let w = old(self)@.after_governor().after_kill();
                w.joins() ==> max_id(w.nodes) < u32::MAX
            }),
        ensures
            final(self).well_formed(),
            final(self)@ == old(self)@.after_governor().after_kill().after_join(),
            changes.0 == old(self)@.after_governor().killed(),
            ({
                let w = old(self)@.after_governor().after_kill();
                match changes.1 {
                    Some(peers) => w.joins() && peers@ == w.joiner(),
                    None => !w.joins(),
                }
            }),
    {
        if let Some(at) = self.p.change_governor_at {
            if at == self.now {
                // The ledger moves with the governor: the book already holds the outstanding
                // grants, so nothing is re-issued.
                self.governor = self.next_live_after(self.governor);
            }
        }
        let ghost one = self@;
        proof {
            assert(one =~= old(self)@.after_governor());
        }
        let mut left: Option<u32> = None;
        if let Some((at, victim)) = self.p.kill_at {
            if at == self.now {
                left = Some(victim);
                if let Some(i) = self.idx(victim) {
                    self.nodes[i].alive = false;
                    proof {
                        assert(self@.nodes =~= one.nodes.update(
                            i as int,
                            NodeView { alive: false, ..one.nodes[i as int] },
                        ));
                    }
                }
                if self.governor == victim {
                    self.governor = self.next_live_after(victim);
                }
            }
        }
        let ghost two = self@;
        proof {
            assert(two =~= one.after_kill());
        }
        let mut joined: Option<Peers> = None;
        if let Some(at) = self.p.join_at {
            if at == self.now {
                let new_id: u32 = self.largest_id() + 1;
                let live = self.live();
                joined = Some(fresh_peers(new_id, &live, self.p.fanout, &mut self.rng));
                self.nodes.push(Node { id: new_id, usage: Escrow::new(new_id, 0), alive: true });
            }
        }
        proof {
            assert(self@ =~= two.after_join());
        }
        (left, joined)
    }

    /// Whether every node broadcasts this round.
    fn gossips(&self) -> (yes: bool)
        ensures
            yes == self@.gossips(),
    {
        if self.p.gossip_every == 0 {
            self.now == 0
        } else {
            self.now % self.p.gossip_every == 0
        }
    }

    /// What is to be done next. Ask again once it is done; a run is over at
    /// [`Step::Finished`].
    pub fn step(&mut self) -> (step: Step<M>)
        requires
            old(self).well_formed(),
            old(self)@.can_step(),
        ensures
            final(self).well_formed(),
            old(self)@.steps_to(step, final(self)@),
            gossip_laws::sound(old(self)@) ==> gossip_laws::sound(final(self)@),
    {
        let step = self.advance();
        proof {
            if gossip_laws::sound(old(self)@) {
                gossip_laws::law_a_step_keeps_the_world_sound(old(self)@, step, self@);
            }
        }
        step
    }

    /// Takes the next step.
    fn advance(&mut self) -> (step: Step<M>)
        requires
            old(self).well_formed(),
            old(self)@.can_step(),
        ensures
            final(self).well_formed(),
            old(self)@.steps_to(step, final(self)@),
    {
        match self.phase {
            Phase::Rest => {
                if self.now >= self.p.rounds {
                    return Step::Finished;
                }
                self.now = self.now + 1;
                proof {
                    assert(self@ =~= old(self)@.next_round());
                }
                let (left, joined) = self.apply_scenario_events();
                self.inbox = take_due(&mut self.net, self.now);
                self.phase = Phase::Deliver;
                proof {
                    assert(self@ =~= old(self)@.begin());
                }
                Step::Round(left, joined)
            },
            Phase::Deliver => {
                match self.inbox.pop_front() {
                    None => {
                        self.phase = Phase::Load(0);
                        Step::Quiet
                    },
                    Some(letter) => {
                        proof {
                            assert(self@.inbox =~= old(self)@.inbox.drop_first());
                        }
                        match self.idx(letter.what.dst) {
                            Some(i) => if self.nodes[i].alive {
                                Step::OnMessage(i, letter.what.from, letter.what.msg)
                            } else {
                                Step::Quiet
                            },
                            None => Step::Quiet,
                        }
                    },
                }
            },
            Phase::Load(i) => {
                if i >= self.nodes.len() {
                    self.phase = Phase::Tick(0);
                    return Step::Quiet;
                }
                self.phase = Phase::Load(i + 1);
                if !self.nodes[i].alive {
                    return Step::Quiet;
                }
                let ghost on = self@;
                proof {
                    assert(on =~= (WorldView { phase: Phase::Load((i + 1) as usize), ..old(self)@ }));
                }
                if self.now <= self.p.load_until {
                    self.offer_load(i);
                }
                proof {
                    assert(self@ == on.loaded(i as int));
                    assert(self.nodes@.len() == self@.nodes.len());
                }
                if self.gossips() {
                    let report = self.nodes[i].usage.delta();
                    let payload = encode(&report);
                    proof {
                        self.sent@ = self.sent@.insert(payload@);
                        assert(self@ =~= (WorldView {
                            sent: on.sent.insert(payload@),
                            ..on.loaded(i as int)
                        }));
                        assert(payload@ == wire::bytes_of(report@));
                    }
                    Step::Broadcast(i, payload)
                } else {
                    Step::Quiet
                }
            },
            Phase::Tick(i) => {
                if i >= self.nodes.len() {
                    self.phase = Phase::Rest;
                    return Step::Quiet;
                }
                self.phase = Phase::Tick(i + 1);
                if self.nodes[i].alive {
                    Step::Tick(i)
                } else {
                    Step::Quiet
                }
            },
        }
    }

    /// True usage does not exceed the ceiling.
    #[must_use]
    pub fn enforcement_holds(&self) -> (holds: bool)
        requires
            self@.p.limit + self@.p.delta <= u64::MAX,
        ensures
            holds == (self@.true_total <= self@.p.limit + self@.p.delta),
            gossip_laws::sound(self@) ==> holds,
    {
        proof {
            if gossip_laws::sound(self@) {
                gossip_laws::law_enforcement(self@);
            }
        }
        self.true_total <= self.p.limit + self.p.delta
    }

    /// Every live node's view of the global usage equals the truth.
    #[must_use]
    pub fn converged(&self) -> (yes: bool)
        ensures
            yes == self@.converged(),
    {
        let mut i: usize = 0;
        while i < self.nodes.len()
            invariant
                i <= self.nodes@.len(),
                forall|j: int|
                    0 <= j < i && (#[trigger] self@.nodes[j]).alive ==> slots::reading(
                        self@.nodes[j].usage.slots,
                    ) == self@.true_total,
            decreases self.nodes.len() - i,
        {
            if self.nodes[i].alive && self.nodes[i].usage.global_used() != self.true_total {
                proof {
                    assert(self@.nodes[i as int].alive);
                }
                return false;
            }
            i += 1;
        }
        true
    }
}

} // verus!
