//! The runs of the lease simulator.

use vstd::prelude::*;

use super::{Event, Params};

verus! {

/// The tick at which a run's disturbance comes.
pub const EVENT_AT: u64 = 300;

/// The seeds each row of a table is run with.
pub const SEEDS: [u64; 5] = [0x1EA5E, 1, 2, 3, 4];

/// A run with these events, in `dcs` data centres, and the figures that every run shares.
///
/// Five in a hundred messages are lost. Demand is two per node and tick; the rate allows three
/// quarters of it, so the limit binds and shares must move to where the load is. A chunk is below
/// a node's fair share, as a deployment would size it: the split's hysteresis is one chunk.
pub open spec fn run_of(p: Params, nodes: u32, dcs: u8, ttl: u64, events: Seq<(u64, Event)>) -> bool {
    &&& p.nodes == nodes
    &&& p.dcs == dcs
    &&& p.radix == 4
    &&& p.loss == 0x1_9999_9999_999A
    &&& p.latency == 1
    &&& p.cross_latency == 10
    &&& p.ttl == ttl
    &&& p.rate == 3 * nodes / 2
    &&& p.offered == 2
    &&& p.chunk == 1
    &&& p.view_delay == 3
    &&& p.fd_delay == 5
    &&& p.rounds == 600
    &&& p.events@ == events
    &&& p.seed == 0x1EA5E
}

/// A run with nothing to disturb it.
#[must_use]
pub fn base(nodes: u32, ttl: u64) -> (p: Params)
    ensures
        run_of(p, nodes, 1, ttl, Seq::empty()),
{
    Params {
        nodes,
        dcs: 1,
        radix: 4,
        loss: 0x1_9999_9999_999A,
        latency: 1,
        cross_latency: 10,
        ttl,
        rate: 3 * (nodes as u64) / 2,
        offered: 2,
        chunk: 1,
        view_delay: 3,
        fd_delay: 5,
        rounds: 600,
        events: Vec::new(),
        seed: 0x1EA5E,
    }
}

/// Another node becomes leader.
#[must_use]
pub fn leader_change(nodes: u32, ttl: u64) -> (p: Params)
    ensures
        run_of(p, nodes, 1, ttl, seq![(EVENT_AT, Event::Leader)]),
{
    let mut p: Params = base(nodes, ttl);
    p.events.push((EVENT_AT, Event::Leader));
    proof {
        assert(p.events@ =~= seq![(EVENT_AT, Event::Leader)]);
    }
    p
}

/// A node in the middle of the tree goes down, and comes back four TTLs later.
#[must_use]
pub fn mid_tree_outage(nodes: u32, ttl: u64) -> (p: Params)
    requires
        EVENT_AT + 4 * ttl <= u64::MAX,
    ensures
        run_of(
            p,
            nodes,
            1,
            ttl,
            seq![
                ((EVENT_AT - 20) as u64, Event::PickMidTree),
                (EVENT_AT, Event::DownMidTree),
                ((EVENT_AT + 4 * ttl) as u64, Event::UpMidTree),
            ],
        ),
{
    let mut p: Params = base(nodes, ttl);
    p.events.push((EVENT_AT - 20, Event::PickMidTree));
    p.events.push((EVENT_AT, Event::DownMidTree));
    p.events.push((EVENT_AT + 4 * ttl, Event::UpMidTree));
    proof {
        assert(p.events@ =~= seq![
            ((EVENT_AT - 20) as u64, Event::PickMidTree),
            (EVENT_AT, Event::DownMidTree),
            ((EVENT_AT + 4 * ttl) as u64, Event::UpMidTree),
        ]);
    }
    p
}

/// Five nodes join, three ticks apart.
#[must_use]
pub fn joins(nodes: u32, ttl: u64) -> (p: Params)
    ensures
        run_of(
            p,
            nodes,
            1,
            ttl,
            Seq::new(5, |k: int| ((EVENT_AT + 3 * k) as u64, Event::Join)),
        ),
{
    let mut p: Params = base(nodes, ttl);
    let ghost calm = p;
    let ghost five = Seq::new(5, |k: int| ((EVENT_AT + 3 * k) as u64, Event::Join));
    let mut k: u64 = 0;
    while k < 5
        invariant
            k <= 5,
            five == Seq::new(5, |k: int| ((EVENT_AT + 3 * k) as u64, Event::Join)),
            p.events@ == five.take(k as int),
            p == (Params { events: p.events, ..calm }),
        decreases 5 - k,
    {
        p.events.push((EVENT_AT + k * 3, Event::Join));
        k += 1;
        proof {
            assert(p.events@ =~= five.take(k as int));
        }
    }
    proof {
        assert(p.events@ =~= five);
    }
    p
}

/// Two data centres, and another node becomes leader.
#[must_use]
pub fn two_dcs(nodes: u32, ttl: u64) -> (p: Params)
    ensures
        run_of(p, nodes, 2, ttl, seq![(EVENT_AT, Event::Leader)]),
{
    let mut p: Params = leader_change(nodes, ttl);
    p.dcs = 2;
    p
}

/// The ticks in which a disturbance is looked at: from the first up to the second.
#[must_use]
pub fn window(ttl: u64) -> (ticks: (u64, u64))
    requires
        EVENT_AT + 2 * ttl + 20 <= u64::MAX,
    ensures
        ticks.0 == EVENT_AT,
        ticks.1 == EVENT_AT + 2 * ttl + 20,
{
    (EVENT_AT, EVENT_AT + 2 * ttl + 20)
}

/// What the figures every run shares come to: the rate allows three quarters of the demand, to the
/// nearest whole request below; a node's chunk is within its share of the rate; five messages in a
/// hundred are lost, to the nearest part above; a view and a verdict are under way for some ticks;
/// and the disturbance comes halfway through.
pub proof fn law_the_limit_binds_in_every_run(
    p: Params,
    nodes: u32,
    dcs: u8,
    ttl: u64,
    events: Seq<(u64, Event)>,
)
    requires
        run_of(p, nodes, dcs, ttl, events),
    ensures
        4 * p.rate <= 3 * (p.offered * nodes) < 4 * p.rate + 4,
        p.chunk * nodes <= p.rate,
        0 <= 100 * p.loss - 5 * crate::rng::PARTS < 100,
        p.latency < p.view_delay < p.fd_delay < p.cross_latency,
        2 * EVENT_AT == p.rounds,
        p.nodes == nodes,
        p.dcs == dcs,
        p.ttl == ttl,
        p.events@ == events,
{
}

} // verus!
