use bcounter::gossip::{base, fresh_peers, yesno, Action, Params, Step, World};
use bcounter::rng::{Rng, PARTS};

/// A share of messages in parts of [`PARTS`].
fn share(loss: f64) -> u64 {
    (loss * PARTS as f64).ceil() as u64
}

/// Runs a world to its end over an overlay that sends every broadcast straight to every node.
fn run(p: Params) -> World<Vec<u8>> {
    let (mut w, _) = World::new(p);
    loop {
        match w.step() {
            Step::Finished => return w,
            Step::OnMessage(i, _, payload) => {
                let id = w.id_at(i);
                w.run(id, vec![Action::Deliver(payload)]);
            }
            Step::Broadcast(i, payload) => {
                let id = w.id_at(i);
                let sends = (0..w.len())
                    .map(|j| w.id_at(j))
                    .filter(|&dst| dst != id)
                    .map(|dst| Action::Send(dst, payload.clone()))
                    .collect();
                w.run(id, sends);
            }
            Step::Round(..) | Step::Tick(_) | Step::Quiet => {}
        }
    }
}

#[test]
fn converges_without_loss() {
    let w = run(base(0));
    assert!(w.converged(), "views did not converge without loss");
    assert!(w.enforcement_holds());
    assert!(w.true_total() > 0, "no load was applied");
}

#[test]
fn converges_despite_heavy_loss() {
    // A third of messages dropped; full-state re-broadcast still heals it.
    let w = run(base(share(0.3)));
    assert!(w.converged(), "views did not converge under 30% loss");
    assert!(w.enforcement_holds());
}

#[test]
fn enforcement_holds_when_load_exceeds_the_limit() {
    // Offer far more than the quota; the escrow ceiling must still cap the true total.
    let p = Params {
        load_amount: 2000,
        load_until: 400,
        rounds: 500,
        ..base(share(0.1))
    };
    let w = run(p);
    assert!(w.enforcement_holds(), "usage exceeded the ceiling");
    // Filled to the limit bar per-node remainders too small for one more acquire.
    let slack = p.nodes as u64 * p.load_amount;
    assert!(
        w.true_total() > p.limit - slack && w.true_total() <= p.limit,
        "true_total {} not near the limit {}",
        w.true_total(),
        p.limit
    );
}

#[test]
fn survives_a_governor_change() {
    let p = Params {
        change_governor_at: Some(120),
        ..base(share(0.1))
    };
    let w = run(p);
    assert!(w.converged());
    assert!(w.enforcement_holds());
    assert_eq!(w.governor(), 1);
}

#[test]
fn survives_a_node_leaving() {
    let p = Params {
        kill_at: Some((250, 7)),
        ..base(share(0.1))
    };
    let w = run(p);
    assert!(w.converged(), "did not converge after a node left");
    assert!(w.enforcement_holds());
    assert!(!w.is_alive(7));
    assert!(w.is_alive(8));
}

#[test]
fn survives_a_node_joining() {
    let p = Params {
        join_at: Some(120),
        ..base(share(0.1))
    };
    let w = run(p);
    assert!(w.converged(), "did not converge after a node joined");
    assert!(w.enforcement_holds());
    assert_eq!(w.len(), 17);
    assert_eq!(w.id_at(16), 16);
}

// ---- single steps ------------------------------------------------------

#[test]
fn every_live_node_acquires_its_load_each_round() {
    // Sixteen nodes, fifty each, for two hundred rounds; the quota covers it.
    assert_eq!(run(base(0)).true_total(), 16 * 50 * 200);
}

#[test]
fn a_lone_message_is_lost_or_delivered_as_the_network_has_it() {
    for (loss, arrives) in [(0, true), (PARTS, false)] {
        let p = Params {
            nodes: 2,
            rounds: 1,
            latency: 0,
            load_until: 0,
            ..base(loss)
        };
        let (mut w, _) = World::<u8>::new(p);
        w.run(0, vec![Action::Send(1, 9)]);
        let mut got = None;
        loop {
            match w.step() {
                Step::Finished => break,
                Step::OnMessage(i, from, msg) => got = Some((i, from, msg)),
                _ => {}
            }
        }
        assert_eq!(got, if arrives { Some((1, 0, 9)) } else { None });
        assert_eq!(w.now(), 1);
    }
}

#[test]
fn a_message_takes_as_long_as_the_network_has_it() {
    let p = Params {
        nodes: 2,
        rounds: 5,
        latency: 3,
        ..base(0)
    };
    let (mut w, _) = World::<u8>::new(p);
    w.run(1, vec![Action::Send(0, 7)]);
    w.run(99, vec![Action::Send(0, 8)]);
    let mut got = vec![];
    loop {
        match w.step() {
            Step::Finished => break,
            Step::OnMessage(i, from, msg) => got.push((w.now(), i, from, msg)),
            _ => {}
        }
    }
    assert_eq!(got, vec![(3, 0, 1, 7)]);
}

#[test]
fn a_node_that_is_down_gets_no_message_and_no_load() {
    let p = Params {
        nodes: 2,
        rounds: 2,
        kill_at: Some((1, 0)),
        ..base(0)
    };
    let (mut w, _) = World::<u8>::new(p);
    w.run(1, vec![Action::Send(0, 7)]);
    let mut left = None;
    loop {
        match w.step() {
            Step::Finished => break,
            Step::Round(gone, joined) => {
                assert!(joined.is_none());
                left = left.or(gone);
            }
            Step::OnMessage(..) => panic!("a message reached a node that is down"),
            Step::Tick(i) => assert_eq!(i, 1),
            _ => {}
        }
    }
    assert_eq!(left, Some(0));
    assert_eq!(w.live_places(None), vec![1]);
    assert!(w.live_places(Some(1)).is_empty());
    assert_eq!(w.live_places(Some(0)), vec![1]);
    assert_eq!(w.governor(), 1);
    assert_eq!(w.true_total(), 100);
    assert_eq!(w.next_live_after(1), 1);
    assert_eq!(w.next_live_after(0), 1);
    assert_eq!(w.idx(1), Some(1));
    assert_eq!(w.idx(5), None);
}

#[test]
fn usage_broadcast_every_few_rounds_and_never_for_a_period_of_none() {
    for (every, rounds_with) in [(2, vec![2, 4]), (0, vec![])] {
        let p = Params {
            nodes: 1,
            rounds: 5,
            gossip_every: every,
            ..base(0)
        };
        let (mut w, _) = World::<u8>::new(p);
        let mut seen = vec![];
        loop {
            match w.step() {
                Step::Finished => break,
                Step::Broadcast(i, payload) => {
                    assert_eq!(i, 0);
                    assert_eq!(payload.len(), 20);
                    seen.push(w.now());
                }
                _ => {}
            }
        }
        assert_eq!(seen, rounds_with);
    }
}

#[test]
fn fresh_peers_are_everyone_else_with_the_fanout_eager() {
    let mut rng = Rng::new(1);
    let peers = fresh_peers(3, &[0, 1, 2, 3, 4, 5], 2, &mut rng);
    assert_eq!(peers.me, 3);
    assert_eq!(peers.eager.len(), 2);
    let mut all = peers.eager.clone();
    all.extend(&peers.lazy);
    all.sort_unstable();
    assert_eq!(all, vec![0, 1, 2, 4, 5]);
    let alone = fresh_peers(3, &[3], 2, &mut rng);
    assert!(alone.eager.is_empty() && alone.lazy.is_empty());
}

#[test]
fn a_table_says_yes_or_no() {
    assert_eq!(yesno(true), "yes");
    assert_eq!(yesno(false), "NO");
}
