use bcounter::lease::figures::{dip, first_run, window_slice};
use bcounter::lease::scenarios::{
    base, joins, leader_change, mid_tree_outage, two_dcs, window, EVENT_AT, SEEDS,
};
use bcounter::lease::{Event, Params, Step, World};
use bcounter::rng::PARTS;

/// A run without loss, in which only `events` happen.
fn calm(nodes: u32, events: Vec<(u64, Event)>) -> Params {
    Params {
        loss: 0,
        events,
        ..base(nodes, 20)
    }
}

/// Runs one tick with these lease parents, admitting `admitted` at every node, and lists what was
/// to be done.
fn tick(w: &mut World<u8>, parents: &[Option<u32>], admitted: u64) -> Vec<Step<u8>> {
    let mut steps = vec![];
    assert_eq!(w.step(), Step::Begin);
    w.begin(parents);
    loop {
        match w.step() {
            Step::Measure => {
                w.measure(parents);
                return steps;
            }
            Step::Load(i) => {
                w.record_load(i, admitted);
                steps.push(Step::Load(i));
            }
            Step::Quiet => {}
            step => steps.push(step),
        }
    }
}

/// What a tick told the nodes: views, verdicts and messages, without load and clock.
fn news(steps: Vec<Step<u8>>) -> Vec<Step<u8>> {
    steps
        .into_iter()
        .filter(|s| !matches!(s, Step::Load(_) | Step::Tick(_)))
        .collect()
}

// ---- a run, tick by tick -----------------------------------------------

#[test]
fn a_fresh_world_is_all_members_under_the_first_leader() {
    let w: World<u8> = World::new(Params {
        dcs: 2,
        ..base(3, 20)
    });
    assert_eq!(w.len(), 3);
    assert_eq!((w.leader(), w.term(), w.now()), (0, 1, 0));
    assert!(!w.is_over());
    assert!(w.is_active(2));
    assert_eq!(w.id_at(2), 2);
    assert_eq!(w.view_at(1), (vec![(0, 0), (1, 1), (2, 0)], 0, 1));
    assert_eq!(w.active_members(), vec![(0, 0), (1, 1), (2, 0)]);
    assert_eq!(w.messages(), (0, 0));
    assert_eq!(w.watched(), None);
}

#[test]
fn a_quiet_tick_loads_and_ticks_every_node_in_turn() {
    let mut w = World::new(calm(2, vec![]));
    let steps = tick(&mut w, &[], 1);
    assert_eq!(
        steps,
        vec![Step::Load(0), Step::Tick(0), Step::Load(1), Step::Tick(1)]
    );
    assert_eq!(w.now(), 1);
}

#[test]
fn a_leader_change_reaches_the_leader_at_once_and_the_others_late() {
    let mut w = World::new(calm(3, vec![(1, Event::Leader)]));
    assert_eq!(news(tick(&mut w, &[], 0)), vec![Step::View(1)]);
    assert_eq!((w.leader(), w.term()), (1, 2));
    assert_eq!(w.view_at(1).1, 1);
    assert_eq!(w.view_at(0).1, 0);
    let mut told = vec![];
    for _ in 2..=6 {
        told.extend(news(tick(&mut w, &[], 0)));
        if w.now() < 4 {
            assert!(told.is_empty());
        }
    }
    assert_eq!(told.len(), 2);
    assert!(told.contains(&Step::View(0)) && told.contains(&Step::View(2)));
    for i in 0..3 {
        assert_eq!((w.view_at(i).1, w.view_at(i).2), (1, 2));
    }
}

#[test]
fn a_node_that_goes_down_is_called_down_after_the_delay() {
    let mut w = World::new(calm(3, vec![(1, Event::Down(2)), (7, Event::Up(2))]));
    assert_eq!(news(tick(&mut w, &[], 0)), vec![]);
    assert!(!w.is_active(2));
    assert_eq!(w.active_members(), vec![(0, 0), (1, 0)]);
    assert_eq!((w.leader(), w.term()), (0, 1));
    for _ in 2..6 {
        assert_eq!(news(tick(&mut w, &[], 0)), vec![]);
    }
    assert_eq!(w.view_at(0).0.len(), 3);
    assert_eq!(news(tick(&mut w, &[], 0)), vec![Step::Down(0, 2), Step::Down(1, 2)]);
    assert_eq!(w.view_at(0).0, vec![(0, 0), (1, 0)]);
    assert_eq!(w.view_at(2).0.len(), 3);
    // Back: its view comes after the view's delay, the verdict after the detector's.
    assert_eq!(news(tick(&mut w, &[], 0)), vec![]);
    assert!(w.is_active(2));
    let mut told = vec![];
    for _ in 8..=12 {
        let now = w.now() + 1;
        told.extend(news(tick(&mut w, &[], 0)).into_iter().map(|s| (now, s)));
    }
    assert_eq!(
        told,
        vec![(10, Step::View(2)), (12, Step::Up(0, 2)), (12, Step::Up(1, 2))]
    );
    assert_eq!(w.view_at(0).0.len(), 3);
}

#[test]
fn a_node_that_is_down_still_sees_the_clock_but_no_load() {
    let mut w = World::new(calm(2, vec![(1, Event::Down(1))]));
    let steps = tick(&mut w, &[], 0);
    assert_eq!(steps, vec![Step::Load(0), Step::Tick(0), Step::Tick(1)]);
}

#[test]
fn when_the_leader_goes_down_the_first_active_node_takes_over() {
    let mut w = World::new(calm(
        3,
        vec![
            (1, Event::Down(0)),
            (2, Event::Down(1)),
            (3, Event::Down(2)),
            (4, Event::Up(0)),
            (5, Event::Down(9)),
        ],
    ));
    let led: Vec<(u32, u64)> = (0..5)
        .map(|_| {
            tick(&mut w, &[], 0);
            (w.leader(), w.term())
        })
        .collect();
    // The last one to go has nobody to hand over to; a node coming up does not take over.
    assert_eq!(led, vec![(1, 2), (2, 3), (2, 4), (2, 4), (2, 4)]);
    assert!(w.is_active(0));
}

#[test]
fn a_leader_alone_stays_leader_in_a_new_term() {
    let mut w = World::new(calm(1, vec![(1, Event::Leader)]));
    tick(&mut w, &[], 0);
    assert_eq!((w.leader(), w.term()), (0, 2));
}

#[test]
fn a_node_that_joins_gets_the_next_id_and_everyone_is_told() {
    let p = Params {
        dcs: 2,
        ..calm(2, vec![(1, Event::Join), (1, Event::Join)])
    };
    let mut w = World::new(p);
    tick(&mut w, &[], 0);
    assert_eq!(w.len(), 4);
    assert_eq!((w.id_at(2), w.id_at(3)), (2, 3));
    assert_eq!(w.view_at(3), (vec![(0, 0), (1, 1), (2, 0), (3, 1)], 0, 1));
    assert_eq!(w.idx(3), Some(3));
    assert_eq!(w.idx(4), None);
}

#[test]
fn messages_between_data_centres_are_counted_and_take_longer() {
    let mut w = World::new(Params {
        dcs: 2,
        ..calm(3, vec![])
    });
    w.send(0, 2, 7);
    w.send(0, 1, 8);
    assert_eq!(w.messages(), (2, 1));
    let mut got = vec![];
    for _ in 0..12 {
        let now = w.now() + 1;
        got.extend(news(tick(&mut w, &[], 0)).into_iter().map(|s| (now, s)));
    }
    assert_eq!(
        got,
        vec![(1, Step::Message(2, 0, 7)), (10, Step::Message(1, 0, 8))]
    );
}

#[test]
fn a_message_to_a_node_that_is_down_is_dropped() {
    let mut w = World::new(calm(2, vec![(1, Event::Down(1))]));
    w.send(0, 1, 7);
    assert_eq!(news(tick(&mut w, &[], 0)), vec![]);
}

#[test]
fn what_a_machine_has_ready_is_sent_only_while_its_node_is_up() {
    let mut w = World::new(calm(3, vec![(1, Event::Down(1))]));
    w.pump(1, vec![(0, 7), (2, 8)]);
    assert_eq!(w.messages(), (2, 0));
    assert_eq!(
        news(tick(&mut w, &[], 0)),
        vec![Step::Message(0, 1, 7), Step::Message(2, 1, 8)]
    );
    w.pump(1, vec![(0, 9), (99, 9)]);
    assert_eq!(w.messages(), (2, 0));
    w.pump(0, vec![]);
    assert_eq!(news(tick(&mut w, &[], 0)), vec![]);
}

#[test]
fn a_network_that_loses_everything_still_counts() {
    let mut w = World::new(Params {
        loss: PARTS,
        ..calm(2, vec![])
    });
    w.send(0, 1, 7);
    assert_eq!(w.messages(), (1, 0));
    assert_eq!(news(tick(&mut w, &[], 0)), vec![]);
    assert_eq!(news(tick(&mut w, &[], 0)), vec![]);
}

#[test]
fn a_run_is_over_after_its_rounds() {
    let mut w = World::new(Params {
        rounds: 2,
        ..calm(1, vec![])
    });
    tick(&mut w, &[], 0);
    assert!(!w.is_over());
    tick(&mut w, &[], 0);
    assert!(w.is_over());
    assert_eq!(w.params().rounds, 2);
}

// ---- the tree ----------------------------------------------------------

/// 0 leads; 1 and 2 are under 0, 3 and 4 under 1, 5 under 3.
const TREE: [Option<u32>; 6] = [None, Some(0), Some(0), Some(1), Some(1), Some(3)];

#[test]
fn depth_is_hops_to_the_leader() {
    let w: World<u8> = World::new(calm(6, vec![]));
    let depths: Vec<Option<u16>> = (0..6).map(|id| w.depth_of(&TREE, id)).collect();
    assert_eq!(
        depths,
        vec![Some(0), Some(1), Some(1), Some(2), Some(2), Some(3)]
    );
    assert_eq!(w.depth(&TREE), 3);
}

#[test]
fn a_broken_or_circular_chain_has_no_depth() {
    let w: World<u8> = World::new(calm(4, vec![]));
    let parents = [None, Some(2), Some(1), None];
    assert_eq!(w.depth_of(&parents, 1), None);
    assert_eq!(w.depth_of(&parents, 3), None);
    assert_eq!(w.depth_of(&parents, 77), None);
    assert_eq!(w.depth_of(&[], 1), None);
    assert_eq!(w.depth(&parents), 0);
    assert_eq!(w.depth_of(&[None, Some(2), Some(3), Some(0)], 1), Some(3));
}

#[test]
fn descendants_are_all_that_is_below() {
    let w: World<u8> = World::new(calm(6, vec![]));
    let sorted = |root: u32| {
        let mut d = w.descendants(&TREE, root);
        d.sort_unstable();
        d
    };
    assert_eq!(sorted(0), vec![1, 2, 3, 4, 5]);
    assert_eq!(sorted(1), vec![3, 4, 5]);
    assert_eq!(sorted(3), vec![5]);
    assert!(sorted(5).is_empty());
    // In a ring each is below every one, itself too; a node that is its own parent is not.
    let ring = [Some(1), Some(2), Some(0), Some(3), None, None];
    let mut all = w.descendants(&ring, 0);
    all.sort_unstable();
    assert_eq!(all, vec![0, 1, 2]);
    assert!(w.descendants(&ring, 3).is_empty());
}

#[test]
fn the_pick_is_the_active_node_with_the_most_below_it() {
    let w: World<u8> = World::new(calm(6, vec![]));
    assert_eq!(w.mid_tree(&TREE), Some(1));
    // Of equals, the larger id.
    assert_eq!(w.mid_tree(&[None, Some(0), Some(0), Some(1), Some(2)]), Some(2));
    // Nobody but the leader has anyone below.
    assert_eq!(w.mid_tree(&[None, Some(0), Some(0)]), None);
}

#[test]
fn the_picked_node_is_watched_through_its_outage() {
    let mut w = World::new(calm(
        6,
        vec![
            (1, Event::DownMidTree),
            (2, Event::PickMidTree),
            (3, Event::DownMidTree),
            (4, Event::UpMidTree),
        ],
    ));
    tick(&mut w, &TREE, 1);
    assert_eq!(w.watched(), None);
    assert!(w.is_active(1));
    assert!(w.subtree_flow().is_empty());
    tick(&mut w, &TREE, 1);
    assert_eq!(w.watched(), Some(1));
    tick(&mut w, &TREE, 2);
    assert!(!w.is_active(1));
    tick(&mut w, &TREE, 0);
    assert!(w.is_active(1));
    // Three nodes below, each offering two a tick.
    assert_eq!(w.subtree_flow(), &[(3, 6), (6, 6), (0, 6)]);
    assert_eq!(w.depth_by_tick(), &[3, 3, 3, 3]);
}

#[test]
fn agreement_counts_the_nodes_in_their_place() {
    let mut w = World::new(calm(6, vec![(1, Event::Down(5))]));
    let places = [None, Some(0), Some(1), Some(1), None, Some(3)];
    assert_eq!(w.agreement(&TREE, &places), (3, 5));
    assert_eq!(w.agreement(&TREE, &TREE), (5, 5));
    assert_eq!(w.agreement(&[], &places), (0, 5));
    tick(&mut w, &TREE, 0);
    assert_eq!(w.agreement(&TREE, &TREE), (4, 4));
}

#[test]
fn cross_edges_are_those_between_data_centres() {
    let w: World<u8> = World::new(Params {
        dcs: 2,
        ..calm(6, vec![])
    });
    // 1-0, 4-1 cross; 2-0, 3-1, 5-3 do not.
    assert_eq!(w.cross_edges(&TREE), 2);
    assert_eq!(w.cross_edges(&[None, Some(99)]), 0);
}

// ---- what is read off the record ---------------------------------------

#[test]
fn the_record_gives_use_overshoot_and_false_throttles() {
    // A rate of six over four nodes that offer two each.
    let mut w = World::new(calm(4, vec![]));
    assert_eq!(w.params().rate, 6);
    for admitted in [2, 1, 2, 0] {
        tick(&mut w, &[], admitted);
    }
    // Admitted 8, 4, 8, 0; throttled 0, 4, 0, 8.
    assert_eq!(w.utilization_in(0, 4), Some((20, 24)));
    assert_eq!(w.overshoot_in(0, 4), Some((0, 24)));
    assert_eq!(w.utilization_in(0, 3), Some((20, 18)));
    assert_eq!(w.overshoot_in(0, 3), Some((2, 18)));
    assert_eq!(w.utilization_in(1, 2), Some((4, 6)));
    assert_eq!(w.utilization_in(4, 9), None);
    assert_eq!(w.overshoot_in(3, 3), None);
    assert_eq!(w.false_throttles_in(0, 4), 2 + 6);
    assert_eq!(w.false_throttles_in(0, 3), 2);
    assert_eq!(w.false_throttles_in(9, 4), 0);
}

#[test]
fn a_window_stays_inside_its_record() {
    let record = [1, 2, 3, 4];
    assert_eq!(window_slice(&record, 1, 3), &[2, 3]);
    assert_eq!(window_slice(&record, 2, 99), &[3, 4]);
    assert!(window_slice(&record, 3, 2).is_empty());
    assert!(window_slice(&record, 9, 99).is_empty());
}

#[test]
fn the_tree_is_back_once_it_is_near_its_depth_for_ten_ticks() {
    let chain = [None, Some(0), Some(1), Some(2), Some(3)];
    let star = [None, Some(0), Some(0), Some(0), Some(0)];
    let pair = [None, Some(0), Some(0), Some(0), Some(1)];
    let mut w = World::new(calm(5, vec![]));
    for _ in 0..25 {
        tick(&mut w, &star, 0);
    }
    for _ in 0..3 {
        tick(&mut w, &chain, 0);
    }
    for _ in 0..4 {
        tick(&mut w, &pair, 0);
    }
    tick(&mut w, &chain, 0);
    for _ in 0..9 {
        tick(&mut w, &pair, 0);
    }
    assert_eq!(w.depth_recovery(25), (1, 4, None));
    tick(&mut w, &star, 0);
    assert_eq!(w.depth_recovery(25), (1, 4, Some(8)));
    assert_eq!(w.depth_recovery(24), (1, 4, Some(9)));
    assert_eq!(w.depth_recovery(43), (4, 0, None));
}

#[test]
fn a_run_is_found_where_it_first_holds() {
    let ok = [true, true, false, true, true, true, false, true];
    assert_eq!(first_run(&ok, 0, 2), Some(0));
    assert_eq!(first_run(&ok, 1, 2), Some(3));
    assert_eq!(first_run(&ok, 0, 3), Some(3));
    assert_eq!(first_run(&ok, 4, 3), None);
    assert_eq!(first_run(&ok, 99, 1), None);
    assert_eq!(first_run(&[], 0, 1), None);
}

#[test]
fn a_dip_lasts_until_five_good_ticks_in_a_row() {
    let mut ok = vec![false, true, true, true, false, true, true, false];
    ok.extend([true; 5]);
    // Down at 2; the flow falls two ticks later and is back four ticks after that.
    assert_eq!(dip(&ok, 2), (Some(2), Some(4)));
    assert_eq!(dip(&ok[..12], 2), (Some(2), None));
    assert_eq!(dip(&ok, 8), (None, None));
    assert_eq!(dip(&ok, 99), (None, None));
    assert_eq!(dip(&ok, 7), (Some(0), Some(1)));
}

// ---- scenarios ---------------------------------------------------------

#[test]
fn the_scenarios_disturb_the_run_as_they_say() {
    let p = base(50, 40);
    assert_eq!((p.nodes, p.dcs, p.ttl, p.rate), (50, 1, 40, 75));
    assert!(p.events.is_empty());
    // Five in a hundred.
    assert_eq!(p.loss, (0.05 * PARTS as f64).ceil() as u64);
    assert_eq!(base(3, 1).rate, 4);
    assert_eq!(leader_change(50, 40).events, vec![(300, Event::Leader)]);
    assert_eq!(
        mid_tree_outage(50, 40).events,
        vec![
            (280, Event::PickMidTree),
            (300, Event::DownMidTree),
            (460, Event::UpMidTree)
        ]
    );
    assert_eq!(
        joins(50, 40).events,
        vec![
            (300, Event::Join),
            (303, Event::Join),
            (306, Event::Join),
            (309, Event::Join),
            (312, Event::Join)
        ]
    );
    let p = two_dcs(50, 40);
    assert_eq!((p.dcs, p.events), (2, vec![(300, Event::Leader)]));
    assert_eq!(window(40), (300, 400));
    assert_eq!(EVENT_AT, 300);
    assert_eq!(SEEDS, [0x1EA5E, 1, 2, 3, 4]);
}
