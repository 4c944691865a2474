use bcounter::rng::Rng;
use bcounter::{Denied, Escrow, EscrowMap, LocalQuota, Quota};

// ---- a node and its grant ----------------------------------------------

#[test]
fn draw_asks_the_quota_for_what_is_short() {
    let mut quota = LocalQuota::new(100);
    let mut a: Escrow = Escrow::new(1, 0);
    assert_eq!(a.draw(&mut quota, 60), Ok(()));
    assert_eq!(a.granted(), 60);
    assert_eq!(a.local_available(), 0);
    a.release(25);
    assert_eq!(a.local_available(), 25);
}

#[test]
fn draw_asks_for_nothing_while_the_grant_suffices() {
    let mut quota = LocalQuota::new(100);
    let mut a: Escrow = Escrow::new(1, 40);
    assert_eq!(a.draw(&mut quota, 40), Ok(()));
    assert_eq!(a.granted(), 40);
    assert_eq!(quota.available(), 100);
}

#[test]
fn rights_the_quota_lent_stay_even_where_they_do_not_suffice() {
    let mut quota = LocalQuota::new(10);
    let mut a: Escrow = Escrow::new(1, 0);
    assert_eq!(a.draw(&mut quota, 11), Err(Denied { available: 10 }));
    assert_eq!(a.granted(), 10);
    assert_eq!(quota.available(), 0);
    assert_eq!(a.draw(&mut quota, 10), Ok(()));
}

#[test]
fn acquire_is_admitted_up_to_the_grant_and_no_further() {
    let mut a: Escrow = Escrow::new(1, 50);
    assert_eq!(a.acquire(30), Ok(()));
    assert_eq!(a.acquire(21), Err(Denied { available: 20 }));
    assert_eq!(a.acquire(20), Ok(()));
    assert_eq!(a.acquire(0), Ok(()));
    assert_eq!(a.acquire(1), Err(Denied { available: 0 }));
    a.grant(1);
    assert_eq!(a.acquire(1), Ok(()));
}

#[test]
fn unused_rights_go_back_and_used_ones_do_not() {
    let mut a: Escrow = Escrow::new(1, 50);
    assert_eq!(a.acquire(30), Ok(()));
    assert_eq!(a.reclaim(5), 5);
    assert_eq!(a.granted(), 45);
    assert_eq!(a.reclaim(1000), 15);
    assert_eq!(a.granted(), 30);
    assert_eq!(a.reclaim(1), 0);
}

#[test]
fn a_release_undoes_an_acquire_and_a_reclaim_a_grant() {
    let mut quota = LocalQuota::new(100);
    let mut a: Escrow = Escrow::new(1, 0);
    a.grant(quota.grant(&1, 40));
    assert_eq!(a.acquire(15), Ok(()));
    assert_eq!(a.local_available(), 25);
    a.release(15);
    assert_eq!(a.local_available(), 40);
    quota.reclaim(&1, a.reclaim(40));
    assert_eq!((a.granted(), quota.outstanding(), quota.available()), (0, 0, 100));
}

#[test]
fn the_ceiling_is_never_exceeded() {
    let mut quota = LocalQuota::new(100);
    let mut nodes: Vec<Escrow> = (0..4).map(|id| Escrow::new(id, 0)).collect();
    let mut used = 0u64;
    for k in 0..200usize {
        let amount = (k as u64 * 7) % 5 + 1;
        if nodes[k % 4].draw(&mut quota, amount).is_ok() {
            used += amount;
        }
        assert!(used <= 100);
    }
    assert_eq!(quota.outstanding(), 100);
    assert!(used > 90);
}

#[test]
fn a_dry_node_refuses_while_another_holds_unused_rights() {
    // The false denial, the price of no overshoot.
    let mut quota = LocalQuota::new(100);
    let mut a: Escrow = Escrow::new(1, 0);
    let mut b: Escrow = Escrow::new(2, 0);
    a.grant(quota.grant(&1, 100));
    assert_eq!(b.draw(&mut quota, 1), Err(Denied { available: 0 }));
    quota.reclaim(&1, a.reclaim(10));
    assert_eq!(b.draw(&mut quota, 1), Ok(()));
}

// ---- reports -----------------------------------------------------------

#[test]
fn a_report_carries_the_usage_and_counts_no_node_twice() {
    let mut a: Escrow = Escrow::new(1, 100);
    let mut b: Escrow = Escrow::new(2, 100);
    let mut root: Escrow = Escrow::new(0, 0);
    assert_eq!(a.acquire(40), Ok(()));
    assert_eq!(b.acquire(30), Ok(()));
    a.release(10);
    assert_eq!(a.delta(), vec![(1, 40, 10)]);
    b.apply(&a.delta());
    assert_eq!(b.delta(), vec![(1, 40, 10), (2, 30, 0)]);
    assert_eq!(b.global_used(), 60);
    root.apply(&b.delta());
    root.apply(&a.delta());
    root.apply(&b.delta());
    assert_eq!(root.global_used(), 60);
}

#[test]
fn a_genuine_report_of_itself_leaves_a_node_as_it_was() {
    let mut a: Escrow = Escrow::new(1, 100);
    assert_eq!(a.acquire(60), Ok(()));
    let old = a.delta();
    a.release(20);
    a.apply(&old);
    a.apply(&[(1, 60, 19), (2, 7, 0)]);
    assert_eq!(a.local_available(), 60);
    assert_eq!(a.delta(), vec![(1, 60, 20), (2, 7, 0)]);
}

#[test]
fn no_order_of_deeds_exceeds_the_ceiling() {
    let mut rng = Rng::new(42);
    for _ in 0..50 {
        let ceiling = 1 + rng.below(300) as u64;
        let mut quota = LocalQuota::new(ceiling);
        let mut nodes: Vec<Escrow> = (0..4).map(|k| Escrow::new(k * 5 + 2, 0)).collect();
        let mut used = [0u64; 4];
        for _ in 0..200 {
            let i = rng.below(4);
            let id = i as u32 * 5 + 2;
            let amount = rng.below(60) as u64;
            match rng.below(6) {
                0 => nodes[i].grant(quota.grant(&id, amount)),
                1 => {
                    if nodes[i].acquire(amount).is_ok() {
                        used[i] += amount;
                    }
                }
                2 => match nodes[i].draw(&mut quota, amount) {
                    Ok(()) => used[i] += amount,
                    Err(_) => assert_eq!(quota.available(), 0),
                },
                3 => {
                    let back = amount.min(used[i]);
                    nodes[i].release(back);
                    used[i] -= back;
                }
                4 => quota.reclaim(&id, nodes[i].reclaim(amount)),
                _ => {
                    let report = nodes[rng.below(4)].delta();
                    nodes[i].apply(&report);
                }
            }
            assert!(used.iter().sum::<u64>() <= ceiling);
            let held: u64 = nodes.iter().map(Escrow::granted).sum();
            assert_eq!(held, quota.outstanding());
        }
    }
}

#[test]
fn a_report_does_not_change_what_a_node_may_spend() {
    let mut a: Escrow = Escrow::new(1, 100);
    a.apply(&[(2, 500, 0)]);
    assert_eq!(a.global_used(), 500);
    assert_eq!(a.local_available(), 100);
    assert_eq!(a.acquire(100), Ok(()));
}

#[test]
fn an_old_report_changes_nothing() {
    let mut a: Escrow = Escrow::new(1, 100);
    assert_eq!(a.acquire(10), Ok(()));
    let old = a.delta();
    assert_eq!(a.acquire(20), Ok(()));
    let mut b: Escrow = Escrow::new(2, 0);
    b.apply(&a.delta());
    let seen = b.clone();
    b.apply(&old);
    assert_eq!(b, seen);
    assert_eq!(b.global_used(), 30);
}

#[test]
fn a_report_carries_a_merge_by_any_route() {
    let mut nodes: Vec<Escrow> = (0..5).map(|id| Escrow::new(id, 1000)).collect();
    for (k, n) in nodes.iter_mut().enumerate() {
        assert_eq!(n.acquire(k as u64 * 10 + 1), Ok(()));
    }
    let mut chained: Escrow = Escrow::new(9, 0);
    let mut direct: Escrow = Escrow::new(9, 0);
    let mut relay: Escrow = Escrow::new(8, 0);
    for n in &nodes {
        relay.apply(&n.delta());
        chained.apply(&relay.delta());
    }
    for n in nodes.iter().rev() {
        direct.apply(&n.delta());
    }
    assert_eq!(chained, direct);
    assert_eq!(direct.global_used(), 105);
}

// ---- paths -------------------------------------------------------------

#[test]
fn a_path_is_charged_on_every_level() {
    let mut m: EscrowMap<&str> = EscrowMap::new(1);
    m.grant(&"bucket", 100);
    m.grant(&"tenant", 500);
    m.grant(&"root", 9999);
    assert_eq!(m.acquire(&["bucket", "tenant", "root"], 40), Ok(()));
    assert_eq!(m.global_used(&"tenant"), 40);
    assert_eq!(m.local_available(&"bucket"), 60);
    assert_eq!(m.local_available(&"root"), 9959);
}

#[test]
fn a_short_scope_is_named_and_nothing_is_charged() {
    let mut m: EscrowMap<&str> = EscrowMap::new(1);
    m.grant(&"bucket", 100);
    m.grant(&"tenant", 30);
    assert_eq!(
        m.acquire(&["bucket", "tenant", "root"], 40),
        Err(("tenant", Denied { available: 30 }))
    );
    assert_eq!(m.global_used(&"bucket"), 0);
    m.grant(&"tenant", 10);
    assert_eq!(
        m.acquire(&["bucket", "tenant", "root"], 40),
        Err(("root", Denied { available: 0 }))
    );
    m.grant(&"root", 40);
    assert_eq!(m.acquire(&["bucket", "tenant", "root"], 40), Ok(()));
    assert_eq!(m.local_available(&"tenant"), 0);
}

#[test]
fn asking_for_nothing_creates_no_entry() {
    let mut m: EscrowMap<u8> = EscrowMap::new(1);
    m.grant(&1, 0);
    assert_eq!(m.acquire(&[1, 2], 0), Ok(()));
    m.release(&[3], 0);
    assert_eq!(m, EscrowMap::new(1));
}

#[test]
fn a_release_always_succeeds() {
    let mut a: Escrow = Escrow::new(1, 10);
    a.release(u64::MAX);
    a.release(1);
    assert_eq!(a.local_available(), 10);
    assert_eq!(a.global_used(), 0);
}

#[test]
fn a_draw_past_what_the_quota_has_is_refused_however_large() {
    let mut quota = LocalQuota::new(10);
    let mut a: Escrow = Escrow::new(1, 0);
    assert_eq!(a.draw(&mut quota, 5), Ok(()));
    assert_eq!(a.draw(&mut quota, u64::MAX), Err(Denied { available: 5 }));
    assert_eq!(a.granted(), 10);
}

#[test]
fn a_release_frees_every_level() {
    let mut m: EscrowMap<u8> = EscrowMap::new(1);
    m.grant(&1, 10);
    m.grant(&2, 20);
    assert_eq!(m.acquire(&[1, 2], 10), Ok(()));
    m.release(&[1, 2], 4);
    assert_eq!(m.local_available(&1), 4);
    assert_eq!(m.local_available(&2), 14);
    assert_eq!(m.global_used(&1), 6);
    assert_eq!(m.global_used(&3), 0);
}
