use bcounter::{BCounter, Denied};

/// A counter holding exactly `consumed`/`freed` on one slot, for building merge inputs.
/// `limit` is `MAX` so the write always lands; merge laws are independent of the limit.
fn single(me: u32, consumed: u64, freed: u64) -> BCounter {
    let mut c = BCounter::new(me, u64::MAX);
    c.inc(consumed).expect("MAX limit admits any write");
    c.dec(freed);
    c
}

/// Merge a list of node states into a base, in the given order.
fn merge_all(base: &BCounter, parts: &[BCounter]) -> BCounter {
    let mut acc = base.clone();
    for p in parts {
        acc.merge(p);
    }
    acc
}

/// A stream of arbitrary values for the laws below.
struct Arbitrary(u64);

impl Arbitrary {
    fn below(&mut self, n: u64) -> u64 {
        self.0 = self.0.wrapping_mul(6364136223846793005).wrapping_add(1442695040888963407);
        (self.0 >> 33) % n
    }

    fn node_state(&mut self) -> BCounter {
        let me = self.below(6) as u32;
        let consumed = self.below(100_000);
        let freed = self.below(100_000);
        single(me, consumed, freed)
    }
}

// ---- single-node behaviour -------------------------------------------

#[test]
fn a_fresh_counter_is_empty_and_all_available() {
    let c: BCounter = BCounter::new(1, 100);
    assert_eq!(c.read(), 0);
    assert_eq!(c.available(), 100);
    assert_eq!(c.limit(), 100);
}

#[test]
fn inc_records_usage_and_dec_frees_it() {
    let mut c: BCounter = BCounter::new(1, 100);
    assert_eq!(c.inc(30), Ok(()));
    assert_eq!(c.read(), 30);
    assert_eq!(c.available(), 70);
    c.dec(10);
    assert_eq!(c.read(), 20);
    assert_eq!(c.available(), 80);
}

#[test]
fn inc_is_refused_at_the_limit_and_leaves_state_unchanged() {
    let mut c: BCounter = BCounter::new(1, 100);
    c.inc(90).unwrap();
    assert_eq!(c.inc(10), Ok(())); // the exact fill is admitted
    assert_eq!(c.read(), 100);
    assert_eq!(c.available(), 0);
    assert_eq!(c.inc(1), Err(Denied { available: 0 })); // one over is refused, nothing moves
    assert_eq!(c.read(), 100);
}

#[test]
fn denial_reports_the_room_that_is_left() {
    let mut c: BCounter = BCounter::new(1, 100);
    c.inc(70).unwrap();
    assert_eq!(c.inc(50), Err(Denied { available: 30 }));
}

#[test]
fn a_free_reopens_room_for_a_write() {
    let mut c: BCounter = BCounter::new(1, 100);
    c.inc(100).unwrap();
    assert_eq!(c.inc(20), Err(Denied { available: 0 }));
    c.dec(20);
    assert_eq!(c.inc(20), Ok(()));
    assert_eq!(c.read(), 100);
}

#[test]
fn lowering_the_limit_governs_usage_already_recorded() {
    let mut c: BCounter = BCounter::new(1, 100);
    c.inc(80).unwrap();
    c.set_limit(50);
    assert_eq!(c.available(), 0); // already over: no room
    assert_eq!(c.inc(1), Err(Denied { available: 0 }));
    c.dec(40);
    assert_eq!(c.available(), 10);
    assert_eq!(c.inc(10), Ok(()));
}

// ---- merge: distribution and convergence -----------------------------

#[test]
fn merge_sums_what_each_node_wrote_on_its_own_slot() {
    let mut a: BCounter = BCounter::new(1, 1000);
    let mut b: BCounter = BCounter::new(2, 1000);
    a.inc(300).unwrap();
    b.inc(400).unwrap();
    a.merge(&b);
    assert_eq!(a.read(), 700);
    assert_eq!(a.available(), 300);
}

#[test]
fn a_node_may_free_what_another_node_wrote() {
    let mut a: BCounter = BCounter::new(1, 1000);
    a.inc(500).unwrap();
    let mut b: BCounter = BCounter::new(2, 1000);
    b.merge(&a); // b learns of a's 500
    b.dec(200); // b frees 200 of a's units; the free lands on b's own slot
    assert_eq!(b.read(), 300);
    a.merge(&b);
    assert_eq!(a.read(), 300);
}

#[test]
fn a_stale_view_of_more_frees_than_writes_reads_as_zero_not_underflow() {
    let mut a: BCounter = BCounter::new(1, 1000);
    a.merge(&single(2, 0, 40)); // a free gossiped ahead of the write it undoes
    assert_eq!(a.read(), 0);
    assert_eq!(a.available(), 1000);
}

// ---- the deliberate bound: overshoot, never unbounded -----------------

#[test]
fn concurrent_writes_may_overshoot_by_the_un_gossiped_remainder() {
    let mut a: BCounter = BCounter::new(1, 100);
    let mut b: BCounter = BCounter::new(2, 100);
    assert_eq!(a.inc(100), Ok(())); // admitted: a's view is empty
    assert_eq!(b.inc(100), Ok(())); // admitted: b's view is empty too
    a.merge(&b);
    assert_eq!(a.read(), 200); // over the limit -- by exactly b's un-gossiped 100
    assert_eq!(a.available(), 0);
    assert_eq!(a.inc(1), Err(Denied { available: 0 })); // now visible, further writes refused
}

// ---- CRDT laws, over arbitrary states --------------------------------

#[test]
fn merge_is_idempotent() {
    let mut any = Arbitrary(1);
    for _ in 0..256 {
        let a = any.node_state();
        let mut once = a.clone();
        once.merge(&a);
        assert_eq!(once, a);
    }
}

#[test]
fn redelivering_a_state_changes_nothing() {
    let mut any = Arbitrary(2);
    for _ in 0..256 {
        let mut base = any.node_state();
        let b = any.node_state();
        base.merge(&b);
        let mut again = base.clone();
        again.merge(&b); // the same gossip a second time
        assert_eq!(again, base);
    }
}

#[test]
fn merge_is_commutative() {
    let mut any = Arbitrary(3);
    for _ in 0..256 {
        let (base, a, b) = (any.node_state(), any.node_state(), any.node_state());
        let ab = merge_all(&base, &[a.clone(), b.clone()]);
        let ba = merge_all(&base, &[b, a]);
        assert_eq!(ab, ba);
    }
}

#[test]
fn merge_is_associative() {
    let mut any = Arbitrary(4);
    for _ in 0..256 {
        let (a, b, c) = (any.node_state(), any.node_state(), any.node_state());
        let mut left = a.clone();
        left.merge(&b);
        left.merge(&c);
        let mut bc = b;
        bc.merge(&c);
        let mut right = a;
        right.merge(&bc);
        assert_eq!(left, right);
    }
}

/// Merging the old state into the merged one is a no-op: no slot was lowered, none vanished.
#[test]
fn merge_never_lowers_a_slot() {
    let mut any = Arbitrary(5);
    for _ in 0..256 {
        let (before, b) = (any.node_state(), any.node_state());
        let mut after = before.clone();
        after.merge(&b);
        let mut again = after.clone();
        again.merge(&before);
        assert_eq!(again, after);
    }
}

/// Strong eventual consistency: the same set of node states, merged in any order,
/// converges to one state.
#[test]
fn all_merge_orders_converge() {
    let mut any = Arbitrary(6);
    for _ in 0..256 {
        let parts: Vec<BCounter> = (0..any.below(8)).map(|_| any.node_state()).collect();
        let base: BCounter = BCounter::new(0, 1000);
        let forward = merge_all(&base, &parts);
        let mut reversed = parts.clone();
        reversed.reverse();
        let backward = merge_all(&base, &reversed);
        assert_eq!(forward, backward);
    }
}

/// The guard holds locally: a single counter never carries its own view over the
/// limit, and a refused write leaves the counter untouched.
#[test]
fn a_single_node_never_charges_itself_over_the_limit() {
    let mut any = Arbitrary(7);
    for _ in 0..256 {
        let limit = 1 + any.below(9_999);
        let mut c: BCounter = BCounter::new(1, limit);
        for _ in 0..any.below(50) {
            let before = c.read();
            match c.inc(any.below(3_000)) {
                Ok(()) => assert!(c.read() <= limit),
                Err(Denied { available }) => {
                    assert_eq!(c.read(), before);
                    assert_eq!(available, limit - before);
                }
            }
        }
    }
}

// ---- edges ------------------------------------------------------------

#[test]
fn two_nodes_spend_one_budget_and_the_overshoot_is_visible_after_a_merge() {
    let mut a: BCounter = BCounter::new(1, 100);
    let mut b: BCounter = BCounter::new(2, 100);
    assert_eq!(a.inc(60), Ok(()));
    assert_eq!(b.inc(60), Ok(()));
    a.merge(&b);
    assert_eq!(a.read(), 120);
    assert_eq!(a.inc(1), Err(Denied { available: 0 }));
}

#[test]
fn a_reading_past_the_largest_figure_stays_at_it() {
    let mut a = single(1, u64::MAX, 0);
    a.merge(&single(2, u64::MAX, 0));
    assert_eq!(a.read(), u64::MAX);
    assert_eq!(a.available(), 0);
    assert_eq!(a.inc(1), Err(Denied { available: 0 }));
    assert_eq!(a.inc(0), Ok(()));
}

#[test]
fn a_free_always_succeeds() {
    let mut c: BCounter = BCounter::new(1, 100);
    c.dec(u64::MAX);
    c.dec(1);
    assert_eq!(c.read(), 0);
    assert_eq!(c.available(), 100);
}

#[test]
fn writes_and_merges_in_any_order_add_up() {
    let mut any = Arbitrary(11);
    for _ in 0..64 {
        let limit = 1 + any.below(500);
        let mut nodes: Vec<BCounter> = (0..5).map(|k| BCounter::new(k * 3 + 1, limit)).collect();
        let mut admitted = 0u64;
        for _ in 0..any.below(60) {
            let i = any.below(5) as usize;
            if any.below(2) == 0 {
                let amount = any.below(100);
                if nodes[i].inc(amount).is_ok() {
                    admitted += amount;
                }
            } else {
                let from = nodes[any.below(5) as usize].clone();
                nodes[i].merge(&from);
            }
        }
        let all = merge_all(&nodes[2], &nodes);
        assert_eq!(all.read(), admitted);
        assert!(admitted <= 5 * limit);
    }
}

#[test]
fn a_free_undoes_a_write() {
    let mut c: BCounter<u64> = BCounter::new(7, 50);
    c.inc(20).unwrap();
    c.inc(30).unwrap();
    c.dec(30);
    assert_eq!(c.read(), 20);
    assert_eq!(c.available(), 30);
}
