use bcounter::{BCounterMap, Denied};

/// Three scopes on a path, tightest in the middle, at the given per-scope limits.
fn path(bucket: u64, tenant: u64, root: u64) -> [(&'static str, u64); 3] {
    [("bucket", bucket), ("tenant", tenant), ("root", root)]
}

#[test]
fn a_fresh_map_is_empty_and_reads_zero() {
    let m: BCounterMap<&str> = BCounterMap::new(1);
    assert!(m.is_empty());
    assert_eq!(m.read(&"bucket"), 0);
    assert_eq!(m.available(&"bucket", 100), 100);
}

#[test]
fn a_charge_within_every_limit_lands_on_all_levels() {
    let mut m: BCounterMap<&str> = BCounterMap::new(1);
    assert_eq!(m.inc(&path(100, 500, 9999), 40), Ok(()));
    assert_eq!(m.read(&"bucket"), 40);
    assert_eq!(m.read(&"tenant"), 40);
    assert_eq!(m.read(&"root"), 40);
}

#[test]
fn a_charge_over_one_level_is_refused_and_nothing_is_recorded() {
    let mut m: BCounterMap<&str> = BCounterMap::new(1);
    // Fits the bucket (100) but not the tenant (30).
    let denied = m.inc(&path(100, 30, 9999), 40);
    assert_eq!(denied, Err(("tenant", Denied { available: 30 })));
    // All-or-none: not even the level that had room is charged, and nothing is created.
    assert!(m.is_empty());
    assert_eq!(m.read(&"bucket"), 0);
    assert_eq!(m.read(&"root"), 0);
}

#[test]
fn the_denied_scope_is_the_first_one_short_in_path_order() {
    let mut m: BCounterMap<&str> = BCounterMap::new(1);
    // Both bucket and tenant are too small; the bucket comes first on the path.
    let denied = m.inc(&path(10, 20, 9999), 40);
    assert_eq!(denied, Err(("bucket", Denied { available: 10 })));
}

#[test]
fn a_free_lowers_every_level() {
    let mut m: BCounterMap<&str> = BCounterMap::new(1);
    m.inc(&path(100, 500, 9999), 80).unwrap();
    m.dec(&["bucket", "tenant", "root"], 30);
    assert_eq!(m.read(&"bucket"), 50);
    assert_eq!(m.read(&"tenant"), 50);
    assert_eq!(m.read(&"root"), 50);
}

#[test]
fn a_limit_is_applied_at_the_call_site_not_from_stored_state() {
    let mut m: BCounterMap<&str> = BCounterMap::new(1);
    m.inc(&[("bucket", 100)], 100).unwrap();
    // Same usage, a lower limit this call -> refused.
    assert_eq!(
        m.inc(&[("bucket", 100)], 1),
        Err(("bucket", Denied { available: 0 }))
    );
    // Raise the limit this call -> the very same write is admitted. The limit was never
    // baked into the merged state; it rides on the call.
    assert_eq!(m.inc(&[("bucket", 200)], 50), Ok(()));
    assert_eq!(m.read(&"bucket"), 150);
    assert_eq!(m.available(&"bucket", 200), 50);
}

#[test]
fn merge_carries_each_scope_from_both_replicas() {
    let mut a: BCounterMap<&str> = BCounterMap::new(1);
    let mut b: BCounterMap<&str> = BCounterMap::new(2);
    a.inc(&[("bucket", 1000)], 300).unwrap(); // only a knows "bucket"
    b.inc(&[("tenant", 1000)], 400).unwrap(); // only b knows "tenant"
    a.merge(&b);
    assert_eq!(a.read(&"bucket"), 300); // kept
    assert_eq!(a.read(&"tenant"), 400); // adopted
}

#[test]
fn merge_sums_a_shared_scope_across_nodes() {
    let mut a: BCounterMap<&str> = BCounterMap::new(1);
    let mut b: BCounterMap<&str> = BCounterMap::new(2);
    a.inc(&[("root", 1000)], 300).unwrap();
    b.inc(&[("root", 1000)], 400).unwrap();
    a.merge(&b);
    assert_eq!(a.read(&"root"), 700);
}

// ---- CRDT laws over the map ------------------------------------------

/// A map holding usage for a single scope on one node's slot.
fn single_map(me: u32, scope: u8, consumed: u64, freed: u64) -> BCounterMap<u8> {
    let mut m: BCounterMap<u8> = BCounterMap::new(me);
    m.inc(&[(scope, u64::MAX)], consumed).unwrap();
    m.dec(&[scope], freed);
    m
}

fn merged(base: &BCounterMap<u8>, parts: &[BCounterMap<u8>]) -> BCounterMap<u8> {
    let mut acc = base.clone();
    for p in parts {
        acc.merge(p);
    }
    acc
}

/// A stream of arbitrary values for the laws below.
struct Arbitrary(u64);

impl Arbitrary {
    fn below(&mut self, n: u64) -> u64 {
        self.0 = self.0.wrapping_mul(6364136223846793005).wrapping_add(1442695040888963407);
        (self.0 >> 33) % n
    }

    fn map_state(&mut self) -> BCounterMap<u8> {
        let me = self.below(4) as u32;
        let scope = self.below(4) as u8;
        let consumed = self.below(100_000);
        let freed = self.below(100_000);
        single_map(me, scope, consumed, freed)
    }
}

#[test]
fn map_merge_is_idempotent() {
    let mut any = Arbitrary(1);
    for _ in 0..256 {
        let a = any.map_state();
        let mut once = a.clone();
        once.merge(&a);
        assert_eq!(once, a);
    }
}

#[test]
fn map_merge_is_commutative() {
    let mut any = Arbitrary(2);
    for _ in 0..256 {
        let (base, a, b) = (any.map_state(), any.map_state(), any.map_state());
        assert_eq!(
            merged(&base, &[a.clone(), b.clone()]),
            merged(&base, &[b, a])
        );
    }
}

#[test]
fn map_merge_is_associative() {
    let mut any = Arbitrary(3);
    for _ in 0..256 {
        let (a, b, c) = (any.map_state(), any.map_state(), any.map_state());
        let mut left = a.clone();
        left.merge(&b);
        left.merge(&c);
        let mut bc = b;
        bc.merge(&c);
        let mut right = a;
        right.merge(&bc);
        assert_eq!(left, right);
    }
}

#[test]
fn map_all_merge_orders_converge() {
    let mut any = Arbitrary(4);
    for _ in 0..256 {
        let parts: Vec<BCounterMap<u8>> = (0..any.below(8)).map(|_| any.map_state()).collect();
        let base: BCounterMap<u8> = BCounterMap::new(0);
        let forward = merged(&base, &parts);
        let mut reversed = parts.clone();
        reversed.reverse();
        assert_eq!(forward, merged(&base, &reversed));
    }
}

// ---- edges ------------------------------------------------------------

#[test]
fn iteration_lists_each_scope_once_in_order() {
    let mut m: BCounterMap<u8> = BCounterMap::new(1);
    m.inc(&[(9, 100), (2, 100)], 40).unwrap();
    m.inc(&[(5, 100)], 7).unwrap();
    m.dec(&[2], 10);
    assert_eq!(m.iter(), vec![(&2, 30), (&5, 7), (&9, 40)]);
}

#[test]
fn a_scope_named_twice_is_charged_only_while_it_has_room() {
    let mut m: BCounterMap<u8> = BCounterMap::new(1);
    // Each entry is checked on its own; the second charge no longer fits and is dropped.
    assert_eq!(m.inc(&[(1, 100), (1, 100)], 60), Ok(()));
    assert_eq!(m.read(&1), 60);
}

#[test]
fn an_empty_path_is_admitted_and_records_nothing() {
    let mut m: BCounterMap<u8> = BCounterMap::new(1);
    assert_eq!(m.inc(&[], 60), Ok(()));
    m.dec(&[], 60);
    assert!(m.is_empty());
    assert!(m.iter().is_empty());
}

#[test]
fn a_merge_into_an_unknown_scope_agrees_on_usage_whatever_the_limits() {
    let mut a: BCounterMap<u8> = BCounterMap::new(1);
    let mut b: BCounterMap<u8> = BCounterMap::new(2);
    a.inc(&[(1, 10)], 10).unwrap();
    b.inc(&[(1, 20)], 20).unwrap();
    let mut ab: BCounterMap<u8> = BCounterMap::new(3);
    ab.merge(&a);
    ab.merge(&b);
    let mut ba: BCounterMap<u8> = BCounterMap::new(3);
    ba.merge(&b);
    ba.merge(&a);
    assert_eq!(ab, ba);
    assert_eq!(ab.iter(), ba.iter());
    assert_eq!(ab.read(&1), 30);
}

#[test]
fn limits_are_not_part_of_the_merged_state() {
    let mut a: BCounterMap<u8> = BCounterMap::new(1);
    assert_eq!(a.inc(&[(7, 100)], 10), Ok(()));
    let mut b: BCounterMap<u8> = BCounterMap::new(2);
    assert_eq!(b.inc(&[(7, 200)], 20), Ok(()));
    let base: BCounterMap<u8> = BCounterMap::new(0);
    let x = merged(&base, &[a.clone(), b.clone()]);
    let y = merged(&base, &[b.clone(), a.clone(), b]);
    assert_eq!(x, y);
    assert_eq!(y.read(&7), 30);
}

#[test]
fn a_charge_or_free_of_nothing_creates_no_entry() {
    let mut m: BCounterMap<&str> = BCounterMap::new(1);
    assert_eq!(m.inc(&[("bucket", 100)], 0), Ok(()));
    assert!(m.is_empty());
    m.dec(&["bucket"], 0);
    assert!(m.is_empty());
    assert!(m.iter().is_empty());
    assert_eq!(m.inc(&[("bucket", 100)], 100), Ok(()));
    assert!(!m.is_empty());
    // Nothing still fits where the scope is full, and no longer where it is past its limit.
    assert_eq!(m.inc(&[("bucket", 100)], 0), Ok(()));
    assert_eq!(
        m.inc(&[("tenant", 5), ("bucket", 99)], 0),
        Err(("bucket", Denied { available: 0 }))
    );
    assert_eq!(m.iter(), vec![(&"bucket", 100)]);
}

#[test]
fn a_charge_raises_and_a_free_lowers_each_usage_by_the_amount() {
    let mut m: BCounterMap<u8> = BCounterMap::new(1);
    m.inc(&[(1, 100), (2, 200)], 30).unwrap();
    m.inc(&[(2, 200), (3, 300)], 50).unwrap();
    assert_eq!(m.iter(), vec![(&1, 30), (&2, 80), (&3, 50)]);
    m.dec(&[1, 2], 40);
    assert_eq!(m.iter(), vec![(&1, 0), (&2, 40), (&3, 50)]);
}

#[test]
fn a_map_free_always_succeeds() {
    let mut m: BCounterMap<u8> = BCounterMap::new(1);
    m.dec(&[1], u64::MAX);
    m.dec(&[1], 1);
    assert_eq!(m.read(&1), 0);
}
