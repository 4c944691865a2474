use bcounter::{LocalPool, Pool};

#[test]
fn a_pool_never_lends_past_its_ceiling() {
    let mut pool = LocalPool::new(100);
    assert_eq!(pool.grant(&1, 70), 70);
    assert_eq!(pool.available(), 30);
    // Node 2 asks for 50 but only 30 remains.
    assert_eq!(pool.grant(&2, 50), 30);
    assert_eq!(pool.available(), 0);
    assert_eq!(pool.grant(&1, 1), 0); // exhausted
    assert_eq!(pool.outstanding(), 100);
}

#[test]
fn release_returns_rights_to_the_pool() {
    let mut pool = LocalPool::new(100);
    pool.grant(&1, 80);
    pool.release(&1, 30);
    assert_eq!(pool.available(), 50);
    // Releasing more than held is clamped, never underflows.
    pool.release(&1, 1000);
    assert_eq!(pool.available(), 100);
}
