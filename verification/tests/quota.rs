use bcounter::{LocalQuota, Quota};

#[test]
fn a_quota_never_lends_past_its_ceiling() {
    let mut quota = LocalQuota::new(100);
    assert_eq!(quota.grant(&1, 70), 70);
    assert_eq!(quota.available(), 30);
    // Node 2 asks for 50 but only 30 remains.
    assert_eq!(quota.grant(&2, 50), 30);
    assert_eq!(quota.available(), 0);
    assert_eq!(quota.grant(&1, 1), 0); // empty
    assert_eq!(quota.outstanding(), 100);
}

#[test]
fn reclaim_returns_rights_to_the_quota() {
    let mut quota = LocalQuota::new(100);
    quota.grant(&1, 80);
    quota.reclaim(&1, 30);
    assert_eq!(quota.available(), 50);
    // Reclaiming more than held is clamped, never underflows.
    quota.reclaim(&1, 1000);
    assert_eq!(quota.available(), 100);
}
