use bcounter::rng::{Rng, PARTS};

#[test]
fn the_stream_is_splitmix() {
    let mut rng = Rng::new(0);
    assert_eq!(rng.next_u64(), 0xE220_A839_7B1D_CDAF);
    assert_eq!(rng.next_u64(), 0x6E78_9E6A_A1B9_65F4);
    assert_eq!(rng.next_u64(), 0x06C4_5D18_8009_454F);
    assert_eq!(Rng::new(0x9E37_79B9_7F4A_7C15).next_u64(), 0x6E78_9E6A_A1B9_65F4);
}

#[test]
fn the_same_seed_gives_the_same_stream() {
    let mut a = Rng::new(0xC0FFEE);
    let mut b = Rng::new(0xC0FFEE);
    for _ in 0..100 {
        assert_eq!(a.next_u64(), b.next_u64());
    }
}

#[test]
fn a_part_is_the_top_of_the_number() {
    let mut rng = Rng::new(0);
    assert_eq!(rng.part(), 0xE220_A839_7B1D_CDAF >> 11);
    let mut rng = Rng::new(7);
    for _ in 0..1000 {
        assert!(rng.part() < PARTS);
    }
}

#[test]
fn below_is_the_remainder() {
    let mut rng = Rng::new(0);
    assert_eq!(rng.below(10), (0xE220_A839_7B1D_CDAFu64 % 10) as usize);
    for n in 1..50 {
        assert!(rng.below(n) < n);
    }
    assert_eq!(rng.below(1), 0);
}

#[test]
fn a_network_that_loses_nothing_delivers_all_and_one_that_loses_all_none() {
    let mut rng = Rng::new(5);
    for _ in 0..100 {
        assert!(rng.delivers(0));
        assert!(!rng.delivers(PARTS));
    }
}

#[test]
fn about_the_set_share_is_lost() {
    let mut rng = Rng::new(5);
    let lost = (0..10_000).filter(|_| !rng.delivers(PARTS / 4)).count();
    assert!((2_300..2_700).contains(&lost), "{lost} of 10000 lost");
}
