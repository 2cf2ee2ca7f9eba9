use tile_collapse::rng::Rng;

#[test]
fn generator_follows_the_stream_of_the_seed() {
    let mut ours = Rng::new(1628290385006);
    let mut theirs = oorandom::Rand64::new(1628290385006);
    for _ in 0..100 {
        assert_eq!(ours.rand_u64(), theirs.rand_u64());
    }
}

#[test]
fn generator_state_advances() {
    let mut rng = Rng::new(7);
    let first = rng.rand_u64();
    let second = rng.rand_u64();
    let third = rng.rand_u64();
    assert!(first != second || second != third);
    let mut again = Rng::new(7);
    assert_eq!(again.rand_u64(), first);
    assert_eq!(again.rand_u64(), second);
    assert_eq!(again.rand_u64(), third);
}

#[test]
fn different_seeds_give_different_streams() {
    let mut a = Rng::new(1);
    let mut b = Rng::new(2);
    let xs: Vec<u64> = (0..4).map(|_| a.rand_u64()).collect();
    let ys: Vec<u64> = (0..4).map(|_| b.rand_u64()).collect();
    assert_ne!(xs, ys);
}

#[test]
fn ranged_draws_follow_the_stream_and_stay_in_range() {
    let mut ours = Rng::new(99);
    let mut theirs = oorandom::Rand64::new(99);
    for i in 1..200u64 {
        let value = ours.rand_range(3, 3 + i);
        assert!(value >= 3 && value < 3 + i);
        assert_eq!(value, theirs.rand_range(3..3 + i));
    }
}

#[test]
fn mixed_draws_follow_the_stream() {
    let mut ours = Rng::new(5);
    let mut theirs = oorandom::Rand64::new(5);
    for i in 0..50u64 {
        assert_eq!(ours.rand_range(0, 10 + i), theirs.rand_range(0..10 + i));
        assert_eq!(ours.rand_u64(), theirs.rand_u64());
    }
}

#[test]
fn range_of_one_gives_its_start() {
    let mut rng = Rng::new(3);
    for _ in 0..10 {
        assert_eq!(rng.rand_range(41, 42), 41);
    }
}
