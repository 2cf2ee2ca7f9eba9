use tile_collapse::adjacency::{normalize, scale_count};
use tile_collapse::collapse::pick_goal;
use tile_collapse::direction::{get_opposite_direction, neighbor};
use tile_collapse::weight::{
    blend_weight, multiply4, reduce_strength, settle_weight, DRIFT, FLOOR_WEIGHT, ONE,
};

#[test]
fn opposite_of_each_direction() {
    assert_eq!(get_opposite_direction(0), 2);
    assert_eq!(get_opposite_direction(1), 3);
    assert_eq!(get_opposite_direction(2), 0);
    assert_eq!(get_opposite_direction(3), 1);
}

#[test]
fn opposite_is_an_involution() {
    for d in 0..4usize {
        assert_eq!(get_opposite_direction(get_opposite_direction(d)), d);
    }
}

#[test]
fn opposite_of_a_huge_index_does_not_overflow() {
    assert_eq!(get_opposite_direction(usize::MAX), (usize::MAX % 4 + 2) % 4);
}

#[test]
fn neighbors_wrap_around() {
    assert_eq!(neighbor((0, 0), 0, 3, 2), (1, 0));
    assert_eq!(neighbor((2, 0), 0, 3, 2), (0, 0));
    assert_eq!(neighbor((0, 0), 2, 3, 2), (2, 0));
    assert_eq!(neighbor((1, 1), 1, 3, 2), (1, 0));
    assert_eq!(neighbor((1, 0), 3, 3, 2), (1, 1));
    assert_eq!(neighbor((0, 0), 3, 1, 1), (0, 0));
}

#[test]
fn stepping_back_returns() {
    for y in 0..3usize {
        for x in 0..4usize {
            for d in 0..4usize {
                let there = neighbor((x, y), d, 4, 3);
                assert_eq!(neighbor(there, get_opposite_direction(d), 4, 3), (x, y));
            }
        }
    }
}

#[test]
fn blend_exact_values() {
    assert_eq!(blend_weight(1_000_000, 1_000_000), 1_000_000);
    assert_eq!(blend_weight(1_000_000, 500_000), 990_000);
    assert_eq!(blend_weight(0, 0), DRIFT);
    assert_eq!(blend_weight(100, 100), 5_099);
    assert_eq!(blend_weight(u32::MAX, u32::MAX), 4_273_497_458);
}

#[test]
fn blend_never_below_floor() {
    assert!(blend_weight(1, 1) >= FLOOR_WEIGHT);
    assert_eq!(blend_weight(1, 1), 5_000);
}

#[test]
fn settle_exact_values() {
    assert_eq!(settle_weight(0), 0);
    assert_eq!(settle_weight(1), FLOOR_WEIGHT);
    assert_eq!(settle_weight(99_999_999), FLOOR_WEIGHT);
    assert_eq!(settle_weight(100_000_000), 100);
    assert_eq!(settle_weight(250_000u128 * 1_000_000), 250_000);
    assert_eq!(settle_weight((ONE as u128) * (ONE as u128)), ONE);
    assert_eq!(settle_weight(u128::MAX), u32::MAX);
}

#[test]
fn normalize_exact_values() {
    assert_eq!(normalize(0, 5), 0);
    assert_eq!(normalize(1, 3), 333_333);
    assert_eq!(normalize(2, 3), 666_666);
    assert_eq!(normalize(2, 2), ONE);
    assert_eq!(normalize(1, 4_000_000), 1);
    assert_eq!(normalize(3, 0), 0);
}

#[test]
fn scale_count_exact_values() {
    assert_eq!(scale_count(0), 0);
    assert_eq!(scale_count(3), 3_000_000);
    assert_eq!(scale_count(4_294), 4_294_000_000);
    assert_eq!(scale_count(4_295), u32::MAX);
}

#[test]
fn product_and_strength() {
    assert_eq!(multiply4(2, 3, 5, 7), 210);
    assert_eq!(multiply4(ONE, ONE, ONE, 0), 0);
    assert_eq!(
        multiply4(u32::MAX, u32::MAX, u32::MAX, u32::MAX),
        (u32::MAX as u128) * (u32::MAX as u128) * (u32::MAX as u128) * (u32::MAX as u128)
    );
    assert_eq!(reduce_strength(0), 0);
    assert_eq!(reduce_strength(1), 1);
    assert_eq!(reduce_strength(multiply4(ONE, ONE, ONE, ONE)), 1_000_000_000_000);
    assert_eq!(reduce_strength(multiply4(100, 100, 100, 100)), 1);
    assert_eq!(reduce_strength(u128::MAX), u64::MAX);
}

#[test]
fn goal_of_a_draw() {
    assert_eq!(pick_goal(0, 1000), 0);
    assert_eq!(pick_goal(u64::MAX, 1000), 999);
    assert_eq!(pick_goal(1u64 << 63, 1000), 500);
    assert_eq!(pick_goal(1u64 << 62, 1000), 250);
    assert_eq!(pick_goal(2047, 1000), 0);
    assert_eq!(pick_goal(u64::MAX, 0), 0);
    let big = u128::MAX;
    assert!(pick_goal(u64::MAX, big) <= big);
    assert_eq!(pick_goal(1u64 << 63, big), big / 2);
}
