use tile_collapse::belief::Severity;
use tile_collapse::collapser::{Collapser, InitError};
use tile_collapse::grid::TileType;
use tile_collapse::pixel::{Rgba, TILESIZE};
use tile_collapse::rng::Rng;
use tile_collapse::weight::ONE;

fn tint(id: u8) -> Rgba {
    Rgba::new(id.wrapping_mul(40), 255 - id, id, 255)
}

fn pixels_of(ids: &[&[u8]]) -> Vec<Vec<Rgba>> {
    let mut px = Vec::new();
    for row in ids {
        for _ in 0..TILESIZE {
            let mut line = Vec::new();
            for id in row.iter() {
                for _ in 0..TILESIZE {
                    line.push(tint(*id));
                }
            }
            px.push(line);
        }
    }
    px
}

fn checkerboard() -> Vec<Vec<Rgba>> {
    pixels_of(&[&[0, 1], &[1, 0]])
}

fn framed() -> Vec<Vec<Rgba>> {
    pixels_of(&[
        &[0, 0, 0, 0, 0, 0],
        &[0, 1, 2, 1, 2, 0],
        &[0, 2, 1, 2, 1, 0],
        &[0, 1, 2, 1, 2, 0],
        &[0, 2, 1, 2, 1, 0],
        &[0, 0, 0, 0, 0, 0],
    ])
}

fn patchwork() -> Vec<Vec<Rgba>> {
    pixels_of(&[
        &[0, 0, 0, 0, 0, 0, 0],
        &[0, 1, 1, 2, 2, 3, 0],
        &[0, 1, 4, 4, 2, 3, 0],
        &[0, 5, 4, 1, 1, 3, 0],
        &[0, 5, 5, 2, 1, 1, 0],
        &[0, 0, 0, 0, 0, 0, 0],
    ])
}

fn knotty() -> Vec<Vec<Rgba>> {
    pixels_of(&[
        &[0, 0, 0, 0, 0, 0],
        &[0, 5, 2, 1, 3, 0],
        &[0, 5, 2, 2, 3, 0],
        &[0, 1, 5, 4, 4, 0],
        &[0, 2, 5, 1, 1, 0],
        &[0, 0, 0, 0, 0, 0],
    ])
}

fn types_of(c: &Collapser) -> Vec<Vec<TileType>> {
    let mut all = Vec::new();
    for y in 0..c.height() {
        let mut row = Vec::new();
        for x in 0..c.width() {
            row.push(c.get_type((x, y)));
        }
        all.push(row);
    }
    all
}

fn fields_of(c: &Collapser) -> Vec<Vec<Vec<u32>>> {
    let mut all = Vec::new();
    for y in 0..c.height() {
        let mut row = Vec::new();
        for x in 0..c.width() {
            row.push(c.get_all_fields((x, y)).clone());
        }
        all.push(row);
    }
    all
}

fn is_border(c: &Collapser, x: usize, y: usize) -> bool {
    x == 0 || y == 0 || x == c.width() - 1 || y == c.height() - 1
}

fn count_state(c: &Collapser, wanted: TileType) -> usize {
    let mut n = 0;
    for row in types_of(c) {
        for t in row {
            if t == wanted {
                n += 1;
            }
        }
    }
    n
}

#[test]
fn tile_type_is_real_only_for_tiles() {
    assert!(TileType::Tile(0).is_real());
    assert!(TileType::Tile(17).is_real());
    assert!(!TileType::Field.is_real());
    assert!(!TileType::Dead.is_real());
}

#[test]
fn severity_max_takes_the_graver() {
    let all = [Severity::Skipped, Severity::Unchanged, Severity::Changed, Severity::Dead];
    for (i, a) in all.iter().enumerate() {
        for (j, b) in all.iter().enumerate() {
            let expected = if i >= j { *a } else { *b };
            assert_eq!(a.max(*b), expected);
        }
    }
}

#[test]
fn init_rejects_a_sample_that_is_not_tiled() {
    let mut px = checkerboard();
    px.pop();
    assert_eq!(Collapser::init(&px, 4, 4).err(), Some(InitError::BadSample));
    assert_eq!(Collapser::init(&Vec::new(), 4, 4).err(), Some(InitError::BadSample));
}

#[test]
fn init_rejects_an_empty_grid() {
    let px = checkerboard();
    assert_eq!(Collapser::init(&px, 0, 4).err(), Some(InitError::EmptyGrid));
    assert_eq!(Collapser::init(&px, 4, 0).err(), Some(InitError::EmptyGrid));
}

#[test]
fn init_rejects_a_grid_that_is_too_large() {
    let px = checkerboard();
    assert_eq!(Collapser::init(&px, 1 << 20, 1 << 20).err(), Some(InitError::TooLarge));
    assert_eq!(Collapser::init(&px, usize::MAX, 2).err(), Some(InitError::TooLarge));
}

#[test]
fn bad_sample_is_reported_before_an_empty_grid() {
    assert_eq!(Collapser::init(&Vec::new(), 0, 0).err(), Some(InitError::BadSample));
}

#[test]
fn init_lays_the_border_and_queues_its_neighbors() {
    let c = Collapser::init(&framed(), 5, 4).unwrap();
    assert_eq!(c.width(), 5);
    assert_eq!(c.height(), 4);
    assert_eq!(c.model().tile_count(), 3);
    assert_eq!(c.catalog().tiles.len(), 3);
    for y in 0..4 {
        for x in 0..5 {
            let expected = if is_border(&c, x, y) { TileType::Tile(0) } else { TileType::Field };
            assert_eq!(c.get_type((x, y)), expected);
            let cell = c.get_all_fields((x, y));
            assert_eq!(cell.len(), 12);
            assert!(cell.iter().all(|w| *w == ONE));
        }
    }
    assert_eq!(c.damage_len(), 2 * 4 + 2 * 5);
    assert_eq!(c.candidates_len(), 0);
    assert_eq!(c.decided(), 0);
    assert_eq!(c.fallbacks(), 0);
}

#[test]
fn init_of_a_grid_of_one_cell() {
    let c = Collapser::init(&framed(), 1, 1).unwrap();
    assert_eq!(c.get_type((0, 0)), TileType::Tile(0));
    assert_eq!(c.damage_len(), 4);
    assert_eq!(c.toward((0, 0), 0), (0, 0));
}

#[test]
fn recalculate_skips_decided_cells() {
    let mut c = Collapser::init(&framed(), 5, 4).unwrap();
    let before_fields = fields_of(&c);
    let before_damage = c.damage_len();
    assert_eq!(c.recalculate((0, 0)), Severity::Skipped);
    assert_eq!(c.recalculate((4, 3)), Severity::Skipped);
    assert_eq!(fields_of(&c), before_fields);
    assert_eq!(c.damage_len(), before_damage);
    assert_eq!(c.candidates_len(), 0);
}

#[test]
fn recalculate_exact_beliefs_next_to_the_corner() {
    let mut c = Collapser::init(&framed(), 6, 6).unwrap();
    let queued = c.damage_len();
    assert_eq!(c.recalculate((1, 1)), Severity::Changed);
    for dir in 0..4 {
        assert_eq!(c.get_field((1, 1), dir, 0), 0);
    }
    for tile in 1..3 {
        assert_eq!(c.get_field((1, 1), 0, tile), 1_035_000);
        assert_eq!(c.get_field((1, 1), 1, tile), 1_035_000);
        assert_eq!(c.get_field((1, 1), 2, tile), 2_000_000);
        assert_eq!(c.get_field((1, 1), 3, tile), 2_000_000);
    }
    assert_eq!(c.get_type((1, 1)), TileType::Field);
    assert_eq!(c.damage_len(), queued + 4);
    assert_eq!(c.candidates_len(), 1);
    assert_eq!(c.recalculate((1, 1)), Severity::Unchanged);
    assert_eq!(c.candidates_len(), 1);
    assert_eq!(c.damage_len(), queued + 4);
    assert_eq!(c.get_field((1, 1), 2, 1), 2_000_000);
    assert_eq!(c.get_field((1, 1), 0, 1), 1_069_125);
}

#[test]
fn recalculate_away_from_decided_cells_lists_no_candidate() {
    let mut c = Collapser::init(&framed(), 7, 7).unwrap();
    assert_eq!(c.recalculate((3, 3)), Severity::Changed);
    assert_eq!(c.candidates_len(), 0);
    for dir in 0..4 {
        assert_eq!(c.get_field((3, 3), dir, 0), 0);
        assert_eq!(c.get_field((3, 3), dir, 1), 1_035_000);
    }
}

#[test]
fn modifier_of_the_border_tile_is_zero() {
    let c = Collapser::init(&framed(), 5, 5).unwrap();
    for dir in 0..4 {
        assert_eq!(c.modifier((2, 2), dir, 0), 0);
        assert_eq!(c.modifier((1, 1), dir, 0), 0);
    }
    assert_eq!(c.modifier((1, 1), 2, 1), 2_000_000);
    assert_eq!(c.modifier((1, 1), 0, 1), 2_750_000);
}

#[test]
fn actual_weight_of_each_kind_of_neighbor() {
    let c = Collapser::init(&framed(), 5, 5).unwrap();
    let ones = vec![ONE; 12];
    let one = ONE as u128;
    assert_eq!(c.actual_weight(TileType::Dead, &ones, 1, 0), one * one);
    assert_eq!(c.actual_weight(TileType::Tile(2), &ones, 1, 0), 750_000 * one);
    assert_eq!(c.actual_weight(TileType::Tile(1), &ones, 1, 0), 0);
    assert_eq!(c.actual_weight(TileType::Field, &ones, 1, 2), 2_750_000 * one);
    let mut partly = ones.clone();
    partly[2 * 4 + 1] = 0;
    assert_eq!(c.actual_weight(TileType::Field, &partly, 1, 2), 2_000_000 * one);
    let mut doubled = ones.clone();
    doubled[2 * 4 + 2] = 2 * ONE;
    assert_eq!(c.actual_weight(TileType::Field, &doubled, 1, 2), 3_500_000 * one);
}

#[test]
fn recalculate_all_drains_the_queue() {
    let mut c = Collapser::init(&framed(), 6, 5).unwrap();
    let worst = c.recalculate_all(false);
    assert_eq!(worst, Severity::Changed);
    assert_eq!(c.damage_len(), 0);
    assert_eq!(c.candidates_len(), 4 * 3 - 2);
    for y in 1..4 {
        for x in 1..5 {
            for dir in 0..4 {
                assert_eq!(c.get_field((x, y), dir, 0), 0);
                assert!(c.get_field((x, y), dir, 1) > 0);
                assert!(c.get_field((x, y), dir, 2) > 0);
            }
        }
    }
    assert_eq!(c.recalculate_all(true), Severity::Skipped);
}

#[test]
fn scores_follow_the_beliefs_and_the_sample() {
    let mut c = Collapser::init(&framed(), 6, 6).unwrap();
    assert_eq!(c.get_freq(1), (1, 1));
    assert_eq!(c.get_freq_multiplier(1), (8, 36));
    assert_eq!(c.get_freq_multiplier(0), (20, 36));
    let full = 1_000_000_000_000u128;
    assert_eq!(c.score((2, 2), 1), full * 8 / 36);
    assert_eq!(c.score((2, 2), 0), full * 20 / 36);
    c.recalculate((1, 1));
    assert_eq!(c.score((1, 1), 0), 0);
    let strength = 1_035_000u128 * 1_035_000 * 2_000_000 * 2_000_000 / full;
    assert_eq!(c.score((1, 1), 1), strength * 8 / 36);
    assert_eq!(c.score((1, 1), 2), strength * 8 / 36);
}

#[test]
fn decide_walks_the_scores() {
    let mut c = Collapser::init(&framed(), 6, 6).unwrap();
    c.recalculate((1, 1));
    assert_eq!(c.decide((1, 1), 0), (Some(1), false));
    assert_eq!(c.decide((1, 1), (1u64 << 63) - 1), (Some(1), false));
    assert_eq!(c.decide((1, 1), (1u64 << 63) + (1u64 << 62)), (Some(2), false));
    assert_eq!(c.decide((1, 1), u64::MAX), (Some(2), false));
    assert_eq!(c.decide((2, 2), 0), (Some(0), false));
}

#[test]
fn collapse_leaves_decided_cells_alone() {
    let mut c = Collapser::init(&framed(), 5, 5).unwrap();
    c.recalculate_all(false);
    let types = types_of(&c);
    let fields = fields_of(&c);
    let mut rng = Rng::new(11);
    let mut twin = Rng::new(11);
    assert!(!c.collapse((0, 0), &mut rng));
    assert!(!c.collapse_with((4, 2), 12345));
    assert_eq!(types_of(&c), types);
    assert_eq!(fields_of(&c), fields);
    assert_eq!(c.decided(), 0);
    assert_eq!(rng.rand_u64(), twin.rand_u64());
}

#[test]
fn collapse_commits_and_counts() {
    let mut c = Collapser::init(&framed(), 6, 6).unwrap();
    c.recalculate_all(false);
    assert!(!c.collapse_with((1, 1), 0));
    assert_eq!(c.get_type((1, 1)), TileType::Tile(1));
    assert_eq!(c.decided(), 1);
    assert_eq!(c.fallbacks(), 0);
    assert_eq!(c.damage_len(), 0);
    assert_eq!(c.get_freq(1), (2, 1));
    assert_eq!(c.get_freq(2), (1, 1));
    assert_eq!(c.get_freq_multiplier(1), (8, 72));
    assert_eq!(c.get_freq_multiplier(2), (8, 36));
    for y in 1..5usize {
        for x in 1..5usize {
            if (x, y) == (1, 1) {
                continue;
            }
            let fits = if (x + y) % 2 == 0 { 1 } else { 2 };
            let other = 3 - fits;
            assert_eq!(c.get_type((x, y)), TileType::Field);
            for dir in 0..4 {
                assert_eq!(c.get_field((x, y), dir, other), 0, "{} {} {}", x, y, dir);
                assert!(c.get_field((x, y), dir, fits) > 0, "{} {} {}", x, y, dir);
            }
            assert_eq!(c.decide((x, y), 0), (Some(fits), true));
        }
    }
}

#[test]
fn framed_checkerboard_is_synthesized_without_dead_cells() {
    let c = Collapser::synthesize(&framed(), 9, 8, 1628290385006).ok().unwrap();
    assert_eq!(c.dead_tiles(), Some(Vec::new()));
    assert_eq!(c.fallbacks(), 0);
    assert_eq!(c.decided(), 7 * 6);
    assert_eq!(c.damage_len(), 0);
    assert_eq!(c.candidates_len(), 0);
    let first = c.get_type((1, 1));
    assert!(first == TileType::Tile(1) || first == TileType::Tile(2));
    for y in 0..8usize {
        for x in 0..9usize {
            let t = c.get_type((x, y));
            if is_border(&c, x, y) {
                assert_eq!(t, TileType::Tile(0));
            } else if (x + y) % 2 == 0 {
                assert_eq!(t, first);
            } else {
                assert!(t == TileType::Tile(1) || t == TileType::Tile(2));
                assert_ne!(t, first);
            }
        }
    }
}

#[test]
fn same_seed_gives_the_same_grid() {
    let a = Collapser::synthesize(&patchwork(), 12, 10, 424242).ok().unwrap();
    let b = Collapser::synthesize(&patchwork(), 12, 10, 424242).ok().unwrap();
    assert_eq!(types_of(&a), types_of(&b));
    assert_eq!(fields_of(&a), fields_of(&b));
    assert_eq!(a.dead_tiles(), b.dead_tiles());
    assert_eq!(a.decided(), b.decided());
    assert_eq!(a.fallbacks(), b.fallbacks());
}

#[test]
fn run_in_steps_equals_synthesize() {
    let whole = Collapser::synthesize(&patchwork(), 10, 9, 77).ok().unwrap();
    let mut stepped = Collapser::init(&patchwork(), 10, 9).unwrap();
    let mut rng = Rng::new(77);
    stepped.run(&mut rng);
    assert_eq!(types_of(&whole), types_of(&stepped));
    assert_eq!(fields_of(&whole), fields_of(&stepped));
}

#[test]
fn run_by_hand_equals_run() {
    let mut whole = Collapser::init(&patchwork(), 9, 9).unwrap();
    let mut rng = Rng::new(5);
    whole.run(&mut rng);
    let mut by_hand = Collapser::init(&patchwork(), 9, 9).unwrap();
    let mut theirs = oorandom::Rand64::new(5);
    by_hand.recalculate_all(false);
    let mut guard = 0;
    while by_hand.candidates_len() > 0 {
        let index = theirs.rand_range(0..by_hand.candidates_len() as u64) as usize;
        let expected = by_hand.candidates()[index];
        let choice = by_hand.take_candidate(index);
        assert_eq!(choice, expected);
        loop {
            if by_hand.get_type(choice) != TileType::Field {
                break;
            }
            let draw = theirs.rand_u64();
            if !by_hand.collapse_with(choice, draw) {
                break;
            }
        }
        guard += 1;
        assert!(guard < 10_000);
    }
    assert_eq!(types_of(&whole), types_of(&by_hand));
    assert_eq!(fields_of(&whole), fields_of(&by_hand));
    assert_eq!(rng.rand_u64(), theirs.rand_u64());
}

#[test]
fn no_cell_is_left_undecided() {
    for seed in 0..8u128 {
        let c = Collapser::synthesize(&patchwork(), 11, 9, seed).ok().unwrap();
        assert_eq!(count_state(&c, TileType::Field), 0);
        let dead = c.dead_tiles().unwrap();
        assert_eq!(dead.len(), count_state(&c, TileType::Dead));
        for p in dead.iter() {
            assert_eq!(c.get_type(*p), TileType::Dead);
        }
        assert_eq!(c.candidates_len(), 0);
        assert_eq!(c.damage_len(), 0);
    }
}

#[test]
fn decided_neighbors_are_compatible() {
    for seed in 0..8u128 {
        let c = Collapser::synthesize(&patchwork(), 11, 9, seed).ok().unwrap();
        if c.fallbacks() != 0 {
            continue;
        }
        for y in 0..9usize {
            for x in 0..11usize {
                for dir in 0..4usize {
                    let q = c.toward((x, y), dir);
                    if is_border(&c, x, y) && is_border(&c, q.0, q.1) {
                        continue;
                    }
                    if let (TileType::Tile(a), TileType::Tile(b)) = (c.get_type((x, y)), c.get_type(q)) {
                        assert!(c.model().edge_weight(a, b, dir) > 0, "{} {} {} seed {}", x, y, dir, seed);
                    }
                }
            }
        }
    }
}

#[test]
fn dead_cells_are_listed_row_by_row() {
    let c = Collapser::synthesize(&pixels_of(&[&[0, 0, 0], &[0, 0, 0]]), 4, 4, 9).ok().unwrap();
    assert_eq!(c.catalog().tiles.len(), 1);
    assert_eq!(c.dead_tiles(), Some(vec![(1, 1), (2, 1), (1, 2), (2, 2)]));
    assert_eq!(c.decided(), 0);
    assert_eq!(c.fallbacks(), 0);
}

#[test]
fn single_tile_sample_in_a_grid_without_interior() {
    let c = Collapser::synthesize(&pixels_of(&[&[3]]), 2, 2, 9).ok().unwrap();
    assert_eq!(c.dead_tiles(), Some(Vec::new()));
    for y in 0..2 {
        for x in 0..2 {
            assert_eq!(c.get_type((x, y)), TileType::Tile(0));
        }
    }
}

#[test]
fn checkerboard_with_one_inner_cell_is_decided() {
    let c = Collapser::synthesize(&checkerboard(), 3, 3, 1).ok().unwrap();
    assert_eq!(c.get_type((1, 1)), TileType::Tile(1));
    assert_eq!(c.dead_tiles(), Some(Vec::new()));
    assert_eq!(c.decided(), 1);
    assert_eq!(c.fallbacks(), 0);
    for dir in 0..4 {
        assert_eq!(c.get_field((1, 1), dir, 0), 0);
        assert_eq!(c.get_field((1, 1), dir, 1), 2 * ONE);
    }
}

#[test]
fn contradiction_gives_a_dead_cell_report() {
    let c = Collapser::synthesize(&checkerboard(), 4, 3, 1).ok().unwrap();
    let dead = c.dead_tiles().unwrap();
    assert_eq!(dead.len(), 1);
    let alive = if dead[0] == (1, 1) { (2, 1) } else { (1, 1) };
    assert!(dead[0] == (1, 1) || dead[0] == (2, 1));
    assert_eq!(c.get_type(dead[0]), TileType::Dead);
    assert_eq!(c.get_type(alive), TileType::Tile(1));
    for tile in 0..2 {
        for dir in 0..4 {
            assert_eq!(c.get_field(dead[0], dir, tile), 0);
        }
    }
}

#[test]
fn report_is_none_while_cells_are_undecided() {
    let mut c = Collapser::init(&framed(), 5, 5).unwrap();
    assert_eq!(c.dead_tiles(), None);
    c.recalculate_all(false);
    assert_eq!(c.dead_tiles(), None);
}

#[test]
fn restore_gives_back_the_snapshot() {
    let mut c = Collapser::init(&patchwork(), 8, 7).unwrap();
    c.recalculate_all(false);
    let fields = fields_of(&c);
    let damage = c.damage_len();
    let candidates = c.candidates();
    let snap = c.snapshot();
    let mut rng = Rng::new(3);
    for p in candidates.iter().take(5) {
        c.collapse(*p, &mut rng);
    }
    c.recalculate((3, 3));
    assert_ne!(fields_of(&c), fields);
    c.restore(snap);
    assert_eq!(fields_of(&c), fields);
    assert_eq!(c.damage_len(), damage);
    assert_eq!(c.candidates(), candidates);
}

#[test]
fn restore_twice_from_equal_snapshots() {
    let mut c = Collapser::init(&framed(), 6, 6).unwrap();
    let first = c.snapshot();
    let second = c.snapshot();
    let fields = fields_of(&c);
    let damage = c.damage();
    c.recalculate_all(false);
    c.restore(first);
    assert_eq!(fields_of(&c), fields);
    assert_eq!(c.damage(), damage);
    c.recalculate_all(false);
    c.restore(second);
    assert_eq!(fields_of(&c), fields);
    assert_eq!(c.damage(), damage);
    assert_eq!(c.candidates_len(), 0);
}

#[test]
fn border_queue_order() {
    let c = Collapser::init(&framed(), 4, 3).unwrap();
    assert_eq!(
        c.damage(),
        vec![
            (1, 0), (2, 0), (1, 1), (2, 1), (1, 2), (2, 2),
            (0, 1), (0, 1), (1, 1), (1, 1), (2, 1), (2, 1), (3, 1), (3, 1),
        ]
    );
}

#[test]
fn failed_attempt_is_taken_back() {
    let mut c = Collapser::init(&knotty(), 9, 8).unwrap();
    c.recalculate_all(false);
    let mut rng = oorandom::Rand64::new(2);
    for _ in 0..2 {
        let index = rng.rand_range(0..c.candidates_len() as u64) as usize;
        let choice = c.take_candidate(index);
        if c.get_type(choice) == TileType::Field {
            let draw = rng.rand_u64();
            assert!(!c.collapse_with(choice, draw));
        }
    }
    let index = rng.rand_range(0..c.candidates_len() as u64) as usize;
    let choice = c.take_candidate(index);
    assert_eq!(choice, (1, 5));
    assert_eq!(c.get_type(choice), TileType::Field);
    let draw = rng.rand_u64();
    assert_eq!(draw, 9975341725267990290);
    assert_eq!(c.decide(choice, draw), (Some(1), false));
    for dir in 0..4 {
        assert!(c.get_field(choice, dir, 1) > 0);
    }
    let decided = c.decided();
    let dead = count_state(&c, TileType::Dead);
    let types = types_of(&c);
    assert!(!c.candidates().contains(&choice));

    assert!(c.collapse_with(choice, draw));

    assert_eq!(c.decided(), decided);
    assert_eq!(c.fallbacks(), 0);
    assert_eq!(c.damage_len(), 0);
    assert!(c.get_type(choice) == TileType::Field || c.get_type(choice) == TileType::Dead);
    for dir in 0..4 {
        assert_eq!(c.get_field(choice, dir, 1), 0);
    }
    assert!(c.candidates().contains(&choice));
    assert!(count_state(&c, TileType::Dead) > dead);
    let after = types_of(&c);
    for y in 0..8 {
        for x in 0..9 {
            if types[y][x] != TileType::Field {
                assert_eq!(after[y][x], types[y][x]);
            } else {
                assert!(after[y][x] == TileType::Field || after[y][x] == TileType::Dead);
            }
        }
    }
    if c.get_type(choice) == TileType::Field {
        let again = c.decide(choice, draw).0;
        assert_ne!(again, Some(1));
    }
}

#[test]
fn synthesis_with_a_failed_attempt_ends_at_rest() {
    let c = Collapser::synthesize(&knotty(), 9, 8, 2).ok().unwrap();
    assert_eq!(count_state(&c, TileType::Field), 0);
    assert_eq!(c.dead_tiles().map(|d| d.len()), Some(2));
    assert_eq!(c.decided(), 40);
    assert_eq!(c.fallbacks(), 0);
    for y in 0..8usize {
        for x in 0..9usize {
            for dir in 0..4usize {
                let q = c.toward((x, y), dir);
                if is_border(&c, x, y) && is_border(&c, q.0, q.1) {
                    continue;
                }
                if let (TileType::Tile(a), TileType::Tile(b)) = (c.get_type((x, y)), c.get_type(q)) {
                    assert!(c.model().edge_weight(a, b, dir) > 0, "{} {} {}", x, y, dir);
                }
            }
        }
    }
}

#[test]
fn cell_without_a_possible_tile_falls_back_on_the_most_common() {
    let mut c = Collapser::init(&framed(), 5, 5).unwrap();
    c.recalculate_all(false);
    assert_eq!(c.model().most_common(), 0);
    for tile in 1..3 {
        for dir in 0..4 {
            c.ban((2, 2), tile, dir);
        }
    }
    for tile in 0..3 {
        assert_eq!(c.score((2, 2), tile), 0);
    }
    assert_eq!(c.damage_len(), 8);
    assert_eq!(c.decide((2, 2), 123), (None, true));
    assert!(!c.collapse_with((2, 2), 123));
    assert_eq!(c.get_type((2, 2)), TileType::Tile(0));
    assert_eq!(c.fallbacks(), 1);
    assert_eq!(c.decided(), 1);
    assert_eq!(c.get_freq(0), (2, 1));
    assert_eq!(c.damage_len(), 0);
}

#[test]
fn ban_clears_both_sides_and_queues_the_neighbor() {
    let mut c = Collapser::init(&framed(), 6, 6).unwrap();
    c.recalculate_all(false);
    let before = fields_of(&c);
    c.ban((2, 2), 1, 0);
    assert_eq!(c.get_field((2, 2), 0, 1), 0);
    assert_eq!(c.get_field((3, 2), 2, 1), 0);
    assert_eq!(c.damage(), vec![(3, 2)]);
    let after = fields_of(&c);
    for y in 0..6 {
        for x in 0..6 {
            for k in 0..12 {
                let cleared = ((x, y) == (2, 2) && k == 4) || ((x, y) == (3, 2) && k == 6);
                if !cleared {
                    assert_eq!(after[y][x][k], before[y][x][k]);
                }
            }
        }
    }
}

#[test]
fn forced_decision_with_a_dying_neighbor_is_accepted() {
    let mut c = Collapser::init(&checkerboard(), 4, 3).unwrap();
    assert_eq!(c.recalculate((1, 1)), Severity::Changed);
    assert_eq!(c.recalculate((2, 1)), Severity::Dead);
    assert_eq!(c.get_type((2, 1)), TileType::Dead);
    assert_eq!(c.decide((1, 1), 0), (Some(1), true));
    assert!(!c.collapse_with((1, 1), 0));
    assert_eq!(c.get_type((1, 1)), TileType::Tile(1));
    assert_eq!(c.decided(), 1);
    assert_eq!(c.dead_tiles(), Some(vec![(2, 1)]));
}

#[test]
fn weights_of_a_synthesized_sample_add_up() {
    let c = Collapser::init(&knotty(), 4, 4).unwrap();
    let n = c.model().tile_count();
    assert_eq!(n, 6);
    for a in 1..n {
        assert!(c.model().freq(a) > 0);
        for dir in 0..4 {
            let mut sum = 0u64;
            for b in 0..n {
                sum += c.model().edge_weight(a, b, dir) as u64;
            }
            assert!(sum <= ONE as u64 + n as u64);
            assert!(sum + n as u64 >= ONE as u64);
        }
    }
}

#[test]
fn pocket_behind_dead_cells_stays_undecided() {
    let px = pixels_of(&[&[0, 0, 0], &[0, 1, 0], &[0, 0, 0]]);
    let c = Collapser::synthesize(&px, 7, 7, 0).ok().unwrap();
    assert_eq!(c.dead_tiles(), None);
    assert!(count_state(&c, TileType::Field) > 0);
    assert!(count_state(&c, TileType::Dead) > 0);
    assert_eq!(c.candidates_len(), 0);
    assert_eq!(c.damage_len(), 0);
    for y in 0..7usize {
        for x in 0..7usize {
            if c.get_type((x, y)) == TileType::Field {
                for dir in 0..4 {
                    assert!(!c.get_type(c.toward((x, y), dir)).is_real());
                }
            }
        }
    }
}

#[test]
fn fallback_is_counted() {
    let px = pixels_of(&[&[0, 5, 5, 3], &[0, 1, 2, 0], &[5, 4, 4, 2], &[5, 0, 5, 2]]);
    let c = Collapser::synthesize(&px, 9, 6, 0).ok().unwrap();
    assert_eq!(c.fallbacks(), 1);
    assert!(c.decided() >= 1);
    assert_eq!(c.candidates_len(), 0);
    assert_eq!(c.damage_len(), 0);
}
