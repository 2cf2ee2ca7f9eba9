use tile_collapse::adjacency::AdjacencyModel;
use tile_collapse::catalog::{sample_size, TileCatalog};
use tile_collapse::pixel::{get_tile_from_image, same_tile, Rgba, TILESIZE};
use tile_collapse::weight::ONE;

fn color(id: u8) -> Rgba {
    Rgba::new(id.wrapping_mul(40), 255 - id, id, 255)
}

fn sample_of(ids: &[&[u8]]) -> Vec<Vec<Rgba>> {
    let mut px = Vec::new();
    for row in ids {
        for _ in 0..TILESIZE {
            let mut line = Vec::new();
            for id in row.iter() {
                for _ in 0..TILESIZE {
                    line.push(color(*id));
                }
            }
            px.push(line);
        }
    }
    px
}

fn row_sum(model: &AdjacencyModel, a: usize, dir: usize) -> u64 {
    let mut sum = 0u64;
    for b in 0..model.tile_count() {
        sum += model.edge_weight(a, b, dir) as u64;
    }
    sum
}

#[test]
fn pixel_new_keeps_channels() {
    let px = Rgba::new(1, 2, 3, 4);
    assert_eq!(px.r, 1);
    assert_eq!(px.g, 2);
    assert_eq!(px.b, 3);
    assert_eq!(px.a, 4);
    assert_eq!(px, Rgba { r: 1, g: 2, b: 3, a: 4 });
}

#[test]
fn tile_is_copied_row_by_row() {
    let mut px = sample_of(&[&[0, 1], &[2, 3]]);
    px[TILESIZE + 2][TILESIZE + 5] = Rgba::new(9, 9, 9, 9);
    let tile = get_tile_from_image(&px, (1, 1));
    assert_eq!(tile.len(), TILESIZE * TILESIZE);
    for iy in 0..TILESIZE {
        for ix in 0..TILESIZE {
            assert_eq!(tile[iy * TILESIZE + ix], px[TILESIZE + iy][TILESIZE + ix]);
        }
    }
    assert_eq!(tile[2 * TILESIZE + 5], Rgba::new(9, 9, 9, 9));
    let other = get_tile_from_image(&px, (0, 1));
    assert_eq!(other[0], color(2));
    assert!(!same_tile(&tile, &other));
    assert!(same_tile(&other, &get_tile_from_image(&px, (0, 1))));
}

#[test]
fn sample_size_in_tiles() {
    let px = sample_of(&[&[0, 1, 2], &[2, 3, 0]]);
    assert_eq!(sample_size(&px), Some((3, 2)));
}

#[test]
fn sample_size_rejects_ragged_and_partial_samples() {
    assert_eq!(sample_size(&Vec::new()), None);
    let mut px = sample_of(&[&[0, 1]]);
    px.pop();
    assert_eq!(sample_size(&px), None);
    let mut ragged = sample_of(&[&[0, 1]]);
    ragged[3].pop();
    assert_eq!(sample_size(&ragged), None);
    let mut narrow = sample_of(&[&[0]]);
    for line in narrow.iter_mut() {
        line.pop();
    }
    assert_eq!(sample_size(&narrow), None);
    let empty_rows: Vec<Vec<Rgba>> = vec![Vec::new(); TILESIZE];
    assert_eq!(sample_size(&empty_rows), None);
}

#[test]
fn catalog_numbers_tiles_in_first_seen_order() {
    let px = sample_of(&[&[7, 3, 7], &[5, 3, 9]]);
    let cat = TileCatalog::extract(&px);
    assert_eq!(cat.grid, vec![vec![0, 1, 0], vec![2, 1, 3]]);
    assert_eq!(cat.tiles.len(), 4);
    assert_eq!(cat.tiles[0][0], color(7));
    assert_eq!(cat.tiles[1][0], color(3));
    assert_eq!(cat.tiles[2][0], color(5));
    assert_eq!(cat.tiles[3][0], color(9));
    for tile in cat.tiles.iter() {
        assert_eq!(tile.len(), TILESIZE * TILESIZE);
    }
}

#[test]
fn catalog_tells_tiles_apart_by_a_single_pixel() {
    let mut px = sample_of(&[&[1, 1]]);
    px[15][31] = Rgba::new(0, 0, 0, 0);
    let cat = TileCatalog::extract(&px);
    assert_eq!(cat.grid, vec![vec![0, 1]]);
    assert_eq!(cat.tiles.len(), 2);
    assert_eq!(TileCatalog::find(&cat.tiles, &get_tile_from_image(&px, (1, 0))), Some(1));
    let foreign = vec![Rgba::new(1, 1, 1, 1); TILESIZE * TILESIZE];
    assert_eq!(TileCatalog::find(&cat.tiles, &foreign), None);
}

#[test]
fn checkerboard_sample_has_two_tiles() {
    let px = sample_of(&[&[0, 1], &[1, 0]]);
    assert_eq!(px.len(), 32);
    assert_eq!(px[0].len(), 32);
    let cat = TileCatalog::extract(&px);
    assert_eq!(cat.tiles.len(), 2);
    assert_eq!(cat.grid, vec![vec![0, 1], vec![1, 0]]);
}

#[test]
fn checkerboard_adjacency() {
    let grid = vec![vec![0usize, 1], vec![1, 0]];
    let model = AdjacencyModel::build(&grid, 2).unwrap();
    assert_eq!(model.tile_count(), 2);
    assert_eq!(model.forbidden(), 0);
    assert_eq!(model.total_freq(), 4);
    assert_eq!(model.freq(0), 2);
    assert_eq!(model.freq(1), 2);
    for dir in 0..4 {
        assert_eq!(model.edge_weight(1, 0, dir), ONE);
        assert_eq!(model.edge_weight(1, 1, dir), 0);
        assert_eq!(model.edge_weight(0, 1, dir), 2 * ONE);
        assert_eq!(model.edge_weight(0, 0, dir), 0);
    }
    assert_eq!(model.most_common(), 1);
}

#[test]
fn single_tile_adjacency() {
    let grid = vec![vec![0usize, 0, 0], vec![0, 0, 0]];
    let model = AdjacencyModel::build(&grid, 1).unwrap();
    assert_eq!(model.tile_count(), 1);
    assert_eq!(model.freq(0), 6);
    assert_eq!(model.total_freq(), 6);
    assert_eq!(model.most_common(), 0);
    for dir in 0..4 {
        assert_eq!(model.edge_weight(0, 0, dir), 6 * ONE);
    }
}

#[test]
fn adjacency_counts_with_wrap_around() {
    let grid = vec![vec![0usize, 1, 2]];
    let model = AdjacencyModel::build(&grid, 3).unwrap();
    assert_eq!(model.edge_weight(1, 2, 0), ONE);
    assert_eq!(model.edge_weight(1, 0, 2), ONE);
    assert_eq!(model.edge_weight(2, 0, 0), ONE);
    assert_eq!(model.edge_weight(2, 1, 2), ONE);
    assert_eq!(model.edge_weight(1, 1, 1), ONE);
    assert_eq!(model.edge_weight(1, 1, 3), ONE);
    assert_eq!(model.edge_weight(1, 2, 1), 0);
    assert_eq!(model.edge_weight(0, 1, 0), ONE);
    assert_eq!(model.edge_weight(0, 2, 2), ONE);
    assert_eq!(model.edge_weight(0, 0, 1), ONE);
}

#[test]
fn adjacency_shares() {
    let grid = vec![vec![0usize, 1, 1, 2], vec![0, 1, 2, 2], vec![0, 1, 1, 1]];
    let model = AdjacencyModel::build(&grid, 3).unwrap();
    assert_eq!(model.freq(1), 6);
    assert_eq!(model.edge_weight(1, 1, 0), 500_000);
    assert_eq!(model.edge_weight(1, 2, 0), 333_333);
    assert_eq!(model.edge_weight(1, 0, 0), 166_666);
    assert_eq!(model.edge_weight(0, 1, 0), 3 * ONE);
    assert_eq!(model.most_common(), 1);
}

#[test]
fn rows_of_weights_add_up_to_one() {
    let grid = vec![
        vec![0usize, 1, 1, 2, 3],
        vec![0, 1, 2, 2, 3],
        vec![0, 4, 1, 1, 3],
        vec![5, 4, 1, 6, 3],
    ];
    let model = AdjacencyModel::build(&grid, 7).unwrap();
    for a in 1..7 {
        for dir in 0..4 {
            let sum = row_sum(&model, a, dir);
            assert!(sum <= ONE as u64 + 7, "tile {} direction {}: {}", a, dir, sum);
            assert!(sum + 7 > ONE as u64, "tile {} direction {}: {}", a, dir, sum);
        }
    }
}

#[test]
fn support_of_weights_is_symmetric() {
    let grid = vec![
        vec![0usize, 1, 1, 2, 3],
        vec![0, 1, 2, 2, 3],
        vec![0, 4, 1, 1, 3],
        vec![5, 4, 1, 6, 3],
    ];
    let model = AdjacencyModel::build(&grid, 7).unwrap();
    for a in 0..7 {
        for b in 0..7 {
            for dir in 0..4 {
                let there = model.edge_weight(a, b, dir) > 0;
                let back = model.edge_weight(b, a, (dir + 2) % 4) > 0;
                assert_eq!(there, back, "{} {} {}", a, b, dir);
            }
        }
    }
}

#[test]
fn most_common_is_the_first_to_reach_the_top_count() {
    let grid = vec![vec![0usize, 1, 2, 2, 1]];
    let model = AdjacencyModel::build(&grid, 3).unwrap();
    assert_eq!(model.freq(1), 2);
    assert_eq!(model.freq(2), 2);
    assert_eq!(model.most_common(), 2);
}
