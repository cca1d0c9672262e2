use voxeltide::mapgen::{Flood, GenerateMap};
use voxeltide::store::{Tile, VoxelStore};

fn generate(w: usize, h: usize, d: usize, heights: Vec<usize>, veg: Vec<bool>) -> VoxelStore {
    let mut s = VoxelStore::new(w, h, d).unwrap();
    GenerateMap::run(&mut s, &heights, &veg);
    s
}

#[test]
fn single_column_layout_and_first_flood() {
    // A 1x1x5 grid whose height field came out at the lower clamp.
    let mut s = generate(1, 1, 5, vec![1], vec![true]);
    assert_eq!(s.lookup(0, 0, 0), Some(Tile::Terrain));
    for z in 1..4 {
        assert_eq!(s.lookup(0, 0, z), Some(Tile::Water));
    }
    // z = 3 holds water, not terrain, so the vegetation flag places no tree.
    assert_eq!(s.lookup(0, 0, 4), None);
    assert_eq!(s.current_sealevel(), 3);

    // The single column is its own seed row: plane 4 floods.
    Flood::run(&mut s);
    assert_eq!(s.lookup(0, 0, 4), Some(Tile::Water));
    assert_eq!(s.current_sealevel(), 4);
}

#[test]
fn baseline_depth_is_always_occupied() {
    let s = generate(3, 2, 6, vec![1, 2, 3, 4, 5, 1], vec![false; 6]);
    for x in 0..3 {
        for y in 0..2 {
            for z in 0..4 {
                assert!(s.lookup(x, y, z).is_some());
            }
        }
    }
}

#[test]
fn terrain_and_water_split_follows_the_height_field() {
    // heights indexed by y * w + x
    let s = generate(2, 1, 6, vec![2, 5], vec![false, false]);
    assert_eq!(s.lookup(0, 0, 0), Some(Tile::Terrain));
    assert_eq!(s.lookup(0, 0, 1), Some(Tile::Terrain));
    assert_eq!(s.lookup(0, 0, 2), Some(Tile::Water));
    assert_eq!(s.lookup(0, 0, 3), Some(Tile::Water));
    assert_eq!(s.lookup(0, 0, 4), None);
    for z in 0..5 {
        assert_eq!(s.lookup(1, 0, z), Some(Tile::Terrain));
    }
    assert_eq!(s.lookup(1, 0, 5), None);
}

#[test]
fn tree_goes_directly_above_terrain() {
    let s = generate(1, 1, 6, vec![4], vec![true]);
    for z in 0..4 {
        assert_eq!(s.lookup(0, 0, z), Some(Tile::Terrain));
    }
    assert_eq!(s.lookup(0, 0, 4), Some(Tile::Trees));
    assert_eq!(s.lookup(0, 0, 5), None);
}

#[test]
fn no_tree_without_vegetation() {
    let s = generate(1, 1, 6, vec![4], vec![false]);
    assert_eq!(s.lookup(0, 0, 4), None);
}

#[test]
fn at_most_one_tree_per_column() {
    let s = generate(2, 2, 8, vec![4, 5, 6, 7], vec![true; 4]);
    for x in 0..2 {
        for y in 0..2 {
            let mut trees = 0;
            for z in 0..8 {
                if s.lookup(x, y, z) == Some(Tile::Trees) {
                    // always directly above terrain
                    assert_eq!(s.lookup(x, y, z - 1), Some(Tile::Terrain));
                    trees += 1;
                }
            }
            assert!(trees <= 1);
        }
    }
}

#[test]
fn flood_converts_tree_at_the_plane() {
    let mut s = generate(1, 1, 6, vec![4], vec![true]);
    assert_eq!(s.lookup(0, 0, 4), Some(Tile::Trees));
    Flood::run(&mut s);
    assert_eq!(s.lookup(0, 0, 4), Some(Tile::Water));
}

#[test]
fn flood_never_converts_terrain() {
    let mut s = generate(1, 1, 6, vec![5], vec![false]);
    assert_eq!(s.lookup(0, 0, 4), Some(Tile::Terrain));
    Flood::run(&mut s);
    // The capped column is not floodable, but the tick still advances.
    assert_eq!(s.lookup(0, 0, 4), Some(Tile::Terrain));
    for z in 0..4 {
        assert_eq!(s.lookup(0, 0, z), Some(Tile::Terrain), "z={z}");
    }
    assert_eq!(s.current_sealevel(), 4);
}

#[test]
fn sealevel_rises_by_one_per_tick() {
    let mut s = generate(1, 1, 8, vec![1], vec![false]);
    assert_eq!(s.current_sealevel(), 3);
    Flood::run(&mut s);
    assert_eq!(s.current_sealevel(), 4);
    Flood::run(&mut s);
    assert_eq!(s.current_sealevel(), 5);
    Flood::run(&mut s);
    assert_eq!(s.current_sealevel(), 6);
}

#[test]
fn walled_interior_column_stays_dry() {
    // A 3x3x6 grid: the four columns around the center rise above the
    // flood plane, isolating the center from the y = 0 edge.
    let wall = 5;
    let low = 1;
    let heights = vec![
        low, wall, low, // y = 0
        wall, low, wall, // y = 1
        low, wall, low, // y = 2
    ];
    let mut s = generate(3, 3, 6, heights, vec![false; 9]);
    Flood::run(&mut s);
    assert_eq!(s.current_sealevel(), 4);

    // The walls still stand at the plane.
    assert_eq!(s.lookup(1, 0, 4), Some(Tile::Terrain));
    assert_eq!(s.lookup(0, 1, 4), Some(Tile::Terrain));
    assert_eq!(s.lookup(2, 1, 4), Some(Tile::Terrain));
    assert_eq!(s.lookup(1, 2, 4), Some(Tile::Terrain));

    // The seed-row corners flooded.
    assert_eq!(s.lookup(0, 0, 4), Some(Tile::Water));
    assert_eq!(s.lookup(2, 0, 4), Some(Tile::Water));

    // The walled-in center stayed dry: no water was created there.
    assert_eq!(s.lookup(1, 1, 4), None);
    assert_eq!(s.lookup(1, 1, 5), None);

    // Columns cut off behind the walls stayed dry too.
    assert_eq!(s.lookup(0, 2, 4), None);
    assert_eq!(s.lookup(2, 2, 4), None);
}

#[test]
fn open_grid_floods_every_column_at_the_plane() {
    let mut s = generate(3, 3, 6, vec![1; 9], vec![false; 9]);
    Flood::run(&mut s);
    for x in 0..3 {
        for y in 0..3 {
            assert_eq!(s.lookup(x, y, 4), Some(Tile::Water));
        }
    }
}

#[test]
fn vacant_column_fills_whole_subcolumn_away_from_seed_row() {
    // Hand-built state: a 1x2x6 grid, nothing placed, waterline at 3.
    let mut s = VoxelStore::new(1, 2, 6).unwrap();
    s.set_sealevel(3);
    Flood::run(&mut s);
    // The seed-row column gets water at the plane only.
    assert_eq!(s.lookup(0, 0, 4), Some(Tile::Water));
    assert_eq!(s.lookup(0, 0, 0), None);
    assert_eq!(s.lookup(0, 0, 3), None);
    // The propagated column was vacant at the plane: its whole sub-column
    // below sealevel + 2 fills.
    for z in 0..5 {
        assert_eq!(s.lookup(0, 1, z), Some(Tile::Water), "z={z}");
    }
    assert_eq!(s.lookup(0, 1, 5), None);
}

#[test]
fn terrain_inside_a_filled_subcolumn_is_spared() {
    let mut s = VoxelStore::new(1, 2, 6).unwrap();
    s.create_voxel(0, 1, 2, Tile::Terrain);
    s.set_sealevel(3);
    Flood::run(&mut s);
    assert_eq!(s.lookup(0, 1, 2), Some(Tile::Terrain));
    assert_eq!(s.lookup(0, 1, 1), Some(Tile::Water));
    assert_eq!(s.lookup(0, 1, 3), Some(Tile::Water));
    assert_eq!(s.lookup(0, 1, 4), Some(Tile::Water));
}

#[test]
fn flood_reaches_around_a_bend() {
    // A 2x3x6 grid where the straight path up the first column is blocked,
    // but the flood can go around through the second column.
    let wall = 5;
    let low = 1;
    let heights = vec![
        low, low, // y = 0
        wall, low, // y = 1
        low, low, // y = 2
    ];
    let mut s = generate(2, 3, 6, heights, vec![false; 6]);
    Flood::run(&mut s);
    assert_eq!(s.lookup(0, 1, 4), Some(Tile::Terrain));
    assert_eq!(s.lookup(0, 2, 4), Some(Tile::Water));
    assert_eq!(s.lookup(1, 1, 4), Some(Tile::Water));
    assert_eq!(s.lookup(1, 2, 4), Some(Tile::Water));
}
