use voxeltide::store::{ConfigError, Tile, VoxelStore};

#[test]
fn new_accepts_minimal_grid() {
    let s = VoxelStore::new(1, 1, 4).unwrap();
    let (w, h, d) = s.dimensions();
    assert_eq!((w, h, d), (1, 1, 4));
    assert_eq!(s.current_sealevel(), 0);
    for z in 0..4 {
        assert_eq!(s.lookup(0, 0, z), None);
    }
}

#[test]
fn new_rejects_zero_width() {
    assert!(matches!(
        VoxelStore::new(0, 3, 5),
        Err(ConfigError::BadDimensions)
    ));
}

#[test]
fn new_rejects_zero_height() {
    assert!(matches!(
        VoxelStore::new(3, 0, 5),
        Err(ConfigError::BadDimensions)
    ));
}

#[test]
fn new_rejects_shallow_depth() {
    assert!(matches!(
        VoxelStore::new(3, 3, 3),
        Err(ConfigError::BadDimensions)
    ));
}

#[test]
fn new_rejects_unaddressable_cell_count() {
    assert!(matches!(
        VoxelStore::new(usize::MAX, 2, 4),
        Err(ConfigError::TooLarge)
    ));
    assert!(matches!(
        VoxelStore::new(usize::MAX / 2, usize::MAX / 2, 4),
        Err(ConfigError::TooLarge)
    ));
}

#[test]
fn create_and_overwrite_voxel() {
    let mut s = VoxelStore::new(2, 2, 5).unwrap();
    s.create_voxel(1, 1, 2, Tile::Trees);
    assert_eq!(s.lookup(1, 1, 2), Some(Tile::Trees));
    assert_eq!(s.lookup(1, 1, 3), None);
    assert_eq!(s.lookup(0, 1, 2), None);
    s.set_tile(1, 1, 2, Tile::Water);
    assert_eq!(s.lookup(1, 1, 2), Some(Tile::Water));
}

#[test]
fn sealevel_round_trip() {
    let mut s = VoxelStore::new(1, 1, 4).unwrap();
    s.set_sealevel(3);
    assert_eq!(s.current_sealevel(), 3);
}
