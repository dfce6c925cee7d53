use voxel_world::block::{CellChange, VoxelBlock};
use voxel_world::coords::{IVec2, IVec3};
use voxel_world::material::GameMaterial;

#[test]
fn write_then_read() {
    let mut b = VoxelBlock::new(IVec2::new(0, 0));
    let p = IVec3::new(4, 7, 9);
    assert_eq!(b.read(p), None);
    b.write(p, GameMaterial::Blueish);
    assert_eq!(b.read(p), Some(GameMaterial::Blueish));
    assert_eq!(b.read(IVec3::new(9, 7, 4)), None);
}

#[test]
fn take_empties_the_cell() {
    let mut b = VoxelBlock::new(IVec2::new(1, 2));
    let p = IVec3::new(0, 0, 0);
    b.write(p, GameMaterial::Greenish);
    assert_eq!(b.take(p), Some(GameMaterial::Greenish));
    assert_eq!(b.read(p), None);
    assert_eq!(b.take(p), None);
    assert_eq!(b.pos(), IVec2::new(1, 2));
}

#[test]
fn mesh_changes_are_recorded_and_drained() {
    let mut b = VoxelBlock::new(IVec2::new(0, 0));
    let p = IVec3::new(1, 2, 3);
    b.write(p, GameMaterial::Reddish);
    b.take(p);
    let changes = b.drain_mesh_changes();
    assert_eq!(
        changes,
        vec![
            CellChange { local: p, material: Some(GameMaterial::Reddish) },
            CellChange { local: p, material: None },
        ]
    );
    assert!(b.drain_mesh_changes().is_empty());
}

#[test]
fn forbidden_column_has_no_empty_cell_to_offer() {
    let mut b = VoxelBlock::new(IVec2::new(0, 0));
    b.forbid_column(IVec2::new(3, 4));
    assert!(b.is_forbidden(IVec2::new(3, 4)));
    assert!(!b.is_forbidden(IVec2::new(4, 3)));
    assert_eq!(b.empty_at_col(IVec2::new(3, 4)), None);
    assert_eq!(b.empty_at_col(IVec2::new(4, 3)), Some(IVec3::new(4, 0, 3)));
}

#[test]
fn empty_at_col_is_lowest_gap() {
    let mut b = VoxelBlock::new(IVec2::new(0, 0));
    for y in 0..5 {
        b.write(IVec3::new(2, y, 2), GameMaterial::Brownish);
    }
    b.write(IVec3::new(2, 6, 2), GameMaterial::Brownish);
    assert_eq!(b.empty_at_col(IVec2::new(2, 2)), Some(IVec3::new(2, 5, 2)));
    for y in 0..32 {
        if b.read(IVec3::new(7, y, 7)).is_none() {
            b.write(IVec3::new(7, y, 7), GameMaterial::Blueish);
        }
    }
    assert_eq!(b.empty_at_col(IVec2::new(7, 7)), None);
}

#[test]
fn is_column_empty_reads_the_bottom() {
    let mut b = VoxelBlock::new(IVec2::new(0, 0));
    assert!(b.is_column_empty(IVec2::new(5, 6)));
    b.write(IVec3::new(5, 0, 6), GameMaterial::Blueish);
    assert!(!b.is_column_empty(IVec2::new(5, 6)));
}

#[test]
fn closest_columns_by_radius() {
    let b = VoxelBlock::new(IVec2::new(0, 0));
    assert_eq!(b.closest_columns(IVec2::new(10, 10), 0), vec![IVec2::new(10, 10)]);
    assert_eq!(
        b.closest_columns(IVec2::new(10, 10), 1),
        vec![
            IVec2::new(9, 10),
            IVec2::new(10, 9),
            IVec2::new(10, 10),
            IVec2::new(10, 11),
            IVec2::new(11, 10),
        ]
    );
    assert_eq!(b.closest_columns(IVec2::new(0, 0), 2).len(), 4);
    assert_eq!(b.closest_columns(IVec2::new(-100, -100), 25).len(), 0);
    assert_eq!(b.closest_columns(IVec2::new(16, 16), 10_000).len(), 1024);
}

#[test]
fn material_in_col_filters_by_mask_bottom_up() {
    let mut b = VoxelBlock::new(IVec2::new(0, 0));
    b.write(IVec3::new(1, 0, 1), GameMaterial::Reddish);
    b.write(IVec3::new(1, 1, 1), GameMaterial::Blueish);
    b.write(IVec3::new(1, 2, 1), GameMaterial::Reddish);
    b.write(IVec3::new(1, 5, 1), GameMaterial::Greenish);
    let mask = GameMaterial::any_of_mask(&[GameMaterial::Reddish, GameMaterial::Greenish]);
    assert_eq!(
        b.material_in_col(IVec2::new(1, 1), mask),
        vec![
            (GameMaterial::Reddish, IVec3::new(1, 0, 1)),
            (GameMaterial::Reddish, IVec3::new(1, 2, 1)),
            (GameMaterial::Greenish, IVec3::new(1, 5, 1)),
        ]
    );
    assert!(b.material_in_col(IVec2::new(1, 1), 0).is_empty());
}
