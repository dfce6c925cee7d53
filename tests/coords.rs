use voxel_world::block::VoxelBlock;
use voxel_world::coords::{IVec2, IVec3};

#[test]
fn hmm() {
    assert_eq!(
        VoxelBlock::real_pos(IVec2::new(0, 0), IVec3::new(0, 0, 0)),
        IVec3::new(0, 0, 0)
    );
    assert_eq!(
        VoxelBlock::inner_pos(IVec3::new(0, 0, 0)),
        (IVec2::new(0, 0), IVec3::new(0, 0, 0))
    );
    assert_eq!(
        VoxelBlock::real_pos(IVec2::new(0, 1), IVec3::new(0, 0, 0)),
        IVec3::new(0, 0, 32)
    );
    assert_eq!(
        VoxelBlock::real_pos(IVec2::new(0, 1), IVec3::new(1, 0, 1)),
        IVec3::new(1, 0, 33)
    );
}

#[test]
fn inner_pos_of_negative_positions() {
    assert_eq!(
        VoxelBlock::inner_pos(IVec3::new(-1, 5, -33)),
        (IVec2::new(-1, -2), IVec3::new(31, 5, 31))
    );
    assert_eq!(
        VoxelBlock::inner_pos(IVec3::new(64, 0, -32)),
        (IVec2::new(2, -1), IVec3::new(0, 0, 0))
    );
}

#[test]
fn coordinate_round_trip_on_samples() {
    let samples = [
        IVec3::new(0, 0, 0),
        IVec3::new(31, 31, 31),
        IVec3::new(32, 7, -1),
        IVec3::new(-1000, 3, 12345),
        IVec3::new(i32::MIN, 0, i32::MAX),
    ];
    for p in samples {
        let (chunk, local) = VoxelBlock::inner_pos(p);
        assert!(local.x >= 0 && local.x < 32 && local.z >= 0 && local.z < 32);
        assert_eq!(VoxelBlock::real_pos(chunk, local), p);
    }
}

#[test]
fn normalize_carries_into_chunk() {
    assert_eq!(
        VoxelBlock::normalize_pos(IVec2::new(0, 0), IVec3::new(-1, 3, 40)),
        (IVec2::new(-1, 1), IVec3::new(31, 3, 8))
    );
    assert_eq!(
        VoxelBlock::normalize_pos(IVec2::new(5, -5), IVec3::new(10, 40, 10)),
        (IVec2::new(5, -5), IVec3::new(10, 40, 10))
    );
}

#[test]
fn within_bounds_edges() {
    assert!(VoxelBlock::within_bounds(IVec3::new(0, 0, 0)));
    assert!(VoxelBlock::within_bounds(IVec3::new(31, 31, 31)));
    assert!(!VoxelBlock::within_bounds(IVec3::new(32, 0, 0)));
    assert!(!VoxelBlock::within_bounds(IVec3::new(0, -1, 0)));
    assert!(!VoxelBlock::within_bounds(IVec3::new(0, 0, 32)));
}

