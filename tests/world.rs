use rand::rngs::StdRng;
use rand::SeedableRng;
use voxel_world::block::VoxelBlock;
use voxel_world::changes::{apply_changes, VoxelBlockChanges};
use voxel_world::coords::{IVec2, IVec3};
use voxel_world::material::GameMaterial;
use voxel_world::wholeworld::{blocks_around, must_fall, BlockState, WholeBlockWorld};

fn world_with_origin_chunk() -> WholeBlockWorld {
    let mut world = WholeBlockWorld::new();
    world.lazy_world.insert_part(VoxelBlock::new(IVec2::new(0, 0)));
    world
}

fn count_full(world: &WholeBlockWorld, chunk: IVec2) -> usize {
    let block = world.lazy_world.get_part(chunk).unwrap();
    let mut n = 0;
    for x in 0..32 {
        for y in 0..32 {
            for z in 0..32 {
                if block.read(IVec3::new(x, y, z)).is_some() {
                    n += 1;
                }
            }
        }
    }
    n
}

#[test]
fn drop_onto_empty_chunk_lands_on_floor() {
    let mut world = world_with_origin_chunk();
    let mut changes = VoxelBlockChanges::new();
    let mut rng = StdRng::seed_from_u64(1);
    world.drop_block(IVec2::new(3, 3), GameMaterial::Reddish, &mut changes, &mut rng);
    assert_eq!(
        world.get_block_value(IVec3::new(3, 0, 3)),
        BlockState::Full(GameMaterial::Reddish)
    );
    assert_eq!(count_full(&world, IVec2::new(0, 0)), 1);
    assert_eq!(changes.pending_len(IVec2::new(0, 0)), 0);
}

#[test]
fn second_drop_slides_off_the_first() {
    let mut world = world_with_origin_chunk();
    let mut changes = VoxelBlockChanges::new();
    let mut rng = StdRng::seed_from_u64(2);
    world.drop_block(IVec2::new(10, 10), GameMaterial::Blueish, &mut changes, &mut rng);
    world.drop_block(IVec2::new(10, 10), GameMaterial::Greenish, &mut changes, &mut rng);
    assert_eq!(
        world.get_block_value(IVec3::new(10, 0, 10)),
        BlockState::Full(GameMaterial::Blueish)
    );
    assert_eq!(world.get_block_value(IVec3::new(10, 1, 10)), BlockState::Empty);
    let mut greens = 0;
    for x in 9..12 {
        for z in 9..12 {
            if world.get_block_value(IVec3::new(x, 0, z)) == BlockState::Full(GameMaterial::Greenish) {
                greens += 1;
            }
        }
    }
    assert_eq!(greens, 1);
    assert_eq!(count_full(&world, IVec2::new(0, 0)), 2);
}

#[test]
fn push_into_packed_column_relocates() {
    let mut world = world_with_origin_chunk();
    let mut changes = VoxelBlockChanges::new();
    let mut rng = StdRng::seed_from_u64(3);
    for y in 0..32 {
        world
            .lazy_world
            .write_cell(IVec2::new(0, 0), IVec3::new(5, y, 5), GameMaterial::Brownish);
    }
    let target = IVec3::new(5, 10, 5);
    world.push_block(target, GameMaterial::Blueish, &mut changes, &mut rng);
    assert_eq!(world.get_block_value(target), BlockState::Full(GameMaterial::Brownish));
    assert!(count_full(&world, IVec2::new(0, 0)) <= 33);
    for y in 0..32 {
        assert_eq!(
            world.get_block_value(IVec3::new(5, y, 5)),
            BlockState::Full(GameMaterial::Brownish)
        );
    }
}

#[test]
fn forbidden_column_never_fills() {
    let mut world = WholeBlockWorld::new();
    let mut block = VoxelBlock::new(IVec2::new(0, 0));
    block.forbid_column(IVec2::new(2, 2));
    world.lazy_world.insert_part(block);
    let mut changes = VoxelBlockChanges::new();
    let mut rng = StdRng::seed_from_u64(4);
    for _ in 0..5 {
        world.push_block(IVec3::new(2, 0, 2), GameMaterial::Greenish, &mut changes, &mut rng);
        world.drop_block(IVec2::new(2, 2), GameMaterial::Greenish, &mut changes, &mut rng);
    }
    for y in 0..32 {
        assert_eq!(world.get_block_value(IVec3::new(2, y, 2)), BlockState::Forbidden);
    }
    assert!(world.is_in_forbidden_column(IVec3::new(2, 17, 2)));
    assert!(!world.is_in_forbidden_column(IVec3::new(3, 0, 2)));
    assert!(count_full(&world, IVec2::new(0, 0)) >= 1);
}

#[test]
fn push_into_missing_chunk_is_queued() {
    let mut world = world_with_origin_chunk();
    let mut changes = VoxelBlockChanges::new();
    let mut rng = StdRng::seed_from_u64(5);
    world.push_block(IVec3::new(40, 3, -5), GameMaterial::Reddish, &mut changes, &mut rng);
    assert_eq!(changes.pending_len(IVec2::new(1, -1)), 1);
    assert_eq!(count_full(&world, IVec2::new(0, 0)), 0);
    assert_eq!(world.get_block_value(IVec3::new(40, 3, -5)), BlockState::Empty);
    assert!(!world.is_initialized_by_blockpos(IVec2::new(1, -1)));
}

#[test]
fn steal_collapses_simple_stack() {
    let mut world = world_with_origin_chunk();
    let mut changes = VoxelBlockChanges::new();
    let mut rng = StdRng::seed_from_u64(6);
    let c = IVec2::new(0, 0);
    let stack = [
        GameMaterial::Reddish,
        GameMaterial::Greenish,
        GameMaterial::Blueish,
        GameMaterial::Brownish,
    ];
    for (y, m) in stack.iter().enumerate() {
        world.lazy_world.write_cell(c, IVec3::new(10, y as i32, 10), *m);
    }
    // hold the column up on every side
    for x in 9..12 {
        for z in 9..12 {
            if x == 10 && z == 10 {
                continue;
            }
            for y in 0..2 {
                world.lazy_world.write_cell(c, IVec3::new(x, y, z), GameMaterial::Brownish);
            }
        }
    }
    let before = count_full(&world, c);
    let stolen = world.steal_block(IVec3::new(10, 0, 10), &mut changes, &mut rng);
    assert_eq!(stolen, Some(GameMaterial::Reddish));
    for (y, m) in stack[1..].iter().enumerate() {
        assert_eq!(world.get_block_value(IVec3::new(10, y as i32, 10)), BlockState::Full(*m));
    }
    assert_eq!(world.get_block_value(IVec3::new(10, 3, 10)), BlockState::Empty);
    assert_eq!(count_full(&world, c), before - 1);
}

#[test]
fn steal_from_nothing() {
    let mut world = world_with_origin_chunk();
    let mut changes = VoxelBlockChanges::new();
    let mut rng = StdRng::seed_from_u64(7);
    assert_eq!(world.steal_block(IVec3::new(1, 0, 1), &mut changes, &mut rng), None);
    assert_eq!(world.steal_block(IVec3::new(100, 0, 1), &mut changes, &mut rng), None);
}

#[test]
fn unloaded_cells_read_empty() {
    let world = world_with_origin_chunk();
    assert_eq!(world.get_block_value(IVec3::new(-1, 0, 0)), BlockState::Empty);
    assert!(!world.is_in_forbidden_column(IVec3::new(-1, 0, 0)));
    assert!(world.get_voxel_block_for_pos(IVec3::new(-1, 0, 0)).is_none());
    let (b, l) = world.get_voxel_block_for_pos(IVec3::new(33, 4, 2)).map(|(b, l)| (b.pos(), l)).unwrap_or((IVec2::new(9, 9), IVec3::new(0, 0, 0)));
    assert_eq!((b, l), (IVec2::new(9, 9), IVec3::new(0, 0, 0)));
    assert!(BlockState::Full(GameMaterial::Blueish).is_full());
    assert!(!BlockState::Forbidden.is_full());
}

#[test]
fn rings_around_a_cell() {
    let p = IVec3::new(0, 5, 0);
    let r1 = blocks_around(p, 1);
    assert_eq!(r1.len(), 8);
    assert!(r1.iter().all(|q| q.y == 5 && (q.x.abs() == 1 || q.z.abs() == 1)));
    assert_eq!(blocks_around(p, 2).len(), 16);
    assert_eq!(blocks_around(p, 29).len(), 8 * 29);
}

#[test]
fn registered_change_lands_after_loading() {
    let mut world = WholeBlockWorld::new();
    let mut changes = VoxelBlockChanges::new();
    let mut rng = StdRng::seed_from_u64(8);
    let target = IVec2::new(3, 3);
    changes.register_change(IVec3::new(100, 0, 100), GameMaterial::Reddish);
    assert_eq!(changes.pending_len(target), 1);
    let stats = apply_changes(&mut changes, &mut world, &mut rng);
    assert_eq!(stats.applied, 0);
    assert_eq!(changes.pending_len(target), 1);
    world.lazy_world.ensure_loaded(target, &mut changes, &mut rng);
    assert!(world.is_initialized_by_blockpos(target));
    assert!(changes.pending_len(target) >= 1);
    let stats = apply_changes(&mut changes, &mut world, &mut rng);
    assert!(stats.applied >= 1);
    assert_eq!(stats.changed_blocks, 25);
    assert_eq!(changes.pending_len(target), 0);
    assert!(count_full(&world, target) >= 1);
}

#[test]
fn ensure_loaded_creates_five_by_five_once() {
    let mut world = WholeBlockWorld::new();
    let mut changes = VoxelBlockChanges::new();
    let mut rng = StdRng::seed_from_u64(9);
    world.lazy_world.ensure_loaded(IVec2::new(0, 0), &mut changes, &mut rng);
    assert_eq!(world.lazy_world.len(), 25);
    for x in -2..3 {
        for z in -2..3 {
            assert!(world.is_initialized_by_blockpos(IVec2::new(x, z)));
        }
    }
    assert!(!world.is_initialized_by_blockpos(IVec2::new(3, 0)));
    world.lazy_world.ensure_loaded(IVec2::new(1, 0), &mut changes, &mut rng);
    assert_eq!(world.lazy_world.len(), 30);
    let origin = world.lazy_world.get_part(IVec2::new(0, 0)).unwrap();
    assert!(origin.is_forbidden(IVec2::new(0, 0)));
    assert!(origin.is_forbidden(IVec2::new(14, 14)));
    assert!(!origin.is_forbidden(IVec2::new(15, 0)));
    let other = world.lazy_world.get_part(IVec2::new(1, 1)).unwrap();
    assert!(!other.is_forbidden(IVec2::new(0, 0)));
}

#[test]
fn replay_into_missing_neighbour_is_postponed() {
    let mut world = world_with_origin_chunk();
    let mut changes = VoxelBlockChanges::new();
    let mut rng = StdRng::seed_from_u64(12);
    let c = IVec2::new(0, 0);
    for y in 0..32 {
        world.lazy_world.write_cell(c, IVec3::new(31, y, 31), GameMaterial::Brownish);
    }
    // the only free cells next to the column's top lie in chunks not created yet
    world.lazy_world.write_cell(c, IVec3::new(30, 31, 30), GameMaterial::Brownish);
    world.lazy_world.write_cell(c, IVec3::new(30, 31, 31), GameMaterial::Brownish);
    world.lazy_world.write_cell(c, IVec3::new(31, 31, 30), GameMaterial::Brownish);
    changes.register_change(IVec3::new(31, 32, 31), GameMaterial::Blueish);
    let stats = apply_changes(&mut changes, &mut world, &mut rng);
    assert_eq!(stats.applied, 1);
    assert_eq!(stats.postponed, 1);
    assert_eq!(stats.changed_blocks, 1);
    assert_eq!(changes.pending_len(c), 0);
    let queued = changes.pending_len(IVec2::new(1, 0))
        + changes.pending_len(IVec2::new(0, 1))
        + changes.pending_len(IVec2::new(1, 1));
    assert_eq!(queued, 1);
    assert_eq!(count_full(&world, c), 35);
}

#[test]
fn ring_of_radius_zero_is_the_cell() {
    let p = IVec3::new(4, 2, -7);
    assert_eq!(blocks_around(p, 0), vec![p]);
    let r3 = blocks_around(p, 3);
    assert_eq!(r3.len(), 24);
    for i in 0..r3.len() {
        for j in 0..i {
            assert_ne!(r3[i], r3[j]);
        }
    }
}

#[test]
fn settle_decision() {
    // nothing free below: stays
    assert!(!must_fall(0, 9, false, (9, 9, 9)));
    // the cell straight below is free: falls
    assert!(must_fall(1, 9, true, (0, 0, 0)));
    // all but one allowed cell free: falls
    assert!(must_fall(8, 9, false, (0, 0, 0)));
    // otherwise the draws decide
    assert!(!must_fall(3, 9, false, (3, 2, 0)));
    assert!(must_fall(3, 9, false, (0, 4, 0)));
    assert!(must_fall(3, 9, false, (0, 0, 9)));
}
