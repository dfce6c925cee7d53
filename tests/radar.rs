use rand::rngs::StdRng;
use rand::SeedableRng;
use voxel_world::block::VoxelBlock;
use voxel_world::coords::{IVec2, IVec3};
use voxel_world::direction::Direction2D;
use voxel_world::lazyworld::LazyWorld;
use voxel_world::material::GameMaterial;
use voxel_world::radar::{radar_candidates, radar_search};

fn sample_world() -> LazyWorld {
    let mut w = LazyWorld::new();
    w.insert_part(VoxelBlock::new(IVec2::new(0, 0)));
    w.insert_part(VoxelBlock::new(IVec2::new(5, 5)));
    let c = IVec2::new(0, 0);
    w.write_cell(c, IVec3::new(10, 0, 5), GameMaterial::Reddish);
    w.write_cell(c, IVec3::new(10, 1, 5), GameMaterial::Blueish);
    w.write_cell(c, IVec3::new(10, 0, 15), GameMaterial::Reddish);
    w.write_cell(c, IVec3::new(20, 0, 10), GameMaterial::Greenish);
    w
}

#[test]
fn lookup_around_uses_nearest_column() {
    let w = sample_world();
    assert_eq!(w.lookup_around(IVec2::new(10, 10), 0), vec![IVec2::new(0, 0)]);
    assert_eq!(w.lookup_around(IVec2::new(-3, 0), 4), Vec::<IVec2>::new());
    assert_eq!(w.lookup_around(IVec2::new(-3, 0), 9), vec![IVec2::new(0, 0)]);
    assert_eq!(w.lookup_around(IVec2::new(100, 100), 100_000).len(), 2);
}

#[test]
fn candidates_respect_mask_and_radius() {
    let w = sample_world();
    let red = GameMaterial::any_of_mask(&[GameMaterial::Reddish]);
    let mut got = radar_candidates(&w, IVec2::new(10, 10), 25, red, None);
    got.sort_by_key(|(_, p)| (p.x, p.y, p.z));
    assert_eq!(
        got,
        vec![
            (GameMaterial::Reddish, IVec3::new(10, 0, 5)),
            (GameMaterial::Reddish, IVec3::new(10, 0, 15)),
        ]
    );
    assert_eq!(radar_candidates(&w, IVec2::new(10, 10), 24, red, None).len(), 0);
    let all = GameMaterial::any_of_mask(&GameMaterial::all());
    assert_eq!(radar_candidates(&w, IVec2::new(10, 10), 100, all, None).len(), 4);
}

#[test]
fn candidates_respect_cone() {
    let w = sample_world();
    let all = GameMaterial::any_of_mask(&GameMaterial::all());
    let dims = IVec2::new(2, 2);
    let fwd = radar_candidates(&w, IVec2::new(10, 10), 100, all, Some((Direction2D::Forward, dims)));
    assert_eq!(fwd.len(), 2);
    assert!(fwd.iter().all(|(_, p)| p.z == 5));
    let back = radar_candidates(&w, IVec2::new(10, 10), 100, all, Some((Direction2D::Backward, dims)));
    assert_eq!(back, vec![(GameMaterial::Reddish, IVec3::new(10, 0, 15))]);
    let right = radar_candidates(&w, IVec2::new(10, 10), 100, all, Some((Direction2D::Right, dims)));
    assert_eq!(right, vec![(GameMaterial::Greenish, IVec3::new(20, 0, 10))]);
    let left = radar_candidates(&w, IVec2::new(10, 10), 100, all, Some((Direction2D::Left, dims)));
    assert!(left.is_empty());
}

#[test]
fn search_reports_a_matching_candidate() {
    let w = sample_world();
    let mut rng = StdRng::seed_from_u64(11);
    let blue = GameMaterial::any_of_mask(&[GameMaterial::Blueish]);
    for _ in 0..20 {
        let found = radar_search(&w, IVec2::new(10, 10), 100, blue, None, &mut rng);
        assert_eq!(found, Some((GameMaterial::Blueish, IVec3::new(10, 1, 5))));
    }
    let red = GameMaterial::any_of_mask(&[GameMaterial::Reddish]);
    let mut seen_near = false;
    let mut seen_far = false;
    for _ in 0..50 {
        match radar_search(&w, IVec2::new(10, 10), 100, red, None, &mut rng) {
            Some((GameMaterial::Reddish, p)) if p == IVec3::new(10, 0, 5) => seen_near = true,
            Some((GameMaterial::Reddish, p)) if p == IVec3::new(10, 0, 15) => seen_far = true,
            other => panic!("unexpected find {:?}", other),
        }
    }
    assert!(seen_near && seen_far);
    assert_eq!(radar_search(&w, IVec2::new(10, 10), 100, 0, None, &mut rng), None);
}
