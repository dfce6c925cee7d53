use rand::rngs::StdRng;
use rand::SeedableRng;
use voxel_world::coords::IVec2;
use voxel_world::direction::{intersects, Direction2D};

#[test]
fn rotations() {
    assert_eq!(Direction2D::Forward.rotate(), Direction2D::Right);
    assert_eq!(Direction2D::Right.rotate(), Direction2D::Backward);
    assert_eq!(Direction2D::Backward.rotate(), Direction2D::Left);
    assert_eq!(Direction2D::Left.rotate(), Direction2D::Forward);
    assert_eq!(Direction2D::Left.opposite(), Direction2D::Right);
    assert_eq!(Direction2D::Right.combine(Direction2D::Backward), Direction2D::Left);
    assert_eq!(Direction2D::from_index(5), Direction2D::Right);
    assert_eq!(Direction2D::Backward.index(), 2);
}

#[test]
fn unit_steps() {
    assert_eq!(Direction2D::Forward.to_ivec2(), IVec2::new(0, -1));
    assert_eq!(Direction2D::Backward.to_ivec2(), IVec2::new(0, 1));
    assert_eq!(Direction2D::Left.to_ivec2(), IVec2::new(-1, 0));
    assert_eq!(Direction2D::Right.to_ivec2(), IVec2::new(1, 0));
}

#[test]
fn rotate_size_swaps_sideways() {
    let s = IVec2::new(3, 5);
    assert_eq!(Direction2D::Forward.rotate_size(s), s);
    assert_eq!(Direction2D::Backward.rotate_size(s), s);
    assert_eq!(Direction2D::Left.rotate_size(s), IVec2::new(5, 3));
    assert_eq!(Direction2D::Right.rotate_size(s), IVec2::new(5, 3));
}

#[test]
fn cones_of_the_four_directions() {
    let dims = IVec2::new(2, 2);
    assert!(Direction2D::Forward.within_cone(IVec2::new(0, -5), dims));
    assert!(!Direction2D::Forward.within_cone(IVec2::new(0, 5), dims));
    assert!(Direction2D::Backward.within_cone(IVec2::new(0, 5), dims));
    assert!(!Direction2D::Backward.within_cone(IVec2::new(0, -5), dims));
    assert!(Direction2D::Left.within_cone(IVec2::new(-5, 0), dims));
    assert!(!Direction2D::Left.within_cone(IVec2::new(5, 0), dims));
    assert!(Direction2D::Right.within_cone(IVec2::new(5, 0), dims));
    assert!(!Direction2D::Right.within_cone(IVec2::new(-5, 0), dims));
    // beyond the diagonal, unless the footprint widens the cone
    assert!(!Direction2D::Forward.within_cone(IVec2::new(3, -1), dims));
    assert!(Direction2D::Forward.within_cone(IVec2::new(3, -1), IVec2::new(8, 2)));
    assert!(Direction2D::Forward.within_cone(IVec2::new(-2, -2), dims));
}

#[test]
fn random_in_cone_stays_in_cone() {
    let mut rng = StdRng::seed_from_u64(3);
    let dims = IVec2::new(4, 2);
    for d in [Direction2D::Forward, Direction2D::Right, Direction2D::Backward, Direction2D::Left] {
        for max_d in 1..6 {
            let p = d.random_in_cone(max_d, dims, &mut rng);
            assert!(p.x.abs() <= max_d && p.y.abs() <= max_d);
            assert!(d.within_cone(p, dims));
        }
    }
}

#[test]
fn lines_across_footprints() {
    assert_eq!(
        Direction2D::Forward.line_in_direction(IVec2::new(10, 10), IVec2::new(3, 4)),
        vec![IVec2::new(9, 8), IVec2::new(10, 8), IVec2::new(11, 8)]
    );
    assert_eq!(
        Direction2D::Right.line_in_direction(IVec2::new(0, 0), IVec2::new(4, 2)),
        vec![IVec2::new(2, -1), IVec2::new(2, 0)]
    );
    assert!(Direction2D::Left
        .line_in_direction(IVec2::new(0, 0), IVec2::new(4, 0))
        .is_empty());
}

#[test]
fn footprint_overlap() {
    let a = IVec2::new(0, 0);
    assert!(intersects(a, IVec2::new(4, 2), Direction2D::Forward, IVec2::new(3, 1), IVec2::new(2, 2), Direction2D::Forward));
    assert!(!intersects(a, IVec2::new(4, 2), Direction2D::Forward, IVec2::new(0, 2), IVec2::new(2, 2), Direction2D::Forward));
    // turned sideways, the first footprint is 2 wide and 4 deep
    assert!(intersects(a, IVec2::new(4, 2), Direction2D::Left, IVec2::new(0, 3), IVec2::new(1, 1), Direction2D::Forward));
    assert!(!intersects(a, IVec2::new(4, 2), Direction2D::Left, IVec2::new(3, 0), IVec2::new(1, 1), Direction2D::Forward));
}
