use rand::rngs::StdRng;
use rand::SeedableRng;
use voxel_world::material::GameMaterial;

#[test]
fn bits_and_indices() {
    assert_eq!(GameMaterial::Reddish.bit(), 1);
    assert_eq!(GameMaterial::Greenish.bit(), 2);
    assert_eq!(GameMaterial::Blueish.bit(), 4);
    assert_eq!(GameMaterial::Brownish.bit(), 8);
    assert_eq!(GameMaterial::Reddish.as_usize(), 0);
    assert_eq!(GameMaterial::Brownish.as_usize(), 3);
    assert_eq!(GameMaterial::all().len(), 4);
}

#[test]
fn masks_hold_exactly_their_materials() {
    let mask = GameMaterial::any_of_mask(&[GameMaterial::Reddish, GameMaterial::Greenish]);
    assert_eq!(mask, 3);
    assert!(GameMaterial::Reddish.mask_contains(mask));
    assert!(GameMaterial::Greenish.mask_contains(mask));
    assert!(!GameMaterial::Blueish.mask_contains(mask));
    assert!(!GameMaterial::Brownish.mask_contains(mask));
    assert_eq!(GameMaterial::any_of_mask(&[]), 0);
    assert!(!GameMaterial::Reddish.mask_contains(GameMaterial::any_of_mask(&[])));
    assert_eq!(GameMaterial::any_of_mask(&GameMaterial::all()), 15);
}

#[test]
fn spawn_draws() {
    assert_eq!(GameMaterial::from_spawn_draw(1), GameMaterial::Greenish);
    assert_eq!(GameMaterial::from_spawn_draw(3), GameMaterial::Greenish);
    assert_eq!(GameMaterial::from_spawn_draw(4), GameMaterial::Brownish);
    assert_eq!(GameMaterial::from_spawn_draw(10), GameMaterial::Blueish);
    assert_eq!(GameMaterial::from_spawn_draw(50), GameMaterial::Blueish);
    assert_eq!(GameMaterial::from_spawn_draw(51), GameMaterial::Brownish);
    assert_eq!(GameMaterial::from_spawn_draw(199), GameMaterial::Brownish);
}

#[test]
fn recycle_draws() {
    assert_eq!(GameMaterial::from_recycle_draw(0), GameMaterial::Reddish);
    assert_eq!(GameMaterial::from_recycle_draw(1), GameMaterial::Greenish);
    assert_eq!(GameMaterial::from_recycle_draw(2), GameMaterial::Greenish);
    assert_eq!(GameMaterial::from_recycle_draw(3), GameMaterial::Blueish);
    assert_eq!(GameMaterial::from_recycle_draw(6), GameMaterial::Blueish);
}

#[test]
fn random_materials_stay_in_their_sets() {
    let mut rng = StdRng::seed_from_u64(7);
    let mut seen = [false; 4];
    for _ in 0..2000 {
        let m = GameMaterial::random(&mut rng);
        assert_ne!(m, GameMaterial::Reddish);
        seen[m.as_usize()] = true;
        let r = GameMaterial::random_recycle(&mut rng);
        assert_ne!(r, GameMaterial::Brownish);
    }
    assert!(seen[1] && seen[2] && seen[3]);
}
