//! Grid, distance and biome behavior on concrete values.

use belief_sim::biome::{Biome, BiomeField};
use belief_sim::dist::{certainty, discount, dist_fp};
use belief_sim::grid::{ArrayPaddingKind, Grid};
use belief_sim::kind::ResourceKind;
use belief_sim::prob::SCALE;
use belief_sim::resources::{drift_cell, generate_resources, resources_tick};
use belief_sim::rng::rng_from_seed;

#[test]
fn dist_fp_is_exact_on_squares() {
    assert_eq!(dist_fp(0), 0);
    assert_eq!(dist_fp(1), 1_000_000);
    assert_eq!(dist_fp(4), 2_000_000);
    assert_eq!(dist_fp(9), 3_000_000);
    // sqrt(2) = 1.414213...
    assert_eq!(dist_fp(2), 1_414_213);
}

#[test]
fn certainty_falls_linearly_and_clamps() {
    // Own cell: full certainty.
    assert_eq!(certainty(0, 10), SCALE);
    // Distance 5 of range 10: certainty one half.
    assert_eq!(certainty(25, 10), 500_000);
    // At or beyond the range: zero.
    assert_eq!(certainty(100, 10), 0);
    assert_eq!(certainty(200, 10), 0);
}

#[test]
fn discount_has_floor_and_full_value_at_zero() {
    assert_eq!(discount(0), SCALE);
    // 0.9 / (1 + 1) + 0.1 = 0.55 at distance one.
    assert_eq!(discount(1), 550_000);
    // Far away the floor of ten percent remains (plus the vanishing term).
    assert!(discount(3_000_000) >= 100_000);
    assert!(discount(3_000_000) < 101_000);
}

#[test]
fn pad_constant_fills_border() {
    let g = Grid::filled(2usize, 2usize, 7i64);
    let p = g.pad(1, 1, ArrayPaddingKind::Constant(0i64));
    assert_eq!(p.width(), 4);
    assert_eq!(p.height(), 4);
    assert_eq!(*p.get(0, 0), 0);
    assert_eq!(*p.get(1, 1), 7);
    assert_eq!(*p.get(2, 2), 7);
    assert_eq!(*p.get(3, 3), 0);
}

#[test]
fn pad_clamp_repeats_edges() {
    let mut g = Grid::filled(2usize, 1usize, 1i64);
    g.set(0, 0, 5);
    let p = g.pad(1, 1, ArrayPaddingKind::Clamp);
    // Corners clamp to the nearest source cell.
    assert_eq!(*p.get(0, 0), 5);
    assert_eq!(*p.get(0, 1), 5);
    assert_eq!(*p.get(3, 0), 1);
    assert_eq!(*p.get(3, 1), 1);
}

#[test]
fn lake_biome_only_yields_water() {
    let mut rng = rng_from_seed(11);
    for _ in 0..50 {
        assert_eq!(Biome::Lake.gen_resource(&mut rng), ResourceKind::Water);
    }
}

#[test]
fn plains_biome_never_yields_water_or_specter() {
    let mut rng = rng_from_seed(13);
    for _ in 0..50 {
        let k = Biome::Plains.gen_resource(&mut rng);
        assert_ne!(k, ResourceKind::Water);
        assert_ne!(k, ResourceKind::Specter);
    }
}

#[test]
fn nearest_center_tie_breaks_to_first() {
    // One center; every cell belongs to it whatever the type drawn.
    let mut rng = rng_from_seed(3);
    let field = BiomeField::generate(&mut rng, 4, 4, 1);
    let b = field.get_biome(0, 0);
    let b2 = field.get_biome(3, 3);
    // With a single center both lookups name the same biome.
    assert_eq!(format!("{:?}", b), format!("{:?}", b2));
}

#[test]
fn generated_resources_have_grid_dimensions() {
    let mut rng = rng_from_seed(5);
    let biomes = BiomeField::generate(&mut rng, 8, 6, 3);
    let grid = generate_resources(&mut rng, &biomes, 8, 6);
    assert_eq!(grid.width(), 8);
    assert_eq!(grid.height(), 6);
}

#[test]
fn drift_cell_follows_its_roll() {
    let mut rng = rng_from_seed(17);
    let biomes = BiomeField::generate(&mut rng, 4, 4, 1);
    let mut field = Grid::filled(4usize, 4usize, ResourceKind::Stone);
    field.set(2, 1, ResourceKind::Food);
    let snapshot = field.pad(1, 1, belief_sim::grid::ArrayPaddingKind::Clamp);
    // An overwhelming roll keeps the cell's own value.
    assert_eq!(
        drift_cell(&mut rng, &biomes, &snapshot, 2, 1, 0, 0, 0),
        ResourceKind::Food
    );
    assert_eq!(
        drift_cell(&mut rng, &biomes, &snapshot, 2, 1, 999_899, 0, 0),
        ResourceKind::Food
    );
    // The neighbor branch adopts the chosen window cell: pick 4 is the
    // center, pick 0 the upper-left neighbor.
    assert_eq!(
        drift_cell(&mut rng, &biomes, &snapshot, 2, 1, 999_950, 4, 0),
        ResourceKind::Food
    );
    assert_eq!(
        drift_cell(&mut rng, &biomes, &snapshot, 2, 1, 999_950, 0, 0),
        ResourceKind::Stone
    );
    // The once-in-a-million roll takes the uniformly drawn kind.
    assert_eq!(
        drift_cell(&mut rng, &biomes, &snapshot, 2, 1, 999_999, 0, 3),
        ResourceKind::Stone
    );
    assert_eq!(
        drift_cell(&mut rng, &biomes, &snapshot, 2, 1, 999_999, 0, 2),
        ResourceKind::Water
    );
}

#[test]
fn resource_tick_keeps_dimensions_and_mostly_values() {
    let mut rng = rng_from_seed(9);
    let biomes = BiomeField::generate(&mut rng, 6, 6, 2);
    let mut grid = generate_resources(&mut rng, &biomes, 6, 6);
    let before: Vec<ResourceKind> = (0..6)
        .flat_map(|x| (0..6).map(move |y| (x, y)))
        .map(|(x, y)| *grid.get(x, y))
        .collect();
    resources_tick(&mut rng, &biomes, &mut grid);
    assert_eq!(grid.width(), 6);
    assert_eq!(grid.height(), 6);
    // The drift keeps each cell with overwhelming probability; on 36 cells
    // a change is possible but all 36 changing at once is not credible.
    let after: Vec<ResourceKind> = (0..6)
        .flat_map(|x| (0..6).map(move |y| (x, y)))
        .map(|(x, y)| *grid.get(x, y))
        .collect();
    let same = before.iter().zip(after.iter()).filter(|(a, b)| a == b).count();
    assert!(same > 0);
}
