use atlas::config::sim::{
    AtlasSimConfig, BiomeConfig, ClimateConfig, GeneralConfig, ScenarioConfig, StartCivAlgorithm,
    StartPointAlgorithm, StartingPoint,
};
use atlas::config::ClimatePreviewMode;
use atlas::map::internal::{
    calc_start_point_weights, kernel_sum, randomize_point_civ, randomize_start_points, start_points_tables_check,
    try_calc_start_point_weights, try_randomize_start_points,
};
use rand::rngs::StdRng;
use rand::SeedableRng;
use std::collections::HashSet;

fn biome(name: &str, hab: u32) -> BiomeConfig {
    BiomeConfig { name: name.to_string(), color: [0, 0, 0], simple_color: [0, 0, 0], habitability_permille: hab }
}

fn config(w: u32, h: u32, algorithm: StartPointAlgorithm) -> AtlasSimConfig {
    let mut scenario = ScenarioConfig::default();
    scenario.random_point_algorithm = algorithm;
    AtlasSimConfig {
        general: GeneralConfig { world_size: [w, h] },
        scenario,
        climate: ClimateConfig {
            preview_mode: ClimatePreviewMode::DetailedColor,
            biomes: vec![biome("Barren", 50), biome("Forest", 600)],
            default_biome: biome("Default Biome", 1000),
        },
    }
}

fn point(x: u32, y: u32, position_locked: bool, owner: u8, owner_locked: bool) -> StartingPoint {
    StartingPoint { position_locked, position: [x, y], owner_locked, owner }
}

#[test]
fn kernel_sum_of_interior_tiles() {
    let input = [100u32, 100, 100, 100, 200, 100, 100, 100, 100];
    let mut output = [7u32; 9];
    kernel_sum(&input, &mut output, 3, 3);
    assert_eq!(output, [7, 7, 7, 7, 1000, 7, 7, 7, 7]);
    let poor = [100u32, 100, 100, 100, 99, 100, 100, 100, 100];
    let mut output = [7u32; 9];
    kernel_sum(&poor, &mut output, 3, 3);
    assert_eq!(output[4], 0);
    // A map without interior tiles is left alone.
    let mut output = [5u32; 4];
    kernel_sum(&[1000u32; 4], &mut output, 2, 2);
    assert_eq!(output, [5; 4]);
}

#[test]
fn kernel_sum_on_a_wider_map() {
    let input: Vec<u32> = (0..20).map(|i| 100 + i).collect();
    let mut output = vec![0u32; 20];
    kernel_sum(&input, &mut output, 5, 4);
    // Tile 6 (x 1, y 1): its neighbourhood 0..=2, 5..=7, 10..=12.
    let expected: u32 = [0, 1, 2, 5, 6, 7, 10, 11, 12].iter().map(|i| 100 + i).sum();
    assert_eq!(output[6], expected);
    assert_eq!(output[13], [7, 8, 9, 12, 13, 14, 17, 18, 19].iter().map(|i| 100 + i).sum::<u32>());
    assert_eq!(output[0], 0);
    assert_eq!(output[19], 0);
}

const CONTS: [u8; 9] = [0, 255, 255, 255, 255, 255, 255, 255, 255];
const CLIMATE: [u8; 9] = [1; 9];

#[test]
fn start_weights_uniform() {
    let c = config(3, 3, StartPointAlgorithm::Uniform);
    let (w, s) = calc_start_point_weights(&c, &CONTS, &CLIMATE, 3, 3);
    assert_eq!(w, vec![0, 1, 1, 1, 1, 1, 1, 1, 1]);
    assert_eq!(s, vec![2, 3, 3]);
    // A row without land still weighs 1.
    let (w, s) = calc_start_point_weights(&c, &[0, 0, 0, 255, 0, 0, 0, 0, 0], &CLIMATE, 3, 3);
    assert_eq!(w, vec![0, 0, 0, 1, 0, 0, 0, 0, 0]);
    assert_eq!(s, vec![1, 1, 1]);
}

#[test]
fn start_weights_by_habitability() {
    let c = config(3, 3, StartPointAlgorithm::Weighted);
    let (w, s) = calc_start_point_weights(&c, &CONTS, &CLIMATE, 3, 3);
    assert_eq!(w, vec![0, 600, 600, 600, 600, 600, 600, 600, 600]);
    assert_eq!(s, vec![400, 600, 600]);
    let c = config(3, 3, StartPointAlgorithm::WeightedSquared);
    let (w, s) = calc_start_point_weights(&c, &CONTS, &CLIMATE, 3, 3);
    assert_eq!(w[1], 360000);
    assert_eq!(w[0], 0);
    assert_eq!(s, vec![240000, 360000, 360000]);
}

#[test]
fn start_weights_by_area() {
    let c = config(3, 3, StartPointAlgorithm::WeightedArea);
    let (w, s) = calc_start_point_weights(&c, &CONTS, &CLIMATE, 3, 3);
    assert_eq!(w, vec![0, 1, 1, 1, 4800, 1, 1, 1, 1]);
    assert_eq!(s, vec![0, 1600, 1]);
    let c = config(3, 3, StartPointAlgorithm::WeightedSquaredArea);
    let (w, _) = calc_start_point_weights(&c, &CONTS, &CLIMATE, 3, 3);
    assert_eq!(w[4], 8 * 360000);
}

#[test]
fn repeated_owners_respect_locks() {
    let mut c = config(3, 3, StartPointAlgorithm::Uniform);
    c.scenario.random_civ_algorithm = StartCivAlgorithm::Repeated;
    c.scenario.num_civs = 3;
    c.scenario.start_points = vec![point(0, 0, false, 9, true), point(1, 1, false, 0, false), point(2, 2, true, 0, false)];
    let mut rng = StdRng::seed_from_u64(7);
    randomize_point_civ(&mut c, &mut rng);
    assert_eq!(c.scenario.start_points[0].owner, 9);
    assert!(c.scenario.start_points[1].owner < 3);
    assert!(c.scenario.start_points[2].owner < 3);
    assert_eq!(c.scenario.start_points[2].position, [2, 2]);
}

#[test]
fn chosen_owners_are_distinct_while_they_last() {
    let mut c = config(3, 3, StartPointAlgorithm::Uniform);
    c.scenario.random_civ_algorithm = StartCivAlgorithm::Choice;
    c.scenario.num_civs = 4;
    c.scenario.start_points = vec![
        point(0, 0, false, 2, true),
        point(0, 0, false, 0, false),
        point(0, 0, false, 0, false),
        point(0, 0, false, 0, false),
        point(0, 0, false, 0, false),
    ];
    for seed in 0..20 {
        let mut cc = c.clone();
        let mut rng = StdRng::seed_from_u64(seed);
        randomize_point_civ(&mut cc, &mut rng);
        let owners: Vec<u8> = cc.scenario.start_points.iter().map(|p| p.owner).collect();
        assert_eq!(owners[0], 2);
        let free: HashSet<u8> = owners[1..4].iter().copied().collect();
        assert_eq!(free, [0u8, 1, 3].into_iter().collect());
        // Civilizations ran out for the last point.
        assert_eq!(owners[4], 0);
    }
}

#[test]
fn start_points_land_on_weighted_tiles() {
    let weights = [0u32, 0, 5, 0, 0, 0, 3, 0, 0];
    let strips = [5u32, 0, 3];
    let mut c = config(3, 3, StartPointAlgorithm::Uniform);
    c.scenario.start_points = vec![point(1, 1, true, 0, false), point(0, 0, false, 0, false), point(0, 0, false, 0, false)];
    for seed in 0..20 {
        let mut cc = c.clone();
        let mut rng = StdRng::seed_from_u64(seed);
        let ok = randomize_start_points(&mut cc, &mut rng, &weights, &strips, 3);
        let pts = &cc.scenario.start_points;
        assert_eq!(pts[0].position, [1, 1]);
        for p in &pts[1..] {
            assert!(p.position == [2, 0] || p.position == [0, 2] || p.position == [0, 0]);
        }
        if ok {
            assert_ne!(pts[2].position, [0, 0]);
        }
        if pts[1].position != [0, 0] && pts[2].position != [0, 0] {
            assert_ne!(pts[1].position, pts[2].position);
        }
    }
}

#[test]
fn start_points_without_free_points_succeed() {
    let weights = [1u32; 4];
    let strips = [2u32, 2];
    let mut c = config(2, 2, StartPointAlgorithm::Uniform);
    c.scenario.start_points = vec![point(1, 0, true, 0, false)];
    let mut rng = StdRng::seed_from_u64(1);
    assert!(randomize_start_points(&mut c, &mut rng, &weights, &strips, 2));
    assert_eq!(c.scenario.start_points[0].position, [1, 0]);
}

#[test]
fn first_free_point_is_always_placed() {
    // One tile has all the weight: the first free point takes it, the
    // second finds it taken five times and keeps its position.
    let weights = [0u32, 0, 0, 1];
    let strips = [0u32, 1];
    let mut c = config(2, 2, StartPointAlgorithm::Weighted);
    c.scenario.start_points = vec![
        point(0, 0, true, 0, false),
        point(0, 0, false, 1, false),
        point(1, 0, false, 2, false),
    ];
    for seed in 0..10 {
        let mut cc = c.clone();
        let mut rng = StdRng::seed_from_u64(seed);
        assert!(!randomize_start_points(&mut cc, &mut rng, &weights, &strips, 2));
        let pts = &cc.scenario.start_points;
        assert_eq!(pts[0].position, [0, 0]);
        assert_eq!(pts[1].position, [1, 1]);
        assert_eq!(pts[2].position, [1, 0]);
    }
}

#[test]
fn start_weights_of_a_map_without_rows_are_empty() {
    for a in [StartPointAlgorithm::Uniform, StartPointAlgorithm::Weighted, StartPointAlgorithm::WeightedSquared] {
        let c = config(4, 0, a);
        assert_eq!(calc_start_point_weights(&c, &[], &[], 4, 0), (vec![], vec![]));
    }
}

#[test]
fn checked_start_weights_match_or_refuse() {
    for a in [
        StartPointAlgorithm::Uniform,
        StartPointAlgorithm::Weighted,
        StartPointAlgorithm::WeightedArea,
        StartPointAlgorithm::WeightedSquared,
        StartPointAlgorithm::WeightedSquaredArea,
    ] {
        let c = config(3, 3, a);
        let checked = try_calc_start_point_weights(&c, &CONTS, &CLIMATE, 3, 3);
        assert_eq!(checked, Some(calc_start_point_weights(&c, &CONTS, &CLIMATE, 3, 3)));
    }
    // Squares of a habitability of 70 000 thousandths leave 32 bits.
    let mut c = config(3, 3, StartPointAlgorithm::WeightedSquared);
    c.climate.biomes[1].habitability_permille = 70_000;
    assert_eq!(try_calc_start_point_weights(&c, &CONTS, &CLIMATE, 3, 3), None);
    // Unsquared, each fits, but a row of them does not.
    let mut c = config(3, 3, StartPointAlgorithm::Weighted);
    c.climate.biomes[1].habitability_permille = 2_000_000_000;
    assert_eq!(try_calc_start_point_weights(&c, &CONTS, &CLIMATE, 3, 3), None);
    // The 3x3 sum of the centre tile leaves 32 bits.
    let mut c = config(3, 3, StartPointAlgorithm::WeightedArea);
    c.climate.biomes[1].habitability_permille = 600_000_000;
    assert_eq!(try_calc_start_point_weights(&c, &CONTS, &CLIMATE, 3, 3), None);
    // Uniform weights never overflow, whatever the biomes.
    let mut c = config(3, 3, StartPointAlgorithm::Uniform);
    c.climate.biomes[1].habitability_permille = u32::MAX;
    assert!(try_calc_start_point_weights(&c, &CONTS, &CLIMATE, 3, 3).is_some());
}

#[test]
fn start_point_tables_are_checked_before_placing() {
    // Strip weights times their number, and tile weights times the width,
    // must stay within 32 bits.
    assert!(start_points_tables_check(&[1, 2, 3, 4], &[3, 7], 2, true));
    assert!(!start_points_tables_check(&[1, 2, 3, 4], &[], 2, true));
    assert!(start_points_tables_check(&[1, 2, 3, 4], &[], 2, false));
    assert!(!start_points_tables_check(&[1, 2, 3, 4], &[3, 7], 0, true));
    assert!(start_points_tables_check(&[1, 2, 3, 4], &[3, 7], 0, false));
    assert!(!start_points_tables_check(&[1, 2, 3], &[3, 7], 2, true));
    assert!(!start_points_tables_check(&[1, 2, 3, 4], &[u32::MAX, 0], 2, false));
    assert!(!start_points_tables_check(&[u32::MAX, 0, 0, 0], &[1, 1], 2, true));
    assert!(!start_points_tables_check(&[0x4000_0000; 3], &[1], 3, true));
    // A strip of weight 0 is never drawn, so its table is never built.
    assert!(start_points_tables_check(&[u32::MAX, 0, 1, 1], &[0, 2], 2, true));
    let mut c = config(2, 2, StartPointAlgorithm::Weighted);
    c.scenario.start_points = vec![point(0, 0, false, 0, false)];
    let before = c.clone();
    let mut rng = StdRng::seed_from_u64(4);
    assert_eq!(try_randomize_start_points(&mut c, &mut rng, &[0, 0, 0, 1], &[], 2), None);
    assert_eq!(c.scenario.start_points, before.scenario.start_points);
    assert_eq!(try_randomize_start_points(&mut c, &mut rng, &[0, 0, 0, 1], &[0, 1], 2), Some(true));
    assert_eq!(c.scenario.start_points[0].position, [1, 1]);
    // Without a free point nothing is drawn, so no table is needed.
    let mut locked = config(2, 2, StartPointAlgorithm::Weighted);
    locked.scenario.start_points = vec![point(1, 0, true, 0, false)];
    assert_eq!(try_randomize_start_points(&mut locked, &mut rng, &[], &[], 0), Some(true));
    assert_eq!(locked.scenario.start_points[0].position, [1, 0]);
}

#[test]
fn success_means_every_free_point_was_placed() {
    // Three tiles of equal weight and three free points starting off the
    // map: now and then a middle point draws taken tiles five times and
    // stays, while the last one is placed; the call then reports failure.
    let weights = [1u32, 1, 1];
    let strips = [3u32];
    let mut c = config(3, 1, StartPointAlgorithm::Weighted);
    c.scenario.start_points = vec![point(9, 9, false, 0, false); 3];
    let mut middle_failed_last_placed = 0;
    for seed in 0..3000 {
        let mut cc = c.clone();
        let mut rng = StdRng::seed_from_u64(seed);
        let ok = randomize_start_points(&mut cc, &mut rng, &weights, &strips, 3);
        let placed: Vec<bool> = cc.scenario.start_points.iter().map(|p| p.position != [9, 9]).collect();
        assert!(placed[0]);
        assert_eq!(ok, placed.iter().all(|p| *p));
        if !placed[1] && placed[2] {
            middle_failed_last_placed += 1;
        }
    }
    assert!(middle_failed_last_placed > 0);
}
