use atlas::config::sim::{AtlasSimConfig, BiomeConfig, ClimateConfig, GeneralConfig, ScenarioConfig, StartingPoint};
use atlas::config::ClimatePreviewMode;
use atlas::panel::MainPanelScenario;

fn config(w: u32, h: u32) -> AtlasSimConfig {
    let b = BiomeConfig { name: "Default Biome".to_string(), color: [0; 3], simple_color: [0; 3], habitability_permille: 1000 };
    AtlasSimConfig {
        general: GeneralConfig { world_size: [w, h] },
        scenario: ScenarioConfig::default(),
        climate: ClimateConfig { preview_mode: ClimatePreviewMode::DetailedColor, biomes: vec![], default_biome: b },
    }
}

fn point(x: u32, y: u32, owner: u8) -> StartingPoint {
    StartingPoint { position_locked: true, position: [x, y], owner_locked: false, owner }
}

#[test]
fn starting_points_grow_with_defaults() {
    let mut c = config(10, 8);
    c.scenario.num_starts = 3;
    c.scenario.start_points = vec![point(4, 5, 2)];
    MainPanelScenario::ensure_starting_points(&mut c);
    assert_eq!(c.scenario.start_points.len(), 3);
    assert_eq!(c.scenario.start_points[0], point(4, 5, 2));
    assert_eq!(c.scenario.start_points[1], StartingPoint::default());
    assert_eq!(c.scenario.start_points[2], StartingPoint::default());
}

#[test]
fn starting_points_shrink_and_move_onto_the_map() {
    let mut c = config(10, 8);
    c.scenario.num_starts = 2;
    c.scenario.start_points = vec![point(40, 5, 1), point(3, 8, 0), point(1, 1, 0)];
    MainPanelScenario::ensure_starting_points(&mut c);
    assert_eq!(c.scenario.start_points, vec![point(9, 5, 1), point(3, 7, 0)]);
}

#[test]
fn starting_civs_follow_their_count() {
    let mut c = config(10, 8);
    c.scenario.num_civs = 4;
    c.scenario.start_civs = vec![Default::default(); 2];
    c.scenario.start_points = vec![point(0, 0, 1), point(0, 0, 2), point(0, 0, 3)];
    MainPanelScenario::ensure_starting_civs(&mut c);
    assert_eq!(c.scenario.start_civs.len(), 4);
    // Owners are checked against the two civilizations there were before.
    let owners: Vec<u8> = c.scenario.start_points.iter().map(|p| p.owner).collect();
    assert_eq!(owners, vec![1, 0, 0]);
    c.scenario.num_civs = 1;
    MainPanelScenario::ensure_starting_civs(&mut c);
    assert_eq!(c.scenario.start_civs.len(), 1);
    let owners: Vec<u8> = c.scenario.start_points.iter().map(|p| p.owner).collect();
    assert_eq!(owners, vec![1, 0, 0]);
}
