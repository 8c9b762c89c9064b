use atlas::config::gen::{ColorDisplayMode, InfluenceMode};
use atlas::config::sim::{
    AtlasSimConfig, BiomeConfig, ClimateConfig, GeneralConfig, ScenarioConfig, StartCivAlgorithm,
    StartPointAlgorithm, StartingPoint,
};
use atlas::config::{AtlasConfig, ClimatePreviewMode, WorldModel, MAX_WORLD_SIZE};
use atlas::domain::{export_data_layers, is_sea, map_data_layers, MapDataLayer, MapDataOverlay};
use atlas::config::sim::CONFIG_NAME;
use atlas::ui::{dropdown_post_show, UiEditableEnum, INVISIBLE_INDEX};

fn biome(name: &str, color: [u8; 3], simple: [u8; 3], hab: u32) -> BiomeConfig {
    BiomeConfig { name: name.to_string(), color, simple_color: simple, habitability_permille: hab }
}

fn config(w: u32, h: u32) -> AtlasSimConfig {
    AtlasSimConfig {
        general: GeneralConfig { world_size: [w, h] },
        scenario: ScenarioConfig::default(),
        climate: ClimateConfig {
            preview_mode: ClimatePreviewMode::SimplifiedColor,
            biomes: vec![biome("Sea", [0, 0, 200], [0, 0, 255], 0), biome("Grassland", [0, 200, 0], [0, 255, 0], 800)],
            default_biome: biome("Default Biome", [255, 0, 255], [255, 0, 255], 1000),
        },
    }
}

#[test]
fn map_index_round_trip() {
    let c = config(10, 5);
    assert_eq!(c.map_to_index((3, 2)), 23);
    assert_eq!(c.index_to_map(23), (3, 2));
    assert_eq!(c.index_to_map(0), (0, 0));
    assert_eq!(c.map_to_index((9, 4)), 49);
    assert_eq!(c.index_to_map(49), (9, 4));
}

#[test]
fn index_to_chunk_counts_partial_chunks() {
    let c = config(10, 5);
    // 10 tiles wide in chunks of 4: three chunks a row (the last one partial).
    assert_eq!(c.index_to_chunk(23, 4), 0);
    assert_eq!(c.index_to_chunk(45, 4), 4);
    assert_eq!(c.index_to_chunk(9, 4), 2);
    assert_eq!(c.index_to_chunk(49, 4), 5);
}

#[test]
fn border_tiles_of_corners_and_inside() {
    let c = config(10, 5);
    let corner: Vec<u32> = c.get_border_tiles(0).into_iter().collect();
    assert_eq!(corner, vec![1, 10]);
    let inner: Vec<u32> = c.get_border_tiles(23).into_iter().collect();
    assert_eq!(inner, vec![13, 22, 24, 33]);
    let last: Vec<u32> = c.get_border_tiles(49).into_iter().collect();
    assert_eq!(last, vec![39, 48]);
    // A tile at the right edge does not wrap to the next row.
    let edge: Vec<u32> = c.get_border_tiles(19).into_iter().collect();
    assert_eq!(edge, vec![9, 18, 29]);
}

#[test]
fn border_tiles_are_symmetric() {
    let c = config(7, 6);
    for t in 0..42u32 {
        for b in c.get_border_tiles(t) {
            assert!(c.get_border_tiles(b).contains(&t));
        }
    }
}

#[test]
fn get_biome_falls_back_to_default() {
    let c = config(10, 5);
    assert_eq!(c.get_biome(0).name, "Sea");
    assert_eq!(c.get_biome(1).name, "Grassland");
    assert_eq!(c.get_biome(3).name, "Default Biome");
    assert_eq!(c.get_biome(255).habitability_permille, 1000);
}

#[test]
fn climate_colors() {
    let c = config(10, 5);
    assert_eq!(c.climate_index_to_color(1), [0, 200, 0, 255]);
    assert_eq!(c.climate_index_to_color_simple(1), [0, 255, 0, 255]);
    assert_eq!(c.climate_index_to_color(7), [255, 0, 255, 255]);
    assert_eq!(c.get_climate_preview(), ClimatePreviewMode::SimplifiedColor);
    assert_eq!(c.get_preview_model(), WorldModel::Flat);
    assert_eq!(c.get_world_size(), (10, 5));
}

#[test]
fn config_defaults() {
    assert_eq!(GeneralConfig::default().world_size, [360, 180]);
    let s = ScenarioConfig::default();
    assert_eq!(s.num_starts, 10);
    assert_eq!(s.num_civs, 10);
    assert_eq!(s.random_point_algorithm, StartPointAlgorithm::WeightedArea);
    assert_eq!(s.random_civ_algorithm, StartCivAlgorithm::Choice);
    assert!(s.start_points.is_empty());
    let p = StartingPoint::default();
    assert!(!p.position_locked && !p.owner_locked);
    assert_eq!(p.position, [0, 0]);
    assert_eq!(p.owner, 0);
    assert_eq!(WorldModel::default(), WorldModel::Flat);
    assert_eq!(ColorDisplayMode::default(), ColorDisplayMode::Topography);
    assert_eq!(InfluenceMode::default(), InfluenceMode::ScaleDown);
    assert_eq!(MapDataLayer::default(), MapDataLayer::Preview);
    assert!(MAX_WORLD_SIZE >= 360);
}

fn round_trip<T: UiEditableEnum + PartialEq + std::fmt::Debug + Copy>(all: &[T], labels: &[&str]) {
    for (i, e) in all.iter().enumerate() {
        assert_eq!(e.self_as_index(), i);
        assert_eq!(e.index_as_self(i), *e);
        assert_eq!(T::index_to_str(i), labels[i]);
        assert_eq!(e.self_as_str(), labels[i]);
    }
    assert_eq!(T::LEN, all.len());
}

#[test]
fn editable_enums_round_trip() {
    round_trip(
        &[
            StartPointAlgorithm::Uniform,
            StartPointAlgorithm::Weighted,
            StartPointAlgorithm::WeightedArea,
            StartPointAlgorithm::WeightedSquared,
            StartPointAlgorithm::WeightedSquaredArea,
        ],
        &["Uniform", "Weighted", "WeightedArea", "WeightedSquared", "WeightedSquaredArea"],
    );
    round_trip(&[StartCivAlgorithm::Repeated, StartCivAlgorithm::Choice], &["Repeated", "Choice"]);
    round_trip(
        &[ColorDisplayMode::Topography, ColorDisplayMode::SimplifiedClimate, ColorDisplayMode::DetailedClimate],
        &["Topography", "SimplifiedClimate", "DetailedClimate"],
    );
    round_trip(
        &[InfluenceMode::ScaleDown, InfluenceMode::ScaleUp, InfluenceMode::ScaleUpDown],
        &["ScaleDown", "ScaleUp", "ScaleUpDown"],
    );
    round_trip(&[WorldModel::Flat, WorldModel::Globe], &["Flat", "Globe"]);
}

#[test]
fn invisible_layers_share_one_index() {
    assert_eq!(MapDataLayer::Deposits.self_as_index(), INVISIBLE_INDEX);
    assert_eq!(MapDataLayer::RealTopography.self_as_index(), INVISIBLE_INDEX);
    assert_eq!(MapDataLayer::TopographyFilter.self_as_index(), INVISIBLE_INDEX);
    assert_eq!(MapDataLayer::Preview.index_as_self(INVISIBLE_INDEX), MapDataLayer::Deposits);
    assert_eq!(MapDataLayer::ContinentsInfluence.self_as_index(), 6);
    assert_eq!(MapDataLayer::Preview.index_as_self(9), MapDataLayer::PrecipitationInfluence);
    assert_eq!(MapDataLayer::LEN, 10);
    assert_eq!(MapDataOverlay::NoOverlay.self_as_str(), "None");
}

#[test]
fn influence_layers() {
    assert_eq!(MapDataLayer::Continents.get_influence_layer(), Some(MapDataLayer::ContinentsInfluence));
    assert_eq!(MapDataLayer::Temperature.get_influence_layer(), Some(MapDataLayer::TemperatureInfluence));
    assert_eq!(MapDataLayer::Climate.get_influence_layer(), None);
    assert_eq!(MapDataLayer::Preview.get_influence_layer(), None);
    // Looking the influence layer up again gives the same layer.
    for l in map_data_layers() {
        if let Some(i) = l.get_influence_layer() {
            assert_eq!(i.get_influence_layer(), Some(i));
        }
    }
}

#[test]
fn data_layers_list() {
    let layers = map_data_layers();
    assert_eq!(layers.len(), 12);
    assert_eq!(layers[0], MapDataLayer::Preview);
    assert!(!layers.contains(&MapDataLayer::Deposits));
    assert_eq!(layers[11], MapDataLayer::PrecipitationInfluence);
}

#[test]
fn sea_threshold() {
    assert!(is_sea(0));
    assert!(is_sea(127));
    assert!(!is_sea(128));
    assert!(!is_sea(255));
}

#[test]
fn exported_layers_and_files() {
    let layers = export_data_layers();
    assert_eq!(layers[0], (MapDataLayer::Continents, "continents.png"));
    assert_eq!(layers[5], (MapDataLayer::Climate, "climate.png"));
    assert_eq!(layers[6], (MapDataLayer::Preview, "preview.png"));
    assert_eq!(layers.iter().filter(|(l, _)| *l == MapDataLayer::RealTopography).count(), 1);
    assert_eq!(CONFIG_NAME, "atlassim.toml");
}

#[test]
fn default_biome_table() {
    let biomes = atlas::config::sim::make_default_biomes();
    assert_eq!(biomes.len(), 25);
    assert_eq!(biomes[0].name, "Water");
    assert_eq!(biomes[0].habitability_permille, 1000);
    assert_eq!(biomes[1].name, "Polar Desert");
    assert_eq!(biomes[1].habitability_permille, 0);
    assert_eq!(biomes[14].name, "Temperate Rainforest");
    assert_eq!(biomes[14].color, [0, 180, 50]);
    assert_eq!(biomes[14].simple_color, [90, 200, 75]);
    assert_eq!(biomes[14].habitability_permille, 900);
    assert_eq!(biomes[24].name, "Mountains");
    assert_eq!(biomes[24].habitability_permille, 300);
}

#[test]
fn dropdown_selection_takes_effect() {
    let mut layer = MapDataLayer::Preview;
    dropdown_post_show(6, &mut layer);
    assert_eq!(layer, MapDataLayer::ContinentsInfluence);
    // A hidden layer keeps itself when its shared index is "picked".
    let mut hidden = MapDataLayer::RealTopography;
    dropdown_post_show(INVISIBLE_INDEX, &mut hidden);
    assert_eq!(hidden, MapDataLayer::RealTopography);
}
