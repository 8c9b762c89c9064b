//! Configuration of the history simulator: world size, starting scenario
//! and climate biomes.
use vstd::prelude::*;
use crate::config::{AtlasConfig, ClimatePreviewMode, WorldModel};
use crate::ui::UiEditableEnum;

verus! {

/// File name of the simulator configuration.
pub const CONFIG_NAME: &'static str = "atlassim.toml";

/// Config for general world settings.
#[derive(Clone, Debug, PartialEq, Eq)]
pub struct GeneralConfig {
    pub world_size: [u32; 2],
}

impl Default for GeneralConfig {
    fn default() -> (r: Self)
        ensures
            r.world_size@ == seq![360u32, 180u32],
    {
        GeneralConfig { world_size: [360, 180] }
    }
}

/// A starting point of the scenario: where a polity starts and which
/// civilization owns it. Locked fields are kept by the randomizers.
#[derive(Clone, Copy, Debug, PartialEq, Eq)]
pub struct StartingPoint {
    pub position_locked: bool,
    pub position: [u32; 2],
    pub owner_locked: bool,
    pub owner: u8,
}

impl Default for StartingPoint {
    fn default() -> (r: Self)
        ensures
            !r.position_locked,
            r.position@ == seq![0u32, 0u32],
            !r.owner_locked,
            r.owner == 0,
    {
        StartingPoint { position_locked: false, position: [0, 0], owner_locked: false, owner: 0 }
    }
}

/// A civilization of the scenario.
#[derive(Clone, Copy, Debug, PartialEq, Eq, Default)]
pub struct Civilization {}

/// How random starting points are weighted over the continental tiles.
#[derive(Copy, Clone, Debug, PartialEq, Eq)]
pub enum StartPointAlgorithm {
    /// Every land tile is equally likely.
    Uniform,
    /// Land tiles are weighted by habitability.
    Weighted,
    /// Land tiles are weighted by the habitability of their 3x3 neighbourhood.
    WeightedArea,
    /// Land tiles are weighted by squared habitability.
    WeightedSquared,
    /// Land tiles are weighted by the squared habitability of their 3x3 neighbourhood.
    WeightedSquaredArea,
}

impl Default for StartPointAlgorithm {
    fn default() -> (r: Self)
        ensures
            r == StartPointAlgorithm::WeightedArea,
    {
        StartPointAlgorithm::WeightedArea
    }
}

impl UiEditableEnum for StartPointAlgorithm {
    const LEN: usize = 5;

    open spec fn spec_as_index(&self) -> usize {
        match self {
            StartPointAlgorithm::Uniform => 0,
            StartPointAlgorithm::Weighted => 1,
            StartPointAlgorithm::WeightedArea => 2,
            StartPointAlgorithm::WeightedSquared => 3,
            StartPointAlgorithm::WeightedSquaredArea => 4,
        }
    }

    open spec fn spec_valid_index(idx: usize) -> bool {
        idx < 5
    }

    open spec fn spec_from_index(idx: usize) -> Self {
        if idx == 0 { StartPointAlgorithm::Uniform } else if idx == 1 { StartPointAlgorithm::Weighted } else if idx == 2 { StartPointAlgorithm::WeightedArea } else if idx == 3 { StartPointAlgorithm::WeightedSquared } else { StartPointAlgorithm::WeightedSquaredArea }
    }

    open spec fn spec_label(idx: usize) -> Seq<char> {
        if idx == 0 { "Uniform"@ } else if idx == 1 { "Weighted"@ } else if idx == 2 { "WeightedArea"@ } else if idx == 3 { "WeightedSquared"@ } else { "WeightedSquaredArea"@ }
    }

    fn self_as_index(&self) -> (r: usize) {
        let r: usize = match self {
            StartPointAlgorithm::Uniform => 0,
            StartPointAlgorithm::Weighted => 1,
            StartPointAlgorithm::WeightedArea => 2,
            StartPointAlgorithm::WeightedSquared => 3,
            StartPointAlgorithm::WeightedSquaredArea => 4,
        };
        assert(Self::spec_valid_index(r));
        r
    }

    fn index_as_self(&self, idx: usize) -> (r: Self) {
        match idx {
            0 => StartPointAlgorithm::Uniform,
            1 => StartPointAlgorithm::Weighted,
            2 => StartPointAlgorithm::WeightedArea,
            3 => StartPointAlgorithm::WeightedSquared,
            _ => StartPointAlgorithm::WeightedSquaredArea,
        }
    }

    fn index_to_str(idx: usize) -> (r: &'static str) {
        match idx {
            0 => "Uniform",
            1 => "Weighted",
            2 => "WeightedArea",
            3 => "WeightedSquared",
            _ => "WeightedSquaredArea",
        }
    }

    proof fn lemma_index_round_trip(e: Self) {
    }

    proof fn lemma_positions_visible(idx: usize) {
    }
}

/// How civilizations are assigned to starting points.
#[derive(Copy, Clone, Debug, PartialEq, Eq)]
pub enum StartCivAlgorithm {
    /// Any civilization, possibly several times.
    Repeated,
    /// Each civilization at most once.
    Choice,
}

impl Default for StartCivAlgorithm {
    fn default() -> (r: Self)
        ensures
            r == StartCivAlgorithm::Choice,
    {
        StartCivAlgorithm::Choice
    }
}

impl UiEditableEnum for StartCivAlgorithm {
    const LEN: usize = 2;

    open spec fn spec_as_index(&self) -> usize {
        match self {
            StartCivAlgorithm::Repeated => 0,
            StartCivAlgorithm::Choice => 1,
        }
    }

    open spec fn spec_valid_index(idx: usize) -> bool {
        idx < 2
    }

    open spec fn spec_from_index(idx: usize) -> Self {
        if idx == 0 { StartCivAlgorithm::Repeated } else { StartCivAlgorithm::Choice }
    }

    open spec fn spec_label(idx: usize) -> Seq<char> {
        if idx == 0 { "Repeated"@ } else { "Choice"@ }
    }

    fn self_as_index(&self) -> (r: usize) {
        let r: usize = match self {
            StartCivAlgorithm::Repeated => 0,
            StartCivAlgorithm::Choice => 1,
        };
        assert(Self::spec_valid_index(r));
        r
    }

    fn index_as_self(&self, idx: usize) -> (r: Self) {
        match idx {
            0 => StartCivAlgorithm::Repeated,
            _ => StartCivAlgorithm::Choice,
        }
    }

    fn index_to_str(idx: usize) -> (r: &'static str) {
        match idx {
            0 => "Repeated",
            _ => "Choice",
        }
    }

    proof fn lemma_index_round_trip(e: Self) {
    }

    proof fn lemma_positions_visible(idx: usize) {
    }
}

/// Initial scenario config.
#[derive(Clone, Debug)]
pub struct ScenarioConfig {
    pub num_starts: u8,
    pub num_civs: u8,
    pub random_point_algorithm: StartPointAlgorithm,
    pub random_civ_algorithm: StartCivAlgorithm,
    pub start_points: Vec<StartingPoint>,
    pub start_civs: Vec<Civilization>,
}

impl Default for ScenarioConfig {
    fn default() -> (r: Self)
        ensures
            r.num_starts == 10,
            r.num_civs == 10,
            r.random_point_algorithm == StartPointAlgorithm::WeightedArea,
            r.random_civ_algorithm == StartCivAlgorithm::Choice,
            r.start_points@.len() == 0,
            r.start_civs@.len() == 0,
    {
        ScenarioConfig {
            num_starts: 10,
            num_civs: 10,
            random_point_algorithm: StartPointAlgorithm::WeightedArea,
            random_civ_algorithm: StartCivAlgorithm::Choice,
            start_points: Vec::new(),
            start_civs: Vec::new(),
        }
    }
}

/// A single climate biome. Habitability (a fraction between 0 and 1) is held
/// in thousandths, the resolution at which the start point weights read it.
#[derive(Clone, Debug)]
pub struct BiomeConfig {
    pub name: String,
    pub color: [u8; 3],
    pub simple_color: [u8; 3],
    pub habitability_permille: u32,
}

/// Config for the climate rules.
#[derive(Clone, Debug)]
pub struct ClimateConfig {
    pub preview_mode: ClimatePreviewMode,
    pub biomes: Vec<BiomeConfig>,
    pub default_biome: BiomeConfig,
}

/// Complete configuration for the history simulator.
#[derive(Clone, Debug)]
pub struct AtlasSimConfig {
    pub general: GeneralConfig,
    pub scenario: ScenarioConfig,
    pub climate: ClimateConfig,
}

/// Climate indices that `get_biome` can look up: every index but the one
/// just past the biome list.
pub open spec fn biome_index_ok(climate: ClimateConfig, i: u8) -> bool {
    i as int != climate.biomes@.len()
}

/// The biome that climate index `i` selects: indices past the biome list
/// fall back to the default biome.
pub open spec fn spec_get_biome(climate: ClimateConfig, i: u8) -> BiomeConfig {
    if i as int > climate.biomes@.len() {
        climate.default_biome
    } else {
        climate.biomes@[i as int]
    }
}

impl AtlasSimConfig {
    /// Get reference to a biome based on its index.
    pub fn get_biome(&self, i: u8) -> (r: &BiomeConfig)
        requires
            biome_index_ok(self.climate, i),
        ensures
            *r == spec_get_biome(self.climate, i),
    {
        let i = i as usize;
        if i > self.climate.biomes.len() {
            &self.climate.default_biome
        } else {
            &self.climate.biomes[i]
        }
    }
}

impl AtlasConfig for AtlasSimConfig {
    open spec fn world_size(&self) -> (u32, u32) {
        (self.general.world_size[0], self.general.world_size[1])
    }

    open spec fn climate_index_ok(&self, i: u8) -> bool {
        biome_index_ok(self.climate, i)
    }

    fn get_world_size(&self) -> (r: (u32, u32)) {
        (self.general.world_size[0], self.general.world_size[1])
    }

    fn get_preview_model(&self) -> (r: WorldModel)
        ensures
            r == WorldModel::Flat,
    {
        WorldModel::Flat
    }

    fn get_climate_preview(&self) -> (r: ClimatePreviewMode)
        ensures
            r == self.climate.preview_mode,
    {
        self.climate.preview_mode
    }

    fn climate_index_to_color(&self, i: u8) -> (r: [u8; 4])
        ensures
            r@ == seq![
                spec_get_biome(self.climate, i).color[0],
                spec_get_biome(self.climate, i).color[1],
                spec_get_biome(self.climate, i).color[2],
                255u8,
            ],
    {
        let biome = self.get_biome(i);
        let r = [biome.color[0], biome.color[1], biome.color[2], 255];
        assert(r@ =~= seq![biome.color[0], biome.color[1], biome.color[2], 255u8]);
        r
    }

    fn climate_index_to_color_simple(&self, i: u8) -> (r: [u8; 4])
        ensures
            r@ == seq![
                spec_get_biome(self.climate, i).simple_color[0],
                spec_get_biome(self.climate, i).simple_color[1],
                spec_get_biome(self.climate, i).simple_color[2],
                255u8,
            ],
    {
        let biome = self.get_biome(i);
        let r = [biome.simple_color[0], biome.simple_color[1], biome.simple_color[2], 255];
        assert(r@ =~= seq![biome.simple_color[0], biome.simple_color[1], biome.simple_color[2], 255u8]);
        r
    }
}


/// The default biome table, row by row: name, colour, simple colour and
/// habitability in thousandths.
pub open spec fn default_biome_table() -> Seq<(Seq<char>, [u8; 3], [u8; 3], u32)> {
    seq![
        ("Water"@, [80u8, 200, 255], [80u8, 200, 255], 1000u32),
        ("Polar Desert"@, [225u8, 245, 250], [225u8, 245, 250], 0u32),
        ("Arctic Desert"@, [170u8, 185, 190], [225u8, 245, 250], 100u32),
        ("Arctic Desert (Wet)"@, [145u8, 160, 160], [225u8, 245, 250], 100u32),
        ("Tundra"@, [140u8, 195, 175], [140u8, 195, 175], 300u32),
        ("Tundra (Wet)"@, [90u8, 195, 155], [140u8, 195, 175], 300u32),
        ("Boreal Forest"@, [90u8, 170, 140], [90u8, 170, 140], 500u32),
        ("Boreal Forest (Wet)"@, [40u8, 140, 100], [90u8, 170, 140], 500u32),
        ("Cold Desert (Arid)"@, [160u8, 155, 140], [185u8, 175, 140], 100u32),
        ("Cold Desert"@, [185u8, 175, 140], [185u8, 175, 140], 300u32),
        ("Temperate Grassland"@, [180u8, 190, 130], [90u8, 200, 75], 800u32),
        ("Temperate Shrubland"@, [150u8, 190, 130], [90u8, 200, 75], 1000u32),
        ("Temperate Woodland"@, [90u8, 200, 75], [90u8, 200, 75], 1000u32),
        ("Temperate Forest"@, [50u8, 185, 65], [90u8, 200, 75], 1000u32),
        ("Temperate Rainforest"@, [0u8, 180, 50], [90u8, 200, 75], 900u32),
        ("Temperate Rainforest (Wet)"@, [90u8, 230, 45], [90u8, 200, 75], 900u32),
        ("Tropical Rainforest (Wet)"@, [30u8, 255, 0], [25u8, 210, 0], 900u32),
        ("Tropical Rainforest"@, [25u8, 210, 0], [25u8, 210, 0], 900u32),
        ("Tropical Forest"@, [130u8, 210, 0], [130u8, 210, 0], 1000u32),
        ("Savanna"@, [180u8, 210, 45], [130u8, 210, 0], 800u32),
        ("Hot Desert"@, [225u8, 220, 55], [225u8, 220, 55], 200u32),
        ("Hot Desert (Arid)"@, [220u8, 195, 80], [225u8, 220, 55], 100u32),
        ("Tropical Rainforest (Extreme)"@, [155u8, 180, 0], [25u8, 210, 0], 500u32),
        ("Scorched Desert"@, [255u8, 215, 0], [225u8, 220, 55], 0u32),
        ("Mountains"@, [80u8, 70, 60], [80u8, 70, 60], 300u32),
    ]
}

/// A biome of the given name, colours and habitability (in thousandths).
fn biome(name: &str, color: [u8; 3], simple_color: [u8; 3], habitability_permille: u32) -> (b: BiomeConfig)
    ensures
        b.name@ == name@,
        b.color == color,
        b.simple_color == simple_color,
        b.habitability_permille == habitability_permille,
{
    BiomeConfig { name: name.to_owned(), color, simple_color, habitability_permille }
}

/// Create a list of default biomes for general use: the rows of
/// `default_biome_table`, in order.
pub fn make_default_biomes() -> (r: Vec<BiomeConfig>)
    ensures
        r@.len() == default_biome_table().len(),
        forall|i: int|
            0 <= i < r@.len() ==> {
                let row = default_biome_table()[i];
                &&& (#[trigger] r@[i]).name@ == row.0
                &&& r@[i].color == row.1
                &&& r@[i].simple_color == row.2
                &&& r@[i].habitability_permille == row.3
            },
{
    let mut biomes: Vec<BiomeConfig> = Vec::new();
    biomes.push(biome("Water", [80, 200, 255], [80, 200, 255], 1000));
    biomes.push(biome("Polar Desert", [225, 245, 250], [225, 245, 250], 0));
    biomes.push(biome("Arctic Desert", [170, 185, 190], [225, 245, 250], 100));
    biomes.push(biome("Arctic Desert (Wet)", [145, 160, 160], [225, 245, 250], 100));
    biomes.push(biome("Tundra", [140, 195, 175], [140, 195, 175], 300));
    biomes.push(biome("Tundra (Wet)", [90, 195, 155], [140, 195, 175], 300));
    biomes.push(biome("Boreal Forest", [90, 170, 140], [90, 170, 140], 500));
    biomes.push(biome("Boreal Forest (Wet)", [40, 140, 100], [90, 170, 140], 500));
    biomes.push(biome("Cold Desert (Arid)", [160, 155, 140], [185, 175, 140], 100));
    biomes.push(biome("Cold Desert", [185, 175, 140], [185, 175, 140], 300));
    biomes.push(biome("Temperate Grassland", [180, 190, 130], [90, 200, 75], 800));
    biomes.push(biome("Temperate Shrubland", [150, 190, 130], [90, 200, 75], 1000));
    biomes.push(biome("Temperate Woodland", [90, 200, 75], [90, 200, 75], 1000));
    biomes.push(biome("Temperate Forest", [50, 185, 65], [90, 200, 75], 1000));
    biomes.push(biome("Temperate Rainforest", [0, 180, 50], [90, 200, 75], 900));
    biomes.push(biome("Temperate Rainforest (Wet)", [90, 230, 45], [90, 200, 75], 900));
    biomes.push(biome("Tropical Rainforest (Wet)", [30, 255, 0], [25, 210, 0], 900));
    biomes.push(biome("Tropical Rainforest", [25, 210, 0], [25, 210, 0], 900));
    biomes.push(biome("Tropical Forest", [130, 210, 0], [130, 210, 0], 1000));
    biomes.push(biome("Savanna", [180, 210, 45], [130, 210, 0], 800));
    biomes.push(biome("Hot Desert", [225, 220, 55], [225, 220, 55], 200));
    biomes.push(biome("Hot Desert (Arid)", [220, 195, 80], [225, 220, 55], 100));
    biomes.push(biome("Tropical Rainforest (Extreme)", [155, 180, 0], [25, 210, 0], 500));
    biomes.push(biome("Scorched Desert", [255, 215, 0], [225, 220, 55], 0));
    biomes.push(biome("Mountains", [80, 70, 60], [80, 70, 60], 300));
    biomes
}

} // verus!
