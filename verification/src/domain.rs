//! Map layers and overlays.
use vstd::prelude::*;
use crate::ui::{UiEditableEnum, INVISIBLE_INDEX};

verus! {

/// A map layer containing some sort of data.
#[derive(Copy, Clone, Debug, PartialEq, Eq)]
pub enum MapDataLayer {
    Preview,
    Continents,
    Topography,
    Temperature,
    Precipitation,
    Climate,
    Deposits,
    RealTopography,
    TopographyFilter,
    ContinentsInfluence,
    TopographyInfluence,
    TemperatureInfluence,
    PrecipitationInfluence,
}

impl Default for MapDataLayer {
    fn default() -> (r: Self)
        ensures
            r == MapDataLayer::Preview,
    {
        MapDataLayer::Preview
    }
}

impl UiEditableEnum for MapDataLayer {
    const LEN: usize = 10;

    open spec fn spec_as_index(&self) -> usize {
        match self {
            MapDataLayer::Preview => 0,
            MapDataLayer::Continents => 1,
            MapDataLayer::Topography => 2,
            MapDataLayer::Temperature => 3,
            MapDataLayer::Precipitation => 4,
            MapDataLayer::Climate => 5,
            MapDataLayer::Deposits => INVISIBLE_INDEX,
            MapDataLayer::RealTopography => INVISIBLE_INDEX,
            MapDataLayer::TopographyFilter => INVISIBLE_INDEX,
            MapDataLayer::ContinentsInfluence => 6,
            MapDataLayer::TopographyInfluence => 7,
            MapDataLayer::TemperatureInfluence => 8,
            MapDataLayer::PrecipitationInfluence => 9,
        }
    }

    open spec fn spec_valid_index(idx: usize) -> bool {
        idx < 10 || idx == INVISIBLE_INDEX
    }

    open spec fn spec_from_index(idx: usize) -> Self {
        if idx == 0 { MapDataLayer::Preview } else if idx == 1 { MapDataLayer::Continents } else if idx == 2 { MapDataLayer::Topography } else if idx == 3 { MapDataLayer::Temperature } else if idx == 4 { MapDataLayer::Precipitation } else if idx == 5 { MapDataLayer::Climate } else if idx == 6 { MapDataLayer::ContinentsInfluence } else if idx == 7 { MapDataLayer::TopographyInfluence } else if idx == 8 { MapDataLayer::TemperatureInfluence } else if idx == 9 { MapDataLayer::PrecipitationInfluence } else { MapDataLayer::Deposits }
    }

    open spec fn spec_label(idx: usize) -> Seq<char> {
        if idx == 0 { "Preview"@ } else if idx == 1 { "Continents"@ } else if idx == 2 { "Topography"@ } else if idx == 3 { "Temperature"@ } else if idx == 4 { "Precipitation"@ } else if idx == 5 { "Climate"@ } else if idx == 6 { "ContinentsInfluence"@ } else if idx == 7 { "TopographyInfluence"@ } else if idx == 8 { "TemperatureInfluence"@ } else if idx == 9 { "PrecipitationInfluence"@ } else { "Deposits"@ }
    }

    fn self_as_index(&self) -> (r: usize) {
        let r: usize = match self {
            MapDataLayer::Preview => 0,
            MapDataLayer::Continents => 1,
            MapDataLayer::Topography => 2,
            MapDataLayer::Temperature => 3,
            MapDataLayer::Precipitation => 4,
            MapDataLayer::Climate => 5,
            MapDataLayer::Deposits => INVISIBLE_INDEX,
            MapDataLayer::RealTopography => INVISIBLE_INDEX,
            MapDataLayer::TopographyFilter => INVISIBLE_INDEX,
            MapDataLayer::ContinentsInfluence => 6,
            MapDataLayer::TopographyInfluence => 7,
            MapDataLayer::TemperatureInfluence => 8,
            MapDataLayer::PrecipitationInfluence => 9,
        };
        assert(Self::spec_valid_index(r));
        r
    }

    fn index_as_self(&self, idx: usize) -> (r: Self) {
        match idx {
            0 => MapDataLayer::Preview,
            1 => MapDataLayer::Continents,
            2 => MapDataLayer::Topography,
            3 => MapDataLayer::Temperature,
            4 => MapDataLayer::Precipitation,
            5 => MapDataLayer::Climate,
            6 => MapDataLayer::ContinentsInfluence,
            7 => MapDataLayer::TopographyInfluence,
            8 => MapDataLayer::TemperatureInfluence,
            9 => MapDataLayer::PrecipitationInfluence,
            _ => MapDataLayer::Deposits,
        }
    }

    fn index_to_str(idx: usize) -> (r: &'static str) {
        match idx {
            0 => "Preview",
            1 => "Continents",
            2 => "Topography",
            3 => "Temperature",
            4 => "Precipitation",
            5 => "Climate",
            6 => "ContinentsInfluence",
            7 => "TopographyInfluence",
            8 => "TemperatureInfluence",
            9 => "PrecipitationInfluence",
            _ => "Deposits",
        }
    }

    proof fn lemma_index_round_trip(e: Self) {
    }

    proof fn lemma_positions_visible(idx: usize) {
    }
}

/// A graphical overlay over the map, but not necessarily a full layer.
#[derive(Copy, Clone, Debug, PartialEq, Eq)]
pub enum MapDataOverlay {
    /// No overlay (labelled "None").
    NoOverlay,
    StartPoints,
    Polities,
    Cities,
}

impl Default for MapDataOverlay {
    fn default() -> (r: Self)
        ensures
            r == MapDataOverlay::NoOverlay,
    {
        MapDataOverlay::NoOverlay
    }
}

impl UiEditableEnum for MapDataOverlay {
    const LEN: usize = 4;

    open spec fn spec_as_index(&self) -> usize {
        match self {
            MapDataOverlay::NoOverlay => 0,
            MapDataOverlay::StartPoints => 1,
            MapDataOverlay::Polities => 2,
            MapDataOverlay::Cities => 3,
        }
    }

    open spec fn spec_valid_index(idx: usize) -> bool {
        idx < 4
    }

    open spec fn spec_from_index(idx: usize) -> Self {
        if idx == 0 { MapDataOverlay::NoOverlay } else if idx == 1 { MapDataOverlay::StartPoints } else if idx == 2 { MapDataOverlay::Polities } else { MapDataOverlay::Cities }
    }

    open spec fn spec_label(idx: usize) -> Seq<char> {
        if idx == 0 { "None"@ } else if idx == 1 { "StartPoints"@ } else if idx == 2 { "Polities"@ } else { "Cities"@ }
    }

    fn self_as_index(&self) -> (r: usize) {
        let r: usize = match self {
            MapDataOverlay::NoOverlay => 0,
            MapDataOverlay::StartPoints => 1,
            MapDataOverlay::Polities => 2,
            MapDataOverlay::Cities => 3,
        };
        assert(Self::spec_valid_index(r));
        r
    }

    fn index_as_self(&self, idx: usize) -> (r: Self) {
        match idx {
            0 => MapDataOverlay::NoOverlay,
            1 => MapDataOverlay::StartPoints,
            2 => MapDataOverlay::Polities,
            _ => MapDataOverlay::Cities,
        }
    }

    fn index_to_str(idx: usize) -> (r: &'static str) {
        match idx {
            0 => "None",
            1 => "StartPoints",
            2 => "Polities",
            _ => "Cities",
        }
    }

    proof fn lemma_index_round_trip(e: Self) {
    }

    proof fn lemma_positions_visible(idx: usize) {
    }
}

/// The influence layer that shapes layer `l`, if it has one (an influence
/// layer is its own influence layer).
pub open spec fn spec_influence_layer(l: MapDataLayer) -> Option<MapDataLayer> {
    match l {
        MapDataLayer::Continents | MapDataLayer::ContinentsInfluence => Some(MapDataLayer::ContinentsInfluence),
        MapDataLayer::Topography | MapDataLayer::TopographyInfluence => Some(MapDataLayer::TopographyInfluence),
        MapDataLayer::Temperature | MapDataLayer::TemperatureInfluence => Some(MapDataLayer::TemperatureInfluence),
        MapDataLayer::Precipitation | MapDataLayer::PrecipitationInfluence => Some(
            MapDataLayer::PrecipitationInfluence,
        ),
        _ => None,
    }
}

impl MapDataLayer {
    pub fn get_influence_layer(&self) -> (r: Option<Self>)
        ensures
            r == spec_influence_layer(*self),
    {
        match self {
            MapDataLayer::Preview => None,
            MapDataLayer::Continents => Some(MapDataLayer::ContinentsInfluence),
            MapDataLayer::Topography => Some(MapDataLayer::TopographyInfluence),
            MapDataLayer::Temperature => Some(MapDataLayer::TemperatureInfluence),
            MapDataLayer::Precipitation => Some(MapDataLayer::PrecipitationInfluence),
            MapDataLayer::Climate => None,
            MapDataLayer::Deposits => None,
            MapDataLayer::RealTopography => None,
            MapDataLayer::TopographyFilter => None,
            MapDataLayer::ContinentsInfluence => Some(MapDataLayer::ContinentsInfluence),
            MapDataLayer::TopographyInfluence => Some(MapDataLayer::TopographyInfluence),
            MapDataLayer::TemperatureInfluence => Some(MapDataLayer::TemperatureInfluence),
            MapDataLayer::PrecipitationInfluence => Some(MapDataLayer::PrecipitationInfluence),
        }
    }
}

/// Every layer with an influence layer shares it with that influence layer,
/// which is its own: looking it up twice changes nothing.
pub proof fn law_influence_layer_idempotent(l: MapDataLayer)
    ensures
        spec_influence_layer(l) matches Some(i) ==> spec_influence_layer(i) == Some(i),
{
}

/// All map data layers that the map keeps (every layer but the deposits).
pub fn map_data_layers() -> (r: [MapDataLayer; 12])
    ensures
        r@ == seq![
            MapDataLayer::Preview,
            MapDataLayer::Continents,
            MapDataLayer::Topography,
            MapDataLayer::Temperature,
            MapDataLayer::Precipitation,
            MapDataLayer::Climate,
            MapDataLayer::RealTopography,
            MapDataLayer::TopographyFilter,
            MapDataLayer::ContinentsInfluence,
            MapDataLayer::TopographyInfluence,
            MapDataLayer::TemperatureInfluence,
            MapDataLayer::PrecipitationInfluence,
        ],
{
    let r = [
        MapDataLayer::Preview,
        MapDataLayer::Continents,
        MapDataLayer::Topography,
        MapDataLayer::Temperature,
        MapDataLayer::Precipitation,
        MapDataLayer::Climate,
        MapDataLayer::RealTopography,
        MapDataLayer::TopographyFilter,
        MapDataLayer::ContinentsInfluence,
        MapDataLayer::TopographyInfluence,
        MapDataLayer::TemperatureInfluence,
        MapDataLayer::PrecipitationInfluence,
    ];
    assert(r@ =~= seq![
        MapDataLayer::Preview,
        MapDataLayer::Continents,
        MapDataLayer::Topography,
        MapDataLayer::Temperature,
        MapDataLayer::Precipitation,
        MapDataLayer::Climate,
        MapDataLayer::RealTopography,
        MapDataLayer::TopographyFilter,
        MapDataLayer::ContinentsInfluence,
        MapDataLayer::TopographyInfluence,
        MapDataLayer::TemperatureInfluence,
        MapDataLayer::PrecipitationInfluence,
    ]);
    r
}

/// The layers that are written to and read from files, with their file
/// names.
pub fn export_data_layers() -> (r: [(MapDataLayer, &'static str); 7])
    ensures
        r[0].0 == MapDataLayer::Continents,
        r[0].1@ == "continents.png"@,
        r[1].0 == MapDataLayer::Topography,
        r[1].1@ == "topography.png"@,
        r[2].0 == MapDataLayer::RealTopography,
        r[2].1@ == "realtopography.png"@,
        r[3].0 == MapDataLayer::Temperature,
        r[3].1@ == "temperature.png"@,
        r[4].0 == MapDataLayer::Precipitation,
        r[4].1@ == "precipitation.png"@,
        r[5].0 == MapDataLayer::Climate,
        r[5].1@ == "climate.png"@,
        r[6].0 == MapDataLayer::Preview,
        r[6].1@ == "preview.png"@,
{
    [
        (MapDataLayer::Continents, "continents.png"),
        (MapDataLayer::Topography, "topography.png"),
        (MapDataLayer::RealTopography, "realtopography.png"),
        (MapDataLayer::Temperature, "temperature.png"),
        (MapDataLayer::Precipitation, "precipitation.png"),
        (MapDataLayer::Climate, "climate.png"),
        (MapDataLayer::Preview, "preview.png"),
    ]
}

/// Is this continent tile marked as water?
pub fn is_sea(value: u8) -> (r: bool)
    ensures
        r == (value <= 127),
{
    value <= 127
}

} // verus!
