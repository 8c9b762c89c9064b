//! Settings of the world generator that are plain choices.
use vstd::prelude::*;
use crate::ui::UiEditableEnum;

verus! {

/// How the map preview is coloured.
#[derive(Copy, Clone, Debug, PartialEq, Eq)]
pub enum ColorDisplayMode {
    /// Colour palette by topography.
    Topography,
    /// Simplified climate colours.
    SimplifiedClimate,
    /// Climate colours.
    DetailedClimate,
}

impl Default for ColorDisplayMode {
    fn default() -> (r: Self)
        ensures
            r == ColorDisplayMode::Topography,
    {
        ColorDisplayMode::Topography
    }
}

impl UiEditableEnum for ColorDisplayMode {
    const LEN: usize = 3;

    open spec fn spec_as_index(&self) -> usize {
        match self {
            ColorDisplayMode::Topography => 0,
            ColorDisplayMode::SimplifiedClimate => 1,
            ColorDisplayMode::DetailedClimate => 2,
        }
    }

    open spec fn spec_valid_index(idx: usize) -> bool {
        idx < 3
    }

    open spec fn spec_from_index(idx: usize) -> Self {
        if idx == 0 { ColorDisplayMode::Topography } else if idx == 1 { ColorDisplayMode::SimplifiedClimate } else { ColorDisplayMode::DetailedClimate }
    }

    open spec fn spec_label(idx: usize) -> Seq<char> {
        if idx == 0 { "Topography"@ } else if idx == 1 { "SimplifiedClimate"@ } else { "DetailedClimate"@ }
    }

    fn self_as_index(&self) -> (r: usize) {
        let r: usize = match self {
            ColorDisplayMode::Topography => 0,
            ColorDisplayMode::SimplifiedClimate => 1,
            ColorDisplayMode::DetailedClimate => 2,
        };
        assert(Self::spec_valid_index(r));
        r
    }

    fn index_as_self(&self, idx: usize) -> (r: Self) {
        match idx {
            0 => ColorDisplayMode::Topography,
            1 => ColorDisplayMode::SimplifiedClimate,
            _ => ColorDisplayMode::DetailedClimate,
        }
    }

    fn index_to_str(idx: usize) -> (r: &'static str) {
        match idx {
            0 => "Topography",
            1 => "SimplifiedClimate",
            _ => "DetailedClimate",
        }
    }

    proof fn lemma_index_round_trip(e: Self) {
    }

    proof fn lemma_positions_visible(idx: usize) {
    }
}

/// How influence values affect data values.
#[derive(Copy, Clone, Debug, PartialEq, Eq)]
pub enum InfluenceMode {
    /// Influence below 1 scales data down.
    ScaleDown,
    /// Influence above 0 scales data up.
    ScaleUp,
    /// Influence above one half scales data up, below one half scales it down.
    ScaleUpDown,
}

impl Default for InfluenceMode {
    fn default() -> (r: Self)
        ensures
            r == InfluenceMode::ScaleDown,
    {
        InfluenceMode::ScaleDown
    }
}

impl UiEditableEnum for InfluenceMode {
    const LEN: usize = 3;

    open spec fn spec_as_index(&self) -> usize {
        match self {
            InfluenceMode::ScaleDown => 0,
            InfluenceMode::ScaleUp => 1,
            InfluenceMode::ScaleUpDown => 2,
        }
    }

    open spec fn spec_valid_index(idx: usize) -> bool {
        idx < 3
    }

    open spec fn spec_from_index(idx: usize) -> Self {
        if idx == 0 { InfluenceMode::ScaleDown } else if idx == 1 { InfluenceMode::ScaleUp } else { InfluenceMode::ScaleUpDown }
    }

    open spec fn spec_label(idx: usize) -> Seq<char> {
        if idx == 0 { "ScaleDown"@ } else if idx == 1 { "ScaleUp"@ } else { "ScaleUpDown"@ }
    }

    fn self_as_index(&self) -> (r: usize) {
        let r: usize = match self {
            InfluenceMode::ScaleDown => 0,
            InfluenceMode::ScaleUp => 1,
            InfluenceMode::ScaleUpDown => 2,
        };
        assert(Self::spec_valid_index(r));
        r
    }

    fn index_as_self(&self, idx: usize) -> (r: Self) {
        match idx {
            0 => InfluenceMode::ScaleDown,
            1 => InfluenceMode::ScaleUp,
            _ => InfluenceMode::ScaleUpDown,
        }
    }

    fn index_to_str(idx: usize) -> (r: &'static str) {
        match idx {
            0 => "ScaleDown",
            1 => "ScaleUp",
            _ => "ScaleUpDown",
        }
    }

    proof fn lemma_index_round_trip(e: Self) {
    }

    proof fn lemma_positions_visible(idx: usize) {
    }
}

} // verus!
