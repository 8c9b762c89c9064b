//! Configuration shared by the generator and the simulator, and the map
//! geometry every configuration provides.
pub mod gen;
pub mod sim;

use vstd::prelude::*;
use std::collections::BTreeSet;
use vstd::arithmetic::div_mod::lemma_fundamental_div_mod_converse;
use vstd::arithmetic::div_mod::lemma_fundamental_div_mod;
use vstd::arithmetic::div_mod::lemma_mod_pos_bound;
use vstd::arithmetic::div_mod::lemma_div_pos_is_pos;
use crate::ui::UiEditableEnum;

verus! {

broadcast use vstd::std_specs::btree::group_btree_axioms;

/// Largest world dimension (in tiles) that the configuration accepts.
pub const MAX_WORLD_SIZE: u32 = 1000;

/// Linear index of map point `(x, y)` on a map `width` tiles wide.
pub open spec fn spec_map_to_index(width: int, x: int, y: int) -> int {
    x + y * width
}

/// Map point of linear index `index` on a map `width` tiles wide.
pub open spec fn spec_index_to_map(width: int, index: int) -> (int, int) {
    (index % width, index / width)
}

/// Number of chunks of side `chunk_size` needed to cover `len` tiles.
pub open spec fn spec_div_ceil(len: int, chunk_size: int) -> int {
    if len % chunk_size == 0 { len / chunk_size } else { len / chunk_size + 1 }
}

/// Chunk (of side `chunk_size`, counted row by row) that holds tile `index`.
pub open spec fn spec_index_to_chunk(width: int, index: int, chunk_size: int) -> int {
    (index / width / chunk_size) * spec_div_ceil(width, chunk_size) + (index % width) / chunk_size
}

/// The (up to) four tiles that share an edge with tile `index` on a
/// `width` x `height` map: left, right, up and down, where they exist.
pub open spec fn spec_border_tiles(width: int, height: int, index: int) -> Set<u32> {
    Set::new(|t: u32| {
        ||| (index % width != 0 && t == index - 1)
        ||| (index % width != width - 1 && t == index + 1)
        ||| (index / width != 0 && t == index - width)
        ||| (index / width != height - 1 && t == index + width)
    })
}

/// The neighbours that `get_border_tiles` lists for tile `index` of a
/// `width` by `height` map are numbers of `u32`. (So is every neighbour of a
/// tile on a map whose tiles are numbered by `u32`.)
pub open spec fn border_tiles_fit(width: int, height: int, index: int) -> bool {
    &&& index % width != width - 1 ==> index + 1 <= u32::MAX
    &&& index / width != height - 1 ==> index + width <= u32::MAX
}

/// On a map whose tiles are numbered by `u32`, the neighbours of every tile
/// are too.
pub proof fn lemma_border_tiles_fit(width: int, height: int, index: int)
    requires
        width > 0,
        0 <= index < width * height,
        width * height <= u32::MAX,
    ensures
        border_tiles_fit(width, height, index),
{
    lemma_fundamental_div_mod(index, width);
    let (d, m) = (index / width, index % width);
    assert(d < height) by (nonlinear_arith)
        requires
            index == width * d + m,
            0 <= m,
            index < width * height,
            width > 0,
    ;
    assert(d != height - 1 ==> index + width < width * height) by (nonlinear_arith)
        requires
            index == width * d + m,
            0 <= m < width,
            d < height,
            d >= 0,
    ;
}

/// Two tiles touch when their map points differ by one step along one axis.
pub open spec fn tiles_touch(width: int, a: int, b: int) -> bool {
    let (ax, ay) = spec_index_to_map(width, a);
    let (bx, by) = spec_index_to_map(width, b);
    ||| (ax == bx && (ay == by + 1 || by == ay + 1))
    ||| (ay == by && (ax == bx + 1 || bx == ax + 1))
}

/// The geometric model of the world, which decides the coordinate system, map
/// visualisation and map border behaviour.
#[derive(Copy, Clone, Debug, PartialEq, Eq)]
pub enum WorldModel {
    Flat,
    Globe,
}

impl Default for WorldModel {
    fn default() -> (r: Self)
        ensures
            r == WorldModel::Flat,
    {
        WorldModel::Flat
    }
}

impl UiEditableEnum for WorldModel {
    const LEN: usize = 2;

    open spec fn spec_as_index(&self) -> usize {
        match self {
            WorldModel::Flat => 0,
            WorldModel::Globe => 1,
        }
    }

    open spec fn spec_valid_index(idx: usize) -> bool {
        idx < 2
    }

    open spec fn spec_from_index(idx: usize) -> Self {
        if idx == 0 { WorldModel::Flat } else { WorldModel::Globe }
    }

    open spec fn spec_label(idx: usize) -> Seq<char> {
        if idx == 0 { "Flat"@ } else { "Globe"@ }
    }

    fn self_as_index(&self) -> (r: usize) {
        let r: usize = match self {
            WorldModel::Flat => 0,
            WorldModel::Globe => 1,
        };
        assert(Self::spec_valid_index(r));
        r
    }

    fn index_as_self(&self, idx: usize) -> (r: Self) {
        match idx {
            0 => WorldModel::Flat,
            _ => WorldModel::Globe,
        }
    }

    fn index_to_str(idx: usize) -> (r: &'static str) {
        match idx {
            0 => "Flat",
            _ => "Globe",
        }
    }

    proof fn lemma_index_round_trip(e: Self) {
    }

    proof fn lemma_positions_visible(idx: usize) {
    }
}

/// How the climate layer is coloured in the preview.
#[derive(Copy, Clone, Debug, PartialEq, Eq)]
pub enum ClimatePreviewMode {
    SimplifiedColor,
    DetailedColor,
}

impl Default for ClimatePreviewMode {
    fn default() -> (r: Self)
        ensures
            r == ClimatePreviewMode::DetailedColor,
    {
        ClimatePreviewMode::DetailedColor
    }
}

impl UiEditableEnum for ClimatePreviewMode {
    const LEN: usize = 2;

    open spec fn spec_as_index(&self) -> usize {
        match self {
            ClimatePreviewMode::SimplifiedColor => 0,
            ClimatePreviewMode::DetailedColor => 1,
        }
    }

    open spec fn spec_valid_index(idx: usize) -> bool {
        idx < 2
    }

    open spec fn spec_from_index(idx: usize) -> Self {
        if idx == 0 { ClimatePreviewMode::SimplifiedColor } else { ClimatePreviewMode::DetailedColor }
    }

    open spec fn spec_label(idx: usize) -> Seq<char> {
        if idx == 0 { "SimplifiedColor"@ } else { "DetailedColor"@ }
    }

    fn self_as_index(&self) -> (r: usize) {
        let r: usize = match self {
            ClimatePreviewMode::SimplifiedColor => 0,
            ClimatePreviewMode::DetailedColor => 1,
        };
        assert(Self::spec_valid_index(r));
        r
    }

    fn index_as_self(&self, idx: usize) -> (r: Self) {
        match idx {
            0 => ClimatePreviewMode::SimplifiedColor,
            _ => ClimatePreviewMode::DetailedColor,
        }
    }

    fn index_to_str(idx: usize) -> (r: &'static str) {
        match idx {
            0 => "SimplifiedColor",
            _ => "DetailedColor",
        }
    }

    proof fn lemma_index_round_trip(e: Self) {
    }

    proof fn lemma_positions_visible(idx: usize) {
    }
}

/// What every configuration provides: the world size, its preview settings,
/// and the map geometry derived from the world size.
pub trait AtlasConfig {
    /// World size (width, height) in tiles.
    spec fn world_size(&self) -> (u32, u32);

    fn get_world_size(&self) -> (r: (u32, u32))
        ensures
            r == self.world_size(),
    ;

    fn get_preview_model(&self) -> WorldModel;

    fn get_climate_preview(&self) -> ClimatePreviewMode;

    /// Climate indices that name a biome of this configuration.
    spec fn climate_index_ok(&self, i: u8) -> bool;

    fn climate_index_to_color(&self, i: u8) -> [u8; 4]
        requires
            self.climate_index_ok(i),
    ;

    fn climate_index_to_color_simple(&self, i: u8) -> [u8; 4]
        requires
            self.climate_index_ok(i),
    ;

    /// Convert a point from map space to linear tile index.
    fn map_to_index(&self, point: (u32, u32)) -> (r: u32)
        requires
            spec_map_to_index(self.world_size().0 as int, point.0 as int, point.1 as int)
                <= u32::MAX,
        ensures
            r == spec_map_to_index(self.world_size().0 as int, point.0 as int, point.1 as int),
    {
        let (width, _) = self.get_world_size();
        proof {
            vstd::arithmetic::mul::lemma_mul_nonnegative(point.1 as int, width as int);
        }
        point.0 + point.1 * width
    }

    /// Convert a point from linear tile index to map space.
    fn index_to_map(&self, index: u32) -> (r: (u32, u32))
        requires
            self.world_size().0 > 0,
        ensures
            r.0 == spec_index_to_map(self.world_size().0 as int, index as int).0,
            r.1 == spec_index_to_map(self.world_size().0 as int, index as int).1,
    {
        let (width, _) = self.get_world_size();
        (index % width, index / width)
    }

    /// Find the chunk that contains this map point.
    fn index_to_chunk(&self, index: u32, chunk_size: u32) -> (r: u32)
        requires
            self.world_size().0 > 0,
            chunk_size > 0,
            spec_index_to_chunk(self.world_size().0 as int, index as int, chunk_size as int)
                <= u32::MAX,
        ensures
            r == spec_index_to_chunk(self.world_size().0 as int, index as int, chunk_size as int),
    {
        let (width, _) = self.get_world_size();
        let (x, y) = (index % width, index / width);
        assert((width / chunk_size) as int <= width as int) by (nonlinear_arith)
            requires
                chunk_size > 0,
        ;
        let width_in_chunks = if width % chunk_size == 0 {
            width / chunk_size
        } else {
            assert(((width / chunk_size) as int) < (width as int)) by (nonlinear_arith)
                requires
                    chunk_size > 0,
                    width > 0,
                    width % chunk_size != 0,
            ;
            width / chunk_size + 1
        };
        proof {
            lemma_div_pos_is_pos(y as int, chunk_size as int);
            lemma_div_pos_is_pos(x as int, chunk_size as int);
            vstd::arithmetic::mul::lemma_mul_nonnegative(
                (y / chunk_size) as int,
                width_in_chunks as int,
            );
        }
        (y / chunk_size) * width_in_chunks + x / chunk_size
    }

    /// Get 4 border tiles for the specified tile index.
    fn get_border_tiles(&self, index: u32) -> (r: BTreeSet<u32>)
        requires
            self.world_size().0 > 0,
            self.world_size().1 > 0,
            border_tiles_fit(self.world_size().0 as int, self.world_size().1 as int, index as int),
        ensures
            r@ == spec_border_tiles(
                self.world_size().0 as int,
                self.world_size().1 as int,
                index as int,
            ),
    {
        let (width, height) = self.get_world_size();
        let mut result = BTreeSet::new();
        let modi = index % width;
        let divi = index / width;
        proof {
            lemma_fundamental_div_mod(index as int, width as int);
            let (w, h, d, m) = (width as int, height as int, divi as int, modi as int);
            assert(index as int == w * d + m);
            assert(0 <= m < w);
            assert(d != 0 ==> w <= index as int) by (nonlinear_arith)
                requires
                    index as int == w * d + m,
                    0 <= m,
                    w > 0,
                    d >= 0,
            ;
        }
        if modi != 0 {
            result.insert(index - 1);
        }
        if modi != width - 1 {
            result.insert(index + 1);
        }
        if divi != 0 {
            result.insert(index - width);
        }
        if divi != height - 1 {
            result.insert(index + width);
        }
        proof {
            let s = spec_border_tiles(width as int, height as int, index as int);
            assert(result@ =~= s);
        }
        result
    }
}

/// A map point inside the map survives the round trip through its linear
/// index: `index_to_map(map_to_index(p)) == p`.
pub proof fn law_map_index_round_trip(width: u32, height: u32, x: u32, y: u32)
    requires
        x < width,
        y < height,
    ensures
        spec_index_to_map(width as int, spec_map_to_index(width as int, x as int, y as int))
            == (x as int, y as int),
{
    lemma_fundamental_div_mod_converse(
        spec_map_to_index(width as int, x as int, y as int),
        width as int,
        y as int,
        x as int,
    );
}

/// Every linear index survives the round trip through its map point:
/// `map_to_index(index_to_map(i)) == i`.
pub proof fn law_index_map_round_trip(width: u32, index: u32)
    requires
        width > 0,
    ensures
        spec_map_to_index(
            width as int,
            spec_index_to_map(width as int, index as int).0,
            spec_index_to_map(width as int, index as int).1,
        ) == index,
{
    lemma_fundamental_div_mod(index as int, width as int);
    vstd::arithmetic::mul::lemma_mul_is_commutative(width as int, (index / width) as int);
}

/// The border tiles of a tile are exactly the tiles of the map that share an
/// edge with it.
pub proof fn law_border_tiles_touch(width: u32, height: u32, a: u32, b: u32)
    requires
        width > 0,
        height > 0,
        (a as int) < width * height,
        (b as int) < width * height,
    ensures
        spec_border_tiles(width as int, height as int, a as int).contains(b)
            <==> tiles_touch(width as int, a as int, b as int),
{
    let (w, h) = (width as int, height as int);
    lemma_fundamental_div_mod(a as int, w);
    lemma_fundamental_div_mod(b as int, w);
    lemma_mod_pos_bound(a as int, w);
    lemma_mod_pos_bound(b as int, w);
    let (ax, ay, bx, by) = (a as int % w, a as int / w, b as int % w, b as int / w);
    assert(ay < h && by < h) by (nonlinear_arith)
        requires
            a as int == w * ay + ax,
            b as int == w * by + bx,
            0 <= ax < w,
            0 <= bx < w,
            (a as int) < w * h,
            (b as int) < w * h,
    ;
    assert(ay >= 0 && by >= 0) by {
        lemma_div_pos_is_pos(a as int, w);
        lemma_div_pos_is_pos(b as int, w);
    }
    // Each neighbour position determines a unique index and vice versa.
    assert(b as int == a - 1 && ax != 0 <==> (by == ay && bx + 1 == ax)) by (nonlinear_arith)
        requires
            a as int == w * ay + ax,
            b as int == w * by + bx,
            0 <= ax < w,
            0 <= bx < w,
    ;
    assert(b as int == a + 1 && ax != w - 1 <==> (by == ay && ax + 1 == bx)) by (nonlinear_arith)
        requires
            a as int == w * ay + ax,
            b as int == w * by + bx,
            0 <= ax < w,
            0 <= bx < w,
    ;
    assert(b as int == a - w && ay != 0 <==> (bx == ax && by + 1 == ay)) by (nonlinear_arith)
        requires
            a as int == w * ay + ax,
            b as int == w * by + bx,
            0 <= ax < w,
            0 <= bx < w,
    ;
    assert(b as int == a + w && ay != h - 1 <==> (bx == ax && ay + 1 == by)) by (nonlinear_arith)
        requires
            a as int == w * ay + ax,
            b as int == w * by + bx,
            0 <= ax < w,
            0 <= bx < w,
            ay < h,
            by < h,
    ;
}

/// The border tiles of a map tile are map tiles.
pub proof fn law_border_tiles_on_map(width: u32, height: u32, a: u32, b: u32)
    requires
        width > 0,
        height > 0,
        (a as int) < width * height,
        spec_border_tiles(width as int, height as int, a as int).contains(b),
    ensures
        (b as int) < width * height,
{
    let (w, h) = (width as int, height as int);
    lemma_fundamental_div_mod(a as int, w);
    lemma_mod_pos_bound(a as int, w);
    lemma_div_pos_is_pos(a as int, w);
    let (ax, ay) = (a as int % w, a as int / w);
    assert(ay < h) by (nonlinear_arith)
        requires
            a as int == w * ay + ax,
            0 <= ax < w,
            (a as int) < w * h,
    ;
    assert(ay != h - 1 ==> a + w < w * h) by (nonlinear_arith)
        requires
            a as int == w * ay + ax,
            0 <= ax < w,
            0 <= ay < h,
    ;
    assert(ax != w - 1 ==> a + 1 < w * h) by (nonlinear_arith)
        requires
            a as int == w * ay + ax,
            0 <= ax < w,
            0 <= ay < h,
    ;
}

/// Being a border tile is symmetric: `b` borders `a` exactly when `a` borders `b`.
pub proof fn law_border_tiles_symmetric(width: u32, height: u32, a: u32, b: u32)
    requires
        width > 0,
        height > 0,
        (a as int) < width * height,
        (b as int) < width * height,
    ensures
        spec_border_tiles(width as int, height as int, a as int).contains(b)
            <==> spec_border_tiles(width as int, height as int, b as int).contains(a),
{
    law_border_tiles_touch(width, height, a, b);
    law_border_tiles_touch(width, height, b, a);
}

/// Every tile of the map falls in one of the `ceil(w / c) * ceil(h / c)`
/// chunks that cover it.
pub proof fn law_chunk_in_range(width: u32, height: u32, index: u32, chunk_size: u32)
    requires
        width > 0,
        chunk_size > 0,
        (index as int) < width * height,
    ensures
        0 <= spec_index_to_chunk(width as int, index as int, chunk_size as int),
        spec_index_to_chunk(width as int, index as int, chunk_size as int)
            < spec_div_ceil(width as int, chunk_size as int) * spec_div_ceil(
            height as int,
            chunk_size as int,
        ),
{
    let (w, h, c) = (width as int, height as int, chunk_size as int);
    let (x, y) = (index as int % w, index as int / w);
    lemma_fundamental_div_mod(index as int, w);
    lemma_mod_pos_bound(index as int, w);
    lemma_div_pos_is_pos(index as int, w);
    assert(y < h) by (nonlinear_arith)
        requires
            index as int == w * y + x,
            0 <= x < w,
            (index as int) < w * h,
    ;
    let (wc, hc) = (spec_div_ceil(w, c), spec_div_ceil(h, c));
    lemma_fundamental_div_mod(w, c);
    lemma_fundamental_div_mod(h, c);
    lemma_fundamental_div_mod(x, c);
    lemma_fundamental_div_mod(y, c);
    lemma_mod_pos_bound(w, c);
    lemma_mod_pos_bound(h, c);
    lemma_mod_pos_bound(x, c);
    lemma_mod_pos_bound(y, c);
    lemma_div_pos_is_pos(x, c);
    lemma_div_pos_is_pos(y, c);
    assert(x / c < wc) by (nonlinear_arith)
        requires
            x == c * (x / c) + x % c,
            w == c * (w / c) + w % c,
            0 <= x % c < c,
            0 <= w % c < c,
            x < w,
            wc == (if w % c == 0 { w / c } else { w / c + 1 }),
    ;
    assert(y / c < hc) by (nonlinear_arith)
        requires
            y == c * (y / c) + y % c,
            h == c * (h / c) + h % c,
            0 <= y % c < c,
            0 <= h % c < c,
            y < h,
            hc == (if h % c == 0 { h / c } else { h / c + 1 }),
    ;
    assert((y / c) * wc + x / c < wc * hc) by (nonlinear_arith)
        requires
            0 <= x / c < wc,
            0 <= y / c < hc,
    ;
    assert(0 <= (y / c) * wc + x / c) by (nonlinear_arith)
        requires
            0 <= x / c,
            0 <= y / c,
            0 <= wc,
    ;
}

} // verus!
