//! Weights for the random choice of starting points.
use vstd::prelude::*;
use vstd::arithmetic::div_mod::lemma_fundamental_div_mod;
use vstd::arithmetic::div_mod::lemma_fundamental_div_mod_converse;
use crate::config::sim::{
    AtlasSimConfig, ClimateConfig, StartCivAlgorithm, StartPointAlgorithm, StartingPoint,
    biome_index_ok, spec_get_biome,
};
use crate::rng::{
    gen_index, walker_builder_build, walker_builder_new, walker_table_next, table_draws_from,
};
use rand::rngs::StdRng;
use std::collections::{HashMap, HashSet};
use weighted_rand::table::WalkerTable;

verus! {

broadcast use vstd::std_specs::hash::group_hash_axioms;

/// Tile `i` lies strictly inside a `w` x `h` map (not on its border).
pub open spec fn is_interior(w: int, h: int, i: int) -> bool {
    &&& 0 <= i < w * h
    &&& 1 <= i % w < w - 1
    &&& 1 <= i / w < h - 1
}

/// Sum of `input` over the 3x3 neighbourhood of tile `i` on a map `w` wide.
pub open spec fn kernel_value(input: Seq<u32>, w: int, i: int) -> int {
    input[i - w - 1] + input[i - w] + input[i - w + 1] + input[i - 1] + input[i] + input[i + 1]
        + input[i + w - 1] + input[i + w] + input[i + w + 1]
}

/// What `kernel_sum` leaves at tile `i`: on interior tiles, nothing when the
/// tile itself weighs under 100, else the 3x3 neighbourhood sum; other
/// tiles keep their value.
pub open spec fn kernel_target(input: Seq<u32>, output: Seq<u32>, w: int, h: int, i: int) -> int {
    if is_interior(w, h, i) {
        if input[i] < 100 {
            0
        } else {
            kernel_value(input, w, i)
        }
    } else {
        output[i] as int
    }
}

/// The 3x3 sums of interior tiles fit in a `u32`.
pub open spec fn kernel_fits(input: Seq<u32>, w: int, h: int) -> bool {
    forall|i: int| is_interior(w, h, i) && input[i] >= 100 ==> kernel_value(input, w, i) <= u32::MAX
}

/// Tile `i` is already visited when the scan, which goes column by column,
/// is at column `x`, row `y`.
pub open spec fn kernel_visited(w: int, h: int, x: int, y: int, i: int) -> bool {
    is_interior(w, h, i) && (i % w < x || (i % w == x && i / w < y))
}

/// `out` holds the kernel result on visited tiles and `old_out` elsewhere.
pub open spec fn kernel_progress(
    input: Seq<u32>,
    old_out: Seq<u32>,
    out: Seq<u32>,
    w: int,
    h: int,
    x: int,
    y: int,
) -> bool {
    &&& out.len() == old_out.len()
    &&& forall|i: int|
        0 <= i < old_out.len() ==> #[trigger] out[i] == (if kernel_visited(w, h, x, y, i) {
            kernel_target(input, old_out, w, h, i)
        } else {
            old_out[i] as int
        })
}

proof fn lemma_interior_neighbours(w: int, h: int, i: int)
    requires
        w > 0,
        is_interior(w, h, i),
    ensures
        0 <= i - w - 1,
        i + w + 1 < w * h,
{
    lemma_fundamental_div_mod(i, w);
    let (x, y) = (i % w, i / w);
    assert(0 <= i - w - 1 && i + w + 1 < w * h) by (nonlinear_arith)
        requires
            i == w * y + x,
            1 <= x < w - 1,
            1 <= y < h - 1,
    ;
}

/// Sum `input` over the 3x3 neighbourhood of every interior tile with weight
/// at least 100 into `output`; interior tiles weighing less get 0, and
/// tiles on the map border keep their value in `output`.
pub fn kernel_sum(input: &[u32], output: &mut [u32], width: usize, height: usize)
    requires
        width >= 1,
        height >= 1 || width <= 2,
        width * height <= input@.len(),
        width * height <= old(output)@.len(),
        kernel_fits(input@, width as int, height as int),
    ensures
        final(output)@.len() == old(output)@.len(),
        forall|i: int|
            0 <= i < old(output)@.len() ==> #[trigger] final(output)@[i] == kernel_target(
                input@,
                old(output)@,
                width as int,
                height as int,
                i,
            ),
{
    let ghost old_out = output@;
    let ghost (w, h) = (width as int, height as int);
    let mut x: usize = 1;
    while x < width - 1
        invariant
            1 <= x,
            x <= width - 1 || width == 1,
            width >= 1,
            height >= 1 || width <= 2,
            w == width,
            h == height,
            width * height <= input@.len(),
            width * height <= old_out.len(),
            kernel_fits(input@, w, h),
            kernel_progress(input@, old_out, output@, w, h, x as int, 0),
        decreases width - x,
    {
        let mut y: usize = 1;
        while y < height - 1
            invariant
                1 <= x < width - 1,
                1 <= y,
                y <= height - 1 || height == 1,
                width >= 1,
                height >= 1,
                w == width,
                h == height,
                width * height <= input@.len(),
                width * height <= old_out.len(),
                kernel_fits(input@, w, h),
                kernel_progress(input@, old_out, output@, w, h, x as int, y as int),
            decreases height - y,
        {
            let ghost j = w * y + x;
            assert(0 <= j < w * h) by (nonlinear_arith)
                requires
                    j == w * y + x,
                    1 <= x < w - 1,
                    1 <= y < h - 1,
            ;
            proof {
                lemma_fundamental_div_mod_converse(j, w, y as int, x as int);
                vstd::arithmetic::mul::lemma_mul_is_commutative(w, y as int);
                assert(is_interior(w, h, j));
                lemma_interior_neighbours(w, h, j);
            }
            assert(width * y + x == j);
            assert(j < input@.len());
            assert(input@.len() == input.len());
            let i = width * y + x;
            let v = if input[i] < 100 {
                0
            } else {
                let (up, down) = (i - width, i + width);
                assert(kernel_value(input@, w, i as int) <= u32::MAX);
                input[i - 1] + input[i] + input[i + 1] + input[up - 1] + input[up] + input[up + 1]
                    + input[down - 1] + input[down] + input[down + 1]
            };
            let ghost prev = output@;
            output[i] = v;
            proof {
                assert forall|k: int| 0 <= k < old_out.len() && k != j implies (kernel_visited(
                    w,
                    h,
                    x as int,
                    y + 1,
                    k,
                ) <==> kernel_visited(w, h, x as int, y as int, k)) by {
                    if k % w == x && k / w == y {
                        lemma_fundamental_div_mod(k, w);
                    }
                }
            }
            y = y + 1;
        }
        proof {
            assert forall|k: int| 0 <= k < old_out.len() implies (kernel_visited(
                w,
                h,
                x + 1,
                0,
                k,
            ) <==> kernel_visited(w, h, x as int, y as int, k)) by {
                if is_interior(w, h, k) && k % w == x {
                    assert(k / w < h - 1);
                }
            }
        }
        x = x + 1;
    }
}

/// Sum of a sequence of weights.
pub open spec fn seq_sum(s: Seq<u32>) -> int
    decreases s.len(),
{
    if s.len() == 0 {
        0
    } else {
        seq_sum(s.drop_last()) + s.last()
    }
}

/// Baseline weight of a tile: 1 on land, 0 on sea (continent value up to 127).
pub open spec fn spec_base_weight(cont: u8) -> u32 {
    if cont <= 127 { 0 } else { 1 }
}

/// Habitability weight of tile `t`: the habitability (in thousandths) of its
/// biome, on land; 0 at sea.
pub open spec fn spec_hab_weight(climate_cfg: ClimateConfig, conts: Seq<u8>, climate: Seq<u8>, t: int) -> int {
    spec_get_biome(climate_cfg, climate[t]).habitability_permille * spec_base_weight(conts[t])
}

/// Per-tile habitability weights, squared if asked.
pub open spec fn spec_part_weights(
    climate_cfg: ClimateConfig,
    conts: Seq<u8>,
    climate: Seq<u8>,
    squared: bool,
) -> Seq<u32> {
    Seq::new(
        conts.len(),
        |t: int|
            {
                let h = spec_hab_weight(climate_cfg, conts, climate, t);
                (if squared { h * h } else { h }) as u32
            },
    )
}

/// Baseline weights of all tiles.
pub open spec fn spec_base_weights(conts: Seq<u8>) -> Seq<u32> {
    Seq::new(conts.len(), |t: int| spec_base_weight(conts[t]))
}

/// The squared variants of the algorithm square the habitability.
pub open spec fn algorithm_squares(a: StartPointAlgorithm) -> bool {
    a == StartPointAlgorithm::WeightedSquared || a == StartPointAlgorithm::WeightedSquaredArea
}

/// Starting point weight of every tile for algorithm `a`.
pub open spec fn spec_start_weights(
    a: StartPointAlgorithm,
    climate_cfg: ClimateConfig,
    conts: Seq<u8>,
    climate: Seq<u8>,
    w: int,
    h: int,
) -> Seq<u32> {
    let part = spec_part_weights(climate_cfg, conts, climate, algorithm_squares(a));
    let base = spec_base_weights(conts);
    match a {
        StartPointAlgorithm::Uniform => base,
        StartPointAlgorithm::Weighted => part,
        StartPointAlgorithm::WeightedSquared => part,
        _ => Seq::new(conts.len(), |t: int| kernel_target(part, base, w, h, t) as u32),
    }
}

/// Sum of row `r` of a map `w` tiles wide.
pub open spec fn row_sum(weights: Seq<u32>, w: int, r: int) -> int {
    seq_sum(weights.subrange(r * w, r * w + w))
}

/// Weight of each one-tile-high strip (row): its sum (at least 1) for the
/// uniform algorithm, its mean (rounded down) for the others.
pub open spec fn spec_strip_weights(weights: Seq<u32>, w: int, h: int, uniform: bool) -> Seq<u32> {
    Seq::new(
        h as nat,
        |r: int|
            (if uniform {
                if row_sum(weights, w, r) >= 1 { row_sum(weights, w, r) } else { 1 }
            } else {
                row_sum(weights, w, r) / w
            }) as u32,
    )
}

/// The start point algorithm sums 3x3 neighbourhoods.
pub open spec fn algorithm_sums_area(a: StartPointAlgorithm) -> bool {
    a == StartPointAlgorithm::WeightedArea || a == StartPointAlgorithm::WeightedSquaredArea
}

/// The tile weights of algorithm `a` are computed without leaving `u32`:
/// the (squared) habitability weights, and their 3x3 sums.
pub open spec fn tile_weights_fit(
    a: StartPointAlgorithm,
    climate_cfg: ClimateConfig,
    conts: Seq<u8>,
    climate: Seq<u8>,
    w: int,
    h: int,
) -> bool {
    &&& a != StartPointAlgorithm::Uniform ==> forall|t: int|
        0 <= t < conts.len() ==> #[trigger] spec_hab_weight(climate_cfg, conts, climate, t) * (
        if algorithm_squares(a) { spec_hab_weight(climate_cfg, conts, climate, t) } else { 1 })
            <= u32::MAX
    &&& algorithm_sums_area(a) ==> kernel_fits(
        spec_part_weights(climate_cfg, conts, climate, algorithm_squares(a)),
        w,
        h,
    )
}

/// Every row of `weights` (a map `w` tiles wide and `h` high) sums to a
/// `u32`.
pub open spec fn rows_fit(weights: Seq<u32>, w: int, h: int) -> bool {
    forall|r: int| 0 <= r < h ==> #[trigger] row_sum(weights, w, r) <= u32::MAX
}

/// All the weights the computation goes through fit in a `u32`.
pub open spec fn start_weights_fit(
    a: StartPointAlgorithm,
    climate_cfg: ClimateConfig,
    conts: Seq<u8>,
    climate: Seq<u8>,
    w: int,
    h: int,
) -> bool {
    &&& tile_weights_fit(a, climate_cfg, conts, climate, w, h)
    &&& rows_fit(spec_start_weights(a, climate_cfg, conts, climate, w, h), w, h)
}

proof fn lemma_seq_sum_push(s: Seq<u32>, a: int, b: int)
    requires
        0 <= a <= b < s.len(),
    ensures
        seq_sum(s.subrange(a, b + 1)) == seq_sum(s.subrange(a, b)) + s[b],
{
    assert(s.subrange(a, b + 1).drop_last() =~= s.subrange(a, b));
}

proof fn lemma_seq_sum_nonneg(s: Seq<u32>)
    ensures
        seq_sum(s) >= 0,
    decreases s.len(),
{
    if s.len() > 0 {
        lemma_seq_sum_nonneg(s.drop_last());
    }
}

/// Sum of `weights[start..start + len]`.
fn sum_range(weights: &Vec<u32>, start: usize, len: usize) -> (r: u32)
    requires
        start + len <= weights@.len(),
        seq_sum(weights@.subrange(start as int, start + len)) <= u32::MAX,
    ensures
        r == seq_sum(weights@.subrange(start as int, start + len)),
{
    let mut sum: u32 = 0;
    let mut k: usize = 0;
    let n = weights.len();
    while k < len
        invariant
            k <= len,
            n == weights@.len(),
            start + len <= weights@.len(),
            seq_sum(weights@.subrange(start as int, start + len)) <= u32::MAX,
            sum == seq_sum(weights@.subrange(start as int, start + k)),
        decreases len - k,
    {
        proof {
            lemma_seq_sum_push(weights@, start as int, start + k);
            // The partial sums only grow, so they stay below the total.
            lemma_prefix_sum_monotone(weights@, start as int, start + k + 1, start + len);
        }
        sum = sum + weights[start + k];
        k = k + 1;
    }
    sum
}

proof fn lemma_prefix_sum_monotone(s: Seq<u32>, a: int, b: int, c: int)
    requires
        0 <= a <= b <= c <= s.len(),
    ensures
        seq_sum(s.subrange(a, b)) <= seq_sum(s.subrange(a, c)),
    decreases c - b,
{
    if b < c {
        lemma_prefix_sum_monotone(s, a, b, c - 1);
        lemma_seq_sum_push(s, a, c - 1);
    }
}

/// Habitability weight of each tile: the biome's habitability (in
/// thousandths) times the tile's baseline weight.
fn habitability_weight(weights: &Vec<u32>, climate: &[u8], config: &AtlasSimConfig) -> (r: Vec<u32>)
    requires
        weights@.len() == climate@.len(),
        forall|t: int| 0 <= t < climate@.len() ==> biome_index_ok(config.climate, #[trigger] climate@[t]),
        forall|t: int|
            0 <= t < climate@.len() ==> spec_get_biome(config.climate, #[trigger] climate@[t]).habitability_permille
                * weights@[t] <= u32::MAX,
    ensures
        r@.len() == weights@.len(),
        forall|t: int|
            0 <= t < r@.len() ==> #[trigger] r@[t] == spec_get_biome(config.climate, climate@[t]).habitability_permille
                * weights@[t],
{
    let mut r: Vec<u32> = Vec::new();
    let mut t: usize = 0;
    while t < weights.len()
        invariant
            t <= weights@.len(),
            weights@.len() == climate@.len(),
            r@.len() == t,
            forall|u: int| 0 <= u < climate@.len() ==> biome_index_ok(config.climate, #[trigger] climate@[u]),
            forall|u: int|
                0 <= u < climate@.len() ==> spec_get_biome(config.climate, #[trigger] climate@[u]).habitability_permille
                    * weights@[u] <= u32::MAX,
            forall|u: int|
                0 <= u < t ==> #[trigger] r@[u] == spec_get_biome(config.climate, climate@[u]).habitability_permille
                    * weights@[u],
        decreases weights@.len() - t,
    {
        let biome = config.get_biome(climate[t]);
        assert(spec_get_biome(config.climate, climate@[t as int]).habitability_permille * weights@[t as int] <= u32::MAX);
        r.push(biome.habitability_permille * weights[t]);
        t = t + 1;
    }
    r
}

/// The algorithm sums weights over the 8-neighbourhood of each tile.
pub open spec fn is_area_algorithm(a: StartPointAlgorithm) -> bool {
    a == StartPointAlgorithm::WeightedArea || a == StartPointAlgorithm::WeightedSquaredArea
}

/// Weights of all tiles for the random choice of starting points, from the
/// continent and climate layers of a `width` x `height` map.
fn start_tile_weights(
    config: &AtlasSimConfig,
    conts: &[u8],
    climate: &[u8],
    width: usize,
    height: usize,
) -> (weights: Vec<u32>)
    requires
        width >= 1,
        height >= 1 || width <= 2 || !is_area_algorithm(config.scenario.random_point_algorithm),
        width <= u32::MAX,
        conts@.len() == width * height,
        climate@.len() == conts@.len(),
        config.scenario.random_point_algorithm != StartPointAlgorithm::Uniform ==> forall|t: int|
            0 <= t < climate@.len() ==> biome_index_ok(config.climate, #[trigger] climate@[t]),
        tile_weights_fit(
            config.scenario.random_point_algorithm,
            config.climate,
            conts@,
            climate@,
            width as int,
            height as int,
        ),
    ensures
        weights@ == spec_start_weights(
            config.scenario.random_point_algorithm,
            config.climate,
            conts@,
            climate@,
            width as int,
            height as int,
        ),
{
    let ghost (w, h) = (width as int, height as int);
    let ghost a = config.scenario.random_point_algorithm;
    let ghost cc = config.climate;
    // Baseline: unweighted choice between all continental tiles.
    let mut weights: Vec<u32> = Vec::new();
    let mut t: usize = 0;
    while t < conts.len()
        invariant
            t <= conts@.len(),
            weights@ =~= spec_base_weights(conts@).subrange(0, t as int),
        decreases conts@.len() - t,
    {
        weights.push(if conts[t] <= 127 { 0 } else { 1 });
        t = t + 1;
    }
    assert(weights@ =~= spec_base_weights(conts@));
    // Weight by habitability if requested.
    let squared = match config.scenario.random_point_algorithm {
        StartPointAlgorithm::WeightedSquared | StartPointAlgorithm::WeightedSquaredArea => true,
        _ => false,
    };
    match config.scenario.random_point_algorithm {
        StartPointAlgorithm::Uniform => {},
        _ => {
            proof {
                assert forall|u: int| 0 <= u < climate@.len() implies spec_get_biome(config.climate, #[trigger] climate@[u]).habitability_permille
                    * weights@[u] <= u32::MAX by {
                    assert(spec_hab_weight(cc, conts@, climate@, u) == spec_get_biome(config.climate, climate@[u]).habitability_permille * weights@[u]);
                    let x = spec_hab_weight(cc, conts@, climate@, u);
                    assert(x >= 0) by (nonlinear_arith)
                        requires
                            x == spec_get_biome(config.climate, climate@[u]).habitability_permille * weights@[u],
                    ;
                    if squared {
                        assert(x <= x * x) by (nonlinear_arith)
                            requires
                                x >= 0,
                                x == spec_get_biome(config.climate, climate@[u]).habitability_permille * weights@[u],
                                weights@[u] <= 1,
                        ;
                    }
                }
            }
            let mut part = habitability_weight(&weights, climate, config);
            if squared {
                let mut u: usize = 0;
                let ghost hab = part@;
                while u < part.len()
                    invariant
                        u <= part@.len(),
                        part@.len() == hab.len(),
                        hab.len() == conts@.len(),
                        forall|v: int| 0 <= v < hab.len() ==> #[trigger] hab[v] == spec_hab_weight(cc, conts@, climate@, v),
                        forall|v: int| 0 <= v < conts@.len() ==> #[trigger] spec_hab_weight(cc, conts@, climate@, v) * spec_hab_weight(cc, conts@, climate@, v) <= u32::MAX,
                        forall|v: int| 0 <= v < u ==> #[trigger] part@[v] == hab[v] * hab[v],
                        forall|v: int| u <= v < hab.len() ==> #[trigger] part@[v] == hab[v],
                    decreases part@.len() - u,
                {
                    let x = part[u];
                    assert(x * x <= u32::MAX);
                    part.set(u, x * x);
                    u = u + 1;
                }
            }
            assert(part@ =~= spec_part_weights(cc, conts@, climate@, squared));
            match config.scenario.random_point_algorithm {
                StartPointAlgorithm::Weighted | StartPointAlgorithm::WeightedSquared => {
                    weights = part;
                },
                _ => {
                    kernel_sum(part.as_slice(), weights.as_mut_slice(), width, height);
                },
            }
        },
    }
    assert(weights@ =~= spec_start_weights(a, cc, conts@, climate@, w, h));
    weights
}

/// Weights of the one-tile-high strips (rows) of tile weights `weights`:
/// the row sums (at least 1) when the tiles were weighed uniformly, else
/// the row means.
fn strip_weights(weights: &Vec<u32>, width: usize, height: usize, uniform: bool) -> (strips: Vec<u32>)
    requires
        width >= 1,
        width <= u32::MAX,
        weights@.len() == width * height,
        rows_fit(weights@, width as int, height as int),
    ensures
        strips@ == spec_strip_weights(weights@, width as int, height as int, uniform),
{
    let ghost (w, h) = (width as int, height as int);
    let mut strips: Vec<u32> = Vec::new();
    let mut r: usize = 0;
    while r < height
        invariant
            r <= height,
            w == width,
            h == height,
            width >= 1,
            width <= u32::MAX,
            weights@.len() == w * h,
            forall|q: int| 0 <= q < h ==> #[trigger] row_sum(weights@, w, q) <= u32::MAX,
            strips@ =~= spec_strip_weights(weights@, w, h, uniform).subrange(0, r as int),
        decreases height - r,
    {
        assert(r * w + w <= w * h) by (nonlinear_arith)
            requires
                r < h,
                0 <= r,
                w >= 1,
        ;
        assert(row_sum(weights@, w, r as int) <= u32::MAX);
        assert(weights@.len() == weights.len());
        assert(r * width <= weights@.len());
        let sum = sum_range(&weights, r * width, width);
        let v = if uniform {
            if sum >= 1 { sum } else { 1 }
        } else {
            sum / (width as u32)
        };
        strips.push(v);
        r = r + 1;
    }
    strips
}


/// Calculate weights for random choice of starting points from the
/// continent and climate layers of a `width` x `height` map. Returns the
/// weights of all tiles and of each one-tile-high strip (row).
pub fn calc_start_point_weights(
    config: &AtlasSimConfig,
    conts: &[u8],
    climate: &[u8],
    width: usize,
    height: usize,
) -> (r: (Vec<u32>, Vec<u32>))
    requires
        width >= 1,
        height >= 1 || width <= 2 || !is_area_algorithm(config.scenario.random_point_algorithm),
        width <= u32::MAX,
        conts@.len() == width * height,
        climate@.len() == conts@.len(),
        config.scenario.random_point_algorithm != StartPointAlgorithm::Uniform ==> forall|t: int|
            0 <= t < climate@.len() ==> biome_index_ok(config.climate, #[trigger] climate@[t]),
        start_weights_fit(
            config.scenario.random_point_algorithm,
            config.climate,
            conts@,
            climate@,
            width as int,
            height as int,
        ),
    ensures
        r.0@ == spec_start_weights(
            config.scenario.random_point_algorithm,
            config.climate,
            conts@,
            climate@,
            width as int,
            height as int,
        ),
        r.1@ == spec_strip_weights(
            r.0@,
            width as int,
            height as int,
            config.scenario.random_point_algorithm == StartPointAlgorithm::Uniform,
        ),
{
    let weights = start_tile_weights(config, conts, climate, width, height);
    let uniform = match config.scenario.random_point_algorithm {
        StartPointAlgorithm::Uniform => true,
        _ => false,
    };
    let strips = strip_weights(&weights, width, height, uniform);
    (weights, strips)
}

/// The (squared, if asked) habitability weight of tile `t`, in 64 bits.
fn part_weight_at(config: &AtlasSimConfig, conts: &[u8], climate: &[u8], t: usize, squared: bool) -> (r: u64)
    requires
        t < conts@.len(),
        climate@.len() == conts@.len(),
        biome_index_ok(config.climate, climate@[t as int]),
    ensures
        r == spec_hab_weight(config.climate, conts@, climate@, t as int) * (if squared {
            spec_hab_weight(config.climate, conts@, climate@, t as int)
        } else {
            1
        }),
{
    let biome = config.get_biome(climate[t]);
    let base: u64 = if conts[t] <= 127 { 0 } else { 1 };
    let hw: u64 = biome.habitability_permille as u64 * base;
    proof {
        assert(hw == spec_hab_weight(config.climate, conts@, climate@, t as int));
        assert(hw <= u32::MAX);
        assert(hw * hw <= u32::MAX * u32::MAX) by (nonlinear_arith)
            requires
                hw <= u32::MAX,
        ;
    }
    if squared {
        hw * hw
    } else {
        hw
    }
}

/// The 3x3 sum of the (squared, if asked) habitability weights around
/// interior tile `i`, in 64 bits.
fn kernel_sum_at(
    config: &AtlasSimConfig,
    conts: &[u8],
    climate: &[u8],
    width: usize,
    height: usize,
    i: usize,
    squared: bool,
) -> (r: u64)
    requires
        width >= 1,
        conts@.len() == width * height,
        climate@.len() == conts@.len(),
        is_interior(width as int, height as int, i as int),
        forall|u: int| 0 <= u < climate@.len() ==> biome_index_ok(config.climate, #[trigger] climate@[u]),
        forall|u: int|
            0 <= u < conts@.len() ==> #[trigger] spec_hab_weight(config.climate, conts@, climate@, u) * (if squared {
                spec_hab_weight(config.climate, conts@, climate@, u)
            } else {
                1
            }) <= u32::MAX,
    ensures
        r == kernel_value(spec_part_weights(config.climate, conts@, climate@, squared), width as int, i as int),
{
    let n = conts.len();
    proof {
        lemma_interior_neighbours(width as int, height as int, i as int);
    }
    let (up, down) = (i - width, i + width);
    let a = part_weight_at(config, conts, climate, up - 1, squared);
    let b = part_weight_at(config, conts, climate, up, squared);
    let c = part_weight_at(config, conts, climate, up + 1, squared);
    let d = part_weight_at(config, conts, climate, i - 1, squared);
    let e = part_weight_at(config, conts, climate, i, squared);
    let f = part_weight_at(config, conts, climate, i + 1, squared);
    let g = part_weight_at(config, conts, climate, down - 1, squared);
    let k = part_weight_at(config, conts, climate, down, squared);
    let l = part_weight_at(config, conts, climate, down + 1, squared);
    a + b + c + d + e + f + g + k + l
}

/// Do the tile weights of the configured algorithm stay within `u32`?
fn tile_weights_fit_check(config: &AtlasSimConfig, conts: &[u8], climate: &[u8], width: usize, height: usize) -> (r: bool)
    requires
        width >= 1,
        width <= u32::MAX,
        conts@.len() == width * height,
        climate@.len() == conts@.len(),
        config.scenario.random_point_algorithm != StartPointAlgorithm::Uniform ==> forall|t: int|
            0 <= t < climate@.len() ==> biome_index_ok(config.climate, #[trigger] climate@[t]),
    ensures
        r == tile_weights_fit(
            config.scenario.random_point_algorithm,
            config.climate,
            conts@,
            climate@,
            width as int,
            height as int,
        ),
{
    let ghost (w, h) = (width as int, height as int);
    let ghost cc = config.climate;
    let ghost a = config.scenario.random_point_algorithm;
    let squared = match config.scenario.random_point_algorithm {
        StartPointAlgorithm::WeightedSquared | StartPointAlgorithm::WeightedSquaredArea => true,
        _ => false,
    };
    let area = match config.scenario.random_point_algorithm {
        StartPointAlgorithm::WeightedArea | StartPointAlgorithm::WeightedSquaredArea => true,
        _ => false,
    };
    match config.scenario.random_point_algorithm {
        StartPointAlgorithm::Uniform => {
            return true;
        },
        _ => {},
    }
    // Every habitability weight.
    let mut t: usize = 0;
    while t < conts.len()
        invariant
            t <= conts@.len(),
            climate@.len() == conts@.len(),
            squared == algorithm_squares(a),
            a == config.scenario.random_point_algorithm,
            cc == config.climate,
            a != StartPointAlgorithm::Uniform,
            forall|u: int| 0 <= u < climate@.len() ==> biome_index_ok(cc, #[trigger] climate@[u]),
            forall|u: int|
                0 <= u < t ==> #[trigger] spec_hab_weight(cc, conts@, climate@, u) * (if algorithm_squares(a) {
                    spec_hab_weight(cc, conts@, climate@, u)
                } else {
                    1
                }) <= u32::MAX,
        decreases conts@.len() - t,
    {
        let v = part_weight_at(config, conts, climate, t, squared);
        if v > u32::MAX as u64 {
            return false;
        }
        t = t + 1;
    }
    if !area {
        return true;
    }
    // Every 3x3 sum.
    let ghost part = spec_part_weights(cc, conts@, climate@, squared);
    let n = conts.len();
    let mut i: usize = 0;
    while i < n
        invariant
            n == conts@.len(),
            n == w * h,
            w == width,
            h == height,
            width >= 1,
            i <= n,
            climate@.len() == conts@.len(),
            squared == algorithm_squares(a),
            a == config.scenario.random_point_algorithm,
            algorithm_sums_area(a),
            part == spec_part_weights(cc, conts@, climate@, squared),
            cc == config.climate,
            forall|u: int| 0 <= u < climate@.len() ==> biome_index_ok(cc, #[trigger] climate@[u]),
            forall|u: int|
                0 <= u < n ==> #[trigger] spec_hab_weight(cc, conts@, climate@, u) * (if squared {
                    spec_hab_weight(cc, conts@, climate@, u)
                } else {
                    1
                }) <= u32::MAX,
            forall|u: int| 0 <= u < i && is_interior(w, h, u) && part[u] >= 100 ==> #[trigger] kernel_value(part, w, u) <= u32::MAX,
        decreases n - i,
    {
        let x = i % width;
        let y = i / width;
        proof {
            lemma_fundamental_div_mod(i as int, w);
        }
        if x >= 1 && x + 1 < width && y >= 1 && y + 1 < height {
            proof {
                assert(is_interior(w, h, i as int));
                lemma_interior_neighbours(w, h, i as int);
            }
            let p = part_weight_at(config, conts, climate, i, squared);
            if p >= 100 {
                let sum = kernel_sum_at(config, conts, climate, width, height, i, squared);
                if sum > u32::MAX as u64 {
                    proof {
                        assert(part[i as int] == p);
                        assert(!kernel_fits(part, w, h));
                    }
                    return false;
                }
            }
        } else {
            proof {
                assert(!is_interior(w, h, i as int));
            }
        }
        i = i + 1;
    }
    true
}

/// Does every row of `weights` sum to a `u32`?
fn rows_fit_check(weights: &Vec<u32>, width: usize, height: usize) -> (r: bool)
    requires
        width >= 1,
        weights@.len() == width * height,
    ensures
        r == rows_fit(weights@, width as int, height as int),
{
    let ghost (w, h) = (width as int, height as int);
    let n = weights.len();
    let mut row: usize = 0;
    while row < height
        invariant
            row <= height,
            w == width,
            h == height,
            width >= 1,
            n == weights@.len(),
            weights@.len() == w * h,
            forall|q: int| 0 <= q < row ==> #[trigger] row_sum(weights@, w, q) <= u32::MAX,
        decreases height - row,
    {
        proof {
            assert(row * w + w <= w * h) by (nonlinear_arith)
                requires
                    row < h,
                    0 <= row,
                    w >= 1,
            ;
        }
        let start = row * width;
        let mut sum: u64 = 0;
        let mut k: usize = 0;
        while k < width
            invariant
                k <= width,
                start == row * w,
                start + w <= weights@.len(),
                n == weights@.len(),
                w == width,
                sum == seq_sum(weights@.subrange(start as int, start + k)),
                sum <= u32::MAX,
                row < height,
                h == height,
            decreases width - k,
        {
            proof {
                lemma_seq_sum_push(weights@, start as int, start + k);
            }
            sum = sum + weights[start + k] as u64;
            if sum > u32::MAX as u64 {
                proof {
                    lemma_prefix_sum_monotone(weights@, start as int, start + k + 1, start + w);
                    assert(row_sum(weights@, w, row as int) > u32::MAX);
                    assert(!rows_fit(weights@, width as int, height as int));
                }
                return false;
            }
            k = k + 1;
        }
        row = row + 1;
    }
    true
}

/// The weights of `calc_start_point_weights`, or `None` where computing
/// them would leave `u32`.
pub fn try_calc_start_point_weights(
    config: &AtlasSimConfig,
    conts: &[u8],
    climate: &[u8],
    width: usize,
    height: usize,
) -> (r: Option<(Vec<u32>, Vec<u32>)>)
    requires
        width >= 1,
        height >= 1 || width <= 2 || !is_area_algorithm(config.scenario.random_point_algorithm),
        width <= u32::MAX,
        conts@.len() == width * height,
        climate@.len() == conts@.len(),
        config.scenario.random_point_algorithm != StartPointAlgorithm::Uniform ==> forall|t: int|
            0 <= t < climate@.len() ==> biome_index_ok(config.climate, #[trigger] climate@[t]),
    ensures
        r is Some <==> start_weights_fit(
            config.scenario.random_point_algorithm,
            config.climate,
            conts@,
            climate@,
            width as int,
            height as int,
        ),
        r matches Some(p) ==> p.0@ == spec_start_weights(
            config.scenario.random_point_algorithm,
            config.climate,
            conts@,
            climate@,
            width as int,
            height as int,
        ) && p.1@ == spec_strip_weights(
            p.0@,
            width as int,
            height as int,
            config.scenario.random_point_algorithm == StartPointAlgorithm::Uniform,
        ),
{
    if !tile_weights_fit_check(config, conts, climate, width, height) {
        return None;
    }
    let weights = start_tile_weights(config, conts, climate, width, height);
    if !rows_fit_check(&weights, width, height) {
        return None;
    }
    let uniform = match config.scenario.random_point_algorithm {
        StartPointAlgorithm::Uniform => true,
        _ => false,
    };
    let strips = strip_weights(&weights, width, height, uniform);
    Some((weights, strips))
}

/// Number of points among the first `n` whose owner is locked.
pub open spec fn count_owner_locked(points: Seq<StartingPoint>, n: int) -> nat
    decreases n,
{
    if n <= 0 {
        0
    } else {
        count_owner_locked(points, n - 1) + if points[n - 1].owner_locked { 1nat } else { 0nat }
    }
}

/// Number of points before point `p` whose owner is not locked.
pub open spec fn unlocked_rank(points: Seq<StartingPoint>, p: int) -> int {
    p - count_owner_locked(points, p)
}

/// Civilizations that no owner-locked point holds.
pub open spec fn civ_pool(points: Seq<StartingPoint>, num_civs: u8) -> Set<u8> {
    Set::new(
        |c: u8|
            c < num_civs && forall|q: int|
                0 <= q < points.len() && #[trigger] points[q].owner_locked ==> points[q].owner != c,
    )
}

/// `new` is `old` with only the owners of points whose owner is not locked
/// changed.
pub open spec fn only_free_owners_changed(old: Seq<StartingPoint>, new: Seq<StartingPoint>) -> bool {
    &&& new.len() == old.len()
    &&& forall|p: int|
        0 <= p < old.len() ==> {
            &&& #[trigger] new[p].position == old[p].position
            &&& new[p].position_locked == old[p].position_locked
            &&& new[p].owner_locked == old[p].owner_locked
            &&& old[p].owner_locked ==> new[p].owner == old[p].owner
        }
}

/// Number of `true` entries.
pub open spec fn count_true(s: Seq<bool>) -> nat
    decreases s.len(),
{
    if s.len() == 0 {
        0
    } else {
        count_true(s.drop_last()) + if s.last() { 1nat } else { 0nat }
    }
}

proof fn lemma_count_true_set(s: Seq<bool>, i: int)
    requires
        0 <= i < s.len(),
    ensures
        count_true(s.update(i, true)) == count_true(s) + if s[i] { 0nat } else { 1nat },
    decreases s.len(),
{
    let u = s.update(i, true);
    if i == s.len() - 1 {
        assert(u.drop_last() =~= s.drop_last());
    } else {
        assert(u.drop_last() =~= s.drop_last().update(i, true));
        lemma_count_true_set(s.drop_last(), i);
    }
}

proof fn lemma_count_true_bound(s: Seq<bool>)
    ensures
        count_true(s) <= s.len(),
    decreases s.len(),
{
    if s.len() > 0 {
        lemma_count_true_bound(s.drop_last());
    }
}

proof fn lemma_count_true_push(s: Seq<bool>, b: bool)
    ensures
        count_true(s.push(b)) == count_true(s) + if b { 1nat } else { 0nat },
{
    assert(s.push(b).drop_last() =~= s);
}

/// `pts` with the owner of point `k` set to `owner`.
pub open spec fn with_owner(pts: Seq<StartingPoint>, k: int, owner: u8) -> Seq<StartingPoint> {
    pts.update(k, StartingPoint { owner, ..pts[k] })
}

proof fn lemma_with_owner(old_pts: Seq<StartingPoint>, pts: Seq<StartingPoint>, k: int, owner: u8)
    requires
        only_free_owners_changed(old_pts, pts),
        0 <= k < pts.len(),
        !old_pts[k].owner_locked,
    ensures
        only_free_owners_changed(old_pts, with_owner(pts, k, owner)),
{
    let u = with_owner(pts, k, owner);
    assert forall|p: int| 0 <= p < old_pts.len() implies {
        &&& #[trigger] u[p].position == old_pts[p].position
        &&& u[p].position_locked == old_pts[p].position_locked
        &&& u[p].owner_locked == old_pts[p].owner_locked
        &&& old_pts[p].owner_locked ==> u[p].owner == old_pts[p].owner
    } by {
        assert(pts[p].position == old_pts[p].position);
    }
}

fn set_owner(points: &mut Vec<StartingPoint>, k: usize, owner: u8)
    requires
        k < old(points)@.len(),
    ensures
        final(points)@ == with_owner(old(points)@, k as int, owner),
{
    let mut point = points[k];
    point.owner = owner;
    points.set(k, point);
}

/// Give every point whose owner is not locked any civilization below `num_civs`.
fn assign_repeated(points: &mut Vec<StartingPoint>, num_civs: u8, rng: &mut StdRng)
    requires
        num_civs > 0 || forall|p: int| 0 <= p < old(points)@.len() ==> #[trigger] old(points)@[p].owner_locked,
    ensures
        only_free_owners_changed(old(points)@, final(points)@),
        forall|p: int|
            0 <= p < old(points)@.len() && !#[trigger] old(points)@[p].owner_locked
                ==> final(points)@[p].owner < num_civs,
{
    let ghost old_pts = points@;
    let n = points.len();
    let mut k: usize = 0;
    while k < n
        invariant
            k <= n,
            n == old_pts.len(),
            num_civs > 0 || forall|p: int| 0 <= p < n ==> #[trigger] old_pts[p].owner_locked,
            only_free_owners_changed(old_pts, points@),
            forall|p: int| k <= p < n ==> #[trigger] points@[p] == old_pts[p],
            forall|p: int| 0 <= p < k && !#[trigger] old_pts[p].owner_locked ==> points@[p].owner < num_civs,
        decreases n - k,
    {
        if !points[k].owner_locked {
            let owner = gen_index(rng, num_civs as usize) as u8;
            proof {
                lemma_with_owner(old_pts, points@, k as int, owner);
                lemma_unlocked_rank_before(old_pts, k as int);
            }
            set_owner(points, k, owner);
        }
        k = k + 1;
    }
}

/// The civilizations below `num_civs` that no owner-locked point holds, in
/// increasing order.
fn free_civs(points: &Vec<StartingPoint>, num_civs: u8) -> (civs: Vec<u8>)
    requires
        count_owner_locked(points@, points@.len() as int) <= num_civs,
    ensures
        civs@.len() >= num_civs - count_owner_locked(points@, points@.len() as int),
        forall|i: int, j: int| 0 <= i < j < civs@.len() ==> civs@[i] != civs@[j],
        forall|i: int| 0 <= i < civs@.len() ==> civ_pool(points@, num_civs).contains(#[trigger] civs@[i]),
{
    let ghost pts = points@;
    let n = points.len();
    // Civilizations held by locked points leave the pool.
    let mut removed: Vec<bool> = Vec::new();
    let mut c: u8 = 0;
    while c < num_civs
        invariant
            c <= num_civs,
            removed@.len() == c,
            count_true(removed@) == 0,
            forall|i: int| 0 <= i < c ==> !#[trigger] removed@[i],
        decreases num_civs - c,
    {
        proof {
            lemma_count_true_push(removed@, false);
        }
        removed.push(false);
        c = c + 1;
    }
    let mut k: usize = 0;
    while k < n
        invariant
            k <= n,
            n == pts.len(),
            pts == points@,
            removed@.len() == num_civs,
            count_true(removed@) <= count_owner_locked(pts, k as int),
            forall|i: int|
                0 <= i < num_civs ==> (#[trigger] removed@[i] <==> exists|q: int|
                    0 <= q < k && pts[q].owner_locked && pts[q].owner == i),
        decreases n - k,
    {
        let point = points[k];
        let ghost prev = removed@;
        if point.owner_locked && point.owner < num_civs {
            proof {
                lemma_count_true_set(removed@, point.owner as int);
            }
            removed.set(point.owner as usize, true);
        }
        proof {
            assert forall|i: int| 0 <= i < num_civs implies (#[trigger] removed@[i] <==> exists|q: int|
                0 <= q < k + 1 && pts[q].owner_locked && pts[q].owner == i) by {
                if pts[k as int].owner_locked && pts[k as int].owner == i {
                    assert(0 <= k < k + 1);
                } else {
                    assert(removed@[i] == prev[i]);
                    if removed@[i] {
                        let q = choose|q: int| 0 <= q < k && pts[q].owner_locked && pts[q].owner == i;
                        assert(0 <= q < k + 1);
                    }
                }
            }
        }
        k = k + 1;
    }
    // The pool, in increasing order.
    let mut civs: Vec<u8> = Vec::new();
    let mut c: u8 = 0;
    while c < num_civs
        invariant
            c <= num_civs,
            removed@.len() == num_civs,
            civs@.len() == c - count_true(removed@.subrange(0, c as int)),
            forall|i: int, j: int| 0 <= i < j < civs@.len() ==> civs@[i] < civs@[j],
            forall|i: int| 0 <= i < civs@.len() ==> #[trigger] civs@[i] < c,
            forall|i: int| 0 <= i < civs@.len() ==> !removed@[#[trigger] civs@[i] as int],
        decreases num_civs - c,
    {
        proof {
            assert(removed@.subrange(0, c + 1) =~= removed@.subrange(0, c as int).push(removed@[c as int]));
            lemma_count_true_push(removed@.subrange(0, c as int), removed@[c as int]);
        }
        if !removed[c as usize] {
            civs.push(c);
        }
        c = c + 1;
    }
    proof {
        assert(removed@.subrange(0, num_civs as int) =~= removed@);
        lemma_count_true_bound(removed@);
        assert forall|i: int| 0 <= i < civs@.len() implies civ_pool(pts, num_civs).contains(#[trigger] civs@[i]) by {
            let d = civs@[i];
            assert(!removed@[d as int]);
            assert forall|q: int| 0 <= q < pts.len() && #[trigger] pts[q].owner_locked implies pts[q].owner != d by {
                if pts[q].owner == d {
                    assert(removed@[d as int]);
                }
            }
        }
    }
    civs
}

#[verifier::rlimit(50)]
#[verifier::spinoff_prover]
/// Give every point whose owner is not locked a different civilization of
/// the pool, while it lasts, and civilization 0 after that.
fn assign_choice(points: &mut Vec<StartingPoint>, num_civs: u8, rng: &mut StdRng)
    requires
        count_owner_locked(old(points)@, old(points)@.len() as int) <= num_civs,
    ensures
        only_free_owners_changed(old(points)@, final(points)@),
        choice_outcome(old(points)@, final(points)@, num_civs),
{
    let ghost old_pts = points@;
    let n = points.len();
    let ghost free = num_civs - count_owner_locked(old_pts, n as int);
    let ghost pool = civ_pool(old_pts, num_civs);
    let mut civs = free_civs(points, num_civs);
    let mut num: u8 = num_civs;
    let mut k: usize = 0;
    while k < n
        invariant
            k <= n,
            n == old_pts.len(),
            old_pts == points@,
            count_owner_locked(old_pts, n as int) <= num_civs,
            num as int == num_civs - count_owner_locked(old_pts, k as int),
        decreases n - k,
    {
        proof {
            lemma_count_owner_locked_monotone(old_pts, k + 1, n as int);
        }
        if points[k].owner_locked {
            num = num - 1;
        }
        k = k + 1;
    }
    let mut k: usize = 0;
    while k < n
        invariant
            k <= n,
            n == old_pts.len(),
            pool == civ_pool(old_pts, num_civs),
            free == num_civs - count_owner_locked(old_pts, n as int),
            count_owner_locked(old_pts, n as int) <= num_civs,
            num as int == free - if unlocked_rank(old_pts, k as int) <= free {
                unlocked_rank(old_pts, k as int)
            } else {
                free
            },
            civs@.len() >= num_civs - count_owner_locked(old_pts, n as int) - if unlocked_rank(old_pts, k as int)
                <= free { unlocked_rank(old_pts, k as int) } else { free },
            forall|i: int, j: int| 0 <= i < j < civs@.len() ==> civs@[i] != civs@[j],
            forall|i: int| 0 <= i < civs@.len() ==> pool.contains(#[trigger] civs@[i]),
            only_free_owners_changed(old_pts, points@),
            forall|p: int| k <= p < n ==> #[trigger] points@[p] == old_pts[p],
            choice_progress(old_pts, points@, civs@, num_civs, k as int),
        decreases n - k,
    {
        proof {
            lemma_count_owner_locked_monotone(old_pts, k as int, n as int);
            lemma_unlocked_rank_monotone(old_pts, k as int);
            lemma_count_owner_locked_monotone(old_pts, k + 1, n as int);
        }
        if points[k].owner_locked {
            proof {
                assert(choice_progress(old_pts, points@, civs@, num_civs, k + 1));
            }
        } else {
            let ghost before = civs@;
            let ghost pts0 = points@;
            let owner = if num > 0 {
                let i = gen_index(rng, num as usize);
                let owner = civs.remove(i);
                num = num - 1;
                proof {
                    lemma_remove_keeps_pool(before, i as int, pool);
                }
                owner
            } else {
                0
            };
            proof {
                lemma_with_owner(old_pts, points@, k as int, owner);
                lemma_unlocked_rank_before(old_pts, k as int);
            }
            set_owner(points, k, owner);
            proof {
                lemma_choice_step(old_pts, pts0, points@, before, civs@, num_civs, k as int, owner);
            }
        }
        k = k + 1;
    }
}

/// The outcome of the `Choice` algorithm: points ranked (among the free
/// points) below the number of free civilizations get distinct civilizations
/// of the pool; the others get civilization 0.
pub open spec fn choice_outcome(old_pts: Seq<StartingPoint>, new_pts: Seq<StartingPoint>, num_civs: u8) -> bool {
    let free = num_civs - count_owner_locked(old_pts, old_pts.len() as int);
    &&& forall|p: int|
        0 <= p < old_pts.len() && !#[trigger] old_pts[p].owner_locked && unlocked_rank(old_pts, p) < free
            ==> civ_pool(old_pts, num_civs).contains(new_pts[p].owner)
    &&& forall|p: int|
        0 <= p < old_pts.len() && !#[trigger] old_pts[p].owner_locked && unlocked_rank(old_pts, p) >= free
            ==> new_pts[p].owner == 0
    &&& forall|p: int, q: int|
        0 <= p < q < old_pts.len() && !#[trigger] old_pts[p].owner_locked && !#[trigger] old_pts[q].owner_locked
            && unlocked_rank(old_pts, q) < free ==> new_pts[p].owner != new_pts[q].owner
}

/// `choice_outcome` holds on the first `k` points, and the civilizations
/// handed out so far are no longer in `civs`.
pub open spec fn choice_progress(
    old_pts: Seq<StartingPoint>,
    pts: Seq<StartingPoint>,
    civs: Seq<u8>,
    num_civs: u8,
    k: int,
) -> bool {
    let free = num_civs - count_owner_locked(old_pts, old_pts.len() as int);
    &&& forall|p: int|
        0 <= p < k && !#[trigger] old_pts[p].owner_locked && unlocked_rank(old_pts, p) < free
            ==> civ_pool(old_pts, num_civs).contains(pts[p].owner) && !civs.contains(pts[p].owner)
    &&& forall|p: int|
        0 <= p < k && !#[trigger] old_pts[p].owner_locked && unlocked_rank(old_pts, p) >= free
            ==> pts[p].owner == 0
    &&& forall|p: int, q: int|
        0 <= p < q < k && !#[trigger] old_pts[p].owner_locked && !#[trigger] old_pts[q].owner_locked
            && unlocked_rank(old_pts, q) < free ==> pts[p].owner != pts[q].owner
}

proof fn lemma_remove_keeps_pool(before: Seq<u8>, i: int, pool: Set<u8>)
    requires
        0 <= i < before.len(),
        forall|a: int, b: int| 0 <= a < b < before.len() ==> before[a] != before[b],
        forall|a: int| 0 <= a < before.len() ==> pool.contains(#[trigger] before[a]),
    ensures
        pool.contains(before[i]),
        !before.remove(i).contains(before[i]),
        forall|a: int, b: int| 0 <= a < b < before.remove(i).len() ==> before.remove(i)[a] != before.remove(i)[b],
        forall|a: int| 0 <= a < before.remove(i).len() ==> pool.contains(#[trigger] before.remove(i)[a]),
        forall|d: u8| before.remove(i).contains(d) ==> before.contains(d),
{
    let after = before.remove(i);
    let idx = |a: int| if a < i { a } else { a + 1 };
    assert forall|a: int| 0 <= a < after.len() implies after[a] == before[idx(a)] by {}
    assert forall|a: int, b: int| 0 <= a < b < after.len() implies after[a] != after[b] by {
        assert(after[a] == before[idx(a)]);
        assert(after[b] == before[idx(b)]);
    }
    assert forall|a: int| 0 <= a < after.len() implies pool.contains(#[trigger] after[a]) by {
        assert(after[a] == before[idx(a)]);
    }
    if after.contains(before[i]) {
        let a = choose|a: int| 0 <= a < after.len() && after[a] == before[i];
        assert(after[a] == before[idx(a)]);
    }
    assert forall|d: u8| after.contains(d) implies before.contains(d) by {
        let a = choose|a: int| 0 <= a < after.len() && after[a] == d;
        assert(after[a] == before[idx(a)]);
    }
}

#[verifier::rlimit(80)]
proof fn lemma_choice_step(
    old_pts: Seq<StartingPoint>,
    pts0: Seq<StartingPoint>,
    pts1: Seq<StartingPoint>,
    before: Seq<u8>,
    after: Seq<u8>,
    num_civs: u8,
    k: int,
    owner: u8,
)
    requires
        0 <= k < old_pts.len(),
        pts0.len() == old_pts.len(),
        !old_pts[k].owner_locked,
        pts1 == with_owner(pts0, k, owner),
        choice_progress(old_pts, pts0, before, num_civs, k),
        forall|d: u8| after.contains(d) ==> before.contains(d),
        unlocked_rank(old_pts, k) < num_civs - count_owner_locked(old_pts, old_pts.len() as int) ==> (
        civ_pool(old_pts, num_civs).contains(owner) && before.contains(owner) && !after.contains(owner)),
        unlocked_rank(old_pts, k) >= num_civs - count_owner_locked(old_pts, old_pts.len() as int) ==> owner == 0,
        forall|p: int| 0 <= p < k && !#[trigger] old_pts[p].owner_locked ==> unlocked_rank(old_pts, p) < unlocked_rank(old_pts, k),
    ensures
        choice_progress(old_pts, pts1, after, num_civs, k + 1),
{
    let free = num_civs - count_owner_locked(old_pts, old_pts.len() as int);
    assert forall|p: int|
        0 <= p < k + 1 && !#[trigger] old_pts[p].owner_locked && unlocked_rank(old_pts, p) < free
        implies civ_pool(old_pts, num_civs).contains(pts1[p].owner) && !after.contains(pts1[p].owner) by {
        if p < k {
            assert(pts1[p] == pts0[p]);
            assert(!before.contains(pts0[p].owner));
        }
    }
    assert forall|p: int, q: int|
        0 <= p < q < k + 1 && !#[trigger] old_pts[p].owner_locked && !#[trigger] old_pts[q].owner_locked
            && unlocked_rank(old_pts, q) < free implies pts1[p].owner != pts1[q].owner by {
        if q < k {
            assert(pts1[p] == pts0[p]);
            assert(pts1[q] == pts0[q]);
        } else {
            assert(pts1[p] == pts0[p]);
            assert(unlocked_rank(old_pts, p) < unlocked_rank(old_pts, k));
            assert(!before.contains(pts0[p].owner));
        }
    }
    assert forall|p: int|
        0 <= p < k + 1 && !#[trigger] old_pts[p].owner_locked && unlocked_rank(old_pts, p) >= free
        implies pts1[p].owner == 0 by {
        if p < k {
            assert(pts1[p] == pts0[p]);
        }
    }
}

/// Randomly pick the owner civilization of every starting point whose owner
/// is not locked. `Repeated` picks any civilization for each point; `Choice`
/// gives each point a different civilization that no locked point holds,
/// while there are any, and civilization 0 to the points after that.
pub fn randomize_point_civ(config: &mut AtlasSimConfig, rng: &mut StdRng)
    requires
        old(config).scenario.random_civ_algorithm == StartCivAlgorithm::Repeated ==> (
        old(config).scenario.num_civs > 0 || forall|p: int|
            0 <= p < old(config).scenario.start_points@.len()
                ==> #[trigger] old(config).scenario.start_points@[p].owner_locked),
        old(config).scenario.random_civ_algorithm == StartCivAlgorithm::Choice ==> count_owner_locked(
            old(config).scenario.start_points@,
            old(config).scenario.start_points@.len() as int,
        ) <= old(config).scenario.num_civs,
    ensures
        final(config).general == old(config).general,
        final(config).climate == old(config).climate,
        final(config).scenario.num_starts == old(config).scenario.num_starts,
        final(config).scenario.num_civs == old(config).scenario.num_civs,
        final(config).scenario.random_point_algorithm == old(config).scenario.random_point_algorithm,
        final(config).scenario.random_civ_algorithm == old(config).scenario.random_civ_algorithm,
        final(config).scenario.start_civs == old(config).scenario.start_civs,
        only_free_owners_changed(old(config).scenario.start_points@, final(config).scenario.start_points@),
        old(config).scenario.random_civ_algorithm == StartCivAlgorithm::Repeated ==> forall|p: int|
            0 <= p < old(config).scenario.start_points@.len()
                && !#[trigger] old(config).scenario.start_points@[p].owner_locked
                ==> final(config).scenario.start_points@[p].owner < old(config).scenario.num_civs,
        old(config).scenario.random_civ_algorithm == StartCivAlgorithm::Choice ==> choice_outcome(
            old(config).scenario.start_points@,
            final(config).scenario.start_points@,
            old(config).scenario.num_civs,
        ),
{
    let mut points: Vec<StartingPoint> = Vec::new();
    std::mem::swap(&mut points, &mut config.scenario.start_points);
    match config.scenario.random_civ_algorithm {
        StartCivAlgorithm::Repeated => assign_repeated(&mut points, config.scenario.num_civs, rng),
        StartCivAlgorithm::Choice => assign_choice(&mut points, config.scenario.num_civs, rng),
    }
    config.scenario.start_points = points;
}

proof fn lemma_count_true_prefix_false(s: Seq<bool>, m: int)
    requires
        0 <= m <= s.len(),
        forall|i: int| 0 <= i < s.len() ==> !#[trigger] s[i],
    ensures
        count_true(s.subrange(0, m)) == 0,
    decreases m,
{
    if m > 0 {
        assert(s.subrange(0, m).drop_last() =~= s.subrange(0, m - 1));
        lemma_count_true_prefix_false(s, m - 1);
    }
}

proof fn lemma_count_owner_locked_monotone(points: Seq<StartingPoint>, a: int, b: int)
    requires
        0 <= a <= b,
    ensures
        count_owner_locked(points, a) <= count_owner_locked(points, b),
        count_owner_locked(points, b) <= count_owner_locked(points, a) + (b - a),
    decreases b - a,
{
    if a < b {
        lemma_count_owner_locked_monotone(points, a, b - 1);
    }
}

proof fn lemma_unlocked_rank_before(points: Seq<StartingPoint>, k: int)
    requires
        0 <= k,
    ensures
        forall|p: int| 0 <= p < k && !#[trigger] points[p].owner_locked ==> unlocked_rank(points, p) < unlocked_rank(
            points,
            k,
        ),
    decreases k,
{
    if k > 0 {
        lemma_unlocked_rank_before(points, k - 1);
        lemma_unlocked_rank_monotone(points, k - 1);
    }
}

proof fn lemma_unlocked_rank_monotone(points: Seq<StartingPoint>, k: int)
    requires
        0 <= k,
    ensures
        unlocked_rank(points, k + 1) == unlocked_rank(points, k) + if points[k].owner_locked { 0int } else { 1int },
        unlocked_rank(points, k) >= 0,
{
    lemma_count_owner_locked_monotone(points, 0, k);
}

/// Weights of the tiles of strip (row) `i` of a map `w` tiles wide.
pub open spec fn strip_row(weights: Seq<u32>, w: int, i: int) -> Seq<u32> {
    weights.subrange(i * w, i * w + w)
}

/// Tile `j` can come out of the weighted choice: its strip has weight
/// (unless no strip has), and within the strip the tile has weight (unless
/// no tile of the strip has).
pub open spec fn tile_choosable(weights: Seq<u32>, strips: Seq<u32>, w: int, j: int) -> bool {
    let i = j / w;
    &&& 0 <= j
    &&& 0 <= i < strips.len()
    &&& seq_sum(strips) > 0 ==> strips[i] > 0
    &&& seq_sum(strip_row(weights, w, i)) > 0 ==> weights[j] > 0
}

/// Tile `d` was taken by a point before point `p`.
pub open spec fn taken_before(chosen: Seq<Option<int>>, p: int, d: int) -> bool {
    exists|q: int| 0 <= q < p && chosen[q] == Some(d)
}

/// The tiles drawn for one point (`d`, in order) fit what it got (`c`): a
/// locked point draws nothing; a free point draws at least once and at most
/// 5 times, 5 times when it got no tile; a placed point got its last draw;
/// and every draw it did not keep was a tile an earlier point took.
pub open spec fn point_draws_ok(locked: bool, c: Option<int>, d: Seq<int>, chosen: Seq<Option<int>>, p: int) -> bool {
    &&& locked ==> d.len() == 0
    &&& !locked ==> 1 <= d.len() <= 5
    &&& !locked && c is None ==> d.len() == 5
    &&& c is Some ==> d.len() >= 1 && d.last() == c->0
    &&& forall|i: int|
        0 <= i < d.len() && (i < d.len() - 1 || c is None) ==> taken_before(chosen, p, #[trigger] d[i])
}

/// The draws of the first `k` points fit what each got.
pub open spec fn draws_ok(points: Seq<StartingPoint>, chosen: Seq<Option<int>>, draws: Seq<Seq<int>>, k: int) -> bool {
    &&& draws.len() == points.len()
    &&& forall|p: int|
        0 <= p < k ==> point_draws_ok(points[p].position_locked, chosen[p], #[trigger] draws[p], chosen, p)
}

/// Every point among the first `k` whose position is not locked got a tile.
pub open spec fn all_free_placed(points: Seq<StartingPoint>, chosen: Seq<Option<int>>, k: int) -> bool {
    forall|p: int| 0 <= p < k && !points[p].position_locked ==> #[trigger] chosen[p] is Some
}

/// The outcome of randomizing the starting positions, given which tile (if
/// any) each point got: only free points move, each to a choosable tile of
/// its own, and everything else stays.
pub open spec fn start_points_outcome(
    old_pts: Seq<StartingPoint>,
    new_pts: Seq<StartingPoint>,
    chosen: Seq<Option<int>>,
    weights: Seq<u32>,
    strips: Seq<u32>,
    w: int,
) -> bool {
    &&& chosen.len() == old_pts.len()
    &&& new_pts.len() == old_pts.len()
    &&& forall|p: int|
        0 <= p < old_pts.len() ==> {
            &&& #[trigger] new_pts[p].owner == old_pts[p].owner
            &&& new_pts[p].owner_locked == old_pts[p].owner_locked
            &&& new_pts[p].position_locked == old_pts[p].position_locked
        }
    &&& forall|p: int|
        0 <= p < old_pts.len() ==> match #[trigger] chosen[p] {
            Some(j) => {
                &&& !old_pts[p].position_locked
                &&& tile_choosable(weights, strips, w, j)
                &&& new_pts[p].position[0] == j % w
                &&& new_pts[p].position[1] == j / w
            },
            None => new_pts[p].position == old_pts[p].position,
        }
    &&& forall|p: int, q: int|
        0 <= p < q < old_pts.len() && #[trigger] chosen[p] is Some && #[trigger] chosen[q] is Some
            ==> chosen[p] != chosen[q]
}

/// Some point before point `p` got a tile.
pub open spec fn placed_before(chosen: Seq<Option<int>>, p: int) -> bool {
    exists|q: int| 0 <= q < p && #[trigger] chosen[q] is Some
}

/// A point whose position is free goes unplaced only after an earlier point
/// was placed: while no tile is taken, the first draw is always accepted.
pub open spec fn unplaced_only_after_placed(
    old_pts: Seq<StartingPoint>,
    chosen: Seq<Option<int>>,
    k: int,
) -> bool {
    forall|p: int|
        0 <= p < k && #[trigger] chosen[p] is None && !old_pts[p].position_locked
            ==> placed_before(chosen, p)
}

/// Some point's position is not locked.
pub open spec fn has_free_point(points: Seq<StartingPoint>) -> bool {
    exists|p: int| 0 <= p < points.len() && !(#[trigger] points[p]).position_locked
}

/// Strip (row) `i` can be drawn: it is a strip, of positive weight unless
/// all strips weigh 0.
pub open spec fn row_drawable(strips: Seq<u32>, i: int) -> bool {
    0 <= i < strips.len() && (seq_sum(strips) > 0 ==> strips[i] > 0)
}

/// The alias table of row `i` can be built: the row lies within `weights`,
/// and no weight computation of its table overflows.
pub open spec fn row_table_ok(weights: Seq<u32>, w: int, i: int) -> bool {
    &&& (i + 1) * w <= weights.len()
    &&& forall|t: int| i * w <= t < i * w + w ==> #[trigger] weights[t] * w <= u32::MAX
    &&& seq_sum(strip_row(weights, w, i)) * w <= u32::MAX
}

/// The weighted choice can be set up: the table of the strips can always be
/// built; when some point is to be placed (`any_free`), the strips are not
/// empty, positions fit in a `u32`, and the table of every strip that can be
/// drawn can be built.
pub open spec fn start_points_tables_ok(weights: Seq<u32>, strips: Seq<u32>, w: int, any_free: bool) -> bool {
    &&& strips.len() <= u32::MAX
    &&& forall|i: int| 0 <= i < strips.len() ==> #[trigger] strips[i] * strips.len() <= u32::MAX
    &&& seq_sum(strips) * strips.len() <= u32::MAX
    &&& any_free ==> {
        &&& 0 < w <= u32::MAX
        &&& 0 < strips.len()
        &&& forall|i: int| #[trigger] row_drawable(strips, i) ==> row_table_ok(weights, w, i)
    }
}

/// What `randomize_start_points` does to `old_config`, giving `new_config`
/// and `success`: only the positions of points whose position is not locked
/// change, each to a choosable tile no other point took; a free point goes
/// unplaced only after an earlier one was placed, and only after 5 draws
/// that each hit a tile an earlier point took (`draws`, the tiles drawn for
/// each point); and `success` tells whether every free point was placed.
pub open spec fn start_points_randomized(
    old_config: AtlasSimConfig,
    new_config: AtlasSimConfig,
    weights: Seq<u32>,
    strips: Seq<u32>,
    w: int,
    success: bool,
) -> bool {
    &&& new_config.general == old_config.general
    &&& new_config.climate == old_config.climate
    &&& new_config.scenario.num_starts == old_config.scenario.num_starts
    &&& new_config.scenario.num_civs == old_config.scenario.num_civs
    &&& new_config.scenario.random_point_algorithm == old_config.scenario.random_point_algorithm
    &&& new_config.scenario.random_civ_algorithm == old_config.scenario.random_civ_algorithm
    &&& new_config.scenario.start_civs == old_config.scenario.start_civs
    &&& exists|chosen: Seq<Option<int>>, draws: Seq<Seq<int>>|
        {
            &&& draws_ok(old_config.scenario.start_points@, chosen, draws, chosen.len() as int)
            &&& start_points_outcome(
                old_config.scenario.start_points@,
                new_config.scenario.start_points@,
                chosen,
                weights,
                strips,
                w,
            )
            &&& unplaced_only_after_placed(old_config.scenario.start_points@, chosen, chosen.len() as int)
            &&& success == all_free_placed(old_config.scenario.start_points@, chosen, chosen.len() as int)
        }
}

/// A call of `randomize_start_points` that reports failure left some free
/// point where it was, after drawing 5 tiles that each went to an earlier
/// point of the same call (at the tile's column and row).
pub proof fn law_start_point_fails_only_after_five_taken_draws(
    old_config: AtlasSimConfig,
    new_config: AtlasSimConfig,
    weights: Seq<u32>,
    strips: Seq<u32>,
    w: int,
    success: bool,
)
    requires
        start_points_randomized(old_config, new_config, weights, strips, w, success),
    ensures
        !success ==> exists|p: int, d: Seq<int>|
            #![trigger old_config.scenario.start_points@[p], d.len()]
            {
                &&& 0 <= p < old_config.scenario.start_points@.len()
                &&& !old_config.scenario.start_points@[p].position_locked
                &&& new_config.scenario.start_points@[p].position == old_config.scenario.start_points@[p].position
                &&& d.len() == 5
                &&& forall|i: int|
                    0 <= i < 5 ==> exists|q: int|
                        0 <= q < p && !old_config.scenario.start_points@[q].position_locked
                            && new_config.scenario.start_points@[q].position[0] == #[trigger] d[i] % w
                            && new_config.scenario.start_points@[q].position[1] == d[i] / w
            },
{
    let old_pts = old_config.scenario.start_points@;
    let new_pts = new_config.scenario.start_points@;
    if !success {
        let (chosen, draws) = choose|chosen: Seq<Option<int>>, draws: Seq<Seq<int>>|
            {
                &&& draws_ok(old_pts, chosen, draws, chosen.len() as int)
                &&& start_points_outcome(old_pts, new_pts, chosen, weights, strips, w)
                &&& unplaced_only_after_placed(old_pts, chosen, chosen.len() as int)
                &&& success == all_free_placed(old_pts, chosen, chosen.len() as int)
            };
        let p = choose|p: int| 0 <= p < chosen.len() && !old_pts[p].position_locked && !(#[trigger] chosen[p] is Some);
        let d = draws[p];
        assert(point_draws_ok(old_pts[p].position_locked, chosen[p], d, chosen, p));
        assert forall|i: int| 0 <= i < 5 implies exists|q: int|
            0 <= q < p && !old_pts[q].position_locked && new_pts[q].position[0] == #[trigger] d[i] % w
                && new_pts[q].position[1] == d[i] / w by {
            assert(taken_before(chosen, p, d[i]));
            let q = choose|q: int| 0 <= q < p && chosen[q] == Some(d[i]);
            assert(match chosen[q] {
                Some(j) => {
                    &&& !old_pts[q].position_locked
                    &&& tile_choosable(weights, strips, w, j)
                    &&& new_pts[q].position[0] == j % w
                    &&& new_pts[q].position[1] == j / w
                },
                None => new_pts[q].position == old_pts[q].position,
            });
        }
        assert(match chosen[p] {
            Some(j) => true,
            None => new_pts[p].position == old_pts[p].position,
        });
    }
}

/// Randomly place every starting point whose position is not locked on a
/// land tile: first a strip (row) by the strip weights, then a tile of the
/// strip by the tile weights. A point gets 5 tries to find a tile that no
/// other point took in this call; a point that fails keeps its position.
/// Returns whether every point with a free position was placed (`true`
/// when there is no such point).
pub fn randomize_start_points(
    config: &mut AtlasSimConfig,
    rng: &mut StdRng,
    weights: &[u32],
    strip_weights: &[u32],
    width: usize,
) -> (success: bool)
    requires
        start_points_tables_ok(
            weights@,
            strip_weights@,
            width as int,
            has_free_point(old(config).scenario.start_points@),
        ),
    ensures
        start_points_randomized(*old(config), *final(config), weights@, strip_weights@, width as int, success),
{
    let mut points: Vec<StartingPoint> = Vec::new();
    std::mem::swap(&mut points, &mut config.scenario.start_points);
    let (success, chosen, draws) = place_points(&mut points, rng, weights, strip_weights, width);
    config.scenario.start_points = points;
    proof {
        let c = chosen@;
        assert(draws_ok(old(config).scenario.start_points@, c, draws@, c.len() as int));
        assert(start_points_outcome(
            old(config).scenario.start_points@,
            config.scenario.start_points@,
            c,
            weights@,
            strip_weights@,
            width as int,
        ));
    }
    success
}

/// Make the alias table of strip `i`.
fn make_strip_table(weights: &[u32], i: usize, width: usize) -> (t: WalkerTable)
    requires
        width > 0,
        (i + 1) * width <= weights@.len(),
        forall|t: int| i * width <= t < i * width + width ==> #[trigger] weights@[t] * width <= u32::MAX,
        seq_sum(strip_row(weights@, width as int, i as int)) * width <= u32::MAX,
    ensures
        table_draws_from(t, strip_row(weights@, width as int, i as int)),
{
    assert(i * width + width <= weights@.len()) by (nonlinear_arith)
        requires
            (i + 1) * width <= weights@.len(),
    ;
    assert(weights@.len() == weights.len());
    let start = i * width;
    let row = &weights[start..start + width];
    assert(row@ == strip_row(weights@, width as int, i as int));
    assert forall|t: int| 0 <= t < row@.len() implies #[trigger] row@[t] * row@.len() <= u32::MAX by {
        assert(row@[t] == weights@[start + t]);
    }
    let builder = walker_builder_new(row);
    walker_builder_build(&builder)
}

/// Place the free points of `points`; returns whether every free point was
/// placed, and (in ghost) which tile each point got.
fn place_points(
    points: &mut Vec<StartingPoint>,
    rng: &mut StdRng,
    weights: &[u32],
    strip_weights: &[u32],
    width: usize,
) -> (r: (bool, Ghost<Seq<Option<int>>>, Ghost<Seq<Seq<int>>>))
    requires
        start_points_tables_ok(weights@, strip_weights@, width as int, has_free_point(old(points)@)),
    ensures
        start_points_outcome(old(points)@, final(points)@, r.1@, weights@, strip_weights@, width as int),
        unplaced_only_after_placed(old(points)@, r.1@, r.1@.len() as int),
        r.0 == all_free_placed(old(points)@, r.1@, r.1@.len() as int),
        draws_ok(old(points)@, r.1@, r.2@, r.1@.len() as int),
{
    let ghost old_pts = points@;
    let ghost w = width as int;
    let n = points.len();
    let mut success = true;
    let strip_builder = walker_builder_new(strip_weights);
    let strip_table = walker_builder_build(&strip_builder);
    let num_strips = strip_weights.len();
    // The table of each strip, made when the strip is first drawn.
    let mut tables: HashMap<usize, WalkerTable> = HashMap::new();
    let mut used: HashSet<usize> = HashSet::new();
    let ghost mut chosen: Seq<Option<int>> = Seq::new(n as nat, |p: int| None);
    let ghost mut draws: Seq<Seq<int>> = Seq::new(n as nat, |p: int| Seq::<int>::empty());
    let mut k: usize = 0;
    while k < n
        invariant
            k <= n,
            n == old_pts.len(),
            start_points_tables_ok(weights@, strip_weights@, w, has_free_point(old_pts)),
            w == width,
            num_strips == strip_weights@.len(),
            table_draws_from(strip_table, strip_weights@),
            forall|a: usize|
                #[trigger] tables@.contains_key(a) ==> table_draws_from(tables@[a], strip_row(weights@, w, a as int)),
            forall|x: usize| used@.contains(x) <==> exists|p: int| 0 <= p < k && chosen[p] == Some(x as int),
            forall|p: int| k <= p < n ==> #[trigger] chosen[p] is None,
            forall|p: int| k <= p < n ==> #[trigger] points@[p] == old_pts[p],
            start_points_outcome(old_pts, points@, chosen, weights@, strip_weights@, w),
            unplaced_only_after_placed(old_pts, chosen, k as int),
            success == all_free_placed(old_pts, chosen, k as int),
            draws_ok(old_pts, chosen, draws, k as int),
            forall|p: int| k <= p < n ==> (#[trigger] draws[p]).len() == 0,
        decreases n - k,
    {
        if !points[k].position_locked {
            // Ensure that the position is not in use: try 5 times.
            let mut found: Option<usize> = None;
            let mut attempt: usize = 0;
            let ghost mut tried: Seq<int> = Seq::empty();
            let ghost none_used = !placed_before(chosen, k as int);
            proof {
                if none_used {
                    assert forall|x: usize| !used@.contains(x) by {
                        if used@.contains(x) {
                            let p = choose|p: int| 0 <= p < k && chosen[p] == Some(x as int);
                            assert(chosen[p] is Some);
                        }
                    }
                }
            }
            while attempt < 5 && found.is_none()
                invariant
                    attempt <= 5,
                    none_used ==> forall|x: usize| !used@.contains(x),
                    none_used && attempt > 0 ==> found is Some,
                    tried.len() == attempt,
                    found matches Some(j) ==> attempt >= 1 && tried.last() == j,
                    forall|a: int|
                        0 <= a < tried.len() && (a < tried.len() - 1 || found is None) ==> taken_before(
                            chosen,
                            k as int,
                            #[trigger] tried[a],
                        ),
                    forall|x: usize| used@.contains(x) <==> exists|p: int| 0 <= p < k && chosen[p] == Some(x as int),
                    start_points_tables_ok(weights@, strip_weights@, w, true),
                    w == width,
                    num_strips == strip_weights@.len(),
                    table_draws_from(strip_table, strip_weights@),
                    forall|a: usize|
                        #[trigger] tables@.contains_key(a) ==> table_draws_from(
                            tables@[a],
                            strip_row(weights@, w, a as int),
                        ),
                    found matches Some(j) ==> tile_choosable(weights@, strip_weights@, w, j as int)
                        && !used@.contains(j),
                decreases 5 - attempt,
            {
                let i = walker_table_next(&strip_table, rng);
                proof {
                    assert(row_drawable(strip_weights@, i as int));
                }
                proof {
                    assert(0 <= i * width && i * width + width <= weights@.len()) by (nonlinear_arith)
                        requires
                            (i + 1) * width <= weights@.len(),
                            i >= 0,
                            width > 0,
                    ;
                    assert(weights@.len() == weights.len());
                    assert(strip_row(weights@, w, i as int).len() == w);
                }
                let j = match tables.get(&i) {
                    Some(table) => walker_table_next(table, rng),
                    None => {
                        let table = make_strip_table(weights, i, width);
                        let j = walker_table_next(&table, rng);
                        tables.insert(i, table);
                        j
                    },
                };
                let j = i * width + j;
                proof {
                    vstd::arithmetic::div_mod::lemma_fundamental_div_mod_converse(
                        j as int, w, i as int, (j - i * width) as int);
                    assert(strip_row(weights@, w, i as int)[(j - i * width) as int] == weights@[j as int]);
                }
                let ghost prev_tried = tried;
                proof {
                    tried = tried.push(j as int);
                }
                if !used.contains(&j) {
                    found = Some(j);
                } else {
                    proof {
                        let q = choose|q: int| 0 <= q < k && chosen[q] == Some(j as int);
                        assert(taken_before(chosen, k as int, j as int));
                    }
                }
                proof {
                    assert forall|a: int|
                        0 <= a < tried.len() && (a < tried.len() - 1 || found is None) implies taken_before(
                            chosen,
                            k as int,
                            #[trigger] tried[a],
                        ) by {
                        if a < prev_tried.len() {
                            assert(tried[a] == prev_tried[a]);
                        }
                    }
                }
                attempt = attempt + 1;
            }
            let ghost prev_chosen = chosen;
            let ghost prev_pts = points@;
            let ghost prev_draws = draws;
            match found {
                Some(j) => {
                    used.insert(j);
                    let mut point = points[k];
                    proof {
                        assert(j / width < num_strips);
                        assert(j % width < width);
                    }
                    point.position = [(j % width) as u32, (j / width) as u32];
                    points.set(k, point);
                    proof {
                        chosen = chosen.update(k as int, Some(j as int));
                        assert forall|x: usize| used@.contains(x) <==> exists|p: int|
                            0 <= p < k + 1 && chosen[p] == Some(x as int) by {
                            if x == j {
                                assert(chosen[k as int] == Some(x as int));
                            } else if used@.contains(x) {
                                let p = choose|p: int| 0 <= p < k && prev_chosen[p] == Some(x as int);
                                assert(chosen[p] == Some(x as int));
                            } else if exists|p: int| 0 <= p < k + 1 && chosen[p] == Some(x as int) {
                                let p = choose|p: int| 0 <= p < k + 1 && chosen[p] == Some(x as int);
                                assert(prev_chosen[p] == Some(x as int));
                            }
                        }
                        assert forall|p: int, q: int|
                            0 <= p < q < old_pts.len() && #[trigger] chosen[p] is Some && #[trigger] chosen[q] is Some
                            implies chosen[p] != chosen[q] by {
                            if q == k {
                                if chosen[p] == chosen[q] {
                                    assert(used@.contains(j));
                                }
                            } else if p == k {
                                assert(prev_chosen[q] is None);
                            }
                        }
                        assert forall|p: int| 0 <= p < old_pts.len() implies {
                            &&& #[trigger] points@[p].owner == old_pts[p].owner
                            &&& points@[p].owner_locked == old_pts[p].owner_locked
                            &&& points@[p].position_locked == old_pts[p].position_locked
                        } by {
                            if p != k {
                                assert(points@[p] == prev_pts[p]);
                            } else {
                                assert(prev_pts[p] == old_pts[p]);
                            }
                        }
                        assert forall|p: int| 0 <= p < old_pts.len() implies match #[trigger] chosen[p] {
                            Some(j) => {
                                &&& !old_pts[p].position_locked
                                &&& tile_choosable(weights@, strip_weights@, w, j)
                                &&& points@[p].position[0] == j % w
                                &&& points@[p].position[1] == j / w
                            },
                            None => points@[p].position == old_pts[p].position,
                        } by {
                            if p != k {
                                assert(points@[p] == prev_pts[p]);
                                assert(chosen[p] == prev_chosen[p]);
                            }
                        }
                    }
                },
                None => {
                    success = false;
                },
            }
            proof {
                assert forall|p: int| 0 <= p < k implies #[trigger] chosen[p] == prev_chosen[p] by {}
                assert(found is Some <==> chosen[k as int] is Some);
                assert(found matches Some(j) ==> chosen[k as int] == Some(j as int));
                draws = draws.update(k as int, tried);
                assert forall|p: int| 0 <= p < k + 1 implies point_draws_ok(
                    old_pts[p].position_locked,
                    chosen[p],
                    #[trigger] draws[p],
                    chosen,
                    p,
                ) by {
                    let d = draws[p];
                    if p < k {
                        assert(d == prev_draws[p]);
                        assert(point_draws_ok(old_pts[p].position_locked, prev_chosen[p], d, prev_chosen, p));
                        assert forall|i: int| 0 <= i < d.len() && (i < d.len() - 1 || chosen[p] is None) implies taken_before(
                            chosen,
                            p,
                            #[trigger] d[i],
                        ) by {
                            let q = choose|q: int| 0 <= q < p && prev_chosen[q] == Some(d[i]);
                            assert(chosen[q] == prev_chosen[q]);
                        }
                    } else {
                        assert(d == tried);
                        assert forall|i: int| 0 <= i < d.len() && (i < d.len() - 1 || chosen[p] is None) implies taken_before(
                            chosen,
                            p,
                            #[trigger] d[i],
                        ) by {
                            assert(taken_before(prev_chosen, k as int, tried[i]));
                            let q = choose|q: int| 0 <= q < k && prev_chosen[q] == Some(tried[i]);
                            assert(chosen[q] == prev_chosen[q]);
                        }
                    }
                }
                if chosen[k as int] is None {
                    assert(!all_free_placed(old_pts, chosen, k + 1));
                } else {
                    if all_free_placed(old_pts, prev_chosen, k as int) {
                        assert forall|p: int| 0 <= p < k + 1 && !old_pts[p].position_locked implies #[trigger] chosen[p] is Some by {
                            if p < k {
                                assert(prev_chosen[p] is Some);
                            }
                        }
                    } else {
                        let p = choose|p: int| 0 <= p < k && !old_pts[p].position_locked && !(prev_chosen[p] is Some);
                        assert(!(chosen[p] is Some));
                    }
                }
                assert forall|p: int|
                    0 <= p < k + 1 && #[trigger] chosen[p] is None && !old_pts[p].position_locked
                    implies placed_before(chosen, p) by {
                    if p < k {
                        assert(prev_chosen[p] is None);
                        let q = choose|q: int| 0 <= q < p && #[trigger] prev_chosen[q] is Some;
                        assert(chosen[q] is Some);
                    } else {
                        assert(!none_used);
                        let q = choose|q: int| 0 <= q < k && #[trigger] prev_chosen[q] is Some;
                        assert(chosen[q] is Some);
                    }
                }
            }
        } else {
            proof {
                assert(unplaced_only_after_placed(old_pts, chosen, k + 1));
                assert(draws[k as int].len() == 0);
                assert forall|p: int| 0 <= p < k + 1 implies point_draws_ok(
                    old_pts[p].position_locked,
                    chosen[p],
                    #[trigger] draws[p],
                    chosen,
                    p,
                ) by {}
                if all_free_placed(old_pts, chosen, k as int) {
                    assert forall|p: int| 0 <= p < k + 1 && !old_pts[p].position_locked implies #[trigger] chosen[p] is Some by {
                        if p < k {
                            assert(chosen[p] is Some);
                        }
                    }
                } else {
                    let p = choose|p: int| 0 <= p < k && !old_pts[p].position_locked && !(chosen[p] is Some);
                    assert(!(chosen[p] is Some));
                }
            }
        }
        k = k + 1;
    }
    (success, Ghost(chosen), Ghost(draws))
}


/// The sum of `s[start..start + len]`, if it is at most `u32::MAX`.
fn sum_within_u32(s: &[u32], start: usize, len: usize) -> (r: Option<u64>)
    requires
        start + len <= s@.len(),
    ensures
        match r {
            Some(v) => v == seq_sum(s@.subrange(start as int, start + len)) && v <= u32::MAX,
            None => seq_sum(s@.subrange(start as int, start + len)) > u32::MAX,
        },
{
    let mut sum: u64 = 0;
    let mut k: usize = 0;
    let n = s.len();
    while k < len
        invariant
            k <= len,
            n == s@.len(),
            start + len <= s@.len(),
            sum == seq_sum(s@.subrange(start as int, start + k)),
            sum <= u32::MAX,
        decreases len - k,
    {
        proof {
            lemma_seq_sum_push(s@, start as int, start + k);
        }
        assert(start + k < s@.len());
        let v = s[start + k] as u64;
        assert(sum + v <= 0xffff_ffff + 0xffff_ffff);
        sum = sum + v;
        if sum > u32::MAX as u64 {
            proof {
                lemma_prefix_sum_monotone(s@, start as int, start + k + 1, start + len);
            }
            return None;
        }
        k = k + 1;
    }
    Some(sum)
}

/// Is some point's position not locked?
pub fn any_free_point(points: &Vec<StartingPoint>) -> (r: bool)
    ensures
        r == has_free_point(points@),
{
    let mut k: usize = 0;
    while k < points.len()
        invariant
            k <= points@.len(),
            forall|p: int| 0 <= p < k ==> (#[trigger] points@[p]).position_locked,
        decreases points@.len() - k,
    {
        if !points[k].position_locked {
            assert(!points@[k as int].position_locked);
            return true;
        }
        k = k + 1;
    }
    false
}

/// Can the table of row `r` of `weights` be built (`row_table_ok`)?
fn row_table_check(weights: &[u32], r: usize, width: usize) -> (ok: bool)
    requires
        0 < width <= u32::MAX,
    ensures
        ok == row_table_ok(weights@, width as int, r as int),
{
    let ghost w = width as int;
    let len = weights.len();
    let end = match r.checked_add(1) {
        Some(r1) => match r1.checked_mul(width) {
            Some(e) => e,
            None => {
                assert((r + 1) * w > weights@.len());
                return false;
            },
        },
        None => {
            assert((r + 1) * w > weights@.len()) by (nonlinear_arith)
                requires
                    r + 1 > usize::MAX,
                    w >= 1,
                    weights@.len() <= usize::MAX,
            ;
            return false;
        },
    };
    if end > len {
        return false;
    }
    assert(r * width + width == end) by (nonlinear_arith)
        requires
            end == (r + 1) * w,
            w == width,
    ;
    let start = r * width;
    // Each tile weight of the row, times the width.
    let mut t: usize = start;
    while t < end
        invariant
            start <= t <= end,
            start == r * w,
            end == start + w,
            end <= weights@.len(),
            w == width,
            0 < width <= u32::MAX,
            forall|a: int| start <= a < t ==> #[trigger] weights@[a] * w <= u32::MAX,
        decreases end - t,
    {
        let v = weights[t] as u64;
        assert(v * (width as u64) <= 0xffff_ffff * 0xffff_ffff) by (nonlinear_arith)
            requires
                v <= 0xffff_ffff,
                width <= 0xffff_ffff,
        ;
        assert(weights@[t as int] * w == v * (width as u64));
        if v * (width as u64) > 0xffff_ffff {
            assert(!(weights@[t as int] * w <= u32::MAX));
            return false;
        }
        t = t + 1;
    }
    // The sum of the row, times the width.
    assert(strip_row(weights@, w, r as int) == weights@.subrange(start as int, start + width));
    match sum_within_u32(weights, start, width) {
        Some(sum) => {
            assert(sum * (width as u64) <= 0xffff_ffff * 0xffff_ffff) by (nonlinear_arith)
                requires
                    sum <= 0xffff_ffff,
                    width <= 0xffff_ffff,
            ;
            assert(seq_sum(strip_row(weights@, w, r as int)) * w == sum * (width as u64));
            sum * (width as u64) <= 0xffff_ffff
        },
        None => {
            assert(seq_sum(strip_row(weights@, w, r as int)) * w > u32::MAX) by (nonlinear_arith)
                requires
                    seq_sum(strip_row(weights@, w, r as int)) > u32::MAX,
                    w >= 1,
            ;
            false
        },
    }
}

/// Can the alias tables of `randomize_start_points` be built from these
/// weights (`start_points_tables_ok`), for points of which some are free
/// (`any_free`) or none?
pub fn start_points_tables_check(weights: &[u32], strips: &[u32], width: usize, any_free: bool) -> (r: bool)
    ensures
        r == start_points_tables_ok(weights@, strips@, width as int, any_free),
{
    let ghost w = width as int;
    let n = strips.len();
    if n as u64 > 0xffff_ffff {
        return false;
    }
    // Each strip weight, times the number of strips.
    let mut i: usize = 0;
    while i < n
        invariant
            i <= n,
            n == strips@.len(),
            n <= u32::MAX,
            forall|a: int| 0 <= a < i ==> #[trigger] strips@[a] * n <= u32::MAX,
        decreases n - i,
    {
        let v = strips[i] as u64;
        assert(v * (n as u64) <= 0xffff_ffff * 0xffff_ffff) by (nonlinear_arith)
            requires
                v <= 0xffff_ffff,
                n <= 0xffff_ffff,
        ;
        assert(strips@[i as int] * n == v * (n as u64));
        if v * (n as u64) > 0xffff_ffff {
            assert(!(strips@[i as int] * strips@.len() <= u32::MAX));
            return false;
        }
        i = i + 1;
    }
    // The sum of the strip weights, times the number of strips.
    proof {
        assert(strips@.subrange(0, n as int) =~= strips@);
    }
    let total = match sum_within_u32(strips, 0, n) {
        Some(total) => {
            assert(total * (n as u64) <= 0xffff_ffff * 0xffff_ffff) by (nonlinear_arith)
                requires
                    total <= 0xffff_ffff,
                    n <= 0xffff_ffff,
            ;
            assert(seq_sum(strips@) * n == total * (n as u64));
            if total * (n as u64) > 0xffff_ffff {
                return false;
            }
            total
        },
        None => {
            if n == 0 {
                assert(strips@ =~= Seq::<u32>::empty());
            }
            assert(seq_sum(strips@) * n > u32::MAX) by (nonlinear_arith)
                requires
                    seq_sum(strips@) > u32::MAX,
                    n >= 1,
            ;
            return false;
        },
    };
    if !any_free {
        return true;
    }
    if width == 0 || width as u64 > 0xffff_ffff || n == 0 {
        return false;
    }
    // The table of each strip that can be drawn.
    let mut r: usize = 0;
    while r < n
        invariant
            r <= n,
            n == strips@.len(),
            total == seq_sum(strips@),
            any_free,
            w == width,
            0 < width <= u32::MAX,
            forall|a: int| 0 <= a < r && #[trigger] row_drawable(strips@, a) ==> row_table_ok(weights@, w, a),
        decreases n - r,
    {
        if total == 0 || strips[r] > 0 {
            assert(row_drawable(strips@, r as int));
            if !row_table_check(weights, r, width) {
                assert(!row_table_ok(weights@, w, r as int));
                assert(!start_points_tables_ok(weights@, strips@, w, any_free));
                return false;
            }
        }
        r = r + 1;
    }
    assert forall|a: int| #[trigger] row_drawable(strips@, a) implies row_table_ok(weights@, w, a) by {}
    true
}

/// `randomize_start_points` where its alias tables can be built from the
/// weights; `None`, with `config` unchanged, where they cannot.
pub fn try_randomize_start_points(
    config: &mut AtlasSimConfig,
    rng: &mut StdRng,
    weights: &[u32],
    strip_weights: &[u32],
    width: usize,
) -> (r: Option<bool>)
    ensures
        r is None <==> !start_points_tables_ok(
            weights@,
            strip_weights@,
            width as int,
            has_free_point(old(config).scenario.start_points@),
        ),
        r is None ==> *final(config) == *old(config),
        r matches Some(success) ==> start_points_randomized(
            *old(config),
            *final(config),
            weights@,
            strip_weights@,
            width as int,
            success,
        ),
{
    let any_free = any_free_point(&config.scenario.start_points);
    if !start_points_tables_check(weights, strip_weights, width, any_free) {
        return None;
    }
    Some(randomize_start_points(config, rng, weights, strip_weights, width))
}

} // verus!
