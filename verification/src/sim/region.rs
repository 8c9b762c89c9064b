//! Regions: the land of a city, claimed tile by tile, and what the
//! simulation derives from its shape.
use vstd::prelude::*;
use vstd::std_specs::btree::increasing_seq;
use std::collections::{BTreeSet, HashMap, HashSet};
use crate::config::{AtlasConfig, lemma_border_tiles_fit, spec_border_tiles, spec_index_to_chunk};
use crate::sim::{Entity, SimMapData};
use crate::config::sim::{AtlasSimConfig, ClimateConfig, biome_index_ok, spec_get_biome};
use crate::domain::is_sea;

verus! {

broadcast use {vstd::std_specs::btree::group_btree_axioms, vstd::std_specs::hash::group_hash_axioms};

/// The tiles a set iterator lists in increasing order are listed by
/// increasing number.
proof fn lemma_increasing_tiles(s: Seq<&u32>)
    requires
        increasing_seq(s),
    ensures
        forall|i: int, j: int| 0 <= i < j < s.len() ==> *s[i] < *s[j],
{
    broadcast use vstd::laws_cmp::group_laws_cmp;

    assert(vstd::laws_cmp::obeys_cmp::<u32>());
    assert(vstd::laws_cmp::obeys_cmp::<&u32>());
    assert forall|i: int, j: int| 0 <= i < j < s.len() implies *s[i] < *s[j] by {
        assert(vstd::std_specs::cmp::OrdSpec::cmp_spec(&s[i], &s[j]) is Less);
    }

}

/// Marker of a city on the map.
#[derive(Clone, Copy, Debug, PartialEq, Eq, Default)]
pub struct City;

/// A region of a polity: its tiles and the bookkeeping derived from them.
/// Its fractional state (centroid, colour tint, deposits, population,
/// funds, development, structures and the like) is kept by the simulation
/// beside it.
pub struct Region {
    /// XYWH bounding box in map coordinates.
    pub xywh: [u32; 4],
    /// Visuals need to be updated due to color or shape changes.
    pub need_visual_update: bool,
    /// Map tile indices that this region owns.
    pub tiles: Vec<u32>,
    /// Map tile indices outside of the polity border.
    pub border_tiles: BTreeSet<u32>,
    /// Is there free land bordering this region?
    pub can_expand: bool,
    /// Is the region big enough to split?
    pub can_split_size: bool,
    /// Number of tiles owned in each resource chunk.
    pub resource_chunks: HashMap<u32, u16>,
    /// Owner polity.
    pub polity: Entity,
    /// City marker.
    pub city: Entity,
    /// Tile index of this region's city.
    pub city_position: u32,
    /// New city can be built here.
    pub split_tiles: BTreeSet<u32>,
}

/// The tiles are in increasing order.
pub open spec fn sorted(s: Seq<u32>) -> bool {
    forall|a: int, b: int| 0 <= a < b < s.len() ==> s[a] <= s[b]
}

/// `xywh` is the smallest box (x, y, width, height) of a map `w` tiles wide
/// that holds every tile of `tiles`.
pub open spec fn is_bounding_box(tiles: Seq<u32>, w: int, xywh: Seq<u32>) -> bool {
    let (x, y, bw, bh) = (xywh[0] as int, xywh[1] as int, xywh[2] as int, xywh[3] as int);
    &&& xywh.len() == 4
    &&& forall|i: int|
        0 <= i < tiles.len() ==> x <= #[trigger] (tiles[i] as int) % w < x + bw && y <= (tiles[i] as int) / w < y + bh
    &&& exists|i: int| 0 <= i < tiles.len() && #[trigger] (tiles[i] as int) % w == x
    &&& exists|i: int| 0 <= i < tiles.len() && #[trigger] (tiles[i] as int) % w == x + bw - 1
    &&& exists|i: int| 0 <= i < tiles.len() && #[trigger] (tiles[i] as int) / w == y
    &&& exists|i: int| 0 <= i < tiles.len() && #[trigger] (tiles[i] as int) / w == y + bh - 1
}

/// Every tile lies on the `w` x `h` map, whose tile count fits in a `u32`.
pub open spec fn tiles_on_map(tiles: Seq<u32>, world_size: (u32, u32)) -> bool {
    &&& world_size.0 > 0
    &&& world_size.0 * world_size.1 <= u32::MAX
    &&& forall|i: int| 0 <= i < tiles.len() ==> (#[trigger] tiles[i] as int) < world_size.0 * world_size.1
}

proof fn lemma_same_tiles_on_map(a: Seq<u32>, b: Seq<u32>, world_size: (u32, u32))
    requires
        a.to_multiset() == b.to_multiset(),
        tiles_on_map(b, world_size),
    ensures
        tiles_on_map(a, world_size),
{
    broadcast use vstd::seq_lib::group_to_multiset_ensures;

    assert forall|i: int| 0 <= i < a.len() implies (#[trigger] a[i] as int) < world_size.0 * world_size.1 by {
        assert(a.contains(a[i]));
        assert(a.to_multiset().count(a[i]) > 0);
        assert(b.to_multiset().count(a[i]) > 0);
        assert(b.contains(a[i]));
        let j = choose|j: int| 0 <= j < b.len() && b[j] == a[i];
    }
}

/// Sort tiles in increasing order.
fn sort_tiles(tiles: &mut Vec<u32>)
    ensures
        sorted(final(tiles)@),
        final(tiles)@.to_multiset() == old(tiles)@.to_multiset(),
{
    broadcast use vstd::seq_lib::group_to_multiset_ensures;

    let mut out: Vec<u32> = Vec::new();
    let mut i: usize = 0;
    while i < tiles.len()
        invariant
            i <= tiles@.len(),
            sorted(out@),
            out@.to_multiset() == tiles@.subrange(0, i as int).to_multiset(),
        decreases tiles@.len() - i,
    {
        let x = tiles[i];
        let mut p: usize = 0;
        while p < out.len() && out[p] <= x
            invariant
                p <= out@.len(),
                forall|a: int| 0 <= a < p ==> out@[a] <= x,
            decreases out@.len() - p,
        {
            p = p + 1;
        }
        let ghost before = out@;
        out.insert(p, x);
        proof {
            assert(tiles@.subrange(0, i + 1) =~= tiles@.subrange(0, i as int).push(x));
            vstd::seq_lib::to_multiset_insert(before, p as int, x);
            vstd::seq_lib::to_multiset_build(tiles@.subrange(0, i as int), x);
            assert forall|a: int, b: int| 0 <= a < b < out@.len() implies out@[a] <= out@[b] by {
                if a < p && b > p {
                    assert(out@[a] == before[a]);
                    assert(out@[b] == before[b - 1]);
                } else if a < p && b == p {
                    assert(out@[a] == before[a]);
                } else if a == p {
                    assert(out@[b] == before[b - 1]);
                    if p < before.len() {
                        assert(before[p as int] > x);
                        assert(before[p as int] <= before[b - 1]);
                    }
                } else if a > p {
                    assert(out@[a] == before[a - 1]);
                    assert(out@[b] == before[b - 1]);
                } else {
                    assert(out@[a] == before[a]);
                    assert(out@[b] == before[b]);
                }
            }
        }
        i = i + 1;
    }
    proof {
        assert(tiles@.subrange(0, tiles@.len() as int) =~= tiles@);
    }
    *tiles = out;
}

/// The tiles of `candidates` that map tile owners `owners` do not give to
/// region `this`.
pub open spec fn foreign_tiles(candidates: Set<u32>, owners: Seq<Option<Entity>>, this: Entity) -> Set<u32> {
    candidates.filter(|b: u32| owners[b as int] != Some(this))
}

/// Number of tiles a region owns in chunk `c`.
pub open spec fn chunk_count(m: Map<u32, u16>, c: u32) -> int {
    if m.contains_key(c) { m[c] as int } else { 0 }
}

proof fn lemma_push_to_set(s: Seq<u32>, x: u32)
    ensures
        s.push(x).to_set() == s.to_set().insert(x),
{
    assert forall|v: u32| s.push(x).to_set().contains(v) <==> s.to_set().insert(x).contains(v) by {
        if s.push(x).contains(v) && v != x {
            let i = choose|i: int| 0 <= i < s.push(x).len() && s.push(x)[i] == v;
            assert(s[i] == v);
        }
        if s.contains(v) {
            let i = choose|i: int| 0 <= i < s.len() && s[i] == v;
            assert(s.push(x)[i] == v);
        }
        if v == x {
            assert(s.push(x)[s.len() as int] == x);
        }
    }
    assert(s.push(x).to_set() =~= s.to_set().insert(x));
}

/// Position of map tile `t`, on a map `w` tiles wide, inside the box
/// `xywh`, counted row by row.
pub open spec fn box_index(w: int, xywh: Seq<u32>, t: int) -> int {
    (t / w - xywh[1]) * xywh[2] + (t % w - xywh[0])
}

/// Byte `j` of the RGBA image of `tiles` in the box `xywh`.
pub open spec fn mask_value(w: int, xywh: Seq<u32>, tiles: Seq<u32>, j: int) -> u8 {
    if exists|i: int| 0 <= i < tiles.len() && box_index(w, xywh, tiles[i] as int) == j / 4 {
        255
    } else {
        0
    }
}

/// The RGBA image of a region's shape inside its bounding box `xywh`: opaque
/// white on its tiles, transparent elsewhere.
pub open spec fn spec_region_mask(w: int, xywh: Seq<u32>, tiles: Seq<u32>) -> Seq<u8> {
    Seq::new((xywh[2] * xywh[3] * 4) as nat, |j: int| mask_value(w, xywh, tiles, j))
}

proof fn lemma_quarter(j: int, p: int)
    requires
        0 <= j,
        0 <= p,
    ensures
        (j / 4 == p) <==> (4 * p <= j < 4 * p + 4),
{
    vstd::arithmetic::div_mod::lemma_fundamental_div_mod(j, 4);
}

/// Add the tiles of `candidates` that `owners` does not give to region
/// `this` to `border`.
fn extend_border(border: &mut BTreeSet<u32>, candidates: &BTreeSet<u32>, owners: &Vec<Option<Entity>>, this: Entity)
    requires
        forall|b: u32| candidates@.contains(b) ==> (b as int) < owners@.len(),
    ensures
        final(border)@ == old(border)@.union(foreign_tiles(candidates@, owners@, this)),
{
    let ghost mut seen: Set<u32> = Set::empty();
    for b in it: candidates.iter()
        invariant
            forall|c: u32| candidates@.contains(c) ==> (c as int) < owners@.len(),
            it.seq().unref().to_set() == candidates@,
            seen == it.seq().subrange(0, it.index() as int).unref().to_set(),
            it.index() == it.seq().len() ==> seen == candidates@,
            border@ == old(border)@.union(foreign_tiles(seen, owners@, this)),
    {
        let ghost i = it.index();
        proof {
            assert(it.seq().unref()[i as int] == *b);
            assert(it.seq().unref().to_set().contains(*b));
        }
        let owner = owners[*b as usize];
        let is_ours = match owner {
            Some(e) => e.0 == this.0,
            None => false,
        };
        if !is_ours {
            border.insert(*b);
        }
        proof {
            seen = seen.insert(*b);
        }
        proof {
            let prev = it.seq().subrange(0, i as int).unref();
            let next = it.seq().subrange(0, i + 1).unref();
            assert(next =~= prev.push(*b));
            lemma_push_to_set(prev, *b);
            assert(border@ =~= old(border)@.union(foreign_tiles(seen, owners@, this)));
            assert(it.seq().subrange(0, i + 1).len() == i + 1);
            assert(i + 1 == it.seq().len() ==> it.seq().subrange(0, i + 1) =~= it.seq());
        }
    }
}

/// What a border tile weighs for expansion: nothing if a region owns it
/// or it is sea, else its biome's habitability in thousandths.
pub open spec fn expansion_weight(
    t: u32,
    tile_region: Seq<Option<Entity>>,
    conts: Seq<u8>,
    climate: Seq<u8>,
    biomes: ClimateConfig,
) -> u32 {
    if tile_region[t as int] is Some {
        0
    } else if conts[t as int] <= 127 {
        0
    } else {
        spec_get_biome(biomes, climate[t as int]).habitability_permille
    }
}

/// The expansion weight of tile `t` can be looked up: the tile is on the
/// maps, and if it is free land its climate names a biome.
pub open spec fn expansion_weight_ok(
    t: u32,
    tile_region: Seq<Option<Entity>>,
    conts: Seq<u8>,
    climate: Seq<u8>,
    biomes: ClimateConfig,
) -> bool {
    &&& (t as int) < tile_region.len()
    &&& (t as int) < conts.len()
    &&& (t as int) < climate.len()
    &&& tile_region[t as int] is None && conts[t as int] > 127 ==> biome_index_ok(biomes, climate[t as int])
}

/// Number of tiles of `tiles` in resource chunk `c`, for chunks of
/// `cs` tiles on a side on a map `w` tiles wide.
pub open spec fn chunk_occurrences(tiles: Seq<u32>, w: int, cs: int, c: u32) -> nat
    decreases tiles.len(),
{
    if tiles.len() == 0 {
        0
    } else {
        chunk_occurrences(tiles.drop_last(), w, cs, c) + if spec_index_to_chunk(w, tiles.last() as int, cs) == c {
            1nat
        } else {
            0nat
        }
    }
}

proof fn lemma_occurrences_prefix(tiles: Seq<u32>, k: int, w: int, cs: int, c: u32)
    requires
        0 <= k <= tiles.len(),
    ensures
        chunk_occurrences(tiles.take(k), w, cs, c) <= chunk_occurrences(tiles, w, cs, c),
    decreases tiles.len() - k,
{
    if k < tiles.len() {
        lemma_occurrences_prefix(tiles, k + 1, w, cs, c);
        assert(tiles.take(k + 1).drop_last() =~= tiles.take(k));
    } else {
        assert(tiles.take(k) =~= tiles);
    }
}

/// The border of a region of tiles `tiles`: the neighbours of its tiles
/// that `owners` does not give to the region `this`.
pub open spec fn border_of(tiles: Seq<u32>, w: int, h: int, owners: Seq<Option<Entity>>, this: Entity) -> Set<u32>
    decreases tiles.len(),
{
    if tiles.len() == 0 {
        Set::empty()
    } else {
        border_of(tiles.drop_last(), w, h, owners, this).union(
            foreign_tiles(spec_border_tiles(w, h, tiles.last() as int), owners, this),
        )
    }
}

proof fn lemma_border_of_on_map(tiles: Seq<u32>, w: u32, h: u32, owners: Seq<Option<Entity>>, this: Entity)
    requires
        w > 0,
        h > 0,
        forall|i: int| 0 <= i < tiles.len() ==> (#[trigger] tiles[i] as int) < w * h,
    ensures
        forall|t: u32| #[trigger] border_of(tiles, w as int, h as int, owners, this).contains(t) ==> (t as int) < w * h,
    decreases tiles.len(),
{
    if tiles.len() > 0 {
        let rest = tiles.drop_last();
        assert forall|i: int| 0 <= i < rest.len() implies (#[trigger] rest[i] as int) < w * h by {
            assert(rest[i] == tiles[i]);
        }
        lemma_border_of_on_map(rest, w, h, owners, this);
        let last = tiles.last();
        assert(tiles[tiles.len() - 1] == last);
        assert forall|t: u32| #[trigger] border_of(tiles, w as int, h as int, owners, this).contains(t) implies (t as int) < w * h by {
            if !border_of(rest, w as int, h as int, owners, this).contains(t) {
                crate::config::law_border_tiles_on_map(w, h, last, t);
            }
        }
    }
}

/// The bits of an entity that is present, and 0 for none.
pub open spec fn entity_bits(e: Option<Entity>) -> u64 {
    match e {
        Some(e) => e.0,
        None => 0,
    }
}

/// The tiles of `border` owned by a polity other than `own`, mapped from
/// polity to the regions owning them.
pub open spec fn spec_border_regions(
    border: Set<u32>,
    tile_polity: Seq<Option<Entity>>,
    tile_region: Seq<Option<Entity>>,
    own: Entity,
) -> Map<u64, Set<u64>> {
    Map::new(
        |p: u64|
            exists|t: u32| border.contains(t) && tile_polity[t as int] == Some(Entity(p)) && Entity(p) != own,
        |p: u64|
            Set::new(
                |r: u64|
                    exists|t: u32|
                        border.contains(t) && tile_polity[t as int] == Some(Entity(p)) && tile_region[t as int]
                            == Some(Entity(r)),
            ),
    )
}

proof fn lemma_border_regions_skip(
    seen: Set<u32>,
    t: u32,
    tile_polity: Seq<Option<Entity>>,
    tile_region: Seq<Option<Entity>>,
    own: Entity,
)
    requires
        tile_polity[t as int] is None || tile_polity[t as int] == Some(own),
    ensures
        spec_border_regions(seen.insert(t), tile_polity, tile_region, own) == spec_border_regions(
            seen,
            tile_polity,
            tile_region,
            own,
        ),
{
    let a = spec_border_regions(seen.insert(t), tile_polity, tile_region, own);
    let b = spec_border_regions(seen, tile_polity, tile_region, own);
    assert forall|p: u64| #[trigger] a.contains_key(p) == b.contains_key(p) by {
        if a.contains_key(p) {
            let u = choose|u: u32| seen.insert(t).contains(u) && tile_polity[u as int] == Some(Entity(p)) && Entity(p) != own;
            assert(u != t);
            assert(seen.contains(u));
        }
    }
    assert forall|p: u64| #[trigger] a.contains_key(p) implies a[p] =~= b[p] by {
        assert forall|r: u64| a[p].contains(r) <==> b[p].contains(r) by {
            if a[p].contains(r) {
                let u = choose|u: u32| seen.insert(t).contains(u) && tile_polity[u as int] == Some(Entity(p)) && tile_region[u as int] == Some(Entity(r));
                if u == t {
                    assert(b.contains_key(p));
                }
            }
        }
    }
    assert(a =~= b);
}

proof fn lemma_border_regions_add(
    seen: Set<u32>,
    t: u32,
    tile_polity: Seq<Option<Entity>>,
    tile_region: Seq<Option<Entity>>,
    own: Entity,
)
    requires
        tile_polity[t as int] matches Some(p) && p != own,
        tile_region[t as int] is Some,
    ensures
        ({
            let p = entity_bits(tile_polity[t as int]);
            let r = entity_bits(tile_region[t as int]);
            let b = spec_border_regions(seen, tile_polity, tile_region, own);
            spec_border_regions(seen.insert(t), tile_polity, tile_region, own) == b.insert(
                p,
                (if b.contains_key(p) { b[p] } else { Set::<u64>::empty() }).insert(r),
            )
        }),
{
    let p0 = entity_bits(tile_polity[t as int]);
    let r0 = entity_bits(tile_region[t as int]);
    let a = spec_border_regions(seen.insert(t), tile_polity, tile_region, own);
    let b = spec_border_regions(seen, tile_polity, tile_region, own);
    let c = b.insert(p0, (if b.contains_key(p0) { b[p0] } else { Set::<u64>::empty() }).insert(r0));
    assert(seen.insert(t).contains(t));
    assert forall|p: u64| #[trigger] a.contains_key(p) == c.contains_key(p) by {
        if a.contains_key(p) && p != p0 {
            let u = choose|u: u32| seen.insert(t).contains(u) && tile_polity[u as int] == Some(Entity(p)) && Entity(p) != own;
            assert(seen.contains(u));
        }
        if b.contains_key(p) {
            let u = choose|u: u32| seen.contains(u) && tile_polity[u as int] == Some(Entity(p)) && Entity(p) != own;
            assert(seen.insert(t).contains(u));
        }
        if p == p0 {
            assert(seen.insert(t).contains(t) && tile_polity[t as int] == Some(Entity(p)) && Entity(p) != own);
        }
    }
    assert forall|p: u64| #[trigger] a.contains_key(p) implies a[p] =~= c[p] by {
        assert forall|r: u64| a[p].contains(r) <==> c[p].contains(r) by {
            if a[p].contains(r) {
                let u = choose|u: u32| seen.insert(t).contains(u) && tile_polity[u as int] == Some(Entity(p)) && tile_region[u as int] == Some(Entity(r));
                if u != t {
                    assert(seen.contains(u));
                    assert(b.contains_key(p)) by {
                        if p != p0 {
                            assert(a.contains_key(p));
                            let v = choose|v: u32| seen.insert(t).contains(v) && tile_polity[v as int] == Some(Entity(p)) && Entity(p) != own;
                            assert(v != t);
                            assert(seen.contains(v));
                        } else {
                            assert(seen.contains(u) && tile_polity[u as int] == Some(Entity(p)) && Entity(p) != own);
                        }
                    }
                    assert(b[p].contains(r));
                }
            }
            if c[p].contains(r) {
                if p == p0 && r == r0 {
                    assert(seen.insert(t).contains(t) && tile_polity[t as int] == Some(Entity(p)) && tile_region[t as int] == Some(Entity(r)));
                } else {
                    assert(b.contains_key(p));
                    assert(b[p].contains(r));
                    let u = choose|u: u32| seen.contains(u) && tile_polity[u as int] == Some(Entity(p)) && tile_region[u as int] == Some(Entity(r));
                    assert(seen.insert(t).contains(u));
                }
            }
        }
    }
    assert(a =~= c);
}

proof fn lemma_nested_view_insert(m: Map<u64, HashSet<u64>>, k: u64, v: HashSet<u64>)
    ensures
        nested_view(m.remove(k).insert(k, v)) == nested_view(m).insert(k, v@),
{
    assert(nested_view(m.remove(k).insert(k, v)) =~= nested_view(m).insert(k, v@));
}

/// The map view of a polity-to-regions map.
pub open spec fn nested_view(m: Map<u64, HashSet<u64>>) -> Map<u64, Set<u64>> {
    Map::new(|p: u64| m.contains_key(p), |p: u64| m[p]@)
}

impl Region {
    /// Other polities that own border tiles of this region, and the regions
    /// of theirs that own them (by entity bits).
    pub fn get_border_regions(&self, extras: &SimMapData) -> (r: HashMap<u64, HashSet<u64>>)
        requires
            forall|t: u32|
                self.border_tiles@.contains(t) ==> (t as int) < extras.tile_polity@.len() && (t as int)
                    < extras.tile_region@.len(),
            forall|t: u32|
                self.border_tiles@.contains(t) && (#[trigger] extras.tile_polity@[t as int]) is Some
                    ==> extras.tile_region@[t as int] is Some,
        ensures
            nested_view(r@) == spec_border_regions(
                self.border_tiles@,
                extras.tile_polity@,
                extras.tile_region@,
                self.polity,
            ),
    {
        let ghost target = spec_border_regions(
            self.border_tiles@,
            extras.tile_polity@,
            extras.tile_region@,
            self.polity,
        );
        let mut map: HashMap<u64, HashSet<u64>> = HashMap::new();
        let ghost mut seen: Set<u32> = Set::empty();
        for tile in it: self.border_tiles.iter()
            invariant
                forall|t: u32|
                    self.border_tiles@.contains(t) ==> (t as int) < extras.tile_polity@.len() && (t as int)
                        < extras.tile_region@.len(),
                forall|t: u32|
                    self.border_tiles@.contains(t) && (#[trigger] extras.tile_polity@[t as int]) is Some
                        ==> extras.tile_region@[t as int] is Some,
                it.seq().unref().to_set() == self.border_tiles@,
                seen == it.seq().subrange(0, it.index() as int).unref().to_set(),
                it.index() == it.seq().len() ==> seen == self.border_tiles@,
                nested_view(map@) == spec_border_regions(seen, extras.tile_polity@, extras.tile_region@, self.polity),
        {
            let ghost i = it.index();
            let ghost prev_seen = seen;
            let ghost prev_map = map@;
            proof {
                assert(it.seq().unref()[i as int] == *tile);
                assert(it.seq().unref().to_set().contains(*tile));
            }
            proof {
                seen = seen.insert(*tile);
            }
            let t = *tile as usize;
            match extras.tile_polity[t] {
                Some(polity) => {
                    if polity.0 != self.polity.0 {
                        let region = match extras.tile_region[t] {
                            Some(region) => region,
                            None => polity,
                        };
                        let mut set = match map.remove(&polity.0) {
                            Some(set) => set,
                            None => HashSet::new(),
                        };
                        let ghost set0 = set@;
                        set.insert(region.0);
                        map.insert(polity.0, set);
                        proof {
                            let old_target = spec_border_regions(prev_seen, extras.tile_polity@, extras.tile_region@, self.polity);
                            assert(set0 == if old_target.contains_key(polity.0) { old_target[polity.0] } else { Set::<u64>::empty() }) by {
                                if prev_map.contains_key(polity.0) {
                                    assert(nested_view(prev_map).contains_key(polity.0));
                                } else {
                                    assert(!nested_view(prev_map).contains_key(polity.0));
                                }
                            }
                            lemma_border_regions_add(prev_seen, *tile, extras.tile_polity@, extras.tile_region@, self.polity);
                            lemma_nested_view_insert(prev_map, polity.0, set);
                            assert(map@ =~= prev_map.remove(polity.0).insert(polity.0, set));
                            assert(nested_view(prev_map.remove(polity.0).insert(polity.0, set)) =~= nested_view(prev_map).insert(polity.0, set@));
                        }
                    } else {
                        proof {
                            lemma_border_regions_skip(prev_seen, *tile, extras.tile_polity@, extras.tile_region@, self.polity);
                        }
                    }
                },
                None => {
                    proof {
                        lemma_border_regions_skip(prev_seen, *tile, extras.tile_polity@, extras.tile_region@, self.polity);
                    }
                },
            }
            proof {
                let prev = it.seq().subrange(0, i as int).unref();
                let next = it.seq().subrange(0, i + 1).unref();
                assert(next =~= prev.push(*tile));
                lemma_push_to_set(prev, *tile);
                assert(it.seq().subrange(0, i + 1).len() == i + 1);
                assert(i + 1 == it.seq().len() ==> it.seq().subrange(0, i + 1) =~= it.seq());
            }
        }
        map
    }

    /// Drop the split candidates that lie on a city border.
    pub fn update_can_split(&mut self, extras: &SimMapData)
        ensures
            final(self).split_tiles@ == old(self).split_tiles@.filter(|t: u32| !extras.city_borders@.contains(t)),
            final(self).tiles@ == old(self).tiles@,
            final(self).border_tiles@ == old(self).border_tiles@,
            final(self).resource_chunks@ == old(self).resource_chunks@,
            final(self).xywh@ == old(self).xywh@,
            final(self).can_expand == old(self).can_expand,
            final(self).can_split_size == old(self).can_split_size,
            final(self).need_visual_update == old(self).need_visual_update,
            final(self).polity == old(self).polity,
            final(self).city == old(self).city,
            final(self).city_position == old(self).city_position,
    {
        let mut kept: BTreeSet<u32> = BTreeSet::new();
        let ghost mut seen: Set<u32> = Set::empty();
        for t in it: self.split_tiles.iter()
            invariant
                it.seq().unref().to_set() == self.split_tiles@,
                seen == it.seq().subrange(0, it.index() as int).unref().to_set(),
                it.index() == it.seq().len() ==> seen == self.split_tiles@,
                kept@ == seen.filter(|u: u32| !extras.city_borders@.contains(u)),
        {
            let ghost i = it.index();
            let ghost prev_kept = kept@;
            let ghost prev_seen = seen;
            let inside = extras.city_borders.contains(t);
            if !inside {
                kept.insert(*t);
            }
            proof {
                assert(inside == extras.city_borders@.contains(*t));
                seen = seen.insert(*t);
                assert forall|v: u32| kept@.contains(v) <==> seen.filter(|u: u32| !extras.city_borders@.contains(u)).contains(v) by {
                    assert(prev_kept.contains(v) <==> prev_seen.filter(|u: u32| !extras.city_borders@.contains(u)).contains(v));
                }
                let prev = it.seq().subrange(0, i as int).unref();
                let next = it.seq().subrange(0, i + 1).unref();
                assert(next =~= prev.push(*t));
                lemma_push_to_set(prev, *t);
                assert(kept@ =~= seen.filter(|u: u32| !extras.city_borders@.contains(u)));
                assert(it.seq().subrange(0, i + 1).len() == i + 1);
                assert(i + 1 == it.seq().len() ==> it.seq().subrange(0, i + 1) =~= it.seq());
            }
        }
        self.split_tiles = kept;
    }

    /// Make the texture of the region's shape: an RGBA image of its bounding
    /// box, opaque white on its tiles and transparent elsewhere. The region is
    /// then drawn.
    pub fn update_visuals<C: AtlasConfig>(&mut self, config: &C) -> (data: Vec<u8>)
        requires
            config.world_size().0 > 0,
            is_bounding_box(old(self).tiles@, config.world_size().0 as int, old(self).xywh@),
            old(self).xywh[2] as int * old(self).xywh[3] as int * 4 <= usize::MAX,
        ensures
            data@ == spec_region_mask(config.world_size().0 as int, old(self).xywh@, old(self).tiles@),
            !final(self).need_visual_update,
            final(self).tiles@ == old(self).tiles@,
            final(self).border_tiles@ == old(self).border_tiles@,
            final(self).split_tiles@ == old(self).split_tiles@,
            final(self).resource_chunks@ == old(self).resource_chunks@,
            final(self).xywh@ == old(self).xywh@,
            final(self).can_expand == old(self).can_expand,
            final(self).can_split_size == old(self).can_split_size,
            final(self).polity == old(self).polity,
            final(self).city == old(self).city,
            final(self).city_position == old(self).city_position,
    {
        let (w, _) = config.get_world_size();
        let ghost wi = w as int;
        let ghost xywh = self.xywh@;
        let (x, y, width, height) = (self.xywh[0], self.xywh[1], self.xywh[2], self.xywh[3]);
        let n = width as usize * height as usize * 4;
        let mut data: Vec<u8> = vec![0u8; n];
        proof {
            assert forall|j: int| 0 <= j < n implies data@[j] == 0u8 by {
                assert(cloned(0u8, data@[j]));
            }
        }
        let mut k: usize = 0;
        while k < self.tiles.len()
            invariant
                wi == w,
                w > 0,
                xywh == self.xywh@,
                xywh.len() == 4,
                x == xywh[0],
                y == xywh[1],
                width == xywh[2],
                height == xywh[3],
                n == width * height * 4,
                k <= self.tiles@.len(),
                is_bounding_box(self.tiles@, wi, xywh),
                data@ == Seq::new(
                    n as nat,
                    |j: int| mask_value(wi, xywh, self.tiles@.take(k as int), j),
                ),
            decreases self.tiles@.len() - k,
        {
            let t = self.tiles[k];
            let ghost prev = data@;
            proof {
                assert(x <= (t as int) % wi < x + width && y <= (t as int) / wi < y + height);
            }
            let row = (t / w - y) as usize;
            let col = (t % w - x) as usize;
            proof {
                assert(row * width + col < width * height) by (nonlinear_arith)
                    requires
                        0 <= row < height,
                        0 <= col < width,
                ;
            }
            let p = row * width as usize + col;
            proof {
                assert(p == box_index(wi, xywh, t as int));
            }
            let i = p * 4;
            data.set(i, 255);
            data.set(i + 1, 255);
            data.set(i + 2, 255);
            data.set(i + 3, 255);
            proof {
                let before = self.tiles@.take(k as int);
                let after = self.tiles@.take(k + 1);
                assert(after =~= before.push(t));
                assert forall|j: int| 0 <= j < n implies data@[j] == mask_value(wi, xywh, after, j) by {
                    lemma_quarter(j, p as int);
                    if j / 4 == p {
                        assert(after[k as int] == t);
                    } else {
                        assert(data@[j] == prev[j]);
                        if exists|q: int| 0 <= q < after.len() && box_index(wi, xywh, after[q] as int) == j / 4 {
                            let q = choose|q: int| 0 <= q < after.len() && box_index(wi, xywh, after[q] as int) == j / 4;
                            assert(q < k);
                            assert(before[q] == after[q]);
                        }
                        if exists|q: int| 0 <= q < before.len() && box_index(wi, xywh, before[q] as int) == j / 4 {
                            let q = choose|q: int| 0 <= q < before.len() && box_index(wi, xywh, before[q] as int) == j / 4;
                            assert(before[q] == after[q]);
                        }
                    }
                }
                assert(data@ =~= Seq::new(n as nat, |j: int| mask_value(wi, xywh, after, j)));
            }
            k = k + 1;
        }
        proof {
            assert(self.tiles@.take(self.tiles@.len() as int) =~= self.tiles@);
        }
        self.need_visual_update = false;
        data
    }

    /// Weigh the border tiles for expansion, in the order the border set
    /// lists them: a tile owned by a region, or of the sea, weighs
    /// nothing, other land weighs its biome's habitability (in
    /// thousandths). The region can expand when some tile weighs more
    /// than a tenth.
    pub fn update_expansion(
        &mut self,
        config: &AtlasSimConfig,
        extras: &SimMapData,
        conts: &[u8],
        climate: &[u8],
    ) -> (weights: Vec<u32>)
        requires
            forall|t: u32|
                #[trigger] old(self).border_tiles@.contains(t) ==> expansion_weight_ok(
                    t,
                    extras.tile_region@,
                    conts@,
                    climate@,
                    config.climate,
                ),
        ensures
            exists|listing: Seq<u32>|
                {
                    &&& forall|i: int, j: int| 0 <= i < j < listing.len() ==> listing[i] < listing[j]
                    &&& listing.to_set() == old(self).border_tiles@
                    &&& listing.len() == weights@.len()
                    &&& forall|i: int|
                        0 <= i < listing.len() ==> weights@[i] == #[trigger] expansion_weight(
                            listing[i],
                            extras.tile_region@,
                            conts@,
                            climate@,
                            config.climate,
                        )
                },
            final(self).can_expand == exists|t: u32|
                old(self).border_tiles@.contains(t) && #[trigger] expansion_weight(
                    t,
                    extras.tile_region@,
                    conts@,
                    climate@,
                    config.climate,
                ) > 100,
            final(self).tiles@ == old(self).tiles@,
            final(self).border_tiles@ == old(self).border_tiles@,
            final(self).split_tiles@ == old(self).split_tiles@,
            final(self).resource_chunks@ == old(self).resource_chunks@,
            final(self).xywh@ == old(self).xywh@,
            final(self).can_split_size == old(self).can_split_size,
            final(self).need_visual_update == old(self).need_visual_update,
            final(self).polity == old(self).polity,
            final(self).city == old(self).city,
            final(self).city_position == old(self).city_position,
    {
        let mut weights: Vec<u32> = Vec::new();
        let mut best: u32 = 0;
        let ghost mut listing: Seq<u32> = Seq::empty();
        for tile in it: self.border_tiles.iter()
            invariant
                forall|t: u32|
                    #[trigger] self.border_tiles@.contains(t) ==> expansion_weight_ok(
                    t,
                    extras.tile_region@,
                    conts@,
                    climate@,
                    config.climate,
                ),
                it.seq().unref().to_set() == self.border_tiles@,
                it.seq().unref().no_duplicates(),
                increasing_seq(it.seq()),
                forall|a: int, b: int| 0 <= a < b < listing.len() ==> listing[a] < listing[b],
                listing == it.seq().unref().take(it.index() as int),
                it.index() == it.seq().len() ==> listing.to_set() == self.border_tiles@ && listing.no_duplicates(),
                weights@.len() == listing.len(),
                forall|i: int|
                    0 <= i < listing.len() ==> weights@[i] == #[trigger] expansion_weight(
                        listing[i],
                        extras.tile_region@,
                        conts@,
                        climate@,
                        config.climate,
                    ),
                forall|i: int| 0 <= i < weights@.len() ==> weights@[i] <= best,
                weights@.len() == 0 ==> best == 0,
                weights@.len() > 0 ==> exists|i: int| 0 <= i < weights@.len() && weights@[i] == best,
        {
            let ghost i = it.index();
            proof {
                assert(it.seq().unref()[i as int] == *tile);
                assert(it.seq().unref().to_set().contains(*tile));
            }
            let t = *tile as usize;
            let weight = match extras.tile_region[t] {
                Some(_) => 0,
                None => {
                    if is_sea(conts[t]) {
                        0
                    } else {
                        config.get_biome(climate[t]).habitability_permille
                    }
                },
            };
            let ghost prev = weights@;
            let ghost old_best = best;
            weights.push(weight);
            if weight > best {
                best = weight;
            }
            proof {
                listing = listing.push(*tile);
                assert(listing =~= it.seq().unref().take(i + 1));
                lemma_increasing_tiles(it.seq());
                assert forall|a: int, b: int| 0 <= a < b < listing.len() implies listing[a] < listing[b] by {
                    assert(listing[a] == *it.seq()[a] && listing[b] == *it.seq()[b]);
                }
                assert(i + 1 == it.seq().len() ==> listing =~= it.seq().unref());
                if prev.len() > 0 && weight <= old_best {
                    let j = choose|j: int| 0 <= j < prev.len() && prev[j] == old_best;
                    assert(weights@[j] == best);
                }
                assert(weights@[prev.len() as int] == weight);
            }
        }
        proof {
            let s = listing;
            if exists|t: u32| self.border_tiles@.contains(t) && #[trigger] expansion_weight(
                t,
                extras.tile_region@,
                conts@,
                climate@,
                config.climate,
            ) > 100 {
                let t = choose|t: u32| self.border_tiles@.contains(t) && #[trigger] expansion_weight(
                    t,
                    extras.tile_region@,
                    conts@,
                    climate@,
                    config.climate,
                ) > 100;
                assert(s.to_set().contains(t));
                let j = choose|j: int| 0 <= j < s.len() && s[j] == t;
                assert(weights@[j] > 100);
            }
            if weights@.len() > 0 && best > 100 {
                let j = choose|j: int| 0 <= j < weights@.len() && weights@[j] == best;
                assert(s.contains(listing[j]));
                assert(self.border_tiles@.contains(listing[j]));
                assert(weights@[j] == expansion_weight(listing[j], extras.tile_region@, conts@, climate@, config.climate));
            }
        }
        self.can_expand = weights.len() > 0 && best > 100;
        weights
    }

    /// Give the region (entity `this`) the tiles `tiles` anew: its border,
    /// resource chunk counts, expansion, split candidates and bounding box
    /// are made from them, and it is redrawn.
    pub fn reset_tiles(
        &mut self,
        this: Entity,
        tiles: Vec<u32>,
        config: &AtlasSimConfig,
        extras: &SimMapData,
        conts: &[u8],
        climate: &[u8],
        chunk_size: u32,
        min_split_size: u32,
    )
        requires
            tiles@.len() > 0,
            tiles@.len() <= u32::MAX,
            tiles_on_map(tiles@, config.world_size()),
            config.world_size().0 > 0,
            config.world_size().1 > 0,
            config.world_size().0 * config.world_size().1 <= u32::MAX,
            chunk_size > 0,
            extras.tile_region@.len() >= config.world_size().0 * config.world_size().1,
            conts@.len() >= config.world_size().0 * config.world_size().1,
            climate@.len() >= config.world_size().0 * config.world_size().1,
            forall|t: u32|
                #[trigger] border_of(
                    tiles@,
                    config.world_size().0 as int,
                    config.world_size().1 as int,
                    extras.tile_region@,
                    this,
                ).contains(t) && extras.tile_region@[t as int] is None && conts@[t as int] > 127
                    ==> biome_index_ok(config.climate, climate@[t as int]),
            forall|t: u32|
                (t as int) < config.world_size().0 * config.world_size().1 ==> spec_index_to_chunk(
                    config.world_size().0 as int,
                    t as int,
                    chunk_size as int,
                ) <= u32::MAX,
            forall|c: u32|
                #[trigger] chunk_occurrences(tiles@, config.world_size().0 as int, chunk_size as int, c)
                    < u16::MAX,
        ensures
            final(self).border_tiles@ == border_of(
                tiles@,
                config.world_size().0 as int,
                config.world_size().1 as int,
                extras.tile_region@,
                this,
            ),
            forall|c: u32|
                #[trigger] chunk_count(final(self).resource_chunks@, c) == chunk_occurrences(
                    tiles@,
                    config.world_size().0 as int,
                    chunk_size as int,
                    c,
                ),
            forall|c: u32|
                #[trigger] final(self).resource_chunks@.contains_key(c) <==> chunk_occurrences(
                    tiles@,
                    config.world_size().0 as int,
                    chunk_size as int,
                    c,
                ) > 0,
            sorted(final(self).tiles@),
            final(self).tiles@.to_multiset() == tiles@.to_multiset(),
            is_bounding_box(final(self).tiles@, config.world_size().0 as int, final(self).xywh@),
            final(self).can_expand == exists|t: u32|
                final(self).border_tiles@.contains(t) && #[trigger] expansion_weight(
                    t,
                    extras.tile_region@,
                    conts@,
                    climate@,
                    config.climate,
                ) > 100,
            final(self).can_split_size == (tiles@.len() > min_split_size),
            final(self).split_tiles@ == tiles@.to_set().filter(|t: u32| !extras.city_borders@.contains(t)),
            final(self).need_visual_update,
            final(self).polity == old(self).polity,
            final(self).city == old(self).city,
            final(self).city_position == old(self).city_position,
    {
        let ghost w = config.world_size().0 as int;
        let ghost h = config.world_size().1 as int;
        // Clear old data.
        self.border_tiles.clear();
        self.resource_chunks.clear();
        let mut k: usize = 0;
        while k < tiles.len()
            invariant
                w == config.world_size().0,
                h == config.world_size().1,
                w > 0,
                h > 0,
                w * h <= u32::MAX,
                chunk_size > 0,
                tiles_on_map(tiles@, config.world_size()),
                extras.tile_region@.len() >= w * h,
                forall|t: u32| (t as int) < w * h ==> spec_index_to_chunk(w, t as int, chunk_size as int) <= u32::MAX,
                forall|c: u32| #[trigger] chunk_occurrences(tiles@, w, chunk_size as int, c) < u16::MAX,
                k <= tiles@.len(),
                self.border_tiles@ == border_of(tiles@.take(k as int), w, h, extras.tile_region@, this),
                forall|c: u32|
                    #[trigger] chunk_count(self.resource_chunks@, c) == chunk_occurrences(
                        tiles@.take(k as int),
                        w,
                        chunk_size as int,
                        c,
                    ),
                forall|c: u32|
                    #[trigger] self.resource_chunks@.contains_key(c) <==> chunk_occurrences(
                        tiles@.take(k as int),
                        w,
                        chunk_size as int,
                        c,
                    ) > 0,
                self.polity == old(self).polity,
                self.city == old(self).city,
                self.city_position == old(self).city_position,
            decreases tiles@.len() - k,
        {
            let tile = tiles[k];
            let ghost before = self.resource_chunks@;
            let ghost prefix = tiles@.take(k as int);
            let ghost next = tiles@.take(k + 1);
            proof {
                assert(next.drop_last() =~= prefix);
                assert(next.last() == tile);
                let c = spec_index_to_chunk(w, tile as int, chunk_size as int) as u32;
                lemma_occurrences_prefix(tiles@, k + 1, w, chunk_size as int, c);
                assert(chunk_occurrences(next, w, chunk_size as int, c) == chunk_occurrences(prefix, w, chunk_size as int, c) + 1);
            }
            // Update resource chunk coverage.
            let (chunk, _) = self.update_chunk_coverage(config, tile, chunk_size);
            // Update region borders.
            proof {
                lemma_border_tiles_fit(config.world_size().0 as int, config.world_size().1 as int, tile as int);
            }
            let borders = config.get_border_tiles(tile);
            proof {
                assert forall|b: u32| borders@.contains(b) implies (b as int) < extras.tile_region@.len() by {
                    crate::config::law_border_tiles_on_map(
                        config.world_size().0,
                        config.world_size().1,
                        tile,
                        b,
                    );
                }
            }
            extend_border(&mut self.border_tiles, &borders, &extras.tile_region, this);
            proof {
                assert forall|c: u32| #[trigger] chunk_count(self.resource_chunks@, c) == chunk_occurrences(
                    next,
                    w,
                    chunk_size as int,
                    c,
                ) by {
                    assert(chunk_count(before, c) == chunk_occurrences(prefix, w, chunk_size as int, c));
                }
                assert forall|c: u32| #[trigger] self.resource_chunks@.contains_key(c) <==> chunk_occurrences(
                    next,
                    w,
                    chunk_size as int,
                    c,
                ) > 0 by {
                    assert(before.contains_key(c) <==> chunk_occurrences(prefix, w, chunk_size as int, c) > 0);
                }
            }
            k = k + 1;
        }
        proof {
            assert(tiles@.take(tiles@.len() as int) =~= tiles@);
        }
        // Assign tiles, check if the region can expand or split.
        let n = tiles.len();
        let ghost tiles0 = tiles@;
        proof {
            lemma_border_of_on_map(tiles@, config.world_size().0, config.world_size().1, extras.tile_region@, this);
        }
        self.tiles = tiles;
        self.update_expansion(config, extras, conts, climate);
        self.can_split_size = n as u32 > min_split_size;
        let mut split: BTreeSet<u32> = BTreeSet::new();
        let mut j: usize = 0;
        while j < self.tiles.len()
            invariant
                self.tiles@ == tiles0,
                j <= tiles0.len(),
                split@ == tiles0.take(j as int).to_set().filter(|t: u32| !extras.city_borders@.contains(t)),
            decreases tiles0.len() - j,
        {
            let t = self.tiles[j];
            if !extras.city_borders.contains(&t) {
                split.insert(t);
            }
            proof {
                assert(tiles0.take(j + 1) =~= tiles0.take(j as int).push(t));
                lemma_push_to_set(tiles0.take(j as int), t);
                assert(split@ =~= tiles0.take(j + 1).to_set().filter(|u: u32| !extras.city_borders@.contains(u)));
            }
            j = j + 1;
        }
        proof {
            assert(tiles0.take(tiles0.len() as int) =~= tiles0);
        }
        self.split_tiles = split;
        // Recalculate the bounding box.
        self.update_xywh(config);
        self.need_visual_update = true;
    }

    pub fn new(polity: Entity, city: Entity, city_position: u32) -> (r: Self)
        ensures
            r.xywh@ == seq![0u32, 0u32, 1u32, 1u32],
            r.need_visual_update,
            r.tiles@.len() == 0,
            r.border_tiles@ == Set::<u32>::empty(),
            r.resource_chunks@ == Map::<u32, u16>::empty(),
            r.city_position == city_position,
            !r.can_expand,
            !r.can_split_size,
            r.split_tiles@ == Set::<u32>::empty(),
            r.polity == polity,
            r.city == city,
    {
        Self {
            xywh: [0, 0, 1, 1],
            need_visual_update: true,
            tiles: Vec::new(),
            border_tiles: BTreeSet::new(),
            resource_chunks: HashMap::new(),
            city_position,
            can_expand: false,
            can_split_size: false,
            split_tiles: BTreeSet::new(),
            polity,
            city,
        }
    }

    /// A region can split when it is big enough and has room for a city.
    pub fn can_split(&self) -> (r: bool)
        ensures
            r == (self.can_split_size && !self.split_tiles@.is_empty()),
    {
        self.can_split_size && !self.split_tiles.is_empty()
    }

    /// Count tile `tile` in its resource chunk; returns the chunk and the
    /// number of tiles of the region in it.
    fn update_chunk_coverage<C: AtlasConfig>(&mut self, config: &C, tile: u32, chunk_size: u32) -> (r: (u32, u16))
        requires
            config.world_size().0 > 0,
            chunk_size > 0,
            spec_index_to_chunk(config.world_size().0 as int, tile as int, chunk_size as int) <= u32::MAX,
            chunk_count(
                old(self).resource_chunks@,
                spec_index_to_chunk(config.world_size().0 as int, tile as int, chunk_size as int) as u32,
            ) < u16::MAX,
        ensures
            r.0 == spec_index_to_chunk(config.world_size().0 as int, tile as int, chunk_size as int),
            r.1 == chunk_count(old(self).resource_chunks@, r.0) + 1,
            final(self).resource_chunks@ == old(self).resource_chunks@.insert(r.0, r.1),
            final(self).xywh == old(self).xywh,
            final(self).need_visual_update == old(self).need_visual_update,
            final(self).tiles@ == old(self).tiles@,
            final(self).border_tiles@ == old(self).border_tiles@,
            final(self).can_expand == old(self).can_expand,
            final(self).can_split_size == old(self).can_split_size,
            final(self).polity == old(self).polity,
            final(self).city == old(self).city,
            final(self).city_position == old(self).city_position,
            final(self).split_tiles@ == old(self).split_tiles@,
    {
        let chunk = config.index_to_chunk(tile, chunk_size);
        let coverage: u16 = match self.resource_chunks.get(&chunk) {
            Some(c) => *c + 1,
            None => 1,
        };
        self.resource_chunks.insert(chunk, coverage);
        (chunk, coverage)
    }

    /// Claim tile `tile` for this region (entity `this`): the map records the
    /// region and its polity as the tile's owners, the tile joins the region
    /// and leaves its border, the tile's neighbours not owned by this region
    /// join the border, the tile counts in its resource chunk, and a tile
    /// outside city borders becomes a place for a new city. Returns the
    /// resource chunk of the tile and the region's tile count in it.
    pub fn claim_tile<C: AtlasConfig>(
        &mut self,
        this: Entity,
        tile: u32,
        extras: &mut SimMapData,
        config: &C,
        chunk_size: u32,
        min_split_size: u32,
    ) -> (r: (u32, u16))
        requires
            tiles_on_map(old(self).tiles@.push(tile), config.world_size()),
            config.world_size().1 > 0,
            old(extras).tile_region@.len() >= config.world_size().0 * config.world_size().1,
            old(extras).tile_polity@.len() >= config.world_size().0 * config.world_size().1,
            old(self).tiles@.len() < u32::MAX,
            chunk_size > 0,
            spec_index_to_chunk(config.world_size().0 as int, tile as int, chunk_size as int) <= u32::MAX,
            chunk_count(
                old(self).resource_chunks@,
                spec_index_to_chunk(config.world_size().0 as int, tile as int, chunk_size as int) as u32,
            ) < u16::MAX,
        ensures
            final(extras).tile_region@ == old(extras).tile_region@.update(tile as int, Some(this)),
            final(extras).tile_polity@ == old(extras).tile_polity@.update(tile as int, Some(old(self).polity)),
            final(extras).city_borders@ == old(extras).city_borders@,
            final(extras).conflicts@ == old(extras).conflicts@,
            final(extras).conflict_counter == old(extras).conflict_counter,
            final(extras).war_map.view() == old(extras).war_map.view(),
            sorted(final(self).tiles@),
            final(self).tiles@.to_multiset() == old(self).tiles@.to_multiset().insert(tile),
            is_bounding_box(final(self).tiles@, config.world_size().0 as int, final(self).xywh@),
            final(self).border_tiles@ == old(self).border_tiles@.remove(tile).union(
                foreign_tiles(
                    spec_border_tiles(config.world_size().0 as int, config.world_size().1 as int, tile as int),
                    final(extras).tile_region@,
                    this,
                ),
            ),
            r.0 == spec_index_to_chunk(config.world_size().0 as int, tile as int, chunk_size as int),
            r.1 == chunk_count(old(self).resource_chunks@, r.0) + 1,
            final(self).resource_chunks@ == old(self).resource_chunks@.insert(r.0, r.1),
            final(self).can_split_size == (old(self).tiles@.len() + 1 > min_split_size),
            final(self).split_tiles@ == if old(extras).city_borders@.contains(tile) {
                old(self).split_tiles@
            } else {
                old(self).split_tiles@.insert(tile)
            },
            final(self).need_visual_update,
            final(self).can_expand == old(self).can_expand,
            final(self).polity == old(self).polity,
            final(self).city == old(self).city,
            final(self).city_position == old(self).city_position,
    {
        broadcast use vstd::seq_lib::group_to_multiset_ensures;

        proof {
            assert(old(self).tiles@.push(tile)[old(self).tiles@.len() as int] == tile);
        }
        self.border_tiles.remove(&tile);
        extras.tile_region.set(tile as usize, Some(this));
        extras.tile_polity.set(tile as usize, Some(self.polity));
        self.tiles.push(tile);
        // Recalculate xywh.
        self.update_xywh(config);
        // Update region borders.
        proof {
            lemma_border_tiles_fit(config.world_size().0 as int, config.world_size().1 as int, tile as int);
        }
        let borders = config.get_border_tiles(tile);
        proof {
            assert forall|b: u32| borders@.contains(b) implies (b as int) < extras.tile_region@.len() by {
                crate::config::law_border_tiles_on_map(
                    config.world_size().0,
                    config.world_size().1,
                    tile,
                    b,
                );
            }
        }
        extend_border(&mut self.border_tiles, &borders, &extras.tile_region, this);
        // Update resource chunk coverage.
        let chunk_coverage = self.update_chunk_coverage(config, tile, chunk_size);
        // Check if the region is big and spacious enough to split.
        proof {
            assert(self.tiles@.to_multiset().len() == old(self).tiles@.to_multiset().len() + 1);
            assert(self.tiles@.len() == old(self).tiles@.len() + 1);
        }
        self.can_split_size = self.tiles.len() as u32 > min_split_size;
        if !extras.city_borders.contains(&tile) {
            self.split_tiles.insert(tile);
        }
        // Mark to redraw.
        self.need_visual_update = true;
        chunk_coverage
    }

    /// Sort the tiles and recalculate the bounding box.
    fn update_xywh<C: AtlasConfig>(&mut self, config: &C)
        requires
            old(self).tiles@.len() > 0,
            tiles_on_map(old(self).tiles@, config.world_size()),
        ensures
            tiles_on_map(final(self).tiles@, config.world_size()),
            sorted(final(self).tiles@),
            final(self).tiles@.to_multiset() == old(self).tiles@.to_multiset(),
            is_bounding_box(final(self).tiles@, config.world_size().0 as int, final(self).xywh@),
            final(self).need_visual_update == old(self).need_visual_update,
            final(self).border_tiles@ == old(self).border_tiles@,
            final(self).can_expand == old(self).can_expand,
            final(self).can_split_size == old(self).can_split_size,
            final(self).resource_chunks@ == old(self).resource_chunks@,
            final(self).polity == old(self).polity,
            final(self).city == old(self).city,
            final(self).city_position == old(self).city_position,
            final(self).split_tiles@ == old(self).split_tiles@,
    {
        broadcast use vstd::seq_lib::group_to_multiset_ensures;

        sort_tiles(&mut self.tiles);
        proof {
            lemma_same_tiles_on_map(self.tiles@, old(self).tiles@, config.world_size());
        }
        proof {
            assert(self.tiles@.len() > 0) by {
                assert(old(self).tiles@.to_multiset().count(old(self).tiles@[0]) > 0);
            }
        }
        let (width, _) = config.get_world_size();
        let ghost w = width as int;
        let n = self.tiles.len();
        let (first, last) = (self.tiles[0], self.tiles[n - 1]);
        let mut min = width;
        let mut max: u32 = 0;
        let ghost mut imin: int = 0;
        let ghost mut imax: int = 0;
        let mut k: usize = 0;
        while k < n
            invariant
                k <= n,
                n == self.tiles@.len(),
                n > 0,
                w == width,
                width > 0,
                min <= width,
                k > 0 ==> 0 <= imin < k && (self.tiles@[imin] as int) % w == min,
                k > 0 ==> 0 <= imax < k && (self.tiles@[imax] as int) % w == max,
                k == 0 ==> min == width && max == 0,
                forall|i: int| 0 <= i < k ==> min <= #[trigger] (self.tiles@[i] as int) % w <= max,
            decreases n - k,
        {
            let v = self.tiles[k] % width;
            if k == 0 || v < min {
                min = v;
                proof { imin = k as int; }
            }
            if k == 0 || v > max {
                max = v;
                proof { imax = k as int; }
            }
            k = k + 1;
        }
        proof {
            assert(self.tiles@[0] <= self.tiles@[n - 1]);
            assert forall|i: int| 0 <= i < n implies (first as int) / w <= #[trigger] (self.tiles@[i] as int) / w <= (last as int) / w by {
                assert(first <= self.tiles@[i] <= last);
                vstd::arithmetic::div_mod::lemma_div_is_ordered(first as int, self.tiles@[i] as int, w);
                vstd::arithmetic::div_mod::lemma_div_is_ordered(self.tiles@[i] as int, last as int, w);
            }
        }
        proof {
            let h = config.world_size().1 as int;
            assert((last as int) < w * h);
            assert((last as int) / w < h) by (nonlinear_arith)
                requires
                    (last as int) < w * h,
                    w > 0,
            ;
        }
        let (x, y, w_box) = (min, first / width, max - min + 1);
        let h_box = last / width + 1 - y;
        self.xywh = [x, y, w_box, h_box];
        proof {
            assert((self.tiles@[imin] as int) % w == x);
            assert((self.tiles@[imax] as int) % w == x + w_box - 1);
            assert((self.tiles@[0] as int) / w == y);
            assert((self.tiles@[n - 1] as int) / w == y + h_box - 1);
        }
    }
}

} // verus!
