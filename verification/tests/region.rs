use atlas::config::sim::{AtlasSimConfig, BiomeConfig, ClimateConfig, GeneralConfig, ScenarioConfig};
use atlas::config::ClimatePreviewMode;
use atlas::sim::region::Region;
use atlas::sim::{Entity, SimMapData};
use std::collections::{HashMap, HashSet};

fn biome(name: &str, hab: u32) -> BiomeConfig {
    BiomeConfig { name: name.to_string(), color: [0, 0, 0], simple_color: [0, 0, 0], habitability_permille: hab }
}

fn config(w: u32, h: u32) -> AtlasSimConfig {
    AtlasSimConfig {
        general: GeneralConfig { world_size: [w, h] },
        scenario: ScenarioConfig::default(),
        climate: ClimateConfig {
            preview_mode: ClimatePreviewMode::DetailedColor,
            biomes: vec![biome("Barren", 50), biome("Forest", 600)],
            default_biome: biome("Default Biome", 1000),
        },
    }
}

fn extras(n: usize) -> SimMapData {
    let mut e = SimMapData::new();
    e.tile_region = vec![None; n];
    e.tile_polity = vec![None; n];
    e
}

#[test]
fn new_region_is_empty() {
    let r = Region::new(Entity(1), Entity(2), 17);
    assert_eq!(r.xywh, [0, 0, 1, 1]);
    assert!(r.need_visual_update);
    assert!(r.tiles.is_empty() && r.border_tiles.is_empty() && r.split_tiles.is_empty());
    assert!(r.resource_chunks.is_empty());
    assert_eq!(r.city_position, 17);
    assert!(!r.can_expand && !r.can_split_size && !r.can_split());
}

#[test]
fn claiming_tiles_grows_the_region() {
    let c = config(6, 4);
    let mut e = extras(24);
    e.city_borders.insert(8);
    let this = Entity(100);
    let mut r = Region::new(Entity(1), Entity(2), 8);
    let (chunk, cov) = r.claim_tile(this, 8, &mut e, &c, 3, 1);
    assert_eq!((chunk, cov), (0, 1));
    assert_eq!(e.tile_region[8], Some(this));
    assert_eq!(e.tile_polity[8], Some(Entity(1)));
    assert_eq!(r.border_tiles.iter().copied().collect::<Vec<_>>(), vec![2, 7, 9, 14]);
    assert!(r.split_tiles.is_empty());
    assert!(!r.can_split_size);
    let (chunk, cov) = r.claim_tile(this, 9, &mut e, &c, 3, 1);
    assert_eq!((chunk, cov), (1, 1));
    let (chunk, cov) = r.claim_tile(this, 14, &mut e, &c, 3, 1);
    assert_eq!((chunk, cov), (0, 2));
    assert_eq!(r.tiles, vec![8, 9, 14]);
    assert_eq!(r.xywh, [2, 1, 2, 2]);
    assert_eq!(r.border_tiles.iter().copied().collect::<Vec<_>>(), vec![2, 3, 7, 10, 13, 15, 20]);
    assert_eq!(r.split_tiles.iter().copied().collect::<Vec<_>>(), vec![9, 14]);
    assert!(r.can_split_size && r.can_split());
    assert_eq!(r.resource_chunks.get(&0), Some(&2));
    assert_eq!(r.resource_chunks.get(&1), Some(&1));
    assert!(r.need_visual_update);
}

#[test]
fn claimed_tiles_are_kept_sorted() {
    let c = config(5, 5);
    let mut e = extras(25);
    let mut r = Region::new(Entity(1), Entity(2), 12);
    for t in [12u32, 7, 13, 11, 2] {
        r.claim_tile(Entity(9), t, &mut e, &c, 5, 10);
    }
    assert_eq!(r.tiles, vec![2, 7, 11, 12, 13]);
    assert_eq!(r.xywh, [1, 0, 3, 3]);
}

#[test]
fn split_candidates_drop_city_borders() {
    let c = config(5, 5);
    let mut e = extras(25);
    let mut r = Region::new(Entity(1), Entity(2), 12);
    for t in [12u32, 13, 14] {
        r.claim_tile(Entity(9), t, &mut e, &c, 5, 0);
    }
    assert_eq!(r.split_tiles.len(), 3);
    e.city_borders.insert(13);
    e.city_borders.insert(12);
    r.update_can_split(&e);
    assert_eq!(r.split_tiles.iter().copied().collect::<Vec<_>>(), vec![14]);
    e.city_borders.insert(14);
    r.update_can_split(&e);
    assert!(r.split_tiles.is_empty());
    assert!(!r.can_split());
}

#[test]
fn texture_mask_marks_owned_pixels() {
    let c = config(5, 5);
    let mut e = extras(25);
    let mut r = Region::new(Entity(1), Entity(2), 12);
    for t in [12u32, 13, 18] {
        r.claim_tile(Entity(9), t, &mut e, &c, 5, 10);
    }
    assert_eq!(r.xywh, [2, 2, 2, 2]);
    let data = r.update_visuals(&c);
    assert!(!r.need_visual_update);
    let white = [255u8; 4];
    let clear = [0u8; 4];
    assert_eq!(data.len(), 16);
    assert_eq!(&data[0..4], &white);
    assert_eq!(&data[4..8], &white);
    assert_eq!(&data[8..12], &clear);
    assert_eq!(&data[12..16], &white);
}

#[test]
fn border_regions_by_foreign_polity() {
    let c = config(4, 4);
    let mut e = extras(16);
    let mut r = Region::new(Entity(1), Entity(2), 5);
    r.claim_tile(Entity(10), 5, &mut e, &c, 4, 10);
    // Tile 6 belongs to polity 3, region 30; tile 9 to polity 4, region 40;
    // tile 1 to our own polity.
    e.tile_polity[6] = Some(Entity(3));
    e.tile_region[6] = Some(Entity(30));
    e.tile_polity[9] = Some(Entity(4));
    e.tile_region[9] = Some(Entity(40));
    e.tile_polity[1] = Some(Entity(1));
    e.tile_region[1] = Some(Entity(11));
    let b = r.get_border_regions(&e);
    let mut expected: HashMap<u64, HashSet<u64>> = HashMap::new();
    expected.insert(3, [30u64].into_iter().collect());
    expected.insert(4, [40u64].into_iter().collect());
    assert_eq!(b, expected);
}

#[test]
fn expansion_weights_follow_land_and_owners() {
    let c = config(3, 3);
    let mut e = extras(9);
    let mut r = Region::new(Entity(1), Entity(2), 4);
    r.claim_tile(Entity(10), 4, &mut e, &c, 3, 10);
    // Border: 1, 3, 5, 7. Tile 1 is sea, tile 3 barren land, tile 5 forest,
    // tile 7 forest but owned.
    let conts = [255u8, 0, 255, 255, 255, 255, 255, 255, 255];
    let climate = [0u8, 1, 0, 0, 1, 1, 1, 1, 1];
    e.tile_region[7] = Some(Entity(77));
    let w = r.update_expansion(&c, &e, &conts, &climate);
    assert_eq!(w, vec![0, 50, 600, 0]);
    assert!(r.can_expand);
    // Only barren land left: too poor to expand into.
    e.tile_region[5] = Some(Entity(55));
    let w = r.update_expansion(&c, &e, &conts, &climate);
    assert_eq!(w, vec![0, 50, 0, 0]);
    assert!(!r.can_expand);
}

#[test]
fn reset_tiles_rebuilds_the_region() {
    let c = config(4, 4);
    let mut e = extras(16);
    let this = Entity(10);
    for t in [5usize, 6, 10] {
        e.tile_region[t] = Some(this);
    }
    e.city_borders.insert(5);
    let conts = [255u8; 16];
    let climate = [1u8; 16];
    let mut r = Region::new(Entity(1), Entity(2), 5);
    r.reset_tiles(this, vec![10, 5, 6], &c, &e, &conts, &climate, 2, 2);
    assert_eq!(r.tiles, vec![5, 6, 10]);
    assert_eq!(r.xywh, [1, 1, 2, 2]);
    assert_eq!(r.border_tiles.iter().copied().collect::<Vec<_>>(), vec![1, 2, 4, 7, 9, 11, 14]);
    assert_eq!(r.split_tiles.iter().copied().collect::<Vec<_>>(), vec![6, 10]);
    assert!(r.can_split_size);
    assert!(r.can_expand);
    assert!(r.need_visual_update);
    // 4 wide in chunks of 2: tile 5 is in chunk 0, 6 in chunk 1, 10 in chunk 3.
    let mut chunks: Vec<(u32, u16)> = r.resource_chunks.iter().map(|(k, v)| (*k, *v)).collect();
    chunks.sort();
    assert_eq!(chunks, vec![(0, 1), (1, 1), (3, 1)]);
}

#[test]
fn reset_tiles_counts_chunk_coverage() {
    let c = config(4, 4);
    let e = extras(16);
    let conts = [0u8; 16];
    let climate = [0u8; 16];
    let mut r = Region::new(Entity(1), Entity(2), 0);
    r.reset_tiles(Entity(10), vec![0, 1, 4, 5, 15], &c, &e, &conts, &climate, 2, 10);
    assert_eq!(r.resource_chunks.get(&0), Some(&4));
    assert_eq!(r.resource_chunks.get(&3), Some(&1));
    assert_eq!(r.resource_chunks.len(), 2);
    assert!(!r.can_split_size);
    assert!(!r.can_expand);
}
