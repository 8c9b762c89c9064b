use atlas::worldgen::{create_tilemap, fill_from, span_fill, Span, Tile, Tilemap};
use rand::rngs::StdRng;
use rand::SeedableRng;

fn tilemap(width: usize, height: usize) -> Tilemap {
    Tilemap { tiles: vec![Tile { idx: 0, set: false }; width * height], width, height }
}

fn marks(map: &Tilemap) -> String {
    let mut s = String::new();
    for y in 0..map.height {
        for x in 0..map.width {
            s.push(if map.tiles[y * map.width + x].set { '#' } else { '.' });
        }
        s.push('\n');
    }
    s
}

#[test]
fn fill_covers_an_open_map() {
    let mut map = tilemap(4, 3);
    fill_from(&mut map, &[true; 12], 1, 1, 5);
    assert_eq!(marks(&map), "####\n####\n####\n");
    assert!(map.tiles.iter().all(|t| t.idx == 5));
}

#[test]
fn fill_goes_around_holes() {
    let mut band = [true; 20];
    band[7] = false;
    band[12] = false;
    let mut map = tilemap(5, 4);
    fill_from(&mut map, &band, 0, 0, 1);
    assert_eq!(marks(&map), "#####\n##.##\n##.##\n#####\n");
    assert_eq!(map.tiles[7], Tile { idx: 0, set: false });
}

#[test]
fn fill_stays_on_its_island() {
    let band = [
        true, true, false, true, true, //
        true, true, false, true, true, //
        false, false, false, true, true,
    ];
    let mut map = tilemap(5, 3);
    fill_from(&mut map, &band, 0, 1, 3);
    assert_eq!(marks(&map), "##...\n##...\n.....\n");
    assert_eq!(map.tiles[6], Tile { idx: 3, set: true });
}

#[test]
fn fill_scans_a_lone_run_past_a_gap() {
    // A span that ends on a tile out of the band queues an empty span
    // below it; scanning that one marks the run to its left on the next
    // row, though that run does not touch the filled area.
    let band = [true, true, true, true, false, false, false, true, true];
    let mut map = tilemap(3, 3);
    fill_from(&mut map, &band, 0, 0, 2);
    assert_eq!(marks(&map), "###\n#..\n.#.\n");
}

#[test]
fn fill_can_leave_part_of_the_origin_row_open() {
    // The run of the origin's row is reached first from the row below, by
    // an empty span: its left part is marked, and the tile right of the
    // origin is never scanned again.
    let band = [true, true, true, false, true, true];
    let mut map = tilemap(2, 3);
    fill_from(&mut map, &band, 0, 2, 1);
    assert_eq!(marks(&map), "##\n#.\n#.\n");
    assert_eq!(map.tiles[5], Tile { idx: 0, set: false });
}

#[test]
fn fill_keeps_marked_tiles() {
    let mut map = tilemap(3, 1);
    map.tiles[2] = Tile { idx: 9, set: true };
    fill_from(&mut map, &[true; 3], 0, 0, 4);
    assert_eq!(map.tiles[0], Tile { idx: 4, set: true });
    assert_eq!(map.tiles[1], Tile { idx: 4, set: true });
    assert_eq!(map.tiles[2], Tile { idx: 9, set: true });
}

#[test]
fn span_fill_marks_only_open_band_tiles() {
    let mut band = [false; 36];
    for i in 0..36 {
        band[i] = (i % 6) < 3;
    }
    for seed in 0..10 {
        let mut map = tilemap(6, 6);
        map.tiles[0] = Tile { idx: 8, set: true };
        let mut rng = StdRng::seed_from_u64(seed);
        span_fill(&mut map, &band, 2, 3, &mut rng);
        for i in 0..36 {
            let t = map.tiles[i];
            if i == 0 {
                assert_eq!(t, Tile { idx: 8, set: true });
            } else if !band[i] {
                assert_eq!(t, Tile { idx: 0, set: false });
            } else {
                assert!(t == Tile { idx: 0, set: false } || t == Tile { idx: 2, set: true });
            }
        }
    }
}

#[test]
fn span_fill_without_band_changes_nothing() {
    let mut map = tilemap(4, 4);
    let mut rng = StdRng::seed_from_u64(3);
    span_fill(&mut map, &[false; 16], 1, 5, &mut rng);
    assert!(map.tiles.iter().all(|t| *t == Tile { idx: 0, set: false }));
}

#[test]
fn span_fill_of_a_full_band_fills_the_map() {
    let mut map = tilemap(5, 5);
    let mut rng = StdRng::seed_from_u64(11);
    span_fill(&mut map, &[true; 25], 6, 1, &mut rng);
    assert!(map.tiles.iter().all(|t| *t == Tile { idx: 6, set: true }));
    let s = Span { x1: 0, x2: 4, y: 2, dy: 1 };
    assert_eq!(s.x2 - s.x1 + 1, 5);
}

#[test]
fn new_tilemap_is_unmarked() {
    let map = create_tilemap(20, 20);
    assert_eq!((map.width, map.height), (20, 20));
    assert_eq!(map.tiles.len(), 400);
    assert!(map.tiles.iter().all(|t| *t == Tile { idx: 0, set: false }));
    let empty = create_tilemap(0, 5);
    assert!(empty.tiles.is_empty());
}

#[test]
fn span_fill_of_an_empty_map_without_origins_changes_nothing() {
    let mut rng = StdRng::seed_from_u64(3);
    let mut map = tilemap(0, 0);
    span_fill(&mut map, &[], 1, 0, &mut rng);
    assert!(map.tiles.is_empty());
    assert_eq!((map.width, map.height), (0, 0));
}
