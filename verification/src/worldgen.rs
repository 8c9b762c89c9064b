//! The flood fill of the world generator: from random origins, the tiles of
//! a height band are marked row span by row span.
use vstd::prelude::*;
use std::collections::VecDeque;
use rand::rngs::StdRng;
use crate::rng::gen_index;

verus! {

/// A map tile as the fill sees it: its terrain index and whether a fill has
/// marked it. Its position and height are kept by the generator beside it.
#[derive(Clone, Copy, Debug, PartialEq, Eq)]
pub struct Tile {
    pub idx: usize,
    pub set: bool,
}

/// The tiles of a `width` by `height` map, row by row.
pub struct Tilemap {
    pub tiles: Vec<Tile>,
    pub width: usize,
    pub height: usize,
}

/// A run of tiles `x1..=x2` of row `y`, to be scanned, reached by moving
/// `dy` rows.
#[derive(Clone, Copy, Debug, PartialEq, Eq)]
pub struct Span {
    pub x1: i32,
    pub x2: i32,
    pub y: i32,
    pub dy: i32,
}

/// A `width` by `height` map of unmarked tiles of terrain 0. (Their
/// positions on screen are laid out by the generator beside them.)
pub fn create_tilemap(width: usize, height: usize) -> (map: Tilemap)
    requires
        width * height <= i32::MAX,
    ensures
        map.width == width,
        map.height == height,
        map.tiles@.len() == width * height,
        forall|i: int| 0 <= i < map.tiles@.len() ==> #[trigger] map.tiles@[i] == (Tile { idx: 0, set: false }),
{
    let n = width * height;
    let mut tiles: Vec<Tile> = Vec::new();
    let mut j: usize = 0;
    while j < n
        invariant
            j <= n,
            tiles@.len() == j,
            forall|i: int| 0 <= i < j ==> #[trigger] tiles@[i] == (Tile { idx: 0, set: false }),
        decreases n - j,
    {
        tiles.push(Tile { idx: 0, set: false });
        j = j + 1;
    }
    Tilemap { tiles, width, height }
}

/// The map sizes that tile coordinates (`i32`) can address, up to the
/// spans' columns two past the right edge and rows one past the top, with
/// the band mask `band` (is the tile's height within the fill's band?) of one entry
/// per tile.
pub open spec fn map_ok(m: Tilemap, band: Seq<bool>) -> bool {
    &&& 0 < m.width <= 0x7fff_fffd
    &&& 0 < m.height <= 0x7fff_fffe
    &&& m.tiles@.len() == m.width * m.height
    &&& band.len() == m.width * m.height
}

/// What `span_fill` needs of the map: sizes that tile coordinates (`i32`)
/// can address (as for `map_ok`), a band mask of one entry per tile, and tiles to draw
/// origins from when any origin is drawn.
pub open spec fn span_fill_ok(m: Tilemap, band: Seq<bool>, num_origins: int) -> bool {
    &&& m.width <= 0x7fff_fffd
    &&& m.height <= 0x7fff_fffe
    &&& m.tiles@.len() == m.width * m.height
    &&& band.len() == m.width * m.height
    &&& num_origins > 0 ==> 0 < m.width && 0 < m.height
}

/// Tile `(x, y)` is on the map, in the band and not marked yet.
pub open spec fn open_at(tiles: Seq<Tile>, band: Seq<bool>, w: int, h: int, x: int, y: int) -> bool {
    0 <= x < w && 0 <= y < h && band[y * w + x] && !tiles[y * w + x].set
}

/// `after` is `before` with some tiles of the band that were not marked
/// given terrain `idx` and marked; no other tile changed.
pub open spec fn filled_from(before: Seq<Tile>, after: Seq<Tile>, band: Seq<bool>, idx: usize) -> bool {
    &&& after.len() == before.len()
    &&& forall|p: int|
        0 <= p < before.len() ==> #[trigger] after[p] == before[p] || (band[p] && !before[p].set
            && after[p] == Tile { idx, set: true })
}

/// Number of tiles among the first `n` that are in the band and not marked.
pub open spec fn open_count(tiles: Seq<Tile>, band: Seq<bool>, n: int) -> nat
    decreases n,
{
    if n <= 0 {
        0
    } else {
        open_count(tiles, band, n - 1) + if band[n - 1] && !tiles[n - 1].set {
            1nat
        } else {
            0nat
        }
    }
}

/// Tiles of a span left to scan, if any.
pub open spec fn span_len(s: Span) -> int {
    if s.x1 <= s.x2 {
        s.x2 - s.x1 + 1
    } else {
        0
    }
}

/// Work a queued span may still cause.
pub open spec fn span_weight(s: Span) -> nat {
    (1 + 2 * span_len(s)) as nat
}

/// Work the queued spans may still cause.
pub open spec fn queue_weight(q: Seq<Span>) -> nat
    decreases q.len(),
{
    if q.len() == 0 {
        0
    } else {
        queue_weight(q.drop_last()) + span_weight(q.last())
    }
}

/// The shapes of span the fill queues on a `w` by `h` map: columns one past
/// the map at most, rows two past it, and rows past the first outer one
/// empty.
pub open spec fn span_ok(s: Span, w: int, h: int) -> bool {
    &&& s.dy == 1 || s.dy == -1
    &&& 0 <= s.x1 <= w + 2
    &&& -1 <= s.x2 <= w + 1
    &&& -2 <= s.y <= h + 1
    &&& s.y == -1 ==> s.dy == -1
    &&& s.y == h ==> s.dy == 1
    &&& (s.y == -2 || s.y == h + 1) ==> s.x1 > s.x2
}

pub open spec fn queue_ok(q: Seq<Span>, w: int, h: int) -> bool {
    forall|i: int| 0 <= i < q.len() ==> span_ok(#[trigger] q[i], w, h)
}

proof fn lemma_filled_refl(t: Seq<Tile>, band: Seq<bool>, idx: usize)
    ensures
        filled_from(t, t, band, idx),
{
}

proof fn lemma_filled_trans(a: Seq<Tile>, b: Seq<Tile>, c: Seq<Tile>, band: Seq<bool>, idx: usize)
    requires
        filled_from(a, b, band, idx),
        filled_from(b, c, band, idx),
    ensures
        filled_from(a, c, band, idx),
{
    assert forall|p: int| 0 <= p < a.len() implies #[trigger] c[p] == a[p] || (band[p] && !a[p].set
        && c[p] == Tile { idx, set: true }) by {
        assert(b[p] == a[p] || (band[p] && !a[p].set && b[p] == Tile { idx, set: true }));
        assert(c[p] == b[p] || (band[p] && !b[p].set && c[p] == Tile { idx, set: true }));
    }
}

proof fn lemma_open_count_mark(t: Seq<Tile>, band: Seq<bool>, n: int, p: int, v: Tile)
    requires
        0 <= p < n <= t.len(),
        band[p],
        !t[p].set,
        v.set,
    ensures
        open_count(t.update(p, v), band, n) + 1 == open_count(t, band, n),
    decreases n,
{
    if n - 1 > p {
        lemma_open_count_mark(t, band, n - 1, p, v);
    } else {
        lemma_open_count_same(t, t.update(p, v), band, n - 1);
    }
}

proof fn lemma_open_count_same(a: Seq<Tile>, b: Seq<Tile>, band: Seq<bool>, n: int)
    requires
        0 <= n <= a.len(),
        n <= b.len(),
        forall|p: int| 0 <= p < n ==> a[p] == b[p],
    ensures
        open_count(a, band, n) == open_count(b, band, n),
    decreases n,
{
    if n > 0 {
        lemma_open_count_same(a, b, band, n - 1);
    }
}

proof fn lemma_queue_push(q: Seq<Span>, s: Span)
    ensures
        queue_weight(q.push(s)) == queue_weight(q) + span_weight(s),
{
    assert(q.push(s).drop_last() =~= q);
}

proof fn lemma_queue_pop(q: Seq<Span>)
    requires
        q.len() > 0,
    ensures
        queue_weight(q) == queue_weight(q.subrange(0, q.len() - 1)) + span_weight(q[q.len() - 1]),
{
    assert(q.drop_last() =~= q.subrange(0, q.len() - 1));
}

proof fn lemma_queue_ok_push(q: Seq<Span>, s: Span, w: int, h: int)
    requires
        queue_ok(q, w, h),
        span_ok(s, w, h),
    ensures
        queue_ok(q.push(s), w, h),
{
    assert forall|i: int| 0 <= i < q.push(s).len() implies span_ok(#[trigger] q.push(s)[i], w, h) by {
        if i < q.len() {
            assert(q.push(s)[i] == q[i]);
        }
    }
}

proof fn lemma_push_prefix(q: Seq<Span>, s: Span, n: int)
    requires
        0 <= n <= q.len(),
    ensures
        q.push(s).subrange(0, n) == q.subrange(0, n),
{
    assert(q.push(s).subrange(0, n) =~= q.subrange(0, n));
}

proof fn lemma_tile_index(w: int, h: int, x: int, y: int)
    requires
        0 <= x < w,
        0 <= y < h,
    ensures
        0 <= y * w,
        0 <= y * w + x < w * h,
{
    assert(0 <= y * w && y * w + x < w * h) by (nonlinear_arith)
        requires
            0 <= x < w,
            0 <= y < h,
    ;
}

/// Is tile `(x, y)` on the map, in the band and not marked yet?
fn inside(map: &Tilemap, band: &[bool], x: i32, y: i32) -> (r: bool)
    requires
        map_ok(*map, band@),
    ensures
        r == open_at(map.tiles@, band@, map.width as int, map.height as int, x as int, y as int),
{
    if y < map.height as i32 && y >= 0 && x < map.width as i32 && x >= 0 {
        proof {
            lemma_tile_index(map.width as int, map.height as int, x as int, y as int);
        }
        let len = map.tiles.len();
        let i = y as usize * map.width + x as usize;
        band[i] && !map.tiles[i].set
    } else {
        false
    }
}

/// Give tile `(x, y)`, if it is on the map, terrain `idx` and mark it.
fn set(map: &mut Tilemap, x: i32, y: i32, idx: usize)
    requires
        old(map).tiles@.len() == old(map).width * old(map).height,
        old(map).width <= 0x7fff_fffd,
        old(map).height <= 0x7fff_fffe,
    ensures
        final(map).width == old(map).width,
        final(map).height == old(map).height,
        final(map).tiles@ == if 0 <= x < old(map).width && 0 <= y < old(map).height {
            old(map).tiles@.update(y * old(map).width + x, Tile { idx, set: true })
        } else {
            old(map).tiles@
        },
{
    if y < map.height as i32 && y >= 0 && x < map.width as i32 && x >= 0 {
        proof {
            lemma_tile_index(map.width as int, map.height as int, x as int, y as int);
        }
        let len = map.tiles.len();
        let i = y as usize * map.width + x as usize;
        map.tiles.set(i, Tile { idx, set: true });
    }
}

/// Marking an open tile keeps the fill relation and uses up one open tile.
proof fn lemma_mark(before: Seq<Tile>, t: Seq<Tile>, band: Seq<bool>, w: int, h: int, x: int, y: int, idx: usize)
    requires
        open_at(t, band, w, h, x, y),
        t.len() == w * h,
        band.len() == w * h,
        filled_from(before, t, band, idx),
    ensures
        filled_from(before, t.update(y * w + x, Tile { idx, set: true }), band, idx),
        open_count(t.update(y * w + x, Tile { idx, set: true }), band, w * h) + 1 == open_count(t, band, w * h),
{
    lemma_tile_index(w, h, x, y);
    let p = y * w + x;
    lemma_open_count_mark(t, band, w * h, p, Tile { idx, set: true });
    let u = t.update(p, Tile { idx, set: true });
    assert forall|q: int| 0 <= q < before.len() implies #[trigger] u[q] == before[q] || (band[q]
        && !before[q].set && u[q] == Tile { idx, set: true }) by {
        assert(t[q] == before[q] || (band[q] && !before[q].set && t[q] == Tile { idx, set: true }));
    }
}

/// `t` with tile `(x, y)` given terrain `idx` and marked.
pub open spec fn mark(t: Seq<Tile>, w: int, x: int, y: int, idx: usize) -> Seq<Tile> {
    t.update(y * w + x, Tile { idx, set: true })
}

/// Mark the open tiles of row `y` left of column `x`, up to the first tile
/// that is not open; the tiles then, and the leftmost column reached.
pub open spec fn left_run(
    t: Seq<Tile>,
    band: Seq<bool>,
    w: int,
    h: int,
    x: int,
    y: int,
    idx: usize,
) -> (Seq<Tile>, int)
    decreases x,
{
    if open_at(t, band, w, h, x - 1, y) {
        left_run(mark(t, w, x - 1, y, idx), band, w, h, x - 1, y, idx)
    } else {
        (t, x)
    }
}

/// Mark the open tiles of row `y` from column `x` rightwards, up to the
/// first tile that is not open; the tiles then, and that tile's column.
pub open spec fn right_run(
    t: Seq<Tile>,
    band: Seq<bool>,
    w: int,
    h: int,
    x: int,
    y: int,
    idx: usize,
) -> (Seq<Tile>, int)
    decreases w - x,
{
    if open_at(t, band, w, h, x, y) {
        right_run(mark(t, w, x, y, idx), band, w, h, x + 1, y, idx)
    } else {
        (t, x)
    }
}

/// The first column from `x` on, before `x2`, whose tile of row `y` is
/// open (`x2` if there is none, `x` if `x` is not before `x2`).
pub open spec fn skip_closed(t: Seq<Tile>, band: Seq<bool>, w: int, h: int, x: int, x2: int, y: int) -> int
    decreases x2 - x,
{
    if x < x2 && !open_at(t, band, w, h, x, y) {
        skip_closed(t, band, w, h, x + 1, x2, y)
    } else {
        x
    }
}

pub proof fn lemma_right_run_ge(t: Seq<Tile>, band: Seq<bool>, w: int, h: int, x: int, y: int, idx: usize)
    ensures
        right_run(t, band, w, h, x, y, idx).1 >= x,
    decreases w - x,
{
    if open_at(t, band, w, h, x, y) {
        lemma_right_run_ge(mark(t, w, x, y, idx), band, w, h, x + 1, y, idx);
    }
}

pub proof fn lemma_skip_closed_ge(t: Seq<Tile>, band: Seq<bool>, w: int, h: int, x: int, x2: int, y: int)
    ensures
        skip_closed(t, band, w, h, x, x2, y) >= x,
    decreases x2 - x,
{
    if x < x2 && !open_at(t, band, w, h, x, y) {
        lemma_skip_closed_ge(t, band, w, h, x + 1, x2, y);
    }
}

/// A span of row `y` (moving `dy` rows), as queued.
pub open spec fn span_of(x1: int, x2: int, y: int, dy: int) -> Span {
    Span { x1: x1 as i32, x2: x2 as i32, y: y as i32, dy: dy as i32 }
}

/// The scan of columns `x1..=x2` of row `y`, the marked run so far starting
/// at column `x`: each open run is marked, the span ahead of it and the
/// part past `x2` (in reverse) are queued, and the scan goes on at the next
/// open tile. The tiles and the queue at the end.
pub open spec fn scan_rest(
    t: Seq<Tile>,
    q: Seq<Span>,
    x: int,
    x1: int,
    x2: int,
    y: int,
    dy: int,
    band: Seq<bool>,
    w: int,
    h: int,
    idx: usize,
) -> (Seq<Tile>, Seq<Span>)
    decreases (if x1 <= x2 { x2 - x1 + 1 } else { 0 }),
{
    if x1 <= x2 {
        let (t1, e) = right_run(t, band, w, h, x1, y, idx);
        let q1 = q.push(span_of(x, e - 1, y + dy, dy));
        let q2 = if e - 1 > x2 {
            q1.push(span_of(x2 + 1, e - 1, y - dy, -dy))
        } else {
            q1
        };
        let n = skip_closed(t1, band, w, h, e + 1, x2, y);
        proof {
            lemma_right_run_ge(t, band, w, h, x1, y, idx);
            lemma_skip_closed_ge(t1, band, w, h, e + 1, x2, y);
        }
        scan_rest(t1, q2, n, n, x2, y, dy, band, w, h, idx)
    } else {
        (t, q)
    }
}

/// The scan of queued span `s`: it is extended to the left over open tiles
/// (queuing the extension in reverse), then scanned. The tiles and the
/// queue after it.
pub open spec fn scan(
    t: Seq<Tile>,
    q: Seq<Span>,
    s: Span,
    band: Seq<bool>,
    w: int,
    h: int,
    idx: usize,
) -> (Seq<Tile>, Seq<Span>) {
    let (t1, x) = if open_at(t, band, w, h, s.x1 as int, s.y as int) {
        left_run(t, band, w, h, s.x1 as int, s.y as int, idx)
    } else {
        (t, s.x1 as int)
    };
    let q1 = if x < s.x1 {
        q.push(span_of(x, s.x1 - 1, s.y - s.dy, -s.dy))
    } else {
        q
    };
    scan_rest(t1, q1, x, s.x1 as int, s.x2 as int, s.y as int, s.dy as int, band, w, h, idx)
}

/// The tiles after at most `fuel` scans of the last queued span.
pub open spec fn run_queue(
    t: Seq<Tile>,
    q: Seq<Span>,
    band: Seq<bool>,
    w: int,
    h: int,
    idx: usize,
    fuel: nat,
) -> Seq<Tile>
    decreases fuel,
{
    if fuel == 0 || q.len() == 0 {
        t
    } else {
        let (t1, q1) = scan(t, q.drop_last(), q.last(), band, w, h, idx);
        run_queue(t1, q1, band, w, h, idx, (fuel - 1) as nat)
    }
}

/// The spans a fill from origin `(ox, oy)` starts with: the origin's, and
/// the one below it where there is a row below.
pub open spec fn first_spans(ox: int, oy: int) -> Seq<Span> {
    let origin = span_of(ox, ox, oy, 1);
    if oy > 0 {
        seq![origin, span_of(ox, ox, oy - 1, -1)]
    } else {
        seq![origin]
    }
}

/// The tiles after a fill from origin `(ox, oy)`: the queued spans are
/// scanned, last first, until none is left. (Each scan uses up open tiles
/// or queued work, so the bound on the number of scans is never reached.)
pub open spec fn filled(t: Seq<Tile>, band: Seq<bool>, w: int, h: int, ox: int, oy: int, idx: usize) -> Seq<Tile> {
    let q = first_spans(ox, oy);
    run_queue(t, q, band, w, h, idx, 5 * open_count(t, band, w * h) + queue_weight(q))
}

proof fn lemma_left_run_marks(t: Seq<Tile>, band: Seq<bool>, w: int, h: int, x: int, y: int, idx: usize)
    requires
        t.len() == w * h,
    ensures
        left_run(t, band, w, h, x, y, idx).1 <= x,
        x >= 0 ==> left_run(t, band, w, h, x, y, idx).1 >= 0,
        left_run(t, band, w, h, x, y, idx).0.len() == t.len(),
        forall|p: int|
            0 <= p < t.len() && !t[p].set && (#[trigger] left_run(t, band, w, h, x, y, idx).0[p]).set ==> y * w
                + left_run(t, band, w, h, x, y, idx).1 <= p < y * w + x,
    decreases x,
{
    if open_at(t, band, w, h, x - 1, y) {
        lemma_tile_index(w, h, x - 1, y);
        let t1 = mark(t, w, x - 1, y, idx);
        lemma_left_run_marks(t1, band, w, h, x - 1, y, idx);
        let r = left_run(t1, band, w, h, x - 1, y, idx);
        assert forall|p: int| 0 <= p < t.len() && !t[p].set && (#[trigger] r.0[p]).set implies y * w + r.1 <= p
            < y * w + x by {
            if p != y * w + x - 1 {
                assert(t1[p] == t[p]);
            }
        }
    }
}

proof fn lemma_right_run_marks(t: Seq<Tile>, band: Seq<bool>, w: int, h: int, x: int, y: int, idx: usize)
    requires
        t.len() == w * h,
    ensures
        right_run(t, band, w, h, x, y, idx).1 >= x,
        right_run(t, band, w, h, x, y, idx).1 == x || right_run(t, band, w, h, x, y, idx).1 <= w,
        right_run(t, band, w, h, x, y, idx).0.len() == t.len(),
        forall|p: int|
            0 <= p < t.len() && !t[p].set && (#[trigger] right_run(t, band, w, h, x, y, idx).0[p]).set ==> y * w
                + x <= p < y * w + right_run(t, band, w, h, x, y, idx).1,
    decreases w - x,
{
    if open_at(t, band, w, h, x, y) {
        lemma_tile_index(w, h, x, y);
        let t1 = mark(t, w, x, y, idx);
        lemma_right_run_marks(t1, band, w, h, x + 1, y, idx);
        let r = right_run(t1, band, w, h, x + 1, y, idx);
        assert forall|p: int| 0 <= p < t.len() && !t[p].set && (#[trigger] r.0[p]).set implies y * w + x <= p
            < y * w + r.1 by {
            if p != y * w + x {
                assert(t1[p] == t[p]);
            }
        }
    }
}

proof fn lemma_scan_rest_marks(
    t: Seq<Tile>,
    q: Seq<Span>,
    x: int,
    x1: int,
    x2: int,
    y: int,
    dy: int,
    band: Seq<bool>,
    w: int,
    h: int,
    idx: usize,
)
    requires
        t.len() == w * h,
    ensures
        scan_rest(t, q, x, x1, x2, y, dy, band, w, h, idx).0.len() == t.len(),
        scan_rest(t, q, x, x1, x2, y, dy, band, w, h, idx).1.len() >= q.len(),
        forall|i: int| 0 <= i < q.len() ==> #[trigger] scan_rest(t, q, x, x1, x2, y, dy, band, w, h, idx).1[i] == q[i],
        forall|p: int|
            0 <= p < t.len() && !t[p].set && (#[trigger] scan_rest(t, q, x, x1, x2, y, dy, band, w, h, idx).0[p]).set
                ==> y * w + x1 <= p,
    decreases (if x1 <= x2 { x2 - x1 + 1 } else { 0 }),
{
    if x1 <= x2 {
        let (t1, e) = right_run(t, band, w, h, x1, y, idx);
        lemma_right_run_marks(t, band, w, h, x1, y, idx);
        let q1 = q.push(span_of(x, e - 1, y + dy, dy));
        let q2 = if e - 1 > x2 {
            q1.push(span_of(x2 + 1, e - 1, y - dy, -dy))
        } else {
            q1
        };
        let n = skip_closed(t1, band, w, h, e + 1, x2, y);
        lemma_skip_closed_ge(t1, band, w, h, e + 1, x2, y);
        lemma_scan_rest_marks(t1, q2, n, n, x2, y, dy, band, w, h, idx);
        let r = scan_rest(t1, q2, n, n, x2, y, dy, band, w, h, idx);
        assert forall|i: int| 0 <= i < q.len() implies #[trigger] r.1[i] == q[i] by {
            assert(r.1[i] == q2[i]);
            assert(q2[i] == q1[i]);
        }
        assert forall|p: int| 0 <= p < t.len() && !t[p].set && (#[trigger] r.0[p]).set implies y * w + x1 <= p by {
            if t1[p].set {
            } else {
                assert(y * w + n <= p);
            }
        }
    }
}

/// When the scan of a span marks tiles left of the span (extending its run
/// to the left over open tiles), it queues the row behind them: every tile
/// of the span's row left of its start that the scan marks is covered by a
/// span queued for the row behind (`y - dy`, moving `-dy`).
pub proof fn law_scan_queues_row_behind_left_run(
    t: Seq<Tile>,
    q: Seq<Span>,
    s: Span,
    band: Seq<bool>,
    w: int,
    h: int,
    idx: usize,
)
    requires
        t.len() == w * h,
        band.len() == w * h,
        0 < w <= 0x7fff_fffd,
        0 < h <= 0x7fff_fffe,
        span_ok(s, w, h),
    ensures
        forall|c: int|
            0 <= c < s.x1 && c < w && 0 <= s.y < h && !t[s.y * w + c].set && (#[trigger] scan(t, q, s, band, w, h, idx).0[s.y
                * w + c]).set ==> exists|i: int|
                q.len() <= i < scan(t, q, s, band, w, h, idx).1.len() && (#[trigger] scan(
                    t,
                    q,
                    s,
                    band,
                    w,
                    h,
                    idx,
                ).1[i]).y == s.y - s.dy && scan(t, q, s, band, w, h, idx).1[i].dy == -s.dy && scan(
                    t,
                    q,
                    s,
                    band,
                    w,
                    h,
                    idx,
                ).1[i].x1 <= c <= scan(t, q, s, band, w, h, idx).1[i].x2,
{
    let y = s.y as int;
    let x1 = s.x1 as int;
    let opened = open_at(t, band, w, h, x1, y);
    let (t1, x) = if opened {
        left_run(t, band, w, h, x1, y, idx)
    } else {
        (t, x1)
    };
    lemma_left_run_marks(t, band, w, h, x1, y, idx);
    let q1 = if x < s.x1 {
        q.push(span_of(x, s.x1 - 1, s.y - s.dy, -s.dy))
    } else {
        q
    };
    lemma_scan_rest_marks(t1, q1, x, x1, s.x2 as int, y, s.dy as int, band, w, h, idx);
    let r = scan(t, q, s, band, w, h, idx);
    assert(r == scan_rest(t1, q1, x, x1, s.x2 as int, y, s.dy as int, band, w, h, idx));
    assert forall|c: int|
        0 <= c < s.x1 && c < w && 0 <= s.y < h && !t[s.y * w + c].set && (#[trigger] r.0[s.y * w + c]).set implies exists|i: int|
        q.len() <= i < r.1.len() && (#[trigger] r.1[i]).y == s.y - s.dy && r.1[i].dy == -s.dy && r.1[i].x1 <= c
            <= r.1[i].x2 by {
        lemma_tile_index(w, h, c, y);
        let p = y * w + c;
        if t1[p].set {
            assert(opened);
            assert(x <= c);
            assert(r.1[q.len() as int] == q1[q.len() as int]);
            assert(q1[q.len() as int] == span_of(x, s.x1 - 1, s.y - s.dy, -s.dy));
        } else {
            assert(y * w + x1 <= p);
        }
    }
}

proof fn lemma_skip_closed_le(t: Seq<Tile>, band: Seq<bool>, w: int, h: int, x: int, x2: int, y: int)
    ensures
        skip_closed(t, band, w, h, x, x2, y) == x || skip_closed(t, band, w, h, x, x2, y) <= x2,
    decreases x2 - x,
{
    if x < x2 && !open_at(t, band, w, h, x, y) {
        lemma_skip_closed_le(t, band, w, h, x + 1, x2, y);
    }
}

/// The scan of a span's columns queues, for each run it marks, the span of
/// the row ahead over the run (from `x` for the first), and the span of the
/// row behind over the part of a run past `x2`.
proof fn lemma_scan_rest_queues(
    t: Seq<Tile>,
    q: Seq<Span>,
    x: int,
    x1: int,
    x2: int,
    y: int,
    dy: int,
    band: Seq<bool>,
    w: int,
    h: int,
    idx: usize,
)
    requires
        t.len() == w * h,
        0 <= x <= x1 <= w + 2,
        x2 <= w + 1,
        0 < w <= 0x7fff_fffd,
        0 < h <= 0x7fff_fffe,
        -2 <= y <= h + 1,
        y < -1 || y > h ==> x1 > x2,
        dy == 1 || dy == -1,
    ensures
        x1 <= x2 ==> exists|i: int|
            q.len() <= i < scan_rest(t, q, x, x1, x2, y, dy, band, w, h, idx).1.len() && (#[trigger] scan_rest(
                t,
                q,
                x,
                x1,
                x2,
                y,
                dy,
                band,
                w,
                h,
                idx,
            ).1[i]).y == y + dy && scan_rest(t, q, x, x1, x2, y, dy, band, w, h, idx).1[i].dy == dy && scan_rest(
                t,
                q,
                x,
                x1,
                x2,
                y,
                dy,
                band,
                w,
                h,
                idx,
            ).1[i].x1 == x && scan_rest(t, q, x, x1, x2, y, dy, band, w, h, idx).1[i].x2 >= x1 - 1,
        forall|p: int|
            0 <= p < t.len() && !t[p].set && (#[trigger] scan_rest(t, q, x, x1, x2, y, dy, band, w, h, idx).0[p]).set
                ==> covered_ahead(scan_rest(t, q, x, x1, x2, y, dy, band, w, h, idx).1, q.len() as int, p - y * w, y, dy),
        forall|p: int|
            0 <= p < t.len() && !t[p].set && (#[trigger] scan_rest(t, q, x, x1, x2, y, dy, band, w, h, idx).0[p]).set
                && p - y * w > x2 ==> covered_ahead(
                scan_rest(t, q, x, x1, x2, y, dy, band, w, h, idx).1,
                q.len() as int,
                p - y * w,
                y,
                -dy,
            ),
    decreases (if x1 <= x2 { x2 - x1 + 1 } else { 0 }),
{
    lemma_scan_rest_marks(t, q, x, x1, x2, y, dy, band, w, h, idx);
    if x1 <= x2 {
        let (t1, e) = right_run(t, band, w, h, x1, y, idx);
        lemma_right_run_marks(t, band, w, h, x1, y, idx);
        let ahead = span_of(x, e - 1, y + dy, dy);
        let q1 = q.push(ahead);
        let past = span_of(x2 + 1, e - 1, y - dy, -dy);
        let q2 = if e - 1 > x2 {
            q1.push(past)
        } else {
            q1
        };
        let n = skip_closed(t1, band, w, h, e + 1, x2, y);
        lemma_skip_closed_ge(t1, band, w, h, e + 1, x2, y);
        lemma_skip_closed_le(t1, band, w, h, e + 1, x2, y);
        lemma_scan_rest_marks(t1, q2, n, n, x2, y, dy, band, w, h, idx);
        lemma_scan_rest_queues(t1, q2, n, n, x2, y, dy, band, w, h, idx);
        let r = scan_rest(t1, q2, n, n, x2, y, dy, band, w, h, idx);
        assert(r == scan_rest(t, q, x, x1, x2, y, dy, band, w, h, idx));
        let i0 = q.len() as int;
        assert(r.1[i0] == q2[i0]);
        assert(q2[i0] == ahead);
        assert(-1 <= e - 1 <= w + 1);
        assert(-2 <= y + dy <= h + 1 && -2 <= y - dy <= h + 1);
        assert(ahead.y == y + dy);
        assert(ahead.dy == dy);
        assert(ahead.x1 == x);
        assert(ahead.x2 == e - 1);
        assert forall|p: int|
            0 <= p < t.len() && !t[p].set && (#[trigger] r.0[p]).set implies covered_ahead(
            r.1,
            q.len() as int,
            p - y * w,
            y,
            dy,
        ) by {
            if t1[p].set {
                assert(r.1[i0].x1 <= p - y * w <= r.1[i0].x2);
            } else {
                assert(covered_ahead(r.1, q2.len() as int, p - y * w, y, dy));
                let i = choose|i: int| q2.len() <= i < r.1.len() && covers(#[trigger] r.1[i], p - y * w, y + dy, dy);
                assert(covers(r.1[i], p - y * w, y + dy, dy));
            }
        }
        assert forall|p: int|
            0 <= p < t.len() && !t[p].set && (#[trigger] r.0[p]).set && p - y * w > x2 implies covered_ahead(
            r.1,
            q.len() as int,
            p - y * w,
            y,
            -dy,
        ) by {
            if t1[p].set {
                let i1 = q.len() + 1int;
                assert(r.1[i1] == q2[i1]);
                assert(q2[i1] == past);
                assert(covers(r.1[i1], p - y * w, y - dy, -dy));
            } else {
                assert(covered_ahead(r.1, q2.len() as int, p - y * w, y, -dy));
                let i = choose|i: int| q2.len() <= i < r.1.len() && covers(#[trigger] r.1[i], p - y * w, y - dy, -dy);
                assert(covers(r.1[i], p - y * w, y - dy, -dy));
            }
        }
    }
}

/// Span `sp` is of row `y`, moves `dy` rows and covers column `c`.
pub open spec fn covers(sp: Span, c: int, y: int, dy: int) -> bool {
    sp.y == y && sp.dy == dy && sp.x1 <= c <= sp.x2
}

/// Some span of `q` from position `from` on covers column `c` of the row
/// next to row `y` in direction `dy` (that is, row `y + dy`, moving `dy`).
pub open spec fn covered_ahead(q: Seq<Span>, from: int, c: int, y: int, dy: int) -> bool {
    exists|i: int| from <= i < q.len() && covers(#[trigger] q[i], c, y + dy, dy)
}

/// Every tile the scan of a span marks has its column queued for the row
/// ahead (`y + dy`, moving on in direction `dy`) when the span has columns
/// to scan; and every tile it marks right of the span's end has its column
/// queued for the row behind (`y - dy`, moving `-dy`).
pub proof fn law_scan_queues_rows_of_marked_runs(
    t: Seq<Tile>,
    q: Seq<Span>,
    s: Span,
    band: Seq<bool>,
    w: int,
    h: int,
    idx: usize,
)
    requires
        t.len() == w * h,
        band.len() == w * h,
        0 < w <= 0x7fff_fffd,
        0 < h <= 0x7fff_fffe,
        span_ok(s, w, h),
    ensures
        forall|c: int|
            0 <= c < w && 0 <= s.y < h && s.x1 <= s.x2 && !t[s.y * w + c].set && (#[trigger] scan(
                t,
                q,
                s,
                band,
                w,
                h,
                idx,
            ).0[s.y * w + c]).set ==> exists|i: int|
                q.len() <= i < scan(t, q, s, band, w, h, idx).1.len() && covers(
                    #[trigger] scan(t, q, s, band, w, h, idx).1[i],
                    c,
                    s.y + s.dy,
                    s.dy as int,
                ),
        forall|c: int|
            0 <= c < w && 0 <= s.y < h && s.x2 < c && s.x1 <= c && !t[s.y * w + c].set && (#[trigger] scan(
                t,
                q,
                s,
                band,
                w,
                h,
                idx,
            ).0[s.y * w + c]).set ==> exists|i: int|
                q.len() <= i < scan(t, q, s, band, w, h, idx).1.len() && covers(
                    #[trigger] scan(t, q, s, band, w, h, idx).1[i],
                    c,
                    s.y - s.dy,
                    -s.dy,
                ),
{
    let y = s.y as int;
    let x1 = s.x1 as int;
    let dy = s.dy as int;
    let opened = open_at(t, band, w, h, x1, y);
    let (t1, x) = if opened {
        left_run(t, band, w, h, x1, y, idx)
    } else {
        (t, x1)
    };
    lemma_left_run_marks(t, band, w, h, x1, y, idx);
    let q1 = if x < s.x1 {
        q.push(span_of(x, s.x1 - 1, s.y - s.dy, -s.dy))
    } else {
        q
    };
    lemma_scan_rest_marks(t1, q1, x, x1, s.x2 as int, y, dy, band, w, h, idx);
    lemma_scan_rest_queues(t1, q1, x, x1, s.x2 as int, y, dy, band, w, h, idx);
    let r = scan(t, q, s, band, w, h, idx);
    assert(r == scan_rest(t1, q1, x, x1, s.x2 as int, y, dy, band, w, h, idx));
    assert forall|c: int|
        0 <= c < w && 0 <= s.y < h && s.x1 <= s.x2 && !t[s.y * w + c].set && (#[trigger] r.0[s.y * w + c]).set
        implies exists|i: int| q.len() <= i < r.1.len() && covers(#[trigger] r.1[i], c, s.y + s.dy, s.dy as int) by {
        lemma_tile_index(w, h, c, y);
        let p = y * w + c;
        if t1[p].set {
            assert(opened);
            let i = choose|i: int|
                q1.len() <= i < r.1.len() && (#[trigger] r.1[i]).y == y + dy && r.1[i].dy == dy && r.1[i].x1 == x
                    && r.1[i].x2 >= x1 - 1;
            assert(covers(r.1[i], c, s.y + s.dy, s.dy as int));
        } else {
            assert(covered_ahead(r.1, q1.len() as int, p - y * w, y, dy));
            let i = choose|i: int| q1.len() <= i < r.1.len() && covers(#[trigger] r.1[i], p - y * w, y + dy, dy);
            assert(covers(r.1[i], c, s.y + s.dy, s.dy as int));
        }
    }
    assert forall|c: int|
        0 <= c < w && 0 <= s.y < h && s.x2 < c && s.x1 <= c && !t[s.y * w + c].set && (#[trigger] r.0[s.y * w
            + c]).set implies exists|i: int| q.len() <= i < r.1.len() && covers(#[trigger] r.1[i], c, s.y - s.dy, -s.dy) by {
        lemma_tile_index(w, h, c, y);
        let p = y * w + c;
        if t1[p].set {
            assert(c < x1);
        } else {
            assert(covered_ahead(r.1, q1.len() as int, p - y * w, y, -dy));
            let i = choose|i: int| q1.len() <= i < r.1.len() && covers(#[trigger] r.1[i], p - y * w, y + -dy, -dy);
            assert(covers(r.1[i], c, s.y - s.dy, -s.dy));
        }
    }
}

/// Scan one queued span: extend it to the left over open tiles, mark the
/// open runs from its start, and queue the spans of the neighbouring rows
/// that the marked runs touch.
#[verifier::loop_isolation(false)]
fn scan_span(map: &mut Tilemap, band: &[bool], queue: &mut VecDeque<Span>, span: Span, idx: usize)
    requires
        map_ok(*old(map), band@),
        span_ok(span, old(map).width as int, old(map).height as int),
        queue_ok(old(queue)@, old(map).width as int, old(map).height as int),
    ensures
        final(map).width == old(map).width,
        final(map).height == old(map).height,
        map_ok(*final(map), band@),
        filled_from(old(map).tiles@, final(map).tiles@, band@, idx),
        queue_ok(final(queue)@, old(map).width as int, old(map).height as int),
        final(queue)@.len() >= old(queue)@.len(),
        final(queue)@.subrange(0, old(queue)@.len() as int) == old(queue)@,
        5 * open_count(final(map).tiles@, band@, old(map).width * old(map).height) + queue_weight(final(queue)@)
            < 5 * open_count(old(map).tiles@, band@, old(map).width * old(map).height) + queue_weight(
            old(queue)@,
        ) + span_weight(span),
        span.x1 <= span.x2 && open_at(
            old(map).tiles@,
            band@,
            old(map).width as int,
            old(map).height as int,
            span.x1 as int,
            span.y as int,
        ) ==> final(map).tiles@[span.y * old(map).width + span.x1].set,
        (final(map).tiles@, final(queue)@) == scan(
            old(map).tiles@,
            old(queue)@,
            span,
            band@,
            old(map).width as int,
            old(map).height as int,
            idx,
        ),
{
    let ghost w = map.width as int;
    let ghost h = map.height as int;
    let ghost n = w * h;
    let ghost t0 = map.tiles@;
    let ghost q0 = queue@;
    let ghost u0 = open_count(t0, band@, n);
    let ghost start_open = span.x1 <= span.x2 && open_at(t0, band@, w, h, span.x1 as int, span.y as int);
    let mut span = span;
    let ghost s0 = span;
    let mut x = span.x1;
    proof {
        lemma_filled_refl(t0, band@, idx);
    }
    // Go through the left of the span.
    if inside(map, band, x, span.y) {
        proof {
            lemma_tile_index(w, h, span.x1 as int, span.y as int);
        }
        while inside(map, band, x - 1, span.y)
            invariant
                map.width == w,
                map.height == h,
                map_ok(*map, band@),
                span == s0,
                0 <= span.y < h,
                0 <= x <= span.x1,
                span.x1 < w,
                0 <= span.y * w + span.x1 < n,
                filled_from(t0, map.tiles@, band@, idx),
                open_count(map.tiles@, band@, n) + (span.x1 - x) == u0,
                map.tiles@[span.y * w + span.x1] == t0[span.y * w + span.x1],
                left_run(map.tiles@, band@, w, h, x as int, span.y as int, idx) == left_run(
                    t0,
                    band@,
                    w,
                    h,
                    s0.x1 as int,
                    s0.y as int,
                    idx,
                ),
            decreases x,
        {
            let ghost tp = map.tiles@;
            proof {
                lemma_mark(t0, tp, band@, w, h, x - 1, span.y as int, idx);
            }
            set(map, x - 1, span.y, idx);
            proof {
                assert(map.tiles@ == tp.update(span.y * w + (x - 1), Tile { idx, set: true }));
            }
            x -= 1;
        }
    }
    let ghost a = span.x1 - x;
    let ghost tl = map.tiles@;
    proof {
        let lr = if open_at(t0, band@, w, h, s0.x1 as int, s0.y as int) {
            left_run(t0, band@, w, h, s0.x1 as int, s0.y as int, idx)
        } else {
            (t0, s0.x1 as int)
        };
        assert(lr == (tl, x as int));
    }
    // Queue a new span in the reverse direction if the span grew.
    if x < span.x1 {
        let back = Span { x1: x, x2: span.x1 - 1, y: span.y - span.dy, dy: -span.dy };
        let ghost qb = queue@;
        proof {
            lemma_queue_push(qb, back);
        }
        queue.push_back(back);
        proof {
            lemma_queue_ok_push(qb, back, w, h);
            lemma_push_prefix(qb, back, q0.len() as int);
        }
    }
    proof {
        assert(queue@ == if (x as int) < s0.x1 {
            q0.push(span_of(x as int, s0.x1 - 1, s0.y - s0.dy, -s0.dy))
        } else {
            q0
        });
    }
    let ghost result = scan_rest(
        map.tiles@,
        queue@,
        x as int,
        span.x1 as int,
        span.x2 as int,
        span.y as int,
        span.dy as int,
        band@,
        w,
        h,
        idx,
    );
    assert(result == scan(t0, q0, s0, band@, w, h, idx));
    let ghost u1 = open_count(map.tiles@, band@, n);
    let ghost w1 = queue_weight(queue@);
    proof {
        assert(start_open ==> !map.tiles@[span.y * w + span.x1].set);
        assert(5 * u1 + w1 + 2 * a + span_len(span) <= 5 * u0 + queue_weight(q0) + span_weight(s0) - 1);
    }
    // Scan the span.
    while span.x1 <= span.x2
        invariant
            map.width == w,
            map.height == h,
            map_ok(*map, band@),
            span.x2 == s0.x2,
            span.y == s0.y,
            span.dy == s0.dy,
            span_ok(s0, w, h),
            0 <= x <= span.x1,
            span.x1 >= s0.x1,
            (span.y < 0 || span.y >= h) ==> x == span.x1,
            span.x1 <= w + 2,
            filled_from(t0, map.tiles@, band@, idx),
            queue_ok(queue@, w, h),
            queue@.len() >= q0.len(),
            queue@.subrange(0, q0.len() as int) == q0,
            5 * open_count(map.tiles@, band@, n) + queue_weight(queue@) + 2 * (span.x1 - x) + span_len(span)
                <= 5 * u0 + queue_weight(q0) + span_weight(s0) - 1,
            start_open ==> (span.x1 == s0.x1 && !map.tiles@[s0.y * w + s0.x1].set) || map.tiles@[s0.y * w
                + s0.x1].set,
            scan_rest(
                map.tiles@,
                queue@,
                x as int,
                span.x1 as int,
                span.x2 as int,
                span.y as int,
                span.dy as int,
                band@,
                w,
                h,
                idx,
            ) == result,
        decreases span_len(span),
    {
        let ghost x1s = span.x1;
        let ghost xs = x;
        let ghost qs = queue@;
        let ghost us = open_count(map.tiles@, band@, n);
        let ghost ts = map.tiles@;
        // Scan right from the start of the span.
        while inside(map, band, span.x1, span.y)
            invariant
                map.width == w,
                map.height == h,
                map_ok(*map, band@),
                span.x2 == s0.x2,
                span.y == s0.y,
                span.dy == s0.dy,
                x1s <= span.x1,
                span.x1 == x1s || span.x1 <= w,
                x1s <= w + 2,
                span.x1 > x1s ==> 0 <= span.y < h && 0 <= x1s < w && map.tiles@[span.y * w + x1s].set,
                filled_from(t0, map.tiles@, band@, idx),
                filled_from(ts, map.tiles@, band@, idx),
                open_count(map.tiles@, band@, n) + (span.x1 - x1s) == us,
                right_run(map.tiles@, band@, w, h, span.x1 as int, span.y as int, idx) == right_run(
                    ts,
                    band@,
                    w,
                    h,
                    x1s as int,
                    span.y as int,
                    idx,
                ),
            decreases w - span.x1,
        {
            let ghost tp = map.tiles@;
            proof {
                lemma_mark(t0, tp, band@, w, h, span.x1 as int, span.y as int, idx);
                lemma_mark(ts, tp, band@, w, h, span.x1 as int, span.y as int, idx);
            }
            set(map, span.x1, span.y, idx);
            proof {
                assert(map.tiles@ == tp.update(span.y * w + span.x1, Tile { idx, set: true }));
                lemma_tile_index(w, h, span.x1 as int, span.y as int);
                if span.x1 > x1s {
                    lemma_tile_index(w, h, x1s as int, span.y as int);
                    assert(tp[span.y * w + x1s].set);
                    assert(map.tiles@[span.y * w + x1s].set);
                } else {
                    assert(map.tiles@[span.y * w + span.x1] == Tile { idx, set: true });
                }
            }
            span.x1 += 1;
        }
        let ghost t1 = map.tiles@;
        let ghost e = span.x1 as int;
        assert((t1, e) == right_run(ts, band@, w, h, x1s as int, span.y as int, idx));
        // Go on in our direction, with the whole explored run as the span.
        let ahead = Span { x1: x, x2: span.x1 - 1, y: span.y + span.dy, dy: span.dy };
        let ghost qf = queue@;
        proof {
            lemma_queue_push(qf, ahead);
        }
        queue.push_back(ahead);
        proof {
            lemma_queue_ok_push(qf, ahead, w, h);
            lemma_push_prefix(qf, ahead, q0.len() as int);
        }
        // Past the end of the span, queue the rest in reverse.
        if span.x1 - 1 > span.x2 {
            let past = Span { x1: span.x2 + 1, x2: span.x1 - 1, y: span.y - span.dy, dy: -span.dy };
            let ghost qr = queue@;
            proof {
                lemma_queue_push(qr, past);
            }
            queue.push_back(past);
            proof {
                lemma_queue_ok_push(qr, past, w, h);
                lemma_push_prefix(qr, past, q0.len() as int);
            }
        }
        let ghost q2 = queue@;
        proof {
            let q1 = qs.push(span_of(xs as int, e - 1, s0.y + s0.dy, s0.dy as int));
            assert(q2 == if e - 1 > s0.x2 {
                q1.push(span_of(s0.x2 + 1, e - 1, s0.y - s0.dy, -s0.dy))
            } else {
                q1
            });
        }
        span.x1 += 1;
        while span.x1 < span.x2 && !inside(map, band, span.x1, span.y)
            invariant
                map.tiles@ == t1,
                skip_closed(t1, band@, w, h, span.x1 as int, span.x2 as int, span.y as int) == skip_closed(
                    t1,
                    band@,
                    w,
                    h,
                    e + 1,
                    s0.x2 as int,
                    s0.y as int,
                ),
                map_ok(*map, band@),
                span.x2 == s0.x2,
                span.y == s0.y,
                span.dy == s0.dy,
                span.x1 > x1s,
                span.x2 <= w + 1,
                span.x1 <= w + 2,
            decreases span.x2 - span.x1,
        {
            span.x1 += 1;
        }
        x = span.x1;
        proof {
            lemma_filled_trans(t0, ts, map.tiles@, band@, idx);
            assert(skip_closed(t1, band@, w, h, e + 1, s0.x2 as int, s0.y as int) == x);
            assert(scan_rest(ts, qs, xs as int, x1s as int, s0.x2 as int, s0.y as int, s0.dy as int, band@, w, h, idx)
                == scan_rest(t1, q2, x as int, x as int, s0.x2 as int, s0.y as int, s0.dy as int, band@, w, h, idx));
        }
    }
}

/// Fill from origin `(ox, oy)`: scan the spans of the origin's row and the
/// row below it, and every span the scans queue, until none is left. The
/// result is `filled`. The scans also queue empty spans, and scanning one
/// can mark the run left of its column; so a fill need not mark every open
/// tile joined to the origin, and can mark open tiles that are not.
pub fn fill_from(map: &mut Tilemap, band: &[bool], ox: usize, oy: usize, idx: usize)
    requires
        map_ok(*old(map), band@),
        open_at(old(map).tiles@, band@, old(map).width as int, old(map).height as int, ox as int, oy as int),
    ensures
        final(map).width == old(map).width,
        final(map).height == old(map).height,
        filled_from(old(map).tiles@, final(map).tiles@, band@, idx),
        final(map).tiles@[oy * old(map).width + ox] == (Tile { idx, set: true }),
        final(map).tiles@ == filled(
            old(map).tiles@,
            band@,
            old(map).width as int,
            old(map).height as int,
            ox as int,
            oy as int,
            idx,
        ),
{
    let ghost w = map.width as int;
    let ghost h = map.height as int;
    let ghost t0 = map.tiles@;
    let ghost o = oy * w + ox;
    let origin = Span { x1: ox as i32, x2: ox as i32, y: oy as i32, dy: 1 };
    let mut queue: VecDeque<Span> = VecDeque::new();
    queue.push_back(origin);
    proof {
        lemma_queue_ok_push(Seq::empty(), origin, w, h);
    }
    // Add below the origin if possible.
    if oy > 0 {
        let below = Span { x1: ox as i32, x2: ox as i32, y: (oy - 1) as i32, dy: -1 };
        let ghost q1 = queue@;
        queue.push_back(below);
        proof {
            lemma_queue_ok_push(q1, below, w, h);
            assert(queue@[0] == q1[0]);
        }
    }
    proof {
        lemma_filled_refl(t0, band@, idx);
        lemma_tile_index(w, h, ox as int, oy as int);
        assert(queue@ == first_spans(ox as int, oy as int));
    }
    let ghost mut fuel: nat = 5 * open_count(t0, band@, w * h) + queue_weight(queue@);
    while queue.len() > 0
        invariant
            map.width == w,
            map.height == h,
            map_ok(*map, band@),
            0 <= o < w * h,
            o == oy * w + ox,
            ox < w,
            oy < h,
            band@[o],
            origin == (Span { x1: ox as i32, x2: ox as i32, y: oy as i32, dy: 1 }),
            filled_from(t0, map.tiles@, band@, idx),
            queue_ok(queue@, w, h),
            map.tiles@[o].set || (queue@.len() > 0 && queue@[0] == origin),
            fuel >= 5 * open_count(map.tiles@, band@, w * h) + queue_weight(queue@),
            run_queue(map.tiles@, queue@, band@, w, h, idx, fuel) == filled(t0, band@, w, h, ox as int, oy as int, idx),
        decreases 5 * open_count(map.tiles@, band@, w * h) + queue_weight(queue@),
    {
        let ghost q = queue@;
        let ghost t = map.tiles@;
        proof {
            lemma_queue_pop(q);
        }
        let span = match queue.pop_back() {
            Some(span) => span,
            None => origin,
        };
        proof {
            assert(queue@ == q.subrange(0, q.len() - 1));
            assert(span == q[q.len() - 1]);
            assert(span_ok(q[q.len() - 1], w, h));
            assert(queue_ok(queue@, w, h)) by {
                assert forall|i: int| 0 <= i < queue@.len() implies span_ok(#[trigger] queue@[i], w, h) by {
                    assert(queue@[i] == q[i]);
                }
            }
        }
        let ghost rest = queue@;
        proof {
            assert(rest == q.drop_last());
            assert(span == q.last());
            assert(span_weight(span) >= 1);
        }
        scan_span(map, band, &mut queue, span, idx);
        proof {
            fuel = (fuel - 1) as nat;
            lemma_filled_trans(t0, t, map.tiles@, band@, idx);
            if !t[o].set {
                if rest.len() == 0 {
                    assert(span == origin);
                    assert(open_at(t, band@, w, h, ox as int, oy as int));
                } else {
                    assert(queue@[0] == queue@.subrange(0, rest.len() as int)[0]);
                    assert(rest[0] == q[0]);
                }
            } else {
                assert(map.tiles@[o] == t[o] || !t[o].set);
            }
        }
    }
    proof {
        assert(map.tiles@[o] == t0[o] || (band@[o] && !t0[o].set && map.tiles@[o] == Tile { idx, set: true }));
    }
}

/// One round of `span_fill`: either its origins all fell on tiles that were
/// not open (so the map has such a tile) and nothing changed, or it filled
/// from the open tile `origin` (as `filled` says), which is then marked.
pub open spec fn fill_round(
    before: Seq<Tile>,
    after: Seq<Tile>,
    band: Seq<bool>,
    w: int,
    h: int,
    idx: usize,
    origin: Option<(int, int)>,
) -> bool {
    match origin {
        None => {
            &&& after == before
            &&& exists|x: int, y: int| 0 <= x < w && 0 <= y < h && !open_at(before, band, w, h, x, y)
        },
        Some((x, y)) => {
            &&& open_at(before, band, w, h, x, y)
            &&& after == filled(before, band, w, h, x, y, idx)
            &&& filled_from(before, after, band, idx)
            &&& after[y * w + x] == (Tile { idx, set: true })
        },
    }
}

/// `after` comes from `before` by `k` rounds of `span_fill`.
pub open spec fn fill_rounds(
    before: Seq<Tile>,
    after: Seq<Tile>,
    band: Seq<bool>,
    w: int,
    h: int,
    idx: usize,
    k: nat,
) -> bool
    decreases k,
{
    if k == 0 {
        after == before
    } else {
        exists|mid: Seq<Tile>, origin: Option<(int, int)>|
            fill_rounds(before, mid, band, w, h, idx, (k - 1) as nat) && #[trigger] fill_round(
                mid,
                after,
                band,
                w,
                h,
                idx,
                origin,
            )
    }
}

/// Fill the band from `num_origins` random origins. An origin is drawn
/// anew while it is not an open tile of the band, at most three times; an
/// origin that still is not one is skipped.
pub fn span_fill(map: &mut Tilemap, band: &[bool], idx: usize, num_origins: usize, rng: &mut StdRng)
    requires
        span_fill_ok(*old(map), band@, num_origins as int),
    ensures
        final(map).width == old(map).width,
        final(map).height == old(map).height,
        filled_from(old(map).tiles@, final(map).tiles@, band@, idx),
        fill_rounds(
            old(map).tiles@,
            final(map).tiles@,
            band@,
            old(map).width as int,
            old(map).height as int,
            idx,
            num_origins as nat,
        ),
{
    let ghost t0 = map.tiles@;
    let ghost w = map.width as int;
    let ghost h = map.height as int;
    proof {
        lemma_filled_refl(t0, band@, idx);
    }
    let mut k: usize = 0;
    while k < num_origins
        invariant
            span_fill_ok(*map, band@, num_origins as int),
            map.width == old(map).width,
            map.height == old(map).height,
            filled_from(t0, map.tiles@, band@, idx),
            k <= num_origins,
            w == old(map).width,
            h == old(map).height,
            fill_rounds(t0, map.tiles@, band@, w, h, idx, k as nat),
        decreases num_origins - k,
    {
        let ghost t = map.tiles@;
        k += 1;
        let mut ox = gen_index(rng, map.width);
        let mut oy = gen_index(rng, map.height);
        let mut attempts: u32 = 0;
        while !inside(map, band, ox as i32, oy as i32)
            invariant_except_break
                attempts <= 3,
            invariant
                map_ok(*map, band@),
                ox < map.width,
                oy < map.height,
            ensures
                map_ok(*map, band@),
                ox < map.width,
                oy < map.height,
                attempts <= 3 ==> open_at(map.tiles@, band@, map.width as int, map.height as int, ox as int, oy as int),
                attempts > 3 ==> !open_at(map.tiles@, band@, map.width as int, map.height as int, ox as int, oy as int),
            decreases 3 - attempts,
        {
            attempts += 1;
            if attempts <= 3 {
                ox = gen_index(rng, map.width);
                oy = gen_index(rng, map.height);
            } else {
                break;
            }
        }
        if attempts > 3 {
            proof {
                assert(fill_round(t, map.tiles@, band@, w, h, idx, None));
                assert(fill_rounds(t0, map.tiles@, band@, w, h, idx, k as nat));
            }
            continue;
        }
        fill_from(map, band, ox, oy, idx);
        proof {
            lemma_filled_trans(t0, t, map.tiles@, band@, idx);
            let origin = Some((ox as int, oy as int));
            assert(fill_round(t, map.tiles@, band@, w, h, idx, origin));
            assert(fill_rounds(t0, map.tiles@, band@, w, h, idx, k as nat));
        }
    }
}

} // verus!
