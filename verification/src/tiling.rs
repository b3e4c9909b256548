//! Exact-halo tiling for the tiled model runners: the tile-size plan, the
//! tile grid, and each tile's core and halo-extended rectangles.
use vstd::prelude::*;
use vstd::arithmetic::div_mod::{lemma_fundamental_div_mod, lemma_fundamental_div_mod_converse};

verus! {

/// Ceiling division of a non-negative `a` by a positive `b`.
pub open spec fn cdiv(a: int, b: int) -> int {
    a / b + if a % b == 0 { 0int } else { 1int }
}

pub open spec fn max_int(a: int, b: int) -> int {
    if a >= b { a } else { b }
}

pub open spec fn min_int(a: int, b: int) -> int {
    if a <= b { a } else { b }
}

/// Basic facts about ceiling division.
pub proof fn lemma_cdiv(a: int, b: int)
    requires
        a >= 0,
        b > 0,
    ensures
        cdiv(a, b) >= 0,
        cdiv(a, b) * b >= a,
        a > 0 ==> (cdiv(a, b) - 1) * b < a,
        a > 0 ==> cdiv(a, b) >= 1,
        a == 0 ==> cdiv(a, b) == 0,
        cdiv(a, b) <= a,
        cdiv(a, b) >= 2 ==> a > b,
{
    lemma_fundamental_div_mod(a, b);
    let q = a / b;
    let r = a % b;
    assert(a == b * q + r);
    assert(0 <= r < b);
    assert(q >= 0) by (nonlinear_arith)
        requires
            a == b * q + r,
            0 <= r < b,
            a >= 0,
            b > 0,
    ;
    assert(cdiv(a, b) * b >= a) by (nonlinear_arith)
        requires
            a == b * q + r,
            0 <= r < b,
            cdiv(a, b) == q + if r == 0 { 0int } else { 1int },
    ;
    assert(a > 0 ==> (cdiv(a, b) - 1) * b < a) by (nonlinear_arith)
        requires
            a == b * q + r,
            0 <= r < b,
            q >= 0,
            cdiv(a, b) == q + if r == 0 { 0int } else { 1int },
    ;
    assert(cdiv(a, b) <= a) by (nonlinear_arith)
        requires
            a == b * q + r,
            0 <= r < b,
            q >= 0,
            cdiv(a, b) == q + if r == 0 { 0int } else { 1int },
    ;
    assert(a > 0 ==> cdiv(a, b) >= 1) by (nonlinear_arith)
        requires
            a == b * q + r,
            0 <= r < b,
            q >= 0,
            cdiv(a, b) == q + if r == 0 { 0int } else { 1int },
    ;
    assert(cdiv(a, b) >= 2 ==> a > b) by (nonlinear_arith)
        requires
            a == b * q + r,
            0 <= r < b,
            q >= 0,
            cdiv(a, b) == q + if r == 0 { 0int } else { 1int },
    ;
}

/// `a.div_ceil(b)`.
pub fn div_ceil(a: usize, b: usize) -> (r: usize)
    requires
        b > 0,
    ensures
        r == cdiv(a as int, b as int),
{
    proof {
        lemma_cdiv(a as int, b as int);
    }
    a / b + if a % b == 0 { 0 } else { 1 }
}

proof fn lemma_mul_le(a: int, b: int, c: int, d: int)
    requires
        0 <= a <= c,
        0 <= b <= d,
    ensures
        a * b <= c * d,
{
    assert(a * b <= c * d) by (nonlinear_arith)
        requires
            0 <= a <= c,
            0 <= b <= d,
    ;
}

/// Tile size the thread-count ladder proposes (threads `t >= 1`).
pub open spec fn base_tile(t: int) -> int {
    if t <= 2 {
        512
    } else if t <= 4 {
        384
    } else if t <= 8 {
        256
    } else {
        128
    }
}

/// `tile` rounded up so that the convolved width `tile + 2*halo` is a
/// multiple of 16.
pub open spec fn align_tile(tile: int, halo: int) -> int {
    tile + (16 - (tile + 2 * halo) % 16) % 16
}

/// The last tile along `extent` is under half the others.
pub open spec fn is_runt(extent: int, ladder: int) -> bool {
    extent > ladder && 2 * (extent - (cdiv(extent, ladder) - 1) * ladder) < ladder
}

/// Tile count on the longer axis: raised from `n` until there is a tile per
/// thread, or until one more tile would go below `min_tile`.
pub open spec fn tile_count_search(w: int, h: int, side: int, min_tile: int, t: int, n: int) -> int
    decreases side - n,
{
    if n < 1 || min_tile < 2 || side < 1 || w < 0 || h < 0 || !(cdiv(side, n + 1) >= min_tile) {
        n
    } else {
        let cand = cdiv(side, n);
        if cdiv(w, cand) * cdiv(h, cand) >= t {
            n
        } else {
            proof {
                lemma_cdiv(side, n + 1);
            }
            tile_count_search(w, h, side, min_tile, t, n + 1)
        }
    }
}

/// The tile the tiled runner uses for an `h` x `w` image with `threads`
/// threads and receptive-field radius `halo`: `tile` itself when nonzero;
/// otherwise the thread-count ladder's tile, unless that tile leaves threads
/// idle (starved) or, with several threads and few tiles per thread, leaves a
/// runt under half a tile (lopsided), in which case an even split sized from
/// the tile count is used; both rounded so `tile + 2*halo` is a multiple of 16.
pub open spec fn planned_tile(h: int, w: int, threads: int, tile: int, halo: int) -> int {
    if tile != 0 {
        tile
    } else {
        let t = max_int(threads, 1);
        let base = base_tile(t);
        let min_tile = max_int(2 * halo, 32);
        let side = max_int(h, w);
        let n0 = max_int(cdiv(side, base), 1);
        let n = tile_count_search(w, h, side, min_tile, t, n0);
        let even = max_int(cdiv(side, n), min_int(min_tile, side));
        let ladder = align_tile(base, halo);
        let n_tiles = cdiv(w, ladder) * cdiv(h, ladder);
        let starved = n_tiles < t;
        let lopsided = t > 1 && n_tiles <= 2 * t && (is_runt(w, ladder) || is_runt(h, ladder));
        if starved || lopsided {
            align_tile(even, halo)
        } else {
            ladder
        }
    }
}

/// Size bounds under which the plan's arithmetic stays in range.
pub open spec fn plan_inputs_fit(h: int, w: int, halo: int) -> bool {
    &&& h <= usize::MAX / 4
    &&& w <= usize::MAX / 4
    &&& w * h <= usize::MAX
    &&& halo <= usize::MAX / 8
}

fn align(tile: usize, halo: usize) -> (r: usize)
    requires
        tile <= usize::MAX / 4,
        halo <= usize::MAX / 8,
    ensures
        r == align_tile(tile as int, halo as int),
        r <= tile + 15,
{
    tile + (16 - (tile + 2 * halo) % 16) % 16
}

fn runt(extent: usize, ladder: usize) -> (r: bool)
    requires
        ladder > 0,
        extent <= usize::MAX / 4,
    ensures
        r == is_runt(extent as int, ladder as int),
{
    if extent > ladder {
        let k = div_ceil(extent, ladder);
        proof {
            lemma_cdiv(extent as int, ladder as int);
            assert((k - 1) * ladder < extent) by (nonlinear_arith)
                requires
                    (cdiv(extent as int, ladder as int) - 1) * ladder < extent,
                    k == cdiv(extent as int, ladder as int),
            ;
            assert(0 <= (k - 1) * ladder) by (nonlinear_arith)
                requires
                    k >= 1,
                    ladder > 0,
            ;
        }
        2 * (extent - (k - 1) * ladder) < ladder
    } else {
        false
    }
}

/// The tile count on the longer axis (`tile_count_search` from `n0`).
fn search_tile_count(w: usize, h: usize, side: usize, min_tile: usize, t: usize, n0: usize) -> (n: usize)
    requires
        1 <= n0 <= side + 1,
        min_tile >= 32,
        plan_inputs_fit(h as int, w as int, 0),
        side == max_int(h as int, w as int),
    ensures
        n == tile_count_search(w as int, h as int, side as int, min_tile as int, t as int, n0 as int),
        1 <= n,
        n <= side || n == n0,
{
    let mut n = n0;
    while div_ceil(side, n + 1) >= min_tile
        invariant
            1 <= n,
            n <= side || n == n0,
            n0 <= side + 1,
            min_tile >= 32,
            plan_inputs_fit(h as int, w as int, 0),
            side == max_int(h as int, w as int),
            tile_count_search(w as int, h as int, side as int, min_tile as int, t as int, n as int)
                == tile_count_search(
                w as int,
                h as int,
                side as int,
                min_tile as int,
                t as int,
                n0 as int,
            ),
        ensures
            n == tile_count_search(w as int, h as int, side as int, min_tile as int, t as int, n0 as int),
            1 <= n,
            n <= side || n == n0,
        decreases side - n,
    {
        proof {
            lemma_cdiv(side as int, (n + 1) as int);
            lemma_cdiv(side as int, n as int);
        }
        let cand = div_ceil(side, n);
        let a = div_ceil(w, cand);
        let b = div_ceil(h, cand);
        proof {
            lemma_cdiv(w as int, cand as int);
            lemma_cdiv(h as int, cand as int);
            lemma_mul_le(a as int, b as int, w as int, h as int);
        }
        if a * b >= t {
            break;
        }
        n += 1;
    }
    n
}

/// Number of tiles of side `tile` covering `w` x `h`, per axis and in all.
fn grid_count(w: usize, h: usize, tile: usize) -> (r: (usize, usize, usize))
    requires
        tile > 0,
        w * h <= usize::MAX,
    ensures
        r.0 == cdiv(w as int, tile as int),
        r.1 == cdiv(h as int, tile as int),
        r.2 == r.0 * r.1,
        r.0 <= w,
        r.1 <= h,
{
    let lx = div_ceil(w, tile);
    let ly = div_ceil(h, tile);
    proof {
        lemma_cdiv(w as int, tile as int);
        lemma_cdiv(h as int, tile as int);
        lemma_mul_le(lx as int, ly as int, w as int, h as int);
    }
    (lx, ly, lx * ly)
}

/// The tile size of the adopted-model tiled runner (see `planned_tile`).
pub fn plan_tile(h: usize, w: usize, threads: usize, tile: usize, halo: usize) -> (r: usize)
    requires
        plan_inputs_fit(h as int, w as int, halo as int),
    ensures
        r == planned_tile(h as int, w as int, threads as int, tile as int, halo as int),
{
    if tile != 0 {
        return tile;
    }
    let t = if threads < 1 { 1 } else { threads };
    let base: usize = if t <= 2 {
        512
    } else if t <= 4 {
        384
    } else if t <= 8 {
        256
    } else {
        128
    };
    let min_tile = if 2 * halo >= 32 { 2 * halo } else { 32 };
    let side = if h >= w { h } else { w };
    let c0 = div_ceil(side, base);
    let n0 = if c0 >= 1 { c0 } else { 1 };
    proof {
        lemma_cdiv(side as int, base as int);
    }
    let n = search_tile_count(w, h, side, min_tile, t, n0);
    proof {
        lemma_cdiv(side as int, n as int);
    }
    let c = div_ceil(side, n);
    let floor = if min_tile <= side { min_tile } else { side };
    let even = if c >= floor { c } else { floor };
    let ladder = align(base, halo);
    let (_, _, n_tiles) = grid_count(w, h, ladder);
    let starved = n_tiles < t;
    let lopsided = t > 1 && !starved && n_tiles - t <= t && (runt(w, ladder) || runt(h, ladder));
    if starved || lopsided {
        align(even, halo)
    } else {
        ladder
    }
}

/// Padding to a multiple of 16 makes the convolved width a multiple of 16,
/// and adds at most 15.
pub proof fn lemma_align_tile(tile: int, halo: int)
    requires
        tile >= 0,
        halo >= 0,
    ensures
        (align_tile(tile, halo) + 2 * halo) % 16 == 0,
        tile <= align_tile(tile, halo) <= tile + 15,
{
    let x = tile + 2 * halo;
    lemma_fundamental_div_mod(x, 16);
    let r = x % 16;
    if r == 0 {
        assert(align_tile(tile, halo) == tile);
    } else {
        assert(align_tile(tile, halo) + 2 * halo == 16 * (x / 16) + 16);
        lemma_fundamental_div_mod_converse(16 * (x / 16) + 16, 16, x / 16 + 1, 0);
    }
}

/// A planned default tile is aligned: the convolved width `tile + 2*halo`
/// is a multiple of the widest vector (16 lanes).
pub proof fn lemma_planned_tile_aligned(h: int, w: int, threads: int, halo: int)
    requires
        h >= 0,
        w >= 0,
        halo >= 0,
    ensures
        (planned_tile(h, w, threads, 0, halo) + 2 * halo) % 16 == 0,
{
    let t = max_int(threads, 1);
    let base = base_tile(t);
    let min_tile = max_int(2 * halo, 32);
    let side = max_int(h, w);
    let n0 = max_int(cdiv(side, base), 1);
    let n = tile_count_search(w, h, side, min_tile, t, n0);
    lemma_tile_count_search_pos(w, h, side, min_tile, t, n0);
    lemma_cdiv(side, n);
    let even = max_int(cdiv(side, n), min_int(min_tile, side));
    lemma_align_tile(base, halo);
    lemma_align_tile(even, halo);
}

proof fn lemma_tile_count_search_pos(w: int, h: int, side: int, min_tile: int, t: int, n: int)
    requires
        n >= 1,
    ensures
        tile_count_search(w, h, side, min_tile, t, n) >= n,
    decreases side - n,
{
    if n < 1 || min_tile < 2 || side < 1 || w < 0 || h < 0 || !(cdiv(side, n + 1) >= min_tile) {
    } else {
        let cand = cdiv(side, n);
        if cdiv(w, cand) * cdiv(h, cand) >= t {
        } else {
            lemma_cdiv(side, n + 1);
            lemma_tile_count_search_pos(w, h, side, min_tile, t, n + 1);
        }
    }
}

/// The runner never subdivides an image whose longer side is at least 32
/// into tiles under 32: a default tile is at least 32 there, and at least
/// the ladder's 128 whenever the ladder's own tile is kept.
pub proof fn lemma_planned_tile_floor(h: int, w: int, threads: int, halo: int)
    requires
        h >= 0,
        w >= 0,
        halo >= 0,
        max_int(h, w) >= 32,
    ensures
        planned_tile(h, w, threads, 0, halo) >= 32,
{
    let t = max_int(threads, 1);
    let base = base_tile(t);
    let min_tile = max_int(2 * halo, 32);
    let side = max_int(h, w);
    let n0 = max_int(cdiv(side, base), 1);
    let n = tile_count_search(w, h, side, min_tile, t, n0);
    lemma_tile_count_search_pos(w, h, side, min_tile, t, n0);
    lemma_cdiv(side, n);
    let even = max_int(cdiv(side, n), min_int(min_tile, side));
    lemma_align_tile(base, halo);
    lemma_align_tile(even, halo);
}

/// A nonzero requested tile is used as given.
pub proof fn lemma_planned_tile_explicit(h: int, w: int, threads: int, tile: int, halo: int)
    requires
        tile != 0,
    ensures
        planned_tile(h, w, threads, tile, halo) == tile,
{
}

/// The tile-count search does not care which axis is which.
proof fn lemma_tile_count_search_swap(w: int, h: int, side: int, min_tile: int, t: int, n: int)
    ensures
        tile_count_search(w, h, side, min_tile, t, n) == tile_count_search(h, w, side, min_tile, t, n),
    decreases side - n,
{
    if n < 1 || min_tile < 2 || side < 1 || w < 0 || h < 0 || !(cdiv(side, n + 1) >= min_tile) {
    } else {
        let cand = cdiv(side, n);
        assert(cdiv(w, cand) * cdiv(h, cand) == cdiv(h, cand) * cdiv(w, cand)) by (nonlinear_arith);
        if !(cdiv(w, cand) * cdiv(h, cand) >= t) {
            lemma_cdiv(side, n + 1);
            lemma_tile_count_search_swap(w, h, side, min_tile, t, n + 1);
        }
    }
}

/// The tile plan treats both axes alike: a portrait image gets the same tile
/// as the same image turned landscape, so a runt row of tiles counts just as
/// a runt column does, and tiles are counted over both axes.
pub proof fn lemma_planned_tile_symmetric(h: int, w: int, threads: int, tile: int, halo: int)
    ensures
        planned_tile(h, w, threads, tile, halo) == planned_tile(w, h, threads, tile, halo),
{
    if tile == 0 {
        let t = max_int(threads, 1);
        let base = base_tile(t);
        let min_tile = max_int(2 * halo, 32);
        let side = max_int(h, w);
        assert(side == max_int(w, h));
        let n0 = max_int(cdiv(side, base), 1);
        lemma_tile_count_search_swap(w, h, side, min_tile, t, n0);
        let ladder = align_tile(base, halo);
        assert(cdiv(w, ladder) * cdiv(h, ladder) == cdiv(h, ladder) * cdiv(w, ladder))
            by (nonlinear_arith);
    }
}

/// A tile's core rectangle `[x0, x1) x [y0, y1)` and its halo-extended
/// rectangle `[ex0, ex1) x [ey0, ey1)`, clamped to the image.
#[derive(Clone, Copy, Debug, PartialEq, Eq)]
pub struct TileRect {
    pub x0: usize,
    pub y0: usize,
    pub x1: usize,
    pub y1: usize,
    pub ex0: usize,
    pub ey0: usize,
    pub ex1: usize,
    pub ey1: usize,
}

/// Left/top edge of tile column (or row) `k`.
pub open spec fn tile_start(k: int, tile: int) -> int {
    k * tile
}

/// The rectangles of tile `idx` in a grid `tiles_x` tiles wide: the core is
/// the tile cell cut to the image, the extended rectangle is the core grown
/// by `halo` on each side and cut to the image.
pub open spec fn tile_rect_spec(r: TileRect, idx: int, tiles_x: int, tile: int, w: int, h: int, halo: int) -> bool {
    let x0 = tile_start(idx % tiles_x, tile);
    let y0 = tile_start(idx / tiles_x, tile);
    &&& r.x0 == x0
    &&& r.y0 == y0
    &&& r.x1 == min_int(x0 + tile, w)
    &&& r.y1 == min_int(y0 + tile, h)
    &&& r.ex0 == max_int(x0 - halo, 0)
    &&& r.ey0 == max_int(y0 - halo, 0)
    &&& r.ex1 == min_int(r.x1 + halo, w)
    &&& r.ey1 == min_int(r.y1 + halo, h)
}

/// Pixel `(x, y)` lies in the core of tile `idx`.
pub open spec fn core_contains(idx: int, tiles_x: int, tile: int, w: int, h: int, x: int, y: int) -> bool {
    let x0 = tile_start(idx % tiles_x, tile);
    let y0 = tile_start(idx / tiles_x, tile);
    x0 <= x < min_int(x0 + tile, w) && y0 <= y < min_int(y0 + tile, h)
}

/// Size bounds under which tile geometry stays in range.
pub open spec fn grid_inputs_fit(w: int, h: int, tile: int, halo: int) -> bool {
    &&& 1 <= tile <= usize::MAX / 4
    &&& w <= usize::MAX / 4
    &&& h <= usize::MAX / 4
    &&& w * h <= usize::MAX
    &&& halo <= usize::MAX / 4
}

/// The tile grid for a `w` x `h` image: tiles across, tiles down, and tiles in all.
pub fn tile_grid(w: usize, h: usize, tile: usize) -> (r: (usize, usize, usize))
    requires
        tile > 0,
        w * h <= usize::MAX,
    ensures
        r.0 == cdiv(w as int, tile as int),
        r.1 == cdiv(h as int, tile as int),
        r.2 == r.0 * r.1,
{
    grid_count(w, h, tile)
}

proof fn lemma_start_below(k: int, n: int, tile: int, extent: int)
    requires
        0 <= k < n,
        tile >= 1,
        extent >= 0,
        n == cdiv(extent, tile),
    ensures
        0 <= k * tile < extent,
{
    lemma_cdiv(extent, tile);
    assert(0 <= k * tile) by (nonlinear_arith)
        requires
            k >= 0,
            tile >= 1,
    ;
    assert(k * tile <= (n - 1) * tile) by (nonlinear_arith)
        requires
            k <= n - 1,
            tile >= 1,
    ;
}

/// Rectangles of tile `idx` (row-major over the grid).
pub fn tile_rect(idx: usize, tiles_x: usize, tiles_y: usize, tile: usize, w: usize, h: usize, halo: usize) -> (r: TileRect)
    requires
        grid_inputs_fit(w as int, h as int, tile as int, halo as int),
        tiles_x == cdiv(w as int, tile as int),
        tiles_y == cdiv(h as int, tile as int),
        idx < tiles_x * tiles_y,
    ensures
        tile_rect_spec(r, idx as int, tiles_x as int, tile as int, w as int, h as int, halo as int),
        r.ex0 <= r.x0 < r.x1 <= r.ex1 <= w,
        r.ey0 <= r.y0 < r.y1 <= r.ey1 <= h,
{
    proof {
        lemma_cdiv(w as int, tile as int);
        lemma_cdiv(h as int, tile as int);
        assert(tiles_x > 0) by (nonlinear_arith)
            requires
                idx < tiles_x * tiles_y,
                tiles_x >= 0,
                tiles_y >= 0,
        ;
        lemma_fundamental_div_mod(idx as int, tiles_x as int);
        assert(idx / tiles_x < tiles_y) by (nonlinear_arith)
            requires
                idx < tiles_x * tiles_y,
                idx == tiles_x * (idx / tiles_x) + idx % tiles_x,
                0 <= idx % tiles_x,
                tiles_x > 0,
        ;
        lemma_start_below((idx % tiles_x) as int, tiles_x as int, tile as int, w as int);
        lemma_start_below((idx / tiles_x) as int, tiles_y as int, tile as int, h as int);
    }
    let tx = idx % tiles_x;
    let ty = idx / tiles_x;
    let x0 = tx * tile;
    let y0 = ty * tile;
    let x1 = if x0 + tile <= w { x0 + tile } else { w };
    let y1 = if y0 + tile <= h { y0 + tile } else { h };
    let ex0 = if x0 >= halo { x0 - halo } else { 0 };
    let ey0 = if y0 >= halo { y0 - halo } else { 0 };
    let ex1 = if x1 + halo <= w { x1 + halo } else { w };
    let ey1 = if y1 + halo <= h { y1 + halo } else { h };
    TileRect { x0, y0, x1, y1, ex0, ey0, ex1, ey1 }
}

/// The tile cores partition the image: every pixel lies in the core of
/// exactly one tile, the one in its tile row and tile column.
pub proof fn lemma_tiles_partition(w: int, h: int, tile: int, x: int, y: int)
    requires
        tile >= 1,
        0 <= x < w,
        0 <= y < h,
    ensures
        ({
            let tiles_x = cdiv(w, tile);
            let tiles_y = cdiv(h, tile);
            let idx = (y / tile) * tiles_x + x / tile;
            &&& 0 <= idx < tiles_x * tiles_y
            &&& core_contains(idx, tiles_x, tile, w, h, x, y)
            &&& forall|j: int|
                0 <= j < tiles_x * tiles_y && #[trigger] core_contains(j, tiles_x, tile, w, h, x, y)
                    ==> j == idx
        }),
{
    let tiles_x = cdiv(w, tile);
    let tiles_y = cdiv(h, tile);
    lemma_cdiv(w, tile);
    lemma_cdiv(h, tile);
    lemma_fundamental_div_mod(x, tile);
    lemma_fundamental_div_mod(y, tile);
    let qx = x / tile;
    let qy = y / tile;
    assert(0 <= qx < tiles_x) by (nonlinear_arith)
        requires
            x == tile * qx + x % tile,
            0 <= x % tile < tile,
            0 <= x < w,
            tiles_x * tile >= w,
            tile >= 1,
    ;
    assert(0 <= qy < tiles_y) by (nonlinear_arith)
        requires
            y == tile * qy + y % tile,
            0 <= y % tile < tile,
            0 <= y < h,
            tiles_y * tile >= h,
            tile >= 1,
    ;
    let idx = qy * tiles_x + qx;
    assert(0 <= idx < tiles_x * tiles_y) by (nonlinear_arith)
        requires
            0 <= qx < tiles_x,
            0 <= qy < tiles_y,
            idx == qy * tiles_x + qx,
    ;
    lemma_fundamental_div_mod_converse(idx, tiles_x, qy, qx);
    assert(idx % tiles_x == qx && idx / tiles_x == qy);
    assert(qx * tile <= x < qx * tile + tile) by (nonlinear_arith)
        requires
            x == tile * qx + x % tile,
            0 <= x % tile < tile,
    ;
    assert(qy * tile <= y < qy * tile + tile) by (nonlinear_arith)
        requires
            y == tile * qy + y % tile,
            0 <= y % tile < tile,
    ;
    assert(core_contains(idx, tiles_x, tile, w, h, x, y));
    assert forall|j: int|
        0 <= j < tiles_x * tiles_y && #[trigger] core_contains(j, tiles_x, tile, w, h, x, y)
            implies j == idx by {
        lemma_fundamental_div_mod(j, tiles_x);
        let jx = j % tiles_x;
        let jy = j / tiles_x;
        assert(jx * tile <= x < jx * tile + tile);
        assert(jy * tile <= y < jy * tile + tile);
        assert(x == jx * tile + (x - jx * tile));
        lemma_fundamental_div_mod_converse(x, tile, jx, x - jx * tile);
        assert(y == jy * tile + (y - jy * tile));
        lemma_fundamental_div_mod_converse(y, tile, jy, y - jy * tile);
        assert(jx == qx && jy == qy);
        assert(j == tiles_x * jy + jx);
        assert(j == jy * tiles_x + jx) by (nonlinear_arith)
            requires
                j == tiles_x * jy + jx,
        ;
    }
}

/// Pasting a tile's upscaled core: with scale `s`, the core sits at
/// `((x0 - ex0) * s, (y0 - ey0) * s)` inside the tile output, which is
/// `s * (ex1 - ex0)` wide and `s * (ey1 - ey0)` high, and at `(x0 * s, y0 * s)`
/// in the full output, `s * w` wide and `s * h` high; both windows fit.
pub proof fn lemma_paste_window_fits(r: TileRect, w: int, h: int, s: int)
    requires
        s >= 1,
        r.ex0 <= r.x0 < r.x1 <= r.ex1 <= w,
        r.ey0 <= r.y0 < r.y1 <= r.ey1 <= h,
    ensures
        (r.x0 - r.ex0) * s + (r.x1 - r.x0) * s <= s * (r.ex1 - r.ex0),
        (r.y0 - r.ey0) * s + (r.y1 - r.y0) * s <= s * (r.ey1 - r.ey0),
        r.x0 * s + (r.x1 - r.x0) * s <= s * w,
        r.y0 * s + (r.y1 - r.y0) * s <= s * h,
{
    assert((r.x0 - r.ex0) * s + (r.x1 - r.x0) * s <= s * (r.ex1 - r.ex0)) by (nonlinear_arith)
        requires
            s >= 1,
            r.ex0 <= r.x0 < r.x1 <= r.ex1,
    ;
    assert((r.y0 - r.ey0) * s + (r.y1 - r.y0) * s <= s * (r.ey1 - r.ey0)) by (nonlinear_arith)
        requires
            s >= 1,
            r.ey0 <= r.y0 < r.y1 <= r.ey1,
    ;
    assert(r.x0 * s + (r.x1 - r.x0) * s <= s * w) by (nonlinear_arith)
        requires
            s >= 1,
            r.x0 < r.x1 <= w,
    ;
    assert(r.y0 * s + (r.y1 - r.y0) * s <= s * h) by (nonlinear_arith)
        requires
            s >= 1,
            r.y0 < r.y1 <= h,
    ;
}

/// Worker threads for `n_tiles` tiles: the request, at least one, at most one per tile.
pub fn worker_count(threads: usize, n_tiles: usize) -> (r: usize)
    ensures
        r == min_int(max_int(threads as int, 1), n_tiles as int),
{
    let t = if threads < 1 { 1 } else { threads };
    if t <= n_tiles { t } else { n_tiles }
}

/// The core tile of the SPANF tiled runner: the measured default 128 when 0 is asked.
pub fn spanf_tile(tile: usize) -> (r: usize)
    ensures
        r == if tile == 0 { 128 } else { tile as int },
{
    if tile == 0 { 128 } else { tile }
}

} // verus!
