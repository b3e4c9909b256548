//! Moving pixels between a 3-plane image and one tile: cutting out a
//! halo-extended tile, and pasting a tile's upscaled core into the output.
//! Both are index permutations, so they work on any `Copy` sample.
use vstd::prelude::*;
use crate::pack::{lemma_row_major_bound, lemma_split};
use crate::tiling::{TileRect, lemma_paste_window_fits};

verus! {

/// Position of sample (`x`, `y`) of plane `c` in 3 planes of `pw x ph`.
pub open spec fn planar_index(c: int, y: int, x: int, pw: int, ph: int) -> int {
    c * (ph * pw) + y * pw + x
}

/// Cut the halo-extended rectangle of `r` out of a 3-plane `h x w` image:
/// 3 planes of `(ey1 - ey0) x (ex1 - ex0)`.
pub fn gather_tile<T: Copy>(input: &[T], h: usize, w: usize, r: &TileRect) -> (out: Vec<T>)
    requires
        input@.len() == 3 * (h * w),
        r.ex0 <= r.ex1 <= w,
        r.ey0 <= r.ey1 <= h,
    ensures
        is_gathered(out@, input@, h as int, w as int, *r),
{
    let ew = r.ex1 - r.ex0;
    let eh = r.ey1 - r.ey0;
    proof {
        assert(eh * ew <= h * w) by (nonlinear_arith)
            requires
                eh <= h,
                ew <= w,
        ;
        assert(input.len() <= usize::MAX);
    }
    let plane = eh * ew;
    let n = 3 * plane;
    let mut out: Vec<T> = Vec::new();
    let mut k: usize = 0;
    while k < n
        invariant
            input@.len() == 3 * (h * w),
            r.ex0 <= r.ex1 <= w,
            r.ey0 <= r.ey1 <= h,
            ew == r.ex1 - r.ex0,
            eh == r.ey1 - r.ey0,
            plane == eh * ew,
            n == 3 * plane,
            k <= n,
            out@.len() == k,
            forall|j: int|
                0 <= j < k ==> #[trigger] out@[j] == input@[planar_index(
                    j / plane as int,
                    r.ey0 + j % plane as int / ew as int,
                    r.ex0 + j % plane as int % ew as int,
                    w as int,
                    h as int,
                )],
        decreases n - k,
    {
        proof {
            assert(plane >= 1 && ew >= 1) by (nonlinear_arith)
                requires
                    k < 3 * plane,
                    plane == eh * ew,
                    k >= 0,
            ;
        }
        let c = k / plane;
        let rem = k % plane;
        let y = rem / ew;
        let x = rem % ew;
        proof {
            assert(c < 3) by (nonlinear_arith)
                requires
                    c == k / plane,
                    k < 3 * plane,
                    plane >= 1,
            ;
            assert(rem < plane) by (nonlinear_arith)
                requires
                    rem == k % plane,
                    plane >= 1,
            ;
            assert(y < eh) by (nonlinear_arith)
                requires
                    y == rem / ew,
                    rem < eh * ew,
                    ew >= 1,
            ;
            assert(x < ew) by (nonlinear_arith)
                requires
                    x == rem % ew,
                    ew >= 1,
            ;
            lemma_row_major_bound(r.ey0 + y, r.ex0 + x, h as int, w as int);
            lemma_row_major_bound(c as int, (r.ey0 + y) * w + r.ex0 + x, 3, (h * w) as int);
            assert(c * (h * w) + (r.ey0 + y) * w + r.ex0 + x < input.len());
        }
        let src = c * (h * w) + (r.ey0 + y) * w + r.ex0 + x;
        out.push(input[src]);
        k = k + 1;
    }
    proof {
        assert forall|c: int, y: int, x: int|
            0 <= c < 3 && 0 <= y < r.ey1 - r.ey0 && 0 <= x < r.ex1 - r.ex0 implies #[trigger] out@[
            planar_index(c, y, x, (r.ex1 - r.ex0) as int, (r.ey1 - r.ey0) as int)]
            == input@[planar_index(c, r.ey0 + y, r.ex0 + x, w as int, h as int)] by {
            let j = c * (plane as int) + (y * (ew as int) + x);
            lemma_row_major_bound(y, x, eh as int, ew as int);
            lemma_split(y, ew as int, x);
            lemma_split(c, plane as int, y * (ew as int) + x);
            lemma_row_major_bound(c, y * (ew as int) + x, 3, plane as int);
        }
    }
    out
}

/// The window a paste writes: `cw x ch` samples at (`x0`, `y0`) of each of
/// the 3 planes of `ow x oh`, taken from (`cx`, `cy`) of the 3 planes of a
/// `tw x th` tile.
#[derive(Clone, Copy, Debug)]
pub struct PasteWindow {
    pub ow: usize,
    pub oh: usize,
    pub x0: usize,
    pub y0: usize,
    pub cw: usize,
    pub ch: usize,
    pub tw: usize,
    pub th: usize,
    pub cx: usize,
    pub cy: usize,
}

impl PasteWindow {
    /// Both windows lie inside their planes.
    pub open spec fn fits(self) -> bool {
        &&& self.x0 + self.cw <= self.ow
        &&& self.y0 + self.ch <= self.oh
        &&& self.cx + self.cw <= self.tw
        &&& self.cy + self.ch <= self.th
    }

    /// Output sample `i` lies in the window: its plane is one of the 3 and
    /// its row and column fall inside.
    pub open spec fn covers(self, i: int) -> bool {
        let plane = (self.oh * self.ow) as int;
        let c = i / plane;
        let yy = i % plane / self.ow as int;
        let xx = i % plane % self.ow as int;
        &&& 0 <= c < 3
        &&& self.y0 <= yy < self.y0 + self.ch
        &&& self.x0 <= xx < self.x0 + self.cw
    }

    /// The tile sample that output sample `i` of the window takes.
    pub open spec fn source(self, i: int) -> int {
        let plane = (self.oh * self.ow) as int;
        let c = i / plane;
        let yy = i % plane / self.ow as int;
        let xx = i % plane % self.ow as int;
        planar_index(
            c,
            self.cy + yy - self.y0,
            self.cx + xx - self.x0,
            self.tw as int,
            self.th as int,
        )
    }

    /// Position in the window's own row-major order of output sample `i`.
    pub open spec fn rank(self, i: int) -> int {
        let plane = (self.oh * self.ow) as int;
        let c = i / plane;
        let yy = i % plane / self.ow as int;
        let xx = i % plane % self.ow as int;
        planar_index(c, yy - self.y0, xx - self.x0, self.cw as int, self.ch as int)
    }
}

/// The paste window of tile `r` in the `s`-times output of a `w x h` image.
pub open spec fn paste_window_spec(r: TileRect, s: usize, w: usize, h: usize) -> PasteWindow {
    PasteWindow {
        ow: (s * w) as usize,
        oh: (s * h) as usize,
        x0: (r.x0 * s) as usize,
        y0: (r.y0 * s) as usize,
        cw: ((r.x1 - r.x0) * s) as usize,
        ch: ((r.y1 - r.y0) * s) as usize,
        tw: (s * (r.ex1 - r.ex0)) as usize,
        th: (s * (r.ey1 - r.ey0)) as usize,
        cx: ((r.x0 - r.ex0) * s) as usize,
        cy: ((r.y0 - r.ey0) * s) as usize,
    }
}

/// `tile` holds the halo-extended rectangle of `r` cut from the 3-plane
/// `h x w` image `input`, as `gather_tile` returns it.
pub open spec fn is_gathered<T>(tile: Seq<T>, input: Seq<T>, h: int, w: int, r: TileRect) -> bool {
    &&& tile.len() == 3 * ((r.ey1 - r.ey0) * (r.ex1 - r.ex0))
    &&& forall|c: int, y: int, x: int|
        0 <= c < 3 && 0 <= y < r.ey1 - r.ey0 && 0 <= x < r.ex1 - r.ex0 ==> #[trigger] tile[
            planar_index(c, y, x, (r.ex1 - r.ex0) as int, (r.ey1 - r.ey0) as int)]
            == input[planar_index(c, r.ey0 + y, r.ex0 + x, w, h)]
}

/// The paste that puts tile `r`'s upscaled core into the `s`-times output
/// of a `w x h` image: the tile was upscaled with its halo, so its core
/// starts `s` times the halo's width into it.
pub fn paste_window_for(r: &TileRect, s: usize, w: usize, h: usize) -> (pw: PasteWindow)
    requires
        s >= 1,
        r.ex0 <= r.x0 < r.x1 <= r.ex1 <= w,
        r.ey0 <= r.y0 < r.y1 <= r.ey1 <= h,
        s * w <= usize::MAX,
        s * h <= usize::MAX,
    ensures
        pw.fits(),
        pw == paste_window_spec(*r, s, w, h),
        pw.ow == s * w,
        pw.oh == s * h,
        pw.x0 == r.x0 * s,
        pw.y0 == r.y0 * s,
        pw.cw == (r.x1 - r.x0) * s,
        pw.ch == (r.y1 - r.y0) * s,
        pw.tw == s * (r.ex1 - r.ex0),
        pw.th == s * (r.ey1 - r.ey0),
        pw.cx == (r.x0 - r.ex0) * s,
        pw.cy == (r.y0 - r.ey0) * s,
{
    proof {
        lemma_paste_window_fits(*r, w as int, h as int, s as int);
        assert(s * (r.ex1 - r.ex0) <= s * w && s * (r.ey1 - r.ey0) <= s * h
            && r.x0 * s <= s * w && r.y0 * s <= s * h) by (nonlinear_arith)
            requires
                s >= 1,
                r.ex0 <= r.x0 <= r.ex1 <= w,
                r.ey0 <= r.y0 <= r.ey1 <= h,
        ;
    }
    PasteWindow {
        ow: s * w,
        oh: s * h,
        x0: r.x0 * s,
        y0: r.y0 * s,
        cw: (r.x1 - r.x0) * s,
        ch: (r.y1 - r.y0) * s,
        tw: s * (r.ex1 - r.ex0),
        th: s * (r.ey1 - r.ey0),
        cx: (r.x0 - r.ex0) * s,
        cy: (r.y0 - r.ey0) * s,
    }
}

/// Decomposing a planar index gives back its plane, row and column.
proof fn lemma_planar_split(c: int, y: int, x: int, pw: int, ph: int)
    requires
        0 <= c,
        0 <= y < ph,
        0 <= x < pw,
    ensures
        planar_index(c, y, x, pw, ph) / (ph * pw) == c,
        planar_index(c, y, x, pw, ph) % (ph * pw) / pw == y,
        planar_index(c, y, x, pw, ph) % (ph * pw) % pw == x,
{
    lemma_row_major_bound(y, x, ph, pw);
    lemma_split(c, ph * pw, y * pw + x);
    lemma_split(y, pw, x);
}

/// Copy the window's samples from `tile` into `out`; every other sample of
/// `out` is left as it was.
pub fn paste_window<T: Copy>(out: &mut Vec<T>, tile: &[T], pw: &PasteWindow)
    requires
        pw.fits(),
        old(out)@.len() == 3 * (pw.oh * pw.ow),
        tile@.len() == 3 * (pw.th * pw.tw),
    ensures
        final(out)@.len() == old(out)@.len(),
        forall|i: int|
            0 <= i < old(out)@.len() ==> #[trigger] final(out)@[i] == if pw.covers(i) {
                tile@[pw.source(i)]
            } else {
                old(out)@[i]
            },
{
    let ghost before = out@;
    let out_len = out.len();
    let tile_len = tile.len();
    proof {
        assert(pw.ch * pw.cw <= pw.oh * pw.ow) by (nonlinear_arith)
            requires
                pw.ch <= pw.oh,
                pw.cw <= pw.ow,
        ;
        assert(before.len() == 3 * (pw.oh * pw.ow));
        assert(pw.th * pw.tw <= 3 * (pw.th * pw.tw));
    }
    let ow = pw.ow;
    let oh = pw.oh;
    let plane = oh * ow;
    let cplane = pw.ch * pw.cw;
    let n = 3 * cplane;
    let mut k: usize = 0;
    while k < n
        invariant
            pw.fits(),
            before.len() == 3 * (pw.oh * pw.ow),
            tile@.len() == 3 * (pw.th * pw.tw),
            out@.len() == before.len(),
            out_len == before.len(),
            tile_len == tile@.len(),
            ow == pw.ow,
            oh == pw.oh,
            plane == oh * ow,
            cplane == pw.ch * pw.cw,
            n == 3 * cplane,
            k <= n,
            forall|i: int|
                0 <= i < before.len() ==> #[trigger] out@[i] == if pw.covers(i) && pw.rank(i) < k {
                    tile@[pw.source(i)]
                } else {
                    before[i]
                },
        decreases n - k,
    {
        let c = k / cplane;
        let rem = k % cplane;
        let y = rem / pw.cw;
        let x = rem % pw.cw;
        proof {
            assert(cplane >= 1 && pw.cw >= 1) by (nonlinear_arith)
                requires
                    k < 3 * cplane,
                    cplane == pw.ch * pw.cw,
                    k >= 0,
            ;
            assert(c < 3) by (nonlinear_arith)
                requires
                    c == k / cplane,
                    k < 3 * cplane,
                    cplane >= 1,
            ;
            assert(rem < cplane) by (nonlinear_arith)
                requires
                    rem == k % cplane,
                    cplane >= 1,
            ;
            assert(y < pw.ch) by (nonlinear_arith)
                requires
                    y == rem / pw.cw,
                    rem < pw.ch * pw.cw,
                    pw.cw >= 1,
            ;
            assert(x < pw.cw) by (nonlinear_arith)
                requires
                    x == rem % pw.cw,
                    pw.cw >= 1,
            ;
            vstd::arithmetic::div_mod::lemma_fundamental_div_mod(k as int, cplane as int);
            vstd::arithmetic::div_mod::lemma_fundamental_div_mod(rem as int, pw.cw as int);
            lemma_row_major_bound(pw.y0 + y, pw.x0 + x, oh as int, ow as int);
            lemma_row_major_bound(c as int, (pw.y0 + y) * ow + pw.x0 + x, 3, plane as int);
            lemma_row_major_bound(pw.cy + y, pw.cx + x, pw.th as int, pw.tw as int);
            lemma_row_major_bound(
                c as int,
                (pw.cy + y) * pw.tw + pw.cx + x,
                3,
                (pw.th * pw.tw) as int,
            );
        }
        let dst_in = (pw.y0 + y) * ow + pw.x0 + x;
        let dst = c * plane + dst_in;
        let src_in = (pw.cy + y) * pw.tw + pw.cx + x;
        let src = c * (pw.th * pw.tw) + src_in;
        let ghost mid = out@;
        proof {
            lemma_planar_split(c as int, pw.y0 + y, pw.x0 + x, ow as int, oh as int);
            assert(pw.covers(dst as int));
            assert(pw.source(dst as int) == src);
            assert(pw.rank(dst as int) == planar_index(c as int, y as int, x as int, pw.cw as int, pw.ch as int));
            assert(planar_index(c as int, y as int, x as int, pw.cw as int, pw.ch as int) == k)
                by (nonlinear_arith)
                requires
                    k == cplane * c + rem,
                    rem == pw.cw * y + x,
                    cplane == pw.ch * pw.cw,
            ;
        }
        out.set(dst, tile[src]);
        proof {
            assert forall|i: int| 0 <= i < before.len() implies #[trigger] out@[i] == if pw.covers(i)
                && pw.rank(i) < k + 1 {
                tile@[pw.source(i)]
            } else {
                before[i]
            } by {
                if i != dst {
                    assert(out@[i] == mid[i]);
                    if pw.covers(i) && pw.rank(i) == k {
                        lemma_rank_identifies(*pw, i, c as int, y as int, x as int);
                    }
                }
            }
        }
        k = k + 1;
    }
    proof {
        assert forall|i: int| 0 <= i < before.len() implies #[trigger] out@[i] == if pw.covers(i) {
            tile@[pw.source(i)]
        } else {
            before[i]
        } by {
            if pw.covers(i) {
                lemma_rank_below(*pw, i);
            }
        }
    }
}

/// A covered sample's rank lies in the window's `3 * ch * cw` samples.
proof fn lemma_rank_below(pw: PasteWindow, i: int)
    requires
        pw.covers(i),
    ensures
        0 <= pw.rank(i) < 3 * (pw.ch * pw.cw),
{
    let plane = (pw.oh * pw.ow) as int;
    let c = i / plane;
    let yy = i % plane / pw.ow as int;
    let xx = i % plane % pw.ow as int;
    lemma_row_major_bound(yy - pw.y0, xx - pw.x0, pw.ch as int, pw.cw as int);
    lemma_row_major_bound(c, (yy - pw.y0) * pw.cw + xx - pw.x0, 3, (pw.ch * pw.cw) as int);
}

/// Only the sample written at window position (`c`, `y`, `x`) has that rank.
proof fn lemma_rank_identifies(pw: PasteWindow, i: int, c: int, y: int, x: int)
    requires
        pw.fits(),
        0 <= i,
        pw.covers(i),
        0 <= c < 3,
        0 <= y < pw.ch,
        0 <= x < pw.cw,
        pw.rank(i) == planar_index(c, y, x, pw.cw as int, pw.ch as int),
    ensures
        i == planar_index(c, pw.y0 + y, pw.x0 + x, pw.ow as int, pw.oh as int),
{
    let plane = (pw.oh * pw.ow) as int;
    let ci = i / plane;
    let yy = i % plane / pw.ow as int;
    let xx = i % plane % pw.ow as int;
    lemma_planar_split(ci, yy - pw.y0, xx - pw.x0, pw.cw as int, pw.ch as int);
    lemma_planar_split(c, y, x, pw.cw as int, pw.ch as int);
    assert(plane > 0) by (nonlinear_arith)
        requires
            pw.oh * pw.ow == plane,
            pw.y0 <= yy < pw.y0 + pw.ch,
            pw.y0 + pw.ch <= pw.oh,
            pw.x0 + pw.cw <= pw.ow,
            pw.x0 <= xx,
            xx < pw.x0 + pw.cw,
    ;
    let r = i % plane;
    vstd::arithmetic::div_mod::lemma_fundamental_div_mod(i, plane);
    vstd::arithmetic::div_mod::lemma_fundamental_div_mod(r, pw.ow as int);
    assert(ci == c && yy - pw.y0 == y && xx - pw.x0 == x);
    assert(i == ci * plane + yy * pw.ow + xx) by (nonlinear_arith)
        requires
            i == plane * ci + r,
            r == pw.ow * yy + xx,
    ;
}

/// Tiling is exact at unit scale: pasting a gathered tile's core back, with
/// the paste window of that tile, writes every covered sample with the value
/// the input has there.
pub proof fn lemma_unit_paste_restores<T>(input: Seq<T>, tile: Seq<T>, h: usize, w: usize, r: TileRect)
    requires
        input.len() == 3 * (h * w),
        r.ex0 <= r.x0 < r.x1 <= r.ex1 <= w,
        r.ey0 <= r.y0 < r.y1 <= r.ey1 <= h,
        is_gathered(tile, input, h as int, w as int, r),
    ensures
        forall|i: int|
            0 <= i < input.len() && #[trigger] paste_window_spec(r, 1, w, h).covers(i)
                ==> tile[paste_window_spec(r, 1, w, h).source(i)] == input[i],
{
    let pw = paste_window_spec(r, 1, w, h);
    assert(pw.ow == w && pw.oh == h && pw.x0 == r.x0 && pw.y0 == r.y0 && pw.cw == r.x1 - r.x0
        && pw.ch == r.y1 - r.y0 && pw.tw == r.ex1 - r.ex0 && pw.th == r.ey1 - r.ey0
        && pw.cx == r.x0 - r.ex0 && pw.cy == r.y0 - r.ey0);
    assert forall|i: int| 0 <= i < input.len() && #[trigger] pw.covers(i) implies tile[pw.source(i)]
        == input[i] by {
        let plane = (h * w) as int;
        let c = i / plane;
        let rem = i % plane;
        let yy = rem / w as int;
        let xx = rem % w as int;
        assert(plane > 0) by (nonlinear_arith)
            requires
                0 <= i < 3 * plane,
        ;
        assert(w > 0) by (nonlinear_arith)
            requires
                plane == h * w,
                plane > 0,
        ;
        vstd::arithmetic::div_mod::lemma_fundamental_div_mod(i, plane);
        vstd::arithmetic::div_mod::lemma_fundamental_div_mod(rem, w as int);
        let y = yy - r.ey0;
        let x = xx - r.ex0;
        assert(pw.source(i) == planar_index(c, y, x, (r.ex1 - r.ex0) as int, (r.ey1 - r.ey0) as int));
        assert(tile[planar_index(c, y, x, (r.ex1 - r.ex0) as int, (r.ey1 - r.ey0) as int)]
            == input[planar_index(c, r.ey0 + y, r.ex0 + x, w as int, h as int)]);
        assert(planar_index(c, r.ey0 + y, r.ex0 + x, w as int, h as int) == i) by (nonlinear_arith)
            requires
                i == plane * c + rem,
                rem == w * yy + xx,
                plane == h * w,
                r.ey0 + y == yy,
                r.ex0 + x == xx,
        ;
    }
}

} // verus!
