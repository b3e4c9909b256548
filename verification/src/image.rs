//! Interleaved RGB8 images and the integer image operations of the eval
//! harness: crops, a 2x box downscale, amplified difference maps and a
//! synthetic test pattern.
use vstd::prelude::*;

verus! {

/// An interleaved RGB8 image, row-major, three bytes per pixel.
#[derive(Clone)]
pub struct Rgb8Img {
    pub px: Vec<u8>,
    pub w: usize,
    pub h: usize,
}

impl Rgb8Img {
    /// The pixel buffer holds exactly `w * h` RGB triples.
    pub open spec fn wf(&self) -> bool {
        self.px.len() == 3 * self.w * self.h
    }
}

/// `out` is the `cw` x `ch` window of the `w`-wide image `px` whose top-left
/// pixel is `(x0, y0)`: row `y` of `out` is row `y0 + y` of `px` from column
/// `x0` on, `cw` pixels long.
pub open spec fn is_crop(out: Seq<u8>, px: Seq<u8>, w: int, x0: int, y0: int, cw: int, ch: int) -> bool {
    &&& out.len() == 3 * cw * ch
    &&& forall|y: int, k: int|
        0 <= y < ch && 0 <= k < 3 * cw ==> #[trigger] out[y * (3 * cw) + k] == px[((y0 + y) * w + x0) * 3 + k]
}

proof fn lemma_row_index(y: int, k: int, rl: int, rows: int)
    requires
        0 <= y < rows,
        0 <= k < rl,
    ensures
        0 <= y * rl + k < rows * rl,
        y * rl <= y * rl + k < (y + 1) * rl,
{
    assert(0 <= y * rl + k < rows * rl) by (nonlinear_arith)
        requires
            0 <= y < rows,
            0 <= k < rl,
    ;
    assert((y + 1) * rl == y * rl + rl) by (nonlinear_arith);
}

proof fn lemma_src_row_in_bounds(w: int, h: int, x0: int, y0: int, cw: int, ch: int, y: int)
    requires
        0 <= x0,
        0 <= y0,
        x0 + cw <= w,
        y0 + ch <= h,
        0 <= y < ch,
        0 <= cw,
    ensures
        0 <= (y0 + y) * w,
        (y0 + y) * w + x0 <= w * h,
        ((y0 + y) * w + x0) * 3 + 3 * cw <= 3 * w * h,
        ((y0 + y) * w + x0) * 3 >= 0,
        ((y0 + y) * w + x0) * 3 + 3 * cw <= 3 * (w * h),
{
    assert(0 <= (y0 + y) * w) by (nonlinear_arith)
        requires
            0 <= y0 + y,
            0 <= w,
    ;
    assert((y0 + y) * w + x0 + cw <= w * h) by (nonlinear_arith)
        requires
            x0 + cw <= w,
            y0 + y + 1 <= h,
            0 <= x0,
            0 <= cw,
            0 <= y0 + y,
    ;
    assert(3 * w * h == 3 * (w * h)) by (nonlinear_arith);
}

/// Copies the `cw` x `ch` window at `(x0, y0)` out of the `w` x `h` image `px`.
fn copy_window(px: &Vec<u8>, w: usize, h: usize, x0: usize, y0: usize, cw: usize, ch: usize) -> (out: Vec<u8>)
    requires
        px.len() == 3 * w * h,
        x0 + cw <= w,
        y0 + ch <= h,
    ensures
        is_crop(out@, px@, w as int, x0 as int, y0 as int, cw as int, ch as int),
{
    let mut out: Vec<u8> = Vec::new();
    if ch == 0 {
        assert(3 * cw * ch == 0) by (nonlinear_arith)
            requires
                ch == 0,
        ;
        return out;
    }
    proof {
        assert(3 * cw * ch <= 3 * w * h) by (nonlinear_arith)
            requires
                cw <= w,
                ch <= h,
                0 <= cw,
                0 <= ch,
        ;
        assert(3 * cw <= 3 * w * h) by (nonlinear_arith)
            requires
                cw <= w,
                1 <= h,
        ;
        assert(3 * w * h <= usize::MAX);
    }
    let rl = 3 * cw;
    assert(out@.len() == 0 * rl);
    for y in 0..ch
        invariant
            px.len() == 3 * w * h,
            x0 + cw <= w,
            y0 + ch <= h,
            rl == 3 * cw,
            out@.len() == y * rl,
            3 * cw * ch <= 3 * w * h,
            forall|yy: int, k: int|
                0 <= yy < y && 0 <= k < rl ==> #[trigger] out@[yy * rl + k] == px@[((y0 + yy) * w
                    + x0) * 3 + k],
    {
        proof {
            lemma_src_row_in_bounds(w as int, h as int, x0 as int, y0 as int, cw as int, ch as int, y as int);
            assert((y + 1) * rl <= 3 * cw * ch) by (nonlinear_arith)
                requires
                    y + 1 <= ch,
                    rl == 3 * cw,
            ;
            assert((y + 1) * rl == y * rl + rl) by (nonlinear_arith);
            assert(3 * w * h <= usize::MAX);
        }
        let s = ((y0 + y) * w + x0) * 3;
        let ghost before = out@;
        let mut k: usize = 0;
        while k < rl
            invariant
                px.len() == 3 * w * h,
                s + rl <= px.len(),
                s == ((y0 + y) * w + x0) * 3,
                out@.len() == y * rl + k,
                k <= rl,
                forall|i: int| 0 <= i < y * rl ==> out@[i] == before[i],
                forall|j: int| 0 <= j < k ==> #[trigger] out@[y * rl + j] == px@[s + j],
            decreases rl - k,
        {
            out.push(px[s + k]);
            k += 1;
        }
        proof {
            assert forall|yy: int, kk: int|
                0 <= yy < y + 1 && 0 <= kk < rl implies #[trigger] out@[yy * rl + kk] == px@[((y0
                    + yy) * w + x0) * 3 + kk] by {
                lemma_row_index(yy, kk, rl as int, (y + 1) as int);
                if yy < y {
                    lemma_row_index(yy, kk, rl as int, y as int);
                    assert(out@[yy * rl + kk] == before[yy * rl + kk]);
                } else {
                    assert(yy == y);
                }
            }
        }
    }
    assert(ch * rl == 3 * cw * ch) by (nonlinear_arith)
        requires
            rl == 3 * cw,
    ;
    out
}

/// The centre crop to a multiple-of-4 size capped at `cap`: width and height
/// are `min(side, cap)` rounded down to a multiple of 4 and the crop is
/// centred (odd margins put the extra pixel right/bottom).
pub open spec fn center_crop_dims(w: int, h: int, cap: int) -> (int, int) {
    let cw = ((if w <= cap { w } else { cap }) / 4) * 4;
    let ch = ((if h <= cap { h } else { cap }) / 4) * 4;
    (cw, ch)
}

/// Centre crop to a multiple of 4 in each dimension, at most `cap`; `None`
/// when either side of the crop would be under 64.
pub fn center_crop(img: &Rgb8Img, cap: usize) -> (r: Option<Rgb8Img>)
    requires
        img.wf(),
    ensures
        ({
            let (cw, ch) = center_crop_dims(img.w as int, img.h as int, cap as int);
            if cw < 64 || ch < 64 {
                r is None
            } else {
                r matches Some(o) && o.w == cw && o.h == ch && is_crop(
                    o.px@,
                    img.px@,
                    img.w as int,
                    (img.w - cw) / 2,
                    (img.h - ch) / 2,
                    cw,
                    ch,
                )
            }
        }),
{
    let mw = if img.w <= cap { img.w } else { cap };
    let mh = if img.h <= cap { img.h } else { cap };
    let cw = (mw / 4) * 4;
    let ch = (mh / 4) * 4;
    if cw < 64 || ch < 64 {
        return None;
    }
    let x0 = (img.w - cw) / 2;
    let y0 = (img.h - ch) / 2;
    let px = copy_window(&img.px, img.w, img.h, x0, y0, cw, ch);
    Some(Rgb8Img { px, w: cw, h: ch })
}

/// The `s` x `s` crop at `(x0, y0)`, cut short at the right and bottom edges.
pub fn crop_at(img: &Rgb8Img, x0: usize, y0: usize, s: usize) -> (r: Rgb8Img)
    requires
        img.wf(),
        x0 <= img.w,
        y0 <= img.h,
    ensures
        r.w == if s <= img.w - x0 { s as int } else { img.w - x0 },
        r.h == if s <= img.h - y0 { s as int } else { img.h - y0 },
        is_crop(r.px@, img.px@, img.w as int, x0 as int, y0 as int, r.w as int, r.h as int),
{
    let w = if s <= img.w - x0 { s } else { img.w - x0 };
    let h = if s <= img.h - y0 { s } else { img.h - y0 };
    let px = copy_window(&img.px, img.w, img.h, x0, y0, w, h);
    Rgb8Img { px, w, h }
}

/// Drops `off` pixels from the top and the left.
pub fn shift_crop(img: &Rgb8Img, off: usize) -> (r: Rgb8Img)
    requires
        img.wf(),
        off <= img.w,
        off <= img.h,
    ensures
        r.w == img.w - off,
        r.h == img.h - off,
        is_crop(r.px@, img.px@, img.w as int, off as int, off as int, r.w as int, r.h as int),
{
    let w = img.w - off;
    let h = img.h - off;
    let px = copy_window(&img.px, img.w, img.h, off, off, w, h);
    Rgb8Img { px, w, h }
}

/// Channel `c` of pixel `(x, y)` of a `w`-wide interleaved RGB image.
pub open spec fn sample(px: Seq<u8>, w: int, x: int, y: int, c: int) -> int {
    px[(y * w + x) * 3 + c] as int
}

/// The rounded mean of the 2x2 block whose top-left pixel is `(2x, 2y)`.
pub open spec fn box2_value(px: Seq<u8>, w: int, x: int, y: int, c: int) -> int {
    (sample(px, w, 2 * x, 2 * y, c) + sample(px, w, 2 * x + 1, 2 * y, c) + sample(
        px,
        w,
        2 * x,
        2 * y + 1,
        c,
    ) + sample(px, w, 2 * x + 1, 2 * y + 1, c) + 2) / 4
}

proof fn lemma_pixel_index(x: int, y: int, c: int, w: int, h: int)
    requires
        0 <= x < w,
        0 <= y < h,
        0 <= c < 3,
    ensures
        0 <= (y * w + x) * 3 + c < 3 * w * h,
{
    assert(0 <= (y * w + x) * 3 + c < 3 * w * h) by (nonlinear_arith)
        requires
            0 <= x < w,
            0 <= y < h,
            0 <= c < 3,
    ;
}

/// Box-downscale by 2 (rounded mean of each 2x2 block); an odd last row or
/// column is dropped.
pub fn box_down2(img: &Rgb8Img) -> (r: Rgb8Img)
    requires
        img.wf(),
    ensures
        r.w == img.w / 2,
        r.h == img.h / 2,
        r.wf(),
        forall|x: int, y: int, c: int|
            0 <= x < r.w && 0 <= y < r.h && 0 <= c < 3 ==> #[trigger] r.px@[(y * r.w + x) * 3 + c]
                == box2_value(img.px@, img.w as int, x, y, c),
{
    let w = img.w / 2;
    let h = img.h / 2;
    let mut px: Vec<u8> = Vec::new();
    proof {
        assert(3 * w * h <= 3 * img.w * img.h) by (nonlinear_arith)
            requires
                w <= img.w,
                h <= img.h,
        ;
    }
    assert(px@.len() == 0 * w * 3);
    for y in 0..h
        invariant
            img.wf(),
            w == img.w / 2,
            h == img.h / 2,
            3 * w * h <= 3 * img.w * img.h,
            px@.len() == y * w * 3,
            forall|xx: int, yy: int, c: int|
                0 <= xx < w && 0 <= yy < y && 0 <= c < 3 ==> #[trigger] px@[(yy * w + xx) * 3 + c]
                    == box2_value(img.px@, img.w as int, xx, yy, c),
    {
        for x in 0..w
            invariant
                img.wf(),
                w == img.w / 2,
                h == img.h / 2,
                y < h,
                3 * w * h <= 3 * img.w * img.h,
                px@.len() == (y * w + x) * 3,
                forall|xx: int, yy: int, c: int|
                    0 <= xx < w && 0 <= yy < y && 0 <= c < 3 ==> #[trigger] px@[(yy * w + xx) * 3
                        + c] == box2_value(img.px@, img.w as int, xx, yy, c),
                forall|xx: int, c: int|
                    0 <= xx < x && 0 <= c < 3 ==> #[trigger] px@[(y * w + xx) * 3 + c] == box2_value(
                        img.px@,
                        img.w as int,
                        xx,
                        y as int,
                        c,
                    ),
        {
            let ghost before = px@;
            for c in 0..3
                invariant
                    img.wf(),
                    w == img.w / 2,
                    h == img.h / 2,
                    y < h,
                    x < w,
                    px@.len() == (y * w + x) * 3 + c,
                    forall|i: int| 0 <= i < (y * w + x) * 3 ==> px@[i] == before[i],
                    forall|cc: int|
                        0 <= cc < c ==> #[trigger] px@[(y * w + x) * 3 + cc] == box2_value(
                            img.px@,
                            img.w as int,
                            x as int,
                            y as int,
                            cc,
                        ),
            {
                proof {
                    lemma_pixel_index((2 * x) as int, (2 * y) as int, c as int, img.w as int, img.h as int);
                    lemma_pixel_index((2 * x + 1) as int, (2 * y) as int, c as int, img.w as int, img.h as int);
                    lemma_pixel_index((2 * x) as int, (2 * y + 1) as int, c as int, img.w as int, img.h as int);
                    lemma_pixel_index((2 * x + 1) as int, (2 * y + 1) as int, c as int, img.w as int, img.h as int);
                }
                let s00 = img.px[((2 * y) * img.w + 2 * x) * 3 + c] as u32;
                let s01 = img.px[((2 * y) * img.w + 2 * x + 1) * 3 + c] as u32;
                let s10 = img.px[((2 * y + 1) * img.w + 2 * x) * 3 + c] as u32;
                let s11 = img.px[((2 * y + 1) * img.w + 2 * x + 1) * 3 + c] as u32;
                px.push(((s00 + s01 + s10 + s11 + 2) / 4) as u8);
            }
            proof {
                assert((y * w + x + 1) * 3 == (y * w + x) * 3 + 3);
                assert forall|xx: int, yy: int, c: int|
                    0 <= xx < w && 0 <= yy < y && 0 <= c < 3 implies #[trigger] px@[(yy * w + xx) * 3
                        + c] == box2_value(img.px@, img.w as int, xx, yy, c) by {
                    assert((yy * w + xx) * 3 + c < (y * w + x) * 3) by (nonlinear_arith)
                        requires
                            0 <= xx < w,
                            0 <= yy < y,
                            0 <= c < 3,
                            x >= 0,
                    ;
                    assert(before[(yy * w + xx) * 3 + c] == box2_value(img.px@, img.w as int, xx, yy, c));
                }
                assert forall|xx: int, c: int|
                    0 <= xx < x + 1 && 0 <= c < 3 implies #[trigger] px@[(y * w + xx) * 3 + c]
                        == box2_value(img.px@, img.w as int, xx, y as int, c) by {
                    if xx < x {
                        assert((y * w + xx) * 3 + c < (y * w + x) * 3);
                        assert(before[(y * w + xx) * 3 + c] == box2_value(img.px@, img.w as int, xx, y as int, c));
                    }
                }
            }
        }
        proof {
            assert((y * w + w) * 3 == (y + 1) * w * 3) by (nonlinear_arith);
        }
    }
    proof {
        assert(h * w * 3 == 3 * w * h) by (nonlinear_arith);
    }
    Rgb8Img { px, w, h }
}

/// `|a - b| * 8`, saturated at 255.
pub open spec fn amp_diff(a: u8, b: u8) -> u8 {
    let d = if a >= b { a - b } else { b - a };
    if d * 8 <= 255 { (d * 8) as u8 } else { 255u8 }
}

/// An amplified error map: `|a - b| * 8` per byte, saturated; as long as the
/// shorter buffer, with `a`'s dimensions.
pub open spec fn is_diff_map(out: Seq<u8>, a: Seq<u8>, b: Seq<u8>) -> bool {
    &&& out.len() == if a.len() <= b.len() { a.len() } else { b.len() }
    &&& forall|i: int| 0 <= i < out.len() ==> #[trigger] out[i] == amp_diff(a[i], b[i])
}

fn amp_diff_buf(a: &Vec<u8>, b: &Vec<u8>) -> (out: Vec<u8>)
    ensures
        is_diff_map(out@, a@, b@),
{
    let n = if a.len() <= b.len() { a.len() } else { b.len() };
    let mut out: Vec<u8> = Vec::new();
    for i in 0..n
        invariant
            n == if a@.len() <= b@.len() { a@.len() } else { b@.len() },
            out@.len() == i,
            forall|j: int| 0 <= j < i ==> #[trigger] out@[j] == amp_diff(a@[j], b@[j]),
    {
        let x = a[i];
        let y = b[i];
        let d: u16 = if x >= y { (x - y) as u16 } else { (y - x) as u16 };
        let v: u8 = if d * 8 <= 255 { (d * 8) as u8 } else { 255 };
        out.push(v);
    }
    out
}

/// Amplified `|a - b|` error map (x8, saturated) — shows where two images differ.
pub fn diffmap(a: &Rgb8Img, b: &Rgb8Img) -> (r: Rgb8Img)
    ensures
        r.w == a.w,
        r.h == a.h,
        is_diff_map(r.px@, a.px@, b.px@),
{
    Rgb8Img { px: amp_diff_buf(&a.px, &b.px), w: a.w, h: a.h }
}

/// `|a - b| * 8`, saturated — visible without being saturated into uselessness.
pub fn diff_x8(a: &Rgb8Img, b: &Rgb8Img) -> (r: Rgb8Img)
    ensures
        r.w == a.w,
        r.h == a.h,
        is_diff_map(r.px@, a.px@, b.px@),
{
    Rgb8Img { px: amp_diff_buf(&a.px, &b.px), w: a.w, h: a.h }
}

/// Centre-cropping is idempotent: a crop already has a multiple-of-4 size
/// within the cap, so cropping it again, with the same cap, keeps its size,
/// takes it from the top-left corner, and gives back the same pixels.
pub proof fn lemma_center_crop_idempotent(w: int, h: int, cap: int, out: Seq<u8>, again: Seq<u8>)
    requires
        0 <= w,
        0 <= h,
        0 <= cap,
        center_crop_dims(w, h, cap).0 >= 64,
        center_crop_dims(w, h, cap).1 >= 64,
        out.len() == 3 * center_crop_dims(w, h, cap).0 * center_crop_dims(w, h, cap).1,
        ({
            let (cw, ch) = center_crop_dims(w, h, cap);
            let (cw2, ch2) = center_crop_dims(cw, ch, cap);
            is_crop(again, out, cw, (cw - cw2) / 2, (ch - ch2) / 2, cw2, ch2)
        }),
    ensures
        center_crop_dims(center_crop_dims(w, h, cap).0, center_crop_dims(w, h, cap).1, cap)
            == center_crop_dims(w, h, cap),
        again == out,
{
    let (cw, ch) = center_crop_dims(w, h, cap);
    let (cw2, ch2) = center_crop_dims(cw, ch, cap);
    assert(cw2 == cw && ch2 == ch);
    assert(is_crop(again, out, cw, 0, 0, cw, ch));
    let rl = 3 * cw;
    assert(again.len() == out.len()) by (nonlinear_arith)
        requires
            again.len() == 3 * cw * ch,
            out.len() == 3 * cw * ch,
    ;
    assert forall|i: int| 0 <= i < out.len() implies #[trigger] again[i] == out[i] by {
        let y = i / rl;
        let k = i % rl;
        vstd::arithmetic::div_mod::lemma_fundamental_div_mod(i, rl);
        assert(y < ch) by (nonlinear_arith)
            requires
                i == rl * y + k,
                0 <= k,
                i < 3 * cw * ch,
                rl == 3 * cw,
                rl > 0,
        ;
        assert(y >= 0) by (nonlinear_arith)
            requires
                i == rl * y + k,
                k < rl,
                i >= 0,
                rl > 0,
        ;
        assert(again[y * (3 * cw) + k] == out[((0 + y) * cw + 0) * 3 + k]);
        assert(((0 + y) * cw + 0) * 3 + k == i && y * (3 * cw) + k == i) by (nonlinear_arith)
            requires
                i == rl * y + k,
                rl == 3 * cw,
        ;
    }
    assert(again =~= out);
}

/// An error map does not depend on the order of the two images, and an
/// image compared with itself gives an all-zero map.
pub proof fn lemma_diff_map_symmetric(out: Seq<u8>, a: Seq<u8>, b: Seq<u8>)
    ensures
        is_diff_map(out, a, b) ==> is_diff_map(out, b, a),
        is_diff_map(out, a, a) ==> forall|i: int| 0 <= i < out.len() ==> #[trigger] out[i] == 0,
{
}

/// The synthetic test pattern at pixel `(x, y)`, channel `c`.
pub open spec fn synth_value(x: int, y: int, c: int) -> u8 {
    if c == 0 {
        ((x * 7 + y * 3) % 256) as u8
    } else if c == 1 {
        ((x * 2 + y * 11) % 256) as u8
    } else {
        ((x * 13 + (y * y) % 97) % 256) as u8
    }
}

/// An `n` x `n` synthetic RGB pattern (diagonal ramps plus a quadratic term).
pub fn synth(n: usize) -> (r: Rgb8Img)
    requires
        3 * n * n <= usize::MAX,
    ensures
        r.w == n,
        r.h == n,
        r.wf(),
        forall|x: int, y: int, c: int|
            0 <= x < n && 0 <= y < n && 0 <= c < 3 ==> #[trigger] r.px@[(y * n + x) * 3 + c]
                == synth_value(x, y, c),
{
    let mut px: Vec<u8> = Vec::new();
    assert(px@.len() == 0 * n * 3);
    for y in 0..n
        invariant
            3 * n * n <= usize::MAX,
            px@.len() == y * n * 3,
            forall|xx: int, yy: int, c: int|
                0 <= xx < n && 0 <= yy < y && 0 <= c < 3 ==> #[trigger] px@[(yy * n + xx) * 3 + c]
                    == synth_value(xx, yy, c),
    {
        for x in 0..n
            invariant
                3 * n * n <= usize::MAX,
                y < n,
                px@.len() == (y * n + x) * 3,
                forall|xx: int, yy: int, c: int|
                    0 <= xx < n && 0 <= yy < y && 0 <= c < 3 ==> #[trigger] px@[(yy * n + xx) * 3
                        + c] == synth_value(xx, yy, c),
                forall|xx: int, c: int|
                    0 <= xx < x && 0 <= c < 3 ==> #[trigger] px@[(y * n + xx) * 3 + c]
                        == synth_value(xx, y as int, c),
        {
            proof {
                assert(y * y <= n * n) by (nonlinear_arith)
                    requires
                        y < n,
                ;
                assert(3 * n * n == 3 * (n * n)) by (nonlinear_arith);
                assert(x * 13 + 96 <= usize::MAX && y * 11 + x * 2 <= usize::MAX && x * 7 + y * 3
                    <= usize::MAX) by (nonlinear_arith)
                    requires
                        x < n,
                        y < n,
                        3 * n * n <= usize::MAX,
                ;
            }
            let ghost before = px@;
            px.push(((x * 7 + y * 3) % 256) as u8);
            px.push(((x * 2 + y * 11) % 256) as u8);
            px.push(((x * 13 + (y * y) % 97) % 256) as u8);
            proof {
                assert((y * n + x + 1) * 3 == (y * n + x) * 3 + 3);
                assert forall|xx: int, yy: int, c: int|
                    0 <= xx < n && 0 <= yy < y && 0 <= c < 3 implies #[trigger] px@[(yy * n + xx) * 3
                        + c] == synth_value(xx, yy, c) by {
                    assert((yy * n + xx) * 3 + c < (y * n + x) * 3) by (nonlinear_arith)
                        requires
                            0 <= xx < n,
                            0 <= yy < y,
                            0 <= c < 3,
                            x >= 0,
                    ;
                    assert(before[(yy * n + xx) * 3 + c] == synth_value(xx, yy, c));
                }
                assert forall|xx: int, c: int|
                    0 <= xx < x + 1 && 0 <= c < 3 implies #[trigger] px@[(y * n + xx) * 3 + c]
                        == synth_value(xx, y as int, c) by {
                    if xx < x {
                        assert((y * n + xx) * 3 + c < (y * n + x) * 3);
                        assert(before[(y * n + xx) * 3 + c] == synth_value(xx, y as int, c));
                    }
                }
            }
        }
        proof {
            assert((y * n + n) * 3 == (y + 1) * n * 3) by (nonlinear_arith);
        }
    }
    proof {
        assert(n * n * 3 == 3 * n * n) by (nonlinear_arith);
    }
    Rgb8Img { px, w: n, h: n }
}

} // verus!
