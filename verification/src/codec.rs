//! Decoding PNG and JPEG bytes to interleaved RGB8, and resampling RGB8
//! images: the codec calls themselves are made by the zen crates, the pixel
//! layout conversion and the dispatch around them are verified here.
use vstd::prelude::*;
use crate::image::Rgb8Img;
use crate::window::{Window, WindowStats, centered_window, is_window_stats, window_of, window_stats};

verus! {

/// Decoded pixels as a decoder hands them over: `height` tightly packed rows
/// of `width` pixels, `bpp` bytes per pixel, `bpc` bytes per channel.
pub struct PixelRows {
    pub width: usize,
    pub height: usize,
    pub bpp: usize,
    pub bpc: usize,
    pub data: Vec<u8>,
}

/// `PixelRows` with its bytes as a sequence.
pub struct PixelRowsView {
    pub width: usize,
    pub height: usize,
    pub bpp: usize,
    pub bpc: usize,
    pub data: Seq<u8>,
}

impl View for PixelRows {
    type V = PixelRowsView;

    open spec fn view(&self) -> PixelRowsView {
        PixelRowsView {
            width: self.width,
            height: self.height,
            bpp: self.bpp,
            bpc: self.bpc,
            data: self.data@,
        }
    }
}

impl PixelRowsView {
    /// Bytes per channel, taken as at least one.
    pub open spec fn channel_bytes(self) -> int {
        if self.bpc == 0 { 1 } else { self.bpc as int }
    }

    /// Channels per pixel.
    pub open spec fn channels(self) -> int {
        self.bpp as int / self.channel_bytes()
    }

    /// The rows hold exactly `width * height` pixels.
    pub open spec fn wf(self) -> bool {
        self.data.len() == self.width * self.height * self.bpp
    }

    /// Gray, gray+alpha, RGB and RGBA layouts convert; others do not, unless
    /// there are no pixels to convert.
    pub open spec fn convertible(self) -> bool {
        self.width * self.height == 0 || 1 <= self.channels() <= 4
    }

    /// Channel `c` (0..3) of output pixel `i`: the same channel of an RGB(A)
    /// pixel or the gray value, taking the high byte of 16-bit samples.
    pub open spec fn rgb8_channel(self, i: int, c: int) -> u8 {
        let src_c = if self.channels() >= 3 { c } else { 0 };
        let o = i * self.bpp + src_c * self.channel_bytes();
        if self.channel_bytes() == 2 {
            self.data[o + 1]
        } else {
            self.data[o]
        }
    }
}

/// The image `pixelbuffer_to_rgb8` builds from convertible rows.
pub open spec fn is_rgb8_of(img: Rgb8Img, p: PixelRowsView) -> bool {
    &&& img.w == p.width
    &&& img.h == p.height
    &&& img.px@.len() == 3 * p.width * p.height
    &&& forall|i: int, c: int|
        0 <= i < p.width * p.height && 0 <= c < 3 ==> #[trigger] img.px@[3 * i + c]
            == p.rgb8_channel(i, c)
}

/// Bounds of the source bytes a converted pixel reads.
proof fn lemma_sample_in_row(bpp: int, bpc: int, ch: int, src_c: int)
    requires
        bpc >= 1,
        ch == bpp / bpc,
        1 <= ch,
        0 <= src_c,
        src_c < ch,
    ensures
        src_c * bpc + bpc <= bpp,
{
    vstd::arithmetic::div_mod::lemma_fundamental_div_mod(bpp, bpc);
    assert(src_c * bpc + bpc <= ch * bpc) by (nonlinear_arith)
        requires
            src_c + 1 <= ch,
            bpc >= 1,
    ;
}

/// Convert decoded rows (any 8/16-bit gray/rgb/rgba layout) to RGB8; `None`
/// for other channel counts.
pub fn pixelbuffer_to_rgb8(buf: &PixelRows) -> (r: Option<Rgb8Img>)
    requires
        buf@.wf(),
        buf.width * buf.height * 3 <= usize::MAX,
    ensures
        r is Some <==> buf@.convertible(),
        r matches Some(img) ==> is_rgb8_of(img, buf@),
{
    let ghost p = buf@;
    let w = buf.width;
    let h = buf.height;
    let bpp = buf.bpp;
    let bpc = if buf.bpc == 0 { 1 } else { buf.bpc };
    let ch = bpp / bpc;
    proof {
        assert(w * h <= w * h * 3) by (nonlinear_arith)
            requires
                w * h >= 0,
        ;
    }
    let n = w * h;
    if n > 0 && !(1 <= ch && ch <= 4) {
        return None;
    }
    let mut px: Vec<u8> = Vec::new();
    let mut i: usize = 0;
    while i < n
        invariant
            p == buf@,
            p.wf(),
            n == w * h,
            w == p.width,
            h == p.height,
            bpp == p.bpp,
            bpc == p.channel_bytes(),
            ch == p.channels(),
            n > 0 ==> 1 <= ch <= 4,
            n * 3 <= usize::MAX,
            i <= n,
            px@.len() == 3 * i,
            forall|j: int, c: int|
                0 <= j < i && 0 <= c < 3 ==> #[trigger] px@[3 * j + c] == p.rgb8_channel(j, c),
        decreases n - i,
    {
        proof {
            assert(buf.data.len() <= usize::MAX);
            assert((i as int + 1) * bpp <= n * bpp) by (nonlinear_arith)
                requires
                    i < n,
                    bpp >= 0,
            ;
            assert(i * bpp + bpp == (i as int + 1) * bpp) by (nonlinear_arith);
            assert(n * bpp == p.data.len()) by (nonlinear_arith)
                requires
                    n == w * h,
                    p.data.len() == w * h * bpp,
            ;
        }
        let base = i * bpp;
        let mut c: usize = 0;
        while c < 3
            invariant
                p == buf@,
                p.wf(),
                n == w * h,
                w == p.width,
                h == p.height,
                bpp == p.bpp,
                bpc == p.channel_bytes(),
                ch == p.channels(),
                1 <= ch <= 4,
                n * 3 <= usize::MAX,
                i < n,
                base == i * bpp,
                base + bpp <= p.data.len(),
                c <= 3,
                px@.len() == 3 * i + c,
                forall|j: int, k: int|
                    0 <= j < i && 0 <= k < 3 ==> #[trigger] px@[3 * j + k] == p.rgb8_channel(j, k),
                forall|k: int| 0 <= k < c ==> #[trigger] px@[3 * i + k] == p.rgb8_channel(i as int, k),
            decreases 3 - c,
        {
            let src_c = if ch >= 3 { c } else { 0 };
            proof {
                lemma_sample_in_row(bpp as int, bpc as int, ch as int, src_c as int);
                assert(src_c * bpc <= bpp) by (nonlinear_arith)
                    requires
                        src_c * bpc + bpc <= bpp,
                        bpc >= 1,
                ;
            }
            assert(buf.data.len() <= usize::MAX);
            let o = base + src_c * bpc;
            let v = if bpc == 2 { buf.data[o + 1] } else { buf.data[o] };
            let ghost before = px@;
            px.push(v);
            proof {
                assert forall|j: int, k: int| 0 <= j < i && 0 <= k < 3 implies #[trigger] px@[3 * j
                    + k] == p.rgb8_channel(j, k) by {
                    assert(3 * j + k < 3 * i);
                    assert(px@[3 * j + k] == before[3 * j + k]);
                }
            }
            c = c + 1;
        }
        i = i + 1;
    }
    proof {
        assert(3 * n == 3 * w * h) by (nonlinear_arith)
            requires
                n == w * h,
        ;
    }
    Some(Rgb8Img { px, w, h })
}

/// What `zenpng::decode` makes of a byte string, with the default
/// configuration and no cancellation, as tightly packed rows.
pub uninterp spec fn png_decode_result(data: Seq<u8>) -> Option<PixelRowsView>;

/// Calls `zenpng::decode` (default config, never cancelled) and copies the
/// pixels out with `PixelBuffer::copy_to_contiguous_bytes`, which is
/// documented to return exactly `width * height * bytes_per_pixel` bytes in
/// row-major order. The result depends on the bytes alone.
#[verifier::external_body]
fn decode_png_rows(data: &[u8]) -> (r: Option<PixelRows>)
    ensures
        match png_decode_result(data@) {
            None => r is None,
            Some(v) => r matches Some(p) && p@ == v,
        },
        r matches Some(p) ==> p@.wf(),
{
    let out = zenpng::decode(data, &zenpng::PngDecodeConfig::default(), &enough::Unstoppable).ok()?;
    let d = out.pixels.descriptor();
    Some(PixelRows {
        width: out.pixels.width() as usize,
        height: out.pixels.height() as usize,
        bpp: d.bytes_per_pixel(),
        bpc: d.bytes_per_channel(),
        data: out.pixels.copy_to_contiguous_bytes(),
    })
}

/// The RGB8 image of decoded PNG rows, when the PNG decodes, its layout
/// converts and the image fits in memory.
pub open spec fn png_rgb8(data: Seq<u8>, img: Option<Rgb8Img>) -> bool {
    match png_decode_result(data) {
        None => img is None,
        Some(p) => if p.width * p.height * 3 <= usize::MAX && p.convertible() {
            img matches Some(x) && is_rgb8_of(x, p)
        } else {
            img is None
        },
    }
}

/// Decode PNG bytes to RGB8.
pub fn decode_png(data: &[u8]) -> (r: Option<Rgb8Img>)
    ensures
        png_rgb8(data@, r),
{
    let rows = match decode_png_rows(data) {
        None => return None,
        Some(p) => p,
    };
    let fits = match rows.width.checked_mul(rows.height) {
        None => false,
        Some(n) => n.checked_mul(3).is_some(),
    };
    if !fits {
        proof {
            if rows.width * rows.height <= usize::MAX {
                assert(rows.width * rows.height * 3 > usize::MAX);
            } else {
                assert(rows.width * rows.height * 3 >= rows.width * rows.height) by (
                nonlinear_arith)
                    requires
                        rows.width * rows.height >= 0,
                ;
            }
        }
        return None;
    }
    pixelbuffer_to_rgb8(&rows)
}

/// What zenjpeg's decoder (default configuration, never cancelled) makes of a
/// byte string: width, height and the 8-bit pixels, if it produced them.
pub uninterp spec fn jpeg_decode_result(data: Seq<u8>) -> Option<(u32, u32, Option<Seq<u8>>)>;

/// Calls `zenjpeg::decoder::Decoder::new().decode(data, Unstoppable)` and
/// hands back the dimensions and `into_pixels_u8()`. The result depends on
/// the bytes alone.
#[verifier::external_body]
fn decode_jpeg_pixels(data: &[u8]) -> (r: Option<(u32, u32, Option<Vec<u8>>)>)
    ensures
        match jpeg_decode_result(data@) {
            None => r is None,
            Some((w, h, px)) => r matches Some((w2, h2, p2)) && w2 == w && h2 == h && match px {
                None => p2 is None,
                Some(s) => p2 matches Some(v) && v@ == s,
            },
        },
{
    let r = zenjpeg::decoder::Decoder::new().decode(data, zenjpeg::encoder::Unstoppable).ok()?;
    let (w, h) = r.dimensions();
    Some((w, h, r.into_pixels_u8()))
}

/// The RGB8 image of a decoded JPEG: its 8-bit pixels when they are exactly
/// three bytes per pixel (grayscale and CMYK are skipped).
pub open spec fn jpeg_rgb8(data: Seq<u8>, img: Option<Rgb8Img>) -> bool {
    match jpeg_decode_result(data) {
        Some((w, h, Some(px))) => if px.len() == w * h * 3 {
            img matches Some(x) && x.w == w && x.h == h && x.px@ == px
        } else {
            img is None
        },
        _ => img is None,
    }
}

/// Decode JPEG bytes to RGB8.
pub fn decode_jpeg(data: &[u8]) -> (r: Option<Rgb8Img>)
    ensures
        jpeg_rgb8(data@, r),
{
    match decode_jpeg_pixels(data) {
        Some((w, h, Some(px))) => {
            assert(w as u128 * h as u128 <= 0xffff_ffff_ffff_ffffu128) by (nonlinear_arith)
                requires
                    w <= 0xffff_ffffu32,
                    h <= 0xffff_ffffu32,
            ;
            if px.len() as u128 == w as u128 * h as u128 * 3 {
                Some(Rgb8Img { px, w: w as usize, h: h as usize })
            } else {
                None
            }
        },
        _ => None,
    }
}

/// Which decoder an extension selects.
pub enum Format {
    Png,
    Jpeg,
}

/// The format named by a file extension, compared ASCII case-insensitively:
/// `png`, or `jpg`/`jpeg`.
pub open spec fn format_of(ext: Seq<char>) -> Option<Format> {
    let l = ext.map_values(|c: char| crate::text::ascii_lower(c));
    if l =~= seq!['p', 'n', 'g'] {
        Some(Format::Png)
    } else if l =~= seq!['j', 'p', 'g'] || l =~= seq!['j', 'p', 'e', 'g'] {
        Some(Format::Jpeg)
    } else {
        None
    }
}

/// ASCII lowercase of a character.
fn lower(c: char) -> (r: char)
    ensures
        r == crate::text::ascii_lower(c),
{
    if 'A' <= c && c <= 'Z' {
        ((c as u32) + 32) as u8 as char
    } else {
        c
    }
}

/// The decoder a file extension selects.
pub fn format_for_extension(ext: &str) -> (r: Option<Format>)
    ensures
        r == format_of(ext@),
{
    let n = ext.unicode_len();
    let ghost l = ext@.map_values(|c: char| crate::text::ascii_lower(c));
    if n == 3 {
        let (a, b, c) = (lower(ext.get_char(0)), lower(ext.get_char(1)), lower(ext.get_char(2)));
        if a == 'p' && b == 'n' && c == 'g' {
            assert(l =~= seq!['p', 'n', 'g']);
            return Some(Format::Png);
        }
        if a == 'j' && b == 'p' && c == 'g' {
            assert(l =~= seq!['j', 'p', 'g']);
            return Some(Format::Jpeg);
        }
        proof {
            assert(!(l =~= seq!['p', 'n', 'g'])) by {
                if l =~= seq!['p', 'n', 'g'] {
                    assert(l[0] == a && l[1] == b && l[2] == c);
                }
            }
            assert(!(l =~= seq!['j', 'p', 'g'])) by {
                if l =~= seq!['j', 'p', 'g'] {
                    assert(l[0] == a && l[1] == b && l[2] == c);
                }
            }
        }
        return None;
    }
    if n == 4 {
        let (a, b, c, d) = (
            lower(ext.get_char(0)),
            lower(ext.get_char(1)),
            lower(ext.get_char(2)),
            lower(ext.get_char(3)),
        );
        if a == 'j' && b == 'p' && c == 'e' && d == 'g' {
            assert(l =~= seq!['j', 'p', 'e', 'g']);
            return Some(Format::Jpeg);
        }
        proof {
            assert(!(l =~= seq!['j', 'p', 'e', 'g'])) by {
                if l =~= seq!['j', 'p', 'e', 'g'] {
                    assert(l[0] == a && l[1] == b && l[2] == c && l[3] == d);
                }
            }
        }
        return None;
    }
    None
}

/// Decode image bytes by the file extension they came with: PNG for `png`,
/// JPEG for `jpg`/`jpeg` (any ASCII case), nothing otherwise.
pub fn decode_any(data: &[u8], ext: &str) -> (r: Option<Rgb8Img>)
    ensures
        match format_of(ext@) {
            Some(Format::Png) => png_rgb8(data@, r),
            Some(Format::Jpeg) => jpeg_rgb8(data@, r),
            None => r is None,
        },
{
    match format_for_extension(ext) {
        Some(Format::Png) => decode_png(data),
        Some(Format::Jpeg) => decode_jpeg(data),
        None => None,
    }
}

/// Resampling filters used by the eval tools.
#[derive(Clone, Copy, PartialEq, Eq, Debug, Structural)]
pub enum ResizeFilter {
    CatmullRom,
    Lanczos,
    Mitchell,
}

/// Calls zenresize's `Resizer::resize` on an sRGB RGB8 image with the given
/// filter. zenresize rejects zero dimensions; its output is
/// `out_height * out_width * 3` bytes. Which pixel values come out is left
/// unsaid: zenresize picks its filtering kernel from the CPU's features at run
/// time, and the kernels round differently, so the bytes can differ from one
/// machine to another.
#[verifier::external_body]
fn resize_pixels(px: &[u8], w: u32, h: u32, dw: u32, dh: u32, filter: ResizeFilter) -> (r: Vec<u8>)
    requires
        px@.len() == w * h * 3,
        w > 0,
        h > 0,
        dw > 0,
        dh > 0,
    ensures
        r@.len() == dw * dh * 3,
{
    let f = match filter {
        ResizeFilter::CatmullRom => zenresize::Filter::CatmullRom,
        ResizeFilter::Lanczos => zenresize::Filter::Lanczos,
        ResizeFilter::Mitchell => zenresize::Filter::Mitchell,
    };
    let config = zenresize::ResizeConfig::builder(w, h, dw, dh).filter(f).format(
        zenresize::PixelDescriptor::RGB8_SRGB,
    ).build();
    zenresize::Resizer::new(&config).resize(px)
}

/// Resize an RGB8 image to `dw x dh` with zenresize; the pixel values are
/// zenresize's and may vary with the machine's vector kernels.
pub fn resize_rgb8(img: &Rgb8Img, dw: usize, dh: usize, filter: ResizeFilter) -> (r: Rgb8Img)
    requires
        img.wf(),
        0 < img.w <= u32::MAX,
        0 < img.h <= u32::MAX,
        0 < dw <= u32::MAX,
        0 < dh <= u32::MAX,
    ensures
        r.w == dw,
        r.h == dh,
        r.wf(),
{
    proof {
        assert(dw * dh * 3 == 3 * dw * dh) by (nonlinear_arith);
        assert(img.w * img.h * 3 == 3 * img.w * img.h) by (nonlinear_arith);
    }
    let px = resize_pixels(&img.px, img.w as u32, img.h as u32, dw as u32, dh as u32, filter);
    Rgb8Img { px, w: dw, h: dh }
}

/// One component's quantized coefficients as the decoder returns them:
/// block-row-major, zigzag within each block, and the index of its quant
/// table.
pub struct ComponentCoeffs {
    pub coeffs: Vec<i16>,
    pub blocks_wide: usize,
    pub blocks_high: usize,
    pub quant_table_idx: u8,
}

/// `ComponentCoeffs` with its coefficients as a sequence.
pub struct ComponentCoeffsView {
    pub coeffs: Seq<i16>,
    pub blocks_wide: usize,
    pub blocks_high: usize,
    pub quant_table_idx: u8,
}

impl View for ComponentCoeffs {
    type V = ComponentCoeffsView;

    open spec fn view(&self) -> ComponentCoeffsView {
        ComponentCoeffsView {
            coeffs: self.coeffs@,
            blocks_wide: self.blocks_wide,
            blocks_high: self.blocks_high,
            quant_table_idx: self.quant_table_idx,
        }
    }
}

/// A JPEG's coefficient data: frame size, components, and quant tables in
/// natural order by table slot.
pub struct JpegCoeffs {
    pub width: u32,
    pub height: u32,
    pub components: Vec<ComponentCoeffs>,
    pub quant_tables: Vec<Option<[u16; 64]>>,
}

/// `JpegCoeffs` as sequences.
pub struct JpegCoeffsView {
    pub width: u32,
    pub height: u32,
    pub components: Seq<ComponentCoeffsView>,
    pub quant_tables: Seq<Option<Seq<u16>>>,
}

impl View for JpegCoeffs {
    type V = JpegCoeffsView;

    open spec fn view(&self) -> JpegCoeffsView {
        JpegCoeffsView {
            width: self.width,
            height: self.height,
            components: self.components@.map_values(|c: ComponentCoeffs| c@),
            quant_tables: self.quant_tables@.map_values(
                |t: Option<[u16; 64]>|
                    match t {
                        Some(a) => Some(a@),
                        None => None,
                    },
            ),
        }
    }
}

/// What zenjpeg's coefficient decoder (default configuration, never
/// cancelled) makes of a byte string.
pub uninterp spec fn jpeg_coefficients(data: Seq<u8>) -> Option<JpegCoeffsView>;

/// Calls `zenjpeg::decoder::Decoder::new().decode_coefficients(data,
/// Unstoppable)` and moves the fields it hands back into the library's
/// types. zenjpeg documents each component's coefficients as
/// `blocks_wide * blocks_high * 64` long; the result depends on the bytes
/// alone.
#[verifier::external_body]
fn decode_coefficients(data: &[u8]) -> (r: Option<JpegCoeffs>)
    ensures
        match jpeg_coefficients(data@) {
            None => r is None,
            Some(v) => r matches Some(c) && c@ == v,
        },
        r matches Some(c) ==> forall|i: int|
            0 <= i < c.components@.len() ==> #[trigger] c.components@[i].coeffs@.len()
                == c.components@[i].blocks_wide * c.components@[i].blocks_high * 64,
{
    let dc = zenjpeg::decoder::Decoder::new().decode_coefficients(data, enough::Unstoppable).ok()?;
    Some(JpegCoeffs {
        width: dc.width,
        height: dc.height,
        components: dc.components.into_iter().map(|c| ComponentCoeffs {
            coeffs: c.coeffs,
            blocks_wide: c.blocks_wide,
            blocks_high: c.blocks_high,
            quant_table_idx: c.quant_table_idx,
        }).collect(),
        quant_tables: dc.quant_tables,
    })
}

/// The coefficient data of a JPEG, or `None` when it does not decode.
pub fn decode_jpeg_coefficients(data: &[u8]) -> (r: Option<JpegCoeffs>)
    ensures
        match jpeg_coefficients(data@) {
            None => r is None,
            Some(v) => r matches Some(c) && c@ == v,
        },
        r matches Some(c) ==> forall|i: int|
            0 <= i < c.components@.len() ==> #[trigger] c.components@[i].coeffs@.len()
                == c.components@[i].blocks_wide * c.components@[i].blocks_high * 64,
{
    decode_coefficients(data)
}

/// The quant table component `ci` uses, when the component and its table
/// slot exist and the table is present.
pub open spec fn component_table(jc: JpegCoeffsView, ci: int) -> Option<Seq<u16>> {
    if 0 <= ci < jc.components.len() {
        let t = jc.components[ci].quant_table_idx as int;
        if t < jc.quant_tables.len() {
            jc.quant_tables[t]
        } else {
            None
        }
    } else {
        None
    }
}

/// Statistics over the centred `wblk x wblk`-block window of component `ci`
/// (see `window_stats`): `None` when the component or its quant table is
/// missing, or its coefficient count does not match its block grid.
pub fn component_window_stats(jc: &JpegCoeffs, ci: usize, wblk: usize, nbands: usize) -> (r: Option<
    WindowStats,
>)
    requires
        1 <= nbands <= 63,
        wblk <= 4096,
    ensures
        match component_table(jc@, ci as int) {
            None => r is None,
            Some(qt) => {
                let c = jc@.components[ci as int];
                if c.coeffs.len() == c.blocks_wide * c.blocks_high * 64 {
                    let (bw, bh, bx0, by0) = window_of(
                        c.blocks_wide as int,
                        c.blocks_high as int,
                        wblk as int,
                    );
                    r matches Some(st) && is_window_stats(
                        st,
                        Window {
                            stride: c.blocks_wide,
                            bw: bw as usize,
                            bh: bh as usize,
                            bx0: bx0 as usize,
                            by0: by0 as usize,
                        },
                        c.coeffs,
                        qt,
                        nbands as int,
                    )
                } else {
                    r is None
                }
            },
        },
{
    if ci >= jc.components.len() {
        return None;
    }
    let comp = &jc.components[ci];
    let t = comp.quant_table_idx as usize;
    if t >= jc.quant_tables.len() {
        return None;
    }
    let qt = match &jc.quant_tables[t] {
        None => return None,
        Some(q) => q,
    };
    proof {
        assert(jc@.components[ci as int] == comp@);
        assert(jc@.quant_tables[t as int] == Some(qt@));
    }
    let bw = comp.blocks_wide;
    let bh = comp.blocks_high;
    let fits = match bw.checked_mul(bh) {
        None => false,
        Some(n) => match n.checked_mul(64) {
            None => false,
            Some(m) => comp.coeffs.len() == m,
        },
    };
    if !fits {
        proof {
            assert(comp.coeffs.len() <= usize::MAX);
            if bw * bh <= usize::MAX {
                assert(bw * bh * 64 > usize::MAX || comp.coeffs.len() != bw * bh * 64);
            } else {
                assert(bw * bh * 64 >= bw * bh) by (nonlinear_arith)
                    requires
                        bw * bh >= 0,
                ;
            }
        }
        return None;
    }
    let win = centered_window(bw, bh, wblk);
    proof {
        assert(win.bw * win.bh * 64 <= 4096 * 4096 * 64) by (nonlinear_arith)
            requires
                win.bw <= 4096,
                win.bh <= 4096,
        ;
    }
    Some(window_stats(&comp.coeffs, bh, &win, qt, nbands))
}

} // verus!
