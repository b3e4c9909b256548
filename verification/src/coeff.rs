//! One JPEG component's quantized DCT coefficients, as a decoder hands them
//! over, and the integer side of the quantization-consistency projection:
//! which coefficient belongs to which band, its dequantized centre, and the
//! edge-replicated pixel each block position reads.
use vstd::prelude::*;
use crate::zigzag::{NATURAL_TO_ZIGZAG, lemma_zigzag_is_permutation, nz, zz};

verus! {

/// Order of the caller's per-block coefficient slices.
#[derive(Clone, Copy, PartialEq, Eq, Debug, Structural)]
pub enum CoeffOrder {
    /// Row-major within each block.
    Natural,
    /// JPEG zigzag within each block.
    Zigzag,
}

/// One component's bitstream data, borrowed from whatever decoder produced it.
pub struct CoeffView<'a> {
    /// Raw (still-quantized) integers, `blocks_wide*blocks_high*64` long,
    /// block-row-major, ordered per `order` within each block.
    pub coeffs: &'a [i16],
    pub blocks_wide: usize,
    pub blocks_high: usize,
    pub order: CoeffOrder,
    /// Quant table in NATURAL (row-major) order.
    pub quant: &'a [u16; 64],
}

/// Position within a block's slice of the band at natural (row-major)
/// position `n`.
pub open spec fn slot(order: CoeffOrder, n: int) -> int {
    match order {
        CoeffOrder::Natural => n,
        CoeffOrder::Zigzag => nz(n),
    }
}

/// Dequantized centre `raw * Q` of each band, `i32` being wide enough for
/// any `i16 * u16` product.
proof fn lemma_product_fits(raw: i16, q: u16)
    ensures
        i32::MIN <= raw * q <= i32::MAX,
{
    assert(-32768 * 65535 <= raw * q <= 32767 * 65535) by (nonlinear_arith)
        requires
            -32768 <= raw <= 32767,
            0 <= q <= 65535,
    ;
}

impl<'a> CoeffView<'a> {
    /// The coefficient grid matches a `w x h` plane: it covers the plane and
    /// holds exactly `blocks_wide*blocks_high` blocks.
    pub open spec fn fits_plane(&self, w: int, h: int) -> bool {
        &&& self.blocks_wide * 8 >= w
        &&& self.blocks_high * 8 >= h
        &&& self.coeffs@.len() == self.blocks_wide * self.blocks_high * 64
    }

    /// Quantized coefficient of block `b` at natural position `n`.
    pub open spec fn raw_natural(&self, b: int, n: int) -> i16 {
        self.coeffs@[b * 64 + slot(self.order, n)]
    }

    /// Whether this grid can be projected onto a `w x h` plane.
    pub fn covers(&self, w: usize, h: usize) -> (r: bool)
        ensures
            r == self.fits_plane(w as int, h as int),
    {
        let bw = self.blocks_wide as u128;
        let bh = self.blocks_high as u128;
        if bw * 8 < w as u128 || bh * 8 < h as u128 {
            return false;
        }
        match self.blocks_wide.checked_mul(self.blocks_high) {
            None => {
                proof {
                    let p = self.blocks_wide * self.blocks_high;
                    assert(p * 64 >= p) by (nonlinear_arith)
                        requires
                            p >= 0,
                    ;
                    assert(self.coeffs.len() <= usize::MAX);
                }
                false
            },
            Some(n) => match n.checked_mul(64) {
                None => {
                    proof {
                        assert(self.coeffs.len() <= usize::MAX);
                    }
                    false
                },
                Some(m) => self.coeffs.len() == m,
            },
        }
    }

    /// Dequantized centres `raw * Q` of block (`bx`, `by`), in natural order:
    /// the value each band of the re-encoded block must stay near.
    pub fn dequantized_block(&self, bx: usize, by: usize) -> (r: [i32; 64])
        requires
            bx < self.blocks_wide,
            by < self.blocks_high,
            self.coeffs@.len() == self.blocks_wide * self.blocks_high * 64,
        ensures
            forall|n: int|
                0 <= n < 64 ==> r@[n] == self.raw_natural(by * self.blocks_wide + bx, n)
                    * self.quant@[n],
    {
        let bw = self.blocks_wide;
        let ghost bh = self.blocks_high as int;
        proof {
            assert((by as int) * (bw as int) + (bx as int) < bh * (bw as int)) by (nonlinear_arith)
                requires
                    by < bh,
                    bx < bw,
            ;
            assert(bh * (bw as int) * 64 == (bw as int) * bh * 64) by (nonlinear_arith);
            assert((bw as int) * bh * 64 >= (bw as int) * bh) by (nonlinear_arith)
                requires
                    bw >= 0,
                    bh >= 0,
            ;
            assert(self.coeffs.len() <= usize::MAX);
            lemma_zigzag_is_permutation();
        }
        let b = by * bw + bx;
        let base = b * 64;
        let mut r = [0i32; 64];
        let mut n: usize = 0;
        while n < 64
            invariant
                n <= 64,
                base == b * 64,
                b < self.blocks_wide * self.blocks_high,
                self.coeffs@.len() == self.blocks_wide * self.blocks_high * 64,
                b == by * self.blocks_wide + bx,
                forall|p: int| 0 <= p < 64 ==> 0 <= #[trigger] nz(p) < 64,
                forall|j: int|
                    0 <= j < n ==> r@[j] == self.raw_natural(b as int, j) * self.quant@[j],
            decreases 64 - n,
        {
            let k = match self.order {
                CoeffOrder::Natural => n,
                CoeffOrder::Zigzag => NATURAL_TO_ZIGZAG[n],
            };
            assert(0 <= nz(n as int) < 64);
            assert((b as int) * 64 + 64 <= self.blocks_wide * self.blocks_high * 64)
                by (nonlinear_arith)
                requires
                    b < self.blocks_wide * self.blocks_high,
            ;
            let raw = self.coeffs[base + k];
            let q = self.quant[n];
            proof {
                lemma_product_fits(raw, q);
            }
            r[n] = raw as i32 * q as i32;
            n = n + 1;
        }
        r
    }

    /// Zigzag views read the band at natural position `zz(k)` from slot `k`,
    /// exactly as the scan order lays the block out.
    pub proof fn lemma_zigzag_slots(&self, b: int)
        requires
            self.order == CoeffOrder::Zigzag,
        ensures
            forall|k: int|
                0 <= k < 64 ==> #[trigger] self.raw_natural(b, zz(k)) == self.coeffs@[b * 64 + k],
    {
        lemma_zigzag_is_permutation();
    }
}

/// Index of the plane sample that block (`bx`, `by`) reads at in-block
/// position (`x`, `y`), replicating the last row and column past the edge.
pub open spec fn edge_sample_spec(w: int, h: int, bx: int, by: int, x: int, y: int) -> int {
    let sy = if by * 8 + y < h - 1 { by * 8 + y } else { h - 1 };
    let sx = if bx * 8 + x < w - 1 { bx * 8 + x } else { w - 1 };
    sy * w + sx
}

/// The plane sample that block (`bx`, `by`) reads at in-block position
/// (`x`, `y`), clamped to the last row and column.
pub fn edge_sample(w: usize, h: usize, bx: usize, by: usize, x: usize, y: usize) -> (r: usize)
    requires
        w >= 1,
        h >= 1,
        w * h <= usize::MAX,
        x < 8,
        y < 8,
        bx * 8 + 8 <= usize::MAX,
        by * 8 + 8 <= usize::MAX,
    ensures
        r == edge_sample_spec(w as int, h as int, bx as int, by as int, x as int, y as int),
        r < w * h,
{
    let ty = by * 8 + y;
    let tx = bx * 8 + x;
    let sy = if ty < h - 1 { ty } else { h - 1 };
    let sx = if tx < w - 1 { tx } else { w - 1 };
    proof {
        assert(sy * w + sx < w * h) by (nonlinear_arith)
            requires
                sy <= h - 1,
                sx <= w - 1,
                w >= 1,
        ;
    }
    sy * w + sx
}

} // verus!
