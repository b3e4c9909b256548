//! Integer statistics of quantized DCT coefficients, as the compression
//! detectors read them: per-block surviving-AC counts, coefficient totals by
//! frequency, and how clustered the blocks that lost their detail are.
use vstd::prelude::*;

verus! {

/// Zigzag index at which "high frequency" starts: half of the 64
/// coefficients by zigzag order.
pub const HF_START: usize = 32;

/// Sum over the first `n` coefficients (block-row-major, 64 per block) of
/// `f(position in block, value)`.
pub open spec fn flat_sum(s: Seq<i16>, n: int, f: spec_fn(int, i16) -> int) -> int
    decreases n,
{
    if n <= 0 {
        0
    } else {
        flat_sum(s, n - 1, f) + f((n - 1) % 64, s[n - 1])
    }
}

/// Number of nonzero AC coefficients (positions 1..64) of block `b`.
pub open spec fn block_nonzero_ac(s: Seq<i16>, b: int, upto: int) -> int
    decreases upto,
{
    if upto <= 1 {
        0
    } else {
        block_nonzero_ac(s, b, upto - 1) + if s[b * 64 + upto - 1] != 0 { 1int } else { 0int }
    }
}

/// A zero AC coefficient.
pub open spec fn zero_ac(k: int, c: i16) -> int {
    if k != 0 && c == 0 { 1 } else { 0 }
}

/// A surviving (nonzero) AC coefficient.
pub open spec fn nonzero_ac(k: int, c: i16) -> int {
    if k != 0 && c != 0 { 1 } else { 0 }
}

/// Magnitude of an AC coefficient.
pub open spec fn abs_ac(k: int, c: i16) -> int {
    if k != 0 { if c < 0 { -c } else { c as int } } else { 0 }
}

/// Energy of a high-frequency coefficient (zigzag index from `HF_START`).
pub open spec fn hf_energy(k: int, c: i16) -> int {
    if k >= HF_START { c * c } else { 0 }
}

/// Energy of a low-frequency AC coefficient.
pub open spec fn lf_energy(k: int, c: i16) -> int {
    if 1 <= k < HF_START { c * c } else { 0 }
}

/// Totals over all AC coefficients of a component.
pub struct CoeffTotals {
    /// AC coefficients quantized to zero.
    pub zero_ac_coefs: u64,
    /// AC coefficients that survived.
    pub nonzero_ac: u64,
    /// Sum of |c| over AC coefficients.
    pub abs_ac: u128,
    /// Sum of c^2 over zigzag positions `HF_START..64`.
    pub hf_energy: u128,
    /// Sum of c^2 over zigzag positions `1..HF_START`.
    pub lf_energy: u128,
}

/// Bounds for partial sums of non-negative per-coefficient terms.
proof fn lemma_flat_sum_bounds(s: Seq<i16>, n: int, f: spec_fn(int, i16) -> int, m: int)
    requires
        0 <= n <= s.len(),
        forall|k: int, c: i16| 0 <= #[trigger] f(k, c) <= m,
    ensures
        0 <= flat_sum(s, n, f) <= n * m,
    decreases n,
{
    if n > 0 {
        lemma_flat_sum_bounds(s, n - 1, f, m);
        assert(0 <= f((n - 1) % 64, s[n - 1]) <= m);
        assert((n - 1) * m + m == n * m) by (nonlinear_arith);
    } else {
        assert(n * m == 0) by (nonlinear_arith)
            requires
                n == 0,
        ;
    }
}

/// Totals of the first `nblocks` blocks of zigzag-ordered coefficients.
pub fn coeff_totals(coeffs: &[i16], nblocks: usize) -> (r: CoeffTotals)
    requires
        nblocks * 64 <= coeffs@.len(),
    ensures
        r.zero_ac_coefs == flat_sum(coeffs@, nblocks * 64, |k: int, c: i16| zero_ac(k, c)),
        r.nonzero_ac == flat_sum(coeffs@, nblocks * 64, |k: int, c: i16| nonzero_ac(k, c)),
        r.abs_ac == flat_sum(coeffs@, nblocks * 64, |k: int, c: i16| abs_ac(k, c)),
        r.hf_energy == flat_sum(coeffs@, nblocks * 64, |k: int, c: i16| hf_energy(k, c)),
        r.lf_energy == flat_sum(coeffs@, nblocks * 64, |k: int, c: i16| lf_energy(k, c)),
{
    let ghost s = coeffs@;
    let ghost fz = |k: int, c: i16| zero_ac(k, c);
    let ghost fn_ = |k: int, c: i16| nonzero_ac(k, c);
    let ghost fa = |k: int, c: i16| abs_ac(k, c);
    let ghost fh = |k: int, c: i16| hf_energy(k, c);
    let ghost fl = |k: int, c: i16| lf_energy(k, c);
    proof {
        assert forall|k: int, c: i16| 0 <= #[trigger] fa(k, c) <= 32768 by {}
        assert forall|k: int, c: i16| 0 <= #[trigger] fh(k, c) <= 0x4000_0000 by {
            if k >= HF_START {
                assert(c * c <= 0x4000_0000) by (nonlinear_arith)
                    requires
                        -32768 <= c <= 32767,
                ;
                assert(c * c >= 0) by (nonlinear_arith);
            }
        }
        assert forall|k: int, c: i16| 0 <= #[trigger] fl(k, c) <= 0x4000_0000 by {
            if 1 <= k < HF_START {
                assert(c * c <= 0x4000_0000) by (nonlinear_arith)
                    requires
                        -32768 <= c <= 32767,
                ;
                assert(c * c >= 0) by (nonlinear_arith);
            }
        }
        assert forall|k: int, c: i16| 0 <= #[trigger] fz(k, c) <= 1 by {}
        assert forall|k: int, c: i16| 0 <= #[trigger] fn_(k, c) <= 1 by {}
        assert(coeffs.len() <= usize::MAX);
    }
    let n = nblocks * 64;
    let mut t = CoeffTotals { zero_ac_coefs: 0, nonzero_ac: 0, abs_ac: 0, hf_energy: 0, lf_energy: 0 };
    let mut i: usize = 0;
    while i < n
        invariant
            s == coeffs@,
            n <= s.len(),
            i <= n,
            n <= usize::MAX,
            forall|k: int, c: i16| 0 <= #[trigger] fa(k, c) <= 32768,
            forall|k: int, c: i16| 0 <= #[trigger] fh(k, c) <= 0x4000_0000,
            forall|k: int, c: i16| 0 <= #[trigger] fl(k, c) <= 0x4000_0000,
            forall|k: int, c: i16| 0 <= #[trigger] fz(k, c) <= 1,
            forall|k: int, c: i16| 0 <= #[trigger] fn_(k, c) <= 1,
            fz == (|k: int, c: i16| zero_ac(k, c)),
            fn_ == (|k: int, c: i16| nonzero_ac(k, c)),
            fa == (|k: int, c: i16| abs_ac(k, c)),
            fh == (|k: int, c: i16| hf_energy(k, c)),
            fl == (|k: int, c: i16| lf_energy(k, c)),
            t.zero_ac_coefs == flat_sum(s, i as int, fz),
            t.nonzero_ac == flat_sum(s, i as int, fn_),
            t.abs_ac == flat_sum(s, i as int, fa),
            t.hf_energy == flat_sum(s, i as int, fh),
            t.lf_energy == flat_sum(s, i as int, fl),
        decreases n - i,
    {
        proof {
            lemma_flat_sum_bounds(s, i as int, fz, 1);
            lemma_flat_sum_bounds(s, i as int, fn_, 1);
            lemma_flat_sum_bounds(s, i as int, fa, 32768);
            lemma_flat_sum_bounds(s, i as int, fh, 0x4000_0000);
            lemma_flat_sum_bounds(s, i as int, fl, 0x4000_0000);
            assert(i * 32768 + 32768 <= 0x1_0000_0000_0000_0000 * 32768) by (nonlinear_arith)
                requires
                    i < n,
                    n <= usize::MAX,
                    usize::MAX < 0x1_0000_0000_0000_0000,
            ;
            assert(i * 0x4000_0000 + 0x4000_0000 <= 0x1_0000_0000_0000_0000 * 0x4000_0000)
                by (nonlinear_arith)
                requires
                    i < n,
                    n <= usize::MAX,
                    usize::MAX < 0x1_0000_0000_0000_0000,
            ;
        }
        let k = i % 64;
        let c = coeffs[i];
        if k != 0 {
            if c == 0 {
                t.zero_ac_coefs = t.zero_ac_coefs + 1;
            } else {
                t.nonzero_ac = t.nonzero_ac + 1;
            }
            let a: u128 = if c < 0 { (-(c as i32)) as u128 } else { c as u128 };
            t.abs_ac = t.abs_ac + a;
            let wide = c as i64;
            proof {
                assert(0 <= wide * wide <= 0x4000_0000) by (nonlinear_arith)
                    requires
                        -32768 <= wide <= 32767,
                ;
            }
            let e = (wide * wide) as u128;
            proof {
                assert(wide * wide == c * c);
            }
            if k >= HF_START {
                t.hf_energy = t.hf_energy + e;
            } else {
                t.lf_energy = t.lf_energy + e;
            }
        }
        i = i + 1;
    }
    t
}

/// Surviving AC coefficients of each of the first `nblocks` blocks.
pub fn block_ac_counts(coeffs: &[i16], nblocks: usize) -> (r: Vec<u32>)
    requires
        nblocks * 64 <= coeffs@.len(),
    ensures
        r@.len() == nblocks,
        forall|b: int| 0 <= b < nblocks ==> #[trigger] r@[b] == block_nonzero_ac(coeffs@, b, 64),
{
    let mut out: Vec<u32> = Vec::new();
    let mut b: usize = 0;
    while b < nblocks
        invariant
            nblocks * 64 <= coeffs.len(),
            b <= nblocks,
            out@.len() == b,
            forall|j: int| 0 <= j < b ==> #[trigger] out@[j] == block_nonzero_ac(coeffs@, j, 64),
        decreases nblocks - b,
    {
        proof {
            assert(b * 64 + 64 <= nblocks * 64) by (nonlinear_arith)
                requires
                    b < nblocks,
            ;
        }
        let base = b * 64;
        let mut cnt: u32 = 0;
        let mut k: usize = 1;
        while k < 64
            invariant
                nblocks * 64 <= coeffs@.len(),
                b < nblocks,
                base == b * 64,
                base + 64 <= coeffs@.len(),
                1 <= k <= 64,
                cnt == block_nonzero_ac(coeffs@, b as int, k as int),
                cnt < k,
            decreases 64 - k,
        {
            if coeffs[base + k] != 0 {
                cnt = cnt + 1;
            }
            k = k + 1;
        }
        out.push(cnt);
        b = b + 1;
    }
    out
}

/// Number of blocks whose AC coefficients are all zero.
pub open spec fn zero_count(counts: Seq<u32>, n: int) -> int
    decreases n,
{
    if n <= 0 {
        0
    } else {
        zero_count(counts, n - 1) + if counts[n - 1] == 0 { 1int } else { 0int }
    }
}

/// Blocks with no surviving AC coefficient, from the per-block counts.
pub fn zero_ac_blocks(counts: &[u32]) -> (r: usize)
    ensures
        r == zero_count(counts@, counts@.len() as int),
{
    let mut z: usize = 0;
    let mut i: usize = 0;
    while i < counts.len()
        invariant
            i <= counts@.len(),
            z == zero_count(counts@, i as int),
            z <= i,
        decreases counts.len() - i,
    {
        if counts[i] == 0 {
            z = z + 1;
        }
        i = i + 1;
    }
    z
}

/// Block `i` of a grid `bw` blocks wide has a flagged 4-neighbour.
pub open spec fn has_flagged_neighbour(g: Seq<bool>, bw: int, i: int) -> bool {
    let (x, y) = (i % bw, i / bw);
    ||| x > 0 && g[i - 1]
    ||| x + 1 < bw && g[i + 1]
    ||| y > 0 && g[i - bw]
    ||| i + bw < g.len() && g[i + bw]
}

/// Flagged blocks among the first `n` that have a flagged 4-neighbour.
pub open spec fn clustered_count(g: Seq<bool>, bw: int, n: int) -> int
    decreases n,
{
    if n <= 0 {
        0
    } else {
        clustered_count(g, bw, n - 1) + if g[n - 1] && has_flagged_neighbour(g, bw, n - 1) {
            1int
        } else {
            0int
        }
    }
}

/// Looking for a right-hand neighbour of the last block stays inside `g`: a
/// flagged last block that does not end its row (its right-hand neighbour
/// would lie past the end) has a flagged left-hand neighbour, which settles
/// the question first.
pub open spec fn right_reads_inside(g: Seq<bool>, bw: int) -> bool {
    let i = g.len() - 1;
    let x = i % bw;
    g.len() >= 1 && g[i] && x + 1 < bw ==> x > 0 && g[i - 1]
}

/// How many flagged blocks touch another flagged block (4-connected) in a
/// grid `blocks_wide` wide (taken as at least one): separates scattered loss
/// from contiguous flattened areas. Neighbours are tried left, right, up,
/// down, and the first flagged one settles it.
pub fn count_clustered(gutted: &[bool], blocks_wide: usize) -> (r: usize)
    requires
        right_reads_inside(gutted@, if blocks_wide == 0 { 1 } else { blocks_wide as int }),
    ensures
        r == clustered_count(
            gutted@,
            if blocks_wide == 0 { 1 } else { blocks_wide as int },
            gutted@.len() as int,
        ),
{
    let bw = if blocks_wide == 0 { 1 } else { blocks_wide };
    let n = gutted.len();
    let mut clustered: usize = 0;
    let mut i: usize = 0;
    while i < n
        invariant
            n == gutted@.len(),
            bw >= 1,
            right_reads_inside(gutted@, bw as int),
            i <= n,
            clustered <= i,
            clustered == clustered_count(gutted@, bw as int, i as int),
        decreases n - i,
    {
        if gutted[i] {
            let x = i % bw;
            let y = i / bw;
            proof {
                vstd::arithmetic::div_mod::lemma_fundamental_div_mod(i as int, bw as int);
                if y > 0 {
                    assert(i >= bw) by (nonlinear_arith)
                        requires
                            i == bw * y + x,
                            y >= 1,
                            x >= 0,
                    ;
                }
            }
            let touches = if x > 0 && gutted[i - 1] {
                true
            } else if x + 1 < bw && gutted[i + 1] {
                true
            } else if y > 0 && gutted[i - bw] {
                true
            } else {
                bw < n - i && gutted[i + bw]
            };
            if touches {
                clustered = clustered + 1;
            }
        }
        i = i + 1;
    }
    clustered
}

} // verus!
