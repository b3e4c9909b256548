//! Coefficient statistics over a fixed, centred window of blocks, so that
//! every count is taken over at most `wblk x wblk` blocks whatever the image
//! size: per-band magnitude histograms, DC values, and nonzero counts and
//! dequantized energy by frequency region.
use vstd::prelude::*;
use crate::zigzag::{ZIGZAG_TO_NATURAL, zz, lemma_zigzag_is_permutation};

verus! {

/// Histogram bins per band: magnitudes 0..=32.
pub const BINS: usize = 33;

/// A centred window of whole blocks in a `blocks_wide x blocks_high` grid.
pub struct Window {
    /// Blocks per grid row.
    pub stride: usize,
    /// Window width and height in blocks.
    pub bw: usize,
    pub bh: usize,
    /// Window origin in blocks.
    pub bx0: usize,
    pub by0: usize,
}

/// The centred window of at most `wblk x wblk` blocks.
pub open spec fn window_of(blocks_wide: int, blocks_high: int, wblk: int) -> (int, int, int, int) {
    let bw = if blocks_wide < wblk { blocks_wide } else { wblk };
    let bh = if blocks_high < wblk { blocks_high } else { wblk };
    (bw, bh, (blocks_wide - bw) / 2, (blocks_high - bh) / 2)
}

/// The centred window of at most `wblk x wblk` blocks of a grid.
pub fn centered_window(blocks_wide: usize, blocks_high: usize, wblk: usize) -> (r: Window)
    ensures
        r.stride == blocks_wide,
        (r.bw as int, r.bh as int, r.bx0 as int, r.by0 as int) == window_of(
            blocks_wide as int,
            blocks_high as int,
            wblk as int,
        ),
{
    let bw = if blocks_wide < wblk { blocks_wide } else { wblk };
    let bh = if blocks_high < wblk { blocks_high } else { wblk };
    Window { stride: blocks_wide, bw, bh, bx0: (blocks_wide - bw) / 2, by0: (blocks_high - bh) / 2 }
}

impl Window {
    /// Grid index of window block `w` (row-major over the window).
    pub open spec fn block(self, w: int) -> int {
        (self.by0 + w / self.bw as int) * self.stride + self.bx0 + w % self.bw as int
    }

    /// Coefficient `f % 64` of window block `f / 64`.
    pub open spec fn coeff(self, s: Seq<i16>, f: int) -> i16 {
        s[self.block(f / 64) * 64 + f % 64]
    }

    /// The window lies inside a grid of `blocks_high` rows whose
    /// coefficients `s` holds.
    pub open spec fn fits(self, s: Seq<i16>, blocks_high: int) -> bool {
        &&& self.bx0 + self.bw <= self.stride
        &&& self.by0 + self.bh <= blocks_high
        &&& s.len() == self.stride * blocks_high * 64
    }
}

/// Number of the first `n` window coefficients with `pred(zigzag position, value)`.
pub open spec fn win_count(win: Window, s: Seq<i16>, n: int, pred: spec_fn(int, i16) -> bool) -> int
    decreases n,
{
    if n <= 0 {
        0
    } else {
        win_count(win, s, n - 1, pred) + if pred((n - 1) % 64, win.coeff(s, n - 1)) {
            1int
        } else {
            0int
        }
    }
}

/// Frequency region of zigzag position `k`: 1..=9, 10..=27, 28..=63.
pub open spec fn region(k: int) -> int {
    if k <= 9 {
        0
    } else if k <= 27 {
        1
    } else {
        2
    }
}

/// |c| as an integer.
pub open spec fn mag(c: i16) -> int {
    if c < 0 { -c } else { c as int }
}

/// Dequantized energy `(c * Q)^2` of the first `n` window coefficients that
/// are nonzero AC coefficients of region `r`, `Q` from the natural-order
/// table at the coefficient's natural position.
pub open spec fn win_energy(win: Window, s: Seq<i16>, qt: Seq<u16>, n: int, r: int) -> int
    decreases n,
{
    if n <= 0 {
        0
    } else {
        let k = (n - 1) % 64;
        let c = win.coeff(s, n - 1);
        win_energy(win, s, qt, n - 1, r) + if k >= 1 && region(k) == r && c != 0 {
            (c * qt[zz(k)]) * (c * qt[zz(k)])
        } else {
            0int
        }
    }
}

/// Statistics of a window: `hist[band * BINS + a]` counts coefficients of
/// zigzag position `band + 1` with magnitude `a`, `dc` the DC value of each
/// window block, and per region the AC coefficients, the nonzero ones, and
/// their dequantized energy.
pub struct WindowStats {
    pub hist: Vec<u32>,
    pub dc: Vec<i32>,
    pub ntot: [u64; 3],
    pub nz: [u64; 3],
    pub energy: [u128; 3],
}

/// Magnitude histogram entry: zigzag position `band + 1`, magnitude `a`.
pub open spec fn hist_pred(band: int, a: int) -> spec_fn(int, i16) -> bool {
    |k: int, c: i16| k == band + 1 && mag(c) == a
}

/// AC coefficient of region `r`.
pub open spec fn ac_pred(r: int) -> spec_fn(int, i16) -> bool {
    |k: int, c: i16| k >= 1 && region(k) == r
}

/// Nonzero AC coefficient of region `r`.
pub open spec fn nz_pred(r: int) -> spec_fn(int, i16) -> bool {
    |k: int, c: i16| k >= 1 && region(k) == r && c != 0
}

/// The window statistics that `window_stats` computes.
pub open spec fn is_window_stats(st: WindowStats, win: Window, s: Seq<i16>, qt: Seq<u16>, nbands: int) -> bool {
    let n = win.bw * win.bh * 64;
    &&& st.hist@.len() == nbands * BINS
    &&& forall|band: int, a: int|
        0 <= band < nbands && 0 <= a < BINS ==> #[trigger] st.hist@[band * BINS + a] == win_count(
            win,
            s,
            n,
            hist_pred(band, a),
        )
    &&& st.dc@.len() == win.bw * win.bh
    &&& forall|w: int| 0 <= w < win.bw * win.bh ==> #[trigger] st.dc@[w] == s[win.block(w) * 64]
    &&& forall|r: int| 0 <= r < 3 ==> #[trigger] st.ntot[r] == win_count(win, s, n, ac_pred(r))
    &&& forall|r: int| 0 <= r < 3 ==> #[trigger] st.nz[r] == win_count(win, s, n, nz_pred(r))
    &&& forall|r: int| 0 <= r < 3 ==> #[trigger] st.energy[r] == win_energy(win, s, qt, n, r)
}

/// A window coefficient lies inside the coefficient data.
proof fn lemma_block_in_grid(win: Window, s: Seq<i16>, blocks_high: int, w: int)
    requires
        win.fits(s, blocks_high),
        win.bw >= 1,
        0 <= w < win.bw * win.bh,
    ensures
        0 <= win.block(w),
        win.block(w) * 64 + 64 <= s.len(),
        win.by0 + w / win.bw as int <= blocks_high,
        0 <= (win.by0 + w / win.bw as int) * win.stride <= win.block(w),
{
    let bw = win.bw as int;
    let st = win.stride as int;
    vstd::arithmetic::div_mod::lemma_fundamental_div_mod(w, bw);
    let y = w / bw;
    let x = w % bw;
    assert(y < win.bh) by (nonlinear_arith)
        requires
            w == bw * y + x,
            0 <= x < bw,
            w < bw * win.bh,
    ;
    assert(y >= 0) by (nonlinear_arith)
        requires
            w == bw * y + x,
            0 <= x < bw,
            w >= 0,
    ;
    assert((win.by0 + y) * st + win.bx0 + x < blocks_high * st) by (nonlinear_arith)
        requires
            win.by0 + y + 1 <= blocks_high,
            win.bx0 + x < st,
            st >= 0,
    ;
    assert((win.by0 + y) * st >= 0) by (nonlinear_arith)
        requires
            win.by0 + y >= 0,
            st >= 0,
    ;
    assert(st * blocks_high * 64 == blocks_high * st * 64) by (nonlinear_arith);
    assert(x == w % win.bw as int && y == w / win.bw as int);
}

/// Histograms, DC values and region totals of the first `nbands` AC bands
/// over the window `win` of a component's zigzag-ordered coefficients.
pub fn window_stats(
    coeffs: &[i16],
    blocks_high: usize,
    win: &Window,
    qt: &[u16; 64],
    nbands: usize,
) -> (r: WindowStats)
    requires
        win.fits(coeffs@, blocks_high as int),
        1 <= nbands <= 63,
        win.bw * win.bh * 64 <= u32::MAX,
    ensures
        is_window_stats(r, *win, coeffs@, qt@, nbands as int),
{
    let ghost s = coeffs@;
    let nblk = win.bw * win.bh;
    let mut hist: Vec<u32> = Vec::new();
    let mut j: usize = 0;
    while j < nbands * BINS
        invariant
            nbands <= 63,
            j <= nbands * BINS,
            hist@.len() == j,
            forall|i: int| 0 <= i < j ==> #[trigger] hist@[i] == 0,
        decreases nbands * BINS - j,
    {
        hist.push(0);
        j = j + 1;
    }
    let mut st = WindowStats { hist, dc: Vec::new(), ntot: [0; 3], nz: [0; 3], energy: [0; 3] };
    proof {
        lemma_zigzag_is_permutation();
        assert forall|band: int, a: int|
            0 <= band < nbands && 0 <= a < BINS implies #[trigger] st.hist@[band * BINS + a]
            == win_count(*win, s, 0, hist_pred(band, a)) by {}
    }
    let mut w: usize = 0;
    while w < nblk
        invariant
            s == coeffs@,
            win.fits(s, blocks_high as int),
            nblk == win.bw * win.bh,
            nblk * 64 <= u32::MAX,
            1 <= nbands <= 63,
            w <= nblk,
            st.dc@.len() == w,
            forall|v: int| 0 <= v < w ==> #[trigger] st.dc@[v] == s[win.block(v) * 64],
            is_partial(st, *win, s, qt@, nbands as int, w * 64),
        decreases nblk - w,
    {
        proof {
            assert(win.bw >= 1) by (nonlinear_arith)
                requires
                    w < win.bw * win.bh,
                    w >= 0,
            ;
            lemma_block_in_grid(*win, s, blocks_high as int, w as int);
            assert(coeffs.len() <= usize::MAX);
            assert(win.by0 + w / win.bw <= blocks_high);
            assert((win.by0 + w / win.bw) * win.stride <= win.block(w as int));
        }
        let b = (win.by0 + w / win.bw) * win.stride + win.bx0 + w % win.bw;
        let base = b * 64;
        let ghost before_dc = st.dc@;
        st.dc.push(coeffs[base] as i32);
        proof {
            assert(w as int * 64 / 64 == w);
            assert(win.coeff(s, w * 64) == s[win.block(w as int) * 64]);
            lemma_partial_step_dc(st, *win, s, qt@, nbands as int, w as int);
        }
        let mut k: usize = 1;
        while k < 64
            invariant
                s == coeffs@,
                win.fits(s, blocks_high as int),
                nblk == win.bw * win.bh,
                nblk * 64 <= u32::MAX,
                1 <= nbands <= 63,
                w < nblk,
                b == win.block(w as int),
                base == b * 64,
                base + 64 <= s.len(),
                1 <= k <= 64,
                st.dc@.len() == w + 1,
                forall|v: int| 0 <= v <= w ==> #[trigger] st.dc@[v] == s[win.block(v) * 64],
                is_partial(st, *win, s, qt@, nbands as int, w * 64 + k),
            decreases 64 - k,
        {
            let c = coeffs[base + k];
            let ghost f = w * 64 + k;
            proof {
                assert(f / 64 == w && f % 64 == k) by {
                    vstd::arithmetic::div_mod::lemma_fundamental_div_mod_converse(
                        f as int,
                        64,
                        w as int,
                        k as int,
                    );
                }
                assert(win.coeff(s, f as int) == c);
                assert(f + 1 <= nblk * 64) by (nonlinear_arith)
                    requires
                        w < nblk,
                        k < 64,
                        f == w * 64 + k,
                ;
            }
            let ghost old_st = st;
            let r: usize = if k <= 9 { 0 } else if k <= 27 { 1 } else { 2 };
            proof {
                assert(old_st.ntot[r as int] <= f);
                assert(old_st.nz[r as int] <= f);
                assert(old_st.energy[r as int] <= f * 0x4000_0000_0000_0000);
            }
            st.ntot[r] = st.ntot[r] + 1;
            if c != 0 {
                st.nz[r] = st.nz[r] + 1;
                let q = qt[ZIGZAG_TO_NATURAL[k]] as i64;
                proof {
                    assert(-32768 * 65535 <= c * q <= 32767 * 65535) by (nonlinear_arith)
                        requires
                            -32768 <= c <= 32767,
                            0 <= q <= 65535,
                    ;
                }
                let cq = c as i64 * q;
                proof {
                    assert(-32768 * 65535 <= cq <= 32767 * 65535) by (nonlinear_arith)
                        requires
                            cq == c * q,
                            -32768 <= c <= 32767,
                            0 <= q <= 65535,
                    ;
                    assert(0 <= cq * cq <= 0x4000_0000_0000_0000) by (nonlinear_arith)
                        requires
                            -32768 * 65535 <= cq <= 32767 * 65535,
                    ;
                }
                let e = (cq * cq) as u128;
                proof {
                    assert(f * 0x4000_0000_0000_0000 + 0x4000_0000_0000_0000 <= 0x1_0000_0000
                        * 0x4000_0000_0000_0000) by (nonlinear_arith)
                        requires
                            f + 1 <= 0x1_0000_0000,
                    ;
                }
                st.energy[r] = st.energy[r] + e;
            }
            let a: i32 = if c < 0 { -(c as i32) } else { c as i32 };
            if k <= nbands && a <= 32 {
                let idx = (k - 1) * BINS + a as usize;
                proof {
                    assert(old_st.hist@[idx as int] <= f);
                }
                st.hist.set(idx, st.hist[idx] + 1);
            }
            proof {
                let qq = qt@[zz(f % 64)];
                assert(0 <= (c * qq) * (c * qq) <= 0x4000_0000_0000_0000) by (nonlinear_arith)
                    requires
                        -32768 <= c <= 32767,
                        0 <= qq <= 65535,
                ;
                lemma_partial_step(old_st, st, *win, s, qt@, nbands as int, f as int, c, r as int);
            }
            k = k + 1;
        }
        w = w + 1;
    }
    st
}

/// The statistics of the first `n` window coefficients, bounded by `n`.
pub open spec fn is_partial(st: WindowStats, win: Window, s: Seq<i16>, qt: Seq<u16>, nbands: int, n: int) -> bool {
    &&& st.hist@.len() == nbands * BINS
    &&& forall|band: int, a: int|
        0 <= band < nbands && 0 <= a < BINS ==> #[trigger] st.hist@[band * BINS + a] == win_count(
            win,
            s,
            n,
            hist_pred(band, a),
        )
    &&& forall|r: int| 0 <= r < 3 ==> #[trigger] st.ntot[r] == win_count(win, s, n, ac_pred(r))
    &&& forall|r: int| 0 <= r < 3 ==> #[trigger] st.nz[r] == win_count(win, s, n, nz_pred(r))
    &&& forall|r: int| 0 <= r < 3 ==> #[trigger] st.energy[r] == win_energy(win, s, qt, n, r)
    &&& forall|r: int| 0 <= r < 3 ==> #[trigger] st.energy[r] <= n * 0x4000_0000_0000_0000
    &&& forall|i: int| 0 <= i < nbands * BINS ==> #[trigger] st.hist@[i] <= n
    &&& forall|r: int| 0 <= r < 3 ==> #[trigger] st.ntot[r] <= n
    &&& forall|r: int| 0 <= r < 3 ==> #[trigger] st.nz[r] <= n
}

/// The DC coefficient of a block counts toward none of the statistics.
proof fn lemma_partial_step_dc(st: WindowStats, win: Window, s: Seq<i16>, qt: Seq<u16>, nbands: int, w: int)
    requires
        is_partial(st, win, s, qt, nbands, w * 64),
        w >= 0,
    ensures
        is_partial(st, win, s, qt, nbands, w * 64 + 1),
{
    let f = w * 64;
    assert(f % 64 == 0);
    assert forall|band: int, a: int|
        0 <= band < nbands && 0 <= a < BINS implies #[trigger] st.hist@[band * BINS + a] == win_count(
        win,
        s,
        f + 1,
        hist_pred(band, a),
    ) by {
        assert(!hist_pred(band, a)(f % 64, win.coeff(s, f)));
    }
    assert forall|r: int| 0 <= r < 3 implies #[trigger] st.ntot[r] == win_count(win, s, f + 1, ac_pred(r)) by {
        assert(!ac_pred(r)(f % 64, win.coeff(s, f)));
    }
    assert forall|r: int| 0 <= r < 3 implies #[trigger] st.nz[r] == win_count(win, s, f + 1, nz_pred(r)) by {
        assert(!nz_pred(r)(f % 64, win.coeff(s, f)));
    }
    assert forall|r: int| 0 <= r < 3 implies #[trigger] st.energy[r] == win_energy(win, s, qt, f + 1, r) by {}
    assert forall|r: int| 0 <= r < 3 implies #[trigger] st.energy[r] <= (f + 1) * 0x4000_0000_0000_0000 by {
        assert(st.energy[r] <= f * 0x4000_0000_0000_0000);
    }
}

/// One AC coefficient added to the statistics.
proof fn lemma_partial_step(
    old: WindowStats,
    new: WindowStats,
    win: Window,
    s: Seq<i16>,
    qt: Seq<u16>,
    nbands: int,
    f: int,
    c: i16,
    r: int,
)
    requires
        is_partial(old, win, s, qt, nbands, f),
        f >= 0,
        f + 1 <= u32::MAX,
        f % 64 >= 1,
        c == win.coeff(s, f),
        r == region(f % 64),
        0 <= r < 3,
        qt.len() == 64,
        new.ntot[r] == old.ntot[r] + 1,
        forall|x: int| 0 <= x < 3 && x != r ==> new.ntot[x] == old.ntot[x],
        new.nz[r] == old.nz[r] + if c != 0 { 1int } else { 0int },
        forall|x: int| 0 <= x < 3 && x != r ==> new.nz[x] == old.nz[x],
        new.energy[r] == old.energy[r] + if c != 0 {
            (c * qt[zz(f % 64)]) * (c * qt[zz(f % 64)])
        } else {
            0int
        },
        forall|x: int| 0 <= x < 3 && x != r ==> new.energy[x] == old.energy[x],
        0 <= (c * qt[zz(f % 64)]) * (c * qt[zz(f % 64)]) <= 0x4000_0000_0000_0000,
        new.hist@ == if f % 64 <= nbands && mag(c) < BINS {
            old.hist@.update((f % 64 - 1) * BINS + mag(c), (old.hist@[(f % 64 - 1) * BINS + mag(c)] + 1) as u32)
        } else {
            old.hist@
        },
    ensures
        is_partial(new, win, s, qt, nbands, f + 1),
{
    let k = f % 64;
    assert forall|band: int, a: int|
        0 <= band < nbands && 0 <= a < BINS implies #[trigger] new.hist@[band * BINS + a] == win_count(
        win,
        s,
        f + 1,
        hist_pred(band, a),
    ) by {
        assert(old.hist@[band * BINS + a] == win_count(win, s, f, hist_pred(band, a)));
        assert(win_count(win, s, f + 1, hist_pred(band, a)) == win_count(win, s, f, hist_pred(band, a))
            + if hist_pred(band, a)(k, c) { 1int } else { 0int });
        if k <= nbands && mag(c) < BINS && band == k - 1 && a == mag(c) {
            assert(hist_pred(band, a)(k, c));
        } else {
            if k <= nbands && mag(c) < BINS {
                assert(band * BINS + a != (k - 1) * BINS + mag(c));
            }
            assert(!hist_pred(band, a)(k, c));
        }
    }
    assert forall|i: int| 0 <= i < nbands * BINS implies #[trigger] new.hist@[i] <= f + 1 by {
        assert(old.hist@[i] <= f);
    }
    assert forall|x: int| 0 <= x < 3 implies #[trigger] new.ntot[x] == win_count(win, s, f + 1, ac_pred(x)) by {
        assert(ac_pred(x)(k, c) == (x == r));
    }
    assert forall|x: int| 0 <= x < 3 implies #[trigger] new.nz[x] == win_count(win, s, f + 1, nz_pred(x)) by {
        assert(nz_pred(x)(k, c) == (x == r && c != 0));
    }
    assert forall|x: int| 0 <= x < 3 implies #[trigger] new.energy[x] == win_energy(win, s, qt, f + 1, x) by {}
    assert forall|x: int| 0 <= x < 3 implies #[trigger] new.energy[x] <= (f + 1) * 0x4000_0000_0000_0000 by {
        assert(old.energy[x] <= f * 0x4000_0000_0000_0000);
    }
    assert forall|x: int| 0 <= x < 3 implies #[trigger] new.ntot[x] <= f + 1 by {
        assert(old.ntot[x] <= f);
    }
    assert forall|x: int| 0 <= x < 3 implies #[trigger] new.nz[x] <= f + 1 by {
        assert(old.nz[x] <= f);
    }
}

/// Counts over two windows agree where their coefficients agree.
proof fn lemma_win_count_same(
    w1: Window,
    s1: Seq<i16>,
    w2: Window,
    s2: Seq<i16>,
    n: int,
    pred: spec_fn(int, i16) -> bool,
)
    requires
        forall|f: int| 0 <= f < n ==> #[trigger] w1.coeff(s1, f) == w2.coeff(s2, f),
    ensures
        win_count(w1, s1, n, pred) == win_count(w2, s2, n, pred),
    decreases n,
{
    if n > 0 {
        lemma_win_count_same(w1, s1, w2, s2, n - 1, pred);
        assert(w1.coeff(s1, n - 1) == w2.coeff(s2, n - 1));
    }
}

/// Energies over two windows agree where their coefficients agree.
proof fn lemma_win_energy_same(w1: Window, s1: Seq<i16>, w2: Window, s2: Seq<i16>, qt: Seq<u16>, n: int, r: int)
    requires
        forall|f: int| 0 <= f < n ==> #[trigger] w1.coeff(s1, f) == w2.coeff(s2, f),
    ensures
        win_energy(w1, s1, qt, n, r) == win_energy(w2, s2, qt, n, r),
    decreases n,
{
    if n > 0 {
        lemma_win_energy_same(w1, s1, w2, s2, qt, n - 1, r);
        assert(w1.coeff(s1, n - 1) == w2.coeff(s2, n - 1));
    }
}

/// The statistics see nothing outside their window: two components whose
/// windows have the same size and hold the same coefficients give, under the
/// same quant table, the same histograms, DC values, counts and energies,
/// however large the images around the windows are.
pub proof fn lemma_window_stats_see_only_the_window(
    st1: WindowStats,
    win1: Window,
    s1: Seq<i16>,
    st2: WindowStats,
    win2: Window,
    s2: Seq<i16>,
    qt: Seq<u16>,
    nbands: int,
)
    requires
        is_window_stats(st1, win1, s1, qt, nbands),
        is_window_stats(st2, win2, s2, qt, nbands),
        win1.bw == win2.bw,
        win1.bh == win2.bh,
        forall|f: int|
            0 <= f < win1.bw * win1.bh * 64 ==> #[trigger] win1.coeff(s1, f) == win2.coeff(s2, f),
    ensures
        st1.hist@ == st2.hist@,
        st1.dc@ == st2.dc@,
        st1.ntot == st2.ntot,
        st1.nz == st2.nz,
        st1.energy == st2.energy,
{
    let n = win1.bw * win1.bh * 64;
    assert forall|band: int, a: int| 0 <= band < nbands && 0 <= a < BINS implies #[trigger] st1.hist@[
        band * BINS + a] == st2.hist@[band * BINS + a] by {
        lemma_win_count_same(win1, s1, win2, s2, n, hist_pred(band, a));
    }
    assert forall|i: int| 0 <= i < st1.hist@.len() implies st1.hist@[i] == st2.hist@[i] by {
        let band = i / (BINS as int);
        let a = i % (BINS as int);
        assert(i == band * BINS + a);
        assert(0 <= band < nbands) by (nonlinear_arith)
            requires
                i == band * 33 + a,
                0 <= a < 33,
                0 <= i < nbands * 33,
        ;
        assert(st1.hist@[band * BINS + a] == st2.hist@[band * BINS + a]);
    }
    assert(st1.hist@ =~= st2.hist@);
    assert forall|w: int| 0 <= w < win1.bw * win1.bh implies st1.dc@[w] == st2.dc@[w] by {
        assert(0 <= w * 64 < n) by (nonlinear_arith)
            requires
                0 <= w < win1.bw * win1.bh,
                n == win1.bw * win1.bh * 64,
        ;
        assert((w * 64) / 64 == w && (w * 64) % 64 == 0) by (nonlinear_arith);
        assert(win1.coeff(s1, w * 64) == win2.coeff(s2, w * 64));
        assert(st1.dc@[w] == s1[win1.block(w) * 64]);
        assert(st2.dc@[w] == s2[win2.block(w) * 64]);
    }
    assert(st1.dc@ =~= st2.dc@);
    assert forall|r: int| 0 <= r < 3 implies st1.ntot[r] == st2.ntot[r] && st1.nz[r] == st2.nz[r]
        && st1.energy[r] == st2.energy[r] by {
        lemma_win_count_same(win1, s1, win2, s2, n, ac_pred(r));
        lemma_win_count_same(win1, s1, win2, s2, n, nz_pred(r));
        lemma_win_energy_same(win1, s1, win2, s2, qt, n, r);
        assert(st1.ntot[r] == win_count(win1, s1, n, ac_pred(r)));
        assert(st2.ntot[r] == win_count(win2, s2, n, ac_pred(r)));
        assert(st1.nz[r] == win_count(win1, s1, n, nz_pred(r)));
        assert(st2.nz[r] == win_count(win2, s2, n, nz_pred(r)));
        assert(st1.energy[r] == win_energy(win1, s1, qt, n, r));
        assert(st2.energy[r] == win_energy(win2, s2, qt, n, r));
    }
    assert(st1.ntot =~= st2.ntot);
    assert(st1.nz =~= st2.nz);
    assert(st1.energy =~= st2.energy);
}

/// Counts under two predicates agree where the predicates agree.
proof fn lemma_win_count_pred(win: Window, s: Seq<i16>, n: int, p1: spec_fn(int, i16) -> bool, p2: spec_fn(int, i16) -> bool)
    requires
        forall|k: int, c: i16| 0 <= k < 64 ==> #[trigger] p1(k, c) == p2(k, c),
    ensures
        win_count(win, s, n, p1) == win_count(win, s, n, p2),
    decreases n,
{
    if n > 0 {
        lemma_win_count_pred(win, s, n - 1, p1, p2);
        let k = (n - 1) % 64;
        assert(0 <= k < 64);
        assert(p1(k, win.coeff(s, n - 1)) == p2(k, win.coeff(s, n - 1)));
    }
}

/// Histogram bin `a` of band `band` counts exactly the window coefficients
/// at zigzag position `band + 1` whose value is `a` or `-a`: a coefficient
/// whose magnitude is beyond the last bin is counted in no bin.
pub proof fn lemma_hist_counts_exact_magnitude(st: WindowStats, win: Window, s: Seq<i16>, qt: Seq<u16>, nbands: int)
    requires
        is_window_stats(st, win, s, qt, nbands),
    ensures
        forall|band: int, a: int|
            0 <= band < nbands && 0 <= a < BINS ==> #[trigger] st.hist@[band * BINS + a] == win_count(
                win,
                s,
                win.bw * win.bh * 64,
                |k: int, c: i16| k == band + 1 && (c as int == a || c as int == -a),
            ),
{
    assert forall|band: int, a: int| 0 <= band < nbands && 0 <= a < BINS implies #[trigger] st.hist@[
        band * BINS + a] == win_count(
        win,
        s,
        win.bw * win.bh * 64,
        |k: int, c: i16| k == band + 1 && (c as int == a || c as int == -a),
    ) by {
        let p2 = |k: int, c: i16| k == band + 1 && (c as int == a || c as int == -a);
        assert forall|k: int, c: i16| 0 <= k < 64 implies #[trigger] hist_pred(band, a)(k, c) == p2(k, c) by {
        }
        lemma_win_count_pred(win, s, win.bw * win.bh * 64, hist_pred(band, a), p2);
    }
}

/// AC positions of region `r` among the first `m` positions of a block.
spec fn region_prefix(m: int, r: int) -> int {
    let (lo, size) = if r == 0 { (1int, 9int) } else if r == 1 { (10int, 18int) } else { (28int, 36int) };
    if m <= lo { 0 } else if m - lo >= size { size } else { m - lo }
}

/// AC positions of region `r` in a whole block.
spec fn region_size(r: int) -> int {
    if r == 0 { 9 } else if r == 1 { 18 } else { 36 }
}

/// AC coefficients of region `r` among the first `n` window coefficients:
/// `region_size(r)` per whole block plus those of the partial block.
proof fn lemma_ac_count(win: Window, s: Seq<i16>, n: int, r: int)
    requires
        0 <= n,
        0 <= r < 3,
    ensures
        win_count(win, s, n, ac_pred(r)) == (n / 64) * region_size(r) + region_prefix(n % 64, r),
    decreases n,
{
    if n > 0 {
        lemma_ac_count(win, s, n - 1, r);
        let m = n - 1;
        assert(m == 64 * (m / 64) + m % 64) by {
            vstd::arithmetic::div_mod::lemma_fundamental_div_mod(m, 64);
        }
        if m % 64 == 63 {
            assert(n / 64 == m / 64 + 1 && n % 64 == 0) by {
                vstd::arithmetic::div_mod::lemma_fundamental_div_mod_converse(n, 64, m / 64 + 1, 0);
            }
        } else {
            assert(n / 64 == m / 64 && n % 64 == m % 64 + 1) by {
                vstd::arithmetic::div_mod::lemma_fundamental_div_mod_converse(n, 64, m / 64, m % 64 + 1);
            }
        }
        assert(ac_pred(r)(m % 64, win.coeff(s, m)) == (m % 64 >= 1 && region(m % 64) == r));
        assert((m / 64 + 1) * region_size(r) == (m / 64) * region_size(r) + region_size(r))
            by (nonlinear_arith);
    }
}

/// Every window block contributes all its AC positions to the region totals:
/// 9 in region 0 (zigzag 1..=9), 18 in region 1 (10..=27) and 36 in region 2
/// (28..=63), whatever the coefficient values.
pub proof fn lemma_region_totals(st: WindowStats, win: Window, s: Seq<i16>, qt: Seq<u16>, nbands: int)
    requires
        is_window_stats(st, win, s, qt, nbands),
    ensures
        st.ntot[0] == 9 * (win.bw * win.bh),
        st.ntot[1] == 18 * (win.bw * win.bh),
        st.ntot[2] == 36 * (win.bw * win.bh),
{
    let nb = win.bw * win.bh;
    let n = nb * 64;
    assert(n >= 0 && n / 64 == nb && n % 64 == 0) by {
        assert(nb >= 0) by (nonlinear_arith)
            requires
                nb == win.bw * win.bh,
        ;
        vstd::arithmetic::div_mod::lemma_fundamental_div_mod_converse(n, 64, nb as int, 0);
    }
    lemma_ac_count(win, s, n, 0);
    lemma_ac_count(win, s, n, 1);
    lemma_ac_count(win, s, n, 2);
    assert(st.ntot[0] == win_count(win, s, n, ac_pred(0)));
    assert(st.ntot[1] == win_count(win, s, n, ac_pred(1)));
    assert(st.ntot[2] == win_count(win, s, n, ac_pred(2)));
    assert(nb * region_size(0) == 9 * nb && nb * region_size(1) == 18 * nb && nb * region_size(2) == 36 * nb)
        by (nonlinear_arith);
}

} // verus!
