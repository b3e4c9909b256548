//! Adopted-model descriptors: colorspace, architecture, receptive-field halo,
//! and the flat weight-file layout each architecture is read from.
use vstd::prelude::*;

verus! {

/// Colorspace the model was trained in. Graph-identical either way; the
/// caller must feed planes in the matching space.
#[derive(Clone, Copy, PartialEq, Eq, Debug, Structural)]
#[non_exhaustive]
pub enum ModelSpace {
    Rgb,
    /// JFIF full-range YCbCr, [0,1] planes, Cb/Cr offset +0.5.
    Ycbcr,
}

impl Default for ModelSpace {
    fn default() -> (s: Self)
        ensures
            s == ModelSpace::Rgb,
    {
        ModelSpace::Rgb
    }
}

/// Network architecture of an adopted model.
pub enum Arch {
    /// [conv3x3+PReLU] x (nc+1) -> conv3x3(3*s^2) -> shuffle -> +nearest(x)
    Compact { nf: usize, nc: usize },
    /// conv_1 + 6 gated SPAB blocks + conv_2 + 4-way cat + conv1x1 + upsampler
    Span48,
}

/// Feature channels of the SPAN-48 graph.
pub const SPAN_FC: usize = 48;

/// Receptive-field radius in input pixels: the number of chained 3x3 convs.
pub open spec fn halo_spec(arch: Arch) -> int {
    match arch {
        Arch::Compact { nc, .. } => nc + 2,
        Arch::Span48 => 21,
    }
}

impl Arch {
    /// Receptive-field radius in input pixels (number of chained 3x3 convs).
    pub fn halo(&self) -> (r: usize)
        requires
            halo_spec(*self) <= usize::MAX,
        ensures
            r == halo_spec(*self),
    {
        match self {
            Arch::Compact { nc, .. } => *nc + 2,
            Arch::Span48 => 21,
        }
    }
}

/// Float count of a compact model's weight file: first conv (weights, bias,
/// PReLU slopes), `nc` middle convs likewise, and the final conv to `3*s^2`
/// channels (weights, bias).
pub open spec fn compact_floats(nf: int, nc: int, s: int) -> int {
    (3 * nf * 9 + nf + nf) + nc * (nf * nf * 9 + nf + nf) + (nf * (3 * (s * s)) * 9 + 3 * (s * s))
}

/// Float count of a SPAN-48 weight file.
pub open spec fn span48_floats(s: int) -> int {
    let fc = SPAN_FC as int;
    (3 * fc * 9 + fc) + 18 * (fc * fc * 9 + fc) + (fc * fc * 9 + fc) + (4 * fc * fc + fc) + (fc * (3
        * (s * s)) * 9 + 3 * (s * s))
}

/// Float count of the weight file for `arch` at upscale factor `s`.
pub open spec fn arch_floats(arch: Arch, s: int) -> int {
    match arch {
        Arch::Compact { nf, nc } => compact_floats(nf as int, nc as int, s),
        Arch::Span48 => span48_floats(s),
    }
}

/// `x` saturated at `u128::MAX`.
pub open spec fn sat(x: int) -> int {
    if x > u128::MAX { u128::MAX as int } else { x }
}

/// Saturation commutes with products of non-negative numbers.
proof fn lemma_sat_mul(x: int, y: int)
    requires
        x >= 0,
        y >= 0,
    ensures
        sat(sat(x) * sat(y)) == sat(x * y),
{
    let m = u128::MAX as int;
    if x > m && y > 0 {
        assert(sat(x) * sat(y) >= m) by (nonlinear_arith)
            requires
                sat(x) == m,
                sat(y) >= 1,
                m > 0,
        ;
        assert(x * y >= x) by (nonlinear_arith)
            requires
                x >= 0,
                y >= 1,
        ;
    } else if y > m && x > 0 {
        assert(sat(x) * sat(y) >= m) by (nonlinear_arith)
            requires
                sat(y) == m,
                sat(x) >= 1,
                m > 0,
        ;
        assert(x * y >= y) by (nonlinear_arith)
            requires
                y >= 0,
                x >= 1,
        ;
    } else if x == 0 || y == 0 {
        assert(x * y == 0) by (nonlinear_arith)
            requires
                x == 0 || y == 0,
        ;
        assert(sat(x) * sat(y) == 0) by (nonlinear_arith)
            requires
                sat(x) == 0 || sat(y) == 0,
        ;
    } else {
        assert(sat(x) == x && sat(y) == y);
    }
}

/// `x * y`, saturated at `u128::MAX`.
fn sat_mul(x: u128, y: u128) -> (r: u128)
    ensures
        r == sat(x * y),
{
    match x.checked_mul(y) {
        Some(p) => p,
        None => u128::MAX,
    }
}

/// `x + y`, saturated at `u128::MAX`.
fn sat_add(x: u128, y: u128) -> (r: u128)
    ensures
        r == sat(x + y),
{
    match x.checked_add(y) {
        Some(p) => p,
        None => u128::MAX,
    }
}

/// Saturated product of exact values given by their saturations.
fn mul_exact(x: u128, y: u128, Ghost(ex): Ghost<int>, Ghost(ey): Ghost<int>) -> (r: u128)
    requires
        ex >= 0,
        ey >= 0,
        x == sat(ex),
        y == sat(ey),
    ensures
        r == sat(ex * ey),
{
    proof {
        lemma_sat_mul(ex, ey);
    }
    sat_mul(x, y)
}

/// Saturated sum of exact values given by their saturations.
fn add_exact(x: u128, y: u128, Ghost(ex): Ghost<int>, Ghost(ey): Ghost<int>) -> (r: u128)
    requires
        ex >= 0,
        ey >= 0,
        x == sat(ex),
        y == sat(ey),
    ensures
        r == sat(ex + ey),
{
    sat_add(x, y)
}

/// Exact value from its saturation, when it fits a `usize`.
fn fit_usize(x: u128, Ghost(ex): Ghost<int>) -> (r: Option<usize>)
    requires
        ex >= 0,
        x == sat(ex),
    ensures
        r is Some <==> ex <= usize::MAX,
        r matches Some(n) ==> n == ex,
{
    if x <= usize::MAX as u128 {
        Some(x as usize)
    } else {
        None
    }
}

/// Float count of a compact weight file, or `None` when it does not fit a
/// `usize`.
pub fn compact_weight_floats(nf: usize, nc: usize, scale: usize) -> (r: Option<usize>)
    ensures
        r is Some <==> compact_floats(nf as int, nc as int, scale as int) <= usize::MAX,
        r matches Some(n) ==> n == compact_floats(nf as int, nc as int, scale as int),
{
    let (f, c, s) = (nf as u128, nc as u128, scale as u128);
    let (ef, ec, es) = (Ghost(nf as int), Ghost(nc as int), Ghost(scale as int));
    let s2 = mul_exact(s, s, es, es);
    let es2 = Ghost(es@ * es@);
    // first conv: weights, bias, slopes
    let f27 = mul_exact(27, f, Ghost(27int), ef);
    let first = add_exact(f27, add_exact(f, f, ef, ef), Ghost(27 * ef@), Ghost(ef@ + ef@));
    let efirst = Ghost(27 * ef@ + (ef@ + ef@));
    // middle convs
    let ff = mul_exact(f, f, ef, ef);
    let ff9 = mul_exact(ff, 9, Ghost(ef@ * ef@), Ghost(9int));
    let layer = add_exact(ff9, add_exact(f, f, ef, ef), Ghost(ef@ * ef@ * 9), Ghost(ef@ + ef@));
    let elayer = Ghost(ef@ * ef@ * 9 + (ef@ + ef@));
    proof {
        assert(ef@ * ef@ >= 0) by (nonlinear_arith);
        assert(ef@ * ef@ * 9 >= 0) by (nonlinear_arith);
        assert(elayer@ >= 0);
    }
    let mid = mul_exact(c, layer, ec, elayer);
    // final conv: weights to 3*s^2 channels, bias
    let s3 = mul_exact(3, s2, Ghost(3int), es2);
    proof {
        assert(es2@ >= 0) by (nonlinear_arith)
            requires
                es2@ == es@ * es@,
        ;
    }
    let es3 = Ghost(3 * es2@);
    let fs3 = mul_exact(f, s3, ef, es3);
    proof {
        assert(ef@ * es3@ >= 0) by (nonlinear_arith)
            requires
                ef@ >= 0,
                es3@ >= 0,
        ;
    }
    let fs39 = mul_exact(fs3, 9, Ghost(ef@ * es3@), Ghost(9int));
    proof {
        assert(ef@ * es3@ * 9 >= 0) by (nonlinear_arith)
            requires
                ef@ * es3@ >= 0,
        ;
        assert(ec@ * elayer@ >= 0) by (nonlinear_arith)
            requires
                ec@ >= 0,
                elayer@ >= 0,
        ;
    }
    let last = add_exact(fs39, s3, Ghost(ef@ * es3@ * 9), es3);
    let elast = Ghost(ef@ * es3@ * 9 + es3@);
    let fm = add_exact(first, mid, efirst, Ghost(ec@ * elayer@));
    let total = add_exact(fm, last, Ghost(efirst@ + ec@ * elayer@), elast);
    proof {
        assert(27 * ef@ == 3 * ef@ * 9);
        assert(ef@ * es3@ * 9 == ef@ * (3 * (es@ * es@)) * 9);
        assert(efirst@ + ec@ * elayer@ + elast@ == compact_floats(ef@, ec@, es@));
    }
    fit_usize(total, Ghost(compact_floats(ef@, ec@, es@)))
}

/// Float count of a SPAN-48 weight file, or `None` when it does not fit a
/// `usize`.
pub fn span48_weight_floats(scale: usize) -> (r: Option<usize>)
    ensures
        r is Some <==> span48_floats(scale as int) <= usize::MAX,
        r matches Some(n) ==> n == span48_floats(scale as int),
{
    let s = scale as u128;
    let es = Ghost(scale as int);
    let s2 = mul_exact(s, s, es, es);
    let es2 = Ghost(es@ * es@);
    proof {
        assert(es2@ >= 0) by (nonlinear_arith)
            requires
                es2@ == es@ * es@,
        ;
    }
    let s3 = mul_exact(3, s2, Ghost(3int), es2);
    let es3 = Ghost(3 * es2@);
    let w = mul_exact(48 * 9, s3, Ghost(432int), es3);
    let last = add_exact(w, s3, Ghost(48 * 9 * es3@), es3);
    let fixed: u128 = (3 * 48 * 9 + 48) + 18 * (48 * 48 * 9 + 48) + (48 * 48 * 9 + 48) + (4 * 48 * 48
        + 48);
    proof {
        assert(48 * 9 * es3@ >= 0) by (nonlinear_arith)
            requires
                es3@ >= 0,
        ;
        assert(48 * 9 * es3@ == 48 * (3 * (es@ * es@)) * 9) by (nonlinear_arith)
            requires
                es3@ == 3 * (es@ * es@),
        ;
    }
    let total = add_exact(fixed, last, Ghost(fixed as int), Ghost(48 * 9 * es3@ + es3@));
    fit_usize(total, Ghost(span48_floats(es@)))
}

/// Why a weight buffer does not fit an architecture.
#[derive(Clone, Copy, PartialEq, Eq, Debug, Structural)]
pub enum WeightCountError {
    /// The expected count does not fit a `usize`.
    Overflow,
    /// The buffer holds `got` floats where `expected` were needed.
    Mismatch { expected: usize, got: usize },
}

/// Checks that a buffer of `len` floats is exactly the weight file of `arch`
/// at upscale factor `scale`; returns the expected count.
pub fn check_weight_count(arch: &Arch, scale: usize, len: usize) -> (r: Result<
    usize,
    WeightCountError,
>)
    ensures
        r matches Ok(n) ==> n == len && len == arch_floats(*arch, scale as int),
        r is Ok <==> len == arch_floats(*arch, scale as int),
        r == Err::<usize, WeightCountError>(WeightCountError::Overflow) <==> arch_floats(
            *arch,
            scale as int,
        ) > usize::MAX,
        r matches Err(WeightCountError::Mismatch { expected, got }) ==> got == len && expected
            == arch_floats(*arch, scale as int) && expected != len,
{
    let expected = match arch {
        Arch::Compact { nf, nc } => compact_weight_floats(*nf, *nc, scale),
        Arch::Span48 => span48_weight_floats(scale),
    };
    match expected {
        None => Err(WeightCountError::Overflow),
        Some(n) => {
            if n == len {
                Ok(n)
            } else {
                Err(WeightCountError::Mismatch { expected: n, got: len })
            }
        },
    }
}

/// Sum of a sequence of integers.
pub open spec fn seq_sum(s: Seq<int>) -> int
    decreases s.len(),
{
    if s.len() == 0 {
        0
    } else {
        seq_sum(s.drop_last()) + s.last()
    }
}

/// `block` repeated `n` times.
pub open spec fn repeat(block: Seq<int>, n: nat) -> Seq<int>
    decreases n,
{
    if n == 0 {
        Seq::empty()
    } else {
        repeat(block, (n - 1) as nat) + block
    }
}

/// The sum of a concatenation is the sum of the parts.
pub proof fn lemma_seq_sum_concat(a: Seq<int>, b: Seq<int>)
    ensures
        seq_sum(a + b) == seq_sum(a) + seq_sum(b),
    decreases b.len(),
{
    if b.len() == 0 {
        assert(a + b =~= a);
    } else {
        assert((a + b).drop_last() =~= a + b.drop_last());
        lemma_seq_sum_concat(a, b.drop_last());
    }
}

/// The sum of `n` copies of a block is `n` times the block's sum.
pub proof fn lemma_seq_sum_repeat(block: Seq<int>, n: nat)
    ensures
        seq_sum(repeat(block, n)) == n * seq_sum(block),
    decreases n,
{
    if n > 0 {
        lemma_seq_sum_repeat(block, (n - 1) as nat);
        lemma_seq_sum_concat(repeat(block, (n - 1) as nat), block);
        let x = seq_sum(block);
        let m = (n - 1) as nat;
        assert(repeat(block, n) == repeat(block, m) + block);
        assert(seq_sum(repeat(block, n)) == m * x + x);
        assert(m * x + x == (m + 1) * x) by (nonlinear_arith);
        assert(m + 1 == n);
    } else {
        assert(n * seq_sum(block) == 0) by (nonlinear_arith)
            requires
                n == 0,
        ;
    }
}

/// The order in which a weight file's floats are consumed, as segment
/// lengths: for a compact model the first conv (weights, bias, slopes), `nc`
/// middle convs likewise, and the final conv (weights, bias); for SPAN-48
/// conv_1, the 18 block convs, conv_2, the concat 1x1 and the upsampler,
/// each as (weights, bias).
pub open spec fn arch_layout(arch: Arch, s: int) -> Seq<int> {
    let s3 = 3 * (s * s);
    match arch {
        Arch::Compact { nf, nc } => {
            let f = nf as int;
            seq![3 * f * 9, f, f] + repeat(seq![f * f * 9, f, f], nc as nat) + seq![f * s3 * 9, s3]
        },
        Arch::Span48 => {
            let fc = SPAN_FC as int;
            seq![3 * fc * 9, fc] + repeat(seq![fc * fc * 9, fc], 18) + seq![
                fc * fc * 9,
                fc,
                4 * fc * fc,
                fc,
                fc * s3 * 9,
                s3,
            ]
        },
    }
}

/// The layout consumes the weight file exactly: its segments add up to the
/// file's float count.
pub proof fn lemma_layout_covers_file(arch: Arch, s: int)
    ensures
        seq_sum(arch_layout(arch, s)) == arch_floats(arch, s),
{
    let s3 = 3 * (s * s);
    match arch {
        Arch::Compact { nf, nc } => {
            let f = nf as int;
            let a = seq![3 * f * 9, f, f];
            let b = seq![f * f * 9, f, f];
            let c = seq![f * s3 * 9, s3];
            lemma_seq_sum_repeat(b, nc as nat);
            lemma_seq_sum_concat(a, repeat(b, nc as nat));
            lemma_seq_sum_concat(a + repeat(b, nc as nat), c);
            reveal_with_fuel(seq_sum, 4);
            assert(a.drop_last().drop_last().drop_last() =~= Seq::<int>::empty());
            assert(b.drop_last().drop_last().drop_last() =~= Seq::<int>::empty());
            assert(c.drop_last().drop_last() =~= Seq::<int>::empty());
            assert(seq_sum(b) == f * f * 9 + f + f);
        },
        Arch::Span48 => {
            let fc = SPAN_FC as int;
            let a = seq![3 * fc * 9, fc];
            let b = seq![fc * fc * 9, fc];
            let c = seq![fc * fc * 9, fc, 4 * fc * fc, fc, fc * s3 * 9, s3];
            lemma_seq_sum_repeat(b, 18);
            lemma_seq_sum_concat(a, repeat(b, 18));
            lemma_seq_sum_concat(a + repeat(b, 18), c);
            reveal_with_fuel(seq_sum, 7);
            assert(a.drop_last().drop_last() =~= Seq::<int>::empty());
            assert(b.drop_last().drop_last() =~= Seq::<int>::empty());
            assert(c.drop_last().drop_last().drop_last().drop_last().drop_last().drop_last()
                =~= Seq::<int>::empty());
        },
    }
}

/// The segment lengths, in the order the loader cuts the weight buffer.
pub fn weight_segments(arch: &Arch, scale: usize) -> (r: Vec<usize>)
    requires
        arch_floats(*arch, scale as int) <= usize::MAX,
    ensures
        r@.map_values(|x: usize| x as int) == arch_layout(*arch, scale as int),
{
    let ghost es = scale as int;
    proof {
        assert(es * es >= 0) by (nonlinear_arith);
    }
    let mut v: Vec<usize> = Vec::new();
    match arch {
        Arch::Compact { nf, nc } => {
            let (f, c) = (*nf, *nc);
            let ghost total = compact_floats(f as int, c as int, es);
            let ghost lay = f as int * f as int * 9 + f as int + f as int;
            proof {
                assert(f as int * f as int * 9 >= 0) by (nonlinear_arith);
                assert(c as int * lay >= 0) by (nonlinear_arith)
                    requires
                        lay >= 0,
                ;
                assert(f as int * (3 * (es * es)) * 9 >= 0) by (nonlinear_arith)
                    requires
                        es * es >= 0,
                ;
            }
            let f27 = 27 * f;
            v.push(f27);
            v.push(f);
            v.push(f);
            let ghost head = seq![3 * (f as int) * 9, f as int, f as int];
            assert(v@.map_values(|x: usize| x as int) =~= head);
            let mut k: usize = 0;
            while k < c
                invariant
                    k <= c,
                    total <= usize::MAX,
                    total == compact_floats(f as int, c as int, es),
                    es == scale as int,
                    lay == f as int * f as int * 9 + f as int + f as int,
                    head == seq![3 * (f as int) * 9, f as int, f as int],
                    v@.map_values(|x: usize| x as int) == head + repeat(
                        seq![f as int * f as int * 9, f as int, f as int],
                        k as nat,
                    ),
                decreases c - k,
            {
                proof {
                    assert(c as int * lay >= lay) by (nonlinear_arith)
                        requires
                            c >= 1,
                            lay >= 0,
                    ;
                    assert(es * es >= 0) by (nonlinear_arith);
                    assert(f as int * (3 * (es * es)) * 9 + 3 * (es * es) >= 0) by (nonlinear_arith)
                        requires
                            es * es >= 0,
                    ;
                }
                let ff9 = f * f * 9;
                let ghost before = v@.map_values(|x: usize| x as int);
                v.push(ff9);
                v.push(f);
                v.push(f);
                proof {
                    let blk = seq![f as int * f as int * 9, f as int, f as int];
                    assert(repeat(blk, (k + 1) as nat) == repeat(blk, k as nat) + blk);
                    assert(v@.map_values(|x: usize| x as int) =~= before + blk);
                    assert(head + repeat(blk, (k + 1) as nat) =~= (head + repeat(blk, k as nat))
                        + blk);
                }
                k = k + 1;
            }
            let s3 = 3 * (scale * scale);
            let w = f * s3 * 9;
            let ghost before = v@.map_values(|x: usize| x as int);
            v.push(w);
            v.push(s3);
            proof {
                let blk = seq![f as int * f as int * 9, f as int, f as int];
                let tail = seq![f as int * (3 * (es * es)) * 9, 3 * (es * es)];
                assert(v@.map_values(|x: usize| x as int) =~= before + tail);
                assert(head + repeat(blk, c as nat) + tail == arch_layout(*arch, es));
            }
        },
        Arch::Span48 => {
            let ghost total = span48_floats(es);
            v.push(3 * 48 * 9);
            v.push(48);
            let ghost head = seq![3 * 48 * 9int, 48int];
            let ghost blk = seq![48 * 48 * 9int, 48int];
            assert(v@.map_values(|x: usize| x as int) =~= head);
            let mut k: usize = 0;
            while k < 18
                invariant
                    k <= 18,
                    head == seq![3 * 48 * 9int, 48int],
                    blk == seq![48 * 48 * 9int, 48int],
                    v@.map_values(|x: usize| x as int) == head + repeat(blk, k as nat),
                decreases 18 - k,
            {
                let ghost before = v@.map_values(|x: usize| x as int);
                v.push(48 * 48 * 9);
                v.push(48);
                proof {
                    assert(repeat(blk, (k + 1) as nat) == repeat(blk, k as nat) + blk);
                    assert(v@.map_values(|x: usize| x as int) =~= before + blk);
                    assert(head + repeat(blk, (k + 1) as nat) =~= (head + repeat(blk, k as nat))
                        + blk);
                }
                k = k + 1;
            }
            proof {
                assert(es * es >= 0) by (nonlinear_arith);
                assert(48 * (3 * (es * es)) * 9 + 3 * (es * es) >= 0) by (nonlinear_arith)
                    requires
                        es * es >= 0,
                ;
            }
            let s3 = 3 * (scale * scale);
            let w = 48 * s3 * 9;
            let ghost before = v@.map_values(|x: usize| x as int);
            v.push(48 * 48 * 9);
            v.push(48);
            v.push(4 * 48 * 48);
            v.push(48);
            v.push(w);
            v.push(s3);
            proof {
                let tail = seq![
                    48 * 48 * 9int,
                    48int,
                    4 * 48 * 48int,
                    48int,
                    48 * (3 * (es * es)) * 9,
                    3 * (es * es),
                ];
                assert(v@.map_values(|x: usize| x as int) =~= before + tail);
                assert(head + repeat(blk, 18) + tail == arch_layout(*arch, es));
            }
        },
    }
    v
}

} // verus!
