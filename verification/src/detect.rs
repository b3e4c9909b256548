//! Integer pieces of the generation-detector: a well-mixed key hash for
//! reproducible per-file picks, and the empty-bin count of a coefficient
//! magnitude histogram.
use vstd::prelude::*;
use crate::hash::{FNV_OFFSET, fnv1a, fnv_fold, fnv_update};
use vstd::string::StringSliceAdditionalSpecFns;

verus! {

/// `x * y` modulo 2^64.
pub open spec fn mul64(x: u64, y: u64) -> u64 {
    ((x as nat * y as nat) % 0x1_0000_0000_0000_0000nat) as u64
}

/// The murmur3 64-bit finalizer.
pub open spec fn fmix64(h0: u64) -> u64 {
    let h1 = h0 ^ (h0 >> 33u64);
    let h2 = mul64(h1, 0xff51afd7ed558ccd);
    let h3 = h2 ^ (h2 >> 33u64);
    let h4 = mul64(h3, 0xc4ceb9fe1a85ec53);
    h4 ^ (h4 >> 33u64)
}

/// Hash of a key string: FNV-1a over its UTF-8 bytes, then the murmur3
/// finalizer, so that keys differing only in their last byte still land on
/// unrelated values.
pub fn fnv(s: &str) -> (r: u64)
    ensures
        r == fmix64(fnv1a(s.spec_bytes())),
{
    let b = s.as_bytes();
    let mut h: u64 = FNV_OFFSET;
    let mut i: usize = 0;
    while i < b.len()
        invariant
            b@ == s.spec_bytes(),
            i <= b.len(),
            h == fnv_fold(FNV_OFFSET, b@.subrange(0, i as int)),
        decreases b.len() - i,
    {
        assert(b@.subrange(0, i as int + 1).drop_last() =~= b@.subrange(0, i as int));
        h = fnv_update(h, b[i]);
        i = i + 1;
    }
    assert(b@.subrange(0, b.len() as int) =~= b@);
    h ^= h >> 33;
    h = h.wrapping_mul(0xff51afd7ed558ccd);
    h ^= h >> 33;
    h = h.wrapping_mul(0xc4ceb9fe1a85ec53);
    h ^ (h >> 33)
}

/// Sum of the bins `h[lo..hi]`.
pub open spec fn bins_sum(h: Seq<u32>, lo: int, hi: int) -> int
    decreases hi - lo,
{
    if hi <= lo {
        0
    } else {
        bins_sum(h, lo, hi - 1) + h[hi - 1]
    }
}

/// Bin `c` is empty while real mass (at least 8) lies beyond it.
pub open spec fn is_gap(h: Seq<u32>, c: int) -> bool {
    h[c] == 0 && bins_sum(h, c + 1, h.len() as int) >= 8
}

/// Number of gap bins among `1..=top`.
pub open spec fn gaps_upto(h: Seq<u32>, top: int) -> int
    decreases top,
{
    if top < 1 {
        0
    } else {
        gaps_upto(h, top - 1) + if is_gap(h, top) { 1int } else { 0int }
    }
}

/// Count of empty bins among positions 1..=12 with real mass beyond them,
/// impossible under a single quantization.
pub open spec fn zero_gaps_spec(h: Seq<u32>) -> int {
    let b = h.len() - 1;
    gaps_upto(h, if b < 12 { b } else { 12 })
}

/// Partial sums of non-negative bins grow with the range.
proof fn lemma_bins_sum_mono(h: Seq<u32>, lo: int, hi: int, hi2: int)
    requires
        lo <= hi <= hi2,
    ensures
        0 <= bins_sum(h, lo, hi) <= bins_sum(h, lo, hi2),
    decreases hi2 - lo,
{
    if hi2 > hi {
        lemma_bins_sum_mono(h, lo, hi, hi2 - 1);
    } else if hi > lo {
        lemma_bins_sum_mono(h, lo, hi - 1, hi - 1);
    }
}

/// Empty-bin count of a magnitude histogram (`h[a]` counts coefficients of
/// magnitude `a`): bins 1..=12 that are empty although at least 8 counts
/// lie beyond them.
pub fn zero_gaps(h: &[u32]) -> (r: u32)
    requires
        h.len() >= 1,
        bins_sum(h@, 0, h@.len() as int) <= u64::MAX,
    ensures
        r == zero_gaps_spec(h@),
{
    let b = h.len() - 1;
    let top = if b < 12 { b } else { 12 };
    let mut gaps: u32 = 0;
    let mut c: usize = 1;
    while c <= top
        invariant
            b == h.len() - 1,
            top <= 12,
            top <= b,
            1 <= c <= top + 1,
            gaps <= c,
            gaps == gaps_upto(h@, c - 1),
            bins_sum(h@, 0, h@.len() as int) <= u64::MAX,
        decreases top + 1 - c,
    {
        let mut beyond: u64 = 0;
        let mut cc: usize = c + 1;
        while cc <= b
            invariant
                b == h.len() - 1,
                c + 1 <= cc <= b + 1,
                beyond == bins_sum(h@, c + 1, cc as int),
                bins_sum(h@, 0, h@.len() as int) <= u64::MAX,
            decreases b + 1 - cc,
        {
            proof {
                lemma_bins_sum_split(h@, 0, c + 1, cc as int + 1);
                lemma_bins_sum_mono(h@, 0, c + 1, c + 1);
                lemma_bins_sum_mono(h@, 0, cc as int + 1, h@.len() as int);
            }
            beyond = beyond + h[cc] as u64;
            cc = cc + 1;
        }
        if h[c] == 0 && beyond >= 8 {
            gaps = gaps + 1;
        }
        c = c + 1;
    }
    gaps
}

/// A partial sum splits at any midpoint.
proof fn lemma_bins_sum_split(h: Seq<u32>, lo: int, mid: int, hi: int)
    requires
        lo <= mid <= hi,
    ensures
        bins_sum(h, lo, hi) == bins_sum(h, lo, mid) + bins_sum(h, mid, hi),
    decreases hi - mid,
{
    if hi > mid {
        lemma_bins_sum_split(h, lo, mid, hi - 1);
    }
}

} // verus!
