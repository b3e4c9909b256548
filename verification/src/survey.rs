//! Labels for a JPEG header survey: chroma subsampling names and quant-table
//! fingerprints.
use vstd::prelude::*;
use crate::hash::{FNV_OFFSET, fnv1a, fnv_fold, fnv_step, fnv_update, hex16, hex_u64};

verus! {

/// Decimal digit character of `d` (0..10).
pub open spec fn digit_char(d: int) -> char {
    (48 + d) as char
}

/// Decimal rendering of a byte, without leading zeros.
pub open spec fn dec_u8(n: u8) -> Seq<char> {
    if n < 10 {
        seq![digit_char(n as int)]
    } else if n < 100 {
        seq![digit_char((n / 10) as int), digit_char((n % 10) as int)]
    } else {
        seq![
            digit_char((n / 100) as int),
            digit_char(((n / 10) % 10) as int),
            digit_char((n % 10) as int),
        ]
    }
}

/// `"{h}x{v}"` for one component's sampling factors.
pub open spec fn factor_pair(p: (u8, u8)) -> Seq<char> {
    dec_u8(p.0) + seq!['x'] + dec_u8(p.1)
}

/// The components' factor pairs, comma-separated.
pub open spec fn join_pairs(s: Seq<(u8, u8)>) -> Seq<char>
    decreases s.len(),
{
    if s.len() == 0 {
        Seq::empty()
    } else if s.len() == 1 {
        factor_pair(s[0])
    } else {
        join_pairs(s.drop_last()) + seq![','] + factor_pair(s.last())
    }
}

/// Name of a frame's chroma subsampling: the usual three-component layouts
/// and grayscale by name, anything else as its factor list.
pub open spec fn subsampling_spec(s: Seq<(u8, u8)>) -> Seq<char> {
    if s =~= seq![(1u8, 1u8), (1u8, 1u8), (1u8, 1u8)] {
        seq!['4', '4', '4']
    } else if s =~= seq![(2u8, 2u8), (1u8, 1u8), (1u8, 1u8)] {
        seq!['4', '2', '0']
    } else if s =~= seq![(2u8, 1u8), (1u8, 1u8), (1u8, 1u8)] {
        seq!['4', '2', '2']
    } else if s =~= seq![(1u8, 2u8), (1u8, 1u8), (1u8, 1u8)] {
        seq!['4', '4', '0']
    } else if s =~= seq![(1u8, 1u8)] {
        seq!['g', 'r', 'a', 'y']
    } else {
        join_pairs(s)
    }
}

/// Appends the decimal digit `d` to `out`.
fn push_digit(out: &mut String, d: u8)
    requires
        d < 10,
    ensures
        final(out)@ == old(out)@.push(digit_char(d as int)),
{
    let digits = "0123456789";
    proof {
        reveal_strlit("0123456789");
    }
    let one = digits.substring_char(d as usize, d as usize + 1);
    assert(one@ =~= seq![digit_char(d as int)]);
    out.append(one);
}

/// Appends the decimal rendering of `n` to `out`.
fn push_dec(out: &mut String, n: u8)
    ensures
        final(out)@ == old(out)@ + dec_u8(n),
{
    if n >= 100 {
        push_digit(out, n / 100);
    }
    if n >= 10 {
        push_digit(out, (n / 10) % 10);
    }
    push_digit(out, n % 10);
    assert(out@ =~= old(out)@ + dec_u8(n));
}

/// Appends `"{h}x{v}"` to `out`.
fn push_pair(out: &mut String, p: (u8, u8))
    ensures
        final(out)@ == old(out)@ + factor_pair(p),
{
    push_dec(out, p.0);
    let x = "x";
    proof {
        reveal_strlit("x");
    }
    out.append(x);
    push_dec(out, p.1);
    assert(out@ =~= old(out)@ + factor_pair(p));
}

/// Whether `p` is the factor pair (`h`, `v`).
fn is_pair(p: (u8, u8), h: u8, v: u8) -> (r: bool)
    ensures
        r == (p == (h, v)),
{
    p.0 == h && p.1 == v
}

/// Name of the chroma subsampling given each component's (h, v) sampling
/// factors: "444", "420", "422", "440", "gray", or the factors themselves
/// ("2x2,1x1,1x1,1x1").
pub fn subsampling(samp: &[(u8, u8)]) -> (r: String)
    ensures
        r@ == subsampling_spec(samp@),
{
    let n = samp.len();
    if n == 3 && is_pair(samp[1], 1u8, 1u8) && is_pair(samp[2], 1u8, 1u8) {
        let first = samp[0];
        let named = if is_pair(first, 1u8, 1u8) {
            Some("444")
        } else if is_pair(first, 2u8, 2u8) {
            Some("420")
        } else if is_pair(first, 2u8, 1u8) {
            Some("422")
        } else if is_pair(first, 1u8, 2u8) {
            Some("440")
        } else {
            None
        };
        proof {
            reveal_strlit("444");
            reveal_strlit("420");
            reveal_strlit("422");
            reveal_strlit("440");
        }
        if let Some(lit) = named {
            let r = String::from_str(lit);
            assert(samp@ =~= seq![first, (1u8, 1u8), (1u8, 1u8)]);
            return r;
        }
    }
    if n == 1 && is_pair(samp[0], 1u8, 1u8) {
        proof {
            reveal_strlit("gray");
        }
        assert(samp@ =~= seq![(1u8, 1u8)]);
        return String::from_str("gray");
    }
    proof {
        if samp@.len() == 3 {
            assert(samp@ =~= seq![samp@[0], samp@[1], samp@[2]]);
        }
        if samp@.len() == 1 {
            assert(samp@ =~= seq![samp@[0]]);
        }
    }
    let mut out = String::new();
    let mut i: usize = 0;
    while i < n
        invariant
            n == samp@.len(),
            i <= n,
            out@ == join_pairs(samp@.subrange(0, i as int)),
        decreases n - i,
    {
        let ghost prefix = samp@.subrange(0, i as int + 1);
        assert(prefix.drop_last() =~= samp@.subrange(0, i as int));
        if i > 0 {
            let comma = ",";
            proof {
                reveal_strlit(",");
            }
            out.append(comma);
        } else {
            assert(samp@.subrange(0, 0) =~= Seq::<(u8, u8)>::empty());
        }
        push_pair(&mut out, samp[i]);
        assert(out@ =~= join_pairs(prefix));
        i = i + 1;
    }
    assert(samp@.subrange(0, n as int) =~= samp@);
    out
}

/// The little-endian bytes of a sequence of 16-bit values.
pub open spec fn le_bytes_u16(vals: Seq<u16>) -> Seq<u8>
    decreases vals.len(),
{
    if vals.len() == 0 {
        Seq::empty()
    } else {
        le_bytes_u16(vals.drop_last()) + seq![
            (vals.last() & 0xff) as u8,
            (vals.last() >> 8u16) as u8,
        ]
    }
}

/// Fingerprint of a quant table: FNV-1a over its entries' little-endian
/// bytes, as 16 hex digits.
pub fn fnv(vals: &[u16]) -> (r: String)
    ensures
        r@ == hex16(fnv1a(le_bytes_u16(vals@))),
{
    let mut h: u64 = FNV_OFFSET;
    let mut i: usize = 0;
    while i < vals.len()
        invariant
            i <= vals.len(),
            h == fnv_fold(FNV_OFFSET, le_bytes_u16(vals@.subrange(0, i as int))),
        decreases vals.len() - i,
    {
        let v = vals[i];
        let lo = (v & 0xff) as u8;
        let hi = (v >> 8) as u8;
        let ghost before = le_bytes_u16(vals@.subrange(0, i as int));
        assert(vals@.subrange(0, i as int + 1).drop_last() =~= vals@.subrange(0, i as int));
        let ghost after = le_bytes_u16(vals@.subrange(0, i as int + 1));
        assert(after =~= before.push(lo).push(hi));
        assert(after.drop_last() =~= before.push(lo));
        assert(before.push(lo).drop_last() =~= before);
        assert(fnv_fold(FNV_OFFSET, before.push(lo)) == fnv_step(fnv_fold(FNV_OFFSET, before), lo));
        assert(fnv_fold(FNV_OFFSET, after) == fnv_step(fnv_fold(FNV_OFFSET, before.push(lo)), hi));
        h = fnv_update(h, lo);
        h = fnv_update(h, hi);
        i = i + 1;
    }
    assert(vals@.subrange(0, vals.len() as int) =~= vals@);
    hex_u64(h)
}

} // verus!
