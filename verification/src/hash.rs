//! FNV-1a hashing of byte strings and fixed-width lowercase hex rendering,
//! used to fingerprint files and tables in listings.
use vstd::prelude::*;

verus! {

/// FNV-1a 64-bit offset basis.
pub const FNV_OFFSET: u64 = 0xcbf29ce484222325;

/// FNV-1a 64-bit prime.
pub const FNV_PRIME: u64 = 0x100000001b3;

/// One FNV-1a step: xor the byte in, then multiply by the prime modulo 2^64.
pub open spec fn fnv_step(h: u64, b: u8) -> u64 {
    (((h ^ (b as u64)) as nat * FNV_PRIME as nat) % 0x1_0000_0000_0000_0000nat) as u64
}

/// FNV-1a of `s`, starting from state `h`.
pub open spec fn fnv_fold(h: u64, s: Seq<u8>) -> u64
    decreases s.len(),
{
    if s.len() == 0 {
        h
    } else {
        fnv_step(fnv_fold(h, s.drop_last()), s.last())
    }
}

/// 64-bit FNV-1a of a byte string.
pub open spec fn fnv1a(s: Seq<u8>) -> u64 {
    fnv_fold(FNV_OFFSET, s)
}

/// Folding one more byte into the state.
pub fn fnv_update(h: u64, b: u8) -> (r: u64)
    ensures
        r == fnv_step(h, b),
{
    (h ^ b as u64).wrapping_mul(FNV_PRIME)
}

/// Lowercase hex digit of `d` (0..16).
pub open spec fn hex_char(d: int) -> char {
    if d < 10 {
        (48 + d) as char
    } else {
        (87 + d) as char
    }
}

/// The 16 lowercase hex digits of `h`, most significant first (`{:016x}`).
pub open spec fn hex16(h: u64) -> Seq<char> {
    Seq::new(16, |i: int| hex_char(((h >> ((60 - 4 * i) as u64)) & 15u64) as int))
}

/// Appends the lowercase hex digit of `d` to `out`.
fn push_hex_digit(out: &mut String, d: u64)
    requires
        d < 16,
    ensures
        final(out)@ == old(out)@.push(hex_char(d as int)),
{
    let digits = "0123456789abcdef";
    proof {
        reveal_strlit("0123456789abcdef");
    }
    let one = digits.substring_char(d as usize, d as usize + 1);
    assert(one@ =~= seq![hex_char(d as int)]);
    out.append(one);
}

/// `h` as 16 lowercase hex digits, zero-padded (`format!("{h:016x}")`).
pub fn hex_u64(h: u64) -> (r: String)
    ensures
        r@ == hex16(h),
{
    let mut out = String::new();
    let mut i: u64 = 0;
    while i < 16
        invariant
            i <= 16,
            out@ == hex16(h).subrange(0, i as int),
        decreases 16 - i,
    {
        let sh: u64 = 60 - 4 * i;
        let d = (h >> sh) & 15;
        assert(d < 16) by (bit_vector)
            requires
                d == (h >> sh) & 15,
        ;
        push_hex_digit(&mut out, d);
        assert(out@ =~= hex16(h).subrange(0, i as int + 1));
        i = i + 1;
    }
    assert(out@ =~= hex16(h));
    out
}

/// FNV-1a of a byte string, as 16 hex digits: enough to spot byte-identical
/// duplicates in a listing.
pub fn sha16(b: &[u8]) -> (r: String)
    ensures
        r@ == hex16(fnv1a(b@)),
{
    let mut h: u64 = FNV_OFFSET;
    let mut i: usize = 0;
    while i < b.len()
        invariant
            i <= b.len(),
            h == fnv_fold(FNV_OFFSET, b@.subrange(0, i as int)),
        decreases b.len() - i,
    {
        assert(b@.subrange(0, i as int + 1).drop_last() =~= b@.subrange(0, i as int));
        h = fnv_update(h, b[i]);
        i = i + 1;
    }
    assert(b@.subrange(0, b.len() as int) =~= b@);
    hex_u64(h)
}

} // verus!
