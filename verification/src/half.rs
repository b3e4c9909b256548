//! IEEE 754 half precision to single precision, at the bit level: the f32
//! bit pattern that holds exactly the value of an f16 bit pattern.
use vstd::prelude::*;
use vstd::arithmetic::power2::{
    lemma2_to64, lemma_pow2_adds, lemma_pow2_pos, lemma_pow2_strictly_increases, lemma_pow2_unfold,
    pow2,
};
use vstd::bits::{lemma_u32_shl_is_mul, lemma_u32_shr_is_div};

verus! {

/// Sign bit of an f16.
pub open spec fn h_sign(b: u16) -> u32 {
    (b >> 15u16) as u32
}

/// Biased exponent field of an f16.
pub open spec fn h_exp(b: u16) -> u32 {
    ((b >> 10u16) & 0x1fu16) as u32
}

/// Mantissa field of an f16.
pub open spec fn h_man(b: u16) -> u32 {
    (b & 0x3ffu16) as u32
}

/// Sign bit of an f32.
pub open spec fn f_sign(r: u32) -> u32 {
    r >> 31u32
}

/// Biased exponent field of an f32.
pub open spec fn f_exp(r: u32) -> u32 {
    (r >> 23u32) & 0xffu32
}

/// Mantissa field of an f32.
pub open spec fn f_man(r: u32) -> u32 {
    r & 0x7f_ffffu32
}

/// `2^150` times the magnitude of a finite f16 with exponent field `e` and
/// mantissa `m`: subnormals are `m * 2^-24`, normals `(1024 + m) * 2^(e-25)`.
pub open spec fn half_scaled(e: u32, m: u32) -> int {
    if e == 0 {
        m * pow2(126)
    } else {
        (1024 + m) * pow2((e - 1) as nat) * pow2(126)
    }
}

/// `2^150` times the magnitude of a normal f32 with exponent field `e` and
/// mantissa `m`, `(2^23 + m) * 2^(e-150)`.
pub open spec fn single_scaled(e: u32, m: u32) -> int {
    (0x80_0000 + m) * pow2(e as nat)
}

/// `r` is the f32 holding exactly the value of the f16 `b`: same sign;
/// zero to zero, infinity to infinity, NaN to the quiet NaN; every other
/// value (subnormals included) to the normal f32 of the same magnitude.
pub open spec fn is_f32_of_half(b: u16, r: u32) -> bool {
    let (e, m) = (h_exp(b), h_man(b));
    &&& f_sign(r) == h_sign(b)
    &&& if e == 0 && m == 0 {
        f_exp(r) == 0 && f_man(r) == 0
    } else if e == 31 {
        f_exp(r) == 255 && f_man(r) == if m == 0 { 0u32 } else { 0x40_0000u32 }
    } else {
        1 <= f_exp(r) <= 254 && single_scaled(f_exp(r), f_man(r)) == half_scaled(e, m)
    }
}

/// Reading back the fields of a packed f32.
proof fn lemma_pack(s: u32, e: u32, m: u32)
    requires
        s <= 1,
        e < 256,
        m < 0x80_0000,
    ensures
        f_sign((s << 31u32) | (e << 23u32) | m) == s,
        f_exp((s << 31u32) | (e << 23u32) | m) == e,
        f_man((s << 31u32) | (e << 23u32) | m) == m,
{
    assert(((s << 31u32) | (e << 23u32) | m) >> 31u32 == s) by (bit_vector)
        requires
            s <= 1,
            e < 256,
            m < 0x80_0000,
    ;
    assert((((s << 31u32) | (e << 23u32) | m) >> 23u32) & 0xffu32 == e) by (bit_vector)
        requires
            s <= 1,
            e < 256,
            m < 0x80_0000,
    ;
    assert(((s << 31u32) | (e << 23u32) | m) & 0x7f_ffffu32 == m) by (bit_vector)
        requires
            s <= 1,
            e < 256,
            m < 0x80_0000,
    ;
}

/// The f32 bit pattern of the value of the f16 bit pattern `bits`
/// (subnormals normalized, infinities kept, NaN made quiet).
pub fn f16_to_f32_bits(bits: u16) -> (r: u32)
    ensures
        is_f32_of_half(bits, r),
{
    let sign: u32 = (bits >> 15) as u32;
    let exp: u32 = ((bits >> 10) & 0x1f) as u32;
    let man: u32 = (bits & 0x3ff) as u32;
    assert(sign <= 1 && exp < 32 && man < 1024) by (bit_vector)
        requires
            sign == (bits >> 15u16) as u32,
            exp == ((bits >> 10u16) & 0x1fu16) as u32,
            man == (bits & 0x3ffu16) as u32,
    ;
    if exp == 0 && man == 0 {
        proof {
            lemma_pack(sign, 0, 0);
            assert((sign << 31u32) | (0u32 << 23u32) | 0u32 == sign << 31u32) by (bit_vector);
        }
        return sign << 31;
    }
    if exp == 0x1f {
        let m: u32 = if man == 0 { 0 } else { 0x40_0000 };
        proof {
            lemma_pack(sign, 255, m);
        }
        return (sign << 31) | (255u32 << 23) | m;
    }
    if exp == 0 {
        // subnormal: value man * 2^-24; normalize on its highest set bit p
        let mut p: u32 = 9;
        proof {
            lemma2_to64();
        }
        while (man >> p) == 0
            invariant
                1 <= man < 1024,
                p <= 9,
                man < pow2((p + 1) as nat),
            decreases p,
        {
            proof {
                lemma_u32_shr_is_div(man, p);
                lemma_pow2_pos(p as nat);
                assert(man < pow2(p as nat)) by (nonlinear_arith)
                    requires
                        man as nat / pow2(p as nat) == 0,
                        pow2(p as nat) > 0,
                ;
                if p == 0 {
                    lemma2_to64();
                }
            }
            p = p - 1;
            assert(man < pow2((p + 1) as nat));
        }
        proof {
            lemma_u32_shr_is_div(man, p);
            lemma_pow2_pos(p as nat);
            assert(man >= pow2(p as nat)) by (nonlinear_arith)
                requires
                    man as nat / pow2(p as nat) != 0,
                    pow2(p as nat) > 0,
            ;
            lemma_pow2_adds(p as nat, 1);
            lemma_pow2_adds(p as nat, (23 - p) as nat);
            lemma_pow2_adds((23 - p) as nat, (p + 103) as nat);
            lemma_pow2_pos((23 - p) as nat);
            lemma_pow2_pos((p + 103) as nat);
            lemma_u32_shl_is_mul(1, p);
        }
        let top = 1u32 << p;
        let ghost a = pow2(p as nat);
        let ghost bb = pow2((23 - p) as nat);
        let ghost cc = pow2((p + 103) as nat);
        proof {
            assert(a * bb == 0x80_0000);
            assert((man - a) * bb < 0x80_0000) by (nonlinear_arith)
                requires
                    man < a * 2,
                    man >= a,
                    a * bb == 0x80_0000,
                    bb > 0,
            ;
            assert((man - a) * bb >= 0) by (nonlinear_arith)
                requires
                    man >= a,
                    bb > 0,
            ;
        }
        let low = man - top;
        let sh = 23 - p;
        proof {
            lemma_u32_shl_is_mul(low, sh);
        }
        let mm = low << sh;
        let e = p + 103;
        proof {
            lemma_pack(sign, e, mm);
            assert((0x80_0000 + mm) * cc == man * pow2(126)) by (nonlinear_arith)
                requires
                    mm == (man - a) * bb,
                    a * bb == 0x80_0000,
                    bb * cc == pow2(126),
            ;
        }
        return (sign << 31) | (e << 23) | mm;
    }
    // normal: same value with the exponent rebased from 15 to 127
    let e = exp + 112;
    let mm = man << 13;
    proof {
        lemma2_to64();
        lemma_u32_shl_is_mul(man, 13);
        lemma_pow2_adds((exp - 1) as nat, 113);
        lemma_pow2_adds(13, 113);
        lemma_pack(sign, e, mm);
        let q = pow2((exp - 1) as nat);
        assert((0x80_0000 + mm) * pow2(e as nat) == (1024 + man) * q * pow2(126))
            by (nonlinear_arith)
            requires
                mm == man * 8192,
                pow2(e as nat) == q * pow2(113),
                8192 * pow2(113) == pow2(126),
        ;
    }
    (sign << 31) | (e << 23) | mm
}

/// `2^150`-scaled magnitudes of normal f32s grow with (exponent, mantissa)
/// in lexicographic order.
proof fn lemma_single_scaled_lex(e1: u32, m1: u32, e2: u32, m2: u32)
    requires
        m1 < 0x80_0000,
        m2 < 0x80_0000,
        e1 > e2 || (e1 == e2 && m1 > m2),
    ensures
        single_scaled(e1, m1) > single_scaled(e2, m2),
{
    let p2 = pow2(e2 as nat);
    lemma_pow2_pos(e2 as nat);
    if e1 == e2 {
        assert((0x80_0000 + m1) * p2 > (0x80_0000 + m2) * p2) by (nonlinear_arith)
            requires
                m1 > m2,
                p2 > 0,
        ;
    } else {
        let p1 = pow2(e1 as nat);
        lemma_pow2_unfold(e1 as nat);
        if (e1 - 1) as nat > e2 as nat {
            lemma_pow2_strictly_increases(e2 as nat, (e1 - 1) as nat);
        }
        assert(p1 >= 2 * p2);
        assert((0x80_0000 + m1) * p1 > (0x80_0000 + m2) * p2) by (nonlinear_arith)
            requires
                p1 >= 2 * p2,
                p2 > 0,
                m1 >= 0,
                m2 < 0x80_0000,
        ;
    }
}

/// `2^150`-scaled magnitudes of finite halves grow with (exponent, mantissa)
/// in lexicographic order.
proof fn lemma_half_scaled_lex(e1: u32, m1: u32, e2: u32, m2: u32)
    requires
        e1 <= 30,
        e2 <= 30,
        m1 < 1024,
        m2 < 1024,
        e1 < e2 || (e1 == e2 && m1 < m2),
    ensures
        half_scaled(e1, m1) < half_scaled(e2, m2),
{
    let k = pow2(126);
    lemma_pow2_pos(126);
    if e1 == e2 {
        if e1 == 0 {
            assert(m1 * k < m2 * k) by (nonlinear_arith)
                requires
                    m1 < m2,
                    k > 0,
            ;
        } else {
            let p = pow2((e1 - 1) as nat);
            lemma_pow2_pos((e1 - 1) as nat);
            assert((1024 + m1) * p * k < (1024 + m2) * p * k) by (nonlinear_arith)
                requires
                    m1 < m2,
                    p > 0,
                    k > 0,
            ;
        }
    } else {
        let q = pow2((e2 - 1) as nat);
        lemma_pow2_pos((e2 - 1) as nat);
        if e1 == 0 {
            assert(m1 * k < (1024 + m2) * q * k) by (nonlinear_arith)
                requires
                    m1 < 1024,
                    q >= 1,
                    k > 0,
                    m2 >= 0,
            ;
        } else {
            let p = pow2((e1 - 1) as nat);
            lemma_pow2_pos((e1 - 1) as nat);
            lemma_pow2_unfold(e1 as nat);
            if (e1 as nat) < ((e2 - 1) as nat) {
                lemma_pow2_strictly_increases(e1 as nat, (e2 - 1) as nat);
            }
            assert(2 * p <= q);
            assert((1024 + m1) * p * k < (1024 + m2) * q * k) by (nonlinear_arith)
                requires
                    m1 < 1024,
                    2 * p <= q,
                    p > 0,
                    k > 0,
                    m2 >= 0,
            ;
        }
    }
}

/// On non-negative halves, from zero up to +infinity, the conversion is
/// strictly increasing: a larger half gives a larger f32. Non-negative f32s
/// order as their bit patterns do, so this is stated on the bit patterns.
pub proof fn lemma_half_to_f32_increasing(a: u16, b: u16, ra: u32, rb: u32)
    requires
        a < b <= 0x7C00,
        is_f32_of_half(a, ra),
        is_f32_of_half(b, rb),
    ensures
        ra < rb,
{
    assert(h_sign(a) == 0 && a as int == h_exp(a) * 1024 + h_man(a) && h_exp(a) <= 31 && h_man(a)
        < 1024 && (h_exp(a) == 31 ==> h_man(a) == 0)) by (bit_vector)
        requires
            a < 0x7C00u16,
    ;
    assert(h_sign(b) == 0 && b as int == h_exp(b) * 1024 + h_man(b) && h_exp(b) <= 31 && h_man(b)
        < 1024 && (h_exp(b) == 31 ==> h_man(b) == 0)) by (bit_vector)
        requires
            b <= 0x7C00u16,
    ;
    assert(ra as int == f_exp(ra) * 0x80_0000 + f_man(ra) && f_man(ra) < 0x80_0000) by (bit_vector)
        requires
            f_sign(ra) == 0,
    ;
    assert(rb as int == f_exp(rb) * 0x80_0000 + f_man(rb) && f_man(rb) < 0x80_0000) by (bit_vector)
        requires
            f_sign(rb) == 0,
    ;
    let (ea, ma, eb, mb) = (h_exp(a), h_man(a), h_exp(b), h_man(b));
    if ea == 0 && ma == 0 {
        assert(ra == 0);
    } else if eb == 31 {
        assert(ea <= 30);
    } else {
        assert(ea <= 30 && eb <= 30);
        assert(ea < eb || (ea == eb && ma < mb));
        lemma_half_scaled_lex(ea, ma, eb, mb);
        if !(f_exp(ra) < f_exp(rb) || (f_exp(ra) == f_exp(rb) && f_man(ra) < f_man(rb))) {
            if f_exp(ra) == f_exp(rb) && f_man(ra) == f_man(rb) {
            } else {
                lemma_single_scaled_lex(f_exp(ra), f_man(ra), f_exp(rb), f_man(rb));
            }
        }
    }
}

} // verus!
