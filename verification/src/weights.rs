//! Half-precision weight files: every value f16, or the SPANF dump with f16
//! weights and f32 biases, decoded to f32 bit patterns.
use vstd::prelude::*;
use crate::half::{f16_to_f32_bits, is_f32_of_half};
use crate::spanf::{TOTAL_FLOATS, floats_before, lemma_layout_total, tensor_dim, tensor_dims};

verus! {

/// Little-endian 16-bit value at byte `i`.
pub open spec fn le16(b: Seq<u8>, i: int) -> u16 {
    (b[i] as int + 256 * b[i + 1] as int) as u16
}

/// Little-endian 32-bit value at byte `i`.
pub open spec fn le32(b: Seq<u8>, i: int) -> u32 {
    (b[i] as int + 256 * b[i + 1] as int + 65536 * b[i + 2] as int + 16777216 * b[i + 3] as int) as u32
}

/// Each little-endian pair of bytes read as an f16, as f32 bit patterns; a
/// trailing odd byte is ignored.
pub fn decode_all_f16(bytes: &[u8]) -> (r: Vec<u32>)
    ensures
        r@.len() == bytes@.len() / 2,
        forall|i: int| 0 <= i < r@.len() ==> is_f32_of_half(#[trigger] le16(bytes@, 2 * i), r@[i]),
{
    let n = bytes.len() / 2;
    let mut out: Vec<u32> = Vec::new();
    let mut i: usize = 0;
    while i < n
        invariant
            n == bytes.len() / 2,
            i <= n,
            out@.len() == i,
            forall|j: int| 0 <= j < i ==> is_f32_of_half(#[trigger] le16(bytes@, 2 * j), out@[j]),
        decreases n - i,
    {
        let h = (bytes[2 * i] as u16) + 256 * (bytes[2 * i + 1] as u16);
        out.push(f16_to_f32_bits(h));
        i = i + 1;
    }
    out
}

/// Bytes of tensors `0..t` in the f16 dump: 2 per weight, 4 per bias.
pub open spec fn bytes_before(t: int) -> int
    decreases t,
{
    if t <= 0 {
        0
    } else {
        bytes_before(t - 1) + 2 * tensor_dim(t - 1).0 + 4 * tensor_dim(t - 1).1
    }
}

/// Why an f16 weight dump was rejected.
#[derive(Clone, Copy, PartialEq, Eq, Debug, Structural)]
pub enum F16FileError {
    /// The file ends inside a tensor's weights.
    TruncatedWeights,
    /// The file ends inside a tensor's biases.
    TruncatedBias,
    /// Bytes are left over after the last tensor.
    SizeMismatch,
}

/// The outcome of reading tensors `t..18` of a dump of `len` bytes.
pub open spec fn f16_file_check(len: int, t: int) -> Result<(), F16FileError>
    decreases 18 - t,
{
    if t >= 18 {
        if len == bytes_before(18) {
            Ok(())
        } else {
            Err(F16FileError::SizeMismatch)
        }
    } else if bytes_before(t) + 2 * tensor_dim(t).0 > len {
        Err(F16FileError::TruncatedWeights)
    } else if bytes_before(t) + 2 * tensor_dim(t).0 + 4 * tensor_dim(t).1 > len {
        Err(F16FileError::TruncatedBias)
    } else {
        f16_file_check(len, t + 1)
    }
}

/// Output float `floats_before(t) + k` comes from tensor `t`'s data: the
/// f16 weight `k`, or the f32 bias `k - wn`.
pub open spec fn decodes_tensor(b: Seq<u8>, out: Seq<u32>, t: int, upto: int) -> bool {
    let (wn, bn) = tensor_dim(t);
    forall|k: int|
        0 <= k < upto ==> if k < wn {
            is_f32_of_half(le16(b, bytes_before(t) + 2 * k), #[trigger] out[floats_before(t) + k])
        } else {
            out[floats_before(t) + k] == le32(b, bytes_before(t) + 2 * wn + 4 * (k - wn))
        }
}

/// Sizes stay non-negative and grow with the tensor index.
proof fn lemma_prefix_facts(t: int)
    requires
        0 <= t <= 18,
    ensures
        floats_before(t) >= 0,
        bytes_before(t) >= 0,
        tensor_dim(t).0 >= 0,
        tensor_dim(t).1 >= 0,
        floats_before(t) <= TOTAL_FLOATS,
        bytes_before(t) <= 297_696,
        t < 18 ==> floats_before(t + 1) == floats_before(t) + tensor_dim(t).0 + tensor_dim(t).1,
        t < 18 ==> bytes_before(t + 1) == bytes_before(t) + 2 * tensor_dim(t).0 + 4 * tensor_dim(
            t,
        ).1,
    decreases 18 - t,
{
    reveal_with_fuel(floats_before, 19);
    reveal_with_fuel(bytes_before, 19);
}

/// Decode the f16 weight dump (weights f16, biases f32, tensor by tensor)
/// into the `TOTAL_FLOATS` f32 bit patterns of the canonical buffer.
pub fn decode_f16_weights(bytes: &[u8]) -> (r: Result<Vec<u32>, F16FileError>)
    ensures
        match f16_file_check(bytes@.len() as int, 0) {
            Ok(()) => r is Ok,
            Err(e) => r == Err::<Vec<u32>, F16FileError>(e),
        },
        r matches Ok(v) ==> v@.len() == TOTAL_FLOATS && forall|t: int|
            0 <= t < 18 ==> #[trigger] decodes_tensor(bytes@, v@, t, tensor_dim(t).0 + tensor_dim(
                t,
            ).1),
{
    let dims = tensor_dims();
    let len = bytes.len();
    let mut out: Vec<u32> = Vec::new();
    let mut off: usize = 0;
    let mut t: usize = 0;
    proof {
        lemma_layout_total();
    }
    while t < 18
        invariant
            len == bytes@.len(),
            t <= 18,
            off == bytes_before(t as int),
            out@.len() == floats_before(t as int),
            off <= len,
            forall|i: int|
                0 <= i < 18 ==> dims@[i].0 == #[trigger] tensor_dim(i).0 && dims@[i].1 == tensor_dim(
                    i,
                ).1,
            f16_file_check(len as int, 0) == f16_file_check(len as int, t as int),
            forall|u: int|
                0 <= u < t ==> #[trigger] decodes_tensor(bytes@, out@, u, tensor_dim(u).0
                    + tensor_dim(u).1),
        decreases 18 - t,
    {
        proof {
            lemma_prefix_facts(t as int);
        }
        let (wn, bn) = dims[t];
        if wn > (len - off) / 2 {
            return Err(F16FileError::TruncatedWeights);
        }
        let ghost start = out@.len() as int;
        let mut k: usize = 0;
        while k < wn
            invariant
                len == bytes@.len(),
                t < 18,
                off == bytes_before(t as int),
                start == floats_before(t as int),
                start >= 0,
                wn == tensor_dim(t as int).0,
                off + 2 * wn <= len,
                k <= wn,
                out@.len() == start + k,
                forall|u: int|
                    0 <= u < t ==> #[trigger] decodes_tensor(bytes@, out@, u, tensor_dim(u).0
                        + tensor_dim(u).1),
                decodes_tensor(bytes@, out@, t as int, k as int),
            decreases wn - k,
        {
            let p = off + 2 * k;
            let h = (bytes[p] as u16) + 256 * (bytes[p + 1] as u16);
            let ghost before = out@;
            out.push(f16_to_f32_bits(h));
            proof {
                assert forall|u: int|
                    0 <= u < t implies #[trigger] decodes_tensor(bytes@, out@, u, tensor_dim(u).0
                    + tensor_dim(u).1) by {
                    lemma_prefix_facts(u);
                    assert(decodes_tensor(bytes@, before, u, tensor_dim(u).0 + tensor_dim(u).1));
                    lemma_prefix_mono(u, t as int);
                }
                assert(h == le16(bytes@, bytes_before(t as int) + 2 * k));
                assert(is_f32_of_half(h, out@[start + k]));
                let fb = floats_before(t as int);
                assert forall|j: int| 0 <= j < k + 1 implies if j < wn {
                    is_f32_of_half(le16(bytes@, bytes_before(t as int) + 2 * j), #[trigger] out@[fb + j])
                } else {
                    out@[fb + j] == le32(bytes@, bytes_before(t as int) + 2 * wn + 4 * (j - wn))
                } by {
                    if j < k {
                        assert(decodes_tensor(bytes@, before, t as int, k as int));
                        assert(before[fb + j] == out@[fb + j]);
                    }
                }
            }
            k = k + 1;
        }
        let boff = off + 2 * wn;
        if bn > (len - boff) / 4 {
            return Err(F16FileError::TruncatedBias);
        }
        let mut k: usize = 0;
        while k < bn
            invariant
                len == bytes@.len(),
                t < 18,
                off == bytes_before(t as int),
                start == floats_before(t as int),
                start >= 0,
                wn == tensor_dim(t as int).0,
                bn == tensor_dim(t as int).1,
                boff == off + 2 * wn,
                boff + 4 * bn <= len,
                k <= bn,
                out@.len() == start + wn + k,
                forall|u: int|
                    0 <= u < t ==> #[trigger] decodes_tensor(bytes@, out@, u, tensor_dim(u).0
                        + tensor_dim(u).1),
                decodes_tensor(bytes@, out@, t as int, wn + k),
            decreases bn - k,
        {
            let p = boff + 4 * k;
            let v = (bytes[p] as u32) + 256 * (bytes[p + 1] as u32) + 65536 * (bytes[p + 2] as u32)
                + 16777216 * (bytes[p + 3] as u32);
            let ghost before = out@;
            out.push(v);
            proof {
                assert forall|u: int|
                    0 <= u < t implies #[trigger] decodes_tensor(bytes@, out@, u, tensor_dim(u).0
                    + tensor_dim(u).1) by {
                    lemma_prefix_facts(u);
                    assert(decodes_tensor(bytes@, before, u, tensor_dim(u).0 + tensor_dim(u).1));
                    lemma_prefix_mono(u, t as int);
                }
                assert(v == le32(bytes@, bytes_before(t as int) + 2 * wn + 4 * k));
                let fb = floats_before(t as int);
                assert(out@[fb + wn + k] == v);
                assert forall|j: int| 0 <= j < wn + k + 1 implies if j < wn {
                    is_f32_of_half(le16(bytes@, bytes_before(t as int) + 2 * j), #[trigger] out@[fb + j])
                } else {
                    out@[fb + j] == le32(bytes@, bytes_before(t as int) + 2 * wn + 4 * (j - wn))
                } by {
                    if j < wn + k {
                        assert(decodes_tensor(bytes@, before, t as int, wn + k));
                        assert(before[fb + j] == out@[fb + j]);
                    }
                }
            }
            k = k + 1;
        }
        off = boff + 4 * bn;
        t = t + 1;
    }
    if off != len {
        return Err(F16FileError::SizeMismatch);
    }
    Ok(out)
}

/// A later tensor starts after an earlier one ends.
proof fn lemma_prefix_mono(u: int, t: int)
    requires
        0 <= u < t <= 18,
    ensures
        floats_before(u) + tensor_dim(u).0 + tensor_dim(u).1 <= floats_before(t),
    decreases t - u,
{
    lemma_prefix_facts(u);
    lemma_prefix_facts(t - 1);
    if u < t - 1 {
        lemma_prefix_mono(u, t - 1);
    }
}

/// An f16 dump is accepted exactly when it has the exact size of the
/// layout, 297,696 bytes; any other size is rejected.
pub proof fn lemma_f16_file_exact_size(len: int)
    ensures
        bytes_before(18) == 297_696,
        f16_file_check(len, 0) is Ok <==> len == 297_696,
{
    lemma_f16_check_from(len, 0);
    reveal_with_fuel(bytes_before, 19);
}

proof fn lemma_f16_check_from(len: int, t: int)
    requires
        0 <= t <= 18,
    ensures
        f16_file_check(len, t) is Ok <==> len == bytes_before(18),
    decreases 18 - t,
{
    reveal_with_fuel(bytes_before, 19);
    if t < 18 {
        lemma_f16_check_from(len, t + 1);
        lemma_prefix_facts(t);
        lemma_bytes_mono(t + 1);
    }
}

/// Every prefix of the layout is at most the whole.
proof fn lemma_bytes_mono(t: int)
    requires
        0 <= t <= 18,
    ensures
        bytes_before(t) <= bytes_before(18),
    decreases 18 - t,
{
    if t < 18 {
        lemma_prefix_facts(t);
        lemma_bytes_mono(t + 1);
    }
}

/// Output channels of tensor `t`, the count of per-channel scales it carries:
/// its bias count, or `NEAR_CH` for the bias-free conv_near.
pub open spec fn tensor_cout(t: int) -> int {
    if tensor_dim(t).1 > 0 { tensor_dim(t).1 } else { 48 }
}

/// Bytes of tensors `0..t` in the int8 dump: per tensor the f32 scales,
/// the int8 weights, the f32 biases.
pub open spec fn int8_bytes_before(t: int) -> int
    decreases t,
{
    if t <= 0 {
        0
    } else {
        int8_bytes_before(t - 1) + 4 * tensor_cout(t - 1) + tensor_dim(t - 1).0 + 4 * tensor_dim(
            t - 1,
        ).1
    }
}

/// One value of the int8 dump: a weight as its int8 code and the f32 bit
/// pattern of its output channel's scale (the value is their product), or a
/// bias as its f32 bit pattern.
#[derive(Clone, Copy, PartialEq, Eq, Debug, Structural)]
pub enum Int8Value {
    Scaled { q: i8, scale: u32 },
    Bits(u32),
}

/// Why an int8 weight dump was rejected.
#[derive(Clone, Copy, PartialEq, Eq, Debug, Structural)]
pub enum Int8FileError {
    /// The file ends inside a tensor's scales or weights.
    Truncated,
    /// The file ends inside a tensor's biases.
    TruncatedBias,
    /// Bytes are left over after the last tensor.
    SizeMismatch,
}

/// The outcome of reading tensors `t..18` of an int8 dump of `len` bytes.
pub open spec fn int8_file_check(len: int, t: int) -> Result<(), Int8FileError>
    decreases 18 - t,
{
    if t >= 18 {
        if len == int8_bytes_before(18) {
            Ok(())
        } else {
            Err(Int8FileError::SizeMismatch)
        }
    } else if int8_bytes_before(t) + 4 * tensor_cout(t) + tensor_dim(t).0 > len {
        Err(Int8FileError::Truncated)
    } else if int8_bytes_before(t) + 4 * tensor_cout(t) + tensor_dim(t).0 + 4 * tensor_dim(t).1
        > len {
        Err(Int8FileError::TruncatedBias)
    } else {
        int8_file_check(len, t + 1)
    }
}

/// `i8` of a byte.
pub open spec fn as_i8(b: u8) -> i8 {
    if b < 128 { b as i8 } else { (b - 256) as i8 }
}

/// Output float `floats_before(t) + k` of the int8 dump comes from tensor
/// `t`: weight `k` with the scale of output channel `k / (wn / cout)`, or
/// bias `k - wn`.
pub open spec fn decodes_int8_tensor(b: Seq<u8>, out: Seq<Int8Value>, t: int, upto: int) -> bool {
    let (wn, bn) = tensor_dim(t);
    let o = int8_bytes_before(t);
    let w0 = o + 4 * tensor_cout(t);
    forall|k: int|
        0 <= k < upto ==> #[trigger] out[floats_before(t) + k] == if k < wn {
            Int8Value::Scaled { q: as_i8(b[w0 + k]), scale: le32(b, o + 4 * (k / (wn / tensor_cout(t)))) }
        } else {
            Int8Value::Bits(le32(b, w0 + wn + 4 * (k - wn)))
        }
}

/// Sizes of the int8 layout: non-negative, growing, and each tensor's
/// weights a whole number of rows per output channel.
proof fn lemma_int8_facts(t: int)
    requires
        0 <= t <= 18,
    ensures
        int8_bytes_before(t) >= 0,
        int8_bytes_before(t) <= int8_bytes_before(18),
        int8_bytes_before(18) == 152_400,
        t < 18 ==> int8_bytes_before(t + 1) == int8_bytes_before(t) + 4 * tensor_cout(t)
            + tensor_dim(t).0 + 4 * tensor_dim(t).1,
        t < 18 ==> tensor_cout(t) >= 1 && tensor_dim(t).0 % tensor_cout(t) == 0 && tensor_dim(t).0
            / tensor_cout(t) >= 1,
    decreases 18 - t,
{
    reveal_with_fuel(int8_bytes_before, 19);
    if t == 0 {
        assert(tensor_dim(0).0 == 432 && tensor_cout(0) == 48);
        assert(432int % 48 == 0 && 432int / 48 == 9);
    } else if t == 1 {
        assert(tensor_dim(1).0 == 864 && tensor_cout(1) == 32);
        assert(864int % 32 == 0 && 864int / 32 == 27);
    } else if 2 <= t <= 15 {
        assert(tensor_dim(t).0 == 9216 && tensor_cout(t) == 32);
        assert(9216int % 32 == 0 && 9216int / 32 == 288);
    } else if t == 16 {
        assert(tensor_dim(16).0 == 3584 && tensor_cout(16) == 32);
        assert(3584int % 32 == 0 && 3584int / 32 == 112);
    } else if t == 17 {
        assert(tensor_dim(17).0 == 13824 && tensor_cout(17) == 48);
        assert(13824int % 48 == 0 && 13824int / 48 == 288);
    }
}

/// An int8 dump is accepted exactly when it has the exact size of the
/// layout, 152,400 bytes.
pub proof fn lemma_int8_file_exact_size(len: int)
    ensures
        int8_file_check(len, 0) is Ok <==> len == 152_400,
{
    lemma_int8_check_from(len, 0);
    lemma_int8_facts(0);
}

proof fn lemma_int8_check_from(len: int, t: int)
    requires
        0 <= t <= 18,
    ensures
        int8_file_check(len, t) is Ok <==> len == int8_bytes_before(18),
    decreases 18 - t,
{
    if t < 18 {
        lemma_int8_check_from(len, t + 1);
        lemma_int8_facts(t);
        lemma_int8_facts(t + 1);
    }
}

/// Decode the int8-per-channel dump (per conv: output-channel f32 scales,
/// int8 weights, f32 biases) into its `TOTAL_FLOATS` values: weights as
/// code and scale, biases as bits.
pub fn decode_int8pc_weights(bytes: &[u8]) -> (r: Result<Vec<Int8Value>, Int8FileError>)
    ensures
        match int8_file_check(bytes@.len() as int, 0) {
            Ok(()) => r is Ok,
            Err(e) => r == Err::<Vec<Int8Value>, Int8FileError>(e),
        },
        r matches Ok(v) ==> v@.len() == TOTAL_FLOATS && forall|t: int|
            0 <= t < 18 ==> #[trigger] decodes_int8_tensor(bytes@, v@, t, tensor_dim(t).0
                + tensor_dim(t).1),
{
    let dims = tensor_dims();
    let len = bytes.len();
    let mut out: Vec<Int8Value> = Vec::new();
    let mut off: usize = 0;
    let mut t: usize = 0;
    proof {
        lemma_layout_total();
    }
    while t < 18
        invariant
            len == bytes@.len(),
            t <= 18,
            off == int8_bytes_before(t as int),
            out@.len() == floats_before(t as int),
            off <= len,
            forall|i: int|
                0 <= i < 18 ==> dims@[i].0 == #[trigger] tensor_dim(i).0 && dims@[i].1 == tensor_dim(
                    i,
                ).1,
            int8_file_check(len as int, 0) == int8_file_check(len as int, t as int),
            forall|u: int|
                0 <= u < t ==> #[trigger] decodes_int8_tensor(bytes@, out@, u, tensor_dim(u).0
                    + tensor_dim(u).1),
        decreases 18 - t,
    {
        proof {
            lemma_prefix_facts(t as int);
            lemma_int8_facts(t as int);
        }
        let (wn, bn) = dims[t];
        let cout = if bn > 0 { bn } else { 48 };
        if 4 * cout > len - off || wn > len - off - 4 * cout {
            return Err(Int8FileError::Truncated);
        }
        let w0 = off + 4 * cout;
        let per_oc = wn / cout;
        let ghost start = out@.len() as int;
        let mut k: usize = 0;
        while k < wn
            invariant
                len == bytes@.len(),
                t < 18,
                off == int8_bytes_before(t as int),
                start == floats_before(t as int),
                start >= 0,
                wn == tensor_dim(t as int).0,
                cout == tensor_cout(t as int),
                cout >= 1,
                per_oc == wn / cout,
                per_oc >= 1,
                wn % cout == 0,
                w0 == off + 4 * cout,
                w0 + wn <= len,
                k <= wn,
                out@.len() == start + k,
                forall|u: int|
                    0 <= u < t ==> #[trigger] decodes_int8_tensor(bytes@, out@, u, tensor_dim(u).0
                        + tensor_dim(u).1),
                decodes_int8_tensor(bytes@, out@, t as int, k as int),
            decreases wn - k,
        {
            let ch = k / per_oc;
            proof {
                assert(ch < cout) by (nonlinear_arith)
                    requires
                        ch == k / per_oc,
                        k < wn,
                        per_oc == wn / cout,
                        wn % cout == 0,
                        cout >= 1,
                        per_oc >= 1,
                ;
            }
            let p = off + 4 * ch;
            let scale = (bytes[p] as u32) + 256 * (bytes[p + 1] as u32) + 65536 * (bytes[p + 2] as u32)
                + 16777216 * (bytes[p + 3] as u32);
            let b = bytes[w0 + k];
            let q: i8 = if b < 128 { b as i8 } else { (b as i16 - 256) as i8 };
            let ghost before = out@;
            out.push(Int8Value::Scaled { q, scale });
            proof {
                assert forall|u: int|
                    0 <= u < t implies #[trigger] decodes_int8_tensor(bytes@, out@, u, tensor_dim(u).0
                    + tensor_dim(u).1) by {
                    lemma_prefix_facts(u);
                    assert(decodes_int8_tensor(bytes@, before, u, tensor_dim(u).0 + tensor_dim(u).1));
                    lemma_prefix_mono(u, t as int);
                }
                let fb = floats_before(t as int);
                assert(out@[fb + k] == Int8Value::Scaled {
                    q: as_i8(bytes@[w0 + k]),
                    scale: le32(bytes@, off + 4 * (k / (wn / cout))),
                });
                assert forall|j: int| 0 <= j < k + 1 implies #[trigger] out@[fb + j] == if j < wn {
                    Int8Value::Scaled {
                        q: as_i8(bytes@[w0 + j]),
                        scale: le32(bytes@, off + 4 * (j / ((wn / cout) as int))),
                    }
                } else {
                    Int8Value::Bits(le32(bytes@, w0 + wn + 4 * (j - wn)))
                } by {
                    if j < k {
                        assert(decodes_int8_tensor(bytes@, before, t as int, k as int));
                        assert(before[fb + j] == out@[fb + j]);
                    }
                }
            }
            k = k + 1;
        }
        let boff = w0 + wn;
        if bn > (len - boff) / 4 {
            return Err(Int8FileError::TruncatedBias);
        }
        let mut k: usize = 0;
        while k < bn
            invariant
                len == bytes@.len(),
                t < 18,
                off == int8_bytes_before(t as int),
                start == floats_before(t as int),
                start >= 0,
                wn == tensor_dim(t as int).0,
                bn == tensor_dim(t as int).1,
                cout == tensor_cout(t as int),
                w0 == off + 4 * cout,
                boff == w0 + wn,
                boff + 4 * bn <= len,
                k <= bn,
                out@.len() == start + wn + k,
                forall|u: int|
                    0 <= u < t ==> #[trigger] decodes_int8_tensor(bytes@, out@, u, tensor_dim(u).0
                        + tensor_dim(u).1),
                decodes_int8_tensor(bytes@, out@, t as int, wn + k),
            decreases bn - k,
        {
            let p = boff + 4 * k;
            let v = (bytes[p] as u32) + 256 * (bytes[p + 1] as u32) + 65536 * (bytes[p + 2] as u32)
                + 16777216 * (bytes[p + 3] as u32);
            let ghost before = out@;
            out.push(Int8Value::Bits(v));
            proof {
                assert forall|u: int|
                    0 <= u < t implies #[trigger] decodes_int8_tensor(bytes@, out@, u, tensor_dim(u).0
                    + tensor_dim(u).1) by {
                    lemma_prefix_facts(u);
                    assert(decodes_int8_tensor(bytes@, before, u, tensor_dim(u).0 + tensor_dim(u).1));
                    lemma_prefix_mono(u, t as int);
                }
                let fb = floats_before(t as int);
                assert(out@[fb + wn + k] == Int8Value::Bits(v));
                assert forall|j: int| 0 <= j < wn + k + 1 implies #[trigger] out@[fb + j] == if j < wn {
                    Int8Value::Scaled {
                        q: as_i8(bytes@[w0 + j]),
                        scale: le32(bytes@, off + 4 * (j / ((wn / cout) as int))),
                    }
                } else {
                    Int8Value::Bits(le32(bytes@, w0 + wn + 4 * (j - wn)))
                } by {
                    if j < wn + k {
                        assert(decodes_int8_tensor(bytes@, before, t as int, wn + k));
                        assert(before[fb + j] == out@[fb + j]);
                    }
                }
            }
            k = k + 1;
        }
        off = boff + 4 * bn;
        t = t + 1;
    }
    if off != len {
        return Err(Int8FileError::SizeMismatch);
    }
    Ok(out)
}

} // verus!
