use zensr::half::f16_to_f32_bits;
use zensr::weights::{decode_all_f16, decode_f16_weights, decode_int8pc_weights, F16FileError, Int8FileError, Int8Value};

#[test]
fn f16_known_values() {
    assert_eq!(f16_to_f32_bits(0x3c00), 1.0f32.to_bits());
    assert_eq!(f16_to_f32_bits(0xc000), (-2.0f32).to_bits());
    assert_eq!(f16_to_f32_bits(0x3555), 0.333251953125f32.to_bits());
    assert_eq!(f16_to_f32_bits(0x7bff), 65504.0f32.to_bits());
    assert_eq!(f16_to_f32_bits(0x0000), 0);
    assert_eq!(f16_to_f32_bits(0x8000), 0x8000_0000);
    assert_eq!(f16_to_f32_bits(0x7c00), f32::INFINITY.to_bits());
    assert_eq!(f16_to_f32_bits(0xfc00), f32::NEG_INFINITY.to_bits());
    assert_eq!(f16_to_f32_bits(0x7e00), 0x7fc0_0000);
    assert!(f32::from_bits(f16_to_f32_bits(0x7c01)).is_nan());
}

#[test]
fn f16_subnormals_keep_their_value() {
    // smallest subnormal is 2^-24
    assert_eq!(f32::from_bits(f16_to_f32_bits(0x0001)), 2.0f32.powi(-24));
    assert_eq!(f32::from_bits(f16_to_f32_bits(0x0003)), 3.0 * 2.0f32.powi(-24));
    assert_eq!(f32::from_bits(f16_to_f32_bits(0x03ff)), 1023.0 * 2.0f32.powi(-24));
    assert_eq!(f32::from_bits(f16_to_f32_bits(0x8200)), -512.0 * 2.0f32.powi(-24));
}

#[test]
fn f16_exhaustive_against_arithmetic() {
    for b in 0u16..=0xffff {
        let e = (b >> 10) & 0x1f;
        let m = (b & 0x3ff) as f64;
        let sign = if b >> 15 == 1 { -1.0 } else { 1.0 };
        let got = f32::from_bits(f16_to_f32_bits(b));
        if e == 31 {
            if m == 0.0 { assert_eq!(got as f64, sign * f64::INFINITY); } else { assert!(got.is_nan()); }
            continue;
        }
        let v = if e == 0 { m * 2f64.powi(-24) } else { (1.0 + m / 1024.0) * 2f64.powi(e as i32 - 15) };
        assert_eq!(got as f64, sign * v, "{b:#06x}");
        assert_eq!(got.is_sign_negative(), b >> 15 == 1);
    }
}

#[test]
fn decode_all_f16_pairs_little_endian() {
    let bytes = [0x00, 0x3c, 0x00, 0xc0, 0x7f];
    assert_eq!(decode_all_f16(&bytes), vec![1.0f32.to_bits(), (-2.0f32).to_bits()]);
    assert!(decode_all_f16(&[]).is_empty());
}

fn spanf_file(bias: f32) -> Vec<u8> {
    let dims = zensr::spanf::tensor_dims();
    let mut b = Vec::new();
    for (wn, bn) in dims {
        for _ in 0..wn {
            b.extend_from_slice(&0x3800u16.to_le_bytes()); // 0.5
        }
        for _ in 0..bn {
            b.extend_from_slice(&bias.to_le_bytes());
        }
    }
    b
}

#[test]
fn f16_weight_file_layout() {
    let file = spanf_file(-1.25);
    assert_eq!(file.len(), 297_696);
    let out = decode_f16_weights(&file).expect("exact size");
    assert_eq!(out.len(), zensr::spanf::TOTAL_FLOATS);
    // conv_near has no bias; tensor 1 = 864 weights then 32 biases
    assert_eq!(out[0], 0.5f32.to_bits());
    assert_eq!(out[432 + 864], (-1.25f32).to_bits());
    assert_eq!(out[432 + 863], 0.5f32.to_bits());
    assert_eq!(out[out.len() - 1], (-1.25f32).to_bits());
}

#[test]
fn f16_weight_file_errors() {
    let file = spanf_file(0.0);
    assert_eq!(decode_f16_weights(&file[..100]), Err(F16FileError::TruncatedWeights));
    // cut inside the first bias block: 432*2 + 864*2 + 3 bytes
    assert_eq!(decode_f16_weights(&file[..432 * 2 + 864 * 2 + 3]), Err(F16FileError::TruncatedBias));
    let mut long = file.clone();
    long.push(0);
    assert_eq!(decode_f16_weights(&long), Err(F16FileError::SizeMismatch));
    assert_eq!(decode_f16_weights(&[]), Err(F16FileError::TruncatedWeights));
}

fn int8_file(scale: f32, q: u8, bias: f32) -> Vec<u8> {
    let mut b = Vec::new();
    for (wn, bn) in zensr::spanf::tensor_dims() {
        let cout = if bn > 0 { bn } else { zensr::spanf::NEAR_CH };
        for c in 0..cout {
            b.extend_from_slice(&(scale * (c + 1) as f32).to_le_bytes());
        }
        for _ in 0..wn {
            b.push(q);
        }
        for _ in 0..bn {
            b.extend_from_slice(&bias.to_le_bytes());
        }
    }
    b
}

#[test]
fn int8_weight_file_layout() {
    let file = int8_file(0.5, 0xFE, 3.0);
    assert_eq!(file.len(), 152_400);
    let out = decode_int8pc_weights(&file).expect("exact size");
    assert_eq!(out.len(), zensr::spanf::TOTAL_FLOATS);
    // conv_near: 48 channels of 9 weights each; weight 9 belongs to channel 1
    assert_eq!(out[0], Int8Value::Scaled { q: -2, scale: 0.5f32.to_bits() });
    assert_eq!(out[9], Int8Value::Scaled { q: -2, scale: 1.0f32.to_bits() });
    assert_eq!(out[431], Int8Value::Scaled { q: -2, scale: (0.5f32 * 48.0).to_bits() });
    // tensor 1: 864 weights (27 per channel), then 32 biases
    assert_eq!(out[432 + 27], Int8Value::Scaled { q: -2, scale: 1.0f32.to_bits() });
    assert_eq!(out[432 + 864], Int8Value::Bits(3.0f32.to_bits()));
}

#[test]
fn int8_weight_file_errors() {
    let file = int8_file(1.0, 1, 0.0);
    assert_eq!(decode_int8pc_weights(&file[..50]), Err(Int8FileError::Truncated));
    // scales and weights of tensor 0 and 1 present, biases of tensor 1 cut
    assert_eq!(decode_int8pc_weights(&file[..624 + 128 + 864 + 5]), Err(Int8FileError::TruncatedBias));
    let mut long = file.clone();
    long.extend_from_slice(&[0, 0]);
    assert_eq!(decode_int8pc_weights(&long), Err(Int8FileError::SizeMismatch));
}

#[test]
fn half_conversion_increases_on_non_negative_halves() {
    let mut prev = f16_to_f32_bits(0);
    for b in 1u16..=0x7C00 {
        let r = f16_to_f32_bits(b);
        assert!(r > prev, "{b:#x}");
        assert!(f32::from_bits(r) > f32::from_bits(prev), "{b:#x}");
        prev = r;
    }
}
