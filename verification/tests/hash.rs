use zensr::detect::{fnv as key_hash, zero_gaps};
use zensr::hash::{hex_u64, sha16};
use zensr::survey::{fnv as table_hash, subsampling};

#[test]
fn sha16_known_values() {
    assert_eq!(sha16(b""), "cbf29ce484222325");
    assert_eq!(sha16(b"a"), "af63dc4c8601ec8c");
    assert_eq!(sha16(b"foobar"), "85944171f73967e8");
}

#[test]
fn sha16_tells_bytes_apart() {
    assert_ne!(sha16(b"ab"), sha16(b"ba"));
    assert_eq!(sha16(b"same"), sha16(b"same"));
}

#[test]
fn hex_is_zero_padded_lowercase() {
    assert_eq!(hex_u64(0), "0000000000000000");
    assert_eq!(hex_u64(0xABC), "0000000000000abc");
    assert_eq!(hex_u64(u64::MAX), "ffffffffffffffff");
}

#[test]
fn table_hash_uses_little_endian_bytes() {
    // bytes 01 00 02 00 2c 01
    assert_eq!(table_hash(&[1, 2, 300]), "3ae4c9d7e7c64d5d");
    assert_eq!(table_hash(&[]), "cbf29ce484222325");
    // a single value 0x0061 hashes the bytes "a\0", not "a"
    assert_ne!(table_hash(&[0x61]), sha16(b"a"));
    assert_eq!(table_hash(&[0x61]), sha16(b"a\0"));
}

#[test]
fn key_hash_mixes_fnv() {
    assert_eq!(key_hash(""), 17280346270528514342);
    assert_eq!(key_hash("a"), 9413272369427828315);
    assert_eq!(key_hash("gen2|x.jpg"), 4605534840718085422);
    // UTF-8 bytes, not chars
    assert_eq!(key_hash("é"), 11337192735045482043);
}

#[test]
fn subsampling_names() {
    assert_eq!(subsampling(&[(1, 1), (1, 1), (1, 1)]), "444");
    assert_eq!(subsampling(&[(2, 2), (1, 1), (1, 1)]), "420");
    assert_eq!(subsampling(&[(2, 1), (1, 1), (1, 1)]), "422");
    assert_eq!(subsampling(&[(1, 2), (1, 1), (1, 1)]), "440");
    assert_eq!(subsampling(&[(1, 1)]), "gray");
}

#[test]
fn subsampling_lists_other_factors() {
    assert_eq!(subsampling(&[(2, 2), (1, 1), (1, 1), (1, 1)]), "2x2,1x1,1x1,1x1");
    assert_eq!(subsampling(&[(4, 1), (2, 1), (1, 1)]), "4x1,2x1,1x1");
    assert_eq!(subsampling(&[(2, 2)]), "2x2");
    assert_eq!(subsampling(&[(10, 255)]), "10x255");
    assert_eq!(subsampling(&[]), "");
}

#[test]
fn zero_gaps_counts_empty_bins_with_mass_beyond() {
    // bins 0..=32; bin 2 and 4 empty, mass 8 beyond
    let mut h = vec![0u32; 33];
    h[1] = 5;
    h[3] = 5;
    h[5] = 8;
    assert_eq!(zero_gaps(&h), 2);
    // not enough mass beyond: no gap
    let mut h2 = vec![0u32; 33];
    h2[1] = 5;
    h2[3] = 7;
    assert_eq!(zero_gaps(&h2), 0);
    // single bin: nothing to count
    assert_eq!(zero_gaps(&[9]), 0);
    // only bins 1..=12 are examined
    let mut h3 = vec![0u32; 33];
    h3[32] = 100;
    assert_eq!(zero_gaps(&h3), 12);
}
