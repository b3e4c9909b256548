//! The JPEG zigzag scan order and its inverse.
use vstd::prelude::*;

verus! {

/// Zigzag index -> natural (row-major) index, JPEG standard order.
pub const ZIGZAG_TO_NATURAL: [usize; 64] = [
    0, 1, 8, 16, 9, 2, 3, 10, 17, 24, 32, 25, 18, 11, 4, 5, 12, 19, 26, 33, 40, 48, 41, 34, 27,
    20, 13, 6, 7, 14, 21, 28, 35, 42, 49, 56, 57, 50, 43, 36, 29, 22, 15, 23, 30, 37, 44, 51, 58,
    59, 52, 45, 38, 31, 39, 46, 53, 60, 61, 54, 47, 55, 62, 63,
];

/// Natural (row-major) index -> zigzag index: the inverse of `ZIGZAG_TO_NATURAL`.
pub const NATURAL_TO_ZIGZAG: [usize; 64] = [
    0, 1, 5, 6, 14, 15, 27, 28, 2, 4, 7, 13, 16, 26, 29, 42, 3, 8, 12, 17, 25, 30, 41, 43, 9, 11,
    18, 24, 31, 40, 44, 53, 10, 19, 23, 32, 39, 45, 52, 54, 20, 22, 33, 38, 46, 51, 55, 60, 21, 34,
    37, 47, 50, 56, 59, 61, 35, 36, 48, 49, 57, 58, 62, 63,
];

/// Zigzag position `k` in natural order.
pub open spec fn zz(k: int) -> int {
    ZIGZAG_TO_NATURAL@[k] as int
}

/// Natural position `p` in zigzag order.
pub open spec fn nz(p: int) -> int {
    NATURAL_TO_ZIGZAG@[p] as int
}

/// The zigzag order is a permutation of the 64 block positions, and the two
/// tables undo each other in both directions.
pub proof fn lemma_zigzag_is_permutation()
    ensures
        forall|k: int| 0 <= k < 64 ==> 0 <= #[trigger] zz(k) < 64 && nz(zz(k)) == k,
        forall|p: int| 0 <= p < 64 ==> 0 <= #[trigger] nz(p) < 64 && zz(nz(p)) == p,
{
}

} // verus!
