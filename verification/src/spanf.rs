//! Weight-file layout of the SPANF x4 network (feature channels 32): the
//! tensors in dump order and the total float count they add up to.
use vstd::prelude::*;

verus! {

/// Feature channels.
pub const FC: usize = 32;

/// Upscale factor squared.
pub const S2: usize = 16;

/// Channels of the nearest-neighbour branch, `3 * S2`.
pub const NEAR_CH: usize = 48;

/// Channels entering the concat 1x1 conv, `NEAR_CH + 2 * FC`.
pub const CAT_CH: usize = 112;

/// Floats in a SPANF weight file.
pub const TOTAL_FLOATS: usize = 148_288;

/// Tensor layout in dump order, `(weight_floats, bias_floats)` per conv:
/// conv_near (grouped, no bias), five blocks of three 3x3 convs, and the
/// concat 1x1; conv_2 follows as the 18th tensor.
pub const TENSOR_LAYOUT: [(usize, usize); 17] = [
    (432, 0),
    (864, 32),
    (9216, 32),
    (9216, 32),
    (9216, 32),
    (9216, 32),
    (9216, 32),
    (9216, 32),
    (9216, 32),
    (9216, 32),
    (9216, 32),
    (9216, 32),
    (9216, 32),
    (9216, 32),
    (9216, 32),
    (9216, 32),
    (3584, 32),
];

/// `(weight_floats, bias_floats)` of tensor `t` (0..18) of the SPANF file:
/// conv_near, then per block conv `c` of block `b` a 3x3 conv from `3` (first
/// conv of the first block) or `FC` channels to `FC`, then conv_cat
/// (`CAT_CH -> FC`, 1x1), then conv_2 (`FC -> NEAR_CH`, 3x3).
pub open spec fn tensor_dim(t: int) -> (int, int) {
    let fc = FC as int;
    if t == 0 {
        (NEAR_CH * 9, 0)
    } else if t == 1 {
        (fc * 3 * 9, fc)
    } else if 2 <= t <= 15 {
        (fc * fc * 9, fc)
    } else if t == 16 {
        (CAT_CH * fc, fc)
    } else {
        (NEAR_CH * fc * 9, NEAR_CH as int)
    }
}

/// Floats of tensors `0..t`.
pub open spec fn floats_before(t: int) -> int
    decreases t,
{
    if t <= 0 {
        0
    } else {
        floats_before(t - 1) + tensor_dim(t - 1).0 + tensor_dim(t - 1).1
    }
}

/// The layout accounts for every float of the file (593,152 bytes as f32),
/// and its named channel counts agree: `NEAR_CH == 3 * S2`,
/// `CAT_CH == NEAR_CH + 2 * FC`.
pub proof fn lemma_layout_total()
    ensures
        floats_before(18) == TOTAL_FLOATS,
        TOTAL_FLOATS * 4 == 593_152,
        NEAR_CH == 3 * S2,
        CAT_CH == NEAR_CH + 2 * FC,
{
    reveal_with_fuel(floats_before, 19);
}

/// All 18 tensors of the file, `(weight_floats, bias_floats)`, in dump order.
pub fn tensor_dims() -> (dims: [(usize, usize); 18])
    ensures
        forall|t: int|
            0 <= t < 18 ==> dims@[t].0 == #[trigger] tensor_dim(t).0 && dims@[t].1 == tensor_dim(
                t,
            ).1,
{
    let mut dims = [(0usize, 0usize); 18];
    let mut i: usize = 0;
    while i < 17
        invariant
            i <= 17,
            forall|t: int|
                0 <= t < i ==> dims@[t].0 == #[trigger] tensor_dim(t).0 && dims@[t].1
                    == tensor_dim(t).1,
        decreases 17 - i,
    {
        dims[i] = TENSOR_LAYOUT[i];
        i = i + 1;
    }
    dims[17] = (NEAR_CH * FC * 9, NEAR_CH);
    dims
}

} // verus!
