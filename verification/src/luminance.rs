//! Luma weights — the `KR`/`KG`/`KB` coefficients that collapse an RGB triple to a single luma
//! sample — as fixed-point integers at [`LUMA_FIX`] fractional bits.
//!
//! A weighted sum is `(wr*r + wg*g + wb*b + LUMA_ONE/2) >> LUMA_FIX`, and every triple sums to
//! exactly [`LUMA_ONE`], so three equal channels reproduce that channel.
use vstd::prelude::*;

verus! {

/// Fractional bits of the fixed-point luma weights: coefficients are scaled by `2^16`.
pub const LUMA_FIX: u32 = 16;

/// The fixed-point representation of `1.0` at [`LUMA_FIX`] fractional bits (`65536`).
pub const LUMA_ONE: u32 = 65536;

/// BT.601 / SMPTE 170M luma weights (`KR = 0.299`, `KG = 0.587`, `KB = 0.114`).
pub const BT601_LUMA_WEIGHTS: [u32; 3] = [19595, 38470, 7471];

/// BT.709 luma weights (`KR = 0.2126`, `KG = 0.7152`, `KB = 0.0722`).
pub const BT709_LUMA_WEIGHTS: [u32; 3] = [13933, 46871, 4732];

/// BT.2020 / BT.2100 luma weights (`KR = 0.2627`, `KG = 0.6780`, `KB = 0.0593`); the spare unit
/// from rounding goes to green so the triple sums to exactly [`LUMA_ONE`].
pub const BT2020_LUMA_WEIGHTS: [u32; 3] = [17216, 44434, 3886];

/// The fixed-point luma of a full-range RGB triple under weights `(wr, wg, wb)`, rounded to
/// nearest.
pub open spec fn luma_of(r: nat, g: nat, b: nat, wr: nat, wg: nat, wb: nat) -> nat {
    (wr * r + wg * g + wb * b + 32768) / 65536
}

/// Weights that sum to [`LUMA_ONE`] map a neutral grey to itself, for every grey level.
pub proof fn lemma_neutral_grey_is_fixed(g: nat, wr: nat, wg: nat, wb: nat)
    requires
        wr + wg + wb == 65536,
    ensures
        luma_of(g, g, g, wr, wg, wb) == g,
{
    assert(wr * g + wg * g + wb * g == 65536 * g) by (nonlinear_arith)
        requires
            wr + wg + wb == 65536,
    ;
    assert((65536 * g + 32768) / 65536 == g) by (nonlinear_arith);
}

/// With weights summing to [`LUMA_ONE`], the luma of 16-bit channels fits 16 bits.
pub proof fn lemma_luma_fits(r: nat, g: nat, b: nat, wr: nat, wg: nat, wb: nat)
    requires
        wr + wg + wb == 65536,
        r <= 65535,
        g <= 65535,
        b <= 65535,
    ensures
        luma_of(r, g, b, wr, wg, wb) <= 65535,
        wr * r + wg * g + wb * b <= 65536 * 65535,
{
    assert(wr * r + wg * g + wb * b <= 65536 * 65535) by (nonlinear_arith)
        requires
            wr + wg + wb == 65536,
            r <= 65535,
            g <= 65535,
            b <= 65535,
    ;
}

} // verus!
