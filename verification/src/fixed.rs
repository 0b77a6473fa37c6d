//! Fixed-point intensity arithmetic.
//!
//! All continuous quantities of the planner (pixel intensities, line
//! opacities, coverage weights, penalty factors, anchor coordinates) are held
//! as integers scaled by [`SCALE`]: the integer `v` stands for the real
//! number `v / SCALE`.  This keeps every computation of the planner exact and
//! lets each one carry a full functional contract.

use vstd::prelude::*;

verus! {

/// Fixed-point unit: the integer `SCALE` stands for the real number `1.0`.
pub const SCALE: i64 = 1_000_000;

/// Largest 8-bit pixel intensity.
pub const MAX_PIXEL: i64 = 255;

/// Upper bound of a residual-buffer entry: a pure black source pixel starts
/// with a debt of `255.0`, and entries only ever decrease.
pub const RES_MAX: i64 = 255 * 1_000_000;

/// Floor of a residual-buffer entry.  Committing a line never drives an entry
/// below this value; the bound keeps all penalty arithmetic within `i64`.
pub const RES_MIN: i64 = -8_000_000_000_000;

/// Upper bound (inclusive) of a lightness-penalty factor: `1_000_000.0`.
pub const LP_MAX: u64 = 1_000_000_000_000;

/// Bound on anchor coordinates (one million pixels in either direction).
pub const POS_MAX: i64 = 1_000_000_000_000;

/// Largest value a single per-sample penalty contribution can take:
/// `LP_MAX * (DELTA_MAX - RES_MIN) / SCALE`.
pub const CONTRIB_MAX: u128 = 8_000_255_000_000_000_000;

/// One rasterizer sample: a pixel position (which may lie outside the image)
/// and a fixed-point coverage weight in `[0, SCALE]`.
pub type PixelIntensity = ((i64, i64), u64);

/// The fixed-point amount a line of internal weight `lw` subtracts from the
/// residual of a pixel it covers with weight `w`.
pub open spec fn spec_delta(w: int, lw: int) -> int {
    w * lw / (SCALE as int)
}

/// Penalty contribution of one sample whose residual is `res`: the adjusted
/// residual when it stays non-negative, and the overshoot scaled by the
/// lightness penalty `lp` when the line would overdraw the pixel.
pub open spec fn spec_contribution(res: int, w: int, lw: int, lp: int) -> int {
    let adjusted = res - spec_delta(w, lw);
    if adjusted < 0 {
        lp * (-adjusted) / (SCALE as int)
    } else {
        adjusted
    }
}

/// `spec_delta` stays within `[0, RES_MAX]` for well-formed inputs.
pub proof fn lemma_delta_bounds(w: int, lw: int)
    by (nonlinear_arith)
    requires
        0 <= w <= SCALE as int,
        0 <= lw < (MAX_PIXEL * SCALE) as int,
    ensures
        0 <= spec_delta(w, lw) <= RES_MAX as int,
{
}

/// A per-sample contribution is non-negative and bounded by `CONTRIB_MAX`.
pub proof fn lemma_contribution_bounds(res: int, w: int, lw: int, lp: int)
    by (nonlinear_arith)
    requires
        RES_MIN as int <= res <= RES_MAX as int,
        0 <= w <= SCALE as int,
        0 <= lw < (MAX_PIXEL * SCALE) as int,
        0 <= lp <= LP_MAX as int,
    ensures
        0 <= spec_contribution(res, w, lw, lp) <= CONTRIB_MAX as int,
{
    lemma_delta_bounds(w, lw);
}

/// Computes `spec_delta` on machine integers.
pub fn delta(w: u64, lw: u64) -> (d: u64)
    requires
        w <= SCALE as u64,
        lw < (MAX_PIXEL * SCALE) as u64,
    ensures
        d == spec_delta(w as int, lw as int),
        d <= RES_MAX as u64,
{
    proof {
        lemma_delta_bounds(w as int, lw as int);
        assert(w * lw <= (SCALE as u64) * ((MAX_PIXEL * SCALE) as u64)) by (nonlinear_arith)
            requires
                w <= SCALE as u64,
                lw <= (MAX_PIXEL * SCALE) as u64,
        ;
    }
    w * lw / (SCALE as u64)
}

} // verus!
