//! Line rasterization.
//!
//! A rasterizer turns a continuous segment between two fixed-point endpoints
//! into a finite sequence of (pixel, coverage-weight) samples.  The trait
//! [`LineAlgorithm`] is the capability the planner consumes; [`GridRaytrace`]
//! is the default implementation, an integer error-term grid walk that visits
//! every cell the segment passes through with full weight.

use vstd::prelude::*;
use crate::fixed::{PixelIntensity, POS_MAX, SCALE};

verus! {

/// Anchor coordinates measured in whole pixels stay within this bound.
pub const PIX_MAX: i64 = 1_000_000;

/// Absolute value on mathematical integers.
pub open spec fn spec_abs(d: int) -> int {
    if d < 0 {
        -d
    } else {
        d
    }
}

/// Sign on mathematical integers.
pub open spec fn spec_sgn(d: int) -> int {
    if d > 0 {
        1
    } else if d < 0 {
        -1
    } else {
        0
    }
}

/// Fixed-point coordinate truncated towards zero to a whole pixel index.
pub open spec fn spec_to_pixel(v: int) -> int {
    if v >= 0 {
        v / (SCALE as int)
    } else {
        -((-v) / (SCALE as int))
    }
}

/// One step of the grid walk from pixel `(X0, Y0)` to pixel `(X1, Y1)`:
/// a positive error term takes an `x` step, otherwise a `y` step.
pub open spec fn walk_step(x0: int, y0: int, x1: int, y1: int, s: (int, int, int)) -> (int, int, int) {
    let dx = spec_abs(x1 - x0);
    let dy = spec_abs(y1 - y0);
    let sx = spec_sgn(x1 - x0);
    let sy = spec_sgn(y1 - y0);
    if s.2 > 0 {
        (s.0 + sx, s.1, s.2 - 2 * dy)
    } else {
        (s.0, s.1 + sy, s.2 + 2 * dx)
    }
}

/// State (x, y, error) of the grid walk after `i` steps.
pub open spec fn walk(x0: int, y0: int, x1: int, y1: int, i: nat) -> (int, int, int)
    decreases i,
{
    if i == 0 {
        (x0, y0, spec_abs(x1 - x0) - spec_abs(y1 - y0))
    } else {
        walk_step(x0, y0, x1, y1, walk(x0, y0, x1, y1, (i - 1) as nat))
    }
}

/// The grid walk between the pixels under two fixed-point endpoints,
/// emitting every visited cell with full weight.
pub open spec fn grid_samples(x0: i64, y0: i64, x1: i64, y1: i64) -> Seq<PixelIntensity> {
    let px0 = spec_to_pixel(x0 as int);
    let py0 = spec_to_pixel(y0 as int);
    let px1 = spec_to_pixel(x1 as int);
    let py1 = spec_to_pixel(y1 as int);
    let n = 1 + spec_abs(px1 - px0) + spec_abs(py1 - py0);
    Seq::new(
        n as nat,
        |i: int|
            {
                let s = walk(px0, py0, px1, py1, i as nat);
                ((s.0 as i64, s.1 as i64), SCALE as u64)
            },
    )
}

/// Shape of every reachable walk state: the walk has taken `p` steps in `x`
/// and `q` steps in `y`, the error term is determined by `p` and `q`, and
/// while the walk is still running the error stays within `(-2*dy, 2*dx]`.
pub open spec fn walk_inv(x0: int, y0: int, x1: int, y1: int, i: nat) -> bool {
    let dx = spec_abs(x1 - x0);
    let dy = spec_abs(y1 - y0);
    let sx = spec_sgn(x1 - x0);
    let sy = spec_sgn(y1 - y0);
    let s = walk(x0, y0, x1, y1, i);
    let p = (s.0 - x0) * sx;
    let q = (s.1 - y0) * sy;
    &&& s.0 - x0 == sx * p
    &&& s.1 - y0 == sy * q
    &&& 0 <= p <= dx
    &&& 0 <= q <= dy
    &&& p + q == i
    &&& s.2 == dx - dy - 2 * dy * p + 2 * dx * q
    &&& (dx + dy >= 1 ==> -2 * dy < s.2 <= 2 * dx)
}

/// Every state up to the end of the walk satisfies [`walk_inv`].
pub proof fn lemma_walk_invariant(x0: int, y0: int, x1: int, y1: int, i: nat)
    requires
        i <= spec_abs(x1 - x0) + spec_abs(y1 - y0),
    ensures
        walk_inv(x0, y0, x1, y1, i),
    decreases i,
{
    let dx = spec_abs(x1 - x0);
    let dy = spec_abs(y1 - y0);
    let sx = spec_sgn(x1 - x0);
    let sy = spec_sgn(y1 - y0);
    if i == 0 {
        let s = walk(x0, y0, x1, y1, 0);
        assert(s == (x0, y0, dx - dy));
        assert((s.0 - x0) * sx == 0) by (nonlinear_arith)
            requires
                s.0 == x0,
        ;
        assert((s.1 - y0) * sy == 0) by (nonlinear_arith)
            requires
                s.1 == y0,
        ;
    } else {
        lemma_walk_invariant(x0, y0, x1, y1, (i - 1) as nat);
        let t = walk(x0, y0, x1, y1, (i - 1) as nat);
        let s = walk(x0, y0, x1, y1, i);
        let p = (t.0 - x0) * sx;
        let q = (t.1 - y0) * sy;
        assert(p + q == i - 1);
        if t.2 > 0 {
            // An `x` step: the error formula forces `p < dx`.
            assert(p < dx) by (nonlinear_arith)
                requires
                    t.2 == dx - dy - 2 * dy * p + 2 * dx * q,
                    t.2 > 0,
                    0 <= p <= dx,
                    0 <= q <= dy,
                    p + q < dx + dy,
                    dx == spec_abs(x1 - x0),
                    dy == spec_abs(y1 - y0),
            ;
            assert(dx >= 1);
            assert(sx == 1 || sx == -1);
            assert(s == (t.0 + sx, t.1, t.2 - 2 * dy));
            assert((s.0 - x0) * sx == p + 1 && s.0 - x0 == sx * (p + 1)) by (nonlinear_arith)
                requires
                    t.0 - x0 == sx * p,
                    s.0 == t.0 + sx,
                    sx == 1 || sx == -1,
            ;
            assert(s.2 == dx - dy - 2 * dy * (p + 1) + 2 * dx * q) by (nonlinear_arith)
                requires
                    s.2 == t.2 - 2 * dy,
                    t.2 == dx - dy - 2 * dy * p + 2 * dx * q,
            ;
            assert(-2 * dy < s.2 <= 2 * dx) by (nonlinear_arith)
                requires
                    s.2 == t.2 - 2 * dy,
                    t.2 > 0,
                    t.2 <= 2 * dx,
                    dy >= 0,
            ;
        } else {
            // A `y` step: the error formula forces `q < dy`.
            assert(q < dy) by (nonlinear_arith)
                requires
                    t.2 == dx - dy - 2 * dy * p + 2 * dx * q,
                    t.2 <= 0,
                    0 <= p <= dx,
                    0 <= q <= dy,
                    p + q < dx + dy,
            ;
            assert(dy >= 1);
            assert(sy == 1 || sy == -1);
            assert(s == (t.0, t.1 + sy, t.2 + 2 * dx));
            assert((s.1 - y0) * sy == q + 1 && s.1 - y0 == sy * (q + 1)) by (nonlinear_arith)
                requires
                    t.1 - y0 == sy * q,
                    s.1 == t.1 + sy,
                    sy == 1 || sy == -1,
            ;
            assert(s.2 == dx - dy - 2 * dy * p + 2 * dx * (q + 1)) by (nonlinear_arith)
                requires
                    s.2 == t.2 + 2 * dx,
                    t.2 == dx - dy - 2 * dy * p + 2 * dx * q,
            ;
            assert(-2 * dy < s.2 <= 2 * dx) by (nonlinear_arith)
                requires
                    s.2 == t.2 + 2 * dx,
                    t.2 <= 0,
                    -2 * dy < t.2,
                    dx >= 0,
            ;
        }
    }
}

/// The walk ends exactly on the target pixel, with the error term back at
/// its initial value.
pub proof fn lemma_walk_end(x0: int, y0: int, x1: int, y1: int)
    ensures
        ({
            let m = spec_abs(x1 - x0) + spec_abs(y1 - y0);
            let s = walk(x0, y0, x1, y1, m as nat);
            s.0 == x1 && s.1 == y1 && s.2 == spec_abs(x1 - x0) - spec_abs(y1 - y0)
        }),
{
    let dx = spec_abs(x1 - x0);
    let dy = spec_abs(y1 - y0);
    let sx = spec_sgn(x1 - x0);
    let sy = spec_sgn(y1 - y0);
    let m = dx + dy;
    lemma_walk_invariant(x0, y0, x1, y1, m as nat);
    let s = walk(x0, y0, x1, y1, m as nat);
    let p = (s.0 - x0) * sx;
    let q = (s.1 - y0) * sy;
    assert(p == dx && q == dy);
    assert(sx * dx == x1 - x0) by (nonlinear_arith)
        requires
            sx == spec_sgn(x1 - x0),
            dx == spec_abs(x1 - x0),
    ;
    assert(sy * dy == y1 - y0) by (nonlinear_arith)
        requires
            sy == spec_sgn(y1 - y0),
            dy == spec_abs(y1 - y0),
    ;
    assert(s.2 == dx - dy) by (nonlinear_arith)
        requires
            s.2 == dx - dy - 2 * dy * p + 2 * dx * q,
            p == dx,
            q == dy,
    ;
}

/// Walking the same segment backwards mirrors every state through the
/// midpoint of the endpoints, with an identical error term.
proof fn lemma_walk_swap(x0: int, y0: int, x1: int, y1: int, i: nat)
    ensures
        walk(x1, y1, x0, y0, i) == {
            let s = walk(x0, y0, x1, y1, i);
            (x0 + x1 - s.0, y0 + y1 - s.1, s.2)
        },
    decreases i,
{
    assert(spec_abs(x0 - x1) == spec_abs(x1 - x0));
    assert(spec_abs(y0 - y1) == spec_abs(y1 - y0));
    assert(spec_sgn(x0 - x1) == -spec_sgn(x1 - x0));
    assert(spec_sgn(y0 - y1) == -spec_sgn(y1 - y0));
    if i > 0 {
        lemma_walk_swap(x0, y0, x1, y1, (i - 1) as nat);
    }
}

/// When the error term never hits an exact tie, the forward walk is its own
/// point reflection: states `i` and `m - i` mirror each other.
proof fn lemma_walk_mirror(x0: int, y0: int, x1: int, y1: int, i: nat)
    requires
        forall|j: int|
            0 <= j < spec_abs(x1 - x0) + spec_abs(y1 - y0) ==> (#[trigger] walk(
                x0,
                y0,
                x1,
                y1,
                j as nat,
            )).2 != 0,
        i <= spec_abs(x1 - x0) + spec_abs(y1 - y0),
    ensures
        ({
            let m = spec_abs(x1 - x0) + spec_abs(y1 - y0);
            let s = walk(x0, y0, x1, y1, i);
            let t = walk(x0, y0, x1, y1, (m - i) as nat);
            s.2 + t.2 == 2 * (spec_abs(x1 - x0) - spec_abs(y1 - y0)) && s.0 + t.0 == x0 + x1
                && s.1 + t.1 == y0 + y1
        }),
    decreases i,
{
    let dx = spec_abs(x1 - x0);
    let dy = spec_abs(y1 - y0);
    let m = dx + dy;
    if i == 0 {
        lemma_walk_end(x0, y0, x1, y1);
    } else {
        lemma_walk_mirror(x0, y0, x1, y1, (i - 1) as nat);
        let j = m - i;
        let p = walk(x0, y0, x1, y1, (i - 1) as nat);
        let s = walk(x0, y0, x1, y1, i);
        let q = walk(x0, y0, x1, y1, j as nat);
        let t = walk(x0, y0, x1, y1, (j + 1) as nat);
        assert(t == walk_step(x0, y0, x1, y1, q));
        assert(s == walk_step(x0, y0, x1, y1, p));
        lemma_walk_invariant(x0, y0, x1, y1, j as nat);
        lemma_walk_invariant(x0, y0, x1, y1, (i - 1) as nat);
        assert(q.2 != 0);
        assert(p.2 != 0);
        if p.2 > 0 && q.2 <= 0 {
            // a `y` step opposite an `x` step would push the error below its
            // reachable range
            assert(t.2 == q.2 + 2 * dx);
            assert(q.2 == -2 * dy - p.2);
            assert(false);
        }
        if p.2 <= 0 && q.2 > 0 {
            // symmetric: the error would hit the top of its range, which
            // forces the excluded exact tie
            assert(t.2 == q.2 - 2 * dy);
            assert(q.2 == 2 * dx - p.2);
            assert(q.2 <= 2 * dx);
            assert(p.2 == 0);
            assert(false);
        }
    }
}

/// No step of the grid walk between the pixels under the two endpoints hits
/// an exact error tie.
pub open spec fn no_error_tie(x0: i64, y0: i64, x1: i64, y1: i64) -> bool {
    let px0 = spec_to_pixel(x0 as int);
    let py0 = spec_to_pixel(y0 as int);
    let px1 = spec_to_pixel(x1 as int);
    let py1 = spec_to_pixel(y1 as int);
    forall|j: int|
        0 <= j < spec_abs(px1 - px0) + spec_abs(py1 - py0) ==> (#[trigger] walk(
            px0,
            py0,
            px1,
            py1,
            j as nat,
        )).2 != 0
}

/// Rasterization symmetry: when no error tie occurs along the walk,
/// rasterizing the reverse segment yields exactly the reversed sample
/// sequence.
pub proof fn lemma_raytrace_symmetry(x0: i64, y0: i64, x1: i64, y1: i64)
    requires
        no_error_tie(x0, y0, x1, y1),
    ensures
        grid_samples(x1, y1, x0, y0) == grid_samples(x0, y0, x1, y1).reverse(),
{
    let px0 = spec_to_pixel(x0 as int);
    let py0 = spec_to_pixel(y0 as int);
    let px1 = spec_to_pixel(x1 as int);
    let py1 = spec_to_pixel(y1 as int);
    let dx = spec_abs(px1 - px0);
    let dy = spec_abs(py1 - py0);
    let m = dx + dy;
    let fwd = grid_samples(x0, y0, x1, y1);
    let bwd = grid_samples(x1, y1, x0, y0);
    assert(spec_abs(px0 - px1) == dx && spec_abs(py0 - py1) == dy);
    assert(bwd.len() == m + 1 && fwd.len() == m + 1);
    assert forall|i: int| 0 <= i <= m implies bwd[i] == fwd[m - i] by {
        lemma_walk_swap(px0, py0, px1, py1, i as nat);
        lemma_walk_mirror(px0, py0, px1, py1, i as nat);
        let s = walk(px0, py0, px1, py1, i as nat);
        let t = walk(px0, py0, px1, py1, (m - i) as nat);
        assert(walk(px1, py1, px0, py0, i as nat) == (px0 + px1 - s.0, py0 + py1 - s.1, s.2));
        assert(s.0 + t.0 == px0 + px1 && s.1 + t.1 == py0 + py1);
        assert(bwd[i] == (((px0 + px1 - s.0) as i64, (py0 + py1 - s.1) as i64), SCALE as u64));
        assert(fwd[m - i] == ((t.0 as i64, t.1 as i64), SCALE as u64));
    }
    assert(bwd =~= fwd.reverse());
}

/// A segment whose pixel spans differ in parity (an odd total cell count
/// minus one) never hits an error tie, so its rasterization is symmetric.
pub proof fn lemma_odd_span_no_tie(x0: i64, y0: i64, x1: i64, y1: i64)
    requires
        ({
            let px0 = spec_to_pixel(x0 as int);
            let py0 = spec_to_pixel(y0 as int);
            let px1 = spec_to_pixel(x1 as int);
            let py1 = spec_to_pixel(y1 as int);
            (spec_abs(px1 - px0) + spec_abs(py1 - py0)) % 2 == 1
        }),
    ensures
        no_error_tie(x0, y0, x1, y1),
{
    let px0 = spec_to_pixel(x0 as int);
    let py0 = spec_to_pixel(y0 as int);
    let px1 = spec_to_pixel(x1 as int);
    let py1 = spec_to_pixel(y1 as int);
    let dx = spec_abs(px1 - px0);
    let dy = spec_abs(py1 - py0);
    assert forall|j: int| 0 <= j < dx + dy implies (#[trigger] walk(px0, py0, px1, py1, j as nat)).2
        != 0 by {
        lemma_walk_parity(px0, py0, px1, py1, j as nat);
        let e = walk(px0, py0, px1, py1, j as nat).2;
        if e == 0 {
            assert((dx - dy) % 2 == 0);
            assert((dx + dy) - (dx - dy) == 2 * dy);
            vstd::arithmetic::div_mod::lemma_mod_multiples_vanish(dy, dx - dy, 2);
            assert((dx + dy) % 2 == (dx - dy) % 2);
        }
    }
}

/// The walk's error term always keeps the parity of `dx - dy`.
proof fn lemma_walk_parity(x0: int, y0: int, x1: int, y1: int, j: nat)
    ensures
        (walk(x0, y0, x1, y1, j).2 - (spec_abs(x1 - x0) - spec_abs(y1 - y0))) % 2 == 0,
    decreases j,
{
    let dx = spec_abs(x1 - x0);
    let dy = spec_abs(y1 - y0);
    if j > 0 {
        lemma_walk_parity(x0, y0, x1, y1, (j - 1) as nat);
        let p = walk(x0, y0, x1, y1, (j - 1) as nat);
        let s = walk(x0, y0, x1, y1, j);
        if p.2 > 0 {
            assert(s.2 - (dx - dy) == (p.2 - (dx - dy)) + 2 * (-dy));
            vstd::arithmetic::div_mod::lemma_mod_multiples_vanish(-dy, p.2 - (dx - dy), 2);
        } else {
            assert(s.2 - (dx - dy) == (p.2 - (dx - dy)) + 2 * dx);
            vstd::arithmetic::div_mod::lemma_mod_multiples_vanish(dx, p.2 - (dx - dy), 2);
        }
    }
}

/// Truncates a fixed-point coordinate towards zero to its pixel index.
fn to_pixel(v: i64) -> (p: i64)
    requires
        -POS_MAX <= v <= POS_MAX,
    ensures
        p == spec_to_pixel(v as int),
        -PIX_MAX <= p <= PIX_MAX,
{
    if v >= 0 {
        proof {
            vstd::arithmetic::div_mod::lemma_div_is_ordered(v as int, POS_MAX as int, SCALE as int);
            vstd::arithmetic::div_mod::lemma_div_is_ordered(0, v as int, SCALE as int);
        }
        ((v as u64) / (SCALE as u64)) as i64
    } else {
        let m = -v;
        proof {
            vstd::arithmetic::div_mod::lemma_div_is_ordered(m as int, POS_MAX as int, SCALE as int);
            vstd::arithmetic::div_mod::lemma_div_is_ordered(0, m as int, SCALE as int);
        }
        -(((m as u64) / (SCALE as u64)) as i64)
    }
}

/// Rasterizes the segment between two fixed-point endpoints as the grid walk
/// over every cell the segment passes through, each with full weight.
pub fn grid_raytrace(x0: i64, y0: i64, x1: i64, y1: i64) -> (r: Vec<PixelIntensity>)
    requires
        -POS_MAX <= x0 <= POS_MAX,
        -POS_MAX <= y0 <= POS_MAX,
        -POS_MAX <= x1 <= POS_MAX,
        -POS_MAX <= y1 <= POS_MAX,
    ensures
        r@ == grid_samples(x0, y0, x1, y1),
{
    let px0 = to_pixel(x0);
    let py0 = to_pixel(y0);
    let px1 = to_pixel(x1);
    let py1 = to_pixel(y1);
    let dx = if px1 >= px0 {
        px1 - px0
    } else {
        px0 - px1
    };
    let dy = if py1 >= py0 {
        py1 - py0
    } else {
        py0 - py1
    };
    let sx: i64 = if px1 > px0 {
        1
    } else if px1 < px0 {
        -1
    } else {
        0
    };
    let sy: i64 = if py1 > py0 {
        1
    } else if py1 < py0 {
        -1
    } else {
        0
    };
    let n = 1 + dx + dy;
    let two_dx = 2 * dx;
    let two_dy = 2 * dy;
    let mut x = px0;
    let mut y = py0;
    let mut e = dx - dy;
    let mut out: Vec<PixelIntensity> = Vec::new();
    let mut i: i64 = 0;
    while i < n
        invariant
            0 <= i <= n,
            n == 1 + spec_abs(px1 as int - px0 as int) + spec_abs(py1 as int - py0 as int),
            dx == spec_abs(px1 as int - px0 as int),
            dy == spec_abs(py1 as int - py0 as int),
            sx == spec_sgn(px1 as int - px0 as int),
            sy == spec_sgn(py1 as int - py0 as int),
            two_dx == 2 * dx,
            two_dy == 2 * dy,
            -PIX_MAX <= px0 <= PIX_MAX,
            -PIX_MAX <= py0 <= PIX_MAX,
            -PIX_MAX <= px1 <= PIX_MAX,
            -PIX_MAX <= py1 <= PIX_MAX,
            i < n ==> (x as int, y as int, e as int) == walk(
                px0 as int,
                py0 as int,
                px1 as int,
                py1 as int,
                i as nat,
            ),
            out@.len() == i,
            forall|j: int|
                0 <= j < i ==> out@[j] == ({
                    let s = walk(px0 as int, py0 as int, px1 as int, py1 as int, j as nat);
                    ((s.0 as i64, s.1 as i64), SCALE as u64)
                }),
        decreases n - i,
    {
        proof {
            lemma_walk_invariant(px0 as int, py0 as int, px1 as int, py1 as int, i as nat);
        }
        out.push(((x, y), SCALE as u64));
        if e > 0 {
            x = x + sx;
            e = e - two_dy;
        } else {
            y = y + sy;
            e = e + two_dx;
        }
        i = i + 1;
    }
    proof {
        assert(out@ =~= grid_samples(x0, y0, x1, y1));
    }
    out
}

/// A strategy turning a continuous segment into rasterized pixel samples.
///
/// `samples` is the mathematical content of the strategy; `trace` computes
/// it.  Every emitted coverage weight lies in `[0, SCALE]`.
pub trait LineAlgorithm: Sized {
    /// The sample sequence the strategy assigns to the segment.
    spec fn samples(self, x0: i64, y0: i64, x1: i64, y1: i64) -> Seq<PixelIntensity>;

    /// Computes the sample sequence of the segment from `(x0, y0)` to
    /// `(x1, y1)`, both in fixed-point image coordinates.
    fn trace(&self, x0: i64, y0: i64, x1: i64, y1: i64) -> (r: Vec<PixelIntensity>)
        requires
            -POS_MAX <= x0 <= POS_MAX,
            -POS_MAX <= y0 <= POS_MAX,
            -POS_MAX <= x1 <= POS_MAX,
            -POS_MAX <= y1 <= POS_MAX,
        ensures
            r@ == self.samples(x0, y0, x1, y1),
            forall|j: int| 0 <= j < r@.len() ==> (#[trigger] r@[j]).1 <= SCALE as u64,
    ;
}

/// The default rasterizer: the integer grid walk of [`grid_raytrace`].
pub struct GridRaytrace;

impl LineAlgorithm for GridRaytrace {
    open spec fn samples(self, x0: i64, y0: i64, x1: i64, y1: i64) -> Seq<PixelIntensity> {
        grid_samples(x0, y0, x1, y1)
    }

    fn trace(&self, x0: i64, y0: i64, x1: i64, y1: i64) -> (r: Vec<PixelIntensity>) {
        let r = grid_raytrace(x0, y0, x1, y1);
        proof {
            assert forall|j: int| 0 <= j < r@.len() implies (#[trigger] r@[j]).1 <= SCALE as u64 by {
                assert(r@[j].1 == SCALE as u64);
            }
        }
        r
    }
}

} // verus!
