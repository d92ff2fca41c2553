//! Curve evaluation: a decoded chain is a scale/offset header followed by a
//! flattened chain of cubic Bezier segments with shared boundary points
//! (stride six between segment starts). All coordinates are raw fixed-point
//! counts, [`FIXED_ONE`] raw units per 1.0. The curve parameter t runs over
//! [0, [`T_ONE`]] in its own fixed-point scale, so a Bezier position carries
//! the combined scale `T_ONE^3` times the raw unit.

use vstd::prelude::*;

use crate::chain::decode;
use crate::chain::spec_decode;
use crate::chain::MAX_RAW_MAGNITUDE;
use vstd::arithmetic::div_mod::lemma_div_basics;
use vstd::arithmetic::div_mod::lemma_div_by_multiple;
use vstd::arithmetic::div_mod::lemma_div_is_ordered;
use vstd::arithmetic::div_mod::lemma_div_is_ordered_by_denominator;
use vstd::string::StringSliceAdditionalSpecFns;

verus! {

/// Raw fixed-point units per 1.0: the encoding's own scale factor.
pub const FIXED_ONE: i64 = 10000000;

/// Fixed-point unit of the curve parameter t: two to the twentieth power.
pub const T_ONE: i64 = 1048576;

/// `T_ONE` squared.
pub const T_SQUARE: i128 = 1099511627776;

/// `T_ONE` cubed: the scale a Bezier position carries beyond raw units.
pub const T_CUBE: i128 = 1152921504606846976;

/// Solve tolerance on x, in raw units: one millionth of 1.0.
pub const X_TOLERANCE_RAW: i64 = 10;

/// Jitter applied to the target per retry, in raw units: 0.0001.
pub const JITTER_RAW: i64 = 1000;

/// One cubic Bezier segment: start point, start handle, end handle, end
/// point, all in raw curve-local coordinates.
#[derive(Clone, Copy, PartialEq, Eq, Structural, Debug)]
pub struct BezierSegment {
    pub x0: i64,
    pub y0: i64,
    pub x1: i64,
    pub y1: i64,
    pub x2: i64,
    pub y2: i64,
    pub x3: i64,
    pub y3: i64,
}

/// Magnitude of an integer.
pub open spec fn iabs(x: int) -> int {
    if x < 0 {
        -x
    } else {
        x
    }
}

/// Quotient of `n` by `d` with the fraction truncated toward zero.
pub open spec fn div_trunc_spec(n: int, d: int) -> int
    recommends
        d != 0,
{
    if (n < 0) == (d < 0) {
        iabs(n) / iabs(d)
    } else {
        -(iabs(n) / iabs(d))
    }
}

/// Bernstein basis weights at fixed-point t, scaled by `T_ONE^3`.
pub open spec fn wt0(t: int) -> int {
    (((T_ONE as int) - t) * ((T_ONE as int) - t)) * ((T_ONE as int) - t)
}

pub open spec fn wt1(t: int) -> int {
    (3 * (((T_ONE as int) - t) * ((T_ONE as int) - t))) * t
}

pub open spec fn wt2(t: int) -> int {
    (3 * ((T_ONE as int) - t)) * (t * t)
}

pub open spec fn wt3(t: int) -> int {
    t * (t * t)
}

/// x-position of the segment's cubic at fixed-point t, scaled by `T_ONE^3`.
pub open spec fn bez_x(s: BezierSegment, t: int) -> int {
    wt0(t) * s.x0 + wt1(t) * s.x1 + wt2(t) * s.x2 + wt3(t) * s.x3
}

/// y-position of the segment's cubic at fixed-point t, scaled by `T_ONE^3`.
pub open spec fn bez_y(s: BezierSegment, t: int) -> int {
    wt0(t) * s.y0 + wt1(t) * s.y1 + wt2(t) * s.y2 + wt3(t) * s.y3
}

/// Derivative weights at fixed-point t, scaled by `T_ONE^2`.
pub open spec fn dw0(t: int) -> int {
    ((-3) * ((T_ONE as int) - t)) * ((T_ONE as int) - t)
}

pub open spec fn dw1(t: int) -> int {
    (3 * ((T_ONE as int) - t)) * (((T_ONE as int) - t) - 2 * t)
}

pub open spec fn dw2(t: int) -> int {
    (3 * t) * (2 * ((T_ONE as int) - t) - t)
}

pub open spec fn dw3(t: int) -> int {
    (3 * t) * t
}

/// x-derivative of the segment's cubic at fixed-point t, scaled by `T_ONE^2`.
pub open spec fn dbez_x(s: BezierSegment, t: int) -> int {
    dw0(t) * s.x0 + dw1(t) * s.x1 + dw2(t) * s.x2 + dw3(t) * s.x3
}

/// y-derivative of the segment's cubic at fixed-point t, scaled by `T_ONE^2`.
pub open spec fn dbez_y(s: BezierSegment, t: int) -> int {
    dw0(t) * s.y0 + dw1(t) * s.y1 + dw2(t) * s.y2 + dw3(t) * s.y3
}

/// The product of two bounded factors is bounded by the product of the
/// bounds.
proof fn lemma_mul_bound(a: int, b: int, am: int, bm: int)
    by (nonlinear_arith)
    requires
        -am <= a <= am,
        -bm <= b <= bm,
        0 <= am,
        0 <= bm,
    ensures
        -(am * bm) <= a * b <= am * bm,
{
}

/// Truncated division toward zero, as the reference encoding's float
/// division behaves on exact raw counts.
fn div_trunc(n: i128, d: i128) -> (q: i128)
    requires
        d != 0,
        n > i128::MIN,
        d > i128::MIN,
    ensures
        q == div_trunc_spec(n as int, d as int),
        iabs(q as int) <= iabs(n as int),
{
    let na: u128 = if n < 0 {
        (-n) as u128
    } else {
        n as u128
    };
    let da: u128 = if d < 0 {
        (-d) as u128
    } else {
        d as u128
    };
    let qa: u128 = na / da;
    proof {
        lemma_div_basics(na as int);
        lemma_div_is_ordered_by_denominator(na as int, 1, da as int);
        assert(qa <= na);
    }
    let qi: i128 = qa as i128;
    if (n < 0) != (d < 0) {
        -qi
    } else {
        qi
    }
}

/// Evaluates the cubic's position at fixed-point t: the pair of its x and y
/// components, each scaled by `T_ONE^3`.
pub fn get_point_on_curve_at_t(segment: &BezierSegment, t: i64) -> (r: (i128, i128))
    requires
        0 <= t <= T_ONE,
    ensures
        r.0 == bez_x(*segment, t as int),
        r.1 == bez_y(*segment, t as int),
{
    let tt: i128 = t as i128;
    let mt: i128 = (T_ONE - t) as i128;
    proof {
        assert(0 <= tt <= 1048576 && 0 <= mt <= 1048576);
        lemma_mul_bound(mt as int, mt as int, 1048576, 1048576);
        lemma_mul_bound(tt as int, tt as int, 1048576, 1048576);
    }
    let mt2: i128 = mt * mt;
    let t2: i128 = tt * tt;
    proof {
        lemma_mul_bound(mt2 as int, mt as int, 1099511627776, 1048576);
        lemma_mul_bound(3 * (mt2 as int), tt as int, 3298534883328, 1048576);
        lemma_mul_bound(3 * (mt as int), t2 as int, 3145728, 1099511627776);
        lemma_mul_bound(tt as int, t2 as int, 1048576, 1099511627776);
    }
    let a: i128 = mt2 * mt;
    let b: i128 = (3 * mt2) * tt;
    let c: i128 = (3 * mt) * t2;
    let d: i128 = tt * t2;
    proof {
        assert(a == wt0(t as int) && b == wt1(t as int) && c == wt2(t as int) && d == wt3(
            t as int,
        ));
        lemma_mul_bound(a as int, segment.x0 as int, 0x1000000000000000, 0x8000000000000000);
        lemma_mul_bound(b as int, segment.x1 as int, 0x3000000000000000, 0x8000000000000000);
        lemma_mul_bound(c as int, segment.x2 as int, 0x3000000000000000, 0x8000000000000000);
        lemma_mul_bound(d as int, segment.x3 as int, 0x1000000000000000, 0x8000000000000000);
        lemma_mul_bound(a as int, segment.y0 as int, 0x1000000000000000, 0x8000000000000000);
        lemma_mul_bound(b as int, segment.y1 as int, 0x3000000000000000, 0x8000000000000000);
        lemma_mul_bound(c as int, segment.y2 as int, 0x3000000000000000, 0x8000000000000000);
        lemma_mul_bound(d as int, segment.y3 as int, 0x1000000000000000, 0x8000000000000000);
    }
    let x: i128 = a * (segment.x0 as i128) + b * (segment.x1 as i128) + c * (segment.x2 as i128)
        + d * (segment.x3 as i128);
    let y: i128 = a * (segment.y0 as i128) + b * (segment.y1 as i128) + c * (segment.y2 as i128)
        + d * (segment.y3 as i128);
    (x, y)
}

/// Evaluates the cubic's derivative at fixed-point t: the pair of its x and
/// y components, each scaled by `T_ONE^2`.
pub fn get_derivative_at_t(segment: &BezierSegment, t: i64) -> (r: (i128, i128))
    requires
        0 <= t <= T_ONE,
    ensures
        r.0 == dbez_x(*segment, t as int),
        r.1 == dbez_y(*segment, t as int),
        iabs(r.0 as int) <= 24 * (T_SQUARE as int) * 0x8000000000000000,
{
    let tt: i128 = t as i128;
    let mt: i128 = (T_ONE - t) as i128;
    proof {
        lemma_mul_bound((-3) * (mt as int), mt as int, 3145728, 1048576);
        lemma_mul_bound(3 * (mt as int), (mt as int) - 2 * (tt as int), 3145728, 3145728);
        lemma_mul_bound(3 * (tt as int), 2 * (mt as int) - (tt as int), 3145728, 3145728);
        lemma_mul_bound(3 * (tt as int), tt as int, 3145728, 1048576);
    }
    let a: i128 = ((-3) * mt) * mt;
    let b: i128 = (3 * mt) * (mt - 2 * tt);
    let c: i128 = (3 * tt) * (2 * mt - tt);
    let d: i128 = (3 * tt) * tt;
    proof {
        assert(a == dw0(t as int) && b == dw1(t as int) && c == dw2(t as int) && d == dw3(
            t as int,
        ));
        lemma_mul_bound(a as int, segment.x0 as int, 0x30000000000, 0x8000000000000000);
        lemma_mul_bound(b as int, segment.x1 as int, 0x90000000000, 0x8000000000000000);
        lemma_mul_bound(c as int, segment.x2 as int, 0x90000000000, 0x8000000000000000);
        lemma_mul_bound(d as int, segment.x3 as int, 0x30000000000, 0x8000000000000000);
        lemma_mul_bound(a as int, segment.y0 as int, 0x30000000000, 0x8000000000000000);
        lemma_mul_bound(b as int, segment.y1 as int, 0x90000000000, 0x8000000000000000);
        lemma_mul_bound(c as int, segment.y2 as int, 0x90000000000, 0x8000000000000000);
        lemma_mul_bound(d as int, segment.y3 as int, 0x30000000000, 0x8000000000000000);
    }
    let x: i128 = a * (segment.x0 as i128) + b * (segment.x1 as i128) + c * (segment.x2 as i128)
        + d * (segment.x3 as i128);
    let y: i128 = a * (segment.y0 as i128) + b * (segment.y1 as i128) + c * (segment.y2 as i128)
        + d * (segment.y3 as i128);
    (x, y)
}

/// At any t in range the Bernstein weights are non-negative and sum to
/// exactly `T_ONE^3`, so a Bezier position stays within the hull of its
/// control coordinates.
proof fn lemma_weights(t: int)
    requires
        0 <= t <= (T_ONE as int),
    ensures
        wt0(t) >= 0,
        wt1(t) >= 0,
        wt2(t) >= 0,
        wt3(t) >= 0,
        wt0(t) + wt1(t) + wt2(t) + wt3(t) == T_CUBE as int,
{
    let u: int = (T_ONE as int) - t;
    assert((u * u) * u >= 0 && (3 * (u * u)) * t >= 0 && (3 * u) * (t * t) >= 0 && t * (t * t)
        >= 0) by (nonlinear_arith)
        requires
            0 <= t && 0 <= u;
    assert((u * u) * u + (3 * (u * u)) * t + (3 * u) * (t * t) + t * (t * t) == (u + t) * ((u + t)
        * (u + t))) by (nonlinear_arith);
    assert(u + t == 1048576);
    assert((u + t) * ((u + t) * (u + t)) == 1048576 * (1048576 * 1048576));
}

/// Hull bound for the y-position: control coordinates within `m` keep the
/// scaled position within `T_ONE^3 * m`.
proof fn lemma_bez_y_hull(s: BezierSegment, t: int, m: int)
    requires
        0 <= t <= (T_ONE as int),
        0 <= m,
        -m <= s.y0 <= m,
        -m <= s.y1 <= m,
        -m <= s.y2 <= m,
        -m <= s.y3 <= m,
    ensures
        -((T_CUBE as int) * m) <= bez_y(s, t) <= (T_CUBE as int) * m,
{
    lemma_weights(t);
    lemma_convex_sum(
        wt0(t),
        wt1(t),
        wt2(t),
        wt3(t),
        s.y0 as int,
        s.y1 as int,
        s.y2 as int,
        s.y3 as int,
        m,
        T_CUBE as int,
    );
}

/// A non-negative weighting that sums to `s` keeps a weighted sum of values
/// bounded by `m` within `s * m`.
proof fn lemma_convex_sum(
    w0: int,
    w1: int,
    w2: int,
    w3: int,
    a0: int,
    a1: int,
    a2: int,
    a3: int,
    m: int,
    s: int,
)
    requires
        w0 >= 0,
        w1 >= 0,
        w2 >= 0,
        w3 >= 0,
        w0 + w1 + w2 + w3 == s,
        0 <= m,
        -m <= a0 <= m,
        -m <= a1 <= m,
        -m <= a2 <= m,
        -m <= a3 <= m,
    ensures
        -(s * m) <= w0 * a0 + w1 * a1 + w2 * a2 + w3 * a3 <= s * m,
{
    lemma_weighted_term(w0, a0, m);
    lemma_weighted_term(w1, a1, m);
    lemma_weighted_term(w2, a2, m);
    lemma_weighted_term(w3, a3, m);
    assert((w0 + w1 + w2 + w3) * m == w0 * m + w1 * m + w2 * m + w3 * m) by (nonlinear_arith);
}

/// One weighted term stays within the weight times the bound.
proof fn lemma_weighted_term(w: int, a: int, m: int)
    by (nonlinear_arith)
    requires
        w >= 0,
        -m <= a <= m,
    ensures
        -(w * m) <= w * a <= w * m,
{
}

/// Hull bound for the x-position: control coordinates within `m` keep the
/// scaled position within `T_ONE^3 * m`.
proof fn lemma_bez_x_hull(s: BezierSegment, t: int, m: int)
    requires
        0 <= t <= (T_ONE as int),
        0 <= m,
        -m <= s.x0 <= m,
        -m <= s.x1 <= m,
        -m <= s.x2 <= m,
        -m <= s.x3 <= m,
    ensures
        -((T_CUBE as int) * m) <= bez_x(s, t) <= (T_CUBE as int) * m,
{
    lemma_weights(t);
    lemma_convex_sum(
        wt0(t),
        wt1(t),
        wt2(t),
        wt3(t),
        s.x0 as int,
        s.x1 as int,
        s.x2 as int,
        s.x3 as int,
        m,
        T_CUBE as int,
    );
}

/// Whether fixed-point t solves the segment for target raw x within the
/// solve tolerance: the scaled x-position differs from the scaled target by
/// at most `X_TOLERANCE_RAW` raw units.
pub open spec fn solved(seg: BezierSegment, t: int, adjx: int) -> bool {
    iabs(bez_x(seg, t) - adjx * (T_CUBE as int)) <= (X_TOLERANCE_RAW as int) * (T_CUBE as int)
}

/// Starting t of the Newton solve: the middle of the t range.
pub const T_HALF: i64 = 524288;

/// One Newton step from fixed-point t toward raw target `x`: move by the
/// truncated ratio of the x-difference to the x-derivative when the
/// derivative is not negligible, then clamp t into range; otherwise stay.
pub open spec fn newton_step(seg: BezierSegment, t: int, x: int) -> int {
    let diff = x * (T_CUBE as int) - bez_x(seg, t);
    let dx = dbez_x(seg, t);
    if iabs(dx) > 10 * (T_SQUARE as int) {
        let tn = t + div_trunc_spec(diff, dx);
        if tn < 0 {
            0
        } else if tn > T_ONE as int {
            T_ONE as int
        } else {
            tn
        }
    } else {
        t
    }
}

/// The Newton iteration: checks the current t, steps while fuel remains,
/// and answers the first t that meets the solve tolerance, or nothing once
/// the fuel is spent.
pub open spec fn newton_iter(seg: BezierSegment, t: int, x: int, fuel: nat) -> Option<int>
    decreases fuel,
{
    if fuel == 0 {
        None
    } else if solved(seg, t, x) {
        Some(t)
    } else {
        newton_iter(seg, newton_step(seg, t, x), x, (fuel - 1) as nat)
    }
}

/// The bisection iteration: probes the midpoint of [low, high], answers it
/// when it meets the tolerance, otherwise keeps the half whose far endpoint
/// lies on the other side of the target, until the fuel is spent.
pub open spec fn bisect_iter(
    seg: BezierSegment,
    x: int,
    tol: int,
    low: int,
    high: int,
    fuel: nat,
) -> Option<int>
    decreases fuel,
{
    if fuel == 0 {
        None
    } else {
        let mid = (low + high) / 2;
        if iabs(bez_x(seg, mid) - x * (T_CUBE as int)) <= tol * (T_CUBE as int) {
            Some(mid)
        } else if (bez_x(seg, mid) > x * (T_CUBE as int)) != (bez_x(seg, low) > x * (T_CUBE as int)) {
            bisect_iter(seg, x, tol, low, mid, (fuel - 1) as nat)
        } else {
            bisect_iter(seg, x, tol, mid, high, (fuel - 1) as nat)
        }
    }
}

/// Newton-Raphson solve for the fixed-point t whose x-position meets the
/// raw target `x`: starts at the middle of the t range, steps by the ratio
/// of the x-difference to the x-derivative while the derivative is not
/// negligible, clamps t into range after every step, and gives up after
/// fifteen iterations.
#[verifier::loop_isolation(false)]
pub fn get_t_at_x(segment: &BezierSegment, x: i64) -> (r: Option<i64>)
    ensures
        r is Some <==> newton_iter(*segment, T_HALF as int, x as int, 15) is Some,
        r matches Some(t) ==> newton_iter(*segment, T_HALF as int, x as int, 15) == Some(t as int),
        r matches Some(t) ==> 0 <= t <= T_ONE && solved(*segment, t as int, x as int),
{
    proof {
        lemma_mul_bound(x as int, T_CUBE as int, 0x8000000000000000, 0x1000000000000000);
    }
    let target: i128 = (x as i128) * T_CUBE;
    let mut t: i64 = T_HALF;
    let mut count: u32 = 0;
    while count < 15
        invariant
            0 <= t <= T_ONE,
            0 <= count <= 15,
            newton_iter(*segment, T_HALF as int, x as int, 15) == newton_iter(
                *segment,
                t as int,
                x as int,
                (15 - count) as nat,
            ),
        decreases 15 - count,
    {
        let p = get_point_on_curve_at_t(segment, t);
        proof {
            lemma_bez_x_hull(*segment, t as int, 0x8000000000000000);
        }
        let diff: i128 = target - p.0;
        if -(10 * T_CUBE) <= diff && diff <= 10 * T_CUBE {
            proof {
                assert(solved(*segment, t as int, x as int));
                assert(newton_iter(*segment, t as int, x as int, (15 - count) as nat) == Some(
                    t as int,
                ));
            }
            return Some(t);
        }
        assert(!solved(*segment, t as int, x as int));
        let dv = get_derivative_at_t(segment, t);
        let dx = dv.0;
        let ghost t_old: int = t as int;
        if dx > 10 * T_SQUARE || dx < -(10 * T_SQUARE) {
            let step: i128 = div_trunc(diff, dx);
            let tn: i128 = (t as i128) + step;
            t = if tn < 0 {
                0
            } else if tn > 1048576 {
                T_ONE
            } else {
                tn as i64
            };
        }
        proof {
            assert(t as int == newton_step(*segment, t_old, x as int));
            assert(newton_iter(*segment, t_old, x as int, (15 - count) as nat) == newton_iter(
                *segment,
                t as int,
                x as int,
                (15 - (count + 1)) as nat,
            ));
        }
        count += 1;
    }
    None
}

/// Bisection fallback for the same solve, after the Chromium cubic-bezier
/// scheme: halves the bracket [0, T_ONE], keeping the half whose endpoint
/// lies on the other side of the target, within the given iteration budget
/// and raw-unit tolerance.
#[verifier::loop_isolation(false)]
pub fn get_t_at_x_alternative(
    segment: &BezierSegment,
    x: i64,
    tolerance: i64,
    max_iterations: usize,
) -> (r: Option<i64>)
    requires
        0 <= tolerance,
    ensures
        r is Some <==> bisect_iter(
            *segment,
            x as int,
            tolerance as int,
            0,
            T_ONE as int,
            max_iterations as nat,
        ) is Some,
        r matches Some(t) ==> bisect_iter(
            *segment,
            x as int,
            tolerance as int,
            0,
            T_ONE as int,
            max_iterations as nat,
        ) == Some(t as int),
        r matches Some(t) ==> 0 <= t <= T_ONE && iabs(
            bez_x(*segment, t as int) - (x as int) * (T_CUBE as int),
        ) <= (tolerance as int) * (T_CUBE as int),
{
    proof {
        lemma_mul_bound(x as int, T_CUBE as int, 0x8000000000000000, 0x1000000000000000);
        lemma_mul_bound(tolerance as int, T_CUBE as int, 0x8000000000000000, 0x1000000000000000);
    }
    let target: i128 = (x as i128) * T_CUBE;
    let tol: i128 = (tolerance as i128) * T_CUBE;
    let mut low: i64 = 0;
    let mut high: i64 = T_ONE;
    let mut iter: usize = 0;
    while iter < max_iterations
        invariant
            0 <= low <= T_ONE,
            0 <= high <= T_ONE,
            0 <= iter <= max_iterations,
            bisect_iter(*segment, x as int, tolerance as int, 0, T_ONE as int, max_iterations as nat)
                == bisect_iter(
                *segment,
                x as int,
                tolerance as int,
                low as int,
                high as int,
                (max_iterations - iter) as nat,
            ),
        decreases max_iterations - iter,
    {
        let mid: i64 = (((low as u64) + (high as u64)) / 2) as i64;
        assert(mid as int == (low as int + high as int) / 2);
        let p = get_point_on_curve_at_t(segment, mid);
        proof {
            lemma_bez_x_hull(*segment, mid as int, 0x8000000000000000);
        }
        let diff: i128 = p.0 - target;
        if -tol <= diff && diff <= tol {
            proof {
                assert(bisect_iter(
                    *segment,
                    x as int,
                    tolerance as int,
                    low as int,
                    high as int,
                    (max_iterations - iter) as nat,
                ) == Some(mid as int));
            }
            return Some(mid);
        }
        let pa = get_point_on_curve_at_t(segment, low);
        let ghost low_old: int = low as int;
        let ghost high_old: int = high as int;
        if (p.0 > target) != (pa.0 > target) {
            high = mid;
        } else {
            low = mid;
        }
        proof {
            assert(bisect_iter(
                *segment,
                x as int,
                tolerance as int,
                low_old,
                high_old,
                (max_iterations - iter) as nat,
            ) == bisect_iter(
                *segment,
                x as int,
                tolerance as int,
                low as int,
                high as int,
                (max_iterations - (iter + 1)) as nat,
            ));
        }
        iter += 1;
    }
    None
}

/// Magnitude of the chain's x scale factor.
pub open spec fn scx_abs(c: Seq<i64>) -> int {
    iabs(c[0] as int)
}

/// Numerator of the curve-local x the query maps to: the exact rational
/// local x is `lx_num / (scx_abs * FIXED_ONE)`, from
/// `x_local = scaled_x / scale_x - offset_x` on raw counts.
pub open spec fn lx_num(c: Seq<i64>, sx: int) -> int {
    if c[0] as int >= 0 {
        sx * (FIXED_ONE as int) - (c[2] as int) * (c[0] as int)
    } else {
        -(sx * (FIXED_ONE as int) - (c[2] as int) * (c[0] as int))
    }
}

/// The local x is at least the raw coordinate `v`.
pub open spec fn x_ge(c: Seq<i64>, sx: int, v: int) -> bool {
    lx_num(c, sx) >= v * scx_abs(c)
}

/// The local x is at most the raw coordinate `v`.
pub open spec fn x_le(c: Seq<i64>, sx: int, v: int) -> bool {
    lx_num(c, sx) <= v * scx_abs(c)
}

/// The local x lies within the chain's stored x range, first to last point,
/// inclusive on both ends.
pub open spec fn in_domain(c: Seq<i64>, sx: int) -> bool {
    x_ge(c, sx, c[4] as int) && x_le(c, sx, c[c.len() - 2] as int)
}

/// Whether the stored point starting at index `i` is an exact hit: its x
/// differs from the local x by less than one part in ten to the fifteenth
/// of 1.0 (raw counts make that `1e8` raw-unit parts).
pub open spec fn is_hit(c: Seq<i64>, sx: int, i: int) -> bool {
    iabs((c[i] as int) * scx_abs(c) - lx_num(c, sx)) * 100000000 < scx_abs(c)
}

/// First stored point at stride six from `i` that the local x hits exactly.
pub open spec fn first_hit_from(c: Seq<i64>, sx: int, i: int) -> Option<int>
    decreases c.len() + 6 - i,
{
    if i + 1 >= c.len() {
        None
    } else if is_hit(c, sx, i) {
        Some(i)
    } else {
        first_hit_from(c, sx, i + 6)
    }
}

/// Whether the segment starting at index `i` brackets the local x.
pub open spec fn in_seg(c: Seq<i64>, sx: int, i: int) -> bool {
    x_ge(c, sx, c[i] as int) && x_le(c, sx, c[i + 6] as int)
}

/// First segment start at stride six from `i` that brackets the local x.
pub open spec fn first_seg_from(c: Seq<i64>, sx: int, i: int) -> Option<int>
    decreases c.len() + 6 - i,
{
    if i + 7 >= c.len() {
        None
    } else if in_seg(c, sx, i) {
        Some(i)
    } else {
        first_seg_from(c, sx, i + 6)
    }
}

/// The segment whose eight coordinates start at chain index `i`.
pub open spec fn seg_at(c: Seq<i64>, i: int) -> BezierSegment {
    BezierSegment {
        x0: c[i],
        y0: c[i + 1],
        x1: c[i + 2],
        y1: c[i + 3],
        x2: c[i + 4],
        y2: c[i + 5],
        x3: c[i + 6],
        y3: c[i + 7],
    }
}

/// Maps a raw curve-local y to external space:
/// `y_external = (y_local + offset_y) * scale_y`, on raw counts with the
/// fraction truncated.
pub open spec fn ext_spec(v: int, scy: int, oy: int) -> int {
    div_trunc_spec((v + oy) * scy, FIXED_ONE as int)
}

/// The raw rounding of the local x, the root-finding target.
pub open spec fn xr_spec(c: Seq<i64>, sx: int) -> int {
    div_trunc_spec(lx_num(c, sx), scx_abs(c))
}

/// The target after `k` jitter retries: nudged down when at or beyond 1.0,
/// up otherwise, by `JITTER_RAW` raw units per retry.
pub open spec fn adj_spec(xr: int, k: int) -> int {
    if xr >= FIXED_ONE as int {
        xr - (JITTER_RAW as int) * k
    } else {
        xr + (JITTER_RAW as int) * k
    }
}

/// Converts a raw curve-local y value to the external coordinate space.
/// (The reference normalizes a negative floating-point zero here; integer
/// raw counts have a single zero, so nothing is left to normalize.)
fn to_external_coordinate(value: i128, scale_y: i64, offset_y: i64) -> (r: i128)
    requires
        iabs(value as int) <= MAX_RAW_MAGNITUDE as int,
        iabs(scale_y as int) <= MAX_RAW_MAGNITUDE as int,
        iabs(offset_y as int) <= MAX_RAW_MAGNITUDE as int,
    ensures
        r == ext_spec(value as int, scale_y as int, offset_y as int),
{
    let sum: i128 = value + (offset_y as i128);
    proof {
        lemma_mul_bound(sum as int, scale_y as int, 18014398509481984, 9007199254740992);
    }
    let prod: i128 = sum * (scale_y as i128);
    div_trunc(prod, 10000000)
}

/// One solve attempt at a jittered target: Newton first, bisection as the
/// fallback with the standard tolerance and a budget of one hundred probes.
pub open spec fn attempt_t(seg: BezierSegment, adjx: int) -> Option<int> {
    match newton_iter(seg, T_HALF as int, adjx, 15) {
        Some(t) => Some(t),
        None => bisect_iter(seg, adjx, X_TOLERANCE_RAW as int, 0, T_ONE as int, 100),
    }
}

/// The retry loop from attempt `k`: the first attempt whose jittered target
/// solves wins, and its number and t are the answer; after ten attempts
/// there is none.
pub open spec fn solve_from(seg: BezierSegment, xr: int, k: int) -> Option<(int, int)>
    decreases 10 - k,
{
    if k >= 10 {
        None
    } else {
        match attempt_t(seg, adj_spec(xr, k)) {
            Some(t) => Some((k, t)),
            None => solve_from(seg, xr, k + 1),
        }
    }
}

/// Finds the y value for a given external x along the chain.
///
/// The chain is a raw fixed-point sequence: indices 0 to 3 hold
/// `scale_x, scale_y, offset_x, offset_y`, the rest the flattened point
/// sequence. Chains shorter than eight values have no value anywhere. The
/// external x is mapped to curve-local space exactly
/// (`x = scaled_x / scale_x - offset_x`, as a rational on raw counts);
/// outside the stored x range there is no value. A stored point whose x the
/// local x hits exactly answers immediately with that point's y; otherwise
/// the first bracketing segment is solved for t, retrying with a jittered
/// target, and the y there is mapped back to external space. Zero scale
/// factors are a fatal misconfiguration and are excluded outright.
#[verifier::loop_isolation(false)]
pub fn query_curve(chain: &Vec<i64>, scaled_x: i64) -> (r: Option<i128>)
    requires
        forall|i: int| 0 <= i < chain@.len() ==> iabs(#[trigger] chain@[i] as int)
            <= MAX_RAW_MAGNITUDE as int,
        iabs(scaled_x as int) <= MAX_RAW_MAGNITUDE as int,
        chain@.len() + 8 <= usize::MAX,
        chain@.len() >= 8 ==> chain@[0] != 0 && chain@[1] != 0,
    ensures
        chain@.len() < 8 ==> r is None,
        chain@.len() >= 8 && !in_domain(chain@, scaled_x as int) ==> r is None,
        first_hit_from(chain@, scaled_x as int, 4) matches Some(i) ==> (chain@.len() >= 8
            && in_domain(chain@, scaled_x as int) ==> r is Some && r->Some_0 == ext_spec(
            chain@[i + 1] as int,
            chain@[1] as int,
            chain@[3] as int,
        )),
        chain@.len() >= 8 && in_domain(chain@, scaled_x as int) && first_hit_from(
            chain@,
            scaled_x as int,
            4,
        ) is None && first_seg_from(chain@, scaled_x as int, 4) is None ==> r is None,
        first_seg_from(chain@, scaled_x as int, 4) matches Some(i) ==> (chain@.len() >= 8
            && in_domain(chain@, scaled_x as int) && first_hit_from(chain@, scaled_x as int, 4)
            is None ==> match solve_from(seg_at(chain@, i), xr_spec(chain@, scaled_x as int), 0) {
            Some(kt) => r is Some && r->Some_0 == ext_spec(
                div_trunc_spec(bez_y(seg_at(chain@, i), kt.1), T_CUBE as int),
                chain@[1] as int,
                chain@[3] as int,
            ),
            None => r is None,
        }),
{
    let n: usize = chain.len();
    if n < 8 {
        return None;
    }
    let ghost c = chain@;
    let ghost sx = scaled_x as int;
    let scale_x: i64 = chain[0];
    let scale_y: i64 = chain[1];
    let offset_x: i64 = chain[2];
    let offset_y: i64 = chain[3];

    // exact rational local x: num over (|scale_x| * FIXED_ONE)
    let a64: i64 = if scale_x < 0 {
        -scale_x
    } else {
        scale_x
    };
    let a: i128 = a64 as i128;
    proof {
        assert(a == scx_abs(c));
        lemma_mul_bound(scaled_x as int, FIXED_ONE as int, 9007199254740992, 10000000);
        lemma_mul_bound(offset_x as int, scale_x as int, 9007199254740992, 9007199254740992);
    }
    let sxs: i128 = (scaled_x as i128) * (FIXED_ONE as i128);
    let oxscx: i128 = (offset_x as i128) * (scale_x as i128);
    let rawnum: i128 = sxs - oxscx;
    let num: i128 = if scale_x >= 0 {
        rawnum
    } else {
        -rawnum
    };
    assert(num == lx_num(c, sx));

    // domain bound check against the first and last stored x
    let first_x: i64 = chain[4];
    let last_x: i64 = chain[n - 2];
    proof {
        lemma_mul_bound(first_x as int, a as int, 9007199254740992, a as int);
        lemma_mul_bound(last_x as int, a as int, 9007199254740992, a as int);
    }
    let fxa: i128 = (first_x as i128) * a;
    let lxa: i128 = (last_x as i128) * a;
    if num < fxa || num > lxa {
        return None;
    }
    assert(in_domain(c, sx));

    // exact-hit fast path: a stored point whose x the local x hits answers
    // with that point's y, exactly
    let lim: u64 = ((a64 as u64) - 1) / 100000000;
    let mut i: usize = 4;
    while i < n - 1
        invariant
            4 <= i <= n + 4,
            first_hit_from(c, sx, 4) == first_hit_from(c, sx, i as int),
        decreases n + 6 - i,
    {
        proof {
            lemma_mul_bound(c[i as int] as int, a as int, 9007199254740992, a as int);
        }
        let d: i128 = (chain[i] as i128) * a - num;
        let da: i128 = if d < 0 {
            -d
        } else {
            d
        };
        if da <= lim as i128 {
            assert(is_hit(c, sx, i as int));
            let py: i64 = chain[i + 1];
            return Some(to_external_coordinate(py as i128, scale_y, offset_y));
        }
        assert(!is_hit(c, sx, i as int));
        i += 6;
    }
    assert(first_hit_from(c, sx, 4) is None);

    // locate the first segment whose x range brackets the local x
    let mut si: usize = 4;
    while si < n - 7
        invariant
            4 <= si <= n + 4,
            first_seg_from(c, sx, 4) == first_seg_from(c, sx, si as int),
        decreases n + 6 - si,
    {
        proof {
            lemma_mul_bound(c[si as int] as int, a as int, 9007199254740992, a as int);
            lemma_mul_bound(c[si + 6] as int, a as int, 9007199254740992, a as int);
        }
        let sxa: i128 = (chain[si] as i128) * a;
        let exa: i128 = (chain[si + 6] as i128) * a;
        if num >= sxa && num <= exa {
            assert(first_seg_from(c, sx, 4) == Some(si as int));
            let seg = BezierSegment {
                x0: chain[si],
                y0: chain[si + 1],
                x1: chain[si + 2],
                y1: chain[si + 3],
                x2: chain[si + 4],
                y2: chain[si + 5],
                x3: chain[si + 6],
                y3: chain[si + 7],
            };
            assert(seg == seg_at(c, si as int));

            // raw rounding of the local x, the root-finding target
            proof {
                lemma_mul_bound(9007199254740992, a as int, 9007199254740992, a as int);
                lemma_div_is_ordered(iabs(num as int), 9007199254740992 * (a as int), a as int);
                lemma_div_by_multiple(9007199254740992, a as int);
            }
            let xr: i128 = div_trunc(num, a);
            assert(xr == xr_spec(c, sx));
            assert(iabs(xr as int) <= 9007199254740992);
            let xri: i64 = xr as i64;

            let mut attempt: u32 = 0;
            while attempt < 10
                invariant
                    0 <= attempt <= 10,
                    solve_from(seg_at(c, si as int), xr_spec(c, sx), 0) == solve_from(
                        seg_at(c, si as int),
                        xr_spec(c, sx),
                        attempt as int,
                    ),
                decreases 10 - attempt,
            {
                let tweak: i64 = 1000 * (attempt as i64);
                let adjx: i64 = if xri >= FIXED_ONE {
                    xri - tweak
                } else {
                    xri + tweak
                };
                assert(adjx as int == adj_spec(xr_spec(c, sx), attempt as int));
                let nres = get_t_at_x(&seg, adjx);
                let tres: Option<i64> = match nres {
                    Some(tv) => Some(tv),
                    None => get_t_at_x_alternative(&seg, adjx, X_TOLERANCE_RAW, 100),
                };
                proof {
                    match tres {
                        Some(tv) => {
                            assert(attempt_t(seg, adjx as int) == Some(tv as int));
                        },
                        None => {
                            assert(attempt_t(seg, adjx as int) is None);
                        },
                    }
                }
                match tres {
                    Some(tv) => {
                        let p = get_point_on_curve_at_t(&seg, tv);
                        proof {
                            lemma_bez_y_hull(seg, tv as int, MAX_RAW_MAGNITUDE as int);
                            lemma_div_is_ordered(
                                iabs(p.1 as int),
                                (T_CUBE as int) * (MAX_RAW_MAGNITUDE as int),
                                T_CUBE as int,
                            );
                            lemma_div_by_multiple(MAX_RAW_MAGNITUDE as int, T_CUBE as int);
                            vstd::arithmetic::mul::lemma_mul_is_commutative(
                                T_CUBE as int,
                                MAX_RAW_MAGNITUDE as int,
                            );
                        }
                        // the reference snaps a y within 1e-15 of zero to
                        // zero; raw counts are coarser than that, so the
                        // snap cannot change any representable value
                        let y_raw: i128 = div_trunc(p.1, T_CUBE);
                        let result: i128 = to_external_coordinate(y_raw, scale_y, offset_y);
                        proof {
                            assert(first_seg_from(c, sx, 4)->Some_0 == si as int);
                            assert(solve_from(seg_at(c, si as int), xr_spec(c, sx), attempt as int)
                                == Some((attempt as int, tv as int)));
                            assert(result as int == ext_spec(
                                div_trunc_spec(bez_y(seg_at(c, si as int), tv as int), T_CUBE as int),
                                c[1] as int,
                                c[3] as int,
                            ));
                        }
                        return Some(result);
                    },
                    None => {},
                }
                attempt += 1;
            }
            proof {
                assert(solve_from(seg_at(c, si as int), xr_spec(c, sx), attempt as int) is None);
            }
            return None;
        }
        assert(!in_seg(c, sx, si as int));
        si += 6;
    }
    assert(first_seg_from(c, sx, 4) is None);
    None
}

/// Finds the y value for a given external x along an encoded chain.
///
/// Decoding failures are collapsed into "no value" here; the direct
/// [`decode`] entry point is the diagnostic channel. On a chain that
/// decodes, this answers exactly as [`query_curve`] does on the decoded raw
/// values.
pub fn query_encoded_curve(encoded_chain: &str, scaled_x: i64) -> (r: Option<i128>)
    requires
        iabs(scaled_x as int) <= MAX_RAW_MAGNITUDE as int,
        spec_decode(encoded_chain.spec_bytes()) matches Some(vals) ==> (vals.len() >= 8
            ==> vals[0] != 0 && vals[1] != 0),
    ensures
        spec_decode(encoded_chain.spec_bytes()) is None ==> r is None,
        spec_decode(encoded_chain.spec_bytes()) matches Some(vals) ==> {
            &&& vals.len() < 8 ==> r is None
            &&& vals.len() >= 8 && !in_domain(vals, scaled_x as int) ==> r is None
            &&& (first_hit_from(vals, scaled_x as int, 4) matches Some(i) ==> (vals.len() >= 8
                && in_domain(vals, scaled_x as int) ==> r is Some && r->Some_0 == ext_spec(
                vals[i + 1] as int,
                vals[1] as int,
                vals[3] as int,
            )))
            &&& vals.len() >= 8 && in_domain(vals, scaled_x as int) && first_hit_from(
                vals,
                scaled_x as int,
                4,
            ) is None && first_seg_from(vals, scaled_x as int, 4) is None ==> r is None
            &&& (first_seg_from(vals, scaled_x as int, 4) matches Some(i) ==> (vals.len() >= 8
                && in_domain(vals, scaled_x as int) && first_hit_from(vals, scaled_x as int, 4)
                is None ==> match solve_from(seg_at(vals, i), xr_spec(vals, scaled_x as int), 0) {
                Some(kt) => r is Some && r->Some_0 == ext_spec(
                    div_trunc_spec(bez_y(seg_at(vals, i), kt.1), T_CUBE as int),
                    vals[1] as int,
                    vals[3] as int,
                ),
                None => r is None,
            }))
        },
{
    let eb: &[u8] = encoded_chain.as_bytes();
    let ebl: usize = eb.len();
    assert(encoded_chain.spec_bytes().len() == ebl as int);
    match decode(encoded_chain) {
        Ok(chain) => {
            let cl: usize = chain.len();
            assert(cl + 8 <= usize::MAX) by {
                assert(2 * (cl as int) <= ebl as int + 1);
            }
            query_curve(&chain, scaled_x)
        },
        Err(_) => None,
    }
}

/// A decoded chain kept for repeated queries: decoding happens once, at
/// construction, and each query reuses the buffer read-only.
pub struct CurveQuery {
    chain: Vec<i64>,
}

impl View for CurveQuery {
    type V = Seq<i64>;

    closed spec fn view(&self) -> Seq<i64> {
        self.chain@
    }
}

impl CurveQuery {
    /// Answers exactly as [`query_curve`] does on the held raw values.
    pub fn query(&self, scaled_x: i64) -> (r: Option<i128>)
        requires
            forall|i: int| 0 <= i < self@.len() ==> iabs(#[trigger] self@[i] as int)
                <= MAX_RAW_MAGNITUDE as int,
            iabs(scaled_x as int) <= MAX_RAW_MAGNITUDE as int,
            self@.len() + 8 <= usize::MAX,
            self@.len() >= 8 ==> self@[0] != 0 && self@[1] != 0,
        ensures
            self@.len() < 8 ==> r is None,
            self@.len() >= 8 && !in_domain(self@, scaled_x as int) ==> r is None,
            first_hit_from(self@, scaled_x as int, 4) matches Some(i) ==> (self@.len() >= 8
                && in_domain(self@, scaled_x as int) ==> r is Some && r->Some_0 == ext_spec(
                self@[i + 1] as int,
                self@[1] as int,
                self@[3] as int,
            )),
            self@.len() >= 8 && in_domain(self@, scaled_x as int) && first_hit_from(
                self@,
                scaled_x as int,
                4,
            ) is None && first_seg_from(self@, scaled_x as int, 4) is None ==> r is None,
            first_seg_from(self@, scaled_x as int, 4) matches Some(i) ==> (self@.len() >= 8
                && in_domain(self@, scaled_x as int) && first_hit_from(self@, scaled_x as int, 4)
                is None ==> match solve_from(seg_at(self@, i), xr_spec(self@, scaled_x as int), 0) {
                Some(kt) => r is Some && r->Some_0 == ext_spec(
                    div_trunc_spec(bez_y(seg_at(self@, i), kt.1), T_CUBE as int),
                    self@[1] as int,
                    self@[3] as int,
                ),
                None => r is None,
            }),
    {
        query_curve(&self.chain, scaled_x)
    }
}

/// Decodes an encoded chain once and hands back a query object bound to it,
/// or nothing if decoding fails.
pub fn get_encoded_curve_query_function(encoded_chain: &str) -> (r: Option<CurveQuery>)
    ensures
        spec_decode(encoded_chain.spec_bytes()) is None ==> r is None,
        spec_decode(encoded_chain.spec_bytes()) matches Some(vals) ==> r is Some && r->Some_0@
            == vals && (forall|i: int| 0 <= i < vals.len() ==> iabs(#[trigger] vals[i] as int)
            <= MAX_RAW_MAGNITUDE as int) && vals.len() + 8 <= usize::MAX,
{
    let eb: &[u8] = encoded_chain.as_bytes();
    let ebl: usize = eb.len();
    assert(encoded_chain.spec_bytes().len() == ebl as int);
    match decode(encoded_chain) {
        Ok(chain) => {
            let cl: usize = chain.len();
            assert(cl + 8 <= usize::MAX) by {
                assert(2 * (cl as int) <= ebl as int + 1);
            }
            Some(CurveQuery { chain })
        },
        Err(_) => None,
    }
}

} // verus!
