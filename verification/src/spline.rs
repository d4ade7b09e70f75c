//! Catmull-Rom interpolation over a history of pointer samples.
//!
//! All values are fixed-point integers: a coordinate unit is 1/1000 of a
//! canvas pixel, and the local time parameter of a curve segment runs from
//! `0` to `FP`.  The curve uses the classic Catmull-Rom basis with tension
//! 1/2 over the four control points surrounding the queried index, clamped
//! to the ends of the history so no index is ever out of bounds.

use vstd::arithmetic::div_mod::lemma_div_multiples_vanish;
use vstd::prelude::*;

verus! {

/// Fixed-point scale: 1000 fixed-point units make one canvas pixel, and a
/// segment's local time parameter runs from 0 to FP.
pub const FP: i64 = 1000;

/// Denominator of the Catmull-Rom basis below: 2 * FP * FP * FP.
pub const CR_DENOM: i64 = 2_000_000_000;

/// Largest magnitude a stored coordinate may have (10_000 pixels).
pub const COORD_LIMIT: i64 = 10_000_000;

/// The four Catmull-Rom basis polynomials with tension 1/2, each scaled by
/// 2 * FP^3 so that they are integers: for t in [0, FP] the curve value is
/// (p0*weight0 + p1*weight1 + p2*weight2 + p3*weight3) / (2 * FP^3).
pub open spec fn weight0(t: int) -> int {
    -(t * (FP * FP) as int) + 2 * t * t * (FP as int) - t * t * t
}

pub open spec fn weight1(t: int) -> int {
    2 * (FP * FP * FP) as int - 5 * t * t * (FP as int) + 3 * t * t * t
}

pub open spec fn weight2(t: int) -> int {
    t * (FP * FP) as int + 4 * t * t * (FP as int) - 3 * t * t * t
}

pub open spec fn weight3(t: int) -> int {
    -(t * t * (FP as int)) + t * t * t
}

/// Numerator of the curve value over control points p0..p3 at local time t.
pub open spec fn catmull_rom_num(p0: int, p1: int, p2: int, p3: int, t: int) -> int {
    p0 * weight0(t) + p1 * weight1(t) + p2 * weight2(t) + p3 * weight3(t)
}

/// The interpolated value itself, rounded towards minus infinity.
pub open spec fn catmull_rom(p0: int, p1: int, p2: int, p3: int, t: int) -> int {
    catmull_rom_num(p0, p1, p2, p3, t) / (CR_DENOM as int)
}

/// The control point at position i, clamped to the ends of the history.
pub open spec fn clamped(points: Seq<(i64, i64)>, i: int) -> (i64, i64)
    recommends
        points.len() >= 1,
{
    if i < 0 {
        points[0]
    } else if i >= points.len() {
        points[points.len() - 1]
    } else {
        points[i]
    }
}

/// X coordinate of the curve at fractional index i + t/FP.
pub open spec fn interp_x(points: Seq<(i64, i64)>, i: int, t: int) -> int {
    catmull_rom(
        clamped(points, i - 1).0 as int,
        clamped(points, i).0 as int,
        clamped(points, i + 1).0 as int,
        clamped(points, i + 2).0 as int,
        t,
    )
}

/// Y coordinate of the curve at fractional index i + t/FP.
pub open spec fn interp_y(points: Seq<(i64, i64)>, i: int, t: int) -> int {
    catmull_rom(
        clamped(points, i - 1).1 as int,
        clamped(points, i).1 as int,
        clamped(points, i + 1).1 as int,
        clamped(points, i + 2).1 as int,
        t,
    )
}

/// A coordinate pair small enough for the interpolation arithmetic.
pub open spec fn coord_ok(p: (i64, i64)) -> bool {
    &&& -COORD_LIMIT <= p.0 <= COORD_LIMIT
    &&& -COORD_LIMIT <= p.1 <= COORD_LIMIT
}

/// An ordered history of pointer samples serving as spline control points.
pub struct Spline {
    points: Vec<(i64, i64)>,
}

impl View for Spline {
    type V = Seq<(i64, i64)>;

    closed spec fn view(&self) -> Seq<(i64, i64)> {
        self.points@
    }
}

impl Spline {
    /// Every stored sample is within the interpolation arithmetic's range.
    pub open spec fn wf(self) -> bool {
        forall|i: int| 0 <= i < self@.len() ==> coord_ok(#[trigger] self@[i])
    }

    pub fn new() -> (s: Spline)
        ensures
            s@ =~= Seq::<(i64, i64)>::empty(),
            s.wf(),
    {
        Spline { points: Vec::new() }
    }

    pub fn add_point(&mut self, x: i64, y: i64)
        requires
            old(self).wf(),
            coord_ok((x, y)),
        ensures
            final(self)@ == old(self)@.push((x, y)),
            final(self).wf(),
    {
        self.points.push((x, y));
        proof {
            assert forall|i: int| 0 <= i < self@.len() implies coord_ok(#[trigger] self@[i]) by {
                if i < old(self)@.len() {
                    assert(self@[i] == old(self)@[i]);
                }
            }
        }
    }

    pub fn clear(&mut self)
        ensures
            final(self)@ =~= Seq::<(i64, i64)>::empty(),
            final(self).wf(),
    {
        self.points.clear();
    }

    pub fn len(&self) -> (n: usize)
        ensures
            n == self@.len(),
    {
        self.points.len()
    }

    /// The sample at position i.
    pub fn point_at(&self, i: usize) -> (p: (i64, i64))
        requires
            i < self@.len(),
        ensures
            p == self@[i as int],
    {
        self.points[i]
    }

    /// The curve point at fractional index i + t/FP, with the four
    /// surrounding control points clamped to the ends of the history.
    pub fn interpolate_point(&self, i: usize, t: i64) -> (p: (i64, i64))
        requires
            self.wf(),
            self@.len() >= 1,
            0 <= t <= FP,
        ensures
            p.0 as int == interp_x(self@, i as int, t as int),
            p.1 as int == interp_y(self@, i as int, t as int),
    {
        let l = self.points.len() - 1;
        let p1 = if i < l {
            i
        } else {
            l
        };
        let p2 = if i < l {
            i + 1
        } else {
            l
        };
        let p3 = if i < l && i + 1 < l {
            i + 2
        } else {
            l
        };
        let p0 = if i >= 1 {
            if i - 1 < l {
                i - 1
            } else {
                l
            }
        } else {
            0
        };
        let a = self.points[p0];
        let b = self.points[p1];
        let c = self.points[p2];
        let d = self.points[p3];
        proof {
            assert(a == clamped(self@, i as int - 1));
            assert(b == clamped(self@, i as int));
            assert(c == clamped(self@, i as int + 1));
            assert(d == clamped(self@, i as int + 2));
        }
        let x = catmull_axis(a.0, b.0, c.0, d.0, t);
        let y = catmull_axis(a.1, b.1, c.1, d.1, t);
        (x, y)
    }
}

/// One axis of the Catmull-Rom evaluation, in overflow-checked i64
/// arithmetic.
fn catmull_axis(p0: i64, p1: i64, p2: i64, p3: i64, t: i64) -> (r: i64)
    requires
        -COORD_LIMIT <= p0 <= COORD_LIMIT,
        -COORD_LIMIT <= p1 <= COORD_LIMIT,
        -COORD_LIMIT <= p2 <= COORD_LIMIT,
        -COORD_LIMIT <= p3 <= COORD_LIMIT,
        0 <= t <= FP,
    ensures
        r as int == catmull_rom(p0 as int, p1 as int, p2 as int, p3 as int, t as int),
{
    proof {
        assert(t * t <= 1_000_000 && t * t >= 0) by (nonlinear_arith)
            requires
                0 <= t <= 1000,
        ;
        assert(t * t * t <= 1_000_000_000 && t * t * t >= 0) by (nonlinear_arith)
            requires
                0 <= t <= 1000,
        ;
    }
    let tt: i64 = t * t;
    let ttt: i64 = tt * t;
    let w0: i64 = 2 * tt * FP - t * (FP * FP) - ttt;
    let w1: i64 = 2 * (FP * FP * FP) + 3 * ttt - 5 * tt * FP;
    let w2: i64 = t * (FP * FP) + 4 * tt * FP - 3 * ttt;
    let w3: i64 = ttt - tt * FP;
    proof {
        assert(w0 == weight0(t as int) && w1 == weight1(t as int) && w2 == weight2(t as int)
            && w3 == weight3(t as int)) by (nonlinear_arith)
            requires
                tt == t * t,
                ttt == tt * t,
                w0 == 2 * tt * 1000 - t * 1_000_000 - ttt,
                w1 == 2_000_000_000 + 3 * ttt - 5 * tt * 1000,
                w2 == t * 1_000_000 + 4 * tt * 1000 - 3 * ttt,
                w3 == ttt - tt * 1000,
        ;
        assert(-(2_000_000_000 as i64) <= w0 <= 2_000_000_000) by {
            assert(0 <= tt <= 1_000_000 && 0 <= ttt <= 1_000_000_000 && 0 <= t <= 1000);
        }
        lemma_mul_range(p0 as int, w0 as int, COORD_LIMIT as int, 2_000_000_000);
        lemma_mul_range(p1 as int, w1 as int, COORD_LIMIT as int, 5_000_000_000);
        lemma_mul_range(p2 as int, w2 as int, COORD_LIMIT as int, 5_000_000_000);
        lemma_mul_range(p3 as int, w3 as int, COORD_LIMIT as int, 1_000_000_000);
    }
    let num: i64 = p0 * w0 + p1 * w1 + p2 * w2 + p3 * w3;
    let r = match num.checked_div_euclid(CR_DENOM) {
        Some(v) => v,
        None => 0,
    };
    proof {
        lemma_div_in_range(num as int, CR_DENOM as int, 130_000_000_000_000_000);
        assert(r as int == catmull_rom(p0 as int, p1 as int, p2 as int, p3 as int, t as int));
    }
    r
}

/// |a| <= bound_a and |b| <= bound_b give |a * b| <= bound_a * bound_b.
proof fn lemma_mul_range(a: int, b: int, bound_a: int, bound_b: int)
    requires
        -bound_a <= a <= bound_a,
        -bound_b <= b <= bound_b,
        0 <= bound_a,
        0 <= bound_b,
    ensures
        -(bound_a * bound_b) <= a * b <= bound_a * bound_b,
{
    assert(-(bound_a * bound_b) <= a * b <= bound_a * bound_b) by (nonlinear_arith)
        requires
            -bound_a <= a <= bound_a,
            -bound_b <= b <= bound_b,
            0 <= bound_a,
            0 <= bound_b,
    ;
}

/// A quotient with a bounded numerator and a positive denominator stays
/// within the numerator's bounds.
proof fn lemma_div_in_range(num: int, d: int, bound: int)
    requires
        0 < d,
        0 <= bound,
        -bound <= num <= bound,
    ensures
        -bound <= num / d <= bound,
{
    assert(bound <= bound * d && -bound * d <= -bound) by (nonlinear_arith)
        requires
            0 < d,
            0 <= bound,
    ;
    vstd::arithmetic::div_mod::lemma_div_is_ordered(num, bound * d, d);
    vstd::arithmetic::div_mod::lemma_div_is_ordered(-bound * d, num, d);
    lemma_div_multiples_vanish(bound, d);
    lemma_div_multiples_vanish(-bound, d);
    assert(d * bound == bound * d && d * -bound == -bound * d) by (nonlinear_arith);
}

/// At a whole integer index within the history, the curve passes exactly
/// through the control point there: the local time 0 picks out the second
/// of the four surrounding points with full weight.
pub proof fn lemma_integer_index_is_control_point(points: Seq<(i64, i64)>, i: int)
    requires
        points.len() >= 1,
        0 <= i < points.len(),
    ensures
        interp_x(points, i, 0) == clamped(points, i).0 as int,
        interp_y(points, i, 0) == clamped(points, i).1 as int,
{
    let p1x = clamped(points, i).0 as int;
    let p1y = clamped(points, i).1 as int;
    assert(weight0(0) == 0 && weight1(0) == 2_000_000_000 && weight2(0) == 0 && weight3(0) == 0);
    lemma_mul_by_denom(p1x);
    lemma_mul_by_denom(p1y);
}

/// At local time FP the curve has reached the third surrounding control
/// point: segments glue together continuously.
pub proof fn lemma_segment_end_is_next_point(points: Seq<(i64, i64)>, i: int)
    requires
        points.len() >= 1,
    ensures
        interp_x(points, i, FP as int) == clamped(points, i + 1).0 as int,
        interp_y(points, i, FP as int) == clamped(points, i + 1).1 as int,
{
    let p2x = clamped(points, i + 1).0 as int;
    let p2y = clamped(points, i + 1).1 as int;
    assert(weight0(1000) == 0 && weight1(1000) == 0 && weight2(1000) == 2_000_000_000 && weight3(
        1000,
    ) == 0) by (nonlinear_arith);
    lemma_mul_by_denom(p2x);
    lemma_mul_by_denom(p2y);
}

/// p * CR_DENOM divided by CR_DENOM is p again.
proof fn lemma_mul_by_denom(p: int)
    ensures
        (p * 2_000_000_000) / (CR_DENOM as int) == p,
        (p * 2_000_000_000 + 0 + 0 + 0) / (CR_DENOM as int) == p,
{
    lemma_div_multiples_vanish(p, 2_000_000_000);
    assert(2_000_000_000 * p == p * 2_000_000_000) by (nonlinear_arith);
}

} // verus!
