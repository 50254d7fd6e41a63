//! Points and tangents along a segment, which belong to the fill
//! classifier as winding numbers and crossings do.

use vstd::prelude::*;
use crate::error::MeasureError;
use crate::fixed::{UNIT, round_div, round_div_away, div_round_away, div_round_wide, lemma_round_div_bounds, lemma_round_div_scaled, lemma_round_div_shift, lemma_round_div_away_bounds, lemma_round_div_away_exact, lemma_round_div_away_negates};
use crate::geometry::{Point, Vector, Segment, COORD_LIMIT, lerp, lerp_coord, lemma_lerp_bounds};

verus! {

/// One coordinate of the derivative of a quadratic with control values
/// `a`, `b`, `c`: `2(1 - t)(b - a) + 2t(c - b)` at `t / UNIT`, rounded to
/// the nearest whole number, halves away from nought, so that the curve
/// run the other way has the opposite derivative.
pub open spec fn quadratic_slope(a: int, b: int, c: int, t: int) -> int {
    round_div_away(2 * (UNIT - t) * (b - a) + 2 * t * (c - b), UNIT as int)
}

/// Run the other way, a quadratic passes through the same points and has
/// the opposite derivative there.
pub proof fn lemma_quadratic_run_backwards(a: int, b: int, c: int, t: int)
    ensures
        quadratic_value(c, b, a, UNIT - t) == quadratic_value(a, b, c, t),
        quadratic_slope(c, b, a, UNIT - t) == -quadratic_slope(a, b, c, t),
{
    let u = UNIT as int;
    assert(quadratic_sum(c, b, a, u - t) == quadratic_sum(a, b, c, t)) by (nonlinear_arith)
        requires
            quadratic_sum(c, b, a, u - t) == (u - (u - t)) * (u - (u - t)) * c + 2 * (u - t) * (u
                - (u - t)) * b + (u - t) * (u - t) * a,
            quadratic_sum(a, b, c, t) == (u - t) * (u - t) * a + 2 * t * (u - t) * b + t * t * c,
    ;
    assert(2 * (u - (u - t)) * (b - c) + 2 * (u - t) * (a - b) == -(2 * (u - t) * (b - a) + 2 * t
        * (c - b))) by (nonlinear_arith);
    lemma_round_div_away_negates(2 * (u - t) * (b - a) + 2 * t * (c - b), u);
}

/// The sum that a quadratic with control values `a`, `b`, `c` weighs at
/// `t / UNIT`: `(1 - t)^2 a + 2t(1 - t) b + t^2 c`, times `UNIT` squared.
pub open spec fn quadratic_sum(a: int, b: int, c: int, t: int) -> int {
    (UNIT - t) * (UNIT - t) * a + 2 * t * (UNIT - t) * b + t * t * c
}

/// One coordinate of the point of a quadratic at `t / UNIT`:
/// `(1 - t)^2 a + 2t(1 - t) b + t^2 c`, rounded once to the lattice.
pub open spec fn quadratic_value(a: int, b: int, c: int, t: int) -> int {
    round_div(quadratic_sum(a, b, c, t), UNIT * UNIT)
}

/// A point of a quadratic lies between the least and the greatest of its
/// control values, and at its ends on the first and the last of them.
pub proof fn lemma_quadratic_value_bounds(a: int, b: int, c: int, t: int, lo: int, hi: int)
    requires
        0 <= t <= UNIT,
        lo <= a <= hi,
        lo <= b <= hi,
        lo <= c <= hi,
    ensures
        lo <= quadratic_value(a, b, c, t) <= hi,
        lo * (UNIT * UNIT) <= quadratic_sum(a, b, c, t) <= hi * (UNIT * UNIT),
        t == 0 ==> quadratic_value(a, b, c, t) == a,
        t == UNIT ==> quadratic_value(a, b, c, t) == c,
{
    let u = UNIT as int;
    let w0 = (u - t) * (u - t);
    let w1 = 2 * t * (u - t);
    let w2 = t * t;
    assert(w0 >= 0 && w1 >= 0 && w2 >= 0 && w0 + w1 + w2 == u * u) by (nonlinear_arith)
        requires
            w0 == (u - t) * (u - t),
            w1 == 2 * t * (u - t),
            w2 == t * t,
            0 <= t <= u,
    ;
    assert(lo * w0 <= w0 * a <= hi * w0) by (nonlinear_arith)
        requires
            w0 >= 0,
            lo <= a <= hi,
    ;
    assert(lo * w1 <= w1 * b <= hi * w1) by (nonlinear_arith)
        requires
            w1 >= 0,
            lo <= b <= hi,
    ;
    assert(lo * w2 <= w2 * c <= hi * w2) by (nonlinear_arith)
        requires
            w2 >= 0,
            lo <= c <= hi,
    ;
    assert(lo * w0 + lo * w1 + lo * w2 == lo * (u * u) && hi * w0 + hi * w1 + hi * w2 == hi * (u
        * u)) by (nonlinear_arith)
        requires
            w0 + w1 + w2 == u * u,
    ;
    assert(quadratic_sum(a, b, c, t) == w0 * a + w1 * b + w2 * c);
    assert(u * u > 0) by (nonlinear_arith)
        requires
            u > 0,
    ;
    lemma_round_div_bounds(quadratic_sum(a, b, c, t), u * u, lo, hi);
    if t == 0 {
        assert(quadratic_sum(a, b, c, t) == a * (u * u)) by (nonlinear_arith)
            requires
                quadratic_sum(a, b, c, t) == (u - t) * (u - t) * a + 2 * t * (u - t) * b + t * t * c,
                t == 0,
        ;
        lemma_round_div_bounds(quadratic_sum(a, b, c, t), u * u, a, a);
    }
    if t == UNIT {
        assert(quadratic_sum(a, b, c, t) == c * (u * u)) by (nonlinear_arith)
            requires
                quadratic_sum(a, b, c, t) == (u - t) * (u - t) * a + 2 * t * (u - t) * b + t * t * c,
                t == u,
        ;
        lemma_round_div_bounds(quadratic_sum(a, b, c, t), u * u, c, c);
    }
}

/// A quadratic whose control value halves the way from its first to its
/// last value is a line: its points are those of the line from the first
/// to the last, and its slope is their difference.
pub proof fn lemma_quadratic_through_midpoint_is_line(a: int, b: int, c: int, t: int)
    requires
        b - a == c - b,
    ensures
        quadratic_value(a, b, c, t) == lerp(a, c, t),
        quadratic_slope(a, b, c, t) == c - a,
{
    let u = UNIT as int;
    let y = a * u + (c - a) * t;
    let d = b - a;
    let w0 = (u - t) * (u - t);
    let w1 = 2 * t * (u - t);
    let w2 = t * t;
    assert(w0 + w1 + w2 == u * u && w1 + 2 * w2 == 2 * (t * u)) by (nonlinear_arith)
        requires
            w0 == (u - t) * (u - t),
            w1 == 2 * t * (u - t),
            w2 == t * t,
    ;
    assert(w0 * a + w1 * (a + d) + w2 * (a + 2 * d) == a * (w0 + w1 + w2) + d * (w1 + 2 * w2))
        by (nonlinear_arith);
    assert(a * (u * u) + d * (2 * (t * u)) == u * y) by (nonlinear_arith)
        requires
            y == a * u + (2 * d) * t,
    ;
    assert(quadratic_sum(a, b, c, t) == w0 * a + w1 * b + w2 * c);
    assert(quadratic_sum(a, b, c, t) == u * y);
    lemma_round_div_scaled(y, u, u);
    lemma_round_div_shift((c - a) * t, u, a);
    assert((c - a) * t + a * u == y);
    assert(2 * (u - t) * (b - a) + 2 * t * (c - b) == (c - a) * u) by (nonlinear_arith)
        requires
            b - a == c - b,
    ;
    lemma_round_div_away_exact(c - a, u);
}

proof fn lemma_quadratic_slope_bounds(a: int, b: int, c: int, t: int, limit: int)
    requires
        0 <= t <= UNIT,
        -limit <= a <= limit,
        -limit <= b <= limit,
        -limit <= c <= limit,
    ensures
        -4 * limit <= quadratic_slope(a, b, c, t) <= 4 * limit,
        -4 * limit * UNIT <= 2 * (UNIT - t) * (b - a) + 2 * t * (c - b) <= 4 * limit * UNIT,
{
    let u = UNIT as int;
    let x = 2 * (u - t) * (b - a) + 2 * t * (c - b);
    assert(-4 * limit * u <= x <= 4 * limit * u) by (nonlinear_arith)
        requires
            x == 2 * (u - t) * (b - a) + 2 * t * (c - b),
            0 <= t <= u,
            -2 * limit <= b - a <= 2 * limit,
            -2 * limit <= c - b <= 2 * limit,
    ;
    assert((-4 * limit) * u == -4 * limit * u && (4 * limit) * u == 4 * limit * u)
        by (nonlinear_arith);
    assert(limit >= 0);
    lemma_round_div_away_bounds(x, u, -4 * limit, 4 * limit);
}

fn quadratic_slope_at(a: i32, b: i32, c: i32, t: i64) -> (r: i64)
    requires
        0 <= t <= UNIT,
        -COORD_LIMIT <= a <= COORD_LIMIT,
        -COORD_LIMIT <= b <= COORD_LIMIT,
        -COORD_LIMIT <= c <= COORD_LIMIT,
    ensures
        r == quadratic_slope(a as int, b as int, c as int, t as int),
        -4 * COORD_LIMIT <= r <= 4 * COORD_LIMIT,
{
    proof {
        lemma_quadratic_slope_bounds(a as int, b as int, c as int, t as int, COORD_LIMIT as int);
    }
    let d0: i64 = b as i64 - a as i64;
    let d1: i64 = c as i64 - b as i64;
    assert(-2 * UNIT * 0x20_0000 <= 2 * (UNIT - t) * d0 <= 2 * UNIT * 0x20_0000) by (nonlinear_arith)
        requires
            0 <= t <= UNIT,
            -0x20_0000 <= d0 <= 0x20_0000,
    ;
    assert(-2 * UNIT * 0x20_0000 <= 2 * t * d1 <= 2 * UNIT * 0x20_0000) by (nonlinear_arith)
        requires
            0 <= t <= UNIT,
            -0x20_0000 <= d1 <= 0x20_0000,
    ;
    let first: i64 = 2 * (UNIT - t) * d0;
    let second: i64 = 2 * t * d1;
    div_round_away(first + second, UNIT)
}

fn quadratic_value_at(a: i32, b: i32, c: i32, t: i64) -> (r: i32)
    requires
        0 <= t <= UNIT,
        -COORD_LIMIT <= a <= COORD_LIMIT,
        -COORD_LIMIT <= b <= COORD_LIMIT,
        -COORD_LIMIT <= c <= COORD_LIMIT,
    ensures
        r == quadratic_value(a as int, b as int, c as int, t as int),
        -COORD_LIMIT <= r <= COORD_LIMIT,
{
    let u: i128 = UNIT as i128;
    let s: i128 = t as i128;
    proof {
        lemma_quadratic_value_bounds(
            a as int,
            b as int,
            c as int,
            t as int,
            -COORD_LIMIT as int,
            COORD_LIMIT as int,
        );
    }
    assert(0 <= (u - s) * (u - s) <= u * u && 0 <= 2 * s * (u - s) <= 2 * (u * u) && 0 <= s * s <= u
        * u && u * u == 1_000_000_000_000_000_000) by (nonlinear_arith)
        requires
            0 <= s <= u,
            u == 1_000_000_000,
    ;
    let w0: i128 = (u - s) * (u - s);
    let w1: i128 = 2 * s * (u - s);
    let w2: i128 = s * s;
    assert(-0x10_0000 * 1_000_000_000_000_000_000 <= w0 * a <= 0x10_0000
        * 1_000_000_000_000_000_000) by (nonlinear_arith)
        requires
            0 <= w0 <= 1_000_000_000_000_000_000,
            -0x10_0000 <= a <= 0x10_0000,
    ;
    assert(-0x10_0000 * 2_000_000_000_000_000_000 <= w1 * b <= 0x10_0000
        * 2_000_000_000_000_000_000) by (nonlinear_arith)
        requires
            0 <= w1 <= 2_000_000_000_000_000_000,
            -0x10_0000 <= b <= 0x10_0000,
    ;
    assert(-0x10_0000 * 1_000_000_000_000_000_000 <= w2 * c <= 0x10_0000
        * 1_000_000_000_000_000_000) by (nonlinear_arith)
        requires
            0 <= w2 <= 1_000_000_000_000_000_000,
            -0x10_0000 <= c <= 0x10_0000,
    ;
    let sum: i128 = w0 * a as i128 + w1 * b as i128 + w2 * c as i128;
    assert(sum == quadratic_sum(a as int, b as int, c as int, t as int));
    div_round_wide(sum, u * u) as i32
}

impl Segment {
    /// The point of the segment at `t / UNIT`, rounded to the lattice: on
    /// a line by interpolation, on a quadratic
    /// `(1 - t)^2 a + 2t(1 - t) b + t^2 c` of its control points. A cubic
    /// has no point here; for it this is its start, which no contract
    /// reads.
    pub open spec fn point_on(self, t: int) -> Point {
        match self {
            Segment::Line(a, b) => Point {
                x: lerp(a.x as int, b.x as int, t) as i32,
                y: lerp(a.y as int, b.y as int, t) as i32,
            },
            Segment::Quadratic(a, b, c) => Point {
                x: quadratic_value(a.x as int, b.x as int, c.x as int, t) as i32,
                y: quadratic_value(a.y as int, b.y as int, c.y as int, t) as i32,
            },
            Segment::Cubic(a, _, _, _) => a,
        }
    }

    /// The direction of travel at `t / UNIT` (for a cubic, which has none
    /// here, the zero vector, which no contract reads): for a line its chord, for a
    /// quadratic the derivative `2(1 - t)(b - a) + 2t(c - b)` of the control points `a`, `b`, `c`.
    pub open spec fn direction(self, t: int) -> Vector {
        match self {
            Segment::Line(a, b) => Vector { dx: (b.x - a.x) as i64, dy: (b.y - a.y) as i64 },
            Segment::Quadratic(a, b, c) => Vector {
                dx: quadratic_slope(a.x as int, b.x as int, c.x as int, t) as i64,
                dy: quadratic_slope(a.y as int, b.y as int, c.y as int, t) as i64,
            },
            Segment::Cubic(_, _, _, _) => Vector { dx: 0, dy: 0 },
        }
    }

    /// The point at `t / UNIT` and the tangent there. A cubic has none.
    pub fn tangent(&self, t: i64) -> (r: Result<(Point, Vector), MeasureError>)
        requires
            self.within(COORD_LIMIT as int),
            0 <= t <= UNIT,
        ensures
            self is Cubic <==> r is Err,
            r is Err ==> r == Err::<(Point, Vector), MeasureError>(MeasureError::UnsupportedSegment),
            r matches Ok(pv) ==> {
                &&& pv.0 == self.point_on(t as int)
                &&& pv.1 == self.direction(t as int)
                &&& pv.0.within(COORD_LIMIT as int)
                &&& pv.1.within(4 * COORD_LIMIT)
            },
    {
        match self {
            Segment::Line(a, b) => {
                proof {
                    lemma_lerp_bounds(a.x as int, b.x as int, t as int);
                    lemma_lerp_bounds(a.y as int, b.y as int, t as int);
                }
                let at = Point { x: lerp_coord(a.x, b.x, t), y: lerp_coord(a.y, b.y, t) };
                let along = Vector {
                    dx: b.x as i64 - a.x as i64,
                    dy: b.y as i64 - a.y as i64,
                };
                Ok((at, along))
            },
            Segment::Quadratic(a, b, c) => {
                let at = Point {
                    x: quadratic_value_at(a.x, b.x, c.x, t),
                    y: quadratic_value_at(a.y, b.y, c.y, t),
                };
                let along = Vector {
                    dx: quadratic_slope_at(a.x, b.x, c.x, t),
                    dy: quadratic_slope_at(a.y, b.y, c.y, t),
                };
                Ok((at, along))
            },
            Segment::Cubic(_, _, _, _) => Err(MeasureError::UnsupportedSegment),
        }
    }
}

/// A quadratic whose control point halves its chord is the chord: at
/// every parameter its point and its tangent are those of the line from
/// its start to its end.
pub proof fn lemma_flat_quadratic_is_its_chord(a: Point, b: Point, c: Point, t: int)
    requires
        b.x - a.x == c.x - b.x,
        b.y - a.y == c.y - b.y,
    ensures
        Segment::Quadratic(a, b, c).point_on(t) == Segment::Line(a, c).point_on(t),
        Segment::Quadratic(a, b, c).direction(t) == Segment::Line(a, c).direction(t),
{
    lemma_quadratic_through_midpoint_is_line(a.x as int, b.x as int, c.x as int, t);
    lemma_quadratic_through_midpoint_is_line(a.y as int, b.y as int, c.y as int, t);
}

/// At its ends a quadratic's tangent is twice the adjacent control leg.
pub proof fn lemma_quadratic_end_tangents(a: int, b: int, c: int)
    ensures
        quadratic_slope(a, b, c, 0) == 2 * (b - a),
        quadratic_slope(a, b, c, UNIT as int) == 2 * (c - b),
{
    let u = UNIT as int;
    assert(2 * (u - 0) * (b - a) + 2 * 0 * (c - b) == (2 * (b - a)) * u) by (nonlinear_arith);
    lemma_round_div_away_exact(2 * (b - a), u);
    assert(2 * (u - u) * (b - a) + 2 * u * (c - b) == (2 * (c - b)) * u) by (nonlinear_arith);
    lemma_round_div_away_exact(2 * (c - b), u);
}

} // verus!
