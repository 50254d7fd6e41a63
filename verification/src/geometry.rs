//! Lattice points, vectors, outline segments and straight probes.

use vstd::prelude::*;
use crate::fixed::{UNIT, round_div, div_round, lemma_round_div_bounds};

verus! {

/// Largest absolute coordinate an outline may use.
pub const COORD_LIMIT: i32 = 0x10_0000;

/// Largest absolute coordinate of a line on which points are interpolated.
pub const LINE_LIMIT: i32 = 0x1000_0000;

/// A point of the lattice.
#[derive(Clone, Copy, Debug, PartialEq, Eq, Structural)]
pub struct Point {
    /// The position along the first axis, in lattice steps.
    pub x: i32,
    /// The position along the second axis, in lattice steps.
    pub y: i32,
}

/// A displacement on the lattice.
#[derive(Clone, Copy, Debug, PartialEq, Eq, Structural)]
pub struct Vector {
    /// The displacement along the first axis.
    pub dx: i64,
    /// The displacement along the second axis.
    pub dy: i64,
}

/// A directed piece of an outline.
#[derive(Clone, Copy, Debug, PartialEq, Eq, Structural)]
pub enum Segment {
    /// A straight piece from the first point to the second.
    Line(Point, Point),
    /// A quadratic curve from the first point to the third, drawn towards
    /// the second.
    Quadratic(Point, Point, Point),
    /// A cubic curve from the first point to the fourth. It can be held
    /// but not measured: it has no tangent here.
    Cubic(Point, Point, Point, Point),
}

/// A straight line from `start` to `end`: a probe ray, or a rib.
#[derive(Clone, Copy, Debug, PartialEq, Eq, Structural)]
pub struct Line {
    /// Where the line starts: its point at parameter nought.
    pub start: Point,
    /// Where the line ends: its point at parameter `UNIT`.
    pub end: Point,
}

/// The value at fraction `t / UNIT` of the way from `a` to `b`, rounded to
/// the lattice.
pub open spec fn lerp(a: int, b: int, t: int) -> int {
    a + round_div((b - a) * t, UNIT as int)
}

/// Between its ends an interpolated value stays between them, and beyond
/// them it leaves by at most twice their distance.
pub proof fn lemma_lerp_bounds(a: int, b: int, t: int)
    requires
        -UNIT <= t <= 2 * UNIT,
    ensures
        0 <= t <= UNIT && a <= b ==> a <= lerp(a, b, t) <= b,
        0 <= t <= UNIT && b <= a ==> b <= lerp(a, b, t) <= a,
        a <= b ==> a - 2 * (b - a) <= lerp(a, b, t) <= a + 2 * (b - a),
        b <= a ==> a - 2 * (a - b) <= lerp(a, b, t) <= a + 2 * (a - b),
        t == 0 ==> lerp(a, b, t) == a,
        t == UNIT ==> lerp(a, b, t) == b,
{
    let d = b - a;
    let u = UNIT as int;
    let x = d * t;
    if a <= b {
        assert(-2 * d * u <= x <= 2 * d * u) by (nonlinear_arith)
            requires
                x == d * t,
                d >= 0,
                -u <= t <= 2 * u,
        ;
        assert((-2 * d) * u == -2 * d * u && (2 * d) * u == 2 * d * u) by (nonlinear_arith);
        lemma_round_div_bounds(x, u, -2 * d, 2 * d);
        if 0 <= t <= UNIT {
            assert(0 * u <= x <= d * u) by (nonlinear_arith)
                requires
                    x == d * t,
                    d >= 0,
                    0 <= t <= u,
            ;
            lemma_round_div_bounds(x, u, 0, d);
        }
    } else {
        assert(2 * d * u <= x <= -2 * d * u) by (nonlinear_arith)
            requires
                x == d * t,
                d <= 0,
                -u <= t <= 2 * u,
        ;
        assert((-2 * d) * u == -2 * d * u && (2 * d) * u == 2 * d * u) by (nonlinear_arith);
        lemma_round_div_bounds(x, u, 2 * d, -2 * d);
        if 0 <= t <= UNIT {
            assert(d * u <= x <= 0 * u) by (nonlinear_arith)
                requires
                    x == d * t,
                    d <= 0,
                    0 <= t <= u,
            ;
            lemma_round_div_bounds(x, u, d, 0);
        }
    }
    if t == 0 {
        assert(x == 0) by (nonlinear_arith)
            requires
                x == d * t,
                t == 0,
        ;
        lemma_round_div_bounds(x, u, 0, 0);
    }
    if t == UNIT {
        lemma_round_div_bounds(x, u, d, d);
    }
}

/// A step in the parameter that moves the exact value by one or more
/// moves the rounded value by one or more, the same way.
pub proof fn lemma_lerp_steps(a: int, b: int, t: int, delta: int)
    requires
        delta >= 0,
        (b - a) * delta >= UNIT || (a - b) * delta >= UNIT,
    ensures
        b > a ==> lerp(a, b, t + delta) >= lerp(a, b, t) + 1 && lerp(a, b, t - delta) <= lerp(
            a,
            b,
            t,
        ) - 1,
        b < a ==> lerp(a, b, t + delta) <= lerp(a, b, t) - 1 && lerp(a, b, t - delta) >= lerp(
            a,
            b,
            t,
        ) + 1,
        b != a,
{
    let d = b - a;
    let u = UNIT as int;
    assert(d * (t + delta) == d * t + d * delta && d * (t - delta) == d * t - d * delta)
        by (nonlinear_arith);
    assert(d != 0) by (nonlinear_arith)
        requires
            d * delta >= u || (-d) * delta >= u,
            u > 0,
    ;
    assert((-d) * delta == -(d * delta)) by (nonlinear_arith);
    crate::fixed::lemma_round_div_shift(d * t, u, 1);
    crate::fixed::lemma_round_div_shift(d * t, u, -1);
    if d > 0 {
        assert(d * delta >= u) by (nonlinear_arith)
            requires
                d * delta >= u || -(d * delta) >= u,
                d > 0,
                delta >= 0,
                u > 0,
        ;
        crate::fixed::lemma_round_div_ordered(d * t + 1 * u, d * t + d * delta, u);
        crate::fixed::lemma_round_div_ordered(d * t - d * delta, d * t + (-1) * u, u);
    } else {
        assert(d * delta <= -u) by (nonlinear_arith)
            requires
                d * delta >= u || -(d * delta) >= u,
                d < 0,
                delta >= 0,
                u > 0,
        ;
        crate::fixed::lemma_round_div_ordered(d * t + d * delta, d * t + (-1) * u, u);
        crate::fixed::lemma_round_div_ordered(d * t + 1 * u, d * t - d * delta, u);
    }
}

/// Run the other way, a line passes through the same points.
pub proof fn lemma_lerp_run_backwards(a: int, b: int, t: int)
    ensures
        lerp(b, a, UNIT - t) == lerp(a, b, t),
{
    let u = UNIT as int;
    assert((a - b) * (u - t) == (b - a) * t + (a - b) * u) by (nonlinear_arith);
    crate::fixed::lemma_round_div_shift((b - a) * t, u, a - b);
}

/// Halfway between two values lies the same value whichever of them comes
/// first: their mean, rounded up.
pub proof fn lemma_halfway_is_symmetric(a: int, b: int)
    ensures
        lerp(a, b, UNIT as int / 2) == lerp(b, a, UNIT as int / 2),
        2 * lerp(a, b, UNIT as int / 2) == a + b || 2 * lerp(a, b, UNIT as int / 2) == a + b + 1,
{
    let u = UNIT as int;
    let half = u / 2;
    let d = b - a;
    assert(2 * (d * half) + u == (d + 1) * u && 2 * ((-d) * half) + u == (1 - d) * u)
        by (nonlinear_arith)
        requires
            2 * half == u,
    ;
    assert((a - b) * half == (-d) * half);
    let q = (d + 1) / 2;
    let r = (d + 1) % 2;
    vstd::arithmetic::div_mod::lemma_fundamental_div_mod(d + 1, 2);
    assert((d + 1) * u == q * (2 * u) + r * u && 0 <= r * u < 2 * u) by (nonlinear_arith)
        requires
            d + 1 == 2 * q + r,
            0 <= r < 2,
            u > 0,
    ;
    vstd::arithmetic::div_mod::lemma_fundamental_div_mod_converse((d + 1) * u, 2 * u, q, r * u);
    let q2 = (1 - d) / 2;
    let r2 = (1 - d) % 2;
    vstd::arithmetic::div_mod::lemma_fundamental_div_mod(1 - d, 2);
    assert((1 - d) * u == q2 * (2 * u) + r2 * u && 0 <= r2 * u < 2 * u) by (nonlinear_arith)
        requires
            1 - d == 2 * q2 + r2,
            0 <= r2 < 2,
            u > 0,
    ;
    vstd::arithmetic::div_mod::lemma_fundamental_div_mod_converse((1 - d) * u, 2 * u, q2, r2 * u);
}

/// Interpolates between two coordinates.
pub fn lerp_coord(a: i32, b: i32, t: i64) -> (r: i32)
    requires
        -LINE_LIMIT <= a <= LINE_LIMIT,
        -LINE_LIMIT <= b <= LINE_LIMIT,
        -UNIT <= t <= 2 * UNIT,
    ensures
        r == lerp(a as int, b as int, t as int),
{
    let d: i64 = b as i64 - a as i64;
    proof {
        lemma_lerp_bounds(a as int, b as int, t as int);
        assert(-0x2000_0000 * (2 * UNIT) <= d * t <= 0x2000_0000 * (2 * UNIT)) by (nonlinear_arith)
            requires
                -0x2000_0000 <= d <= 0x2000_0000,
                -UNIT <= t <= 2 * UNIT,
        ;
    }
    let q: i64 = div_round(d * t, UNIT);
    (a as i64 + q) as i32
}

impl Point {
    /// The displacement from `other` to this point.
    pub open spec fn minus(self, other: Point) -> Vector {
        Vector { dx: (self.x - other.x) as i64, dy: (self.y - other.y) as i64 }
    }

    /// Whether both coordinates lie within `limit` of the origin.
    pub open spec fn within(self, limit: int) -> bool {
        -limit <= self.x <= limit && -limit <= self.y <= limit
    }

    /// The squared distance to `other`.
    pub open spec fn dist2(self, other: Point) -> int {
        (self.x - other.x) * (self.x - other.x) + (self.y - other.y) * (self.y - other.y)
    }

    /// Computes the squared distance to `other`.
    pub fn distance_squared(&self, other: &Point) -> (d: u64)
        requires
            self.within(LINE_LIMIT as int),
            other.within(LINE_LIMIT as int),
        ensures
            d == self.dist2(*other),
            d <= 0x800_0000_0000_0000,
    {
        let dx: i64 = self.x as i64 - other.x as i64;
        let dy: i64 = self.y as i64 - other.y as i64;
        assert(0 <= dx * dx <= 0x2000_0000 * 0x2000_0000) by (nonlinear_arith)
            requires
                -0x2000_0000 <= dx <= 0x2000_0000,
        ;
        assert(0 <= dy * dy <= 0x2000_0000 * 0x2000_0000) by (nonlinear_arith)
            requires
                -0x2000_0000 <= dy <= 0x2000_0000,
        ;
        (dx * dx) as u64 + (dy * dy) as u64
    }
}

impl Vector {
    /// The vector turned a quarter circle: `(dx, dy)` becomes `(-dy, dx)`.
    pub open spec fn turned(self) -> Vector {
        Vector { dx: (-self.dy) as i64, dy: self.dx }
    }

    /// The opposite vector.
    pub open spec fn reversed(self) -> Vector {
        Vector { dx: (-self.dx) as i64, dy: (-self.dy) as i64 }
    }

    /// Whether both components lie within `limit` of zero.
    pub open spec fn within(self, limit: int) -> bool {
        -limit <= self.dx <= limit && -limit <= self.dy <= limit
    }

    /// The dot product with `other`.
    pub open spec fn dot(self, other: Vector) -> int {
        self.dx * other.dx + self.dy * other.dy
    }

    /// Turns the vector a quarter circle.
    pub fn turn_90(&self) -> (v: Vector)
        requires
            self.dx > i64::MIN,
            self.dy > i64::MIN,
        ensures
            v == self.turned(),
    {
        Vector { dx: -self.dy, dy: self.dx }
    }

    /// Reverses the vector.
    pub fn reverse(&self) -> (v: Vector)
        requires
            self.dx > i64::MIN,
            self.dy > i64::MIN,
        ensures
            v == self.reversed(),
    {
        Vector { dx: -self.dx, dy: -self.dy }
    }
}

impl Line {
    /// Whether both ends lie within `limit` of the origin.
    pub open spec fn within(self, limit: int) -> bool {
        self.start.within(limit) && self.end.within(limit)
    }

    /// The point at fraction `t / UNIT` of the way from `start` to `end`.
    pub open spec fn point_at(self, t: int) -> Point {
        Point {
            x: lerp(self.start.x as int, self.end.x as int, t) as i32,
            y: lerp(self.start.y as int, self.end.y as int, t) as i32,
        }
    }

    /// The larger of the sizes of the two sides of the box of the line.
    pub open spec fn span(self) -> int {
        let x = if self.end.x < self.start.x {
            self.start.x - self.end.x
        } else {
            self.end.x - self.start.x
        };
        let y = if self.end.y < self.start.y {
            self.start.y - self.end.y
        } else {
            self.end.y - self.start.y
        };
        if x >= y {
            x
        } else {
            y
        }
    }

    /// The point halfway between the ends.
    pub open spec fn mid(self) -> Point {
        self.point_at(UNIT as int / 2)
    }

    /// Evaluates the line at parameter `t`.
    pub fn eval(&self, t: i64) -> (p: Point)
        requires
            self.within(LINE_LIMIT as int),
            -UNIT <= t <= 2 * UNIT,
        ensures
            p == self.point_at(t as int),
            0 <= t <= UNIT ==> p.within(LINE_LIMIT as int),
    {
        proof {
            lemma_lerp_bounds(self.start.x as int, self.end.x as int, t as int);
            lemma_lerp_bounds(self.start.y as int, self.end.y as int, t as int);
        }
        Point { x: lerp_coord(self.start.x, self.end.x, t), y: lerp_coord(self.start.y, self.end.y, t) }
    }

    /// The midpoint of the line.
    pub fn midpoint(&self) -> (p: Point)
        requires
            self.within(LINE_LIMIT as int),
        ensures
            p == self.mid(),
            p.within(LINE_LIMIT as int),
    {
        self.eval(UNIT / 2)
    }
}

impl Segment {
    /// Whether every control point lies within `limit` of the origin.
    pub open spec fn within(self, limit: int) -> bool {
        match self {
            Segment::Line(a, b) => a.within(limit) && b.within(limit),
            Segment::Quadratic(a, b, c) => a.within(limit) && b.within(limit) && c.within(limit),
            Segment::Cubic(a, b, c, d) => a.within(limit) && b.within(limit) && c.within(limit)
                && d.within(limit),
        }
    }

    /// Where the segment starts.
    pub open spec fn start(self) -> Point {
        match self {
            Segment::Line(a, _) => a,
            Segment::Quadratic(a, _, _) => a,
            Segment::Cubic(a, _, _, _) => a,
        }
    }

    /// Where the segment ends.
    pub open spec fn end(self) -> Point {
        match self {
            Segment::Line(_, b) => b,
            Segment::Quadratic(_, _, c) => c,
            Segment::Cubic(_, _, _, d) => d,
        }
    }
}

} // verus!
