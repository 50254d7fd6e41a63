//! Long probe lines: rays from a centre at whole degrees, and lines
//! through a point along a direction.

use vstd::prelude::*;
use crate::fixed::{UNIT, round_div_away, div_round_away, sqrt_floor, floor_sqrt, is_floor_sqrt, lemma_round_div_bounds, lemma_round_div_away_bounds, lemma_round_div_away_negates};
use crate::geometry::{Point, Vector, Line, COORD_LIMIT, LINE_LIMIT};
use crate::bounds::BOX_LIMIT;
use crate::trig::{sine, cosine, sine_of, cosine_of, lemma_product_bound};

verus! {

/// How many times the larger side of a shape a probe reaches to either
/// side.
pub const REACH_FACTOR: i32 = 100;

/// The longest reach of a probe.
pub const REACH_LIMIT: i32 = 209_715_200;

/// The ray at half a turn more leads the opposite way: its end lies as far
/// from the centre on the other side.
pub proof fn lemma_opposite_rays(centre: Point, reach: int, degrees: int)
    requires
        0 <= degrees < 180,
        centre.within(BOX_LIMIT as int),
        0 <= reach <= REACH_LIMIT,
    ensures
        radial_ray(centre, reach, degrees + 180).end.x - centre.x == centre.x - radial_ray(
            centre,
            reach,
            degrees,
        ).end.x,
        radial_ray(centre, reach, degrees + 180).end.y - centre.y == centre.y - radial_ray(
            centre,
            reach,
            degrees,
        ).end.y,
{
    let c = cosine(degrees);
    let s = sine(degrees);
    crate::trig::lemma_opposite_angle(degrees);
    crate::trig::lemma_sine_range(degrees);
    lemma_product_bound(reach, c, reach);
    lemma_product_bound(reach, s, reach);
    assert((-reach) * UNIT == -(reach * UNIT)) by (nonlinear_arith);
    lemma_round_div_away_bounds(reach * c, UNIT as int, -reach, reach);
    lemma_round_div_away_bounds(reach * s, UNIT as int, -reach, reach);
    assert(reach * (-c) == -(reach * c) && reach * (-s) == -(reach * s)) by (nonlinear_arith);
    lemma_round_div_away_negates(reach * c, UNIT as int);
    lemma_round_div_away_negates(reach * s, UNIT as int);
}

/// How far probes reach for a shape whose larger side is `max_dim`.
pub open spec fn reach_for(max_dim: int) -> int {
    REACH_FACTOR * max_dim
}

/// The ray from `centre` at `degrees`, `reach` long.
pub open spec fn radial_ray(centre: Point, reach: int, degrees: int) -> Line {
    Line {
        start: centre,
        end: Point {
            x: (centre.x + round_div_away(reach * cosine(degrees), UNIT as int)) as i32,
            y: (centre.y + round_div_away(reach * sine(degrees), UNIT as int)) as i32,
        },
    }
}

/// The length of `v`, rounded up.
pub open spec fn ceil_length(v: Vector) -> int {
    let n = v.dx * v.dx + v.dy * v.dy;
    let r = sqrt_floor(n);
    if r * r == n {
        r
    } else {
        r + 1
    }
}

/// The size up to which a direction is magnified before its length is
/// taken, so that rounding the length up loses less than a billionth.
pub const MAGNIFY_TO: i64 = 0x2000_0000;

/// The larger of the sizes of the two components of `v`.
pub open spec fn larger_part(v: Vector) -> int {
    let x = if v.dx < 0 { -v.dx } else { v.dx as int };
    let y = if v.dy < 0 { -v.dy } else { v.dy as int };
    if x >= y {
        x
    } else {
        y
    }
}

/// The power of two that brings the size `m` to `MAGNIFY_TO` or beyond;
/// one where it is there already or is nought.
pub open spec fn magnifier(m: int) -> int
    decreases (if 0 < m < MAGNIFY_TO { MAGNIFY_TO - m } else { 0 }),
{
    if m <= 0 || m >= MAGNIFY_TO {
        1
    } else {
        2 * magnifier(2 * m)
    }
}

/// `v` magnified: the same direction, with its larger component brought
/// to `MAGNIFY_TO` or beyond.
pub open spec fn magnified(v: Vector) -> Vector {
    let k = magnifier(larger_part(v));
    Vector { dx: (v.dx * k) as i64, dy: (v.dy * k) as i64 }
}

/// How far along `dir` a probe of the given reach extends from its middle:
/// `dir` scaled to the length `reach`. The length is that of the magnified
/// `dir`, rounded up, which is at least `MAGNIFY_TO` and so exceeds the
/// true length by less than one part in `MAGNIFY_TO`. Where `dir` is zero
/// the probe runs along the first axis.
pub open spec fn probe_offset(dir: Vector, reach: int) -> Vector {
    if dir.dx == 0 && dir.dy == 0 {
        Vector { dx: reach as i64, dy: 0 }
    } else {
        let big = magnified(dir);
        Vector {
            dx: round_div_away(reach * big.dx, ceil_length(big)) as i64,
            dy: round_div_away(reach * big.dy, ceil_length(big)) as i64,
        }
    }
}

/// The length rounded up is the least whole number that is no less than
/// the length, and no component is larger.
pub proof fn lemma_ceil_length(v: Vector)
    requires
        v.dx != 0 || v.dy != 0,
    ensures
        ceil_length(v) >= 1,
        ceil_length(v) >= larger_part(v),
        (ceil_length(v) - 1) * (ceil_length(v) - 1) < v.dx * v.dx + v.dy * v.dy <= ceil_length(v)
            * ceil_length(v),
{
    let n = v.dx * v.dx + v.dy * v.dy;
    assert(n >= 1) by (nonlinear_arith)
        requires
            n == v.dx * v.dx + v.dy * v.dy,
            v.dx != 0 || v.dy != 0,
    ;
    crate::fixed::lemma_sqrt_floor_exists(n);
    let r = sqrt_floor(n);
    lemma_component_below_length(v.dx as int, v.dy as int, r);
    lemma_component_below_length(v.dy as int, v.dx as int, r);
    if r * r == n {
        assert((r - 1) * (r - 1) < r * r) by (nonlinear_arith)
            requires
                r >= 1,
        ;
    }
}

/// The opposite direction gives the opposite offset, and so the same probe
/// run the other way.
pub proof fn lemma_opposite_probe(at: Point, dir: Vector, reach: int)
    requires
        at.within(BOX_LIMIT as int),
        dir.within(MAGNIFY_TO as int),
        dir.dx != 0 || dir.dy != 0,
        0 <= reach <= REACH_LIMIT,
    ensures
        probe_through(at, dir.reversed(), reach).start == probe_through(at, dir, reach).end,
        probe_through(at, dir.reversed(), reach).end == probe_through(at, dir, reach).start,
{
    let back = dir.reversed();
    assert(larger_part(back) == larger_part(dir));
    let k = magnifier(larger_part(dir));
    lemma_magnifier(larger_part(dir));
    let big = magnified(dir);
    let big_back = magnified(back);
    assert(-(larger_part(dir) * k) <= dir.dx * k <= larger_part(dir) * k && -(larger_part(dir) * k)
        <= dir.dy * k <= larger_part(dir) * k) by (nonlinear_arith)
        requires
            -larger_part(dir) <= dir.dx <= larger_part(dir),
            -larger_part(dir) <= dir.dy <= larger_part(dir),
            k >= 1,
    ;
    assert((-dir.dx) * k == -(dir.dx * k) && (-dir.dy) * k == -(dir.dy * k)) by (nonlinear_arith);
    assert(big_back.dx == -big.dx && big_back.dy == -big.dy);
    assert((-big.dx) * (-big.dx) == big.dx * big.dx && (-big.dy) * (-big.dy) == big.dy * big.dy)
        by (nonlinear_arith);
    assert(ceil_length(big_back) == ceil_length(big));
    assert(dir.dx * k != 0 || dir.dy * k != 0) by (nonlinear_arith)
        requires
            dir.dx != 0 || dir.dy != 0,
            k >= 1,
    ;
    lemma_ceil_length(big);
    let len = ceil_length(big);
    assert(-len <= big.dx <= len && -len <= big.dy <= len);
    assert(-(reach * len) <= reach * big.dx <= reach * len && -(reach * len) <= reach * big.dy
        <= reach * len) by (nonlinear_arith)
        requires
            -len <= big.dx <= len,
            -len <= big.dy <= len,
            0 <= reach,
    ;
    assert((-reach) * len == -(reach * len)) by (nonlinear_arith);
    lemma_round_div_away_bounds(reach * big.dx, len, -reach, reach);
    lemma_round_div_away_bounds(reach * big.dy, len, -reach, reach);
    assert(reach * (-big.dx) == -(reach * big.dx) && reach * (-big.dy) == -(reach * big.dy))
        by (nonlinear_arith);
    lemma_round_div_away_negates(reach * big.dx, len);
    lemma_round_div_away_negates(reach * big.dy, len);
}

/// Magnifying multiplies by a positive factor that brings a size below
/// twice `MAGNIFY_TO` to `MAGNIFY_TO` or beyond, and not to twice as much.
pub proof fn lemma_magnifier(m: int)
    requires
        0 <= m < 2 * MAGNIFY_TO,
    ensures
        magnifier(m) >= 1,
        m * magnifier(m) < 2 * MAGNIFY_TO,
        m > 0 ==> m * magnifier(m) >= MAGNIFY_TO,
    decreases (if 0 < m < MAGNIFY_TO { MAGNIFY_TO - m } else { 0 }),
{
    if 0 < m < MAGNIFY_TO {
        lemma_magnifier(2 * m);
        assert(m * (2 * magnifier(2 * m)) == (2 * m) * magnifier(2 * m)) by (nonlinear_arith);
    } else {
        assert(m * 1 == m);
    }
}

/// Magnifies a direction.
pub fn magnify(dir: &Vector) -> (big: Vector)
    requires
        dir.within(MAGNIFY_TO as int),
    ensures
        big == magnified(*dir),
        big.within(2 * MAGNIFY_TO),
        (dir.dx != 0 || dir.dy != 0) ==> (big.dx != 0 || big.dy != 0),
{
    let x: i64 = if dir.dx < 0 { -dir.dx } else { dir.dx };
    let y: i64 = if dir.dy < 0 { -dir.dy } else { dir.dy };
    let first: i64 = if x >= y { x } else { y };
    let mut m: i64 = first;
    let mut k: i64 = 1;
    proof {
        lemma_magnifier(first as int);
    }
    while 0 < m && m < MAGNIFY_TO
        invariant
            0 <= first <= MAGNIFY_TO,
            1 <= k,
            m == first * k,
            0 <= m < 2 * MAGNIFY_TO,
            magnifier(first as int) == k * magnifier(m as int),
        decreases (if 0 < m < MAGNIFY_TO { MAGNIFY_TO - m } else { 0 }),
    {
        proof {
            assert(first * (2 * k) == 2 * (first * k)) by (nonlinear_arith);
            assert(k * (2 * magnifier(2 * m)) == (2 * k) * magnifier(2 * m)) by (nonlinear_arith);
            assert(k <= m) by (nonlinear_arith)
                requires
                    m == first * k,
                    m > 0,
                    first >= 0,
                    k >= 1,
            ;
        }
        m = 2 * m;
        k = 2 * k;
    }
    proof {
        assert(magnifier(m as int) == 1);
        assert(k * 1 == k);
        assert(k <= 2 * MAGNIFY_TO) by (nonlinear_arith)
            requires
                m == first * k,
                0 <= m < 2 * MAGNIFY_TO,
                first >= 0,
                k >= 1,
                first == 0 ==> k == 1,
        ;
        assert(-(first * k) <= dir.dx * k <= first * k && -(first * k) <= dir.dy * k <= first * k)
            by (nonlinear_arith)
            requires
                -first <= dir.dx <= first,
                -first <= dir.dy <= first,
                k >= 1,
        ;
        assert(dir.dx != 0 ==> dir.dx * k != 0) by (nonlinear_arith)
            requires
                k >= 1,
        ;
        assert(dir.dy != 0 ==> dir.dy * k != 0) by (nonlinear_arith)
            requires
                k >= 1,
        ;
    }
    Vector { dx: dir.dx * k, dy: dir.dy * k }
}

/// The probe through `at` along `dir`, reaching `reach` to either side:
/// it starts behind `at` and ends ahead of it, with `at` at its middle.
pub open spec fn probe_through(at: Point, dir: Vector, reach: int) -> Line {
    let off = probe_offset(dir, reach);
    Line {
        start: Point { x: (at.x - off.dx) as i32, y: (at.y - off.dy) as i32 },
        end: Point { x: (at.x + off.dx) as i32, y: (at.y + off.dy) as i32 },
    }
}

/// A component of a vector is no longer than the vector.
proof fn lemma_component_below_length(a: int, b: int, r: int)
    requires
        is_floor_sqrt(a * a + b * b, r),
    ensures
        -(r + 1) <= a <= r + 1,
        r * r == a * a + b * b ==> -r <= a <= r,
        (a != 0 || b != 0) ==> r >= 1,
{
    let n = a * a + b * b;
    assert(b * b >= 0) by (nonlinear_arith);
    if a > r + 1 || a < -(r + 1) {
        assert(a * a >= (r + 1) * (r + 1)) by (nonlinear_arith)
            requires
                a > r + 1 || a < -(r + 1),
                r >= 0,
        ;
    }
    if r * r == n && (a > r || a < -r) {
        assert(a * a > r * r) by (nonlinear_arith)
            requires
                a > r || a < -r,
                r >= 0,
        ;
    }
    if a != 0 || b != 0 {
        assert(a * a + b * b >= 1) by (nonlinear_arith)
            requires
                a != 0 || b != 0,
        ;
        if r < 1 {
            assert((r + 1) * (r + 1) == 1) by (nonlinear_arith)
                requires
                    r == 0,
            ;
        }
    }
}

/// Builds the ray from `centre` at `degrees`.
pub fn radial_ray_of(centre: &Point, reach: i32, degrees: u32) -> (ray: Line)
    requires
        centre.within(BOX_LIMIT as int),
        0 <= reach <= REACH_LIMIT,
        degrees < 360,
    ensures
        ray == radial_ray(*centre, reach as int, degrees as int),
        ray.within(LINE_LIMIT as int),
{
    let c: i64 = cosine_of(degrees);
    let s: i64 = sine_of(degrees);
    proof {
        lemma_product_bound(reach as int, c as int, reach as int);
        lemma_product_bound(reach as int, s as int, reach as int);
        assert((-reach) * UNIT == -(reach * UNIT) && reach * UNIT == UNIT * reach)
            by (nonlinear_arith);
        assert(UNIT * reach <= 1_000_000_000 * 209_715_200) by (nonlinear_arith)
            requires
                0 <= reach <= 209_715_200,
                UNIT == 1_000_000_000,
        ;
        lemma_round_div_away_bounds(reach * c, UNIT as int, -reach, reach as int);
        lemma_round_div_away_bounds(reach * s, UNIT as int, -reach, reach as int);
    }
    let ox: i64 = div_round_away(reach as i64 * c, UNIT);
    let oy: i64 = div_round_away(reach as i64 * s, UNIT);
    Line {
        start: *centre,
        end: Point { x: (centre.x as i64 + ox) as i32, y: (centre.y as i64 + oy) as i32 },
    }
}

/// Scales `dir` to the length `reach`.
pub fn probe_offset_of(dir: &Vector, reach: i32) -> (off: Vector)
    requires
        dir.within(4 * COORD_LIMIT),
        0 <= reach <= REACH_LIMIT,
    ensures
        off == probe_offset(*dir, reach as int),
        off.within(reach as int),
{
    if dir.dx == 0 && dir.dy == 0 {
        return Vector { dx: reach as i64, dy: 0 };
    }
    let big = magnify(dir);
    assert(0 <= big.dx * big.dx <= 0x4000_0000 * 0x4000_0000) by (nonlinear_arith)
        requires
            -0x4000_0000 <= big.dx <= 0x4000_0000,
    ;
    assert(0 <= big.dy * big.dy <= 0x4000_0000 * 0x4000_0000) by (nonlinear_arith)
        requires
            -0x4000_0000 <= big.dy <= 0x4000_0000,
    ;
    let n: u64 = (big.dx * big.dx) as u64 + (big.dy * big.dy) as u64;
    let r: u64 = floor_sqrt(n);
    assert(r * r <= 0x8000_0000 * 0x8000_0000) by (nonlinear_arith)
        requires
            0 <= r < 0x8000_0000,
    ;
    let len: i64 = if r * r == n {
        r as i64
    } else {
        r as i64 + 1
    };
    proof {
        lemma_component_below_length(big.dx as int, big.dy as int, r as int);
        lemma_component_below_length(big.dy as int, big.dx as int, r as int);
        assert(len == ceil_length(big));
        assert(-(reach * len) <= reach * big.dx <= reach * len) by (nonlinear_arith)
            requires
                -len <= big.dx <= len,
                0 <= reach,
        ;
        assert(-(reach * len) <= reach * big.dy <= reach * len) by (nonlinear_arith)
            requires
                -len <= big.dy <= len,
                0 <= reach,
        ;
        assert((-reach) * len == -(reach * len)) by (nonlinear_arith);
        lemma_round_div_away_bounds(reach * big.dx, len as int, -reach, reach as int);
        lemma_round_div_away_bounds(reach * big.dy, len as int, -reach, reach as int);
        assert(-(209_715_200 * 0x4000_0000) <= reach * big.dx <= 209_715_200 * 0x4000_0000)
            by (nonlinear_arith)
            requires
                -0x4000_0000 <= big.dx <= 0x4000_0000,
                0 <= reach <= 209_715_200,
        ;
        assert(-(209_715_200 * 0x4000_0000) <= reach * big.dy <= 209_715_200 * 0x4000_0000)
            by (nonlinear_arith)
            requires
                -0x4000_0000 <= big.dy <= 0x4000_0000,
                0 <= reach <= 209_715_200,
        ;
    }
    Vector {
        dx: div_round_away(reach as i64 * big.dx, len),
        dy: div_round_away(reach as i64 * big.dy, len),
    }
}

/// Builds the probe through `at` along `dir`.
pub fn probe_through_of(at: &Point, dir: &Vector, reach: i32) -> (probe: Line)
    requires
        at.within(BOX_LIMIT as int),
        dir.within(4 * COORD_LIMIT),
        0 <= reach <= REACH_LIMIT,
    ensures
        probe == probe_through(*at, *dir, reach as int),
        probe.within(LINE_LIMIT as int),
        probe.point_at(UNIT as int / 2) == *at,
{
    let off = probe_offset_of(dir, reach);
    proof {
        lemma_probe_middle(at.x as int, off.dx as int);
        lemma_probe_middle(at.y as int, off.dy as int);
    }
    Line {
        start: Point { x: (at.x as i64 - off.dx) as i32, y: (at.y as i64 - off.dy) as i32 },
        end: Point { x: (at.x as i64 + off.dx) as i32, y: (at.y as i64 + off.dy) as i32 },
    }
}

/// Halfway between `a - off` and `a + off` lies `a`.
pub proof fn lemma_probe_middle(a: int, off: int)
    ensures
        crate::geometry::lerp(a - off, a + off, UNIT as int / 2) == a,
{
    let half = UNIT as int / 2;
    assert(((a + off) - (a - off)) * half == off * UNIT) by (nonlinear_arith)
        requires
            half * 2 == UNIT,
    ;
    lemma_round_div_bounds(off * UNIT, UNIT as int, off, off);
}

} // verus!
