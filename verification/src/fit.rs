//! The inscribed-circle fitter: for each rib the largest circle about its
//! midpoint that stays in the ink.
//!
//! The midpoint of a rib need not be a lattice point, so the fitter works
//! in doubled coordinates, which count half steps: the doubled centre is
//! the sum of the ends of the rib, and the doubled spoke leads from it to
//! twice a point of the rib. The squared diameter is the squared length of the doubled spoke,
//! an exact whole number; the tests compare it, and the reported diameter
//! is its root rounded up. Nothing in the fit depends on the direction in
//! which the rib runs.

use vstd::prelude::*;
use crate::fixed::{UNIT, floor_div, div_floor, toward_zero_div, div_toward_zero, sqrt_ceil, ceil_sqrt, lemma_sqrt_ceil};
use crate::geometry::{Point, Vector, Line, Segment, LINE_LIMIT};
use crate::classifier::{Shape, filled};
use crate::extract::Rib;
use crate::trig::{lemma_rotated_bounds, lemma_rotated_reversed, lemma_half_turn};

verus! {

/// The first step of the search along a rib: a thousandth of it.
pub const FIRST_STEP: i64 = 1_000_000;

/// The last parameter at which the search may start a circle: a tenth of
/// the rib.
pub const SEARCH_END: i64 = 100_000_000;

/// How many circles the search tries at most.
pub const SEARCH_ROUNDS: u32 = 7;

/// How many points of a circle are tested.
pub const CIRCLE_SAMPLES: u32 = 90;

/// The degrees between neighbouring points of a circle.
pub const SAMPLE_DEGREES: u32 = 4;

/// A rib with the circle fitted about its midpoint.
#[derive(Clone, Copy, Debug, PartialEq, Eq, Structural)]
pub struct FittedWidth {
    /// The rib.
    pub rib: Rib,
    /// Twice the centre of the circle: the sum of the ends of the rib.
    pub centre_doubled: Point,
    /// The square of the diameter of the circle, in squared steps.
    pub diameter_squared: u64,
    /// The diameter of the circle in steps, rounded up: the width estimate.
    pub diameter: i64,
}

impl FittedWidth {
    /// The width estimate: the diameter of the circle.
    pub open spec fn width(self) -> int {
        self.diameter as int
    }
}

impl Rib {
    /// The same rib run the other way.
    pub open spec fn reversed(self) -> Rib {
        Rib { line: Line { start: self.line.end, end: self.line.start }, t0: self.t1, t1: self.t0 }
    }
}

/// Twice the coordinate at fraction `t / UNIT` of the way from `a` to
/// `b`, rounded towards `a`: a coordinate in half steps.
pub open spec fn inward(a: int, b: int, t: int) -> int {
    2 * a + toward_zero_div(2 * (b - a) * t, UNIT as int)
}

/// Twice the midpoint of `line`: the sum of its ends.
pub open spec fn doubled_centre(line: Line) -> Point {
    Point { x: (line.start.x + line.end.x) as i32, y: (line.start.y + line.end.y) as i32 }
}

/// The doubled spoke of the circle that starts at fraction `t / UNIT` of
/// `line`: from the doubled centre to twice the point there.
pub open spec fn doubled_spoke(line: Line, t: int) -> Vector {
    Vector {
        dx: (inward(line.start.x as int, line.end.x as int, t) - line.start.x - line.end.x) as i64,
        dy: (inward(line.start.y as int, line.end.y as int, t) - line.start.y - line.end.y) as i64,
    }
}

/// The squared length of a vector.
pub open spec fn length_squared(v: Vector) -> int {
    v.dx * v.dx + v.dy * v.dy
}

/// The squared length of a line.
pub open spec fn line_length_squared(line: Line) -> int {
    (line.end.x - line.start.x) * (line.end.x - line.start.x) + (line.end.y - line.start.y) * (
    line.end.y - line.start.y)
}

/// The `j`-th tested point of the circle with the doubled centre `centre`
/// and the doubled spoke `spoke`: the spoke turned by `j` times
/// `SAMPLE_DEGREES`, set at the centre and halved, rounded down.
pub open spec fn circle_sample(centre: Point, spoke: Vector, j: int) -> Point {
    let turned = spoke.rotated(j * SAMPLE_DEGREES);
    Point {
        x: floor_div(centre.x + turned.dx, 2) as i32,
        y: floor_div(centre.y + turned.dy, 2) as i32,
    }
}

/// Whether every tested point of the circle is inked.
pub open spec fn ring_filled(segs: Seq<Segment>, centre: Point, spoke: Vector) -> bool {
    forall|j: int|
        0 <= j < CIRCLE_SAMPLES ==> filled(segs, #[trigger] circle_sample(centre, spoke, j))
}

/// Whether the circle about the midpoint of `rib` through its point at `t`
/// is accepted: it lies in the ink and its radius exceeds `unit`.
pub open spec fn circle_accepted(segs: Seq<Segment>, rib: Rib, unit: int, t: int) -> bool {
    ring_filled(segs, doubled_centre(rib.line), doubled_spoke(rib.line, t)) && length_squared(
        doubled_spoke(rib.line, t),
    ) > 4 * (unit * unit)
}

/// The fit that starts the circle at `t`.
pub open spec fn fitted_at(rib: Rib, t: int) -> FittedWidth {
    FittedWidth {
        rib,
        centre_doubled: doubled_centre(rib.line),
        diameter_squared: length_squared(doubled_spoke(rib.line, t)) as u64,
        diameter: sqrt_ceil(length_squared(doubled_spoke(rib.line, t))) as i64,
    }
}

/// The search from parameter `t` with step `step`, which doubles: the fit
/// of the first accepted circle, if one is met before `SEARCH_END` is
/// passed.
pub open spec fn fit_from(segs: Seq<Segment>, rib: Rib, unit: int, t: int, step: int) -> Option<
    FittedWidth,
>
    decreases (if t <= SEARCH_END { SEARCH_END - t + 1 } else { 0 }),
{
    if t > SEARCH_END || step <= 0 {
        None
    } else if circle_accepted(segs, rib, unit, t) {
        Some(fitted_at(rib, t))
    } else {
        fit_from(segs, rib, unit, t + step, 2 * step)
    }
}

/// The fit of one rib.
pub open spec fn fit_of(segs: Seq<Segment>, rib: Rib, unit: int) -> Option<FittedWidth> {
    fit_from(segs, rib, unit, 0, FIRST_STEP as int)
}

/// The parameter that the search tries in its `k`-th round: nought, then
/// one, three, seven, fifteen, thirty-one and sixty-three thousandths.
pub open spec fn search_param(k: int) -> int {
    if k <= 0 {
        0
    } else if k == 1 {
        1_000_000
    } else if k == 2 {
        3_000_000
    } else if k == 3 {
        7_000_000
    } else if k == 4 {
        15_000_000
    } else if k == 5 {
        31_000_000
    } else {
        63_000_000
    }
}

/// The fit of the first accepted circle among those of the rounds from
/// `k` on.
pub open spec fn first_accepted(segs: Seq<Segment>, rib: Rib, unit: int, k: int) -> Option<
    FittedWidth,
>
    decreases SEARCH_ROUNDS - k,
{
    if k >= SEARCH_ROUNDS {
        None
    } else if circle_accepted(segs, rib, unit, search_param(k)) {
        Some(fitted_at(rib, search_param(k)))
    } else {
        first_accepted(segs, rib, unit, k + 1)
    }
}

/// The fits of the ribs that admit one, in the order of the ribs.
pub open spec fn fit_all(segs: Seq<Segment>, ribs: Seq<Rib>, unit: int) -> Seq<FittedWidth>
    decreases ribs.len(),
{
    if ribs.len() == 0 {
        Seq::<FittedWidth>::empty()
    } else {
        let before = fit_all(segs, ribs.drop_last(), unit);
        match fit_of(segs, ribs.last(), unit) {
            Some(f) => before.push(f),
            None => before,
        }
    }
}

/// The least width among fits, if there is a fit.
pub open spec fn narrowest(fits: Seq<FittedWidth>) -> Option<i64>
    decreases fits.len(),
{
    if fits.len() == 0 {
        None
    } else {
        match narrowest(fits.drop_last()) {
            Some(m) => Some(if fits.last().diameter < m { fits.last().diameter } else { m }),
            None => Some(fits.last().diameter),
        }
    }
}

/// The greatest width among fits, if there is a fit.
pub open spec fn widest(fits: Seq<FittedWidth>) -> Option<i64>
    decreases fits.len(),
{
    if fits.len() == 0 {
        None
    } else {
        match widest(fits.drop_last()) {
            Some(m) => Some(if fits.last().diameter > m { fits.last().diameter } else { m }),
            None => Some(fits.last().diameter),
        }
    }
}

/// Whether every fit has a diameter that exceeds two units, is the root of
/// its square rounded up, and stands about the midpoint of its rib.
pub open spec fn fits_hold(fits: Seq<FittedWidth>, unit: int) -> bool {
    forall|i: int| 0 <= i < fits.len() ==> fit_holds(#[trigger] fits[i], unit)
}

/// Whether a fit has a diameter that exceeds two units, is the root of
/// its square rounded up, and stands about the midpoint of its rib.
pub open spec fn fit_holds(f: FittedWidth, unit: int) -> bool {
    &&& f.diameter_squared > 4 * (unit * unit)
    &&& f.diameter > 2 * unit
    &&& f.diameter == sqrt_ceil(f.diameter_squared as int)
    &&& f.diameter_squared <= line_length_squared(f.rib.line)
    &&& 1_000_000 * f.diameter_squared >= 763_876 * line_length_squared(f.rib.line)
    &&& f.centre_doubled == doubled_centre(f.rib.line)
}

/// The doubled spoke at a parameter is no longer than the line; it is the
/// part of the line that the parameter leaves, `1 - 2t` of it, or longer
/// by less than half a step; and from the other end the same parameter
/// gives the point that mirrors it.
pub proof fn lemma_inward(a: int, b: int, t: int)
    requires
        0 <= t <= UNIT,
    ensures
        a <= b ==> a - b <= inward(a, b, t) - a - b <= b - a && -((UNIT - 2 * t) * (b - a)) - UNIT
            < UNIT * (inward(a, b, t) - a - b) <= -((UNIT - 2 * t) * (b - a)),
        b <= a ==> b - a <= inward(a, b, t) - a - b <= a - b && (UNIT - 2 * t) * (a - b) + UNIT
            > UNIT * (inward(a, b, t) - a - b) >= (UNIT - 2 * t) * (a - b),
        inward(a, b, t) + inward(b, a, t) == 2 * a + 2 * b,
{
    let u = UNIT as int;
    let d = b - a;
    assert(2 * (a - b) * t == -(2 * d * t)) by (nonlinear_arith)
        requires
            d == b - a,
    ;
    assert(0int / u == 0) by {
        vstd::arithmetic::div_mod::lemma_basic_div(0, u);
    }
    if d >= 0 {
        let x = 2 * d * t;
        assert(0 <= x <= (2 * d) * u) by (nonlinear_arith)
            requires
                x == 2 * d * t,
                d >= 0,
                0 <= t <= u,
        ;
        vstd::arithmetic::div_mod::lemma_fundamental_div_mod(x, u);
        vstd::arithmetic::div_mod::lemma_div_pos_is_pos(x, u);
        vstd::arithmetic::div_mod::lemma_div_is_ordered(x, (2 * d) * u, u);
        vstd::arithmetic::div_mod::lemma_div_multiples_vanish(2 * d, u);
        assert((2 * d) * u == u * (2 * d)) by (nonlinear_arith);
        let q = x / u;
        assert(u * q <= x);
        assert(-((u - 2 * t) * d) - u < u * (q - d) <= -((u - 2 * t) * d)) by (nonlinear_arith)
            requires
                u * q <= x,
                x == u * q + x % u,
                x % u < u,
                x == 2 * d * t,
        ;
    } else {
        let x = 2 * (-d) * t;
        assert(0 <= x <= (2 * (-d)) * u) by (nonlinear_arith)
            requires
                x == 2 * (-d) * t,
                d < 0,
                0 <= t <= u,
        ;
        assert(2 * d * t == -x) by (nonlinear_arith)
            requires
                x == 2 * (-d) * t,
        ;
        vstd::arithmetic::div_mod::lemma_fundamental_div_mod(x, u);
        vstd::arithmetic::div_mod::lemma_div_pos_is_pos(x, u);
        vstd::arithmetic::div_mod::lemma_div_is_ordered(x, (2 * (-d)) * u, u);
        vstd::arithmetic::div_mod::lemma_div_multiples_vanish(2 * (-d), u);
        assert((2 * (-d)) * u == u * (2 * (-d))) by (nonlinear_arith);
        let q = x / u;
        assert(u * q <= x);
        assert((u - 2 * t) * (-d) + u > u * (-q - d) >= (u - 2 * t) * (-d)) by (nonlinear_arith)
            requires
                u * q <= x,
                x == u * q + x % u,
                x % u < u,
                x == 2 * (-d) * t,
        ;
    }
}

/// Twice the midpoint of a line.
pub fn doubled_centre_of(line: &Line) -> (c: Point)
    requires
        line.within(LINE_LIMIT as int),
    ensures
        c == doubled_centre(*line),
        c.within(2 * LINE_LIMIT),
{
    Point { x: line.start.x + line.end.x, y: line.start.y + line.end.y }
}

fn inward_of(a: i32, b: i32, t: i64) -> (r: i64)
    requires
        -LINE_LIMIT <= a <= LINE_LIMIT,
        -LINE_LIMIT <= b <= LINE_LIMIT,
        0 <= t <= UNIT,
    ensures
        r == inward(a as int, b as int, t as int),
        -4 * LINE_LIMIT <= r <= 4 * LINE_LIMIT,
{
    let d: i64 = b as i64 - a as i64;
    proof {
        lemma_inward(a as int, b as int, t as int);
        assert(-0x4000_0000 * UNIT <= 2 * d * t <= 0x4000_0000 * UNIT) by (nonlinear_arith)
            requires
                -0x2000_0000 <= d <= 0x2000_0000,
                0 <= t <= UNIT,
        ;
    }
    2 * a as i64 + div_toward_zero(2 * d * t, UNIT)
}

/// The doubled spoke of the circle that starts at parameter `t` of `line`.
pub fn doubled_spoke_of(line: &Line, t: i64) -> (v: Vector)
    requires
        line.within(LINE_LIMIT as int),
        0 <= t <= UNIT,
    ensures
        v == doubled_spoke(*line, t as int),
        v.within(2 * LINE_LIMIT),
{
    proof {
        lemma_inward(line.start.x as int, line.end.x as int, t as int);
        lemma_inward(line.start.y as int, line.end.y as int, t as int);
    }
    let x: i64 = inward_of(line.start.x, line.end.x, t);
    let y: i64 = inward_of(line.start.y, line.end.y, t);
    Vector {
        dx: x - line.start.x as i64 - line.end.x as i64,
        dy: y - line.start.y as i64 - line.end.y as i64,
    }
}

/// Tests whether every tested point of the circle with the doubled centre
/// `centre` and the doubled spoke `spoke` is inked.
pub fn ring_is_filled(shape: &Shape, centre: &Point, spoke: &Vector) -> (b: bool)
    requires
        centre.within(2 * LINE_LIMIT),
        spoke.within(2 * LINE_LIMIT),
    ensures
        b == ring_filled(shape@, *centre, *spoke),
{
    let mut j: u32 = 0;
    while j < CIRCLE_SAMPLES
        invariant
            j <= CIRCLE_SAMPLES,
            centre.within(2 * LINE_LIMIT),
            spoke.within(2 * LINE_LIMIT),
            forall|k: int|
                0 <= k < j ==> filled(shape@, #[trigger] circle_sample(*centre, *spoke, k)),
        decreases CIRCLE_SAMPLES - j,
    {
        proof {
            lemma_rotated_bounds(*spoke, (j * SAMPLE_DEGREES) as int, 2 * LINE_LIMIT);
        }
        let turned = spoke.rotate(j * SAMPLE_DEGREES);
        let sample = Point {
            x: div_floor(centre.x as i64 + turned.dx, 2) as i32,
            y: div_floor(centre.y as i64 + turned.dy, 2) as i32,
        };
        assert(sample == circle_sample(*centre, *spoke, j as int));
        if !shape.is_filled(sample) {
            return false;
        }
        j += 1;
    }
    true
}

/// Tests the circle about the midpoint of `rib` through its point at `t`,
/// and fits it where it is accepted.
fn fit_at(shape: &Shape, rib: &Rib, centre: &Point, t: i64, unit: i32) -> (r: Option<FittedWidth>)
    requires
        rib.line.within(LINE_LIMIT as int),
        *centre == doubled_centre(rib.line),
        centre.within(2 * LINE_LIMIT),
        0 <= t <= UNIT,
        unit >= 1,
    ensures
        r == (if circle_accepted(shape@, *rib, unit as int, t as int) {
            Some(fitted_at(*rib, t as int))
        } else {
            None
        }),
{
    let spoke = doubled_spoke_of(&rib.line, t);
    assert(0 <= spoke.dx * spoke.dx <= 0x2000_0000 * 0x2000_0000) by (nonlinear_arith)
        requires
            -0x2000_0000 <= spoke.dx <= 0x2000_0000,
    ;
    assert(0 <= spoke.dy * spoke.dy <= 0x2000_0000 * 0x2000_0000) by (nonlinear_arith)
        requires
            -0x2000_0000 <= spoke.dy <= 0x2000_0000,
    ;
    assert(0 <= unit * unit <= 0x8000_0000 * 0x8000_0000) by (nonlinear_arith)
        requires
            1 <= unit <= 0x7fff_ffff,
    ;
    let squared: u64 = (spoke.dx * spoke.dx) as u64 + (spoke.dy * spoke.dy) as u64;
    let least: u128 = 4 * ((unit as u128) * (unit as u128));
    if squared as u128 > least && ring_is_filled(shape, centre, &spoke) {
        Some(
            FittedWidth {
                rib: *rib,
                centre_doubled: *centre,
                diameter_squared: squared,
                diameter: ceil_sqrt(squared) as i64,
            },
        )
    } else {
        None
    }
}

/// Fits a circle to one rib. `unit` is the radius that a circle must
/// exceed, in lattice steps.
pub fn fit_rib(shape: &Shape, rib: &Rib, unit: i32) -> (r: Option<FittedWidth>)
    requires
        rib.line.within(LINE_LIMIT as int),
        unit >= 1,
    ensures
        r == fit_of(shape@, *rib, unit as int),
        r matches Some(f) ==> fit_holds(f, unit as int),
{
    let centre = doubled_centre_of(&rib.line);
    let mut t: i64 = 0;
    let mut step: i64 = FIRST_STEP;
    proof {
        lemma_fit_holds(shape@, *rib, unit as int);
    }
    while t <= SEARCH_END
        invariant
            rib.line.within(LINE_LIMIT as int),
            centre == doubled_centre(rib.line),
            centre.within(2 * LINE_LIMIT),
            unit >= 1,
            0 <= t,
            t == step - FIRST_STEP,
            fit_of(shape@, *rib, unit as int) == fit_from(
                shape@,
                *rib,
                unit as int,
                t as int,
                step as int,
            ),
            fit_of(shape@, *rib, unit as int) matches Some(f) ==> fit_holds(f, unit as int),
        decreases (if t <= SEARCH_END { SEARCH_END - t + 1 } else { 0 }),
    {
        match fit_at(shape, rib, &centre, t, unit) {
            Some(f) => {
                return Some(f);
            },
            None => {},
        }
        t = t + step;
        step = step + step;
    }
    None
}

/// The search tries its rounds in turn: the fit of a rib is that of the
/// first accepted circle among those at nought, one, three, seven,
/// fifteen, thirty-one and sixty-three thousandths of it.
pub proof fn lemma_fit_is_first_accepted(segs: Seq<Segment>, rib: Rib, unit: int)
    ensures
        fit_of(segs, rib, unit) == first_accepted(segs, rib, unit, 0),
{
    let at = |t: int, step: int| fit_from(segs, rib, unit, t, step);
    assert(at(127_000_000, 128_000_000) is None);
    assert(at(63_000_000, 64_000_000) == first_accepted(segs, rib, unit, 6)) by {
        assert(first_accepted(segs, rib, unit, 7) is None);
    }
    assert(at(31_000_000, 32_000_000) == first_accepted(segs, rib, unit, 5));
    assert(at(15_000_000, 16_000_000) == first_accepted(segs, rib, unit, 4));
    assert(at(7_000_000, 8_000_000) == first_accepted(segs, rib, unit, 3));
    assert(at(3_000_000, 4_000_000) == first_accepted(segs, rib, unit, 2));
    assert(at(1_000_000, 2_000_000) == first_accepted(segs, rib, unit, 1));
    assert(at(0, 1_000_000) == first_accepted(segs, rib, unit, 0));
}

/// What holds of the circle at any round of the search, once accepted.
proof fn lemma_round_holds(segs: Seq<Segment>, rib: Rib, unit: int, k: int)
    requires
        rib.line.within(LINE_LIMIT as int),
        unit >= 0,
        0 <= k < SEARCH_ROUNDS,
        circle_accepted(segs, rib, unit, search_param(k)),
    ensures
        fit_holds(fitted_at(rib, search_param(k)), unit),
{
    let t = search_param(k);
    let line = rib.line;
    let spoke = doubled_spoke(line, t);
    let squared = length_squared(spoke);
    lemma_inward(line.start.x as int, line.end.x as int, t);
    lemma_inward(line.start.y as int, line.end.y as int, t);
    let dx = line.end.x - line.start.x;
    let dy = line.end.y - line.start.y;
    let sx = spoke.dx as int;
    let sy = spoke.dy as int;
    lemma_squares(sx, dx, t);
    lemma_squares(sy, dy, t);
    assert(unit * unit >= 0) by (nonlinear_arith);
    assert(squared <= 0x2000_0000 * 0x2000_0000 + 0x2000_0000 * 0x2000_0000) by (nonlinear_arith)
        requires
            squared == sx * sx + sy * sy,
            sx * sx <= dx * dx,
            sy * sy <= dy * dy,
            -0x2000_0000 <= dx <= 0x2000_0000,
            -0x2000_0000 <= dy <= 0x2000_0000,
    ;
    lemma_sqrt_ceil(squared, 2 * unit);
    lemma_sqrt_ceil(squared, 0x4000_0000);
    assert((2 * unit) * (2 * unit) == 4 * (unit * unit)) by (nonlinear_arith);
    assert(0x4000_0000int * 0x4000_0000 >= squared);
}

/// The square of a doubled spoke's component lies between the squares of
/// the line's component and of the part that the parameter leaves of it.
proof fn lemma_squares(s: int, d: int, t: int)
    requires
        0 <= t <= 63_000_000,
        d >= 0 ==> -d <= s <= d && UNIT * s <= -((UNIT - 2 * t) * d),
        d <= 0 ==> d <= s <= -d && UNIT * s >= (UNIT - 2 * t) * (-d),
    ensures
        s * s <= d * d,
        1_000_000 * (s * s) >= 763_876 * (d * d),
{
    let u = UNIT as int;
    let m = if d >= 0 { d } else { -d };
    let r = if s >= 0 { s } else { -s };
    assert(1000 * r >= 874 * m && r <= m) by (nonlinear_arith)
        requires
            0 <= t <= 63_000_000,
            u == 1_000_000_000,
            m == (if d >= 0 { d } else { -d }),
            r == (if s >= 0 { s } else { -s }),
            d >= 0 ==> -d <= s <= d && u * s <= -((u - 2 * t) * d),
            d <= 0 ==> d <= s <= -d && u * s >= (u - 2 * t) * (-d),
    ;
    assert(r * r == s * s && m * m == d * d) by (nonlinear_arith)
        requires
            m == (if d >= 0 { d } else { -d }),
            r == (if s >= 0 { s } else { -s }),
    ;
    assert(r * r <= m * m && 1_000_000 * (r * r) >= 763_876 * (m * m)) by (nonlinear_arith)
        requires
            0 <= r <= m,
            1000 * r >= 874 * m,
    ;
}

/// What the first accepted circle from round `k` on is, holds of it.
proof fn lemma_first_accepted_holds(segs: Seq<Segment>, rib: Rib, unit: int, k: int)
    requires
        rib.line.within(LINE_LIMIT as int),
        unit >= 0,
        0 <= k,
    ensures
        first_accepted(segs, rib, unit, k) matches Some(f) ==> fit_holds(f, unit) && f.rib == rib,
    decreases SEARCH_ROUNDS - k,
{
    if k < SEARCH_ROUNDS {
        if circle_accepted(segs, rib, unit, search_param(k)) {
            lemma_round_holds(segs, rib, unit, k);
        } else {
            lemma_first_accepted_holds(segs, rib, unit, k + 1);
        }
    }
}

/// Every fit is sound: its squared diameter exceeds that of two units, so
/// its radius exceeds one unit and its width two; the width is the root of
/// the squared diameter rounded up; the circle stands about the midpoint
/// of its rib, reaches no farther than the rib, and has a radius of no
/// less than 0.437 of the rib's length.
pub proof fn lemma_fit_holds(segs: Seq<Segment>, rib: Rib, unit: int)
    requires
        rib.line.within(LINE_LIMIT as int),
        unit >= 0,
    ensures
        fit_of(segs, rib, unit) matches Some(f) ==> fit_holds(f, unit) && f.rib == rib,
{
    lemma_fit_is_first_accepted(segs, rib, unit);
    lemma_first_accepted_holds(segs, rib, unit, 0);
}

/// The tested points of a circle are the same whichever way its rib runs.
proof fn lemma_ring_ignores_direction(segs: Seq<Segment>, centre: Point, spoke: Vector)
    requires
        spoke.within(2 * LINE_LIMIT),
        ring_filled(segs, centre, spoke),
    ensures
        ring_filled(segs, centre, spoke.reversed()),
{
    assert forall|j: int| 0 <= j < CIRCLE_SAMPLES implies filled(
        segs,
        #[trigger] circle_sample(centre, spoke.reversed(), j),
    ) by {
        let degrees = j * SAMPLE_DEGREES;
        lemma_rotated_reversed(spoke, degrees);
        if degrees < 180 {
            lemma_half_turn(spoke, degrees);
            let k = j + 45;
            assert(k * SAMPLE_DEGREES == degrees + 180);
            assert(circle_sample(centre, spoke.reversed(), j) == circle_sample(centre, spoke, k));
            assert(filled(segs, circle_sample(centre, spoke, k)));
        } else {
            lemma_half_turn(spoke, degrees - 180);
            lemma_rotated_bounds(spoke, degrees - 180, 2 * LINE_LIMIT);
            let k = j - 45;
            assert(k * SAMPLE_DEGREES == degrees - 180);
            assert(spoke.rotated(degrees - 180).reversed().reversed() == spoke.rotated(
                degrees - 180,
            ));
            assert(circle_sample(centre, spoke.reversed(), j) == circle_sample(centre, spoke, k));
            assert(filled(segs, circle_sample(centre, spoke, k)));
        }
    }
}

/// Run the other way, a rib has the same doubled centre and the opposite
/// doubled spoke at every parameter.
proof fn lemma_reversed_spoke(rib: Rib, t: int)
    requires
        rib.line.within(LINE_LIMIT as int),
        0 <= t <= UNIT,
    ensures
        doubled_centre(rib.reversed().line) == doubled_centre(rib.line),
        doubled_spoke(rib.reversed().line, t) == doubled_spoke(rib.line, t).reversed(),
        length_squared(doubled_spoke(rib.reversed().line, t)) == length_squared(
            doubled_spoke(rib.line, t),
        ),
        doubled_spoke(rib.line, t).within(2 * LINE_LIMIT),
{
    let line = rib.line;
    lemma_inward(line.start.x as int, line.end.x as int, t);
    lemma_inward(line.start.y as int, line.end.y as int, t);
    lemma_inward(line.end.x as int, line.start.x as int, t);
    lemma_inward(line.end.y as int, line.start.y as int, t);
    let v = doubled_spoke(line, t);
    assert((-v.dx) * (-v.dx) == v.dx * v.dx && (-v.dy) * (-v.dy) == v.dy * v.dy)
        by (nonlinear_arith);
}

/// A circle is accepted for a rib exactly where it is accepted for the
/// rib run the other way.
proof fn lemma_accepted_ignores_direction(segs: Seq<Segment>, rib: Rib, unit: int, t: int)
    requires
        rib.line.within(LINE_LIMIT as int),
        0 <= t <= UNIT,
    ensures
        circle_accepted(segs, rib.reversed(), unit, t) == circle_accepted(segs, rib, unit, t),
{
    lemma_reversed_spoke(rib, t);
    let centre = doubled_centre(rib.line);
    let spoke = doubled_spoke(rib.line, t);
    if ring_filled(segs, centre, spoke) {
        lemma_ring_ignores_direction(segs, centre, spoke);
    }
    if ring_filled(segs, centre, spoke.reversed()) {
        lemma_ring_ignores_direction(segs, centre, spoke.reversed());
        assert(spoke.reversed().reversed() == spoke);
    }
}

proof fn lemma_first_accepted_ignores_direction(segs: Seq<Segment>, rib: Rib, unit: int, k: int)
    requires
        rib.line.within(LINE_LIMIT as int),
        0 <= k,
    ensures
        first_accepted(segs, rib.reversed(), unit, k) is Some == first_accepted(
            segs,
            rib,
            unit,
            k,
        ) is Some,
        first_accepted(segs, rib, unit, k) matches Some(f) ==> {
            let g = first_accepted(segs, rib.reversed(), unit, k)->Some_0;
            &&& g.rib == rib.reversed()
            &&& g.centre_doubled == f.centre_doubled
            &&& g.diameter_squared == f.diameter_squared
            &&& g.diameter == f.diameter
        },
    decreases SEARCH_ROUNDS - k,
{
    if k < SEARCH_ROUNDS {
        lemma_accepted_ignores_direction(segs, rib, unit, search_param(k));
        lemma_reversed_spoke(rib, search_param(k));
        if !circle_accepted(segs, rib, unit, search_param(k)) {
            lemma_first_accepted_ignores_direction(segs, rib, unit, k + 1);
        }
    }
}

/// The fit does not depend on the direction of the rib: run the other
/// way, a rib is fitted exactly where it was, with the same centre and the
/// same diameter.
pub proof fn lemma_fit_ignores_direction(segs: Seq<Segment>, rib: Rib, unit: int)
    requires
        rib.line.within(LINE_LIMIT as int),
    ensures
        fit_of(segs, rib.reversed(), unit) is Some == fit_of(segs, rib, unit) is Some,
        fit_of(segs, rib, unit) matches Some(f) ==> {
            let g = fit_of(segs, rib.reversed(), unit)->Some_0;
            &&& g.rib == rib.reversed()
            &&& g.centre_doubled == f.centre_doubled
            &&& g.diameter_squared == f.diameter_squared
            &&& g.diameter == f.diameter
        },
{
    lemma_fit_is_first_accepted(segs, rib, unit);
    lemma_fit_is_first_accepted(segs, rib.reversed(), unit);
    lemma_first_accepted_ignores_direction(segs, rib, unit, 0);
}

/// Every fit among the fits of ribs on the lattice is sound.
pub proof fn lemma_fit_all_holds(segs: Seq<Segment>, ribs: Seq<Rib>, unit: int)
    requires
        unit >= 0,
        forall|k: int| 0 <= k < ribs.len() ==> (#[trigger] ribs[k]).line.within(LINE_LIMIT as int),
    ensures
        fits_hold(fit_all(segs, ribs, unit), unit),
        fit_all(segs, ribs, unit).len() <= ribs.len(),
    decreases ribs.len(),
{
    if ribs.len() > 0 {
        let front = ribs.drop_last();
        assert forall|k: int| 0 <= k < front.len() implies (#[trigger] front[k]).line.within(
            LINE_LIMIT as int,
        ) by {
            assert(front[k] == ribs[k]);
        }
        lemma_fit_all_holds(segs, front, unit);
        assert(ribs.last() == ribs[ribs.len() - 1]);
        lemma_fit_holds(segs, ribs.last(), unit);
        let before = fit_all(segs, front, unit);
        let all = fit_all(segs, ribs, unit);
        assert forall|i: int| 0 <= i < all.len() implies fit_holds(#[trigger] all[i], unit) by {
            if i < before.len() {
                assert(all[i] == before[i]);
            }
        }
    }
}

/// The indices of the ribs that are fitted, in ascending order.
pub open spec fn fitted_indices(segs: Seq<Segment>, ribs: Seq<Rib>, unit: int) -> Seq<int>
    decreases ribs.len(),
{
    if ribs.len() == 0 {
        Seq::<int>::empty()
    } else {
        let before = fitted_indices(segs, ribs.drop_last(), unit);
        if fit_of(segs, ribs.last(), unit) is Some {
            before.push(ribs.len() - 1)
        } else {
            before
        }
    }
}

/// Whether `fit` is what fitting gives for the rib of index `i`, which it
/// holds unaltered.
pub open spec fn fit_of_index(segs: Seq<Segment>, ribs: Seq<Rib>, unit: int, i: int, fit: FittedWidth)
    -> bool {
    0 <= i < ribs.len() && fit_of(segs, ribs[i], unit) == Some(fit) && fit.rib == ribs[i]
}

/// Each fit is the fit of the rib whose index stands at its place.
pub proof fn lemma_fits_follow_indices(segs: Seq<Segment>, ribs: Seq<Rib>, unit: int)
    requires
        unit >= 0,
        forall|k: int| 0 <= k < ribs.len() ==> (#[trigger] ribs[k]).line.within(LINE_LIMIT as int),
    ensures
        fitted_indices(segs, ribs, unit).len() == fit_all(segs, ribs, unit).len(),
        forall|k: int|
            0 <= k < fit_all(segs, ribs, unit).len() ==> fit_of_index(
                segs,
                ribs,
                unit,
                #[trigger] fitted_indices(segs, ribs, unit)[k],
                fit_all(segs, ribs, unit)[k],
            ),
    decreases ribs.len(),
{
    if ribs.len() > 0 {
        let front = ribs.drop_last();
        let last = ribs.len() - 1;
        assert forall|k: int| 0 <= k < front.len() implies (#[trigger] front[k]).line.within(
            LINE_LIMIT as int,
        ) by {
            assert(front[k] == ribs[k]);
        }
        lemma_fits_follow_indices(segs, front, unit);
        lemma_fit_holds(segs, ribs.last(), unit);
        let before = fitted_indices(segs, front, unit);
        let all = fitted_indices(segs, ribs, unit);
        let fits = fit_all(segs, ribs, unit);
        let fits_before = fit_all(segs, front, unit);
        assert(ribs.last() == ribs[last]);
        assert forall|k: int| 0 <= k < fits.len() implies fit_of_index(
            segs,
            ribs,
            unit,
            #[trigger] all[k],
            fits[k],
        ) by {
            if k < fits_before.len() {
                assert(all[k] == before[k]);
                assert(fits[k] == fits_before[k]);
                assert(fit_of_index(segs, front, unit, before[k], fits_before[k]));
                assert(front[before[k]] == ribs[before[k]]);
            } else {
                assert(all[k] == last);
            }
        }
    }
}

/// The indices of the fitted ribs ascend, lie among the ribs, and leave
/// out no rib that admits a fit.
pub proof fn lemma_fitted_indices_ascend(segs: Seq<Segment>, ribs: Seq<Rib>, unit: int)
    ensures
        forall|k: int|
            0 <= k < fitted_indices(segs, ribs, unit).len() ==> 0 <= #[trigger] fitted_indices(
                segs,
                ribs,
                unit,
            )[k] < ribs.len(),
        forall|j: int, k: int|
            0 <= j < k < fitted_indices(segs, ribs, unit).len() ==> fitted_indices(
                segs,
                ribs,
                unit,
            )[j] < fitted_indices(segs, ribs, unit)[k],
        forall|i: int|
            0 <= i < ribs.len() && fit_of(segs, #[trigger] ribs[i], unit) is Some
                ==> fitted_indices(segs, ribs, unit).contains(i),
    decreases ribs.len(),
{
    if ribs.len() > 0 {
        let front = ribs.drop_last();
        let last = ribs.len() - 1;
        lemma_fitted_indices_ascend(segs, front, unit);
        let before = fitted_indices(segs, front, unit);
        let all = fitted_indices(segs, ribs, unit);
        assert(ribs.last() == ribs[last]);
        assert forall|k: int| 0 <= k < all.len() implies 0 <= #[trigger] all[k] < ribs.len() by {
            if k < before.len() {
                assert(all[k] == before[k]);
            }
        }
        assert forall|j: int, k: int| 0 <= j < k < all.len() implies all[j] < all[k] by {
            assert(all[j] == before[j]);
            if k < before.len() {
                assert(all[k] == before[k]);
            }
        }
        assert forall|i: int|
            0 <= i < ribs.len() && fit_of(segs, #[trigger] ribs[i], unit) is Some implies all.contains(
            i,
        ) by {
            if i < last {
                assert(front[i] == ribs[i]);
                assert(before.contains(i));
                let k = choose|k: int| 0 <= k < before.len() && before[k] == i;
                assert(all[k] == i);
            } else {
                assert(all[all.len() - 1] == i);
            }
        }
    }
}

/// Fitting keeps the order of the ribs and drops some: there are no more
/// fits than ribs.
pub proof fn lemma_fit_all_counts(segs: Seq<Segment>, ribs: Seq<Rib>, unit: int)
    ensures
        fit_all(segs, ribs, unit).len() <= ribs.len(),
    decreases ribs.len(),
{
    if ribs.len() > 0 {
        lemma_fit_all_counts(segs, ribs.drop_last(), unit);
    }
}

/// The least width is the width of some fit and exceeds none; the greatest
/// is the width of some fit and none exceeds it; and there is neither
/// exactly where there is no fit.
pub proof fn lemma_extremes(fits: Seq<FittedWidth>)
    ensures
        narrowest(fits) is None <==> fits.len() == 0,
        widest(fits) is None <==> fits.len() == 0,
        narrowest(fits) matches Some(m) ==> (forall|i: int|
            0 <= i < fits.len() ==> m <= (#[trigger] fits[i]).diameter) && (exists|i: int|
            0 <= i < fits.len() && m == (#[trigger] fits[i]).diameter),
        widest(fits) matches Some(m) ==> (forall|i: int|
            0 <= i < fits.len() ==> m >= (#[trigger] fits[i]).diameter) && (exists|i: int|
            0 <= i < fits.len() && m == (#[trigger] fits[i]).diameter),
        narrowest(fits) matches Some(a) ==> (widest(fits) matches Some(b) ==> a <= b),
    decreases fits.len(),
{
    if fits.len() > 0 {
        let front = fits.drop_last();
        let last = fits.len() - 1;
        lemma_extremes(front);
        if front.len() > 0 {
            let m = narrowest(front)->Some_0;
            let k = choose|i: int| 0 <= i < front.len() && m == (#[trigger] front[i]).diameter;
            assert(front[k] == fits[k]);
            let w = widest(front)->Some_0;
            let kw = choose|i: int| 0 <= i < front.len() && w == (#[trigger] front[i]).diameter;
            assert(front[kw] == fits[kw]);
            assert forall|i: int| 0 <= i < fits.len() implies narrowest(fits)->Some_0 <= (
            #[trigger] fits[i]).diameter by {
                if i < last {
                    assert(front[i] == fits[i]);
                }
            }
            assert forall|i: int| 0 <= i < fits.len() implies widest(fits)->Some_0 >= (
            #[trigger] fits[i]).diameter by {
                if i < last {
                    assert(front[i] == fits[i]);
                }
            }
            if fits[last].diameter < m {
                assert(narrowest(fits)->Some_0 == fits[last].diameter);
            } else {
                assert(narrowest(fits)->Some_0 == fits[k].diameter);
            }
            if fits[last].diameter > w {
                assert(widest(fits)->Some_0 == fits[last].diameter);
            } else {
                assert(widest(fits)->Some_0 == fits[kw].diameter);
            }
        } else {
            assert(narrowest(fits)->Some_0 == fits[last].diameter);
            assert(widest(fits)->Some_0 == fits[last].diameter);
        }
    }
}

} // verus!
