//! Directions at whole degrees and rotation on the lattice.
//!
//! Turns are made with a table of sines, not with `kurbo`'s
//! `Affine::rotate_about`: that takes its sine and cosine from the
//! platform in floating point, whose last digits are not the same
//! everywhere, while the table makes every turn exact and repeatable. The
//! table holds the sines of 0 to 90 degrees rounded to the nearest
//! billionth.

use vstd::prelude::*;
use crate::fixed::{UNIT, round_div_away, div_round_away, lemma_round_div_bounds, lemma_round_div_away_bounds, lemma_round_div_away_negates};
use crate::geometry::Vector;

verus! {

/// The sine of `degrees`, from 0 to 90, in billionths.
#[verifier::opaque]
pub open spec fn quarter_sine(degrees: u32) -> int {
    match degrees {
        0 => 0,
        1 => 17452406,
        2 => 34899497,
        3 => 52335956,
        4 => 69756474,
        5 => 87155743,
        6 => 104528463,
        7 => 121869343,
        8 => 139173101,
        9 => 156434465,
        10 => 173648178,
        11 => 190808995,
        12 => 207911691,
        13 => 224951054,
        14 => 241921896,
        15 => 258819045,
        16 => 275637356,
        17 => 292371705,
        18 => 309016994,
        19 => 325568154,
        20 => 342020143,
        21 => 358367950,
        22 => 374606593,
        23 => 390731128,
        24 => 406736643,
        25 => 422618262,
        26 => 438371147,
        27 => 453990500,
        28 => 469471563,
        29 => 484809620,
        30 => 500000000,
        31 => 515038075,
        32 => 529919264,
        33 => 544639035,
        34 => 559192903,
        35 => 573576436,
        36 => 587785252,
        37 => 601815023,
        38 => 615661475,
        39 => 629320391,
        40 => 642787610,
        41 => 656059029,
        42 => 669130606,
        43 => 681998360,
        44 => 694658370,
        45 => 707106781,
        46 => 719339800,
        47 => 731353702,
        48 => 743144825,
        49 => 754709580,
        50 => 766044443,
        51 => 777145961,
        52 => 788010754,
        53 => 798635510,
        54 => 809016994,
        55 => 819152044,
        56 => 829037573,
        57 => 838670568,
        58 => 848048096,
        59 => 857167301,
        60 => 866025404,
        61 => 874619707,
        62 => 882947593,
        63 => 891006524,
        64 => 898794046,
        65 => 906307787,
        66 => 913545458,
        67 => 920504853,
        68 => 927183855,
        69 => 933580426,
        70 => 939692621,
        71 => 945518576,
        72 => 951056516,
        73 => 956304756,
        74 => 961261696,
        75 => 965925826,
        76 => 970295726,
        77 => 974370065,
        78 => 978147601,
        79 => 981627183,
        80 => 984807753,
        81 => 987688341,
        82 => 990268069,
        83 => 992546152,
        84 => 994521895,
        85 => 996194698,
        86 => 997564050,
        87 => 998629535,
        88 => 999390827,
        89 => 999847695,
        _ => 1_000_000_000,
    }
}

/// The sine of a whole number of degrees below 360, in billionths.
pub open spec fn sine(degrees: int) -> int {
    if degrees <= 90 {
        quarter_sine((degrees) as u32)
    } else if degrees <= 180 {
        quarter_sine((180 - degrees) as u32)
    } else if degrees <= 270 {
        -quarter_sine((degrees - 180) as u32)
    } else {
        -quarter_sine((360 - degrees) as u32)
    }
}

/// The cosine of a whole number of degrees below 360, in billionths.
pub open spec fn cosine(degrees: int) -> int {
    if degrees <= 90 {
        quarter_sine((90 - degrees) as u32)
    } else if degrees <= 180 {
        -quarter_sine((degrees - 90) as u32)
    } else if degrees <= 270 {
        -quarter_sine((270 - degrees) as u32)
    } else {
        quarter_sine((degrees - 270) as u32)
    }
}

/// A sine of the first quarter lies between nought and one.
pub proof fn lemma_quarter_sine_range(degrees: u32)
    ensures
        0 <= quarter_sine(degrees) <= UNIT,
        quarter_sine(0) == 0,
        degrees >= 90 ==> quarter_sine(degrees) == UNIT,
{
    reveal(quarter_sine);
}

/// A sine and a cosine lie between minus one and one.
pub proof fn lemma_sine_range(degrees: int)
    ensures
        -UNIT <= sine(degrees) <= UNIT,
        -UNIT <= cosine(degrees) <= UNIT,
{
    if degrees <= 90 {
        lemma_quarter_sine_range(degrees as u32);
        lemma_quarter_sine_range((90 - degrees) as u32);
    } else if degrees <= 180 {
        lemma_quarter_sine_range((180 - degrees) as u32);
        lemma_quarter_sine_range((degrees - 90) as u32);
    } else if degrees <= 270 {
        lemma_quarter_sine_range((degrees - 180) as u32);
        lemma_quarter_sine_range((270 - degrees) as u32);
    } else {
        lemma_quarter_sine_range((360 - degrees) as u32);
        lemma_quarter_sine_range((degrees - 270) as u32);
    }
}

/// Looks up the sine of `degrees`, from 0 to 90.
pub fn quarter_sine_of(degrees: u32) -> (s: i64)
    requires
        degrees <= 90,
    ensures
        s == quarter_sine(degrees),
        0 <= s <= UNIT,
{
    reveal(quarter_sine);
    match degrees {
        0 => 0,
        1 => 17452406,
        2 => 34899497,
        3 => 52335956,
        4 => 69756474,
        5 => 87155743,
        6 => 104528463,
        7 => 121869343,
        8 => 139173101,
        9 => 156434465,
        10 => 173648178,
        11 => 190808995,
        12 => 207911691,
        13 => 224951054,
        14 => 241921896,
        15 => 258819045,
        16 => 275637356,
        17 => 292371705,
        18 => 309016994,
        19 => 325568154,
        20 => 342020143,
        21 => 358367950,
        22 => 374606593,
        23 => 390731128,
        24 => 406736643,
        25 => 422618262,
        26 => 438371147,
        27 => 453990500,
        28 => 469471563,
        29 => 484809620,
        30 => 500000000,
        31 => 515038075,
        32 => 529919264,
        33 => 544639035,
        34 => 559192903,
        35 => 573576436,
        36 => 587785252,
        37 => 601815023,
        38 => 615661475,
        39 => 629320391,
        40 => 642787610,
        41 => 656059029,
        42 => 669130606,
        43 => 681998360,
        44 => 694658370,
        45 => 707106781,
        46 => 719339800,
        47 => 731353702,
        48 => 743144825,
        49 => 754709580,
        50 => 766044443,
        51 => 777145961,
        52 => 788010754,
        53 => 798635510,
        54 => 809016994,
        55 => 819152044,
        56 => 829037573,
        57 => 838670568,
        58 => 848048096,
        59 => 857167301,
        60 => 866025404,
        61 => 874619707,
        62 => 882947593,
        63 => 891006524,
        64 => 898794046,
        65 => 906307787,
        66 => 913545458,
        67 => 920504853,
        68 => 927183855,
        69 => 933580426,
        70 => 939692621,
        71 => 945518576,
        72 => 951056516,
        73 => 956304756,
        74 => 961261696,
        75 => 965925826,
        76 => 970295726,
        77 => 974370065,
        78 => 978147601,
        79 => 981627183,
        80 => 984807753,
        81 => 987688341,
        82 => 990268069,
        83 => 992546152,
        84 => 994521895,
        85 => 996194698,
        86 => 997564050,
        87 => 998629535,
        88 => 999390827,
        89 => 999847695,
        _ => 1_000_000_000,
    }
}

/// The sine of `degrees`.
pub fn sine_of(degrees: u32) -> (s: i64)
    requires
        degrees < 360,
    ensures
        s == sine(degrees as int),
        -UNIT <= s <= UNIT,
{
    if degrees <= 90 {
        quarter_sine_of(degrees)
    } else if degrees <= 180 {
        quarter_sine_of(180 - degrees)
    } else if degrees <= 270 {
        -quarter_sine_of(degrees - 180)
    } else {
        -quarter_sine_of(360 - degrees)
    }
}

/// The cosine of `degrees`.
pub fn cosine_of(degrees: u32) -> (c: i64)
    requires
        degrees < 360,
    ensures
        c == cosine(degrees as int),
        -UNIT <= c <= UNIT,
{
    if degrees <= 90 {
        quarter_sine_of(90 - degrees)
    } else if degrees <= 180 {
        -quarter_sine_of(degrees - 90)
    } else if degrees <= 270 {
        -quarter_sine_of(270 - degrees)
    } else {
        quarter_sine_of(degrees - 270)
    }
}

/// Largest absolute component of a vector that can be rotated.
pub const SPIN_LIMIT: i64 = 0x4000_0000;

impl Vector {
    /// The vector turned by a whole number of degrees, rounded to the
    /// nearest lattice point, halves away from nought, so that turning the
    /// opposite vector gives the opposite.
    pub open spec fn rotated(self, degrees: int) -> Vector {
        Vector { dx: self.turned_x(degrees) as i64, dy: self.turned_y(degrees) as i64 }
    }

    /// The first component of the turned vector.
    pub open spec fn turned_x(self, degrees: int) -> int {
        round_div_away(self.dx * cosine(degrees) - self.dy * sine(degrees), UNIT as int)
    }

    /// The second component of the turned vector.
    pub open spec fn turned_y(self, degrees: int) -> int {
        round_div_away(self.dx * sine(degrees) + self.dy * cosine(degrees), UNIT as int)
    }

    /// Turns the vector by `degrees`.
    pub fn rotate(&self, degrees: u32) -> (v: Vector)
        requires
            degrees < 360,
            self.within(SPIN_LIMIT as int),
        ensures
            v == self.rotated(degrees as int),
            v.within(2 * SPIN_LIMIT),
            forall|limit: int|
                0 <= limit && self.within(limit) ==> #[trigger] v.within(2 * limit),
    {
        let c: i64 = cosine_of(degrees);
        let s: i64 = sine_of(degrees);
        let x: i64 = self.dx;
        let y: i64 = self.dy;
        proof {
            lemma_product_bound(x as int, c as int, SPIN_LIMIT as int);
            lemma_product_bound(y as int, s as int, SPIN_LIMIT as int);
            lemma_product_bound(x as int, s as int, SPIN_LIMIT as int);
            lemma_product_bound(y as int, c as int, SPIN_LIMIT as int);
            assert((-2 * SPIN_LIMIT) * UNIT == -2 * (SPIN_LIMIT * UNIT)) by (nonlinear_arith);
            assert((2 * SPIN_LIMIT) * UNIT == 2 * (SPIN_LIMIT * UNIT)) by (nonlinear_arith);
            lemma_round_div_away_bounds(x * c - y * s, UNIT as int, -2 * SPIN_LIMIT, 2 * SPIN_LIMIT);
            lemma_round_div_away_bounds(x * s + y * c, UNIT as int, -2 * SPIN_LIMIT, 2 * SPIN_LIMIT);
        }
        proof {
            assert forall|limit: int| 0 <= limit && self.within(limit) implies #[trigger] self.rotated(
                degrees as int,
            ).within(2 * limit) by {
                lemma_rotated_bounds(*self, degrees as int, limit);
            }
        }
        Vector { dx: div_round_away(x * c - y * s, UNIT), dy: div_round_away(x * s + y * c, UNIT) }
    }
}

/// A turned vector has components at most twice as large as the largest
/// component it had.
pub proof fn lemma_rotated_bounds(v: Vector, degrees: int, limit: int)
    requires
        0 <= degrees < 360,
        0 <= limit,
        v.within(limit),
    ensures
        v.rotated(degrees).within(2 * limit),
        -2 * limit <= v.turned_x(degrees) <= 2 * limit,
        -2 * limit <= v.turned_y(degrees) <= 2 * limit,
{
    let c = cosine(degrees);
    let s = sine(degrees);
    lemma_sine_range(degrees);
    lemma_product_bound(v.dx as int, c, limit);
    lemma_product_bound(v.dy as int, s, limit);
    lemma_product_bound(v.dx as int, s, limit);
    lemma_product_bound(v.dy as int, c, limit);
    assert((-2 * limit) * UNIT == -2 * (limit * UNIT)) by (nonlinear_arith);
    assert((2 * limit) * UNIT == 2 * (limit * UNIT)) by (nonlinear_arith);
    lemma_round_div_away_bounds(v.dx * c - v.dy * s, UNIT as int, -2 * limit, 2 * limit);
    lemma_round_div_away_bounds(v.dx * s + v.dy * c, UNIT as int, -2 * limit, 2 * limit);
}

/// Half a turn more makes sine and cosine their opposites.
pub proof fn lemma_opposite_angle(degrees: int)
    requires
        0 <= degrees < 180,
    ensures
        sine(degrees + 180) == -sine(degrees),
        cosine(degrees + 180) == -cosine(degrees),
{
    lemma_quarter_sine_range(0);
    lemma_quarter_sine_range(90);
}

/// The opposite vector turns to the opposite of what the vector turns to.
pub proof fn lemma_rotated_reversed(v: Vector, degrees: int)
    requires
        0 <= degrees < 360,
        v.within(SPIN_LIMIT as int),
    ensures
        v.reversed().rotated(degrees) == v.rotated(degrees).reversed(),
{
    let c = cosine(degrees);
    let s = sine(degrees);
    lemma_rotated_bounds(v, degrees, SPIN_LIMIT as int);
    assert((-v.dx) * c - (-v.dy) * s == -(v.dx * c - v.dy * s)) by (nonlinear_arith);
    assert((-v.dx) * s + (-v.dy) * c == -(v.dx * s + v.dy * c)) by (nonlinear_arith);
    lemma_round_div_away_negates(v.dx * c - v.dy * s, UNIT as int);
    lemma_round_div_away_negates(v.dx * s + v.dy * c, UNIT as int);
    assert(v.reversed().dx == -v.dx && v.reversed().dy == -v.dy);
    assert(v.reversed().turned_x(degrees) == -v.turned_x(degrees));
    assert(v.reversed().turned_y(degrees) == -v.turned_y(degrees));
}

/// Half a turn more gives the opposite vector.
pub proof fn lemma_half_turn(v: Vector, degrees: int)
    requires
        0 <= degrees < 180,
        v.within(SPIN_LIMIT as int),
    ensures
        v.rotated(degrees + 180) == v.rotated(degrees).reversed(),
{
    let c = cosine(degrees);
    let s = sine(degrees);
    lemma_opposite_angle(degrees);
    lemma_rotated_bounds(v, degrees, SPIN_LIMIT as int);
    assert(v.dx * (-c) - v.dy * (-s) == -(v.dx * c - v.dy * s)) by (nonlinear_arith);
    assert(v.dx * (-s) + v.dy * (-c) == -(v.dx * s + v.dy * c)) by (nonlinear_arith);
    lemma_round_div_away_negates(v.dx * c - v.dy * s, UNIT as int);
    lemma_round_div_away_negates(v.dx * s + v.dy * c, UNIT as int);
    assert(v.turned_x(degrees + 180) == -v.turned_x(degrees));
    assert(v.turned_y(degrees + 180) == -v.turned_y(degrees));
}

/// A component times a sine or cosine is no larger than the component's
/// bound times one.
pub proof fn lemma_product_bound(x: int, c: int, limit: int)
    requires
        -limit <= x <= limit,
        -UNIT <= c <= UNIT,
    ensures
        -(limit * UNIT) <= x * c <= limit * UNIT,
{
    assert(-(limit * UNIT) <= x * c <= limit * UNIT) by (nonlinear_arith)
        requires
            -limit <= x <= limit,
            -UNIT <= c <= UNIT,
    ;
}

/// A turn by no degrees changes nothing.
pub proof fn lemma_rotated_by_zero(v: Vector)
    ensures
        v.rotated(0) == v,
{
    lemma_quarter_sine_range(0);
    lemma_quarter_sine_range(90);
    assert(v.dx * cosine(0) - v.dy * sine(0) == v.dx * UNIT) by (nonlinear_arith)
        requires
            cosine(0) == UNIT,
            sine(0) == 0,
    ;
    assert(v.dx * sine(0) + v.dy * cosine(0) == v.dy * UNIT) by (nonlinear_arith)
        requires
            cosine(0) == UNIT,
            sine(0) == 0,
    ;
    lemma_round_div_bounds(v.dx * UNIT, UNIT as int, v.dx as int, v.dx as int);
    lemma_round_div_bounds(v.dy * UNIT, UNIT as int, v.dy as int, v.dy as int);
    assert(-(v.dx * UNIT) == (-v.dx) * UNIT && -(v.dy * UNIT) == (-v.dy) * UNIT)
        by (nonlinear_arith);
    lemma_round_div_bounds((-v.dx) * UNIT, UNIT as int, -v.dx, -v.dx);
    lemma_round_div_bounds((-v.dy) * UNIT, UNIT as int, -v.dy, -v.dy);
    assert(v.dx >= 0 <==> v.dx * UNIT >= 0) by (nonlinear_arith);
    assert(v.dy >= 0 <==> v.dy * UNIT >= 0) by (nonlinear_arith);
}

} // verus!
