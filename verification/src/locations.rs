//! The design locations at which a family is measured, and the scale that
//! brings widths to a common unit.

use vstd::prelude::*;
use crate::fixed::{round_div, div_round};

verus! {

/// The distance between the weights at which a variable family is
/// measured.
pub const WEIGHT_STEP: i32 = 100;

/// The units per em to which widths are normalised.
pub const COMMON_UNITS_PER_EM: u32 = 1000;

/// A design location: a weight, or the default of the family where it has
/// no weight axis.
#[derive(Clone, Copy, Debug, PartialEq, Eq, Structural)]
pub struct Location {
    /// The weight, where the family has a weight axis.
    pub weight: Option<i32>,
}

/// The locations at the weights from `min` to `max`, `WEIGHT_STEP` apart.
pub open spec fn weight_stops(min: int, max: int) -> Seq<Location>
    decreases (if min <= max { max - min + 1 } else { 0 }),
{
    if min > max {
        Seq::<Location>::empty()
    } else {
        seq![Location { weight: Some(min as i32) }] + weight_stops(min + WEIGHT_STEP, max)
    }
}

/// The locations of interest of a family whose weight axis, if it has
/// one, runs over `axis`: the default location alone where there is no
/// axis, else every hundredth weight of the axis from its least.
pub open spec fn locations_for(axis: Option<(i32, i32)>) -> Seq<Location> {
    match axis {
        None => seq![Location { weight: None }],
        Some((min, max)) => weight_stops(min as int, max as int),
    }
}

/// The `k`-th stop is the least weight and `k` steps, and there are as
/// many stops as fit below the greatest weight.
pub proof fn lemma_weight_stops(min: int, max: int, k: int)
    requires
        i32::MIN <= min,
        max <= i32::MAX,
        0 <= k,
        min + k * WEIGHT_STEP <= max,
    ensures
        k < weight_stops(min, max).len(),
        weight_stops(min, max)[k] == (Location { weight: Some((min + k * WEIGHT_STEP) as i32) }),
    decreases k,
{
    if k > 0 {
        lemma_weight_stops(min + WEIGHT_STEP, max, k - 1);
        assert(weight_stops(min, max)[k] == weight_stops(min + WEIGHT_STEP, max)[k - 1]);
        assert(min + WEIGHT_STEP + (k - 1) * WEIGHT_STEP == min + k * WEIGHT_STEP) by (nonlinear_arith)
            requires
                WEIGHT_STEP == 100,
        ;
    }
}

/// Lists the locations of interest.
pub fn locations_of_interest(axis: Option<(i32, i32)>) -> (out: Vec<Location>)
    ensures
        out@ == locations_for(axis),
{
    let mut out: Vec<Location> = Vec::new();
    match axis {
        None => {
            out.push(Location { weight: None });
            assert(out@ =~= seq![Location { weight: None }]);
        },
        Some((min, max)) => {
            let mut w: i64 = min as i64;
            while w <= max as i64
                invariant
                    min <= w,
                    w <= max + WEIGHT_STEP || w == min,
                    out@ + weight_stops(w as int, max as int) == weight_stops(min as int, max as int),
                decreases max + WEIGHT_STEP - w,
            {
                let ghost before = out@;
                out.push(Location { weight: Some(w as i32) });
                proof {
                    assert(out@ + weight_stops(w + WEIGHT_STEP, max as int) =~= before + weight_stops(
                        w as int,
                        max as int,
                    ));
                }
                w = w + WEIGHT_STEP as i64;
            }
            assert(out@ + Seq::<Location>::empty() =~= out@);
        },
    }
    out
}

/// A multiplier, as a fraction, that brings widths to the common unit.
#[derive(Clone, Copy, Debug, PartialEq, Eq, Structural)]
pub struct Scale {
    /// The units per em that widths are brought to.
    pub numerator: u32,
    /// The units per em of the font.
    pub denominator: u32,
}

impl Scale {
    /// `width`, given in lattice steps of which `unit` make one unit of
    /// the shape, in hundredths of the common unit, rounded.
    pub open spec fn hundredths(self, width: int, unit: int) -> int {
        round_div(width * self.numerator * 100, self.denominator * unit)
    }

    /// Brings a width to hundredths of the common unit.
    pub fn apply(&self, width: i64, unit: i32) -> (w: i64)
        requires
            0 <= width <= 0x1_0000_0000,
            unit >= 1,
            1 <= self.denominator <= 0xffff,
            self.numerator <= 0x10_0000,
        ensures
            w == self.hundredths(width as int, unit as int),
    {
        let n: i64 = self.numerator as i64 * 100;
        assert(0 <= width * n <= 0x1_0000_0000 * 0x640_0000) by (nonlinear_arith)
            requires
                0 <= width <= 0x1_0000_0000,
                0 <= n <= 0x640_0000,
        ;
        assert(1 <= (self.denominator as i64) * (unit as i64) <= 0x1_0000 * 0x8000_0000)
            by (nonlinear_arith)
            requires
                1 <= self.denominator <= 0xffff,
                1 <= unit <= 0x7fff_ffff,
        ;
        assert(width * self.numerator * 100 == width * n) by (nonlinear_arith)
            requires
                n == self.numerator * 100,
        ;
        div_round(width * n, self.denominator as i64 * unit as i64)
    }
}

/// The scale of a font with `units_per_em` units to the em: a thousand
/// over that many. A font with no units has none.
pub open spec fn scale_for(units_per_em: u16) -> Option<Scale> {
    if units_per_em == 0 {
        None
    } else {
        Some(Scale { numerator: COMMON_UNITS_PER_EM, denominator: units_per_em as u32 })
    }
}

/// Computes the multiplier that brings font units to the common unit.
pub fn normalization_scale(units_per_em: u16) -> (s: Option<Scale>)
    ensures
        s == scale_for(units_per_em),
{
    if units_per_em == 0 {
        None
    } else {
        Some(Scale { numerator: COMMON_UNITS_PER_EM, denominator: units_per_em as u32 })
    }
}

} // verus!
