//! The result of a measurement.

use vstd::prelude::*;
use crate::error::MeasureError;
use crate::geometry::{Line, Segment, LINE_LIMIT};
use crate::classifier::Shape;
use crate::extract::Rib;
use crate::fit::{FittedWidth, fit_all, fit_rib, narrowest, widest, fits_hold, lemma_extremes, lemma_fit_all_holds};

verus! {

/// How a fitted rib stands among the others of a measurement.
#[derive(Clone, Copy, Debug, PartialEq, Eq, Structural)]
pub enum Highlight {
    /// Its width is the greatest, within the tolerance.
    Widest,
    /// Its width is the least, within the tolerance.
    Narrowest,
    /// Its width is neither.
    Ordinary,
}

/// How near an extreme a width must lie to be highlighted with it: a
/// tenth of a unit, where `unit` lattice steps make a unit.
pub open spec fn highlight_tolerance(unit: int) -> int {
    unit / 10
}

/// How a rib of the given width stands between `min` and `max`: with the
/// widest first, where it is near both.
pub open spec fn highlight_of(width: int, min: Option<i64>, max: Option<i64>, unit: int)
    -> Highlight {
    let tolerance = highlight_tolerance(unit);
    if max is Some && -tolerance <= width - max->Some_0 <= tolerance {
        Highlight::Widest
    } else if min is Some && -tolerance <= width - min->Some_0 <= tolerance {
        Highlight::Narrowest
    } else {
        Highlight::Ordinary
    }
}

/// What a measurement found, as a mathematical value.
pub struct Measurement {
    /// The diagnostic rays that were cast.
    pub rays: Seq<Line>,
    /// The ribs that admitted a circle, each with its circle.
    pub ribs: Seq<FittedWidth>,
    /// The least width in steps, rounded up, if any rib was fitted. It
    /// exceeds two units.
    pub min_width: Option<i64>,
    /// The greatest width in steps, rounded up, if any rib was fitted.
    pub max_width: Option<i64>,
    /// Whether the fill of the shape looked inverted.
    pub inverted_fill_suspected: bool,
}

/// What a measurement found.
#[derive(Debug)]
pub struct WidthCandidates {
    /// The diagnostic rays that were cast.
    pub rays: Vec<Line>,
    /// The ribs that admitted a circle, each with its circle.
    pub ribs: Vec<FittedWidth>,
    /// The least width in steps, rounded up, if any rib was fitted. It
    /// exceeds two units.
    pub min_width: Option<i64>,
    /// The greatest width in steps, rounded up, if any rib was fitted.
    pub max_width: Option<i64>,
    /// Whether the fill of the shape looked inverted.
    pub inverted_fill_suspected: bool,
}

impl View for WidthCandidates {
    type V = Measurement;

    open spec fn view(&self) -> Measurement {
        Measurement {
            rays: self.rays@,
            ribs: self.ribs@,
            min_width: self.min_width,
            max_width: self.max_width,
            inverted_fill_suspected: self.inverted_fill_suspected,
        }
    }
}

/// The measurement that fitting circles to `ribs` yields.
pub open spec fn measured(
    segs: Seq<Segment>,
    rays: Seq<Line>,
    ribs: Seq<Rib>,
    unit: int,
    inverted: bool,
) -> Measurement {
    let fits = fit_all(segs, ribs, unit);
    Measurement {
        rays,
        ribs: fits,
        min_width: narrowest(fits),
        max_width: widest(fits),
        inverted_fill_suspected: inverted,
    }
}

/// Whether every rib lies within the limit of interpolation.
pub open spec fn ribs_in_range(ribs: Seq<Rib>) -> bool {
    forall|k: int| 0 <= k < ribs.len() ==> (#[trigger] ribs[k]).line.within(LINE_LIMIT as int)
}

impl Measurement {
    /// A measurement without its diagnostic rays.
    pub open spec fn without_rays(self) -> Measurement {
        Measurement { rays: Seq::<Line>::empty(), ..self }
    }

    /// The least and greatest width, or that there is none.
    pub open spec fn extent(self) -> Result<(i64, i64), MeasureError> {
        match (self.min_width, self.max_width) {
            (Some(a), Some(b)) => Ok((a, b)),
            _ => Err(MeasureError::NoMeasurableStroke),
        }
    }
}

impl WidthCandidates {
    /// Fits a circle to each candidate rib and gathers the widths. `unit`
    /// is the radius that a circle must exceed, in lattice steps.
    pub fn new(shape: &Shape, rays: Vec<Line>, rib_candidates: Vec<Rib>, unit: i32) -> (out:
        WidthCandidates)
        requires
            ribs_in_range(rib_candidates@),
            unit >= 1,
        ensures
            out@ == measured(shape@, rays@, rib_candidates@, unit as int, false),
            fits_hold(out@.ribs, unit as int),
            out.min_width matches Some(m) ==> m > 2 * unit,
    {
        let mut ribs: Vec<FittedWidth> = Vec::new();
        let mut min_width: Option<i64> = None;
        let mut max_width: Option<i64> = None;
        let mut i: usize = 0;
        while i < rib_candidates.len()
            invariant
                i <= rib_candidates.len(),
                ribs_in_range(rib_candidates@),
                unit >= 1,
                ribs@ == fit_all(shape@, rib_candidates@.take(i as int), unit as int),
                fits_hold(ribs@, unit as int),
                min_width == narrowest(ribs@),
                max_width == widest(ribs@),
            decreases rib_candidates.len() - i,
        {
            proof {
                assert(rib_candidates@.take(i + 1).drop_last() == rib_candidates@.take(i as int));
            }
            match fit_rib(shape, &rib_candidates[i], unit) {
                Some(f) => {
                    let w: i64 = f.diameter;
                    let ghost before = ribs@;
                    ribs.push(f);
                    proof {
                        assert(ribs@.drop_last() == before);
                        assert forall|k: int| 0 <= k < ribs@.len() implies crate::fit::fit_holds(
                            #[trigger] ribs@[k],
                            unit as int,
                        ) by {
                            if k < before.len() {
                                assert(ribs@[k] == before[k]);
                            }
                        }
                    }
                    min_width = match min_width {
                        Some(m) => Some(if w < m { w } else { m }),
                        None => Some(w),
                    };
                    max_width = match max_width {
                        Some(m) => Some(if w > m { w } else { m }),
                        None => Some(w),
                    };
                },
                None => {},
            }
            i += 1;
        }
        proof {
            assert(rib_candidates@.take(i as int) == rib_candidates@);
            lemma_extremes(ribs@);
        }
        WidthCandidates { rays, ribs, min_width, max_width, inverted_fill_suspected: false }
    }

    /// Tells how a rib of the given width stands among those found.
    pub fn highlight(&self, width: i64, unit: i32) -> (h: Highlight)
        requires
            -0x1_0000_0000 <= width <= 0x1_0000_0000,
            self.min_width matches Some(m) ==> -0x1_0000_0000 <= m <= 0x1_0000_0000,
            self.max_width matches Some(m) ==> -0x1_0000_0000 <= m <= 0x1_0000_0000,
            unit >= 1,
        ensures
            h == highlight_of(width as int, self.min_width, self.max_width, unit as int),
    {
        let tolerance: i64 = unit as i64 / 10;
        match self.max_width {
            Some(b) => {
                if width - b <= tolerance && b - width <= tolerance {
                    return Highlight::Widest;
                }
            },
            None => {},
        }
        match self.min_width {
            Some(a) => {
                if width - a <= tolerance && a - width <= tolerance {
                    return Highlight::Narrowest;
                }
            },
            None => {},
        }
        Highlight::Ordinary
    }

    /// The least and greatest width. Where no rib was fitted there is no
    /// measurable stroke.
    pub fn extent(&self) -> (r: Result<(i64, i64), MeasureError>)
        ensures
            r == self@.extent(),
    {
        match (self.min_width, self.max_width) {
            (Some(a), Some(b)) => Ok((a, b)),
            _ => Err(MeasureError::NoMeasurableStroke),
        }
    }
}

/// A measurement has a least and a greatest width exactly where a rib was
/// fitted, and then the least exceeds two units and does not exceed the
/// greatest.
pub proof fn lemma_measured_extent(
    segs: Seq<Segment>,
    rays: Seq<Line>,
    ribs: Seq<Rib>,
    unit: int,
    inverted: bool,
)
    requires
        unit >= 0,
        ribs_in_range(ribs),
    ensures
        measured(segs, rays, ribs, unit, inverted).extent() is Err <==> fit_all(
            segs,
            ribs,
            unit,
        ).len() == 0,
        measured(segs, rays, ribs, unit, inverted).extent() matches Ok(e) ==> 2 * unit < e.0
            <= e.1,
        fits_hold(measured(segs, rays, ribs, unit, inverted).ribs, unit),
{
    lemma_extremes(fit_all(segs, ribs, unit));
    lemma_fit_all_holds(segs, ribs, unit);
}

} // verus!
