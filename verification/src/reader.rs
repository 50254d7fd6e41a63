//! The measurement engine: a shape with its box, and the two strategies
//! that measure its strokes.

use vstd::prelude::*;
use crate::error::MeasureError;
use crate::geometry::{Point, Vector, Line, Segment, LINE_LIMIT};
use crate::classifier::Shape;
use crate::bounds::{Bounds, extent, extent_of};
use crate::centroid::{centre_of, centre_of_mass};
use crate::extract::{Rib, inked_ribs, inked_segments};
use crate::candidates::{WidthCandidates, Measurement, measured};
use crate::probe::{REACH_FACTOR, reach_for, probe_through, probe_through_of};
use crate::radial::{SWEEP_DEGREES, radial_sweep, sweep};
use crate::perpendicular::{perpendicular_sweep, sweep_segments};

verus! {

/// How candidate ribs are found.
#[derive(Clone, Copy, Debug, PartialEq, Eq, Structural)]
pub enum Strategy {
    /// Rays from the centre of mass, each answered by the nearest rib.
    CenterOfMass,
    /// Probes across the outline from every segment, all ribs kept.
    AllSegments,
}

/// What the centre-of-mass strategy finds for `segs`, where circles must
/// exceed the radius `unit`.
pub open spec fn centre_of_mass_widths(segs: Seq<Segment>, unit: int) -> Result<
    Measurement,
    MeasureError,
> {
    match centre_of(segs, extent(segs).widened()) {
        Err(e) => Err(e),
        Ok(centre) => {
            let cast = radial_sweep(
                segs,
                centre.at,
                reach_for(extent(segs).larger_side()),
                SWEEP_DEGREES as int,
            );
            Ok(measured(segs, cast.rays, cast.ribs, unit, centre.mostly_filled()))
        },
    }
}

/// What the all-segments strategy finds for `segs`.
pub open spec fn all_segment_widths(segs: Seq<Segment>, unit: int) -> Measurement {
    let cast = perpendicular_sweep(segs, reach_for(extent(segs).larger_side()), segs.len() as int);
    measured(segs, cast.rays, cast.ribs, unit, false)
}

/// What `strategy` finds for `segs`, with or without the diagnostic rays.
pub open spec fn widths(segs: Seq<Segment>, unit: int, strategy: Strategy, include_rays: bool)
    -> Result<Measurement, MeasureError> {
    let all = match strategy {
        Strategy::CenterOfMass => centre_of_mass_widths(segs, unit),
        Strategy::AllSegments => Ok(all_segment_widths(segs, unit)),
    };
    match all {
        Ok(m) => Ok(if include_rays { m } else { m.without_rays() }),
        Err(e) => Err(e),
    }
}

/// A measurement depends on the outline, the unit, the strategy and the
/// choice of rays alone: two measurements of the same are the same.
pub proof fn lemma_measurement_is_repeatable(
    segs: Seq<Segment>,
    unit: int,
    strategy: Strategy,
    include_rays: bool,
    first: Result<Measurement, MeasureError>,
    second: Result<Measurement, MeasureError>,
)
    requires
        first == widths(segs, unit, strategy, include_rays),
        second == widths(segs, unit, strategy, include_rays),
    ensures
        first == second,
{
}

/// When the centre-of-mass strategy fails and when it succeeds: it finds
/// the shape degenerate exactly where fewer than three grid samples are
/// inked, unsupported exactly where there are three and their mean
/// position is inked, and measures it in every other case, with one ray
/// for each degree and at most one fitted rib for each ray. A measurement
/// carries the warning of an inverted fill exactly where more than three
/// quarters of the samples are inked; `WidthReader::inverted_fill_suspected`
/// gives the same warning where the strategy fails.
pub proof fn lemma_centre_of_mass_outcomes(segs: Seq<Segment>, unit: int)
    ensures
        ({
            let tally = crate::centroid::frame_tally(segs, extent(segs).widened());
            let found = centre_of_mass_widths(segs, unit);
            &&& found == Err::<Measurement, MeasureError>(MeasureError::DegenerateShape)
                <==> tally.filled < 3
            &&& found == Err::<Measurement, MeasureError>(MeasureError::UnsupportedShape)
                <==> tally.filled >= 3 && crate::classifier::filled(segs, tally.mean())
            &&& found is Ok <==> tally.filled >= 3 && !crate::classifier::filled(segs, tally.mean())
            &&& found matches Ok(m) ==> m.rays.len() == SWEEP_DEGREES && m.ribs.len()
                <= SWEEP_DEGREES && m.inverted_fill_suspected == tally.mostly_filled()
        }),
{
    let tally = crate::centroid::frame_tally(segs, extent(segs).widened());
    let frame = extent(segs).widened();
    crate::bounds::lemma_extent_fits(segs);
    crate::bounds::lemma_margin_covers(extent(segs).larger_side());
    crate::centroid::lemma_grid_counts(
        segs,
        frame.min_x as int,
        frame.max_x as int,
        crate::centroid::grid_step(frame.width()),
        frame.min_y as int,
        frame.max_y as int,
        crate::centroid::grid_step(frame.height()),
        0x40_0000,
    );
    assert(tally.sampled <= 0x40_0000 * 0x40_0000) by (nonlinear_arith)
        requires
            tally.sampled <= (if frame.min_x < frame.max_x {
                frame.max_x - frame.min_x
            } else {
                0
            }) * 0x40_0000,
            frame.max_x - frame.min_x <= 0x40_0000,
    ;
    if tally.filled >= 3 && !crate::classifier::filled(segs, tally.mean()) {
        let reach = reach_for(extent(segs).larger_side());
        crate::radial::lemma_radial_sweep_counts(segs, tally.mean(), reach, SWEEP_DEGREES as int);
        let cast = radial_sweep(segs, tally.mean(), reach, SWEEP_DEGREES as int);
        crate::fit::lemma_fit_all_counts(segs, cast.ribs, unit);
    }
}

/// A shape of which fewer than three grid samples are inked is degenerate
/// to the centre-of-mass strategy, and so is every shape without ink.
pub proof fn lemma_degenerate_shapes(segs: Seq<Segment>, unit: int)
    ensures
        crate::centroid::frame_tally(segs, extent(segs).widened()).filled < 3
            ==> centre_of_mass_widths(segs, unit) == Err::<Measurement, MeasureError>(
            MeasureError::DegenerateShape,
        ),
        (forall|p: Point| !crate::classifier::filled(segs, p)) ==> centre_of_mass_widths(segs, unit)
            == Err::<Measurement, MeasureError>(MeasureError::DegenerateShape),
        segs.len() == 0 ==> centre_of_mass_widths(segs, unit) == Err::<Measurement, MeasureError>(
            MeasureError::DegenerateShape,
        ),
{
    if forall|p: Point| !crate::classifier::filled(segs, p) {
        crate::centroid::lemma_blank_shape_is_degenerate(segs, extent(segs).widened());
    }
    if segs.len() == 0 {
        assert forall|p: Point| !crate::classifier::filled(segs, p) by {}
        crate::centroid::lemma_blank_shape_is_degenerate(segs, extent(segs).widened());
    }
}

/// A shape without area, one line run there and back, is degenerate to the
/// centre-of-mass strategy.
pub proof fn lemma_flat_shape_is_degenerate(a: Point, b: Point, unit: int)
    requires
        a.within(crate::geometry::COORD_LIMIT as int),
        b.within(crate::geometry::COORD_LIMIT as int),
    ensures
        centre_of_mass_widths(seq![Segment::Line(a, b), Segment::Line(b, a)], unit) == Err::<
            Measurement,
            MeasureError,
        >(MeasureError::DegenerateShape),
{
    let segs = seq![Segment::Line(a, b), Segment::Line(b, a)];
    assert forall|p: Point| !crate::classifier::filled(segs, p) by {
        crate::classifier::lemma_flat_outline_is_blank(a, b, p);
    }
    crate::centroid::lemma_blank_shape_is_degenerate(segs, extent(segs).widened());
}

/// A shape made ready for measuring.
pub struct WidthReader {
    shape: Shape,
    bbox: Bounds,
    max_dim: i32,
    unit: i32,
}

impl WidthReader {
    /// The segments of the shape.
    pub closed spec fn outline(self) -> Seq<Segment> {
        self.shape@
    }

    /// The lattice steps in one unit of the shape: the radius that a
    /// fitted circle must exceed.
    pub closed spec fn unit_steps(self) -> int {
        self.unit as int
    }

    /// The widened box of the shape.
    pub closed spec fn frame(self) -> Bounds {
        self.bbox
    }

    /// The larger side of the box of the shape, before widening.
    pub closed spec fn larger_side(self) -> int {
        self.max_dim as int
    }

    /// What holds of every reader: its box is the widened box of its
    /// shape.
    #[verifier::type_invariant]
    pub open spec fn well_formed(self) -> bool {
        &&& self.frame() == extent(self.outline()).widened()
        &&& self.larger_side() == extent(self.outline()).larger_side()
        &&& self.unit_steps() >= 1
    }

    /// Prepares a shape for measuring. `unit` says how many lattice steps
    /// make one unit of the shape: a fitted circle must have a radius of
    /// more than that many steps. A cubic segment is refused.
    pub fn new(segments: Vec<Segment>, unit: i32) -> (r: Result<WidthReader, MeasureError>)
        requires
            Shape::fits(segments@),
            unit >= 1,
        ensures
            Shape::has_cubic(segments@) <==> r is Err,
            r is Err ==> r == Err::<WidthReader, MeasureError>(MeasureError::UnsupportedSegment),
            r matches Ok(reader) ==> reader.outline() == segments@ && reader.unit_steps() == unit,
    {
        let ghost segs = segments@;
        match Shape::new(segments) {
            Err(e) => Err(MeasureError::UnsupportedSegment),
            Ok(shape) => {
                let raw = extent_of(&shape);
                let max_dim = raw.max_dim();
                let bbox = raw.inflate();
                Ok(WidthReader { shape, bbox, max_dim, unit })
            },
        }
    }

    /// The shape.
    pub fn shape(&self) -> (s: &Shape)
        ensures
            s@ == self.outline(),
    {
        &self.shape
    }

    /// The widened box of the shape.
    pub fn bbox(&self) -> (b: Bounds)
        ensures
            b == extent(self.outline()).widened(),
    {
        proof {
            use_type_invariant(self);
        }
        self.bbox
    }

    /// The larger side of the box of the shape, before widening.
    pub fn max_dim(&self) -> (d: i32)
        ensures
            d == extent(self.outline()).larger_side(),
    {
        proof {
            use_type_invariant(self);
        }
        self.max_dim
    }

    /// The margin by which the box of the shape was widened.
    pub fn margin(&self) -> (m: i32)
        ensures
            m == crate::bounds::margin_of(extent(self.outline()).larger_side()),
    {
        proof {
            use_type_invariant(self);
            use_type_invariant(&self.shape);
            crate::bounds::lemma_extent_fits(self.shape@);
        }
        crate::bounds::margin_for(self.max_dim)
    }

    /// The lattice steps in one unit of the shape.
    pub fn unit(&self) -> (u: i32)
        ensures
            u == self.unit_steps(),
            u >= 1,
    {
        proof {
            use_type_invariant(self);
        }
        self.unit
    }

    /// How far probes reach to either side.
    pub fn reach(&self) -> (r: i32)
        ensures
            r == reach_for(extent(self.outline()).larger_side()),
            0 <= r <= crate::probe::REACH_LIMIT,
    {
        proof {
            use_type_invariant(self);
            use_type_invariant(&self.shape);
            crate::bounds::lemma_extent_fits(self.shape@);
        }
        REACH_FACTOR * self.max_dim
    }

    /// The long level probe through `through`.
    pub fn make_x_ray(&self, through: Point) -> (ray: Line)
        requires
            through.within(crate::bounds::BOX_LIMIT as int),
        ensures
            ray == probe_through(
                through,
                Vector { dx: 0, dy: 0 },
                reach_for(extent(self.outline()).larger_side()),
            ),
            ray.within(LINE_LIMIT as int),
    {
        let reach = self.reach();
        probe_through_of(&through, &Vector { dx: 0, dy: 0 }, reach)
    }

    /// The inked stretches of `ray`.
    pub fn ray_to_inked_segments(&self, ray: Line) -> (ribs: Vec<Rib>)
        requires
            ray.within(LINE_LIMIT as int),
        ensures
            ribs@ == inked_ribs(self.outline(), ray),
    {
        inked_segments(&self.shape, &ray)
    }

    /// Reports whether the fill of the shape looks inverted: whether more
    /// than three quarters of the grid samples are inked. The answer does
    /// not depend on whether the shape can be measured.
    pub fn inverted_fill_suspected(&self) -> (b: bool)
        ensures
            b == crate::centroid::frame_tally(
                self.outline(),
                extent(self.outline()).widened(),
            ).mostly_filled(),
    {
        proof {
            use_type_invariant(self);
            use_type_invariant(&self.shape);
            crate::bounds::lemma_extent_fits(self.shape@);
        }
        crate::centroid::count_samples(&self.shape, &self.bbox).inverted_fill_suspected()
    }

    /// Measures by rays from the centre of mass. Fails where fewer than
    /// three grid samples are inked, and where the centre of mass is inked.
    pub fn cast_rays_around_center_of_mass(&self) -> (r: Result<WidthCandidates, MeasureError>)
        ensures
            match r {
                Ok(found) => centre_of_mass_widths(self.outline(), self.unit_steps()) == Ok::<
                    Measurement,
                    MeasureError,
                >(found@),
                Err(e) => centre_of_mass_widths(self.outline(), self.unit_steps()) == Err::<
                    Measurement,
                    MeasureError,
                >(e),
            },
            r matches Ok(found) ==> crate::fit::fits_hold(found@.ribs, self.unit_steps()) && (
            found.min_width matches Some(m) ==> m > 2 * self.unit_steps()),
    {
        proof {
            use_type_invariant(self);
            use_type_invariant(&self.shape);
            crate::bounds::lemma_extent_fits(self.shape@);
        }
        let reach = self.reach();
        match centre_of_mass(&self.shape, &self.bbox) {
            Err(e) => Err(e),
            Ok(centre) => {
                let (rays, ribs) = sweep(&self.shape, &centre.at, reach);
                let mut found = WidthCandidates::new(&self.shape, rays, ribs, self.unit);
                found.inverted_fill_suspected = centre.inverted_fill_suspected();
                Ok(found)
            },
        }
    }

    /// Measures by probes from every segment.
    pub fn cast_rays_from_all_segments(&self) -> (found: WidthCandidates)
        ensures
            found@ == all_segment_widths(self.outline(), self.unit_steps()),
            crate::fit::fits_hold(found@.ribs, self.unit_steps()),
            found.min_width matches Some(m) ==> m > 2 * self.unit_steps(),
    {
        proof {
            use_type_invariant(self);
        }
        let reach = self.reach();
        let (rays, ribs) = sweep_segments(&self.shape, reach);
        WidthCandidates::new(&self.shape, rays, ribs, self.unit)
    }

    /// Measures with the chosen strategy, and hands back the diagnostic
    /// rays only where they are asked for.
    pub fn measure(&self, strategy: Strategy, include_rays: bool) -> (r: Result<
        WidthCandidates,
        MeasureError,
    >)
        ensures
            match r {
                Ok(found) => widths(self.outline(), self.unit_steps(), strategy, include_rays)
                    == Ok::<Measurement, MeasureError>(found@),
                Err(e) => widths(self.outline(), self.unit_steps(), strategy, include_rays)
                    == Err::<Measurement, MeasureError>(e),
            },
            r matches Ok(found) ==> crate::fit::fits_hold(found@.ribs, self.unit_steps()) && (
            found.min_width matches Some(m) ==> m > 2 * self.unit_steps()),
    {
        let all = match strategy {
            Strategy::CenterOfMass => self.cast_rays_around_center_of_mass(),
            Strategy::AllSegments => Ok(self.cast_rays_from_all_segments()),
        };
        match all {
            Ok(mut found) => {
                if !include_rays {
                    found.rays = Vec::new();
                }
                Ok(found)
            },
            Err(e) => Err(e),
        }
    }
}

} // verus!
