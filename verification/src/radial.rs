//! The radial ray caster: rays from the centre of mass at every whole
//! degree, each answered by the nearest rib behind the boundary it meets.

use vstd::prelude::*;
use crate::fixed::UNIT;
use crate::geometry::{Point, Vector, Line, Segment, COORD_LIMIT, LINE_LIMIT};
use crate::classifier::{Shape, Crossing, crossing_list, lemma_crossing_list_range};
use crate::bounds::BOX_LIMIT;
use crate::extract::{Rib, inked_ribs, inked_segments};
use crate::candidates::ribs_in_range;
use crate::probe::{REACH_LIMIT, radial_ray, radial_ray_of, probe_through, probe_through_of};

verus! {

/// How many rays are cast, one for each whole degree.
pub const SWEEP_DEGREES: u32 = 360;

/// What casting rays has gathered.
pub struct Cast {
    /// The diagnostic rays.
    pub rays: Seq<Line>,
    /// The candidate ribs.
    pub ribs: Seq<Rib>,
}

/// What one ray has found.
pub struct Step {
    /// The diagnostic ray.
    pub ray: Line,
    /// The candidate rib, if the ray led to one.
    pub rib: Option<Rib>,
}

impl Cast {
    /// What was gathered, and what `step` found.
    pub open spec fn with(self, step: Step) -> Cast {
        Cast {
            rays: self.rays.push(step.ray),
            ribs: match step.rib {
                Some(r) => self.ribs.push(r),
                None => self.ribs,
            },
        }
    }
}

/// The crossing nearest the start of the probe; of several equally near,
/// the first.
pub open spec fn nearest_crossing(all: Seq<Crossing>) -> Option<Crossing>
    decreases all.len(),
{
    if all.len() == 0 {
        None
    } else {
        match nearest_crossing(all.drop_last()) {
            Some(best) => if best.line_t <= all.last().line_t {
                Some(best)
            } else {
                Some(all.last())
            },
            None => Some(all.last()),
        }
    }
}

/// The nearest crossing is one of the crossings, none is nearer, and none
/// that is as near comes before it.
pub proof fn lemma_nearest_crossing(all: Seq<Crossing>)
    ensures
        nearest_crossing(all) is None <==> all.len() == 0,
        nearest_crossing(all) matches Some(best) ==> exists|k: int|
            0 <= k < all.len() && #[trigger] all[k] == best && (forall|j: int|
                0 <= j < all.len() ==> best.line_t <= (#[trigger] all[j]).line_t) && (forall|j: int|
                0 <= j < k ==> best.line_t < (#[trigger] all[j]).line_t),
    decreases all.len(),
{
    if all.len() > 0 {
        let front = all.drop_last();
        lemma_nearest_crossing(front);
        let last = all.len() - 1;
        match nearest_crossing(front) {
            Some(best) => {
                let k = choose|k: int|
                    0 <= k < front.len() && #[trigger] front[k] == best && (forall|j: int|
                        0 <= j < front.len() ==> best.line_t <= (#[trigger] front[j]).line_t) && (
                    forall|j: int| 0 <= j < k ==> best.line_t < (#[trigger] front[j]).line_t);
                assert forall|j: int| 0 <= j < last implies front[j] == all[j] by {}
                if best.line_t <= all.last().line_t {
                    assert(all[k] == best);
                    assert forall|j: int| 0 <= j < all.len() implies best.line_t <= (
                    #[trigger] all[j]).line_t by {
                        if j < last {
                            assert(front[j] == all[j]);
                        }
                    }
                    assert forall|j: int| 0 <= j < k implies best.line_t < (#[trigger] all[j]).line_t by {
                        assert(front[j] == all[j]);
                    }
                } else {
                    let b = all.last();
                    assert(all[last] == b);
                    assert forall|j: int| 0 <= j < all.len() implies b.line_t <= (
                    #[trigger] all[j]).line_t by {
                        if j < last {
                            assert(front[j] == all[j]);
                        }
                    }
                    assert forall|j: int| 0 <= j < last implies b.line_t < (#[trigger] all[j]).line_t by {
                        assert(front[j] == all[j]);
                    }
                }
            },
            None => {
                assert(all[last] == all.last());
            },
        }
    }
}

/// The squared distance from `centre` to `at` displaced by `n`.
pub open spec fn far2(at: Point, n: Vector, centre: Point) -> int {
    (at.x + n.dx - centre.x) * (at.x + n.dx - centre.x) + (at.y + n.dy - centre.y) * (at.y + n.dy
        - centre.y)
}

/// Of the two normals of `tangent`, the one that leads away from
/// `centre`: the one whose tip, set at `at`, is farther from it.
pub open spec fn away_normal(centre: Point, at: Point, tangent: Vector) -> Vector {
    let first = tangent.turned();
    let second = first.reversed();
    if far2(at, first, centre) > far2(at, second, centre) {
        first
    } else {
        second
    }
}

/// The chosen normal does not lead towards the centre: its product with
/// the displacement from the centre is not negative.
pub proof fn lemma_away_normal_leads_away(centre: Point, at: Point, tangent: Vector)
    requires
        tangent.within(4 * COORD_LIMIT),
    ensures
        away_normal(centre, at, tangent).dot(at.minus(centre)) >= 0,
{
    let n = tangent.turned();
    let m = n.reversed();
    let dx = at.x - centre.x;
    let dy = at.y - centre.y;
    assert(m.dx == -n.dx && m.dy == -n.dy);
    assert(far2(at, n, centre) - far2(at, m, centre) == 4 * (n.dx * dx + n.dy * dy))
        by (nonlinear_arith)
        requires
            far2(at, n, centre) == (dx + n.dx) * (dx + n.dx) + (dy + n.dy) * (dy + n.dy),
            far2(at, m, centre) == (dx - n.dx) * (dx - n.dx) + (dy - n.dy) * (dy - n.dy),
    ;
    assert(m.dx * dx + m.dy * dy == -(n.dx * dx + n.dy * dy)) by (nonlinear_arith)
        requires
            m.dx == -n.dx,
            m.dy == -n.dy,
    ;
}

/// How far, in probe parameters, `rib` lies from the middle of its probe.
pub open spec fn rib_gap(rib: Rib) -> int {
    let half = UNIT as int / 2;
    if rib.t0 <= half <= rib.t1 {
        0
    } else if half < rib.t0 {
        rib.t0 - half
    } else if rib.t1 < half {
        half - rib.t1
    } else {
        0
    }
}

/// The rib nearest the middle of its probe; of several equally near, the
/// first.
pub open spec fn nearest_rib(ribs: Seq<Rib>) -> Option<Rib>
    decreases ribs.len(),
{
    if ribs.len() == 0 {
        None
    } else {
        match nearest_rib(ribs.drop_last()) {
            Some(best) => if rib_gap(best) <= rib_gap(ribs.last()) {
                Some(best)
            } else {
                Some(ribs.last())
            },
            None => Some(ribs.last()),
        }
    }
}

/// What the ray at `degrees` finds.
pub open spec fn radial_step(segs: Seq<Segment>, centre: Point, reach: int, degrees: int) -> Step {
    let ray = radial_ray(centre, reach, degrees);
    match nearest_crossing(crossing_list(segs, ray)) {
        None => Step { ray, rib: None },
        Some(hit) => {
            let seg = segs[hit.segment as int];
            let at = seg.point_on(hit.segment_t as int);
            let away = away_normal(centre, at, seg.direction(hit.segment_t as int));
            let probe = probe_through(at, away, reach);
            Step { ray: Line { start: centre, end: at }, rib: nearest_rib(inked_ribs(segs, probe)) }
        },
    }
}

/// What the rays at the first `n` degrees gather.
pub open spec fn radial_sweep(segs: Seq<Segment>, centre: Point, reach: int, n: int) -> Cast
    decreases n,
{
    if n <= 0 {
        Cast { rays: Seq::<Line>::empty(), ribs: Seq::<Rib>::empty() }
    } else {
        radial_sweep(segs, centre, reach, n - 1).with(radial_step(segs, centre, reach, n - 1))
    }
}

/// A sweep over `n` degrees casts `n` rays and gathers at most `n` ribs.
pub proof fn lemma_radial_sweep_counts(segs: Seq<Segment>, centre: Point, reach: int, n: int)
    requires
        0 <= n,
    ensures
        radial_sweep(segs, centre, reach, n).rays.len() == n,
        radial_sweep(segs, centre, reach, n).ribs.len() <= n,
    decreases n,
{
    if n > 0 {
        lemma_radial_sweep_counts(segs, centre, reach, n - 1);
    }
}

/// The nearest rib is one of the ribs, none lies nearer the middle of the
/// probe, and none that lies as near comes before it.
pub proof fn lemma_nearest_rib(ribs: Seq<Rib>)
    ensures
        nearest_rib(ribs) is None <==> ribs.len() == 0,
        nearest_rib(ribs) matches Some(best) ==> exists|k: int|
            0 <= k < ribs.len() && #[trigger] ribs[k] == best && (forall|j: int|
                0 <= j < ribs.len() ==> rib_gap(best) <= rib_gap(#[trigger] ribs[j])) && (forall|
                j: int,
            | 0 <= j < k ==> rib_gap(best) < rib_gap(#[trigger] ribs[j])),
    decreases ribs.len(),
{
    if ribs.len() > 0 {
        let front = ribs.drop_last();
        lemma_nearest_rib(front);
        let last = ribs.len() - 1;
        assert forall|j: int| 0 <= j < last implies front[j] == ribs[j] by {}
        match nearest_rib(front) {
            Some(best) => {
                let k = choose|k: int|
                    0 <= k < front.len() && #[trigger] front[k] == best && (forall|j: int|
                        0 <= j < front.len() ==> rib_gap(best) <= rib_gap(#[trigger] front[j])) && (
                    forall|j: int| 0 <= j < k ==> rib_gap(best) < rib_gap(#[trigger] front[j]));
                if rib_gap(best) <= rib_gap(ribs.last()) {
                    assert(ribs[k] == best);
                    assert forall|j: int| 0 <= j < ribs.len() implies rib_gap(best) <= rib_gap(
                        #[trigger] ribs[j],
                    ) by {
                        if j < last {
                            assert(front[j] == ribs[j]);
                        }
                    }
                    assert forall|j: int| 0 <= j < k implies rib_gap(best) < rib_gap(
                        #[trigger] ribs[j],
                    ) by {
                        assert(front[j] == ribs[j]);
                    }
                } else {
                    let b = ribs.last();
                    assert(ribs[last] == b);
                    assert forall|j: int| 0 <= j < ribs.len() implies rib_gap(b) <= rib_gap(
                        #[trigger] ribs[j],
                    ) by {
                        if j < last {
                            assert(front[j] == ribs[j]);
                        }
                    }
                    assert forall|j: int| 0 <= j < last implies rib_gap(b) < rib_gap(
                        #[trigger] ribs[j],
                    ) by {
                        assert(front[j] == ribs[j]);
                    }
                }
            },
            None => {
                assert(ribs[last] == ribs.last());
            },
        }
    }
}

/// Picks the crossing nearest the start of the probe.
pub fn nearest_crossing_of(all: &Vec<Crossing>) -> (best: Option<Crossing>)
    ensures
        best == nearest_crossing(all@),
{
    let mut best: Option<Crossing> = None;
    let mut i: usize = 0;
    while i < all.len()
        invariant
            i <= all.len(),
            best == nearest_crossing(all@.take(i as int)),
        decreases all.len() - i,
    {
        proof {
            assert(all@.take(i + 1).drop_last() == all@.take(i as int));
        }
        let c = all[i];
        best = match best {
            Some(b) => if b.line_t <= c.line_t {
                Some(b)
            } else {
                Some(c)
            },
            None => Some(c),
        };
        i += 1;
    }
    proof {
        assert(all@.take(i as int) == all@);
    }
    best
}

fn far2_of(at: &Point, n: &Vector, centre: &Point) -> (d: i64)
    requires
        at.within(COORD_LIMIT as int),
        n.within(4 * COORD_LIMIT),
        centre.within(BOX_LIMIT as int),
    ensures
        d == far2(*at, *n, *centre),
{
    let dx: i64 = at.x as i64 + n.dx - centre.x as i64;
    let dy: i64 = at.y as i64 + n.dy - centre.y as i64;
    assert(0 <= dx * dx <= 0x80_0000 * 0x80_0000) by (nonlinear_arith)
        requires
            -0x80_0000 <= dx <= 0x80_0000,
    ;
    assert(0 <= dy * dy <= 0x80_0000 * 0x80_0000) by (nonlinear_arith)
        requires
            -0x80_0000 <= dy <= 0x80_0000,
    ;
    dx * dx + dy * dy
}

/// Chooses the normal that leads away from `centre`.
pub fn away_normal_of(centre: &Point, at: &Point, tangent: &Vector) -> (n: Vector)
    requires
        at.within(COORD_LIMIT as int),
        tangent.within(4 * COORD_LIMIT),
        centre.within(BOX_LIMIT as int),
    ensures
        n == away_normal(*centre, *at, *tangent),
        n.within(4 * COORD_LIMIT),
{
    let first = tangent.turn_90();
    let second = first.reverse();
    if far2_of(at, &first, centre) > far2_of(at, &second, centre) {
        first
    } else {
        second
    }
}

fn rib_gap_of(rib: &Rib) -> (g: i64)
    requires
        0 <= rib.t0 <= UNIT,
        0 <= rib.t1 <= UNIT,
    ensures
        g == rib_gap(*rib),
{
    let half: i64 = UNIT / 2;
    if rib.t0 <= half && half <= rib.t1 {
        0
    } else if half < rib.t0 {
        rib.t0 - half
    } else if rib.t1 < half {
        half - rib.t1
    } else {
        0
    }
}

/// Whether the ends of every rib are parameters of the unit interval.
pub open spec fn rib_params_in_range(ribs: Seq<Rib>) -> bool {
    forall|k: int|
        0 <= k < ribs.len() ==> 0 <= (#[trigger] ribs[k]).t0 <= UNIT && 0 <= ribs[k].t1 <= UNIT
}

/// Picks the rib nearest the middle of its probe.
pub fn nearest_rib_of(ribs: &Vec<Rib>) -> (best: Option<Rib>)
    requires
        rib_params_in_range(ribs@),
    ensures
        best == nearest_rib(ribs@),
        best matches Some(b) ==> exists|k: int| 0 <= k < ribs.len() && ribs@[k] == b,
{
    let mut best: Option<Rib> = None;
    let mut i: usize = 0;
    while i < ribs.len()
        invariant
            i <= ribs.len(),
            rib_params_in_range(ribs@),
            best == nearest_rib(ribs@.take(i as int)),
            best matches Some(b) ==> exists|k: int| 0 <= k < i && ribs@[k] == b,
        decreases ribs.len() - i,
    {
        proof {
            assert(ribs@.take(i + 1).drop_last() == ribs@.take(i as int));
        }
        let c = ribs[i];
        best = match best {
            Some(b) => {
                proof {
                    let k = choose|k: int| 0 <= k < i && ribs@[k] == b;
                    assert(0 <= ribs@[k].t0 <= UNIT);
                }
                if rib_gap_of(&b) <= rib_gap_of(&c) {
                    Some(b)
                } else {
                    Some(c)
                }
            },
            None => Some(c),
        };
        i += 1;
    }
    proof {
        assert(ribs@.take(i as int) == ribs@);
    }
    best
}

/// Casts the ray at `degrees` from `centre` and follows it to a rib.
pub fn cast_radial_ray(shape: &Shape, centre: &Point, reach: i32, degrees: u32) -> (found: (
    Line,
    Option<Rib>,
))
    requires
        centre.within(BOX_LIMIT as int),
        0 <= reach <= REACH_LIMIT,
        degrees < SWEEP_DEGREES,
    ensures
        found.0 == radial_step(shape@, *centre, reach as int, degrees as int).ray,
        found.1 == radial_step(shape@, *centre, reach as int, degrees as int).rib,
        found.1 matches Some(r) ==> r.line.within(LINE_LIMIT as int),
{
    let ray = radial_ray_of(centre, reach, degrees);
    let all = shape.crossings(&ray);
    proof {
        lemma_crossing_list_range(shape@, ray);
        use_type_invariant(shape);
    }
    match nearest_crossing_of(&all) {
        None => (ray, None),
        Some(hit) => {
            proof {
                lemma_nearest_crossing(all@);
            }
            let seg = shape.segment(hit.segment);
            match seg.tangent(hit.segment_t) {
                Ok((at, along)) => {
                    let away = away_normal_of(centre, &at, &along);
                    let probe = probe_through_of(&at, &away, reach);
                    let ribs = inked_segments(shape, &probe);
                    (Line { start: *centre, end: at }, nearest_rib_of(&ribs))
                },
                Err(_) => (ray, None),
            }
        },
    }
}

/// Casts a ray at every whole degree.
pub fn sweep(shape: &Shape, centre: &Point, reach: i32) -> (found: (Vec<Line>, Vec<Rib>))
    requires
        centre.within(BOX_LIMIT as int),
        0 <= reach <= REACH_LIMIT,
    ensures
        found.0@ == radial_sweep(shape@, *centre, reach as int, SWEEP_DEGREES as int).rays,
        found.1@ == radial_sweep(shape@, *centre, reach as int, SWEEP_DEGREES as int).ribs,
        ribs_in_range(found.1@),
{
    let mut rays: Vec<Line> = Vec::new();
    let mut ribs: Vec<Rib> = Vec::new();
    let mut i: u32 = 0;
    while i < SWEEP_DEGREES
        invariant
            i <= SWEEP_DEGREES,
            centre.within(BOX_LIMIT as int),
            0 <= reach <= REACH_LIMIT,
            rays@ == radial_sweep(shape@, *centre, reach as int, i as int).rays,
            ribs@ == radial_sweep(shape@, *centre, reach as int, i as int).ribs,
            ribs_in_range(ribs@),
        decreases SWEEP_DEGREES - i,
    {
        let found = cast_radial_ray(shape, centre, reach, i);
        rays.push(found.0);
        match found.1 {
            Some(r) => {
                ribs.push(r);
            },
            None => {},
        }
        i += 1;
    }
    (rays, ribs)
}

} // verus!
