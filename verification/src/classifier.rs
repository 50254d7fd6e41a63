//! The fill classifier: shapes, their winding numbers under the nonzero
//! rule, and the crossings of a probe with their outline.

use vstd::prelude::*;
use kurbo::{PathSeg, QuadBez};
use crate::contour::{contours_closed, is_closed};
use crate::error::MeasureError;
use crate::fixed::{UNIT, unit_fraction, decode_unit_fraction, lemma_unit_fraction_range};
use crate::geometry::{Point, Segment, Line, COORD_LIMIT};

verus! {

/// The most segments a shape may have: as many as a winding number can add
/// up without overflow.
pub const MAX_SEGMENTS: u64 = 0x1_0000_0000;

/// Signed crossings that one line or quadratic segment contributes to the
/// winding number around a point, as `kurbo` counts them.
pub uninterp spec fn segment_crossings(seg: Segment, p: Point) -> int;

/// The parameters at which a probe crosses a line or quadratic segment, as
/// `kurbo` finds them: pairs of binary64 bit patterns, first the position
/// along the probe, then the position along the segment.
pub uninterp spec fn crossing_bits(seg: Segment, probe: Line) -> Seq<(u64, u64)>;

/// On which side of the line from `a` to `b` the point `p` lies: twice
/// the area of the triangle `a`, `p`, `b`, positive where `p` lies towards
/// greater `x` of a line that runs towards greater `y`.
pub open spec fn side_of(a: Point, b: Point, p: Point) -> int {
    (b.y - a.y) * (p.x - a.x) - (b.x - a.x) * (p.y - a.y)
}

/// What the line from `a` to `b` contributes to the winding number around
/// `p`: a ray from `p` towards lesser `x` meets a line that runs towards
/// greater `y` for minus one and one that runs towards lesser `y` for plus
/// one. The end with the lesser `y` counts to the line, the other does
/// not, and a point on the line counts as met.
pub open spec fn line_crossings(a: Point, b: Point, p: Point) -> int {
    if a.y < b.y && a.y <= p.y < b.y && side_of(a, b, p) >= 0 {
        -1
    } else if b.y < a.y && b.y <= p.y < a.y && side_of(a, b, p) <= 0 {
        1
    } else {
        0
    }
}

/// What one segment contributes to the winding number around a point: for
/// a line on the lattice what the crossing rule gives, for another segment
/// what `kurbo` counts.
pub open spec fn crossings_of(seg: Segment, p: Point) -> int {
    match seg {
        Segment::Line(a, b) => if seg.within(COORD_LIMIT as int) {
            line_crossings(a, b, p)
        } else {
            segment_crossings(seg, p)
        },
        _ => segment_crossings(seg, p),
    }
}

/// Calls `kurbo::Shape::winding` on the path that consists of `seg` alone.
/// Trusted: the result is the crossing count that `kurbo` computes for this
/// segment and point, which depends on nothing else. For a line within
/// `COORD_LIMIT` of the origin that count is `line_crossings`: `kurbo`
/// tests the same bounds and the sign of the same products, and all its
/// arithmetic is exact on whole numbers of this size.
#[verifier::external_body]
fn segment_winding(seg: &Segment, p: Point) -> (w: i32)
    requires
        !(seg is Cubic),
    ensures
        !(seg is Line && seg.within(COORD_LIMIT as int)) ==> w == segment_crossings(*seg, p),
        *seg matches Segment::Line(a, b) ==> (seg.within(COORD_LIMIT as int) ==> w
            == line_crossings(a, b, p)),
{
    let at = |q: Point| kurbo::Point::new(q.x.into(), q.y.into());
    let mut path = kurbo::BezPath::new();
    match *seg {
        Segment::Line(a, b) => { path.move_to(at(a)); path.line_to(at(b)); }
        Segment::Quadratic(a, b, c) => { path.move_to(at(a)); path.quad_to(at(b), at(c)); }
        Segment::Cubic(..) => {}
    }
    kurbo::Shape::winding(&path, at(p))
}

/// Calls `kurbo::PathSeg::intersect_line`. Trusted: the result lists the
/// crossings that `kurbo` finds, in its order, as bit patterns; there are
/// at most three of them.
#[verifier::external_body]
fn segment_hits(seg: &Segment, probe: &Line) -> (hits: Vec<(u64, u64)>)
    requires
        !(seg is Cubic),
    ensures
        hits@ == crossing_bits(*seg, *probe),
        hits@.len() <= 3,
{
    let at = |q: Point| kurbo::Point::new(q.x.into(), q.y.into());
    let curve = match *seg {
        Segment::Line(a, b) => PathSeg::Line(kurbo::Line::new(at(a), at(b))),
        Segment::Quadratic(a, b, c) => PathSeg::Quad(QuadBez::new(at(a), at(b), at(c))),
        Segment::Cubic(..) => return Vec::new(),
    };
    let found = curve.intersect_line(kurbo::Line::new(at(probe.start), at(probe.end)));
    found.iter().map(|h| (h.line_t.to_bits(), h.segment_t.to_bits())).collect()
}

/// Where a probe crosses the outline.
#[derive(Clone, Copy, Debug, PartialEq, Eq, Structural)]
pub struct Crossing {
    /// The position along the probe, in billionths of its length.
    pub line_t: i64,
    /// The position along the segment, in billionths.
    pub segment_t: i64,
    /// The index of the segment in the shape.
    pub segment: usize,
}

/// The winding number of `segs` around `p`: the sum of what each segment
/// contributes.
pub open spec fn winding_number(segs: Seq<Segment>, p: Point) -> int
    decreases segs.len(),
{
    if segs.len() == 0 {
        0
    } else {
        winding_number(segs.drop_last(), p) + crossings_of(segs.last(), p)
    }
}

/// The winding number of two lists of segments together is the sum of
/// their winding numbers.
pub proof fn lemma_winding_adds(first: Seq<Segment>, second: Seq<Segment>, p: Point)
    ensures
        winding_number(first + second, p) == winding_number(first, p) + winding_number(second, p),
    decreases second.len(),
{
    if second.len() == 0 {
        assert(first + second =~= first);
    } else {
        lemma_winding_adds(first, second.drop_last(), p);
        assert((first + second).drop_last() =~= first + second.drop_last());
        assert((first + second).last() == second.last());
    }
}

/// A line and the same line run backwards contribute nothing together.
pub proof fn lemma_there_and_back(a: Point, b: Point, p: Point)
    ensures
        line_crossings(a, b, p) + line_crossings(b, a, p) == 0,
{
    assert(side_of(b, a, p) == -side_of(a, b, p)) by (nonlinear_arith)
        requires
            side_of(a, b, p) == (b.y - a.y) * (p.x - a.x) - (b.x - a.x) * (p.y - a.y),
            side_of(b, a, p) == (a.y - b.y) * (p.x - b.x) - (a.x - b.x) * (p.y - b.y),
    ;
}

/// A line contributes to the winding number around the points at its own
/// heights alone, and there minus one, nought or one.
pub proof fn lemma_line_crossings_range(a: Point, b: Point, p: Point)
    ensures
        -1 <= line_crossings(a, b, p) <= 1,
        a.y == b.y ==> line_crossings(a, b, p) == 0,
        p.y < a.y && p.y < b.y ==> line_crossings(a, b, p) == 0,
        p.y >= a.y && p.y >= b.y ==> line_crossings(a, b, p) == 0,
{
}

/// An outline that runs along one line and back has no ink.
pub proof fn lemma_flat_outline_is_blank(a: Point, b: Point, p: Point)
    requires
        a.within(COORD_LIMIT as int),
        b.within(COORD_LIMIT as int),
    ensures
        !filled(seq![Segment::Line(a, b), Segment::Line(b, a)], p),
{
    let segs = seq![Segment::Line(a, b), Segment::Line(b, a)];
    lemma_there_and_back(a, b, p);
    assert(segs.drop_last() =~= seq![Segment::Line(a, b)]);
    assert(segs.drop_last().drop_last() =~= Seq::<Segment>::empty());
    assert(winding_number(segs.drop_last().drop_last(), p) == 0);
    assert(segs.drop_last().last() == Segment::Line(a, b));
    assert(winding_number(segs.drop_last(), p) == line_crossings(a, b, p));
    assert(segs.last() == Segment::Line(b, a));
}

/// Whether `p` is inked under the nonzero rule.
pub open spec fn filled(segs: Seq<Segment>, p: Point) -> bool {
    winding_number(segs, p) != 0
}

/// The crossings of `probe` with the segment of index `index`.
pub open spec fn segment_crossing_list(seg: Segment, index: int, probe: Line) -> Seq<Crossing> {
    crossing_bits(seg, probe).map_values(
        |b: (u64, u64)|
            Crossing {
                line_t: unit_fraction(b.0) as i64,
                segment_t: unit_fraction(b.1) as i64,
                segment: index as usize,
            },
    )
}

/// The crossings of `probe` with every segment, in the order of the
/// segments.
pub open spec fn crossing_list(segs: Seq<Segment>, probe: Line) -> Seq<Crossing>
    decreases segs.len(),
{
    if segs.len() == 0 {
        Seq::<Crossing>::empty()
    } else {
        crossing_list(segs.drop_last(), probe) + segment_crossing_list(
            segs.last(),
            segs.len() - 1,
            probe,
        )
    }
}

/// Every crossing parameter lies in the unit interval and names a segment.
pub proof fn lemma_crossing_list_range(segs: Seq<Segment>, probe: Line)
    ensures
        forall|k: int|
            0 <= k < crossing_list(segs, probe).len() ==> {
                let c = #[trigger] crossing_list(segs, probe)[k];
                0 <= c.line_t <= UNIT && 0 <= c.segment_t <= UNIT && (segs.len() <= usize::MAX
                    ==> c.segment < segs.len())
            },
    decreases segs.len(),
{
    if segs.len() > 0 {
        lemma_crossing_list_range(segs.drop_last(), probe);
        let head = crossing_list(segs.drop_last(), probe);
        let tail = segment_crossing_list(segs.last(), segs.len() - 1, probe);
        assert forall|k: int| 0 <= k < crossing_list(segs, probe).len() implies {
            let c = #[trigger] crossing_list(segs, probe)[k];
            0 <= c.line_t <= UNIT && 0 <= c.segment_t <= UNIT && (segs.len() <= usize::MAX
                ==> c.segment < segs.len())
        } by {
            if k < head.len() {
                assert(crossing_list(segs, probe)[k] == head[k]);
            } else {
                let b = crossing_bits(segs.last(), probe)[k - head.len()];
                assert(crossing_list(segs, probe)[k] == tail[k - head.len()]);
                lemma_unit_fraction_range(b.0);
                lemma_unit_fraction_range(b.1);
            }
        }
    }
}

/// A closed planar shape: the segments of its contours, in order. It holds
/// lines and quadratics only, each within `COORD_LIMIT` of the origin, and
/// every contour ends where it began.
pub struct Shape {
    segments: Vec<Segment>,
}

impl View for Shape {
    type V = Seq<Segment>;

    closed spec fn view(&self) -> Seq<Segment> {
        self.segments@
    }
}

impl Shape {
    /// What a list of segments must satisfy to be the outline of a shape:
    /// it is not too long, it lies within `COORD_LIMIT` of the origin, and
    /// its contours are closed.
    pub open spec fn fits(segs: Seq<Segment>) -> bool {
        &&& segs.len() <= MAX_SEGMENTS
        &&& forall|i: int| 0 <= i < segs.len() ==> (#[trigger] segs[i]).within(COORD_LIMIT as int)
        &&& contours_closed(segs)
    }

    /// Whether a list of segments holds a cubic.
    pub open spec fn has_cubic(segs: Seq<Segment>) -> bool {
        exists|i: int| 0 <= i < segs.len() && #[trigger] segs[i] is Cubic
    }

    /// What holds of every shape: its outline fits and has no cubic.
    #[verifier::type_invariant]
    pub open spec fn well_formed(self) -> bool {
        Self::fits(self@) && !Self::has_cubic(self@)
    }

    /// Tests whether a list of segments can be the outline of a shape.
    pub fn accepts(segments: &Vec<Segment>) -> (ok: bool)
        ensures
            ok == Self::fits(segments@),
    {
        if segments.len() as u64 > MAX_SEGMENTS {
            return false;
        }
        let mut i: usize = 0;
        while i < segments.len()
            invariant
                i <= segments.len(),
                forall|j: int| 0 <= j < i ==> (#[trigger] segments@[j]).within(COORD_LIMIT as int),
            decreases segments.len() - i,
        {
            if !segment_within(&segments[i]) {
                return false;
            }
            i += 1;
        }
        is_closed(segments)
    }

    /// Builds a shape. A cubic segment is refused.
    pub fn new(segments: Vec<Segment>) -> (r: Result<Shape, MeasureError>)
        requires
            Self::fits(segments@),
        ensures
            Self::has_cubic(segments@) <==> r == Err::<Shape, MeasureError>(
                MeasureError::UnsupportedSegment,
            ),
            r matches Ok(s) ==> s@ == segments@,
            r is Ok || r == Err::<Shape, MeasureError>(MeasureError::UnsupportedSegment),
    {
        let mut i: usize = 0;
        while i < segments.len()
            invariant
                i <= segments.len(),
                forall|j: int| 0 <= j < i ==> !(#[trigger] segments@[j] is Cubic),
            decreases segments.len() - i,
        {
            match segments[i] {
                Segment::Cubic(..) => {
                    return Err(MeasureError::UnsupportedSegment);
                },
                _ => {},
            }
            i += 1;
        }
        Ok(Shape { segments })
    }

    /// The number of segments.
    pub fn len(&self) -> (n: usize)
        ensures
            n == self@.len(),
    {
        self.segments.len()
    }

    /// The segment of index `i`.
    pub fn segment(&self, i: usize) -> (s: Segment)
        requires
            i < self@.len(),
        ensures
            s == self@[i as int],
            s.within(COORD_LIMIT as int),
            !(s is Cubic),
    {
        proof {
            use_type_invariant(self);
        }
        self.segments[i]
    }

    /// The winding number of the shape around `p`.
    pub fn winding(&self, p: Point) -> (w: i64)
        ensures
            w == winding_number(self@, p),
    {
        proof {
            use_type_invariant(self);
        }
        let mut w: i64 = 0;
        let mut i: usize = 0;
        while i < self.segments.len()
            invariant
                i <= self.segments.len(),
                self.segments.len() <= MAX_SEGMENTS,
                !Self::has_cubic(self.segments@),
                w == winding_number(self.segments@.take(i as int), p),
                -0x8000_0000 * i <= w <= 0x8000_0000 * i,
            decreases self.segments.len() - i,
        {
            let c: i32 = segment_winding(&self.segments[i], p);
            proof {
                assert(self.segments@.take(i + 1).drop_last() == self.segments@.take(i as int));
            }
            w = w + c as i64;
            i += 1;
        }
        proof {
            assert(self.segments@.take(i as int) == self.segments@);
        }
        w
    }

    /// Whether `p` is inked: whether the winding number around it is not
    /// zero.
    pub fn is_filled(&self, p: Point) -> (b: bool)
        ensures
            b == filled(self@, p),
    {
        self.winding(p) != 0
    }

    /// The crossings of `probe` with one segment.
    pub fn intersect(&self, probe: &Line, index: usize) -> (found: Vec<Crossing>)
        requires
            index < self@.len(),
        ensures
            found@ == segment_crossing_list(self@[index as int], index as int, *probe),
    {
        proof {
            use_type_invariant(self);
        }
        let hits = segment_hits(&self.segments[index], probe);
        let mut found: Vec<Crossing> = Vec::new();
        let mut k: usize = 0;
        while k < hits.len()
            invariant
                k <= hits.len(),
                found@ == segment_crossing_list(self.segments@[index as int], index as int, *probe).take(
                    k as int,
                ),
                hits@ == crossing_bits(self.segments@[index as int], *probe),
            decreases hits.len() - k,
        {
            let h = hits[k];
            found.push(
                Crossing {
                    line_t: decode_unit_fraction(h.0),
                    segment_t: decode_unit_fraction(h.1),
                    segment: index,
                },
            );
            k += 1;
        }
        found
    }

    /// The crossings of `probe` with the whole outline, segment by segment.
    pub fn crossings(&self, probe: &Line) -> (found: Vec<Crossing>)
        ensures
            found@ == crossing_list(self@, *probe),
    {
        let mut found: Vec<Crossing> = Vec::new();
        let mut i: usize = 0;
        while i < self.segments.len()
            invariant
                i <= self.segments.len(),
                found@ == crossing_list(self.segments@.take(i as int), *probe),
            decreases self.segments.len() - i,
        {
            let mut part = self.intersect(probe, i);
            proof {
                assert(self.segments@.take(i + 1).drop_last() == self.segments@.take(i as int));
            }
            found.append(&mut part);
            i += 1;
        }
        proof {
            assert(self.segments@.take(i as int) == self.segments@);
        }
        found
    }
}

/// Tests whether a segment lies within `COORD_LIMIT` of the origin.
fn segment_within(seg: &Segment) -> (ok: bool)
    ensures
        ok == seg.within(COORD_LIMIT as int),
{
    match seg {
        Segment::Line(a, b) => point_within(a) && point_within(b),
        Segment::Quadratic(a, b, c) => point_within(a) && point_within(b) && point_within(c),
        Segment::Cubic(a, b, c, d) => point_within(a) && point_within(b) && point_within(c)
            && point_within(d),
    }
}

fn point_within(p: &Point) -> (ok: bool)
    ensures
        ok == p.within(COORD_LIMIT as int),
{
    -COORD_LIMIT <= p.x && p.x <= COORD_LIMIT && -COORD_LIMIT <= p.y && p.y <= COORD_LIMIT
}

} // verus!
