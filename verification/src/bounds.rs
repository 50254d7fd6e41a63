//! The box around a shape that sizes sampling grids and probes.

use vstd::prelude::*;
use kurbo::{PathSeg, QuadBez};
use crate::fixed::{floor_value, ceil_value, decode_floor, decode_ceil};
use crate::geometry::{Point, Segment, COORD_LIMIT};
use crate::classifier::Shape;

verus! {

/// An axis-aligned box on the lattice.
#[derive(Clone, Copy, Debug, PartialEq, Eq, Structural)]
pub struct Bounds {
    /// The least position along the first axis.
    pub min_x: i32,
    /// The least position along the second axis.
    pub min_y: i32,
    /// The greatest position along the first axis.
    pub max_x: i32,
    /// The greatest position along the second axis.
    pub max_y: i32,
}

/// Hundredths of the larger dimension by which the box is widened on
/// every side.
pub const MARGIN_PERCENT: i32 = 3;

/// Largest absolute coordinate of a widened box.
pub const BOX_LIMIT: i32 = 0x20_0000;

/// The margin of a box whose larger side is `side`: `MARGIN_PERCENT`
/// hundredths of it, rounded up.
pub open spec fn margin_of(side: int) -> int {
    (side * MARGIN_PERCENT + 99) / 100
}

/// The margin is no less than `MARGIN_PERCENT` hundredths of the side, and
/// less than a step more.
pub proof fn lemma_margin_covers(side: int)
    requires
        side >= 0,
    ensures
        100 * margin_of(side) >= MARGIN_PERCENT * side,
        100 * margin_of(side) < MARGIN_PERCENT * side + 100,
{
    vstd::arithmetic::div_mod::lemma_fundamental_div_mod(side * MARGIN_PERCENT + 99, 100);
}

/// Computes the margin for a larger side.
pub fn margin_for(side: i32) -> (m: i32)
    requires
        0 <= side <= 2 * BOX_LIMIT,
    ensures
        m == margin_of(side as int),
        0 <= m,
        m <= side,
        100 * m < MARGIN_PERCENT * side + 100,
{
    proof {
        lemma_margin_covers(side as int);
    }
    (side * MARGIN_PERCENT + 99) / 100
}

impl Bounds {
    /// The smallest box that holds this one and `other`.
    pub open spec fn union(self, other: Bounds) -> Bounds {
        Bounds {
            min_x: if other.min_x < self.min_x { other.min_x } else { self.min_x },
            min_y: if other.min_y < self.min_y { other.min_y } else { self.min_y },
            max_x: if other.max_x > self.max_x { other.max_x } else { self.max_x },
            max_y: if other.max_y > self.max_y { other.max_y } else { self.max_y },
        }
    }

    /// Whether `p` lies in the box, edges included.
    pub open spec fn holds(self, p: Point) -> bool {
        self.min_x <= p.x <= self.max_x && self.min_y <= p.y <= self.max_y
    }

    /// Whether the box is ordered and lies within `limit` of the origin.
    pub open spec fn within(self, limit: int) -> bool {
        -limit <= self.min_x <= self.max_x <= limit && -limit <= self.min_y <= self.max_y <= limit
    }

    /// The width of the box.
    pub open spec fn width(self) -> int {
        self.max_x - self.min_x
    }

    /// The height of the box.
    pub open spec fn height(self) -> int {
        self.max_y - self.min_y
    }

    /// The larger of width and height.
    pub open spec fn larger_side(self) -> int {
        if self.width() >= self.height() {
            self.width()
        } else {
            self.height()
        }
    }

    /// The box widened on every side by its margin: `MARGIN_PERCENT`
    /// hundredths of its larger side, rounded up.
    pub open spec fn widened(self) -> Bounds {
        let margin = margin_of(self.larger_side());
        Bounds {
            min_x: (self.min_x - margin) as i32,
            min_y: (self.min_y - margin) as i32,
            max_x: (self.max_x + margin) as i32,
            max_y: (self.max_y + margin) as i32,
        }
    }

    /// Computes the larger side.
    pub fn max_dim(&self) -> (d: i32)
        requires
            self.within(BOX_LIMIT as int),
        ensures
            d == self.larger_side(),
            0 <= d <= 2 * BOX_LIMIT,
    {
        let w: i32 = self.max_x - self.min_x;
        let h: i32 = self.max_y - self.min_y;
        if w >= h {
            w
        } else {
            h
        }
    }

    /// Widens the box by its margin.
    pub fn inflate(&self) -> (b: Bounds)
        requires
            self.within(COORD_LIMIT as int),
        ensures
            b == self.widened(),
            b.within(BOX_LIMIT as int),
            b.larger_side() >= self.larger_side(),
    {
        let margin: i32 = margin_for(self.max_dim());
        Bounds {
            min_x: self.min_x - margin,
            min_y: self.min_y - margin,
            max_x: self.max_x + margin,
            max_y: self.max_y + margin,
        }
    }

    /// Joins two boxes.
    pub fn join(&self, other: &Bounds) -> (b: Bounds)
        ensures
            b == self.union(*other),
    {
        Bounds {
            min_x: if other.min_x < self.min_x { other.min_x } else { self.min_x },
            min_y: if other.min_y < self.min_y { other.min_y } else { self.min_y },
            max_x: if other.max_x > self.max_x { other.max_x } else { self.max_x },
            max_y: if other.max_y > self.max_y { other.max_y } else { self.max_y },
        }
    }
}

/// The box of one line or quadratic segment as `kurbo` finds it: the bit
/// patterns of its least `x`, least `y`, greatest `x` and greatest `y`.
pub uninterp spec fn extent_bits(seg: Segment) -> (u64, u64, u64, u64);

/// The box that holds two points.
pub open spec fn box_of_ends(a: Point, b: Point) -> Bounds {
    Bounds {
        min_x: if b.x < a.x { b.x } else { a.x },
        min_y: if b.y < a.y { b.y } else { a.y },
        max_x: if b.x > a.x { b.x } else { a.x },
        max_y: if b.y > a.y { b.y } else { a.y },
    }
}

/// Calls `kurbo::Shape::bounding_box` on one segment. Trusted: the result
/// holds the four sides of the box that `kurbo` computes for this segment,
/// as bit patterns. For a line they are the lesser and the greater of the
/// coordinates of its ends, which are whole numbers.
#[verifier::external_body]
fn segment_extent(seg: &Segment) -> (bits: (u64, u64, u64, u64))
    requires
        !(seg is Cubic),
    ensures
        bits == extent_bits(*seg),
        *seg matches Segment::Line(a, b) ==> {
            &&& floor_value(bits.0) == box_of_ends(a, b).min_x
            &&& floor_value(bits.1) == box_of_ends(a, b).min_y
            &&& ceil_value(bits.2) == box_of_ends(a, b).max_x
            &&& ceil_value(bits.3) == box_of_ends(a, b).max_y
        },
{
    let at = |q: Point| kurbo::Point::new(q.x.into(), q.y.into());
    let curve = match *seg {
        Segment::Line(a, b) => PathSeg::Line(kurbo::Line::new(at(a), at(b))),
        Segment::Quadratic(a, b, c) => PathSeg::Quad(QuadBez::new(at(a), at(b), at(c))),
        Segment::Cubic(..) => return (0, 0, 0, 0),
    };
    let found = kurbo::Shape::bounding_box(&curve);
    (found.x0.to_bits(), found.y0.to_bits(), found.x1.to_bits(), found.y1.to_bits())
}

/// `v` brought within `COORD_LIMIT` of zero.
pub open spec fn clamped(v: int) -> int {
    if v < -COORD_LIMIT {
        -COORD_LIMIT as int
    } else if v > COORD_LIMIT {
        COORD_LIMIT as int
    } else {
        v
    }
}

/// The box of one segment on the lattice: for a line on the lattice the
/// box of its ends; for another segment the box that `kurbo` finds, with
/// its least sides rounded down and its greatest sides rounded up, kept
/// within `COORD_LIMIT` of the origin.
pub open spec fn segment_box(seg: Segment) -> Bounds {
    match seg {
        Segment::Line(a, b) => if seg.within(COORD_LIMIT as int) {
            box_of_ends(a, b)
        } else {
            curve_box(seg)
        },
        _ => curve_box(seg),
    }
}

/// The box that `kurbo` finds for a segment, with its least sides rounded
/// down and its greatest sides rounded up, kept within `COORD_LIMIT` of
/// the origin.
pub open spec fn curve_box(seg: Segment) -> Bounds {
    let bits = extent_bits(seg);
    let min_x = clamped(floor_value(bits.0));
    let min_y = clamped(floor_value(bits.1));
    let max_x = clamped(ceil_value(bits.2));
    let max_y = clamped(ceil_value(bits.3));
    Bounds {
        min_x: min_x as i32,
        min_y: min_y as i32,
        max_x: (if max_x < min_x { min_x } else { max_x }) as i32,
        max_y: (if max_y < min_y { min_y } else { max_y }) as i32,
    }
}

/// The smallest box that holds the box of every segment; the origin alone
/// where there is no segment.
pub open spec fn extent(segs: Seq<Segment>) -> Bounds
    decreases segs.len(),
{
    if segs.len() == 0 {
        Bounds { min_x: 0, min_y: 0, max_x: 0, max_y: 0 }
    } else if segs.len() == 1 {
        segment_box(segs[0])
    } else {
        extent(segs.drop_last()).union(segment_box(segs.last()))
    }
}

/// The box of a shape lies within `COORD_LIMIT` of the origin and holds
/// the box of each of its segments.
pub proof fn lemma_extent_fits(segs: Seq<Segment>)
    ensures
        extent(segs).within(COORD_LIMIT as int),
        forall|i: int|
            0 <= i < segs.len() ==> extent(segs).min_x <= (#[trigger] segment_box(segs[i])).min_x
                && segment_box(segs[i]).max_x <= extent(segs).max_x && extent(segs).min_y
                <= segment_box(segs[i]).min_y && segment_box(segs[i]).max_y <= extent(segs).max_y,
    decreases segs.len(),
{
    if segs.len() > 1 {
        let front = segs.drop_last();
        lemma_extent_fits(front);
        assert forall|i: int| 0 <= i < segs.len() implies extent(segs).min_x <= (
        #[trigger] segment_box(segs[i])).min_x && segment_box(segs[i]).max_x <= extent(segs).max_x
            && extent(segs).min_y <= segment_box(segs[i]).min_y && segment_box(segs[i]).max_y
            <= extent(segs).max_y by {
            if i < front.len() {
                assert(front[i] == segs[i]);
            }
        }
    }
}

/// The box of a shape holds both ends of each of its lines.
pub proof fn lemma_extent_holds_line_ends(segs: Seq<Segment>, i: int)
    requires
        0 <= i < segs.len(),
        segs[i] is Line,
        segs[i].within(COORD_LIMIT as int),
    ensures
        extent(segs).holds(segs[i].start()),
        extent(segs).holds(segs[i].end()),
{
    lemma_extent_fits(segs);
    assert(segment_box(segs[i]) == box_of_ends(segs[i].start(), segs[i].end()));
}

fn clamp(v: i64) -> (c: i32)
    ensures
        c == clamped(v as int),
        -COORD_LIMIT <= c <= COORD_LIMIT,
{
    if v < -(COORD_LIMIT as i64) {
        -COORD_LIMIT
    } else if v > COORD_LIMIT as i64 {
        COORD_LIMIT
    } else {
        v as i32
    }
}

/// Computes the box of one segment.
pub fn segment_box_of(seg: &Segment) -> (b: Bounds)
    requires
        !(seg is Cubic),
    ensures
        b == segment_box(*seg),
        b.within(COORD_LIMIT as int),
{
    let bits = segment_extent(seg);
    let min_x: i32 = clamp(decode_floor(bits.0));
    let min_y: i32 = clamp(decode_floor(bits.1));
    let max_x: i32 = clamp(decode_ceil(bits.2));
    let max_y: i32 = clamp(decode_ceil(bits.3));
    Bounds {
        min_x,
        min_y,
        max_x: if max_x < min_x { min_x } else { max_x },
        max_y: if max_y < min_y { min_y } else { max_y },
    }
}

/// Computes the box of a shape.
pub fn extent_of(shape: &Shape) -> (b: Bounds)
    ensures
        b == extent(shape@),
        b.within(COORD_LIMIT as int),
{
    proof {
        lemma_extent_fits(shape@);
    }
    let n = shape.len();
    if n == 0 {
        return Bounds { min_x: 0, min_y: 0, max_x: 0, max_y: 0 };
    }
    let first = shape.segment(0);
    let mut b = segment_box_of(&first);
    let mut i: usize = 1;
    proof {
        assert(shape@.take(1).len() == 1);
    }
    while i < n
        invariant
            1 <= i <= n,
            n == shape@.len(),
            b == extent(shape@.take(i as int)),
        decreases n - i,
    {
        let seg = shape.segment(i);
        proof {
            assert(shape@.take(i + 1).drop_last() == shape@.take(i as int));
        }
        b = b.join(&segment_box_of(&seg));
        i += 1;
    }
    proof {
        assert(shape@.take(i as int) == shape@);
    }
    b
}

} // verus!
