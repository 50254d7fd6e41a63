//! What holds of shapes made of straight lines alone, whose winding
//! numbers are stated in full.

use vstd::prelude::*;
use crate::geometry::{Point, Segment, COORD_LIMIT};
use crate::contour::{contours_closed, contour_start, contour_ends_at, returns_to_start, lemma_contour_start_of_prefix};
use crate::classifier::{winding_number, filled, crossings_of, line_crossings, side_of};
use crate::bounds::{extent, lemma_extent_holds_line_ends};

verus! {

/// Whether every segment is a line within `COORD_LIMIT` of the origin.
pub open spec fn is_polygon(segs: Seq<Segment>) -> bool {
    forall|i: int|
        0 <= i < segs.len() ==> (#[trigger] segs[i]) is Line && segs[i].within(COORD_LIMIT as int)
}

/// One where `v` lies above the height of `p`, nought where it does not.
pub open spec fn above(v: Point, p: Point) -> int {
    if v.y > p.y {
        1
    } else {
        0
    }
}

/// A line contributes nothing to the winding number around a point that
/// lies towards lesser `x` of both its ends; around one that lies at or
/// beyond the greater `x` of its ends it contributes one for an end that
/// it leaves above the point's height and minus one for an end that it
/// reaches there.
pub proof fn lemma_line_beside(a: Point, b: Point, p: Point)
    ensures
        p.x < a.x && p.x < b.x ==> line_crossings(a, b, p) == 0,
        p.x >= a.x && p.x >= b.x ==> line_crossings(a, b, p) == above(a, p) - above(b, p),
{
    let u = p.x - a.x;
    let w = b.x - a.x;
    let rise = b.y - a.y;
    let k = p.y - a.y;
    assert(side_of(a, b, p) == rise * u - w * k);
    if a.y < b.y && a.y <= p.y < b.y {
        if p.x < a.x && p.x < b.x {
            assert(rise * u - w * k < 0) by (nonlinear_arith)
                requires
                    rise > 0,
                    0 <= k < rise,
                    u < 0,
                    u < w,
            ;
        }
        if p.x >= a.x && p.x >= b.x {
            assert(rise * u - w * k >= 0) by (nonlinear_arith)
                requires
                    rise > 0,
                    0 <= k < rise,
                    u >= 0,
                    u >= w,
            ;
        }
    }
    if b.y < a.y && b.y <= p.y < a.y {
        if p.x < a.x && p.x < b.x {
            assert(rise * u - w * k > 0) by (nonlinear_arith)
                requires
                    rise < 0,
                    rise <= k < 0,
                    u < 0,
                    u < w,
            ;
        }
        if p.x >= a.x && p.x >= b.x {
            assert(rise * u - w * k <= 0) by (nonlinear_arith)
                requires
                    rise < 0,
                    rise <= k < 0,
                    u >= 0,
                    u >= w,
            ;
        }
    }
}

/// Segments that contribute nothing each contribute nothing together.
pub proof fn lemma_no_crossings(segs: Seq<Segment>, p: Point)
    requires
        forall|i: int| 0 <= i < segs.len() ==> crossings_of(#[trigger] segs[i], p) == 0,
    ensures
        winding_number(segs, p) == 0,
    decreases segs.len(),
{
    if segs.len() > 0 {
        let front = segs.drop_last();
        assert forall|i: int| 0 <= i < front.len() implies crossings_of(#[trigger] front[i], p)
            == 0 by {
            assert(front[i] == segs[i]);
        }
        lemma_no_crossings(front, p);
        assert(segs.last() == segs[segs.len() - 1]);
    }
}

/// Around a point at or beyond the greatest `x` of a polygon, the lines up
/// to a given one contribute as much as the start of the current contour
/// lies above the point's height more than the end of that line does.
proof fn lemma_contour_telescopes(segs: Seq<Segment>, p: Point, k: int)
    requires
        is_polygon(segs),
        contours_closed(segs),
        forall|i: int|
            0 <= i < segs.len() ==> p.x >= (#[trigger] segs[i]).start().x && p.x
                >= segs[i].end().x,
        1 <= k <= segs.len(),
    ensures
        winding_number(segs.take(k), p) == above(segs[contour_start(segs, k - 1)].start(), p)
            - above(segs[k - 1].end(), p),
    decreases k,
{
    let seg = segs[k - 1];
    assert(seg is Line && seg.within(COORD_LIMIT as int));
    assert(p.x >= seg.start().x && p.x >= seg.end().x);
    lemma_line_beside(seg.start(), seg.end(), p);
    assert(crossings_of(seg, p) == above(seg.start(), p) - above(seg.end(), p));
    assert(segs.take(k).drop_last() =~= segs.take(k - 1));
    assert(segs.take(k).last() == seg);
    lemma_contour_start_of_prefix(segs, segs.len() as int, k - 1);
    if k == 1 {
        assert(winding_number(segs.take(0), p) == 0);
    } else {
        lemma_contour_telescopes(segs, p, k - 1);
        lemma_contour_start_of_prefix(segs, segs.len() as int, k - 2);
        if segs[k - 2].end() == segs[k - 1].start() {
        } else {
            assert(contour_ends_at(segs, k - 2));
            assert(returns_to_start(segs, k - 2));
        }
    }
}

/// What the line from `a` to `b` contributes to the winding number around
/// `p` where the ray is cast the other way, towards greater `x`: it meets
/// the lines that the ray towards lesser `x` misses, each the other way
/// round, and a point on a line counts as missed.
pub open spec fn opposite_crossings(a: Point, b: Point, p: Point) -> int {
    if a.y < b.y && a.y <= p.y < b.y && side_of(a, b, p) < 0 {
        1
    } else if b.y < a.y && b.y <= p.y < a.y && side_of(a, b, p) > 0 {
        -1
    } else {
        0
    }
}

/// The winding number of a polygon around `p` as the ray towards greater
/// `x` counts it.
pub open spec fn opposite_winding(segs: Seq<Segment>, p: Point) -> int
    decreases segs.len(),
{
    if segs.len() == 0 {
        0
    } else {
        opposite_winding(segs.drop_last(), p) + opposite_crossings(
            segs.last().start(),
            segs.last().end(),
            p,
        )
    }
}

/// The two rays differ on the lines up to a given one by as much as the
/// start of the current contour lies above the point's height more than
/// the end of that line does.
proof fn lemma_rays_telescope(segs: Seq<Segment>, p: Point, k: int)
    requires
        is_polygon(segs),
        contours_closed(segs),
        1 <= k <= segs.len(),
    ensures
        winding_number(segs.take(k), p) - opposite_winding(segs.take(k), p) == above(
            segs[contour_start(segs, k - 1)].start(),
            p,
        ) - above(segs[k - 1].end(), p),
    decreases k,
{
    let seg = segs[k - 1];
    assert(seg is Line && seg.within(COORD_LIMIT as int));
    assert(crossings_of(seg, p) - opposite_crossings(seg.start(), seg.end(), p) == above(
        seg.start(),
        p,
    ) - above(seg.end(), p));
    assert(segs.take(k).drop_last() =~= segs.take(k - 1));
    assert(segs.take(k).last() == seg);
    lemma_contour_start_of_prefix(segs, segs.len() as int, k - 1);
    if k == 1 {
        assert(winding_number(segs.take(0), p) == 0);
        assert(opposite_winding(segs.take(0), p) == 0);
    } else {
        lemma_rays_telescope(segs, p, k - 1);
        lemma_contour_start_of_prefix(segs, segs.len() as int, k - 2);
        if segs[k - 2].end() == segs[k - 1].start() {
        } else {
            assert(contour_ends_at(segs, k - 2));
            assert(returns_to_start(segs, k - 2));
        }
    }
}

/// The winding number of a polygon around a point does not depend on the
/// way the ray is cast along the first axis: the ray towards greater `x`
/// counts what the ray towards lesser `x` counts.
pub proof fn lemma_winding_either_way(segs: Seq<Segment>, p: Point)
    requires
        is_polygon(segs),
        contours_closed(segs),
    ensures
        winding_number(segs, p) == opposite_winding(segs, p),
{
    if segs.len() > 0 {
        let last = segs.len() as int;
        lemma_rays_telescope(segs, p, last);
        assert(segs.take(last) =~= segs);
        assert(contour_ends_at(segs, last - 1));
        assert(returns_to_start(segs, last - 1));
    }
}

/// A polygon has no ink outside its box.
pub proof fn lemma_polygon_is_blank_outside_its_box(segs: Seq<Segment>, p: Point)
    requires
        is_polygon(segs),
        contours_closed(segs),
        !extent(segs).holds(p),
    ensures
        !filled(segs, p),
{
    let frame = extent(segs);
    assert forall|i: int| 0 <= i < segs.len() implies frame.holds((#[trigger] segs[i]).start())
        && frame.holds(segs[i].end()) by {
        lemma_extent_holds_line_ends(segs, i);
    }
    if segs.len() == 0 {
    } else if p.x > frame.max_x {
        let last = segs.len() as int;
        lemma_contour_telescopes(segs, p, last);
        assert(segs.take(last) =~= segs);
        assert(contour_ends_at(segs, last - 1));
        assert(returns_to_start(segs, last - 1));
    } else {
        assert forall|i: int| 0 <= i < segs.len() implies crossings_of(#[trigger] segs[i], p)
            == 0 by {
            let seg = segs[i];
            assert(seg is Line && seg.within(COORD_LIMIT as int));
            assert(frame.holds(seg.start()) && frame.holds(seg.end()));
            lemma_line_beside(seg.start(), seg.end(), p);
        }
        lemma_no_crossings(segs, p);
    }
}

} // verus!
