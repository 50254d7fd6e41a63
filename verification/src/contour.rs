//! Closed contours: every run of connected segments ends where it began.

use vstd::prelude::*;
use crate::geometry::{Point, Segment};

verus! {

impl Segment {
    /// The point at which the segment starts.
    pub fn first_point(&self) -> (p: Point)
        ensures
            p == self.start(),
    {
        match self {
            Segment::Line(a, _) => *a,
            Segment::Quadratic(a, _, _) => *a,
            Segment::Cubic(a, _, _, _) => *a,
        }
    }

    /// The point at which the segment ends.
    pub fn last_point(&self) -> (p: Point)
        ensures
            p == self.end(),
    {
        match self {
            Segment::Line(_, b) => *b,
            Segment::Quadratic(_, _, c) => *c,
            Segment::Cubic(_, _, _, d) => *d,
        }
    }
}

/// The index of the first segment of the contour that holds segment `i`:
/// a contour runs for as long as each segment starts where the one before
/// it ended.
pub open spec fn contour_start(segs: Seq<Segment>, i: int) -> int
    decreases i,
{
    if i <= 0 {
        0
    } else if segs[i - 1].end() == segs[i].start() {
        contour_start(segs, i - 1)
    } else {
        i
    }
}

/// Whether segment `i` is the last of its contour.
pub open spec fn contour_ends_at(segs: Seq<Segment>, i: int) -> bool {
    i == segs.len() - 1 || segs[i].end() != segs[i + 1].start()
}

/// Whether segment `i` ends where its contour began.
pub open spec fn returns_to_start(segs: Seq<Segment>, i: int) -> bool {
    segs[i].end() == segs[contour_start(segs, i)].start()
}

/// Whether every contour is closed: its last segment ends at the start of
/// its first.
pub open spec fn contours_closed(segs: Seq<Segment>) -> bool {
    forall|i: int|
        0 <= i < segs.len() && #[trigger] contour_ends_at(segs, i) ==> returns_to_start(segs, i)
}

/// Tests whether every contour is closed.
pub fn is_closed(segments: &Vec<Segment>) -> (ok: bool)
    ensures
        ok == contours_closed(segments@),
{
    let n = segments.len();
    if n == 0 {
        return true;
    }
    let mut start: Point = segments[0].first_point();
    let mut i: usize = 0;
    while i < n
        invariant
            i <= n,
            n == segments@.len(),
            n > 0,
            i < n ==> start == segments@[contour_start(segments@, i as int)].start(),
            i < n ==> 0 <= contour_start(segments@, i as int) <= i,
            forall|j: int|
                0 <= j < i && #[trigger] contour_ends_at(segments@, j) ==> returns_to_start(
                    segments@,
                    j,
                ),
        decreases n - i,
    {
        let end = segments[i].last_point();
        let returned = end.x == start.x && end.y == start.y;
        if i + 1 < n {
            let next = segments[i + 1].first_point();
            if !(end.x == next.x && end.y == next.y) {
                if !returned {
                    proof {
                        assert(contour_ends_at(segments@, i as int));
                        assert(!returns_to_start(segments@, i as int));
                    }
                    return false;
                }
                start = next;
            }
        } else if !returned {
            proof {
                assert(contour_ends_at(segments@, i as int));
                assert(!returns_to_start(segments@, i as int));
            }
            return false;
        }
        i += 1;
    }
    true
}

/// Whether segment `i` of `o` starts where the one before it ended.
pub open spec fn joins(o: Seq<Segment>, i: int) -> bool {
    o[i - 1].end() == o[i].start()
}

/// Whether `o` is one connected run from `from` to `to`; the empty run
/// stays where it is.
pub open spec fn runs_from_to(o: Seq<Segment>, from: Point, to: Point) -> bool {
    if o.len() == 0 {
        from == to
    } else {
        &&& o[0].start() == from
        &&& o.last().end() == to
        &&& forall|i: int| 0 < i < o.len() ==> #[trigger] joins(o, i)
    }
}

/// Where a contour starts depends on the segments before it alone.
pub proof fn lemma_contour_start_of_prefix(segs: Seq<Segment>, k: int, i: int)
    requires
        0 <= i < k <= segs.len(),
    ensures
        contour_start(segs.take(k), i) == contour_start(segs, i),
        0 <= contour_start(segs, i) <= i,
    decreases i,
{
    if i > 0 {
        lemma_contour_start_of_prefix(segs, k, i - 1);
        assert(segs.take(k)[i - 1] == segs[i - 1]);
        assert(segs.take(k)[i] == segs[i]);
    }
}

/// Within a connected run every segment belongs to the contour of the
/// first.
proof fn lemma_contour_start_in_run(segs: Seq<Segment>, k: int, i: int)
    requires
        0 <= k <= i < segs.len(),
        forall|j: int| k < j <= i ==> #[trigger] joins(segs, j),
    ensures
        contour_start(segs, i) == contour_start(segs, k),
    decreases i - k,
{
    if i > k {
        assert(joins(segs, i));
        lemma_contour_start_in_run(segs, k, i - 1);
    }
}

/// Closed contours followed by a run that returns to its start are closed
/// contours.
pub proof fn lemma_closed_run_appended(closed: Seq<Segment>, run: Seq<Segment>, at: Point)
    requires
        contours_closed(closed),
        run.len() > 0,
        runs_from_to(run, at, at),
    ensures
        contours_closed(closed + run),
{
    let all = closed + run;
    let k = closed.len() as int;
    let last = all.len() - 1;
    assert(all.take(k) =~= closed);
    assert forall|j: int| k < j <= last implies #[trigger] joins(all, j) by {
        assert(joins(run, j - k));
        assert(all[j - 1] == run[j - 1 - k] && all[j] == run[j - k]);
    }
    assert forall|i: int| 0 <= i < all.len() && #[trigger] contour_ends_at(all, i)
        implies returns_to_start(all, i) by {
        if i < k {
            lemma_contour_start_of_prefix(all, k, i);
            assert(all[i] == closed[i]);
            if i < k - 1 {
                assert(all[i + 1] == closed[i + 1]);
            }
            assert(contour_ends_at(closed, i));
            assert(returns_to_start(closed, i));
            assert(all[contour_start(all, i)] == closed[contour_start(closed, i)]);
        } else {
            if i < last {
                assert(joins(all, i + 1));
            }
            assert(i == last);
            lemma_contour_start_in_run(all, k, last);
            assert(all[last] == run.last());
            assert(all[k] == run[0]);
            if k > 0 && all[k - 1].end() == all[k].start() {
                lemma_contour_start_of_prefix(all, k, k - 1);
                assert(all[k - 1] == closed[k - 1]);
                assert(contour_ends_at(closed, k - 1));
                assert(returns_to_start(closed, k - 1));
                assert(all[contour_start(all, k - 1)] == closed[contour_start(closed, k - 1)]);
            }
        }
    }
}

/// A contour that is closed is a cycle: the first segment of the contour
/// that holds segment `i` starts a run that reaches `i` without a break.
pub proof fn lemma_contour_is_connected(segs: Seq<Segment>, i: int, j: int)
    requires
        0 <= i < segs.len(),
        contour_start(segs, i) < j <= i,
    ensures
        segs[j - 1].end() == segs[j].start(),
        contour_start(segs, j) == contour_start(segs, i),
    decreases i - j,
{
    if j < i {
        assert(contour_start(segs, i) != i);
        lemma_contour_is_connected(segs, i - 1, j);
    }
}

} // verus!
