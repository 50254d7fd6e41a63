//! A pen that turns drawing commands into the segments of an outline.
//! Commands arrive with the second axis pointing up; the pen flips it and
//! shifts what it draws by the advance gathered so far.

use vstd::prelude::*;
use crate::contour::{contours_closed, runs_from_to, joins, lemma_closed_run_appended};
use crate::geometry::{Point, Segment, COORD_LIMIT};

verus! {

/// Whether every segment lies within `COORD_LIMIT` of the origin.
pub open spec fn on_lattice(segs: Seq<Segment>) -> bool {
    forall|i: int| 0 <= i < segs.len() ==> (#[trigger] segs[i]).within(COORD_LIMIT as int)
}

proof fn lemma_push_on_lattice(segs: Seq<Segment>, seg: Segment)
    requires
        on_lattice(segs),
        seg.within(COORD_LIMIT as int),
    ensures
        on_lattice(segs.push(seg)),
{
    assert forall|i: int| 0 <= i < segs.push(seg).len() implies (#[trigger] segs.push(seg)[i]).within(
        COORD_LIMIT as int,
    ) by {
        if i < segs.len() {
            assert(segs.push(seg)[i] == segs[i]);
        }
    }
}

proof fn lemma_run_extended(run: Seq<Segment>, seg: Segment, from: Point)
    requires
        runs_from_to(run, from, seg.start()),
    ensures
        runs_from_to(run.push(seg), from, seg.end()),
{
    let longer = run.push(seg);
    assert forall|i: int| 0 < i < longer.len() implies #[trigger] joins(longer, i) by {
        if i < run.len() {
            assert(joins(run, i));
            assert(longer[i - 1] == run[i - 1] && longer[i] == run[i]);
        } else {
            assert(longer[i - 1] == run.last());
        }
    }
    if run.len() > 0 {
        assert(longer[0] == run[0]);
    }
}

/// A pen. It keeps the segments drawn, the start of the current contour
/// and the current point, and it remembers whether a contour was ever
/// left open.
pub struct PathPen {
    shift_x: i32,
    shift_y: i32,
    path: Vec<Segment>,
    start: Option<Point>,
    last: Option<Point>,
    open_from: usize,
    tidy: bool,
}

impl PathPen {
    /// The segments drawn so far.
    pub closed spec fn segments(self) -> Seq<Segment> {
        self.path@
    }

    /// Where the current contour began, once a contour was begun.
    pub closed spec fn contour_start(self) -> Option<Point> {
        self.start
    }

    /// Where the pen stands, once a contour was begun.
    pub closed spec fn current(self) -> Option<Point> {
        self.last
    }

    /// Whether every contour before the current one was closed when the
    /// next was begun.
    pub closed spec fn tidy(self) -> bool {
        self.tidy
    }

    /// How many segments belong to contours before the current one.
    pub closed spec fn finished(self) -> int {
        self.open_from as int
    }

    /// The shift along the first axis.
    pub closed spec fn shift_x(self) -> int {
        self.shift_x as int
    }

    /// The shift along the second axis.
    pub closed spec fn shift_y(self) -> int {
        self.shift_y as int
    }

    /// Where the pen puts the point `(x, y)`: flipped, then shifted.
    pub open spec fn placed(self, x: int, y: int) -> (int, int) {
        (x + self.shift_x(), self.shift_y() - y)
    }

    /// Whether the pen can put `(x, y)` on the lattice.
    pub open spec fn can_place(self, x: int, y: int) -> bool {
        -COORD_LIMIT <= self.placed(x, y).0 <= COORD_LIMIT && -COORD_LIMIT <= self.placed(x, y).1
            <= COORD_LIMIT
    }

    /// The lattice point of `(x, y)`.
    pub open spec fn point(self, x: int, y: int) -> Point {
        Point { x: self.placed(x, y).0 as i32, y: self.placed(x, y).1 as i32 }
    }

    /// What holds of every pen that `new` made and these methods moved:
    /// what it drew lies on the lattice, and it has a current point
    /// exactly when a contour was begun.
    pub open spec fn well_formed(self) -> bool {
        &&& on_lattice(self.segments())
        &&& 0 <= self.finished() <= self.segments().len()
        &&& self.current() is None ==> self.finished() == self.segments().len()
        &&& self.tidy() ==> contours_closed(self.segments().take(self.finished()))
        &&& self.current() matches Some(at) ==> (self.contour_start() matches Some(from)
            ==> runs_from_to(self.segments().skip(self.finished()), from, at))
        &&& self.contour_start() is Some <==> self.current() is Some
        &&& self.contour_start() matches Some(p) ==> p.within(COORD_LIMIT as int)
        &&& self.current() matches Some(p) ==> p.within(COORD_LIMIT as int)
        &&& -2 * COORD_LIMIT <= self.shift_x() <= 2 * COORD_LIMIT
        &&& -2 * COORD_LIMIT <= self.shift_y() <= 2 * COORD_LIMIT
    }

    /// A pen that has drawn nothing and shifts nothing.
    pub fn new() -> (pen: PathPen)
        ensures
            pen.segments().len() == 0,
            pen.current() is None,
            pen.contour_start() is None,
            pen.shift_x() == 0,
            pen.shift_y() == 0,
            pen.tidy(),
            pen.well_formed(),
    {
        let pen = PathPen {
            shift_x: 0,
            shift_y: 0,
            path: Vec::new(),
            start: None,
            last: None,
            open_from: 0,
            tidy: true,
        };
        assert(pen.path@.take(0) =~= Seq::<Segment>::empty());
        pen
    }

    /// Tests whether every contour before the current one was closed.
    pub fn is_tidy(&self) -> (b: bool)
        ensures
            b == self.tidy(),
    {
        self.tidy
    }

    /// Tests whether the pen can put `(x, y)` on the lattice.
    pub fn fits(&self, x: i32, y: i32) -> (ok: bool)
        requires
            self.well_formed(),
        ensures
            ok == self.can_place(x as int, y as int),
    {
        let px: i64 = x as i64 + self.shift_x as i64;
        let py: i64 = self.shift_y as i64 - y as i64;
        -(COORD_LIMIT as i64) <= px && px <= COORD_LIMIT as i64 && -(COORD_LIMIT as i64) <= py && py
            <= COORD_LIMIT as i64
    }

    /// Tests whether a contour was begun.
    pub fn has_current(&self) -> (b: bool)
        ensures
            b == self.current() is Some,
    {
        self.last.is_some()
    }

    fn place(&self, x: i32, y: i32) -> (p: Point)
        requires
            self.well_formed(),
            self.can_place(x as int, y as int),
        ensures
            p == self.point(x as int, y as int),
            p.within(COORD_LIMIT as int),
    {
        Point {
            x: (x as i64 + self.shift_x as i64) as i32,
            y: (self.shift_y as i64 - y as i64) as i32,
        }
    }

    /// Shifts all that is drawn from now on by `(dx, dy)` more.
    pub fn advance(&mut self, dx: i32, dy: i32)
        requires
            old(self).well_formed(),
            -2 * COORD_LIMIT <= old(self).shift_x() + dx <= 2 * COORD_LIMIT,
            -2 * COORD_LIMIT <= old(self).shift_y() + dy <= 2 * COORD_LIMIT,
        ensures
            final(self).well_formed(),
            final(self).shift_x() == old(self).shift_x() + dx,
            final(self).shift_y() == old(self).shift_y() + dy,
            final(self).segments() == old(self).segments(),
            final(self).current() == old(self).current(),
            final(self).contour_start() == old(self).contour_start(),
            final(self).tidy() == old(self).tidy(),
    {
        self.shift_x = self.shift_x + dx;
        self.shift_y = self.shift_y + dy;
    }

    /// Begins a contour at `(x, y)`.
    pub fn move_to(&mut self, x: i32, y: i32)
        requires
            old(self).well_formed(),
            old(self).can_place(x as int, y as int),
        ensures
            final(self).well_formed(),
            final(self).segments() == old(self).segments(),
            final(self).contour_start() == Some(old(self).point(x as int, y as int)),
            final(self).current() == Some(old(self).point(x as int, y as int)),
            final(self).shift_x() == old(self).shift_x(),
            final(self).shift_y() == old(self).shift_y(),
            final(self).tidy() == (old(self).tidy() && old(self).current() == old(
                self,
            ).contour_start()),
    {
        let p = self.place(x, y);
        let returned = match (self.last, self.start) {
            (Some(at), Some(from)) => at.x == from.x && at.y == from.y,
            _ => true,
        };
        proof {
            let run = self.path@.skip(self.open_from as int);
            if self.tidy && returned && run.len() > 0 {
                lemma_closed_run_appended(
                    self.path@.take(self.open_from as int),
                    run,
                    self.start->Some_0,
                );
                assert(self.path@.take(self.open_from as int) + run =~= self.path@);
            }
            assert(self.path@.take(self.path@.len() as int) =~= self.path@);
            assert(self.path@.skip(self.path@.len() as int) =~= Seq::<Segment>::empty());
        }
        self.tidy = self.tidy && returned;
        self.open_from = self.path.len();
        self.start = Some(p);
        self.last = Some(p);
    }

    /// Draws a line to `(x, y)`.
    pub fn line_to(&mut self, x: i32, y: i32)
        requires
            old(self).well_formed(),
            old(self).current() is Some,
            old(self).can_place(x as int, y as int),
        ensures
            final(self).well_formed(),
            final(self).segments() == old(self).segments().push(
                Segment::Line(old(self).current()->Some_0, old(self).point(x as int, y as int)),
            ),
            final(self).current() == Some(old(self).point(x as int, y as int)),
            final(self).contour_start() == old(self).contour_start(),
            final(self).shift_x() == old(self).shift_x(),
            final(self).shift_y() == old(self).shift_y(),
            final(self).tidy() == old(self).tidy(),
    {
        let p = self.place(x, y);
        match self.last {
            Some(from) => {
                proof {
                    lemma_push_on_lattice(self.path@, Segment::Line(from, p));
                    lemma_run_extended(
                        self.path@.skip(self.open_from as int),
                        Segment::Line(from, p),
                        self.start->Some_0,
                    );
                    assert(self.path@.push(Segment::Line(from, p)).skip(self.open_from as int)
                        =~= self.path@.skip(self.open_from as int).push(Segment::Line(from, p)));
                    assert(self.path@.push(Segment::Line(from, p)).take(self.open_from as int)
                        =~= self.path@.take(self.open_from as int));
                }
                self.path.push(Segment::Line(from, p));
                self.last = Some(p);
            },
            None => {},
        }
    }

    /// Draws a quadratic to `(x, y)` with the control point `(cx0, cy0)`.
    pub fn quad_to(&mut self, cx0: i32, cy0: i32, x: i32, y: i32)
        requires
            old(self).well_formed(),
            old(self).current() is Some,
            old(self).can_place(cx0 as int, cy0 as int),
            old(self).can_place(x as int, y as int),
        ensures
            final(self).well_formed(),
            final(self).segments() == old(self).segments().push(
                Segment::Quadratic(
                    old(self).current()->Some_0,
                    old(self).point(cx0 as int, cy0 as int),
                    old(self).point(x as int, y as int),
                ),
            ),
            final(self).current() == Some(old(self).point(x as int, y as int)),
            final(self).contour_start() == old(self).contour_start(),
            final(self).shift_x() == old(self).shift_x(),
            final(self).shift_y() == old(self).shift_y(),
            final(self).tidy() == old(self).tidy(),
    {
        let c = self.place(cx0, cy0);
        let p = self.place(x, y);
        match self.last {
            Some(from) => {
                proof {
                    lemma_push_on_lattice(self.path@, Segment::Quadratic(from, c, p));
                    lemma_run_extended(
                        self.path@.skip(self.open_from as int),
                        Segment::Quadratic(from, c, p),
                        self.start->Some_0,
                    );
                    assert(self.path@.push(Segment::Quadratic(from, c, p)).skip(self.open_from as int)
                        =~= self.path@.skip(self.open_from as int).push(Segment::Quadratic(from, c, p)));
                    assert(self.path@.push(Segment::Quadratic(from, c, p)).take(self.open_from as int)
                        =~= self.path@.take(self.open_from as int));
                }
                self.path.push(Segment::Quadratic(from, c, p));
                self.last = Some(p);
            },
            None => {},
        }
    }

    /// Draws a cubic to `(x, y)` with the control points `(cx0, cy0)` and
    /// `(cx1, cy1)`.
    pub fn curve_to(&mut self, cx0: i32, cy0: i32, cx1: i32, cy1: i32, x: i32, y: i32)
        requires
            old(self).well_formed(),
            old(self).current() is Some,
            old(self).can_place(cx0 as int, cy0 as int),
            old(self).can_place(cx1 as int, cy1 as int),
            old(self).can_place(x as int, y as int),
        ensures
            final(self).well_formed(),
            final(self).segments() == old(self).segments().push(
                Segment::Cubic(
                    old(self).current()->Some_0,
                    old(self).point(cx0 as int, cy0 as int),
                    old(self).point(cx1 as int, cy1 as int),
                    old(self).point(x as int, y as int),
                ),
            ),
            final(self).current() == Some(old(self).point(x as int, y as int)),
            final(self).contour_start() == old(self).contour_start(),
            final(self).shift_x() == old(self).shift_x(),
            final(self).shift_y() == old(self).shift_y(),
            final(self).tidy() == old(self).tidy(),
    {
        let c0 = self.place(cx0, cy0);
        let c1 = self.place(cx1, cy1);
        let p = self.place(x, y);
        match self.last {
            Some(from) => {
                proof {
                    lemma_push_on_lattice(self.path@, Segment::Cubic(from, c0, c1, p));
                    lemma_run_extended(
                        self.path@.skip(self.open_from as int),
                        Segment::Cubic(from, c0, c1, p),
                        self.start->Some_0,
                    );
                    assert(self.path@.push(Segment::Cubic(from, c0, c1, p)).skip(self.open_from as int)
                        =~= self.path@.skip(self.open_from as int).push(Segment::Cubic(from, c0, c1, p)));
                    assert(self.path@.push(Segment::Cubic(from, c0, c1, p)).take(self.open_from as int)
                        =~= self.path@.take(self.open_from as int));
                }
                self.path.push(Segment::Cubic(from, c0, c1, p));
                self.last = Some(p);
            },
            None => {},
        }
    }

    /// Closes the contour: draws a line back to its start, unless the pen
    /// stands there already.
    pub fn close(&mut self)
        requires
            old(self).well_formed(),
            old(self).current() is Some,
        ensures
            final(self).well_formed(),
            final(self).segments() == (if old(self).current() == old(self).contour_start() {
                old(self).segments()
            } else {
                old(self).segments().push(
                    Segment::Line(old(self).current()->Some_0, old(self).contour_start()->Some_0),
                )
            }),
            final(self).current() == old(self).contour_start(),
            final(self).contour_start() == old(self).contour_start(),
            final(self).shift_x() == old(self).shift_x(),
            final(self).shift_y() == old(self).shift_y(),
            final(self).tidy() == old(self).tidy(),
    {
        match (self.last, self.start) {
            (Some(from), Some(to)) => {
                if from.x != to.x || from.y != to.y {
                    proof {
                        lemma_push_on_lattice(self.path@, Segment::Line(from, to));
                        lemma_run_extended(
                            self.path@.skip(self.open_from as int),
                            Segment::Line(from, to),
                            to,
                        );
                        assert(self.path@.push(Segment::Line(from, to)).skip(self.open_from as int)
                            =~= self.path@.skip(self.open_from as int).push(
                            Segment::Line(from, to),
                        ));
                        assert(self.path@.push(Segment::Line(from, to)).take(self.open_from as int)
                            =~= self.path@.take(self.open_from as int));
                    }
                    self.path.push(Segment::Line(from, to));
                }
                self.last = Some(to);
            },
            _ => {},
        }
    }

    /// Hands over the segments drawn. Where no contour was left open, the
    /// contours are closed.
    pub fn finish(self) -> (segments: Vec<Segment>)
        requires
            self.well_formed(),
        ensures
            segments@ == self.segments(),
            on_lattice(segments@),
            self.tidy() && self.current() == self.contour_start() ==> contours_closed(segments@),
    {
        proof {
            let run = self.path@.skip(self.open_from as int);
            if self.tidy && self.last == self.start {
                if run.len() > 0 {
                    lemma_closed_run_appended(
                        self.path@.take(self.open_from as int),
                        run,
                        self.start->Some_0,
                    );
                    assert(self.path@.take(self.open_from as int) + run =~= self.path@);
                } else {
                    assert(self.path@.take(self.open_from as int) =~= self.path@);
                }
            }
        }
        self.path
    }
}

impl Default for PathPen {
    fn default() -> (pen: PathPen)
        ensures
            pen.segments().len() == 0,
            pen.current() is None,
            pen.shift_x() == 0,
            pen.shift_y() == 0,
            pen.tidy(),
            pen.well_formed(),
    {
        PathPen::new()
    }
}

} // verus!
