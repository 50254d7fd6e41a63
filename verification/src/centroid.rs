//! The centre-of-mass estimator: the mean of the inked samples of a grid
//! laid over the box of a shape.

use vstd::prelude::*;
use crate::error::MeasureError;
use crate::fixed::{floor_div, div_floor_wide};
use crate::geometry::{Point, Segment};
use crate::classifier::{Shape, filled};
use crate::bounds::{Bounds, BOX_LIMIT};

verus! {

/// About how many samples the grid takes along each side of the box.
pub const GRID_STEPS: i32 = 100;

/// The fewest inked samples from which a centre of mass is estimated.
pub const MIN_SAMPLES: u64 = 3;

/// What a sweep over grid samples has counted.
pub struct Tally {
    /// How many samples were inked.
    pub filled: int,
    /// How many samples were taken.
    pub sampled: int,
    /// The sum of the `x` of the inked samples.
    pub sum_x: int,
    /// The sum of the `y` of the inked samples.
    pub sum_y: int,
}

impl Tally {
    /// The tally with the given counts and sums.
    pub open spec fn of(filled: int, sampled: int, sum_x: int, sum_y: int) -> Tally {
        Tally { filled, sampled, sum_x, sum_y }
    }

    /// The tally of no samples.
    pub open spec fn zero() -> Tally {
        Tally { filled: 0, sampled: 0, sum_x: 0, sum_y: 0 }
    }

    /// The tally of the samples of both.
    pub open spec fn plus(self, other: Tally) -> Tally {
        Tally {
            filled: self.filled + other.filled,
            sampled: self.sampled + other.sampled,
            sum_x: self.sum_x + other.sum_x,
            sum_y: self.sum_y + other.sum_y,
        }
    }

    /// The tally of the one sample at `(x, y)`.
    pub open spec fn sample(segs: Seq<Segment>, x: int, y: int) -> Tally {
        if filled(segs, Point { x: x as i32, y: y as i32 }) {
            Tally { filled: 1, sampled: 1, sum_x: x, sum_y: y }
        } else {
            Tally { filled: 0, sampled: 1, sum_x: 0, sum_y: 0 }
        }
    }

    /// Whether more than three quarters of the samples are inked, which
    /// suggests a shape whose fill is inverted.
    pub open spec fn mostly_filled(self) -> bool {
        4 * self.filled > 3 * self.sampled
    }

    /// The mean position of the inked samples, rounded down.
    pub open spec fn mean(self) -> Point {
        Point {
            x: floor_div(self.sum_x, self.filled) as i32,
            y: floor_div(self.sum_y, self.filled) as i32,
        }
    }
}

/// The distance between neighbouring samples along a side of length
/// `side`: a hundredth of it, rounded down, and at least one.
pub open spec fn grid_step(side: int) -> int {
    if side / (GRID_STEPS as int) < 1 {
        1
    } else {
        side / (GRID_STEPS as int)
    }
}

/// The tally of the samples of one column, from `y` up to but not
/// including `y_end`.
pub open spec fn column_tally(segs: Seq<Segment>, x: int, y: int, y_end: int, step: int) -> Tally
    decreases (if y < y_end { y_end - y } else { 0 }),
{
    if y >= y_end || step <= 0 {
        Tally::zero()
    } else {
        Tally::sample(segs, x, y).plus(column_tally(segs, x, y + step, y_end, step))
    }
}

/// The tally of the samples of the columns from `x` up to but not
/// including `x_end`.
pub open spec fn grid_tally(
    segs: Seq<Segment>,
    x: int,
    x_end: int,
    step_x: int,
    y: int,
    y_end: int,
    step_y: int,
) -> Tally
    decreases (if x < x_end { x_end - x } else { 0 }),
{
    if x >= x_end || step_x <= 0 {
        Tally::zero()
    } else {
        column_tally(segs, x, y, y_end, step_y).plus(
            grid_tally(segs, x + step_x, x_end, step_x, y, y_end, step_y),
        )
    }
}

/// The tally of the grid over `frame`.
pub open spec fn frame_tally(segs: Seq<Segment>, frame: Bounds) -> Tally {
    grid_tally(
        segs,
        frame.min_x as int,
        frame.max_x as int,
        grid_step(frame.width()),
        frame.min_y as int,
        frame.max_y as int,
        grid_step(frame.height()),
    )
}

/// An estimated centre of mass.
#[derive(Clone, Copy, Debug, PartialEq, Eq, Structural)]
pub struct MassCentre {
    /// The mean position of the inked samples.
    pub at: Point,
    /// How many samples were inked.
    pub filled: u64,
    /// How many samples were taken.
    pub sampled: u64,
}

impl MassCentre {
    /// Whether more than three quarters of the samples were inked, which
    /// suggests a shape whose fill is inverted.
    pub open spec fn mostly_filled(self) -> bool {
        4 * self.filled > 3 * self.sampled
    }

    /// Reports whether the fill looks inverted.
    pub fn inverted_fill_suspected(&self) -> (b: bool)
        ensures
            b == self.mostly_filled(),
    {
        4 * (self.filled as u128) > 3 * (self.sampled as u128)
    }
}

/// The centre of mass of `segs` over the grid of `frame`: none where fewer
/// than `MIN_SAMPLES` samples are inked, and none where the mean position
/// is itself inked.
pub open spec fn centre_of(segs: Seq<Segment>, frame: Bounds) -> Result<MassCentre, MeasureError> {
    let tally = frame_tally(segs, frame);
    if tally.filled < MIN_SAMPLES {
        Err(MeasureError::DegenerateShape)
    } else if filled(segs, tally.mean()) {
        Err(MeasureError::UnsupportedShape)
    } else {
        Ok(MassCentre { at: tally.mean(), filled: tally.filled as u64, sampled: tally.sampled as u64 })
    }
}

/// A column counts no more samples than it is steps long, and no more
/// inked ones than samples.
pub proof fn lemma_column_counts(segs: Seq<Segment>, x: int, y: int, y_end: int, step: int)
    ensures
        0 <= column_tally(segs, x, y, y_end, step).filled <= column_tally(
            segs,
            x,
            y,
            y_end,
            step,
        ).sampled,
        column_tally(segs, x, y, y_end, step).sampled <= (if y < y_end { y_end - y } else { 0 }),
    decreases (if y < y_end { y_end - y } else { 0 }),
{
    if !(y >= y_end || step <= 0) {
        lemma_column_counts(segs, x, y + step, y_end, step);
    }
}

/// A grid counts no more samples than its sides multiplied, and no more
/// inked ones than samples.
pub proof fn lemma_grid_counts(
    segs: Seq<Segment>,
    x: int,
    x_end: int,
    step_x: int,
    y: int,
    y_end: int,
    step_y: int,
    height: int,
)
    requires
        height >= 0,
        height >= y_end - y,
    ensures
        0 <= grid_tally(segs, x, x_end, step_x, y, y_end, step_y).filled <= grid_tally(
            segs,
            x,
            x_end,
            step_x,
            y,
            y_end,
            step_y,
        ).sampled,
        grid_tally(segs, x, x_end, step_x, y, y_end, step_y).sampled <= (if x < x_end {
            x_end - x
        } else {
            0
        }) * height,
    decreases (if x < x_end { x_end - x } else { 0 }),
{
    if !(x >= x_end || step_x <= 0) {
        lemma_column_counts(segs, x, y, y_end, step_y);
        lemma_grid_counts(segs, x + step_x, x_end, step_x, y, y_end, step_y, height);
        let rest = if x + step_x < x_end { x_end - (x + step_x) } else { 0 };
        assert(height + rest * height <= (x_end - x) * height) by (nonlinear_arith)
            requires
                height >= 0,
                0 <= rest <= x_end - x - 1,
        ;
    } else {
        assert(0 * height == 0);
        assert((if x < x_end { x_end - x } else { 0 }) * height >= 0) by (nonlinear_arith)
            requires
                height >= 0,
        ;
    }
}

/// Where no point is inked, no sample of a column is counted as inked.
pub proof fn lemma_blank_column(segs: Seq<Segment>, x: int, y: int, y_end: int, step: int)
    requires
        forall|p: Point| !filled(segs, p),
    ensures
        column_tally(segs, x, y, y_end, step).filled == 0,
    decreases (if y < y_end { y_end - y } else { 0 }),
{
    if !(y >= y_end || step <= 0) {
        lemma_blank_column(segs, x, y + step, y_end, step);
    }
}

/// Where no point is inked, no sample of a grid is counted as inked.
pub proof fn lemma_blank_grid(
    segs: Seq<Segment>,
    x: int,
    x_end: int,
    step_x: int,
    y: int,
    y_end: int,
    step_y: int,
)
    requires
        forall|p: Point| !filled(segs, p),
    ensures
        grid_tally(segs, x, x_end, step_x, y, y_end, step_y).filled == 0,
    decreases (if x < x_end { x_end - x } else { 0 }),
{
    if !(x >= x_end || step_x <= 0) {
        lemma_blank_column(segs, x, y, y_end, step_y);
        lemma_blank_grid(segs, x + step_x, x_end, step_x, y, y_end, step_y);
    }
}

/// A shape without ink has no centre of mass: it is degenerate, whatever
/// the frame.
pub proof fn lemma_blank_shape_is_degenerate(segs: Seq<Segment>, frame: Bounds)
    requires
        forall|p: Point| !filled(segs, p),
    ensures
        centre_of(segs, frame) == Err::<MassCentre, MeasureError>(MeasureError::DegenerateShape),
{
    lemma_blank_grid(
        segs,
        frame.min_x as int,
        frame.max_x as int,
        grid_step(frame.width()),
        frame.min_y as int,
        frame.max_y as int,
        grid_step(frame.height()),
    );
}

/// A centre of mass is estimated from at least `MIN_SAMPLES` inked
/// samples, and from fewer the shape is degenerate.
pub proof fn lemma_degenerate_iff_few_samples(segs: Seq<Segment>, frame: Bounds)
    ensures
        frame_tally(segs, frame).filled < MIN_SAMPLES <==> centre_of(segs, frame) == Err::<
            MassCentre,
            MeasureError,
        >(MeasureError::DegenerateShape),
{
}

/// The distance between samples along a side.
fn step_of(side: i32) -> (s: i32)
    requires
        0 <= side,
    ensures
        s == grid_step(side as int),
        1 <= s,
        s <= side || s == 1,
{
    let s: i32 = side / GRID_STEPS;
    if s < 1 {
        1
    } else {
        s
    }
}

/// What a sweep over grid samples has counted.
#[derive(Clone, Copy, Debug, PartialEq, Eq, Structural)]
pub struct Samples {
    /// How many samples were inked.
    pub filled: u64,
    /// How many samples were taken.
    pub sampled: u64,
    /// The sum of the `x` of the inked samples.
    pub sum_x: i128,
    /// The sum of the `y` of the inked samples.
    pub sum_y: i128,
}

impl View for Samples {
    type V = Tally;

    open spec fn view(&self) -> Tally {
        Tally::of(self.filled as int, self.sampled as int, self.sum_x as int, self.sum_y as int)
    }
}

impl Samples {
    /// Reports whether the fill looks inverted: whether more than three
    /// quarters of the samples are inked.
    pub fn inverted_fill_suspected(&self) -> (b: bool)
        ensures
            b == self@.mostly_filled(),
    {
        4 * (self.filled as u128) > 3 * (self.sampled as u128)
    }
}

/// Samples the grid over `frame`.
pub fn count_samples(shape: &Shape, frame: &Bounds) -> (found: Samples)
    requires
        frame.within(BOX_LIMIT as int),
    ensures
        found@ == frame_tally(shape@, *frame),
        frame.min_x * found.filled <= found.sum_x <= frame.max_x * found.filled,
        frame.min_y * found.filled <= found.sum_y <= frame.max_y * found.filled,
        -0x20_0000 * found.filled <= found.sum_x <= 0x20_0000 * found.filled,
        -0x20_0000 * found.filled <= found.sum_y <= 0x20_0000 * found.filled,
{
    let step_x: i32 = step_of(frame.max_x - frame.min_x);
    let step_y: i32 = step_of(frame.max_y - frame.min_y);
    let mut filled_n: u64 = 0;
    let mut sampled_n: u64 = 0;
    let mut sum_x: i128 = 0;
    let mut sum_y: i128 = 0;
    let mut x: i32 = frame.min_x;
    let ghost total = frame_tally(shape@, *frame);
    while x < frame.max_x
        invariant
            frame.within(BOX_LIMIT as int),
            1 <= step_x <= 2 * BOX_LIMIT,
            1 <= step_y <= 2 * BOX_LIMIT,
            frame.min_x <= x <= frame.max_x + step_x,
            total == frame_tally(shape@, *frame),
            step_x == grid_step(frame.width()),
            step_y == grid_step(frame.height()),
            Tally::of(filled_n as int, sampled_n as int, sum_x as int, sum_y as int).plus(
                grid_tally(
                    shape@,
                    x as int,
                    frame.max_x as int,
                    step_x as int,
                    frame.min_y as int,
                    frame.max_y as int,
                    step_y as int,
                ),
            ) == total,
            filled_n <= sampled_n <= (x - frame.min_x) * 0x80_0000,
            frame.min_x * filled_n <= sum_x <= frame.max_x * filled_n,
            frame.min_y * filled_n <= sum_y <= frame.max_y * filled_n,
            -0x20_0000 * filled_n <= sum_x <= 0x20_0000 * filled_n,
            -0x20_0000 * filled_n <= sum_y <= 0x20_0000 * filled_n,
        decreases frame.max_x + step_x - x,
    {
        let mut y: i32 = frame.min_y;
        let ghost before = Tally::of(filled_n as int, sampled_n as int, sum_x as int, sum_y as int);
        let ghost column = column_tally(
            shape@,
            x as int,
            frame.min_y as int,
            frame.max_y as int,
            step_y as int,
        );
        let ghost sampled_before = sampled_n;
        while y < frame.max_y
            invariant
                frame.within(BOX_LIMIT as int),
                1 <= step_y <= 2 * BOX_LIMIT,
                frame.min_x <= x < frame.max_x,
                frame.min_y <= y <= frame.max_y + step_y,
                column == column_tally(
                    shape@,
                    x as int,
                    frame.min_y as int,
                    frame.max_y as int,
                    step_y as int,
                ),
                Tally::of(filled_n as int, sampled_n as int, sum_x as int, sum_y as int).plus(
                    column_tally(shape@, x as int, y as int, frame.max_y as int, step_y as int),
                ) == before.plus(column),
                sampled_before <= (x - frame.min_x) * 0x80_0000,
                sampled_n - sampled_before <= y - frame.min_y,
                sampled_n - sampled_before <= frame.max_y - frame.min_y,
                filled_n <= sampled_n,
                frame.min_x * filled_n <= sum_x <= frame.max_x * filled_n,
                frame.min_y * filled_n <= sum_y <= frame.max_y * filled_n,
                -0x20_0000 * filled_n <= sum_x <= 0x20_0000 * filled_n,
                -0x20_0000 * filled_n <= sum_y <= 0x20_0000 * filled_n,
            decreases frame.max_y + step_y - y,
        {
            if shape.is_filled(Point { x, y }) {
                proof {
                    assert(frame.min_x * (filled_n + 1) == frame.min_x * filled_n + frame.min_x)
                        by (nonlinear_arith);
                    assert(frame.max_x * (filled_n + 1) == frame.max_x * filled_n + frame.max_x)
                        by (nonlinear_arith);
                    assert(frame.min_y * (filled_n + 1) == frame.min_y * filled_n + frame.min_y)
                        by (nonlinear_arith);
                    assert(frame.max_y * (filled_n + 1) == frame.max_y * filled_n + frame.max_y)
                        by (nonlinear_arith);
                }
                filled_n += 1;
                sum_x += x as i128;
                sum_y += y as i128;
            }
            sampled_n += 1;
            y += step_y;
        }
        x += step_x;
    }
    proof {
        assert(Tally::of(filled_n as int, sampled_n as int, sum_x as int, sum_y as int) == total);
    }
    Samples { filled: filled_n, sampled: sampled_n, sum_x, sum_y }
}

/// Estimates the centre of mass of `shape` from the grid over `frame`.
pub fn centre_of_mass(shape: &Shape, frame: &Bounds) -> (r: Result<MassCentre, MeasureError>)
    requires
        frame.within(BOX_LIMIT as int),
    ensures
        r == centre_of(shape@, *frame),
        r matches Ok(m) ==> frame.holds(m.at) && m.filled >= MIN_SAMPLES,
{
    let found = count_samples(shape, frame);
    let filled_n: u64 = found.filled;
    let sampled_n: u64 = found.sampled;
    let sum_x: i128 = found.sum_x;
    let sum_y: i128 = found.sum_y;
    if filled_n < MIN_SAMPLES {
        return Err(MeasureError::DegenerateShape);
    }
    proof {
        lemma_mean_between(sum_x as int, filled_n as int, frame.min_x as int, frame.max_x as int);
        lemma_mean_between(sum_y as int, filled_n as int, frame.min_y as int, frame.max_y as int);
    }
    let at = Point {
        x: div_floor_wide(sum_x, filled_n as i128) as i32,
        y: div_floor_wide(sum_y, filled_n as i128) as i32,
    };
    if shape.is_filled(at) {
        return Err(MeasureError::UnsupportedShape);
    }
    Ok(MassCentre { at, filled: filled_n, sampled: sampled_n })
}

/// A mean of values between two bounds lies between them.
proof fn lemma_mean_between(sum: int, n: int, lo: int, hi: int)
    requires
        n > 0,
        lo * n <= sum <= hi * n,
    ensures
        lo <= floor_div(sum, n) <= hi,
{
    vstd::arithmetic::div_mod::lemma_div_is_ordered(lo * n, sum, n);
    vstd::arithmetic::div_mod::lemma_div_is_ordered(sum, hi * n, n);
    vstd::arithmetic::div_mod::lemma_div_multiples_vanish(lo, n);
    vstd::arithmetic::div_mod::lemma_div_multiples_vanish(hi, n);
    assert(lo * n == n * lo) by (nonlinear_arith);
    assert(hi * n == n * hi) by (nonlinear_arith);
}

} // verus!
