//! The segment-perpendicular ray caster: probes across the outline from
//! points spaced along every segment, keeping every rib they find.

use vstd::prelude::*;
use crate::fixed::UNIT;
use crate::geometry::{Line, Segment, COORD_LIMIT};
use crate::classifier::Shape;
use crate::extract::{Rib, inked_ribs, inked_segments};
use crate::candidates::ribs_in_range;
use crate::probe::{REACH_LIMIT, probe_through, probe_through_of};
use crate::radial::Cast;

verus! {

/// How many probes leave each segment.
pub const SAMPLES_PER_SEGMENT: u32 = 10;

/// The parameter of the `k`-th probe of a segment: `k` tenths.
pub open spec fn sample_param(k: int) -> int {
    k * (UNIT as int / SAMPLES_PER_SEGMENT as int)
}

/// The `k`-th probe of `seg`: through its point at `k` tenths, along the
/// normal there.
pub open spec fn normal_probe(seg: Segment, reach: int, k: int) -> Line {
    probe_through(seg.point_on(sample_param(k)), seg.direction(sample_param(k)).turned(), reach)
}

/// What the first `n` probes of `seg` gather.
pub open spec fn segment_sweep(segs: Seq<Segment>, seg: Segment, reach: int, n: int) -> Cast
    decreases n,
{
    if n <= 0 {
        Cast { rays: Seq::<Line>::empty(), ribs: Seq::<Rib>::empty() }
    } else {
        let before = segment_sweep(segs, seg, reach, n - 1);
        let probe = normal_probe(seg, reach, n - 1);
        Cast { rays: before.rays.push(probe), ribs: before.ribs + inked_ribs(segs, probe) }
    }
}

/// What the probes of the first `count` segments gather.
pub open spec fn perpendicular_sweep(segs: Seq<Segment>, reach: int, count: int) -> Cast
    decreases count,
{
    if count <= 0 {
        Cast { rays: Seq::<Line>::empty(), ribs: Seq::<Rib>::empty() }
    } else {
        let before = perpendicular_sweep(segs, reach, count - 1);
        let here = segment_sweep(segs, segs[count - 1], reach, SAMPLES_PER_SEGMENT as int);
        Cast { rays: before.rays + here.rays, ribs: before.ribs + here.ribs }
    }
}

/// The first `n` probes of a segment are `n` rays.
pub proof fn lemma_segment_sweep_counts(segs: Seq<Segment>, seg: Segment, reach: int, n: int)
    requires
        0 <= n,
    ensures
        segment_sweep(segs, seg, reach, n).rays.len() == n,
    decreases n,
{
    if n > 0 {
        lemma_segment_sweep_counts(segs, seg, reach, n - 1);
    }
}

/// Every segment sends `SAMPLES_PER_SEGMENT` probes.
pub proof fn lemma_perpendicular_sweep_counts(segs: Seq<Segment>, reach: int, count: int)
    requires
        0 <= count,
    ensures
        perpendicular_sweep(segs, reach, count).rays.len() == SAMPLES_PER_SEGMENT * count,
    decreases count,
{
    if count > 0 {
        lemma_perpendicular_sweep_counts(segs, reach, count - 1);
        lemma_segment_sweep_counts(segs, segs[count - 1], reach, SAMPLES_PER_SEGMENT as int);
    }
}

/// Casts the probes of the segment of index `index`, adding what they
/// find to `rays` and `ribs`.
pub fn cast_from_segment(
    shape: &Shape,
    index: usize,
    reach: i32,
    rays: &mut Vec<Line>,
    ribs: &mut Vec<Rib>,
)
    requires
        index < shape@.len(),
        0 <= reach <= REACH_LIMIT,
        ribs_in_range(old(ribs)@),
    ensures
        final(rays)@ == old(rays)@ + segment_sweep(
            shape@,
            shape@[index as int],
            reach as int,
            SAMPLES_PER_SEGMENT as int,
        ).rays,
        final(ribs)@ == old(ribs)@ + segment_sweep(
            shape@,
            shape@[index as int],
            reach as int,
            SAMPLES_PER_SEGMENT as int,
        ).ribs,
        ribs_in_range(final(ribs)@),
{
    let seg = shape.segment(index);
    let mut k: u32 = 0;
    while k < SAMPLES_PER_SEGMENT
        invariant
            k <= SAMPLES_PER_SEGMENT,
            0 <= reach <= REACH_LIMIT,
            index < shape@.len(),
            seg == shape@[index as int],
            seg.within(COORD_LIMIT as int),
            !(seg is Cubic),
            rays@ == old(rays)@ + segment_sweep(shape@, seg, reach as int, k as int).rays,
            ribs@ == old(ribs)@ + segment_sweep(shape@, seg, reach as int, k as int).ribs,
            ribs_in_range(ribs@),
        decreases SAMPLES_PER_SEGMENT - k,
    {
        let tenth: i64 = UNIT / SAMPLES_PER_SEGMENT as i64;
        assert(0 <= k * tenth <= UNIT) by (nonlinear_arith)
            requires
                0 <= k < 10,
                tenth == 100_000_000,
                UNIT == 1_000_000_000,
        ;
        let t: i64 = k as i64 * tenth;
        match seg.tangent(t) {
            Ok((at, along)) => {
                let normal = along.turn_90();
                let probe = probe_through_of(&at, &normal, reach);
                assert(probe == normal_probe(seg, reach as int, k as int));
                rays.push(probe);
                let mut found = inked_segments(shape, &probe);
                ribs.append(&mut found);
            },
            Err(_) => {},
        }
        k += 1;
    }
}

/// Casts the probes of every segment.
pub fn sweep_segments(shape: &Shape, reach: i32) -> (found: (Vec<Line>, Vec<Rib>))
    requires
        0 <= reach <= REACH_LIMIT,
    ensures
        found.0@ == perpendicular_sweep(shape@, reach as int, shape@.len() as int).rays,
        found.1@ == perpendicular_sweep(shape@, reach as int, shape@.len() as int).ribs,
        ribs_in_range(found.1@),
{
    let mut rays: Vec<Line> = Vec::new();
    let mut ribs: Vec<Rib> = Vec::new();
    let n = shape.len();
    let mut i: usize = 0;
    while i < n
        invariant
            i <= n,
            n == shape@.len(),
            0 <= reach <= REACH_LIMIT,
            rays@ == perpendicular_sweep(shape@, reach as int, i as int).rays,
            ribs@ == perpendicular_sweep(shape@, reach as int, i as int).ribs,
            ribs_in_range(ribs@),
        decreases n - i,
    {
        cast_from_segment(shape, i, reach, &mut rays, &mut ribs);
        i += 1;
    }
    (rays, ribs)
}

} // verus!
