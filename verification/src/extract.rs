//! The inked-segment extractor: the maximal filled runs along a probe.

use vstd::prelude::*;
use crate::fixed::UNIT;
use crate::geometry::{Line, Segment, LINE_LIMIT};
use crate::classifier::{Shape, Crossing, filled, crossing_list, lemma_crossing_list_range};

verus! {

/// How far along the probe, to either side of a crossing, the fill is
/// sampled: a hundred-thousandth of the probe, or more on a short probe.
pub const SIDE_STEP: i64 = 10_000;

/// Crossings closer together than this, a millionth of the probe, count as
/// one.
pub const MERGE_BELOW: i64 = 1_000;

/// A stretch of a probe between two crossings, with the lattice line that
/// joins its ends.
#[derive(Clone, Copy, Debug, PartialEq, Eq, Structural)]
pub struct Rib {
    /// The line from the first end to the second.
    pub line: Line,
    /// The probe parameter of the first end.
    pub t0: i64,
    /// The probe parameter of the second end.
    pub t1: i64,
}

/// The rib of `probe` between the parameters `a` and `b`.
pub open spec fn rib_between(probe: Line, a: i64, b: i64) -> Rib {
    Rib { line: Line { start: probe.point_at(a as int), end: probe.point_at(b as int) }, t0: a, t1: b }
}

/// How far along `probe`, to either side of a crossing, the fill is
/// sampled: `SIDE_STEP`, or as much more as it takes to leave the crossing
/// by a whole lattice step.
pub open spec fn side_step(probe: Line) -> int {
    let span = probe.span();
    if span <= 0 {
        SIDE_STEP as int
    } else {
        let least = (UNIT + span - 1) / span;
        if least > SIDE_STEP {
            least
        } else {
            SIDE_STEP as int
        }
    }
}

/// Whether the probe is inked on both sides of the parameter `t`: such a
/// crossing is a graze, not a boundary.
pub open spec fn grazes(segs: Seq<Segment>, probe: Line, t: int) -> bool {
    filled(segs, probe.point_at(t - side_step(probe))) && filled(
        segs,
        probe.point_at(t + side_step(probe)),
    )
}

/// The side step of a probe lies between `SIDE_STEP` and `UNIT`, and on a
/// probe of some length it spans a lattice step or more.
pub proof fn lemma_side_step(probe: Line)
    requires
        probe.within(LINE_LIMIT as int),
    ensures
        SIDE_STEP <= side_step(probe) <= UNIT,
        probe.span() > 0 ==> side_step(probe) * probe.span() >= UNIT,
{
    let span = probe.span();
    if span > 0 {
        let least = (UNIT + span - 1) / span;
        vstd::arithmetic::div_mod::lemma_fundamental_div_mod(UNIT + span - 1, span);
        assert(least * span >= UNIT) by (nonlinear_arith)
            requires
                UNIT + span - 1 == span * least + (UNIT + span - 1) % span,
                (UNIT + span - 1) % span <= span - 1,
        ;
        assert(UNIT + span - 1 <= UNIT * span + (span - 1)) by (nonlinear_arith)
            requires
                span >= 1,
                UNIT > 0,
        ;
        vstd::arithmetic::div_mod::lemma_fundamental_div_mod_converse(
            UNIT * span + (span - 1),
            span,
            UNIT as int,
            span - 1,
        );
        vstd::arithmetic::div_mod::lemma_div_is_ordered(
            UNIT + span - 1,
            UNIT * span + (span - 1),
            span,
        );
        assert(side_step(probe) * span >= UNIT) by (nonlinear_arith)
            requires
                least * span >= UNIT,
                side_step(probe) >= least,
                span > 0,
        ;
    }
}

/// On a probe of some length the two samples beside a crossing differ
/// from the point of the crossing and from each other.
pub proof fn lemma_side_samples_apart(probe: Line, t: int)
    requires
        probe.within(LINE_LIMIT as int),
        probe.span() > 0,
        0 <= t <= UNIT,
    ensures
        probe.point_at(t - side_step(probe)) != probe.point_at(t),
        probe.point_at(t + side_step(probe)) != probe.point_at(t),
        probe.point_at(t - side_step(probe)) != probe.point_at(t + side_step(probe)),
{
    let step = side_step(probe);
    lemma_side_step(probe);
    let (ax, bx) = (probe.start.x as int, probe.end.x as int);
    let (ay, by) = (probe.start.y as int, probe.end.y as int);
    crate::geometry::lemma_lerp_bounds(ax, bx, t);
    crate::geometry::lemma_lerp_bounds(ax, bx, t - step);
    crate::geometry::lemma_lerp_bounds(ax, bx, t + step);
    crate::geometry::lemma_lerp_bounds(ay, by, t);
    crate::geometry::lemma_lerp_bounds(ay, by, t - step);
    crate::geometry::lemma_lerp_bounds(ay, by, t + step);
    let wide = if bx < ax { ax - bx } else { bx - ax };
    let tall = if by < ay { ay - by } else { by - ay };
    if wide == probe.span() {
        assert(wide * step == step * probe.span()) by (nonlinear_arith)
            requires
                wide == probe.span(),
        ;
        assert((bx - ax) * step == wide * step || (ax - bx) * step == wide * step);
        crate::geometry::lemma_lerp_steps(ax, bx, t, step);
    } else {
        assert(tall == probe.span());
        assert(tall * step == step * probe.span()) by (nonlinear_arith)
            requires
                tall == probe.span(),
        ;
        assert((by - ay) * step == tall * step || (ay - by) * step == tall * step);
        crate::geometry::lemma_lerp_steps(ay, by, t, step);
    }
}

/// The probe parameters of the crossings that are boundaries, in the
/// order of `all`.
pub open spec fn boundary_params(segs: Seq<Segment>, probe: Line, all: Seq<Crossing>) -> Seq<i64>
    decreases all.len(),
{
    if all.len() == 0 {
        Seq::<i64>::empty()
    } else {
        let before = boundary_params(segs, probe, all.drop_last());
        if grazes(segs, probe, all.last().line_t as int) {
            before
        } else {
            before.push(all.last().line_t)
        }
    }
}

/// `s` with `x` put behind the last element that does not exceed it.
pub open spec fn insert_ascending(s: Seq<i64>, x: i64) -> Seq<i64>
    decreases s.len(),
{
    if s.len() == 0 {
        seq![x]
    } else if s.last() <= x {
        s.push(x)
    } else {
        insert_ascending(s.drop_last(), x).push(s.last())
    }
}

/// The elements of `s` in ascending order.
pub open spec fn sort_ascending(s: Seq<i64>) -> Seq<i64>
    decreases s.len(),
{
    if s.len() == 0 {
        Seq::<i64>::empty()
    } else {
        insert_ascending(sort_ascending(s.drop_last()), s.last())
    }
}

/// Whether `s` ascends.
pub open spec fn ascending(s: Seq<i64>) -> bool {
    forall|i: int, j: int| 0 <= i <= j < s.len() ==> s[i] <= s[j]
}

/// An ascending `s` without the elements that follow their predecessor by
/// less than `MERGE_BELOW`.
pub open spec fn collapse(s: Seq<i64>) -> Seq<i64>
    decreases s.len(),
{
    if s.len() <= 1 {
        s
    } else {
        let before = collapse(s.drop_last());
        if s.last() - s[s.len() - 2] < MERGE_BELOW {
            before
        } else {
            before.push(s.last())
        }
    }
}

/// The ribs between neighbours of `ts` whose midpoint is inked.
pub open spec fn ink_runs(segs: Seq<Segment>, probe: Line, ts: Seq<i64>) -> Seq<Rib>
    decreases ts.len(),
{
    if ts.len() < 2 {
        Seq::<Rib>::empty()
    } else {
        let before = ink_runs(segs, probe, ts.drop_last());
        let rib = rib_between(probe, ts[ts.len() - 2], ts.last());
        if filled(segs, rib.line.mid()) {
            before.push(rib)
        } else {
            before
        }
    }
}

/// Whether neighbours in `s` lie at least `MERGE_BELOW` apart.
pub open spec fn spaced(s: Seq<i64>) -> bool {
    forall|i: int| 0 < i < s.len() ==> #[trigger] s[i] - s[i - 1] >= MERGE_BELOW
}

/// Merging near-duplicates of an ascending list keeps its first element
/// and leaves neighbours at least `MERGE_BELOW` apart.
pub proof fn lemma_collapse_spaces(s: Seq<i64>)
    requires
        ascending(s),
    ensures
        spaced(collapse(s)),
        collapse(s).len() <= s.len(),
        s.len() > 0 ==> collapse(s).len() > 0 && collapse(s)[0] == s[0] && collapse(s).last()
            <= s.last(),
    decreases s.len(),
{
    if s.len() > 1 {
        let front = s.drop_last();
        assert(ascending(front)) by {
            assert forall|i: int, j: int| 0 <= i <= j < front.len() implies front[i] <= front[j] by {
                assert(front[i] == s[i] && front[j] == s[j]);
            }
        }
        lemma_collapse_spaces(front);
        let before = collapse(front);
        assert(front.last() == s[s.len() - 2]);
        assert(s[s.len() - 2] <= s[s.len() - 1]);
        if !(s.last() - s[s.len() - 2] < MERGE_BELOW) {
            let out = before.push(s.last());
            assert forall|i: int| 0 < i < out.len() implies #[trigger] out[i] - out[i - 1]
                >= MERGE_BELOW by {
                if i < before.len() {
                    assert(out[i] == before[i] && out[i - 1] == before[i - 1]);
                    assert(before[i] - before[i - 1] >= MERGE_BELOW);
                } else {
                    assert(out[i - 1] == before.last());
                }
            }
        }
    }
}

/// Every rib between stops that lie apart is a proper stretch: it ends
/// behind its start.
pub proof fn lemma_ink_runs_are_proper(segs: Seq<Segment>, probe: Line, ts: Seq<i64>)
    requires
        spaced(ts),
    ensures
        forall|k: int|
            0 <= k < ink_runs(segs, probe, ts).len() ==> (#[trigger] ink_runs(segs, probe, ts)[k]).t1
                - ink_runs(segs, probe, ts)[k].t0 >= MERGE_BELOW,
{
    lemma_ink_runs_are_inked(segs, probe, ts);
    assert forall|k: int| 0 <= k < ink_runs(segs, probe, ts).len() implies (#[trigger] ink_runs(
        segs,
        probe,
        ts,
    )[k]).t1 - ink_runs(segs, probe, ts)[k].t0 >= MERGE_BELOW by {
        let rib = ink_runs(segs, probe, ts)[k];
        assert(inked_between_stops(segs, probe, ts, rib));
        let i = choose|i: int| 0 < i < ts.len() && rib == #[trigger] rib_ending_at(probe, ts, i);
        assert(ts[i] - ts[i - 1] >= MERGE_BELOW);
    }
}

/// Every inked stretch of a probe is a proper stretch with an inked
/// midpoint.
pub proof fn lemma_inked_ribs(segs: Seq<Segment>, probe: Line)
    ensures
        forall|k: int|
            0 <= k < inked_ribs(segs, probe).len() ==> {
                let rib = #[trigger] inked_ribs(segs, probe)[k];
                rib.t1 - rib.t0 >= MERGE_BELOW && filled(segs, rib.line.mid())
            },
{
    let kept = boundary_params(segs, probe, crossing_list(segs, probe));
    lemma_sort_ascending(kept);
    lemma_collapse_spaces(sort_ascending(kept));
    lemma_ink_runs_are_proper(segs, probe, boundary_stops(segs, probe));
    lemma_ink_runs_are_inked(segs, probe, boundary_stops(segs, probe));
    assert forall|k: int| 0 <= k < inked_ribs(segs, probe).len() implies {
        let rib = #[trigger] inked_ribs(segs, probe)[k];
        rib.t1 - rib.t0 >= MERGE_BELOW && filled(segs, rib.line.mid())
    } by {
        let rib = ink_runs(segs, probe, boundary_stops(segs, probe))[k];
        assert(inked_between_stops(segs, probe, boundary_stops(segs, probe), rib));
    }
}

/// The rib of `probe` between the stop of index `i` and the one before it.
pub open spec fn rib_ending_at(probe: Line, ts: Seq<i64>, i: int) -> Rib {
    rib_between(probe, ts[i - 1], ts[i])
}

/// Whether `rib` runs between two neighbouring stops of `ts` and has an
/// inked midpoint.
pub open spec fn inked_between_stops(segs: Seq<Segment>, probe: Line, ts: Seq<i64>, rib: Rib)
    -> bool {
    filled(segs, rib.line.mid()) && exists|i: int|
        0 < i < ts.len() && rib == #[trigger] rib_ending_at(probe, ts, i)
}

proof fn lemma_more_stops(segs: Seq<Segment>, probe: Line, ts: Seq<i64>, rib: Rib)
    requires
        ts.len() > 0,
        inked_between_stops(segs, probe, ts.drop_last(), rib),
    ensures
        inked_between_stops(segs, probe, ts, rib),
{
    let front = ts.drop_last();
    let i = choose|i: int| 0 < i < front.len() && rib == #[trigger] rib_ending_at(probe, front, i);
    assert(front[i - 1] == ts[i - 1] && front[i] == ts[i]);
    assert(rib == rib_ending_at(probe, ts, i));
}

/// Every rib between stops runs between two neighbouring stops and has an
/// inked midpoint.
pub proof fn lemma_ink_runs_are_inked(segs: Seq<Segment>, probe: Line, ts: Seq<i64>)
    ensures
        forall|k: int|
            0 <= k < ink_runs(segs, probe, ts).len() ==> inked_between_stops(
                segs,
                probe,
                ts,
                #[trigger] ink_runs(segs, probe, ts)[k],
            ),
    decreases ts.len(),
{
    if ts.len() >= 2 {
        let front = ts.drop_last();
        lemma_ink_runs_are_inked(segs, probe, front);
        let before = ink_runs(segs, probe, front);
        let runs = ink_runs(segs, probe, ts);
        let last = rib_between(probe, ts[ts.len() - 2], ts.last());
        assert(runs == if filled(segs, last.line.mid()) {
            before.push(last)
        } else {
            before
        });
        assert forall|k: int| 0 <= k < runs.len() implies inked_between_stops(
            segs,
            probe,
            ts,
            #[trigger] runs[k],
        ) by {
            if k < before.len() {
                assert(runs[k] == before[k]);
                assert(inked_between_stops(segs, probe, front, before[k]));
                lemma_more_stops(segs, probe, ts, before[k]);
            } else {
                assert(runs[k] == last);
                assert(last == rib_ending_at(probe, ts, ts.len() - 1));
            }
        }
    } else {
        assert(ink_runs(segs, probe, ts).len() == 0);
    }
}

/// The boundary parameters of a probe: crossings that are no grazes,
/// ascending, near-duplicates merged.
pub open spec fn boundary_stops(segs: Seq<Segment>, probe: Line) -> Seq<i64> {
    collapse(sort_ascending(boundary_params(segs, probe, crossing_list(segs, probe))))
}

/// The inked stretches of a probe.
pub open spec fn inked_ribs(segs: Seq<Segment>, probe: Line) -> Seq<Rib> {
    ink_runs(segs, probe, boundary_stops(segs, probe))
}

/// Whether every element is a parameter of the unit interval.
pub open spec fn unit_params(s: Seq<i64>) -> bool {
    forall|i: int| 0 <= i < s.len() ==> 0 <= #[trigger] s[i] <= UNIT
}

proof fn lemma_insert_position(s: Seq<i64>, x: i64, pos: int)
    requires
        0 <= pos <= s.len(),
        pos > 0 ==> s[pos - 1] <= x,
        forall|j: int| pos <= j < s.len() ==> s[j] > x,
    ensures
        insert_ascending(s, x) == s.insert(pos, x),
    decreases s.len(),
{
    if s.len() == 0 {
        assert(s.insert(pos, x) =~= seq![x]);
    } else if s.last() <= x {
        assert(pos == s.len());
        assert(s.insert(pos, x) =~= s.push(x));
    } else {
        assert(pos < s.len());
        lemma_insert_position(s.drop_last(), x, pos);
        assert(s.drop_last().insert(pos, x).push(s.last()) =~= s.insert(pos, x));
    }
}

/// Inserting into an ascending sequence leaves it ascending, one longer,
/// and holding what it held and the new element.
pub proof fn lemma_insert_ascending(s: Seq<i64>, x: i64)
    requires
        ascending(s),
    ensures
        ascending(insert_ascending(s, x)),
        insert_ascending(s, x).len() == s.len() + 1,
        insert_ascending(s, x).to_multiset() == s.to_multiset().insert(x),
    decreases s.len(),
{
    broadcast use vstd::seq_lib::group_to_multiset_ensures;

    if s.len() == 0 {
    } else if s.last() <= x {
    } else {
        let front = s.drop_last();
        lemma_insert_ascending(front, x);
        let ins = insert_ascending(front, x);
        assert(s == front.push(s.last()));
        assert forall|i: int, j: int| 0 <= i <= j < ins.push(s.last()).len() implies ins.push(
            s.last(),
        )[i] <= ins.push(s.last())[j] by {
            if j == ins.len() {
                if i < ins.len() {
                    // every element of `ins` is `x` or an element of `front`
                    assert(ins.to_multiset().count(ins[i]) > 0);
                    if ins[i] != x {
                        assert(front.to_multiset().count(ins[i]) > 0);
                        let k = choose|k: int| 0 <= k < front.len() && front[k] == ins[i];
                        assert(s[k] <= s[s.len() - 1]);
                    }
                }
            }
        }
        assert(ins.push(s.last()).to_multiset() == ins.to_multiset().insert(s.last()));
        assert(s.to_multiset() == front.to_multiset().insert(s.last()));
        assert(front.to_multiset().insert(x).insert(s.last()) =~= front.to_multiset().insert(
            s.last(),
        ).insert(x));
    }
}

/// Sorting yields an ascending arrangement of the same elements.
pub proof fn lemma_sort_ascending(s: Seq<i64>)
    ensures
        ascending(sort_ascending(s)),
        sort_ascending(s).len() == s.len(),
        sort_ascending(s).to_multiset() == s.to_multiset(),
    decreases s.len(),
{
    broadcast use vstd::seq_lib::group_to_multiset_ensures;

    if s.len() > 0 {
        lemma_sort_ascending(s.drop_last());
        lemma_insert_ascending(sort_ascending(s.drop_last()), s.last());
        assert(s == s.drop_last().push(s.last()));
    }
}

/// Puts `x` into the ascending vector `v`.
fn insert_sorted(v: &mut Vec<i64>, x: i64)
    ensures
        final(v)@ == insert_ascending(old(v)@, x),
        unit_params(old(v)@) && 0 <= x <= UNIT ==> unit_params(final(v)@),
{
    let mut pos: usize = v.len();
    while pos > 0 && v[pos - 1] > x
        invariant
            pos <= v.len(),
            v@ == old(v)@,
            forall|j: int| pos <= j < v.len() ==> v@[j] > x,
        decreases pos,
    {
        pos -= 1;
    }
    proof {
        lemma_insert_position(v@, x, pos as int);
    }
    v.insert(pos, x);
}

/// Sorts parameters into ascending order.
pub fn sort_params(v: &Vec<i64>) -> (out: Vec<i64>)
    ensures
        out@ == sort_ascending(v@),
        unit_params(v@) ==> unit_params(out@),
{
    let mut out: Vec<i64> = Vec::new();
    let mut i: usize = 0;
    while i < v.len()
        invariant
            i <= v.len(),
            out@ == sort_ascending(v@.take(i as int)),
            unit_params(v@) ==> unit_params(out@),
        decreases v.len() - i,
    {
        proof {
            assert(v@.take(i + 1).drop_last() == v@.take(i as int));
        }
        insert_sorted(&mut out, v[i]);
        i += 1;
    }
    proof {
        assert(v@.take(i as int) == v@);
    }
    out
}

/// Merges near-duplicates of an ascending list of parameters.
pub fn merge_close(v: &Vec<i64>) -> (out: Vec<i64>)
    requires
        unit_params(v@),
    ensures
        out@ == collapse(v@),
        unit_params(out@),
{
    let mut out: Vec<i64> = Vec::new();
    let mut i: usize = 0;
    while i < v.len()
        invariant
            i <= v.len(),
            unit_params(v@),
            out@ == collapse(v@.take(i as int)),
            unit_params(out@),
        decreases v.len() - i,
    {
        proof {
            assert(v@.take(i + 1).drop_last() == v@.take(i as int));
            if i == 0 {
                assert(v@.take(1) =~= Seq::<i64>::empty().push(v@[0]));
                assert(v@.take(0) =~= Seq::<i64>::empty());
            }
        }
        if i == 0 || v[i] - v[i - 1] >= MERGE_BELOW {
            out.push(v[i]);
        }
        i += 1;
    }
    proof {
        assert(v@.take(i as int) == v@);
    }
    out
}

/// Computes the side step of a probe.
pub fn side_step_of(probe: &Line) -> (step: i64)
    requires
        probe.within(LINE_LIMIT as int),
    ensures
        step == side_step(*probe),
        SIDE_STEP <= step <= UNIT,
{
    proof {
        lemma_side_step(*probe);
    }
    let dx: i64 = probe.end.x as i64 - probe.start.x as i64;
    let dy: i64 = probe.end.y as i64 - probe.start.y as i64;
    let x: i64 = if dx < 0 { -dx } else { dx };
    let y: i64 = if dy < 0 { -dy } else { dy };
    let span: i64 = if x >= y { x } else { y };
    if span <= 0 {
        SIDE_STEP
    } else {
        let least: i64 = (UNIT + span - 1) / span;
        if least > SIDE_STEP {
            least
        } else {
            SIDE_STEP
        }
    }
}

/// Drops the crossings at which the probe merely grazes the ink and keeps
/// the probe parameters of the others.
pub fn boundary_crossings(shape: &Shape, probe: &Line, all: &Vec<Crossing>) -> (out: Vec<i64>)
    requires
        probe.within(LINE_LIMIT as int),
        forall|k: int| 0 <= k < all.len() ==> 0 <= (#[trigger] all@[k]).line_t <= UNIT,
    ensures
        out@ == boundary_params(shape@, *probe, all@),
        unit_params(out@),
{
    let mut out: Vec<i64> = Vec::new();
    let mut i: usize = 0;
    let step: i64 = side_step_of(probe);
    while i < all.len()
        invariant
            i <= all.len(),
            probe.within(LINE_LIMIT as int),
            step == side_step(*probe),
            SIDE_STEP <= step <= UNIT,
            forall|k: int| 0 <= k < all.len() ==> 0 <= (#[trigger] all@[k]).line_t <= UNIT,
            out@ == boundary_params(shape@, *probe, all@.take(i as int)),
            unit_params(out@),
        decreases all.len() - i,
    {
        let t: i64 = all[i].line_t;
        let before = probe.eval(t - step);
        let after = probe.eval(t + step);
        proof {
            assert(all@.take(i + 1).drop_last() == all@.take(i as int));
        }
        if !(shape.is_filled(before) && shape.is_filled(after)) {
            out.push(t);
        }
        i += 1;
    }
    proof {
        assert(all@.take(i as int) == all@);
    }
    out
}

/// Emits the rib between each pair of neighbouring stops whose midpoint is
/// inked.
pub fn runs_between(shape: &Shape, probe: &Line, stops: &Vec<i64>) -> (out: Vec<Rib>)
    requires
        probe.within(LINE_LIMIT as int),
        unit_params(stops@),
    ensures
        out@ == ink_runs(shape@, *probe, stops@),
        forall|k: int| 0 <= k < out.len() ==> (#[trigger] out@[k]).line.within(LINE_LIMIT as int),
        forall|k: int|
            0 <= k < out.len() ==> 0 <= (#[trigger] out@[k]).t0 <= UNIT && 0 <= out@[k].t1 <= UNIT,
{
    let mut out: Vec<Rib> = Vec::new();
    let mut i: usize = 1;
    if stops.len() < 2 {
        return out;
    }
    proof {
        assert(stops@.take(1).len() < 2);
    }
    while i < stops.len()
        invariant
            1 <= i <= stops.len(),
            probe.within(LINE_LIMIT as int),
            unit_params(stops@),
            out@ == ink_runs(shape@, *probe, stops@.take(i as int)),
            forall|k: int| 0 <= k < out.len() ==> (#[trigger] out@[k]).line.within(LINE_LIMIT as int),
            forall|k: int|
                0 <= k < out.len() ==> 0 <= (#[trigger] out@[k]).t0 <= UNIT && 0 <= out@[k].t1
                    <= UNIT,
        decreases stops.len() - i,
    {
        let a: i64 = stops[i - 1];
        let b: i64 = stops[i];
        let line = Line { start: probe.eval(a), end: probe.eval(b) };
        let rib = Rib { line, t0: a, t1: b };
        proof {
            assert(stops@.take(i + 1).drop_last() == stops@.take(i as int));
            assert(rib == rib_between(*probe, a, b));
        }
        if shape.is_filled(line.midpoint()) {
            out.push(rib);
        }
        i += 1;
    }
    proof {
        assert(stops@.take(i as int) == stops@);
    }
    out
}

/// The inked stretches of `probe`: one rib for each run of ink that the
/// probe passes through.
pub fn inked_segments(shape: &Shape, probe: &Line) -> (out: Vec<Rib>)
    requires
        probe.within(LINE_LIMIT as int),
    ensures
        out@ == inked_ribs(shape@, *probe),
        forall|k: int| 0 <= k < out.len() ==> (#[trigger] out@[k]).line.within(LINE_LIMIT as int),
        forall|k: int|
            0 <= k < out.len() ==> 0 <= (#[trigger] out@[k]).t0 <= UNIT && 0 <= out@[k].t1 <= UNIT,
{
    let all = shape.crossings(probe);
    proof {
        lemma_crossing_list_range(shape@, *probe);
    }
    let kept = boundary_crossings(shape, probe, &all);
    let sorted = sort_params(&kept);
    let stops = merge_close(&sorted);
    runs_between(shape, probe, &stops)
}

} // verus!
