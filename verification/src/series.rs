//! Series: per-tag summaries, restart segments, and materialized points.
//!
//! Every series carries an exact summary at all times, structured as one
//! accumulator per restart segment. Preemption follows RustBoard: a new
//! point at `step <= tail` truncates that series' tail — never other tags —
//! and opens a new segment. Summaries cannot un-accumulate a truncated tail
//! (that would need the points), so a preempted segment keeps its as-written
//! totals and records the preemption step; [`SeriesSummary::preempted`]
//! says when merged values include ghost data, and materialization gives
//! the exact live view on demand.
use vstd::prelude::*;

use crate::double::{below, finite, is_below, is_finite, is_nan, nan};
use crate::event::Bucket;
use crate::numeric::{joins, Moments, Numeric};
use crate::wandb_record::NAN;

verus! {

/// What kind of data a series carries, from its payloads and plugin
/// metadata.
#[derive(Clone, Copy, PartialEq, Eq, Structural, Debug)]
#[non_exhaustive]
pub enum SeriesClass {
    /// Scalar points (TF1 `simple_value` or TF2 rank-0 tensors).
    Scalar,
    /// Histograms (TF1 proto or TF2 `[k, 3]` tensors).
    Histogram,
    /// Encoded images.
    Image,
    /// Text summaries.
    Text,
    /// Payloads this model does not classify.
    Unknown,
}

/// One observed point: step, wall time, and value (not a number for
/// non-scalar series, where only step/wall/count are meaningful).
#[derive(Clone, Copy, PartialEq, Eq, Structural, Debug)]
pub struct PointStamp {
    /// Global step.
    pub step: i64,
    /// Seconds since the Unix epoch, the bits of a double.
    pub wall: u64,
    /// The scalar value, the bits of a double; not a number both for gaps
    /// and for non-scalar series.
    pub value: u64,
}

/// Exact accumulators over one restart segment of a series.
#[derive(Clone, Copy, PartialEq, Eq, Structural, Debug)]
pub struct SegmentSummary {
    /// First point of the segment.
    pub first: PointStamp,
    /// Last point written to the segment (including any later-preempted
    /// tail — see [`SegmentSummary::preempted_at`]).
    pub last: PointStamp,
    /// Minimum finite value, not a number if none.
    pub min: u64,
    /// Maximum finite value, not a number if none.
    pub max: u64,
    /// Mean/variance over finite values.
    pub moments: Moments,
    /// Total points written, finite or not.
    pub count: u64,
    /// Points with non-finite values (such a value is a gap, never
    /// interpolated).
    pub non_finite: u64,
    /// Set when a restart preempted this segment: the step at which the
    /// following segment began. Points at or beyond it are ghost data, and
    /// this segment's accumulators still include them (exact truncation
    /// would need the points; materialize for the live view).
    pub preempted_at: Option<i64>,
}

/// One more than a count, as far as the counter goes.
pub open spec fn counted(n: u64) -> u64 {
    if n < u64::MAX {
        (n + 1) as u64
    } else {
        n
    }
}

/// One more than a count, as far as the counter goes.
pub fn count_up(n: u64) -> (next: u64)
    ensures
        next == counted(n),
{
    if n < u64::MAX {
        n + 1
    } else {
        n
    }
}

/// The smaller of two doubles; the other where one is not a number.
pub open spec fn lower(a: u64, b: u64) -> u64 {
    if nan(a) || below(b, a) {
        b
    } else {
        a
    }
}

/// The larger of two doubles; the other where one is not a number.
pub open spec fn upper(a: u64, b: u64) -> u64 {
    if nan(a) || below(a, b) {
        b
    } else {
        a
    }
}

/// The smaller of two doubles; the other where one is not a number.
pub fn lower_of(a: u64, b: u64) -> (result: u64)
    ensures
        result == lower(a, b),
{
    if is_nan(a) || is_below(b, a) {
        b
    } else {
        a
    }
}

/// The larger of two doubles; the other where one is not a number.
pub fn upper_of(a: u64, b: u64) -> (result: u64)
    ensures
        result == upper(a, b),
{
    if is_nan(a) || is_below(a, b) {
        b
    } else {
        a
    }
}

/// A segment before its first point is accumulated.
pub open spec fn segment_start(point: PointStamp) -> SegmentSummary {
    SegmentSummary {
        first: point,
        last: point,
        min: NAN,
        max: NAN,
        moments: Moments::start(),
        count: 0,
        non_finite: 0,
        preempted_at: None,
    }
}

/// A segment behind one more point, `moments` being those behind it.
pub open spec fn segment_with(
    segment: SegmentSummary,
    point: PointStamp,
    moments: Moments,
) -> SegmentSummary {
    if finite(point.value) {
        SegmentSummary {
            last: point,
            count: counted(segment.count),
            min: lower(segment.min, point.value),
            max: upper(segment.max, point.value),
            moments,
            ..segment
        }
    } else {
        SegmentSummary {
            last: point,
            count: counted(segment.count),
            non_finite: counted(segment.non_finite),
            ..segment
        }
    }
}

impl<
    F: Fn(&str) -> Option<u64>,
    G: Fn(u64) -> u64,
    H: Fn(Moments, u64) -> Moments,
> Numeric<F, G, H> {
    /// A segment behind one more point.
    pub open spec fn grow(self, segment: SegmentSummary, point: PointStamp) -> SegmentSummary {
        segment_with(segment, point, self.push(segment.moments, point.value))
    }

    /// The segments of a series behind one more point: it opens a new one
    /// where its step is at or before the tail.
    pub open spec fn observed(self, segments: Seq<SegmentSummary>, point: PointStamp) -> Seq<
        SegmentSummary,
    > {
        if segments.len() == 0 {
            seq![self.grow(segment_start(point), point)]
        } else if preempts(segments, point) {
            segments.update(
                segments.len() - 1,
                SegmentSummary { preempted_at: Some(point.step), ..segments.last() },
            ).push(self.grow(segment_start(point), point))
        } else {
            segments.update(segments.len() - 1, self.grow(segments.last(), point))
        }
    }

    /// The segments of a series behind a sequence of points.
    pub open spec fn observed_all(self, points: Seq<PointStamp>) -> Seq<SegmentSummary>
        decreases points.len(),
    {
        if points.len() == 0 {
            Seq::empty()
        } else {
            self.observed(self.observed_all(points.drop_last()), points.last())
        }
    }
}

/// Whether a point preempts the series: its step is at or before the tail.
pub open spec fn preempts(segments: Seq<SegmentSummary>, point: PointStamp) -> bool {
    segments.len() > 0 && point.step <= segments.last().last.step
}

impl SegmentSummary {
    /// A segment of one point.
    fn new<F: Fn(&str) -> Option<u64>, G: Fn(u64) -> u64, H: Fn(Moments, u64) -> Moments>(
        point: PointStamp,
        numeric: &Numeric<F, G, H>,
    ) -> (segment: SegmentSummary)
        requires
            numeric.ok(),
        ensures
            segment == numeric.grow(segment_start(point), point),
    {
        let mut segment = SegmentSummary {
            first: point,
            last: point,
            min: NAN,
            max: NAN,
            moments: Moments { count: 0, mean: 0, m2: 0 },
            count: 0,
            non_finite: 0,
            preempted_at: None,
        };
        segment.accumulate(point, numeric);
        segment
    }

    /// Takes one more point in.
    fn accumulate<F: Fn(&str) -> Option<u64>, G: Fn(u64) -> u64, H: Fn(Moments, u64) -> Moments>(
        &mut self,
        point: PointStamp,
        numeric: &Numeric<F, G, H>,
    )
        requires
            numeric.ok(),
        ensures
            *final(self) == numeric.grow(*old(self), point),
    {
        self.last = point;
        self.count = count_up(self.count);
        if is_finite(point.value) {
            self.min = lower_of(self.min, point.value);
            self.max = upper_of(self.max, point.value);
            self.moments = numeric.accumulated(self.moments, point.value);
        } else {
            self.non_finite = count_up(self.non_finite);
        }
    }
}

/// The always-current summary of a series: one exact accumulator per
/// restart segment, merged on demand.
#[derive(PartialEq, Debug)]
pub struct SeriesSummary {
    /// The segments, in write order. Never empty once a point has been
    /// observed.
    pub segments: Vec<SegmentSummary>,
}

/// The points counted over segments.
pub open spec fn total_count(segments: Seq<SegmentSummary>) -> int
    decreases segments.len(),
{
    if segments.len() == 0 {
        0
    } else {
        total_count(segments.drop_last()) + segments.last().count
    }
}

/// The smallest of the segments' minima that are numbers.
pub open spec fn total_min(segments: Seq<SegmentSummary>) -> Option<u64>
    decreases segments.len(),
{
    if segments.len() == 0 {
        None
    } else {
        let front = total_min(segments.drop_last());
        let here = segments.last().min;
        if nan(here) {
            front
        } else {
            match front {
                Some(known) => Some(lower(known, here)),
                None => Some(here),
            }
        }
    }
}

/// The largest of the segments' maxima that are numbers.
pub open spec fn total_max(segments: Seq<SegmentSummary>) -> Option<u64>
    decreases segments.len(),
{
    if segments.len() == 0 {
        None
    } else {
        let front = total_max(segments.drop_last());
        let here = segments.last().max;
        if nan(here) {
            front
        } else {
            match front {
                Some(known) => Some(upper(known, here)),
                None => Some(here),
            }
        }
    }
}

/// One step of merging moments: an empty side changes nothing.
pub open spec fn merge_step<C: Fn(Moments, Moments) -> Moments>(
    combine: C,
    merged: Moments,
    more: Moments,
    next: Moments,
) -> bool {
    if more.count == 0 {
        next == merged
    } else if merged.count == 0 {
        next == more
    } else {
        joins(combine, merged, more, next)
    }
}

/// `steps` are the moments merged so far, before and behind each segment.
pub open spec fn merges<C: Fn(Moments, Moments) -> Moments>(
    combine: C,
    segments: Seq<SegmentSummary>,
    steps: Seq<Moments>,
) -> bool {
    &&& steps.len() == segments.len() + 1
    &&& steps[0] == Moments::start()
    &&& forall|i: int|
        0 <= i < segments.len() ==> merge_step(
            combine,
            steps[i],
            (#[trigger] segments[i]).moments,
            steps[i + 1],
        )
}

impl SeriesSummary {
    /// A summary before any point.
    pub fn new() -> (summary: SeriesSummary)
        ensures
            summary.segments@ == Seq::<SegmentSummary>::empty(),
    {
        SeriesSummary { segments: Vec::new() }
    }

    /// Feeds one point. Returns `true` when the point preempted the series
    /// (opened a new segment by rewriting a step at or before the tail).
    pub fn observe<
        F: Fn(&str) -> Option<u64>,
        G: Fn(u64) -> u64,
        H: Fn(Moments, u64) -> Moments,
    >(&mut self, point: PointStamp, numeric: &Numeric<F, G, H>) -> (preempted: bool)
        requires
            numeric.ok(),
        ensures
            preempted == preempts(old(self).segments@, point),
            final(self).segments@ == numeric.observed(old(self).segments@, point),
    {
        let count: usize = self.segments.len();
        if count == 0 {
            self.segments.push(SegmentSummary::new(point, numeric));
            assert(self.segments@ =~= numeric.observed(old(self).segments@, point));
            return false;
        }
        let mut tail: SegmentSummary = self.segments[count - 1];
        if point.step <= tail.last.step {
            tail.preempted_at = Some(point.step);
            self.segments.set(count - 1, tail);
            self.segments.push(SegmentSummary::new(point, numeric));
            assert(self.segments@ =~= numeric.observed(old(self).segments@, point));
            true
        } else {
            tail.accumulate(point, numeric);
            self.segments.set(count - 1, tail);
            assert(self.segments@ =~= numeric.observed(old(self).segments@, point));
            false
        }
    }

    /// Total points written across all segments (ghost tails included).
    pub fn count(&self) -> (count: u64)
        requires
            total_count(self.segments@) <= u64::MAX,
        ensures
            count == total_count(self.segments@),
    {
        let mut count: u64 = 0;
        let mut i: usize = 0;
        assert(self.segments@.take(0) =~= Seq::<SegmentSummary>::empty());
        while i < self.segments.len()
            invariant
                i <= self.segments@.len(),
                total_count(self.segments@) <= u64::MAX,
                count == total_count(self.segments@.take(i as int)),
            decreases self.segments@.len() - i,
        {
            proof {
                let longer = self.segments@.take(i + 1);
                assert(longer.drop_last() =~= self.segments@.take(i as int));
                lemma_total_count_grows(self.segments@, i + 1);
            }
            count = count + self.segments[i].count;
            i += 1;
        }
        assert(self.segments@.take(self.segments@.len() as int) =~= self.segments@);
        count
    }

    /// Total points written, capped at what the counter holds.
    pub fn count_capped(&self) -> (count: u64)
        ensures
            total_count(self.segments@) <= u64::MAX ==> count == total_count(self.segments@),
            total_count(self.segments@) > u64::MAX ==> count == u64::MAX,
    {
        let mut count: u64 = 0;
        let mut i: usize = 0;
        assert(self.segments@.take(0) =~= Seq::<SegmentSummary>::empty());
        while i < self.segments.len()
            invariant
                i <= self.segments@.len(),
                total_count(self.segments@.take(i as int)) <= u64::MAX ==> count == total_count(
                    self.segments@.take(i as int),
                ),
                total_count(self.segments@.take(i as int)) > u64::MAX ==> count == u64::MAX,
            decreases self.segments@.len() - i,
        {
            proof {
                let longer = self.segments@.take(i + 1);
                assert(longer.drop_last() =~= self.segments@.take(i as int));
            }
            let here: u64 = self.segments[i].count;
            count = if here <= u64::MAX - count {
                count + here
            } else {
                u64::MAX
            };
            i += 1;
        }
        assert(self.segments@.take(self.segments@.len() as int) =~= self.segments@);
        count
    }

    /// First point ever written.
    pub fn first(&self) -> (first: Option<PointStamp>)
        ensures
            first == (if self.segments@.len() > 0 {
                Some(self.segments@[0].first)
            } else {
                None
            }),
    {
        if self.segments.len() > 0 {
            Some(self.segments[0].first)
        } else {
            None
        }
    }

    /// Most recently written live point.
    pub fn last(&self) -> (last: Option<PointStamp>)
        ensures
            last == last_point(self.segments@),
    {
        if self.segments.len() > 0 {
            Some(self.segments[self.segments.len() - 1].last)
        } else {
            None
        }
    }

    /// Minimum finite value as written, `None` when no finite values exist.
    /// Includes ghost tails when [`preempted`](Self::preempted).
    pub fn min(&self) -> (min: Option<u64>)
        ensures
            min == total_min(self.segments@),
    {
        let mut min: Option<u64> = None;
        let mut i: usize = 0;
        assert(self.segments@.take(0) =~= Seq::<SegmentSummary>::empty());
        while i < self.segments.len()
            invariant
                i <= self.segments@.len(),
                min == total_min(self.segments@.take(i as int)),
            decreases self.segments@.len() - i,
        {
            assert(self.segments@.take(i + 1).drop_last() =~= self.segments@.take(i as int));
            let here: u64 = self.segments[i].min;
            if !is_nan(here) {
                min = match min {
                    Some(known) => Some(lower_of(known, here)),
                    None => Some(here),
                };
            }
            i += 1;
        }
        assert(self.segments@.take(self.segments@.len() as int) =~= self.segments@);
        min
    }

    /// Maximum finite value as written; see [`min`](Self::min).
    pub fn max(&self) -> (max: Option<u64>)
        ensures
            max == total_max(self.segments@),
    {
        let mut max: Option<u64> = None;
        let mut i: usize = 0;
        assert(self.segments@.take(0) =~= Seq::<SegmentSummary>::empty());
        while i < self.segments.len()
            invariant
                i <= self.segments@.len(),
                max == total_max(self.segments@.take(i as int)),
            decreases self.segments@.len() - i,
        {
            assert(self.segments@.take(i + 1).drop_last() =~= self.segments@.take(i as int));
            let here: u64 = self.segments[i].max;
            if !is_nan(here) {
                max = match max {
                    Some(known) => Some(upper_of(known, here)),
                    None => Some(here),
                };
            }
            i += 1;
        }
        assert(self.segments@.take(self.segments@.len() as int) =~= self.segments@);
        max
    }

    /// Mean/variance over all finite values as written. `combine` merges
    /// two accumulators that both hold values.
    pub fn moments<C: Fn(Moments, Moments) -> Moments>(&self, combine: &C) -> (merged: Moments)
        requires
            forall|a: Moments, b: Moments| #[trigger] call_requires(*combine, (a, b)),
        ensures
            exists|steps: Seq<Moments>| #[trigger]
                merges(*combine, self.segments@, steps) && merged == steps.last(),
    {
        let mut merged = Moments { count: 0, mean: 0, m2: 0 };
        let ghost mut steps: Seq<Moments> = seq![merged];
        let mut i: usize = 0;
        while i < self.segments.len()
            invariant
                i <= self.segments@.len(),
                forall|a: Moments, b: Moments| #[trigger] call_requires(*combine, (a, b)),
                merges(*combine, self.segments@.take(i as int), steps),
                merged == steps.last(),
            decreases self.segments@.len() - i,
        {
            let ghost before = merged;
            merged.merge(&self.segments[i].moments, combine);
            proof {
                let earlier = steps;
                steps = steps.push(merged);
                let front = self.segments@.take(i as int);
                let longer = self.segments@.take(i + 1);
                assert forall|k: int| 0 <= k < longer.len() implies merge_step(
                    *combine,
                    steps[k],
                    (#[trigger] longer[k]).moments,
                    steps[k + 1],
                ) by {
                    if k < i {
                        assert(front[k] == longer[k]);
                        assert(steps[k] == earlier[k]);
                        assert(steps[k + 1] == earlier[k + 1]);
                    }
                }
            }
            i += 1;
        }
        assert(self.segments@.take(self.segments@.len() as int) =~= self.segments@);
        merged
    }

    /// True when any segment was preempted: merged aggregates then include
    /// ghost tails, and the exact live view requires materialization.
    pub fn preempted(&self) -> (preempted: bool)
        ensures
            preempted == exists|i: int|
                0 <= i < self.segments@.len() && (#[trigger] self.segments@[i]).preempted_at
                    is Some,
    {
        let mut i: usize = 0;
        while i < self.segments.len()
            invariant
                i <= self.segments@.len(),
                forall|k: int|
                    0 <= k < i ==> (#[trigger] self.segments@[k]).preempted_at is None,
            decreases self.segments@.len() - i,
        {
            if self.segments[i].preempted_at.is_some() {
                assert(self.segments@[i as int].preempted_at is Some);
                return true;
            }
            i += 1;
        }
        false
    }
}

/// The most recently written point.
pub open spec fn last_point(segments: Seq<SegmentSummary>) -> Option<PointStamp> {
    if segments.len() > 0 {
        Some(segments.last().last)
    } else {
        None
    }
}

proof fn lemma_total_count_grows(segments: Seq<SegmentSummary>, n: int)
    requires
        0 <= n <= segments.len(),
    ensures
        0 <= total_count(segments.take(n)) <= total_count(segments),
    decreases segments.len(),
{
    if n == segments.len() {
        assert(segments.take(n) =~= segments);
        if n > 0 {
            lemma_total_count_grows(segments.drop_last(), n - 1);
            assert(segments.drop_last().take(n - 1) =~= segments.drop_last());
        }
    } else {
        lemma_total_count_grows(segments.drop_last(), n);
        assert(segments.drop_last().take(n) =~= segments.take(n));
    }
}

/// One series in the catalog: classification and its summary. Points live
/// separately, materialized on demand.
#[derive(PartialEq, Debug)]
pub struct Series {
    /// What the series carries.
    pub class: SeriesClass,
    /// Owning plugin, from the first point's metadata when present.
    pub plugin: Option<String>,
    /// The always-current summary.
    pub summary: SeriesSummary,
}

/// What a [`Series`] holds.
#[verifier::ext_equal]
pub struct SeriesModel {
    pub class: SeriesClass,
    pub plugin: Option<Seq<char>>,
    pub segments: Seq<SegmentSummary>,
}

impl View for Series {
    type V = SeriesModel;

    open spec fn view(&self) -> SeriesModel {
        SeriesModel {
            class: self.class,
            plugin: crate::mlflow::option_text(self.plugin),
            segments: self.summary.segments@,
        }
    }
}

/// A preempted tail, kept renderable: data honesty over tidiness.
#[derive(PartialEq, Debug)]
pub struct GhostTail {
    /// Index into the live columns where the truncation happened — the
    /// ghost's points originally followed `steps[..at]`.
    pub at: usize,
    /// Steps of the truncated points.
    pub steps: Vec<i64>,
    /// Wall times of the truncated points.
    pub walls: Vec<u64>,
    /// Values of the truncated points.
    pub values: Vec<u64>,
}

/// What a [`GhostTail`] holds.
#[verifier::ext_equal]
pub struct GhostModel {
    pub at: usize,
    pub steps: Seq<i64>,
    pub walls: Seq<u64>,
    pub values: Seq<u64>,
}

impl View for GhostTail {
    type V = GhostModel;

    open spec fn view(&self) -> GhostModel {
        GhostModel {
            at: self.at,
            steps: self.steps@,
            walls: self.walls@,
            values: self.values@,
        }
    }
}

/// Materialized full-fidelity points of one series: parallel columns plus
/// segment boundaries and preempted ghost tails.
///
/// Invariant: live `steps` are strictly increasing (preemption enforces it).
#[derive(PartialEq, Debug)]
pub struct Points {
    /// Steps, strictly increasing.
    pub steps: Vec<i64>,
    /// Wall times, parallel to `steps`.
    pub walls: Vec<u64>,
    /// Values, parallel to `steps`; what is not a number is a gap.
    pub values: Vec<u64>,
    /// Indices where a new restart segment begins: 0 where a restart rewrote
    /// every point.
    pub boundaries: Vec<usize>,
    /// Preempted tails, in preemption order.
    pub ghosts: Vec<GhostTail>,
}

/// What a [`Points`] holds.
#[verifier::ext_equal]
pub struct PointsModel {
    pub steps: Seq<i64>,
    pub walls: Seq<u64>,
    pub values: Seq<u64>,
    pub boundaries: Seq<usize>,
    pub ghosts: Seq<GhostModel>,
}

/// What ghost tails hold.
pub open spec fn ghosts_model(ghosts: Seq<GhostTail>) -> Seq<GhostModel> {
    ghosts.map_values(|tail: GhostTail| tail@)
}

impl View for Points {
    type V = PointsModel;

    open spec fn view(&self) -> PointsModel {
        PointsModel {
            steps: self.steps@,
            walls: self.walls@,
            values: self.values@,
            boundaries: self.boundaries@,
            ghosts: ghosts_model(self.ghosts@),
        }
    }
}

/// The columns of every ghost tail are parallel.
pub open spec fn ghosts_parallel(ghosts: Seq<GhostModel>) -> bool {
    forall|i: int|
        0 <= i < ghosts.len() ==> (#[trigger] ghosts[i]).walls.len() == ghosts[i].steps.len()
            && ghosts[i].values.len() == ghosts[i].steps.len()
}

/// Steps that go up, each at most once.
pub open spec fn increasing(steps: Seq<i64>) -> bool {
    forall|i: int, j: int| 0 <= i < j < steps.len() ==> steps[i] < steps[j]
}

/// How many steps stay when a point at `step` arrives: the tail at or behind
/// it goes.
pub open spec fn kept(steps: Seq<i64>, step: i64) -> nat
    decreases steps.len(),
{
    if steps.len() == 0 || steps.last() < step {
        steps.len()
    } else {
        kept(steps.drop_last(), step)
    }
}

impl PointsModel {
    /// No points.
    pub open spec fn start() -> PointsModel {
        PointsModel {
            steps: Seq::empty(),
            walls: Seq::empty(),
            values: Seq::empty(),
            boundaries: Seq::empty(),
            ghosts: Seq::empty(),
        }
    }

    /// The columns are parallel and the steps go up.
    pub open spec fn wf(self) -> bool {
        &&& self.walls.len() == self.steps.len()
        &&& self.values.len() == self.steps.len()
        &&& increasing(self.steps)
        &&& ghosts_parallel(self.ghosts)
    }

    /// The points behind one more: a step at or before the tail moves the
    /// tail into a ghost and records a boundary.
    pub open spec fn pushed(self, point: PointStamp) -> PointsModel {
        let cut = kept(self.steps, point.step) as int;
        if cut < self.steps.len() {
            PointsModel {
                steps: self.steps.take(cut).push(point.step),
                walls: self.walls.take(cut).push(point.wall),
                values: self.values.take(cut).push(point.value),
                boundaries: self.boundaries.push(cut as usize),
                ghosts: self.ghosts.push(
                    GhostModel {
                        at: cut as usize,
                        steps: self.steps.skip(cut),
                        walls: self.walls.skip(cut),
                        values: self.values.skip(cut),
                    },
                ),
            }
        } else {
            PointsModel {
                steps: self.steps.push(point.step),
                walls: self.walls.push(point.wall),
                values: self.values.push(point.value),
                ..self
            }
        }
    }

    /// The points behind a sequence of them.
    pub open spec fn pushed_all(points: Seq<PointStamp>) -> PointsModel
        decreases points.len(),
    {
        if points.len() == 0 {
            PointsModel::start()
        } else {
            PointsModel::pushed_all(points.drop_last()).pushed(points.last())
        }
    }
}

/// What stays is before the step, and what goes is not.
pub proof fn lemma_kept(steps: Seq<i64>, step: i64)
    requires
        increasing(steps),
    ensures
        kept(steps, step) <= steps.len(),
        forall|i: int| 0 <= i < kept(steps, step) ==> steps[i] < step,
        forall|i: int| kept(steps, step) <= i < steps.len() ==> steps[i] >= step,
    decreases steps.len(),
{
    if steps.len() > 0 && steps.last() >= step {
        let init = steps.drop_last();
        lemma_kept(init, step);
        assert forall|i: int| kept(steps, step) <= i < steps.len() implies steps[i] >= step by {
            if i < init.len() {
                assert(init[i] == steps[i]);
            }
        }
        assert forall|i: int| 0 <= i < kept(steps, step) implies steps[i] < step by {
            assert(init[i] == steps[i]);
        }
    } else {
        assert forall|i: int| 0 <= i < steps.len() implies steps[i] < step by {
            if i < steps.len() - 1 {
                assert(steps[i] < steps[steps.len() - 1]);
            }
        }
    }
}

/// The place that splits increasing steps is the number kept.
proof fn lemma_kept_is(steps: Seq<i64>, step: i64, cut: int)
    requires
        increasing(steps),
        0 <= cut <= steps.len(),
        forall|i: int| 0 <= i < cut ==> steps[i] < step,
        forall|i: int| cut <= i < steps.len() ==> steps[i] >= step,
    ensures
        kept(steps, step) == cut,
{
    lemma_kept(steps, step);
    let k = kept(steps, step) as int;
    if k < cut {
        assert(steps[k] < step);
    } else if cut < k {
        assert(steps[cut] >= step);
    }
}

/// Where a point at `step` cuts increasing steps, by bisection.
pub fn partition_point(steps: &Vec<i64>, step: i64) -> (cut: usize)
    requires
        increasing(steps@),
    ensures
        cut == kept(steps@, step),
        cut <= steps.len(),
{
    let mut low: usize = 0;
    let mut high: usize = steps.len();
    while low < high
        invariant
            low <= high <= steps.len(),
            increasing(steps@),
            forall|i: int| 0 <= i < low ==> steps@[i] < step,
            forall|i: int| high <= i < steps@.len() ==> steps@[i] >= step,
        decreases high - low,
    {
        let middle: usize = low + (high - low) / 2;
        if steps[middle] < step {
            low = middle + 1;
        } else {
            high = middle;
        }
    }
    proof {
        lemma_kept_is(steps@, step, low as int);
    }
    low
}

impl Points {
    /// The columns are parallel and the steps go up.
    pub open spec fn wf(self) -> bool {
        self@.wf()
    }

    /// No points.
    pub fn new() -> (points: Points)
        ensures
            points@ == PointsModel::start(),
            points.wf(),
    {
        let points = Points {
            steps: Vec::new(),
            walls: Vec::new(),
            values: Vec::new(),
            boundaries: Vec::new(),
            ghosts: Vec::new(),
        };
        assert(points@.ghosts =~= Seq::<GhostModel>::empty());
        points
    }

    /// Appends one point, applying preemption: a step at or before the tail
    /// truncates the tail into a [`GhostTail`] and records a boundary.
    pub fn push(&mut self, point: PointStamp)
        requires
            old(self).wf(),
        ensures
            final(self)@ == old(self)@.pushed(point),
            final(self).wf(),
    {
        proof {
            lemma_pushed_wf(self@, point);
        }
        let ghost before = self@;
        let cut: usize = partition_point(&self.steps, point.step);
        if cut < self.steps.len() {
            let steps = self.steps.split_off(cut);
            let walls = self.walls.split_off(cut);
            let values = self.values.split_off(cut);
            let tail = GhostTail { at: cut, steps, walls, values };
            proof {
                assert(tail.steps@ =~= before.steps.skip(cut as int));
                assert(tail.walls@ =~= before.walls.skip(cut as int));
                assert(tail.values@ =~= before.values.skip(cut as int));
            }
            self.ghosts.push(tail);
            self.boundaries.push(cut);
            assert(ghosts_model(self.ghosts@) =~= before.ghosts.push(tail@));
        }
        self.steps.push(point.step);
        self.walls.push(point.wall);
        self.values.push(point.value);
        assert(self@ =~= before.pushed(point));
    }

    /// Number of live points.
    pub fn len(&self) -> (count: usize)
        ensures
            count == self@.steps.len(),
    {
        self.steps.len()
    }

    /// True when no live points exist.
    pub fn is_empty(&self) -> (empty: bool)
        ensures
            empty == (self@.steps.len() == 0),
    {
        self.steps.len() == 0
    }
}

/// Preemption keeps the live steps strictly increasing.
pub proof fn lemma_pushed_wf(points: PointsModel, point: PointStamp)
    requires
        points.wf(),
    ensures
        points.pushed(point).wf(),
{
    lemma_kept(points.steps, point.step);
    let after = points.pushed(point).steps;
    assert forall|i: int, j: int| 0 <= i < j < after.len() implies after[i] < after[j] by {
        assert(after[i] == points.steps[i]);
        if j < after.len() - 1 {
            assert(after[j] == points.steps[j]);
        }
    }
}

/// One histogram observation: normalized `(left, right, count)` buckets at
/// a step.
#[derive(PartialEq, Debug)]
pub struct HistogramSnapshot {
    /// Global step.
    pub step: i64,
    /// Seconds since the Unix epoch, the bits of a double.
    pub wall: u64,
    /// Contiguous buckets, left to right.
    pub buckets: Vec<Bucket>,
}

/// What a [`HistogramSnapshot`] holds.
#[verifier::ext_equal]
pub struct SnapshotModel {
    pub step: i64,
    pub wall: u64,
    pub buckets: Seq<Bucket>,
}

impl View for HistogramSnapshot {
    type V = SnapshotModel;

    open spec fn view(&self) -> SnapshotModel {
        SnapshotModel { step: self.step, wall: self.wall, buckets: self.buckets@ }
    }
}

/// Materialized histogram series: snapshots in step order, with restart
/// boundaries. Preempted tails are truncated (unlike scalar [`Points`], no
/// ghosts are kept — a re-read restores anything a view later wants).
#[derive(PartialEq, Debug)]
pub struct HistogramSeries {
    /// Snapshots, steps strictly increasing.
    pub snapshots: Vec<HistogramSnapshot>,
    /// Indices where a new restart segment begins.
    pub boundaries: Vec<usize>,
}

/// What a [`HistogramSeries`] holds.
#[verifier::ext_equal]
pub struct HistogramsModel {
    pub snapshots: Seq<SnapshotModel>,
    pub boundaries: Seq<usize>,
}

impl View for HistogramSeries {
    type V = HistogramsModel;

    open spec fn view(&self) -> HistogramsModel {
        HistogramsModel {
            snapshots: self.snapshots@.map_values(|snapshot: HistogramSnapshot| snapshot@),
            boundaries: self.boundaries@,
        }
    }
}

/// The steps of snapshots.
pub open spec fn snapshot_steps(snapshots: Seq<SnapshotModel>) -> Seq<i64> {
    snapshots.map_values(|snapshot: SnapshotModel| snapshot.step)
}

impl HistogramsModel {
    /// No snapshots.
    pub open spec fn start() -> HistogramsModel {
        HistogramsModel { snapshots: Seq::empty(), boundaries: Seq::empty() }
    }

    /// The steps go up.
    pub open spec fn wf(self) -> bool {
        increasing(snapshot_steps(self.snapshots))
    }

    /// The snapshots behind one more: a step at or before the tail drops the
    /// tail and records a boundary.
    pub open spec fn pushed(self, snapshot: SnapshotModel) -> HistogramsModel {
        let cut = kept(snapshot_steps(self.snapshots), snapshot.step) as int;
        if cut < self.snapshots.len() {
            HistogramsModel {
                snapshots: self.snapshots.take(cut).push(snapshot),
                boundaries: self.boundaries.push(cut as usize),
            }
        } else {
            HistogramsModel { snapshots: self.snapshots.push(snapshot), ..self }
        }
    }
}

/// Preemption keeps the steps of snapshots strictly increasing.
pub proof fn lemma_histograms_pushed_wf(series: HistogramsModel, snapshot: SnapshotModel)
    requires
        series.wf(),
    ensures
        series.pushed(snapshot).wf(),
{
    let steps = snapshot_steps(series.snapshots);
    lemma_kept(steps, snapshot.step);
    let after = snapshot_steps(series.pushed(snapshot).snapshots);
    assert forall|i: int, j: int| 0 <= i < j < after.len() implies after[i] < after[j] by {
        assert(after[i] == steps[i]);
        if j < after.len() - 1 {
            assert(after[j] == steps[j]);
        }
    }
}

impl HistogramSeries {
    /// The steps go up.
    pub open spec fn wf(self) -> bool {
        self@.wf()
    }

    /// No snapshots.
    pub fn new() -> (series: HistogramSeries)
        ensures
            series@ == HistogramsModel::start(),
            series.wf(),
    {
        let series = HistogramSeries { snapshots: Vec::new(), boundaries: Vec::new() };
        assert(series@.snapshots =~= Seq::<SnapshotModel>::empty());
        series
    }

    /// Appends one snapshot, applying step preemption.
    pub fn push(&mut self, snapshot: HistogramSnapshot)
        requires
            old(self).wf(),
        ensures
            final(self)@ == old(self)@.pushed(snapshot@),
            final(self).wf(),
    {
        let ghost before = self@;
        let ghost steps = snapshot_steps(self@.snapshots);
        proof {
            lemma_histograms_pushed_wf(self@, snapshot@);
        }
        let mut low: usize = 0;
        let mut high: usize = self.snapshots.len();
        while low < high
            invariant
                low <= high <= self.snapshots.len(),
                before == self@,
                steps == snapshot_steps(self@.snapshots),
                increasing(steps),
                forall|i: int| 0 <= i < low ==> steps[i] < snapshot.step,
                forall|i: int| high <= i < steps.len() ==> steps[i] >= snapshot.step,
            decreases high - low,
        {
            let middle: usize = low + (high - low) / 2;
            assert(steps[middle as int] == self.snapshots@[middle as int].step);
            if self.snapshots[middle].step < snapshot.step {
                low = middle + 1;
            } else {
                high = middle;
            }
        }
        proof {
            lemma_kept_is(steps, snapshot.step, low as int);
        }
        if low < self.snapshots.len() {
            self.snapshots.truncate(low);
            self.boundaries.push(low);
        }
        let ghost model = snapshot@;
        self.snapshots.push(snapshot);
        assert(self@.snapshots =~= before.pushed(model).snapshots);
        assert(self@ =~= before.pushed(model));
    }
}

impl<
    F: Fn(&str) -> Option<u64>,
    G: Fn(u64) -> u64,
    H: Fn(Moments, u64) -> Moments,
> Numeric<F, G, H> {
    /// A summary is an exact accumulator, never a sample: every point is
    /// counted once, the first and the last are kept, and a segment more
    /// opens exactly where a step did not go up.
    pub proof fn law_summary_counts_every_point(self, points: Seq<PointStamp>)
        requires
            points.len() <= u64::MAX,
        ensures
            total_count(self.observed_all(points)) == points.len(),
            points.len() > 0 ==> {
                let segments = self.observed_all(points);
                &&& segments.len() > 0
                &&& segments[0].first == points[0]
                &&& last_point(segments) == Some(points.last())
                &&& segments.len() == 1 + restarts(points)
            },
        decreases points.len(),
    {
        if points.len() > 0 {
            let init = points.drop_last();
            let point = points.last();
            let before = self.observed_all(init);
            let after = self.observed(before, point);
            self.law_summary_counts_every_point(init);
            if init.len() == 0 {
                assert(after.drop_last() =~= Seq::<SegmentSummary>::empty());
                reveal_with_fuel(total_count, 2);
            } else {
                let tail = before.last();
                let front = before.drop_last();
                lemma_total_count_grows(before, before.len() - 1);
                assert(before.take(before.len() - 1) =~= front);
                if preempts(before, point) {
                    let marked = SegmentSummary { preempted_at: Some(point.step), ..tail };
                    assert(after.drop_last() =~= front.push(marked));
                    assert(front.push(marked).drop_last() =~= front);
                    assert(total_count(front.push(marked)) == total_count(front) + tail.count);
                    assert(after.last().count == 1);
                } else {
                    assert(after.drop_last() =~= front);
                    assert(tail.count <= init.len());
                    assert(after.last().count == tail.count + 1);
                }
                assert(total_count(before) == total_count(front) + tail.count);
                assert(total_count(after) == total_count(after.drop_last()) + after.last().count);
                assert(init.last() == points[points.len() - 2]);
            }
        }
    }

    /// The moments of a segment count its finite values: the others are
    /// counted apart, and none is counted twice.
    pub proof fn law_moments_count_the_finite(self, points: Seq<PointStamp>)
        requires
            points.len() <= u64::MAX,
        ensures
            forall|i: int|
                0 <= i < self.observed_all(points).len() ==> {
                    let segment = #[trigger] self.observed_all(points)[i];
                    &&& segment.moments.count + segment.non_finite == segment.count
                    &&& segment.count <= points.len()
                },
        decreases points.len(),
    {
        if points.len() > 0 {
            let before = self.observed_all(points.drop_last());
            let after = self.observed(before, points.last());
            self.law_moments_count_the_finite(points.drop_last());
            assert forall|i: int| 0 <= i < after.len() implies {
                let segment = #[trigger] after[i];
                &&& segment.moments.count + segment.non_finite == segment.count
                &&& segment.count <= points.len()
            } by {
                if i < before.len() {
                    assert(before[i].count <= points.len() - 1);
                }
            }
        }
    }

    /// The extremes of a summary are real: they are values that were
    /// observed, and no finite value lies beyond them.
    pub proof fn law_summary_extremes_are_real(self, points: Seq<PointStamp>)
        ensures
            match total_min(self.observed_all(points)) {
                Some(min) => {
                    &&& finite(min)
                    &&& exists|i: int|
                        0 <= i < points.len() && (#[trigger] points[i]).value == min
                    &&& forall|i: int|
                        0 <= i < points.len() && finite((#[trigger] points[i]).value) ==> !below(
                            points[i].value,
                            min,
                        )
                },
                None => forall|i: int|
                    0 <= i < points.len() ==> !finite((#[trigger] points[i]).value),
            },
            match total_max(self.observed_all(points)) {
                Some(max) => {
                    &&& finite(max)
                    &&& exists|i: int|
                        0 <= i < points.len() && (#[trigger] points[i]).value == max
                    &&& forall|i: int|
                        0 <= i < points.len() && finite((#[trigger] points[i]).value) ==> !below(
                            max,
                            points[i].value,
                        )
                },
                None => forall|i: int|
                    0 <= i < points.len() ==> !finite((#[trigger] points[i]).value),
            },
        decreases points.len(),
    {
        if points.len() > 0 {
            let init = points.drop_last();
            let point = points.last();
            let before = self.observed_all(init);
            self.law_summary_extremes_are_real(init);
            self.lemma_observed_extremes(before, point);
            assert forall|i: int| 0 <= i < init.len() implies init[i] == points[i] by {}
            let low = total_min(before);
            let high = total_max(before);
            if let Some(min) = low {
                let k = choose|k: int| 0 <= k < init.len() && (#[trigger] init[k]).value == min;
                assert(points[k].value == min);
            }
            if let Some(max) = high {
                let k = choose|k: int| 0 <= k < init.len() && (#[trigger] init[k]).value == max;
                assert(points[k].value == max);
            }
            assert(points[points.len() - 1] == point);
            assert forall|i: int|
                0 <= i < points.len() && i != points.len() - 1 implies #[trigger] points[i]
                == init[i] by {}
        }
    }

    /// How one point moves the extremes.
    proof fn lemma_observed_extremes(self, segments: Seq<SegmentSummary>, point: PointStamp)
        requires
            total_min(segments) matches Some(m) ==> finite(m),
            total_max(segments) matches Some(m) ==> finite(m),
        ensures
            total_min(self.observed(segments, point)) == (if !finite(point.value) {
                total_min(segments)
            } else {
                match total_min(segments) {
                    Some(known) => Some(lower(known, point.value)),
                    None => Some(point.value),
                }
            }),
            total_max(self.observed(segments, point)) == (if !finite(point.value) {
                total_max(segments)
            } else {
                match total_max(segments) {
                    Some(known) => Some(upper(known, point.value)),
                    None => Some(point.value),
                }
            }),
    {
        let after = self.observed(segments, point);
        let fresh = self.grow(segment_start(point), point);
        if segments.len() == 0 {
            assert(after.drop_last() =~= segments);
        } else if preempts(segments, point) {
            let marked = SegmentSummary { preempted_at: Some(point.step), ..segments.last() };
            let front = segments.drop_last();
            assert(after.drop_last() =~= front.push(marked));
            assert(front.push(marked).drop_last() =~= front);
            assert(total_min(front.push(marked)) == total_min(segments));
            assert(total_max(front.push(marked)) == total_max(segments));
        } else {
            let front = segments.drop_last();
            assert(after.drop_last() =~= front);
        }
    }
}

/// How often a step did not go up: the restarts of a series.
pub open spec fn restarts(points: Seq<PointStamp>) -> nat
    decreases points.len(),
{
    if points.len() < 2 {
        0
    } else {
        restarts(points.drop_last()) + if points.last().step <= points[points.len() - 2].step {
            1nat
        } else {
            0
        }
    }
}

/// The points that ghosts hold.
pub open spec fn ghost_count(ghosts: Seq<GhostModel>) -> nat
    decreases ghosts.len(),
{
    if ghosts.len() == 0 {
        0
    } else {
        ghost_count(ghosts.drop_last()) + ghosts.last().steps.len()
    }
}

/// Truncated is not destroyed: every point that was pushed is live or in a
/// ghost, the live steps go up, the last point pushed is the live tail, and
/// there is one boundary and one ghost for each restart.
pub proof fn law_points_lose_nothing(points: Seq<PointStamp>)
    ensures
        PointsModel::pushed_all(points).wf(),
        PointsModel::pushed_all(points).steps.len() + ghost_count(
            PointsModel::pushed_all(points).ghosts,
        ) == points.len(),
        PointsModel::pushed_all(points).boundaries.len() == restarts(points),
        PointsModel::pushed_all(points).ghosts.len() == restarts(points),
        points.len() > 0 ==> {
            let live = PointsModel::pushed_all(points);
            &&& live.steps.len() > 0
            &&& live.steps.last() == points.last().step
            &&& live.walls.last() == points.last().wall
            &&& live.values.last() == points.last().value
        },
    decreases points.len(),
{
    if points.len() > 0 {
        let init = points.drop_last();
        let point = points.last();
        let before = PointsModel::pushed_all(init);
        law_points_lose_nothing(init);
        lemma_pushed_wf(before, point);
        lemma_kept(before.steps, point.step);
        let after = before.pushed(point);
        let cut = kept(before.steps, point.step) as int;
        if cut < before.steps.len() {
            assert(after.ghosts.drop_last() =~= before.ghosts);
            assert(before.steps.last() >= point.step);
        }
        if init.len() > 0 {
            assert(init.last() == points[points.len() - 2]);
            if point.step <= init.last().step {
                assert(before.steps[before.steps.len() - 1] == init.last().step);
            }
        }
    }
}

/// A live prefix survives a restart unchanged: the points before the step
/// that a restart resumes from stay where they were, and the ghost holds
/// exactly the ones behind them.
pub proof fn law_restart_keeps_the_prefix(points: PointsModel, point: PointStamp)
    requires
        points.wf(),
    ensures
        ({
            let cut = kept(points.steps, point.step) as int;
            let after = points.pushed(point);
            &&& after.steps.take(cut) == points.steps.take(cut)
            &&& after.values.take(cut) == points.values.take(cut)
            &&& after.walls.take(cut) == points.walls.take(cut)
            &&& cut < points.steps.len() ==> points.steps == points.steps.take(cut)
                + after.ghosts.last().steps && points.values == points.values.take(cut)
                + after.ghosts.last().values
        }),
{
    lemma_kept(points.steps, point.step);
    let cut = kept(points.steps, point.step) as int;
    let after = points.pushed(point);
    assert(after.steps.take(cut) =~= points.steps.take(cut));
    assert(after.values.take(cut) =~= points.values.take(cut));
    assert(after.walls.take(cut) =~= points.walls.take(cut));
    if cut < points.steps.len() {
        assert(points.steps =~= points.steps.take(cut) + after.ghosts.last().steps);
        assert(points.values =~= points.values.take(cut) + after.ghosts.last().values);
    }
}

} // verus!
