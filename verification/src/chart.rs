//! What a chart shows: which series, on which axis, over which columns.
use vstd::prelude::*;

use crate::arith::{Arith, Operation};
use crate::discover::{contains_text, within};
use crate::double::{below, finite, is_below, is_finite, SIGN, ZERO};
use crate::event::Bucket;
use crate::listing::{ascending, lemma_names_sorted, note_name, places, shown_runs, view_of};
use crate::mlflow::option_text;
use crate::names::{in_order, sorted, NameMap};
use crate::numeric::Wording;
use crate::predicate::lemma_resolved;
use crate::project::{option_points, sum_up, summed, Project, ProjectModel};
use crate::run::{first_resolving, resolves, token_conventions, Run, RunModel, Stamp};
use crate::series::{
    count_up, counted, ghosts_model, ghosts_parallel, kept, lower, lower_of, partition_point,
    upper, upper_of, GhostModel, GhostTail, HistogramSeries, Points, PointsModel, SeriesClass,
    SnapshotModel,
};
use crate::text::{push_text, texts};
use crate::warm::runs_wf;

verus! {

/// Which column drives the x axis.
#[derive(Clone, Copy, PartialEq, Eq, Structural, Debug)]
pub enum XAxis {
    /// Global step.
    Step,
    /// Wall-clock seconds since the epoch.
    Wall,
    /// Wall-clock seconds since each series' first point.
    Relative,
    /// Consumed tokens, mapped through each run's token-counter series
    /// (steps between counter points interpolate linearly; points outside
    /// its coverage are dropped and counted, never guessed).
    Tokens,
}

/// More series than this and the chart is soup; the title says what was cut.
pub const MAX_SERIES: usize = 16;

/// How a chart is shaped.
pub struct ChartOptions {
    /// Which column drives the x axis.
    pub x_axis: XAxis,
    /// The smoothing factor in `[0, 1)`: a smoothed line over the faded raw
    /// one — smoothing is a labeled overlay, never a replacement.
    pub smooth: Option<u64>,
    /// Only runs that this lets through.
    pub runs_filter: Option<String>,
    /// Log-10 y axis (values at or below zero become gaps, honestly).
    pub log_y: bool,
    /// Draw preempted ghost tails as faded lines.
    pub show_ghosts: bool,
    /// The token counter's tag; `None` tries the conventional names.
    pub tokens_tag: Option<String>,
}

/// What chart options hold.
pub struct OptionsModel {
    pub x_axis: XAxis,
    pub smooth: Option<u64>,
    pub runs_filter: Option<Seq<char>>,
    pub log_y: bool,
    pub show_ghosts: bool,
    pub tokens_tag: Option<Seq<char>>,
}

impl View for ChartOptions {
    type V = OptionsModel;

    open spec fn view(&self) -> OptionsModel {
        OptionsModel {
            x_axis: self.x_axis,
            smooth: self.smooth,
            runs_filter: option_text(self.runs_filter),
            log_y: self.log_y,
            show_ghosts: self.show_ghosts,
            tokens_tag: option_text(self.tokens_tag),
        }
    }
}

/// Two parallel columns.
pub struct Trace {
    /// The x positions.
    pub xs: Vec<u64>,
    /// The values there.
    pub ys: Vec<u64>,
}

/// What two parallel columns hold.
#[verifier::ext_equal]
pub struct TraceModel {
    pub xs: Seq<u64>,
    pub ys: Seq<u64>,
}

impl View for Trace {
    type V = TraceModel;

    open spec fn view(&self) -> TraceModel {
        TraceModel { xs: self.xs@, ys: self.ys@ }
    }
}

/// What a list of column pairs holds.
pub open spec fn traces_model(traces: Seq<Trace>) -> Seq<TraceModel> {
    traces.map_values(|trace: Trace| trace@)
}

/// One drawn series: its label, its columns, and the ghost tails that are
/// drawn faded.
pub struct ChartSeries {
    /// What the legend says.
    pub label: String,
    /// The live columns.
    pub line: Trace,
    /// The ghost tails.
    pub ghosts: Vec<Trace>,
}

/// What a drawn series holds.
#[verifier::ext_equal]
pub struct ChartSeriesModel {
    pub label: Seq<char>,
    pub line: TraceModel,
    pub ghosts: Seq<TraceModel>,
}

impl View for ChartSeries {
    type V = ChartSeriesModel;

    open spec fn view(&self) -> ChartSeriesModel {
        ChartSeriesModel {
            label: self.label@,
            line: self.line@,
            ghosts: traces_model(self.ghosts@),
        }
    }
}

/// What a list of drawn series holds.
pub open spec fn lines_model(list: Seq<ChartSeries>) -> Seq<ChartSeriesModel> {
    list.map_values(|series: ChartSeries| series@)
}

/// The data of one chart: the series drawn, the restart boundaries drawn as
/// vertical rules, and what had to be left out.
pub struct ChartData {
    /// The drawn series.
    pub series: Vec<ChartSeries>,
    /// X positions where a restart segment begins, across the drawn series,
    /// each once, in the order of their bits.
    pub boundaries: Vec<u64>,
    /// Whether the x axis is wall-clock time.
    pub time_x: bool,
    /// Whether the y axis is logarithmic.
    pub log_y: bool,
    /// The smoothing factor, where the lines are smoothed.
    pub smooth: Option<u64>,
    /// Series beyond [`MAX_SERIES`], counted rather than silently dropped.
    pub cut: usize,
    /// Runs contributing to the chart.
    pub run_count: usize,
    /// Points dropped by the tokens axis for lack of counter coverage.
    pub tokens_dropped: u64,
    /// Runs skipped by the tokens axis for lack of a counter.
    pub runs_without_counter: usize,
}

/// What the data of a chart holds.
#[verifier::ext_equal]
pub struct ChartModel {
    pub series: Seq<ChartSeriesModel>,
    pub boundaries: Seq<u64>,
    pub time_x: bool,
    pub log_y: bool,
    pub smooth: Option<u64>,
    pub cut: usize,
    pub run_count: usize,
    pub tokens_dropped: u64,
    pub runs_without_counter: usize,
}

impl View for ChartData {
    type V = ChartModel;

    open spec fn view(&self) -> ChartModel {
        ChartModel {
            series: lines_model(self.series@),
            boundaries: self.boundaries@,
            time_x: self.time_x,
            log_y: self.log_y,
            smooth: self.smooth,
            cut: self.cut,
            run_count: self.run_count,
            tokens_dropped: self.tokens_dropped,
            runs_without_counter: self.runs_without_counter,
        }
    }
}

impl ChartModel {
    /// A chart without series.
    pub open spec fn start(options: OptionsModel) -> ChartModel {
        ChartModel {
            series: Seq::empty(),
            boundaries: Seq::empty(),
            time_x: options.x_axis == XAxis::Wall,
            log_y: options.log_y,
            smooth: options.smooth,
            cut: 0,
            run_count: 0,
            tokens_dropped: 0,
            runs_without_counter: 0,
        }
    }
}

/// An ascending list with one more number in it, once.
pub open spec fn noted(list: Seq<u64>, x: u64) -> Seq<u64>
    decreases list.len(),
{
    if list.len() == 0 || list.last() < x {
        list.push(x)
    } else if list.last() == x {
        list
    } else {
        noted(list.drop_last(), x).push(list.last())
    }
}

/// Numbers that go up, each once.
pub open spec fn ascending_bits(list: Seq<u64>) -> bool {
    forall|i: int, j: int| 0 <= i < j < list.len() ==> list[i] < list[j]
}

/// Noting keeps the order, and puts in that number and no other.
pub proof fn law_noted_is_a_set(list: Seq<u64>, x: u64)
    requires
        ascending_bits(list),
    ensures
        ascending_bits(noted(list, x)),
        forall|y: u64| #[trigger] noted(list, x).contains(y) <==> list.contains(y) || y == x,
    decreases list.len(),
{
    let all = noted(list, x);
    if list.len() == 0 || list.last() < x {
        assert(all[all.len() - 1] == x);
        assert forall|y: u64| #[trigger] all.contains(y) <==> list.contains(y) || y == x by {
            if list.contains(y) {
                let i = choose|i: int| 0 <= i < list.len() && list[i] == y;
                assert(all[i] == y);
            }
        }
    } else if list.last() == x {
        assert(list[list.len() - 1] == x);
    } else {
        let front = list.drop_last();
        law_noted_is_a_set(front, x);
        let rest = noted(front, x);
        assert forall|i: int, j: int| 0 <= i < j < all.len() implies all[i] < all[j] by {
            if j == all.len() - 1 {
                assert(rest.contains(rest[i]));
                if front.contains(rest[i]) {
                    let k = choose|k: int| 0 <= k < front.len() && front[k] == rest[i];
                    assert(list[k] < list[list.len() - 1]);
                }
            }
        }
        assert forall|y: u64| #[trigger] all.contains(y) <==> list.contains(y) || y == x by {
            if all.contains(y) {
                let i = choose|i: int| 0 <= i < all.len() && all[i] == y;
                if i < rest.len() {
                    assert(rest.contains(y));
                    if front.contains(y) {
                        let k = choose|k: int| 0 <= k < front.len() && front[k] == y;
                        assert(list[k] == y);
                    }
                } else {
                    assert(list[list.len() - 1] == y);
                }
            }
            if list.contains(y) || y == x {
                if y == list.last() {
                    assert(all[all.len() - 1] == y);
                } else {
                    if list.contains(y) {
                        let k = choose|k: int| 0 <= k < list.len() && list[k] == y;
                        assert(front[k] == y);
                    }
                    assert(rest.contains(y));
                    let i = choose|i: int| 0 <= i < rest.len() && rest[i] == y;
                    assert(all[i] == y);
                }
            }
        }
    }
}

/// What is noted behind a tail of greater numbers stands before the tail.
proof fn lemma_noted(list: Seq<u64>, x: u64, at: int)
    requires
        0 <= at <= list.len(),
        forall|i: int| at <= i < list.len() ==> #[trigger] list[i] > x,
        at > 0 ==> list[at - 1] <= x,
    ensures
        noted(list, x) == (if at > 0 && list[at - 1] == x {
            list
        } else {
            list.insert(at, x)
        }),
    decreases list.len(),
{
    if at < list.len() {
        let front = list.drop_last();
        assert(list[list.len() - 1] > x);
        lemma_noted(front, x, at);
        if at > 0 && list[at - 1] == x {
            assert(front.push(list.last()) =~= list);
        } else {
            assert(front.insert(at, x).push(list.last()) =~= list.insert(at, x));
        }
    } else if at > 0 && list[at - 1] == x {
    } else {
        assert(list.insert(at, x) =~= list.push(x));
    }
}

/// Puts a number into an ascending list, once.
fn note_bits(list: &mut Vec<u64>, x: u64)
    ensures
        final(list)@ == noted(old(list)@, x),
{
    let mut at: usize = list.len();
    while at > 0 && list[at - 1] > x
        invariant
            at <= list@.len(),
            forall|i: int| at <= i < list@.len() ==> #[trigger] list@[i] > x,
        decreases at,
    {
        at -= 1;
    }
    proof {
        lemma_noted(list@, x, at as int);
    }
    if at > 0 && list[at - 1] == x {
        return ;
    }
    list.insert(at, x);
}

impl<O: Fn(Operation, u64, u64) -> u64, I: Fn(i64) -> u64> Arith<O, I> {
    /// The value at a step on the line between two points.
    pub open spec fn interpolated(
        self,
        step_before: i64,
        before: u64,
        step_after: i64,
        after: u64,
        step: i64,
    ) -> u64 {
        self.sum(
            before,
            self.quotient(
                self.product(
                    self.difference(after, before),
                    self.difference(self.number(step), self.number(step_before)),
                ),
                self.difference(self.number(step_after), self.number(step_before)),
            ),
        )
    }

    /// The token count at a step: exact where the counter logged that step,
    /// interpolated between neighbors, and nothing outside its coverage —
    /// never extrapolated.
    pub open spec fn tokens_at(self, counter: PointsModel, step: i64) -> Option<u64> {
        let at = kept(counter.steps, step) as int;
        let values = counter.values;
        if at < counter.steps.len() && counter.steps[at] == step {
            if finite(values[at]) {
                Some(values[at])
            } else {
                None
            }
        } else if at == 0 || at == counter.steps.len() {
            None
        } else if finite(values[at - 1]) && finite(values[at]) {
            Some(
                self.interpolated(
                    counter.steps[at - 1],
                    values[at - 1],
                    counter.steps[at],
                    values[at],
                    step,
                ),
            )
        } else {
            None
        }
    }

    /// The token count at a step.
    pub fn tokens_for(&self, counter: &Points, step: i64) -> (tokens: Option<u64>)
        requires
            self.ok(),
            counter.wf(),
        ensures
            tokens == self.tokens_at(counter@, step),
    {
        let at: usize = partition_point(&counter.steps, step);
        let len: usize = counter.steps.len();
        if at < len && counter.steps[at] == step {
            let value: u64 = counter.values[at];
            return if is_finite(value) {
                Some(value)
            } else {
                None
            };
        }
        if at == 0 || at == len {
            return None;
        }
        let before: u64 = counter.values[at - 1];
        let after: u64 = counter.values[at];
        if !is_finite(before) || !is_finite(after) {
            return None;
        }
        let first: u64 = self.from_whole(counter.steps[at - 1]);
        let rise: u64 = self.times(
            self.minus(after, before),
            self.minus(self.from_whole(step), first),
        );
        Some(
            self.plus(
                before,
                self.over(rise, self.minus(self.from_whole(counter.steps[at]), first)),
            ),
        )
    }

    /// Where a point stands on the x axis; nowhere outside the coverage of
    /// the token counter.
    pub open spec fn x_of(
        self,
        axis: XAxis,
        first_wall: u64,
        counter: Option<PointsModel>,
        step: i64,
        wall: u64,
    ) -> Option<u64> {
        match axis {
            XAxis::Step => Some(self.number(step)),
            XAxis::Wall => Some(wall),
            XAxis::Relative => Some(self.difference(wall, first_wall)),
            XAxis::Tokens => match counter {
                Some(counter) => self.tokens_at(counter, step),
                None => None,
            },
        }
    }

    fn place(
        &self,
        axis: XAxis,
        first_wall: u64,
        counter: Option<&Points>,
        step: i64,
        wall: u64,
    ) -> (x: Option<u64>)
        requires
            self.ok(),
            counter matches Some(c) ==> c.wf(),
        ensures
            x == self.x_of(axis, first_wall, option_points(counter), step, wall),
    {
        match axis {
            XAxis::Step => Some(self.from_whole(step)),
            XAxis::Wall => Some(wall),
            XAxis::Relative => Some(self.minus(wall, first_wall)),
            XAxis::Tokens => match counter {
                Some(counter) => self.tokens_for(counter, step),
                None => None,
            },
        }
    }

    /// The columns of the first `n` points: those that stand on the x axis.
    pub open spec fn columns(
        self,
        axis: XAxis,
        first_wall: u64,
        counter: Option<PointsModel>,
        steps: Seq<i64>,
        walls: Seq<u64>,
        values: Seq<u64>,
        n: nat,
    ) -> TraceModel
        decreases n,
    {
        if n == 0 {
            TraceModel { xs: Seq::empty(), ys: Seq::empty() }
        } else {
            let before = self.columns(axis, first_wall, counter, steps, walls, values, (n - 1) as nat);
            match self.x_of(axis, first_wall, counter, steps[n - 1], walls[n - 1]) {
                Some(x) => TraceModel {
                    xs: before.xs.push(x),
                    ys: before.ys.push(values[n - 1]),
                },
                None => before,
            }
        }
    }

    /// How many of the first `n` points do not stand on the x axis.
    pub open spec fn unplaced(
        self,
        axis: XAxis,
        first_wall: u64,
        counter: Option<PointsModel>,
        steps: Seq<i64>,
        walls: Seq<u64>,
        n: nat,
    ) -> u64
        decreases n,
    {
        if n == 0 {
            0
        } else {
            let before = self.unplaced(axis, first_wall, counter, steps, walls, (n - 1) as nat);
            match self.x_of(axis, first_wall, counter, steps[n - 1], walls[n - 1]) {
                Some(_) => before,
                None => counted(before),
            }
        }
    }

    fn trace(
        &self,
        axis: XAxis,
        first_wall: u64,
        counter: Option<&Points>,
        steps: &Vec<i64>,
        walls: &Vec<u64>,
        values: &Vec<u64>,
    ) -> (out: (Trace, u64))
        requires
            self.ok(),
            counter matches Some(c) ==> c.wf(),
            walls@.len() == steps@.len(),
            values@.len() == steps@.len(),
        ensures
            out.0@ == self.columns(
                axis,
                first_wall,
                option_points(counter),
                steps@,
                walls@,
                values@,
                steps@.len(),
            ),
            out.1 == self.unplaced(
                axis,
                first_wall,
                option_points(counter),
                steps@,
                walls@,
                steps@.len(),
            ),
            out.0.xs@.len() == out.0.ys@.len(),
    {
        let mut xs: Vec<u64> = Vec::new();
        let mut ys: Vec<u64> = Vec::new();
        let mut dropped: u64 = 0;
        let ghost known = option_points(counter);
        let mut i: usize = 0;
        while i < steps.len()
            invariant
                i <= steps@.len(),
                self.ok(),
                counter matches Some(c) ==> c.wf(),
                known == option_points(counter),
                walls@.len() == steps@.len(),
                values@.len() == steps@.len(),
                xs@.len() == ys@.len(),
                xs@ == self.columns(axis, first_wall, known, steps@, walls@, values@, i as nat).xs,
                ys@ == self.columns(axis, first_wall, known, steps@, walls@, values@, i as nat).ys,
                dropped == self.unplaced(axis, first_wall, known, steps@, walls@, i as nat),
            decreases steps@.len() - i,
        {
            match self.place(axis, first_wall, counter, steps[i], walls[i]) {
                Some(x) => {
                    xs.push(x);
                    ys.push(values[i]);
                },
                None => {
                    dropped = count_up(dropped);
                },
            }
            i += 1;
        }
        (Trace { xs, ys }, dropped)
    }

    /// The columns of the ghost tails that have a point on the x axis.
    pub open spec fn ghost_columns(
        self,
        axis: XAxis,
        first_wall: u64,
        counter: Option<PointsModel>,
        ghosts: Seq<GhostModel>,
    ) -> Seq<TraceModel>
        decreases ghosts.len(),
    {
        if ghosts.len() == 0 {
            Seq::empty()
        } else {
            let before = self.ghost_columns(axis, first_wall, counter, ghosts.drop_last());
            let tail = ghosts.last();
            let trace = self.columns(
                axis,
                first_wall,
                counter,
                tail.steps,
                tail.walls,
                tail.values,
                tail.steps.len(),
            );
            if trace.xs.len() > 0 {
                before.push(trace)
            } else {
                before
            }
        }
    }

    /// How many points of the ghost tails do not stand on the x axis.
    pub open spec fn ghosts_unplaced(
        self,
        axis: XAxis,
        first_wall: u64,
        counter: Option<PointsModel>,
        ghosts: Seq<GhostModel>,
    ) -> u64
        decreases ghosts.len(),
    {
        if ghosts.len() == 0 {
            0
        } else {
            summed(
                self.ghosts_unplaced(axis, first_wall, counter, ghosts.drop_last()),
                self.unplaced(
                    axis,
                    first_wall,
                    counter,
                    ghosts.last().steps,
                    ghosts.last().walls,
                    ghosts.last().steps.len(),
                ),
            )
        }
    }

    fn trace_ghosts(
        &self,
        axis: XAxis,
        first_wall: u64,
        counter: Option<&Points>,
        ghosts: &Vec<GhostTail>,
    ) -> (out: (Vec<Trace>, u64))
        requires
            self.ok(),
            counter matches Some(c) ==> c.wf(),
            ghosts_parallel(ghosts_model(ghosts@)),
        ensures
            traces_model(out.0@) == self.ghost_columns(
                axis,
                first_wall,
                option_points(counter),
                ghosts_model(ghosts@),
            ),
            out.1 == self.ghosts_unplaced(
                axis,
                first_wall,
                option_points(counter),
                ghosts_model(ghosts@),
            ),
    {
        let ghost all = ghosts_model(ghosts@);
        let ghost known = option_points(counter);
        let mut traces: Vec<Trace> = Vec::new();
        let mut dropped: u64 = 0;
        let mut i: usize = 0;
        assert(traces_model(traces@) =~= Seq::<TraceModel>::empty());
        assert(all.take(0) =~= Seq::<GhostModel>::empty());
        while i < ghosts.len()
            invariant
                i <= ghosts@.len(),
                all == ghosts_model(ghosts@),
                known == option_points(counter),
                self.ok(),
                counter matches Some(c) ==> c.wf(),
                ghosts_parallel(all),
                traces_model(traces@) == self.ghost_columns(
                    axis,
                    first_wall,
                    known,
                    all.take(i as int),
                ),
                dropped == self.ghosts_unplaced(axis, first_wall, known, all.take(i as int)),
            decreases ghosts@.len() - i,
        {
            assert(all.take(i + 1).drop_last() =~= all.take(i as int));
            assert(all[i as int] == ghosts@[i as int]@);
            let tail = &ghosts[i];
            let (trace, lost) = self.trace(
                axis,
                first_wall,
                counter,
                &tail.steps,
                &tail.walls,
                &tail.values,
            );
            dropped = sum_up(dropped, lost);
            if trace.xs.len() > 0 {
                let ghost before = traces@;
                let ghost last = trace@;
                traces.push(trace);
                assert(traces_model(traces@) =~= traces_model(before).push(last));
            }
            i += 1;
        }
        assert(all.take(all.len() as int) =~= all);
        (traces, dropped)
    }

    /// The x positions of the first `n` restarts, noted in a list. A
    /// restart whose first point is gone has none.
    pub open spec fn restarts_noted(
        self,
        axis: XAxis,
        counter: Option<PointsModel>,
        points: PointsModel,
        list: Seq<u64>,
        n: nat,
    ) -> Seq<u64>
        decreases n,
    {
        if n == 0 {
            list
        } else {
            let before = self.restarts_noted(axis, counter, points, list, (n - 1) as nat);
            let at = points.boundaries[n - 1] as int;
            if at < points.steps.len() {
                match self.x_of(axis, points.walls[0], counter, points.steps[at], points.walls[at]) {
                    Some(x) => noted(before, x),
                    None => before,
                }
            } else {
                before
            }
        }
    }

    /// A chart with one more series: its points as columns, its restarts as
    /// boundaries, and the points counted that the tokens axis dropped.
    pub open spec fn with_series(
        self,
        chart: ChartModel,
        points: PointsModel,
        counter: Option<PointsModel>,
        label: Seq<char>,
        options: OptionsModel,
    ) -> ChartModel {
        if points.steps.len() == 0 {
            chart
        } else {
            let axis = options.x_axis;
            let first = points.walls[0];
            let n = points.steps.len();
            let line = self.columns(
                axis,
                first,
                counter,
                points.steps,
                points.walls,
                points.values,
                n,
            );
            let lost = self.unplaced(axis, first, counter, points.steps, points.walls, n);
            let ghosts = if options.show_ghosts {
                self.ghost_columns(axis, first, counter, points.ghosts)
            } else {
                Seq::empty()
            };
            let lost = if options.show_ghosts {
                summed(lost, self.ghosts_unplaced(axis, first, counter, points.ghosts))
            } else {
                lost
            };
            let counted = ChartModel { tokens_dropped: summed(chart.tokens_dropped, lost), ..chart };
            if line.xs.len() == 0 {
                counted
            } else {
                ChartModel {
                    series: chart.series.push(ChartSeriesModel { label, line, ghosts }),
                    boundaries: self.restarts_noted(
                        axis,
                        counter,
                        points,
                        chart.boundaries,
                        points.boundaries.len(),
                    ),
                    ..counted
                }
            }
        }
    }

    fn note_restarts(
        &self,
        axis: XAxis,
        counter: Option<&Points>,
        points: &Points,
        list: &mut Vec<u64>,
    )
        requires
            self.ok(),
            points.wf(),
            points@.steps.len() > 0,
            counter matches Some(c) ==> c.wf(),
        ensures
            final(list)@ == self.restarts_noted(
                axis,
                option_points(counter),
                points@,
                old(list)@,
                points@.boundaries.len(),
            ),
    {
        let ghost start = list@;
        let mut i: usize = 0;
        while i < points.boundaries.len()
            invariant
                i <= points.boundaries@.len(),
                self.ok(),
                points.wf(),
                points@.steps.len() > 0,
                counter matches Some(c) ==> c.wf(),
                list@ == self.restarts_noted(
                    axis,
                    option_points(counter),
                    points@,
                    start,
                    i as nat,
                ),
            decreases points.boundaries@.len() - i,
        {
            let at: usize = points.boundaries[i];
            if at < points.steps.len() {
                if let Some(x) = self.place(
                    axis,
                    points.walls[0],
                    counter,
                    points.steps[at],
                    points.walls[at],
                ) {
                    note_bits(list, x);
                }
            }
            i += 1;
        }
    }

    /// Adds one series to a chart.
    pub fn push_series(
        &self,
        chart: &mut ChartData,
        points: &Points,
        counter: Option<&Points>,
        label: String,
        options: &ChartOptions,
    )
        requires
            self.ok(),
            points.wf(),
            counter matches Some(c) ==> c.wf(),
        ensures
            final(chart)@ == self.with_series(
                old(chart)@,
                points@,
                option_points(counter),
                label@,
                options@,
            ),
            old(chart).wf() ==> final(chart).wf(),
    {
        if points.is_empty() {
            return ;
        }
        let ghost before = chart@;
        let ghost known = option_points(counter);
        let ghost name = label@;
        let axis = options.x_axis;
        let first: u64 = points.walls[0];
        let (line, lost) = self.trace(
            axis,
            first,
            counter,
            &points.steps,
            &points.walls,
            &points.values,
        );
        let (ghosts, lost) = if options.show_ghosts {
            let (ghosts, more) = self.trace_ghosts(axis, first, counter, &points.ghosts);
            (ghosts, sum_up(lost, more))
        } else {
            let none: Vec<Trace> = Vec::new();
            assert(traces_model(none@) =~= Seq::<TraceModel>::empty());
            (none, lost)
        };
        chart.tokens_dropped = sum_up(chart.tokens_dropped, lost);
        if line.xs.len() == 0 {
            return ;
        }
        self.note_restarts(axis, counter, points, &mut chart.boundaries);
        let series = ChartSeries { label, line, ghosts };
        let ghost list = chart.series@;
        let ghost last = series@;
        chart.series.push(series);
        assert(lines_model(chart.series@) =~= lines_model(list).push(last));
        assert(chart@ =~= self.with_series(before, points@, known, name, options@));
    }
}

/// A resolved token counter is one tag.
proof fn lemma_one_counter(
    names: Seq<Seq<char>>,
    wanted: Seq<Seq<char>>,
    a: Option<Seq<char>>,
    b: Option<Seq<char>>,
)
    requires
        in_order(names),
        first_resolving(names, wanted, a),
        first_resolving(names, wanted, b),
    ensures
        a == b,
{
    if let (Some(x), Some(y)) = (a, b) {
        let (k, at) = choose|k: int, at: usize|
            {
                &&& 0 <= k < wanted.len()
                &&& #[trigger] resolves(names, wanted[k], Some(at))
                &&& names[at as int] == x
                &&& forall|j: int| 0 <= j < k ==> resolves(names, #[trigger] wanted[j], None)
            };
        let (l, to) = choose|k: int, at: usize|
            {
                &&& 0 <= k < wanted.len()
                &&& #[trigger] resolves(names, wanted[k], Some(at))
                &&& names[at as int] == y
                &&& forall|j: int| 0 <= j < k ==> resolves(names, #[trigger] wanted[j], None)
            };
        if k < l {
            assert(resolves(names, wanted[k], None));
            lemma_resolved(names, wanted[k], Some(at));
            lemma_resolved(names, wanted[k], None);
        } else if l < k {
            assert(resolves(names, wanted[l], None));
            lemma_resolved(names, wanted[l], Some(to));
            lemma_resolved(names, wanted[l], None);
        } else {
            lemma_resolved(names, wanted[k], Some(at));
            lemma_resolved(names, wanted[k], Some(to));
        }
    } else if a is Some || b is Some {
        let found = if a is Some { a } else { b };
        let (k, at) = choose|k: int, at: usize|
            {
                &&& 0 <= k < wanted.len()
                &&& #[trigger] resolves(names, wanted[k], Some(at))
                &&& names[at as int] == found->0
                &&& forall|j: int| 0 <= j < k ==> resolves(names, #[trigger] wanted[j], None)
            };
        assert(resolves(names, wanted[k], None));
        lemma_resolved(names, wanted[k], Some(at));
        lemma_resolved(names, wanted[k], None);
    }
}

/// The names that a run's token counter is looked for under.
pub open spec fn counter_names(tokens_tag: Option<Seq<char>>) -> Seq<Seq<char>> {
    match tokens_tag {
        Some(tag) => seq![tag],
        None => token_conventions(),
    }
}

/// The tag of a run's token counter.
pub open spec fn counter_of(run: RunModel, tokens_tag: Option<Seq<char>>) -> Option<Seq<char>> {
    choose|found: Option<Seq<char>>|
        first_resolving(sorted(run.series.dom()), counter_names(tokens_tag), found)
}

/// The tag of the token counter of a run in a catalog.
pub open spec fn counter_in(
    runs: Map<Seq<char>, RunModel>,
    run: Seq<char>,
    tokens_tag: Option<Seq<char>>,
) -> Option<Seq<char>> {
    if runs.dom().contains(run) {
        counter_of(runs[run], tokens_tag)
    } else {
        None
    }
}

/// Finds the tag of the token counter of a run in a catalog.
pub fn find_counter(runs: &NameMap<Run>, run: &str, tokens_tag: Option<&str>) -> (tag: Option<String>)
    requires
        runs_wf(*runs),
    ensures
        option_text(tag) == counter_in(runs.model(), run@, view_of(tokens_tag)),
{
    proof {
        runs.lemma_model_has(run@);
    }
    match runs.get(run) {
        None => None,
        Some(found) => {
            proof {
                runs.lemma_index(runs.index_of(run@));
                assert(found.wf());
                found.series.lemma_model_names();
            }
            let tag = found.token_counter(tokens_tag);
            proof {
                let names = sorted(found@.series.dom());
                let wanted = counter_names(view_of(tokens_tag));
                let chosen = counter_of(found@, view_of(tokens_tag));
                assert(first_resolving(names, wanted, option_text(tag)));
                assert(first_resolving(names, wanted, chosen));
                lemma_one_counter(names, wanted, option_text(tag), chosen);
            }
            tag
        },
    }
}

/// The points of a series, where they are held.
pub open spec fn held(project: ProjectModel, run: Seq<char>, tag: Seq<char>) -> Option<PointsModel> {
    if project.points.dom().contains((run, tag)) {
        Some(project.points[(run, tag)].0)
    } else {
        None
    }
}

/// The points of a run's token counter, where they are held.
pub open spec fn held_counter(
    project: ProjectModel,
    run: Seq<char>,
    tokens_tag: Option<Seq<char>>,
) -> Option<PointsModel> {
    match counter_in(project.runs, run, tokens_tag) {
        Some(tag) => held(project, run, tag),
        None => None,
    }
}

fn find_held_counter<'a>(project: &'a Project, run: &str, tokens_tag: Option<&str>) -> (points: Option<
    &'a Points,
>)
    requires
        project.wf(),
    ensures
        option_points(points) == held_counter(project@, run@, view_of(tokens_tag)),
        points matches Some(p) ==> p.wf(),
{
    match find_counter(project.runs(), run, tokens_tag) {
        Some(tag) => project.points(run, &tag),
        None => None,
    }
}

/// The tags of the first `n` series of a run that are scalar and hold a text.
pub open spec fn matching_tags(run: Run, filter: Seq<char>, n: nat) -> Seq<Seq<char>>
    decreases n,
{
    if n == 0 {
        Seq::empty()
    } else {
        let before = matching_tags(run, filter, (n - 1) as nat);
        let tag = run.series.names()[n - 1];
        if run.series.values()[n - 1].class == SeriesClass::Scalar && within(tag, filter) {
            before.push(tag)
        } else {
            before
        }
    }
}

/// The scalar series of some runs whose tags hold a text, as run and tag.
pub open spec fn matching(runs: NameMap<Run>, shown: Seq<int>, filter: Seq<char>) -> Seq<
    (Seq<char>, Seq<char>),
>
    decreases shown.len(),
{
    if shown.len() == 0 {
        Seq::empty()
    } else {
        let run = runs.values()[shown.last()];
        let name = runs.names()[shown.last()];
        matching(runs, shown.drop_last(), filter) + matching_tags(
            run,
            filter,
            run.series.names().len(),
        ).map_values(|tag: Seq<char>| (name, tag))
    }
}

/// One series that a chart asks for.
pub struct Wanted {
    /// The run's name.
    pub run: String,
    /// The series' tag.
    pub tag: String,
}

impl View for Wanted {
    type V = (Seq<char>, Seq<char>);

    open spec fn view(&self) -> (Seq<char>, Seq<char>) {
        (self.run@, self.tag@)
    }
}

/// What a list of wanted series holds.
pub open spec fn wanted_model(list: Seq<Wanted>) -> Seq<(Seq<char>, Seq<char>)> {
    list.map_values(|wanted: Wanted| wanted@)
}

fn match_run(list: &mut Vec<Wanted>, name: &String, run: &Run, filter: &str)
    requires
        run.wf(),
    ensures
        wanted_model(final(list)@) == wanted_model(old(list)@) + matching_tags(
            *run,
            filter@,
            run.series.names().len(),
        ).map_values(|tag: Seq<char>| (name@, tag)),
{
    let ghost before = wanted_model(list@);
    let ghost pair = |tag: Seq<char>| (name@, tag);
    let mut i: usize = 0;
    assert(wanted_model(list@) =~= before + Seq::<Seq<char>>::empty().map_values(pair));
    while i < run.series.len()
        invariant
            i <= run.series.names().len(),
            run.wf(),
            pair == (|tag: Seq<char>| (name@, tag)),
            wanted_model(list@) == before + matching_tags(*run, filter@, i as nat).map_values(pair),
        decreases run.series.names().len() - i,
    {
        let scalar = run.series.value_at(i).class == SeriesClass::Scalar;
        if scalar && contains_text(run.series.name_at(i), filter) {
            let wanted = Wanted { run: name.clone(), tag: run.series.name_at(i).clone() };
            let ghost so_far = list@;
            let ghost last = wanted@;
            list.push(wanted);
            assert(wanted_model(list@) =~= wanted_model(so_far).push(last));
            assert(matching_tags(*run, filter@, (i + 1) as nat).map_values(pair) =~= matching_tags(
                *run,
                filter@,
                i as nat,
            ).map_values(pair).push(last));
            assert(wanted_model(list@) =~= before + matching_tags(
                *run,
                filter@,
                (i + 1) as nat,
            ).map_values(pair));
        }
        i += 1;
    }
}

/// The names of the runs that a list of series is of.
pub open spec fn runs_of(list: Seq<(Seq<char>, Seq<char>)>) -> Set<Seq<char>> {
    Set::new(|name: Seq<char>| exists|k: int| 0 <= k < list.len() && (#[trigger] list[k]).0 == name)
}

/// The first series of a list, as many as a chart takes.
pub open spec fn front<T>(list: Seq<T>) -> Seq<T> {
    if list.len() > MAX_SERIES {
        list.take(MAX_SERIES as int)
    } else {
        list
    }
}

/// How many of a list a chart does not take.
pub open spec fn beyond(n: nat) -> usize {
    if n > MAX_SERIES {
        (n - MAX_SERIES) as usize
    } else {
        0
    }
}

/// The series that a chart over a tag filter draws: which ones, how many
/// more there are, and how many runs they are of.
pub struct ChartPlan {
    /// The series, at most [`MAX_SERIES`].
    pub matches: Vec<Wanted>,
    /// How many more there are.
    pub cut: usize,
    /// How many runs the series are of.
    pub runs_matched: usize,
}

/// What a plan holds.
pub struct PlanModel {
    pub matches: Seq<(Seq<char>, Seq<char>)>,
    pub cut: usize,
    pub runs_matched: usize,
}

impl View for ChartPlan {
    type V = PlanModel;

    open spec fn view(&self) -> PlanModel {
        PlanModel {
            matches: wanted_model(self.matches@),
            cut: self.cut,
            runs_matched: self.runs_matched,
        }
    }
}

/// The plan of a chart over all series that match.
pub open spec fn plan_of(all: Seq<(Seq<char>, Seq<char>)>) -> PlanModel {
    PlanModel {
        matches: front(all),
        cut: beyond(all.len()),
        runs_matched: sorted(runs_of(front(all))).len() as usize,
    }
}

fn count_runs(list: &Vec<Wanted>) -> (count: usize)
    ensures
        count == sorted(runs_of(wanted_model(list@))).len(),
{
    let ghost all = wanted_model(list@);
    let mut set: NameMap<()> = NameMap::new();
    let mut i: usize = 0;
    while i < list.len()
        invariant
            i <= list@.len(),
            all == wanted_model(list@),
            set.wf(),
            forall|n: Seq<char>| #[trigger]
                set.has(n) <==> exists|k: int| 0 <= k < i && (#[trigger] all[k]).0 == n,
        decreases list@.len() - i,
    {
        note_name(&mut set, &list[i].run);
        assert(all[i as int].0 == list@[i as int].run@);
        i += 1;
    }
    proof {
        lemma_names_sorted(set, runs_of(all));
    }
    set.len()
}

impl ChartPlan {
    /// Plans a chart: the scalar series whose tags hold `filter`, of the
    /// runs that the options let through.
    pub fn new<F: Fn(&str) -> Option<u64>, P: Fn(u64) -> String>(
        runs: &NameMap<Run>,
        filter: &str,
        options: &ChartOptions,
        now: Stamp,
        window: Stamp,
        wording: &Wording<F, P>,
    ) -> (plan: ChartPlan)
        requires
            wording.ok(),
            runs_wf(*runs),
        ensures
            plan@ == plan_of(
                matching(
                    *runs,
                    wording.all_shown(*runs, options@.runs_filter, now, window),
                    filter@,
                ),
            ),
    {
        let runs_filter: Option<&str> = match &options.runs_filter {
            Some(text) => Some(text.as_str()),
            None => None,
        };
        let shown = shown_runs(runs, runs_filter, now, window, wording);
        let ghost list = places(shown@);
        proof {
            wording.lemma_shown(*runs, options@.runs_filter, now, window, runs.names().len());
        }
        let mut matches: Vec<Wanted> = Vec::new();
        let mut k: usize = 0;
        assert(list.take(0) =~= Seq::<int>::empty());
        assert(wanted_model(matches@) =~= Seq::<(Seq<char>, Seq<char>)>::empty());
        while k < shown.len()
            invariant
                k <= shown@.len(),
                runs_wf(*runs),
                list == places(shown@),
                ascending(list, runs.names().len()),
                wanted_model(matches@) == matching(*runs, list.take(k as int), filter@),
            decreases shown@.len() - k,
        {
            assert(list.take(k + 1).drop_last() =~= list.take(k as int));
            assert(list[k as int] == shown@[k as int]);
            let at: usize = shown[k];
            match_run(&mut matches, runs.name_at(at), runs.value_at(at), filter);
            k += 1;
        }
        assert(list.take(list.len() as int) =~= list);
        let ghost all = wanted_model(matches@);
        let cut: usize = if matches.len() > MAX_SERIES {
            matches.len() - MAX_SERIES
        } else {
            0
        };
        if matches.len() > MAX_SERIES {
            matches.truncate(MAX_SERIES);
        }
        assert(wanted_model(matches@) =~= front(all));
        let runs_matched: usize = count_runs(&matches);
        ChartPlan { matches, cut, runs_matched }
    }
}

/// The series to materialize for a list of matches: each, and before it its
/// run's token counter where the axis is tokens. A run without a counter
/// needs none.
pub open spec fn to_materialize(
    runs: Map<Seq<char>, RunModel>,
    matches: Seq<(Seq<char>, Seq<char>)>,
    options: OptionsModel,
) -> Seq<(Seq<char>, Seq<char>)>
    decreases matches.len(),
{
    if matches.len() == 0 {
        Seq::empty()
    } else {
        let before = to_materialize(runs, matches.drop_last(), options);
        let (run, tag) = matches.last();
        if options.x_axis == XAxis::Tokens {
            match counter_in(runs, run, options.tokens_tag) {
                Some(counter) => before.push((run, counter)).push((run, tag)),
                None => before,
            }
        } else {
            before.push((run, tag))
        }
    }
}

/// An optional text, borrowed.
fn borrowed(text: &Option<String>) -> (out: Option<&str>)
    ensures
        view_of(out) == option_text(*text),
{
    match text {
        Some(t) => Some(t.as_str()),
        None => None,
    }
}

fn push_wanted(list: &mut Vec<Wanted>, run: &String, tag: &String)
    ensures
        wanted_model(final(list)@) == wanted_model(old(list)@).push((run@, tag@)),
{
    let ghost before = list@;
    list.push(Wanted { run: run.clone(), tag: tag.clone() });
    assert(wanted_model(list@) =~= wanted_model(before).push((run@, tag@)));
}

impl ChartPlan {
    /// The series to materialize before the chart is drawn.
    pub fn wanted(&self, runs: &NameMap<Run>, options: &ChartOptions) -> (list: Vec<Wanted>)
        requires
            runs_wf(*runs),
        ensures
            wanted_model(list@) == to_materialize(runs.model(), self@.matches, options@),
    {
        let ghost all = self@.matches;
        let mut list: Vec<Wanted> = Vec::new();
        let mut i: usize = 0;
        assert(all.take(0) =~= Seq::<(Seq<char>, Seq<char>)>::empty());
        assert(wanted_model(list@) =~= Seq::<(Seq<char>, Seq<char>)>::empty());
        while i < self.matches.len()
            invariant
                i <= self.matches@.len(),
                all == self@.matches,
                runs_wf(*runs),
                wanted_model(list@) == to_materialize(runs.model(), all.take(i as int), options@),
            decreases self.matches@.len() - i,
        {
            assert(all.take(i + 1).drop_last() =~= all.take(i as int));
            assert(all[i as int] == self.matches@[i as int]@);
            let wanted = &self.matches[i];
            if options.x_axis == XAxis::Tokens {
                if let Some(counter) = find_counter(runs, &wanted.run, borrowed(&options.tokens_tag)) {
                    push_wanted(&mut list, &wanted.run, &counter);
                    push_wanted(&mut list, &wanted.run, &wanted.tag);
                }
            } else {
                push_wanted(&mut list, &wanted.run, &wanted.tag);
            }
            i += 1;
        }
        assert(all.take(all.len() as int) =~= all);
        list
    }
}

/// What the legend says of a series: the tag, with its run before it where
/// the chart is of several.
pub open spec fn match_label(run: Seq<char>, tag: Seq<char>, several: bool) -> Seq<char> {
    if several {
        run + " "@ + tag
    } else {
        tag
    }
}

impl<O: Fn(Operation, u64, u64) -> u64, I: Fn(i64) -> u64> Arith<O, I> {
    /// The chart of a list of matches, the runs among them that the tokens
    /// axis found no counter for, and those of the series that are drawn. A
    /// series that is not held does not draw.
    pub open spec fn collected(
        self,
        project: ProjectModel,
        matches: Seq<(Seq<char>, Seq<char>)>,
        options: OptionsModel,
        several: bool,
    ) -> (ChartModel, Set<Seq<char>>, Set<Seq<char>>)
        decreases matches.len(),
    {
        if matches.len() == 0 {
            (ChartModel::start(options), Set::empty(), Set::empty())
        } else {
            let (chart, lacking, drawn) = self.collected(
                project,
                matches.drop_last(),
                options,
                several,
            );
            let (run, tag) = matches.last();
            let counter = if options.x_axis == XAxis::Tokens {
                held_counter(project, run, options.tokens_tag)
            } else {
                None
            };
            if options.x_axis == XAxis::Tokens && counter is None {
                (chart, lacking.insert(run), drawn)
            } else {
                match held(project, run, tag) {
                    Some(points) => {
                        let next = self.with_series(
                            chart,
                            points,
                            counter,
                            match_label(run, tag, several),
                            options,
                        );
                        (
                            next,
                            lacking,
                            if next.series.len() > chart.series.len() {
                                drawn.insert(run)
                            } else {
                                drawn
                            },
                        )
                    },
                    None => (chart, lacking, drawn),
                }
            }
        }
    }

    /// The chart of a plan.
    pub open spec fn planned(self, project: ProjectModel, plan: PlanModel, options: OptionsModel) -> ChartModel {
        let (chart, lacking, drawn) = self.collected(
            project,
            plan.matches,
            options,
            plan.runs_matched > 1,
        );
        ChartModel {
            cut: plan.cut,
            run_count: sorted(drawn).len() as usize,
            runs_without_counter: sorted(lacking).len() as usize,
            ..chart
        }
    }
}

impl ChartData {
    /// A chart without series.
    fn assemble(options: &ChartOptions) -> (chart: ChartData)
        ensures
            chart@ == ChartModel::start(options@),
            chart.wf(),
    {
        let chart = ChartData {
            series: Vec::new(),
            boundaries: Vec::new(),
            time_x: options.x_axis == XAxis::Wall,
            log_y: options.log_y,
            smooth: options.smooth,
            cut: 0,
            run_count: 0,
            tokens_dropped: 0,
            runs_without_counter: 0,
        };
        assert(chart@ =~= ChartModel::start(options@));
        chart
    }

    /// Draws a plan from the series that the project holds.
    pub fn collect<O: Fn(Operation, u64, u64) -> u64, I: Fn(i64) -> u64>(
        project: &Project,
        plan: &ChartPlan,
        options: &ChartOptions,
        arith: &Arith<O, I>,
    ) -> (chart: ChartData)
        requires
            project.wf(),
            arith.ok(),
        ensures
            chart@ == arith.planned(project@, plan@, options@),
            chart.wf(),
    {
        let ghost all = plan@.matches;
        let several = plan.runs_matched > 1;
        let mut chart = ChartData::assemble(options);
        let mut lacking: NameMap<()> = NameMap::new();
        let mut drawn: NameMap<()> = NameMap::new();
        let mut i: usize = 0;
        assert(all.take(0) =~= Seq::<(Seq<char>, Seq<char>)>::empty());
        while i < plan.matches.len()
            invariant
                i <= plan.matches@.len(),
                all == plan@.matches,
                several == (plan.runs_matched > 1),
                project.wf(),
                arith.ok(),
                lacking.wf(),
                drawn.wf(),
                chart.wf(),
                chart@ == arith.collected(project@, all.take(i as int), options@, several).0,
                forall|n: Seq<char>| #[trigger]
                    lacking.has(n) <==> arith.collected(
                        project@,
                        all.take(i as int),
                        options@,
                        several,
                    ).1.contains(n),
                forall|n: Seq<char>| #[trigger]
                    drawn.has(n) <==> arith.collected(
                        project@,
                        all.take(i as int),
                        options@,
                        several,
                    ).2.contains(n),
            decreases plan.matches@.len() - i,
        {
            assert(all.take(i + 1).drop_last() =~= all.take(i as int));
            assert(all[i as int] == plan.matches@[i as int]@);
            let wanted = &plan.matches[i];
            i += 1;
            let counter = if options.x_axis == XAxis::Tokens {
                let counter = find_held_counter(project, &wanted.run, borrowed(&options.tokens_tag));
                if counter.is_none() {
                    note_name(&mut lacking, &wanted.run);
                    continue ;
                }
                counter
            } else {
                None
            };
            let points = match project.points(&wanted.run, &wanted.tag) {
                Some(points) => points,
                None => {
                    continue ;
                },
            };
            let label = if several {
                let mut label = wanted.run.clone();
                push_text(&mut label, " ");
                push_text(&mut label, &wanted.tag);
                label
            } else {
                wanted.tag.clone()
            };
            let before: usize = chart.series.len();
            arith.push_series(&mut chart, points, counter, label, options);
            if chart.series.len() > before {
                note_name(&mut drawn, &wanted.run);
            }
        }
        assert(all.take(all.len() as int) =~= all);
        proof {
            lemma_names_sorted(lacking, arith.collected(project@, all, options@, several).1);
            lemma_names_sorted(drawn, arith.collected(project@, all, options@, several).2);
        }
        chart.cut = plan.cut;
        chart.run_count = drawn.len();
        chart.runs_without_counter = lacking.len();
        chart
    }
}

impl<O: Fn(Operation, u64, u64) -> u64, I: Fn(i64) -> u64> Arith<O, I> {
    /// The chart of one tag across some runs. A run whose series is not
    /// held, or holds nothing, does not draw.
    pub open spec fn across(
        self,
        project: ProjectModel,
        runs: Seq<Seq<char>>,
        tag: Seq<char>,
        options: OptionsModel,
        several: bool,
    ) -> ChartModel
        decreases runs.len(),
    {
        if runs.len() == 0 {
            ChartModel::start(options)
        } else {
            let chart = self.across(project, runs.drop_last(), tag, options, several);
            let run = runs.last();
            let counter = if options.x_axis == XAxis::Tokens {
                held_counter(project, run, options.tokens_tag)
            } else {
                None
            };
            match held(project, run, tag) {
                None => chart,
                Some(points) => if points.steps.len() == 0 {
                    chart
                } else if options.x_axis == XAxis::Tokens && counter is None {
                    ChartModel {
                        runs_without_counter: (chart.runs_without_counter + 1) as usize,
                        ..chart
                    }
                } else {
                    self.with_series(
                        chart,
                        points,
                        counter,
                        if several {
                            run
                        } else {
                            tag
                        },
                        options,
                    )
                },
            }
        }
    }

    /// The chart of one tag across a list of runs, as many as it takes. Each
    /// run that draws draws one series.
    pub open spec fn tagged(
        self,
        project: ProjectModel,
        runs: Seq<Seq<char>>,
        tag: Seq<char>,
        options: OptionsModel,
    ) -> ChartModel {
        let chart = self.across(project, front(runs), tag, options, front(runs).len() > 1);
        ChartModel { cut: beyond(runs.len()), run_count: chart.series.len() as usize, ..chart }
    }

    /// Counts stay within the number of runs.
    proof fn lemma_across(
        self,
        project: ProjectModel,
        runs: Seq<Seq<char>>,
        tag: Seq<char>,
        options: OptionsModel,
        several: bool,
    )
        requires
            runs.len() <= MAX_SERIES,
        ensures
            self.across(project, runs, tag, options, several).runs_without_counter <= runs.len(),
        decreases runs.len(),
    {
        if runs.len() > 0 {
            self.lemma_across(project, runs.drop_last(), tag, options, several);
        }
    }
}

impl ChartData {
    /// One exact tag across the given runs. Reads only materialized points;
    /// runs not yet materialized simply do not draw until they are.
    pub fn for_tag<O: Fn(Operation, u64, u64) -> u64, I: Fn(i64) -> u64>(
        project: &Project,
        runs: &Vec<String>,
        tag: &str,
        options: &ChartOptions,
        arith: &Arith<O, I>,
    ) -> (chart: ChartData)
        requires
            project.wf(),
            arith.ok(),
        ensures
            chart@ == arith.tagged(project@, texts(runs@), tag@, options@),
            chart.wf(),
    {
        let ghost all = front(texts(runs@));
        let shown: usize = if runs.len() > MAX_SERIES {
            MAX_SERIES
        } else {
            runs.len()
        };
        assert(all.len() == shown);
        let several = shown > 1;
        let mut chart = ChartData::assemble(options);
        let mut i: usize = 0;
        assert(all.take(0) =~= Seq::<Seq<char>>::empty());
        while i < shown
            invariant
                i <= shown,
                shown <= MAX_SERIES,
                shown <= runs@.len(),
                all == front(texts(runs@)),
                all.len() == shown,
                several == (shown > 1),
                project.wf(),
                arith.ok(),
                chart.wf(),
                chart@ == arith.across(project@, all.take(i as int), tag@, options@, several),
            decreases shown - i,
        {
            assert(all.take(i + 1).drop_last() =~= all.take(i as int));
            assert(all[i as int] == runs@[i as int]@);
            proof {
                arith.lemma_across(project@, all.take(i as int), tag@, options@, several);
            }
            let run = &runs[i];
            i += 1;
            let points = match project.points(run, tag) {
                Some(points) => points,
                None => {
                    continue ;
                },
            };
            if points.is_empty() {
                continue ;
            }
            let counter = if options.x_axis == XAxis::Tokens {
                let counter = find_held_counter(project, run, borrowed(&options.tokens_tag));
                if counter.is_none() {
                    chart.runs_without_counter = chart.runs_without_counter + 1;
                    continue ;
                }
                counter
            } else {
                None
            };
            let label = if several {
                run.clone()
            } else {
                tag.to_owned()
            };
            arith.push_series(&mut chart, points, counter, label, options);
        }
        assert(all.take(all.len() as int) =~= all);
        chart.run_count = chart.series.len();
        chart.cut = if runs.len() > MAX_SERIES {
            runs.len() - MAX_SERIES
        } else {
            0
        };
        chart
    }

    /// Whether nothing is drawn.
    pub fn is_empty(&self) -> (empty: bool)
        ensures
            empty == (self@.series.len() == 0),
    {
        self.series.len() == 0
    }
}

/// The lesser start and the greater end of two x ranges.
pub open spec fn joined(a: (u64, u64), b: (u64, u64)) -> (u64, u64) {
    (lower(a.0, b.0), upper(a.1, b.1))
}

/// The x range that the drawn series span: from the first of their first
/// positions to the last of their last.
pub open spec fn extent(series: Seq<ChartSeriesModel>) -> Option<(u64, u64)>
    decreases series.len(),
{
    if series.len() == 0 {
        None
    } else {
        let before = extent(series.drop_last());
        let xs = series.last().line.xs;
        if xs.len() == 0 {
            before
        } else {
            match before {
                Some(range) => Some(joined(range, (xs.first(), xs.last()))),
                None => Some((xs.first(), xs.last())),
            }
        }
    }
}

/// The x range shared by some charts.
pub open spec fn shared_extent(ranges: Seq<Option<(u64, u64)>>) -> Option<(u64, u64)>
    decreases ranges.len(),
{
    if ranges.len() == 0 {
        None
    } else {
        match (shared_extent(ranges.drop_last()), ranges.last()) {
            (Some(a), Some(b)) => Some(joined(a, b)),
            (Some(a), None) => Some(a),
            (None, b) => b,
        }
    }
}

/// Joins the x ranges of some charts.
pub fn share_extent(ranges: &Vec<Option<(u64, u64)>>) -> (range: Option<(u64, u64)>)
    ensures
        range == shared_extent(ranges@),
{
    let mut range: Option<(u64, u64)> = None;
    let mut i: usize = 0;
    assert(ranges@.take(0) =~= Seq::<Option<(u64, u64)>>::empty());
    while i < ranges.len()
        invariant
            i <= ranges@.len(),
            range == shared_extent(ranges@.take(i as int)),
        decreases ranges@.len() - i,
    {
        assert(ranges@.take(i + 1).drop_last() =~= ranges@.take(i as int));
        if let Some((from, to)) = ranges[i] {
            range = match range {
                Some((min, max)) => Some((lower_of(min, from), upper_of(max, to))),
                None => Some((from, to)),
            };
        }
        i += 1;
    }
    assert(ranges@.take(ranges@.len() as int) =~= ranges@);
    range
}

/// The distance of two doubles: the size of their difference.
pub open spec fn unsigned(bits: u64) -> u64 {
    if bits >= SIGN {
        (bits - SIGN) as u64
    } else {
        bits
    }
}

impl<O: Fn(Operation, u64, u64) -> u64, I: Fn(i64) -> u64> Arith<O, I> {
    /// The distance of two doubles.
    pub open spec fn distance(self, a: u64, b: u64) -> u64 {
        unsigned(self.difference(a, b))
    }

    /// Which of the first `n` positions is nearest to `x`; the first of
    /// equally near ones.
    pub open spec fn nearest(self, xs: Seq<u64>, x: u64, n: nat) -> int
        decreases n,
    {
        if n <= 1 {
            0
        } else {
            let best = self.nearest(xs, x, (n - 1) as nat);
            if below(self.distance(xs[n - 1], x), self.distance(xs[best], x)) {
                n - 1
            } else {
                best
            }
        }
    }

    /// Finds the position nearest to `x`.
    pub fn find_nearest(&self, xs: &Vec<u64>, x: u64) -> (at: usize)
        requires
            self.ok(),
            xs@.len() > 0,
        ensures
            at == self.nearest(xs@, x, xs@.len()),
            at < xs@.len(),
    {
        let mut best: usize = 0;
        let mut i: usize = 1;
        while i < xs.len()
            invariant
                1 <= i <= xs@.len(),
                best < i,
                self.ok(),
                best == self.nearest(xs@, x, i as nat),
            decreases xs@.len() - i,
        {
            if is_below(self.measure(xs[i], x), self.measure(xs[best], x)) {
                best = i;
            }
            i += 1;
        }
        best
    }

    fn measure(&self, a: u64, b: u64) -> (distance: u64)
        requires
            self.ok(),
        ensures
            distance == self.distance(a, b),
    {
        let bits: u64 = self.minus(a, b);
        if bits >= SIGN {
            bits - SIGN
        } else {
            bits
        }
    }

    /// What the drawn series read nearest to `x`: label, exact position and
    /// value of each.
    pub open spec fn readings(self, series: Seq<ChartSeriesModel>, x: u64) -> Seq<
        (Seq<char>, u64, u64),
    >
        decreases series.len(),
    {
        if series.len() == 0 {
            Seq::empty()
        } else {
            let before = self.readings(series.drop_last(), x);
            let last = series.last();
            let at = self.nearest(last.line.xs, x, last.line.xs.len());
            if last.line.xs.len() == 0 {
                before
            } else {
                before.push((last.label, last.line.xs[at], last.line.ys[at]))
            }
        }
    }
}

/// One reading of a crosshair.
pub struct Reading {
    /// The series' label.
    pub label: String,
    /// The exact position of the point that is read.
    pub x: u64,
    /// Its value.
    pub value: u64,
}

impl View for Reading {
    type V = (Seq<char>, u64, u64);

    open spec fn view(&self) -> (Seq<char>, u64, u64) {
        (self.label@, self.x, self.value)
    }
}

/// What a list of readings holds.
pub open spec fn readings_model(list: Seq<Reading>) -> Seq<(Seq<char>, u64, u64)> {
    list.map_values(|reading: Reading| reading@)
}

impl ChartData {
    /// The columns of every drawn series are parallel.
    pub open spec fn wf(self) -> bool {
        forall|i: int|
            0 <= i < self.series@.len() ==> (#[trigger] self.series@[i]).line.xs@.len()
                == self.series@[i].line.ys@.len()
    }

    /// The x range that the drawn series span, for sharing a domain across
    /// compare panels.
    pub fn x_extent(&self) -> (range: Option<(u64, u64)>)
        ensures
            range == extent(self@.series),
    {
        let ghost all = self@.series;
        let mut range: Option<(u64, u64)> = None;
        let mut i: usize = 0;
        assert(all.take(0) =~= Seq::<ChartSeriesModel>::empty());
        while i < self.series.len()
            invariant
                i <= self.series@.len(),
                all == self@.series,
                range == extent(all.take(i as int)),
            decreases self.series@.len() - i,
        {
            assert(all.take(i + 1).drop_last() =~= all.take(i as int));
            assert(all[i as int] == self.series@[i as int]@);
            let xs = &self.series[i].line.xs;
            if xs.len() > 0 {
                let first: u64 = xs[0];
                let last: u64 = xs[xs.len() - 1];
                range = match range {
                    Some((min, max)) => Some((lower_of(min, first), upper_of(max, last))),
                    None => Some((first, last)),
                };
            }
            i += 1;
        }
        assert(all.take(all.len() as int) =~= all);
        range
    }

    /// Reads every drawn series nearest to `x`.
    pub fn values_at<O: Fn(Operation, u64, u64) -> u64, I: Fn(i64) -> u64>(
        &self,
        x: u64,
        arith: &Arith<O, I>,
    ) -> (readings: Vec<Reading>)
        requires
            arith.ok(),
            self.wf(),
        ensures
            readings_model(readings@) == arith.readings(self@.series, x),
    {
        let ghost all = self@.series;
        let mut readings: Vec<Reading> = Vec::new();
        let mut i: usize = 0;
        assert(all.take(0) =~= Seq::<ChartSeriesModel>::empty());
        assert(readings_model(readings@) =~= Seq::<(Seq<char>, u64, u64)>::empty());
        while i < self.series.len()
            invariant
                i <= self.series@.len(),
                all == self@.series,
                arith.ok(),
                self.wf(),
                readings_model(readings@) == arith.readings(all.take(i as int), x),
            decreases self.series@.len() - i,
        {
            assert(all.take(i + 1).drop_last() =~= all.take(i as int));
            assert(all[i as int] == self.series@[i as int]@);
            let series = &self.series[i];
            if series.line.xs.len() > 0 {
                let at: usize = arith.find_nearest(&series.line.xs, x);
                let reading = Reading {
                    label: series.label.clone(),
                    x: series.line.xs[at],
                    value: series.line.ys[at],
                };
                let ghost before = readings@;
                let ghost last = reading@;
                readings.push(reading);
                assert(readings_model(readings@) =~= readings_model(before).push(last));
            }
            i += 1;
        }
        assert(all.take(all.len() as int) =~= all);
        readings
    }
}

/// The bits of the lift between two rows of a ridgeline, 0.55.
pub const LIFT: u64 = 0x3FE1_9999_9999_999A;

/// The bits of the height of the tallest bucket of a row, 1.6.
pub const HEIGHT: u64 = 0x3FF9_9999_9999_999A;

/// The bits of the smallest positive normal double.
pub const MIN_POSITIVE: u64 = 0x0010_0000_0000_0000;

/// The snapshot that a row of a ridgeline shows: every snapshot where they
/// fit, otherwise an even sample from the first to the last.
pub open spec fn sampled(total: int, max_rows: int, row: int) -> int {
    if total <= max_rows {
        row
    } else {
        row * (total - 1) / (max_rows - 1)
    }
}

/// How many rows a ridgeline has.
pub open spec fn row_count(total: int, max_rows: int) -> int {
    if total <= max_rows {
        total
    } else {
        max_rows
    }
}

/// A sample starts at the first snapshot, ends at the last, and goes up.
pub proof fn law_sample_spans(total: int, max_rows: int)
    requires
        total > 0,
        max_rows > 0,
        total > max_rows ==> max_rows > 1,
    ensures
        sampled(total, max_rows, 0) == 0,
        sampled(total, max_rows, row_count(total, max_rows) - 1) == total - 1,
        forall|a: int, b: int|
            0 <= a < b < row_count(total, max_rows) ==> #[trigger] sampled(total, max_rows, a)
                < #[trigger] sampled(total, max_rows, b),
{
    if total > max_rows {
        let m = max_rows - 1;
        let t = total - 1;
        assert(0 * t / m == 0) by (nonlinear_arith)
            requires
                m > 0,
        ;
        assert(m * t / m == t) by (nonlinear_arith)
            requires
                m > 0,
        ;
        assert forall|a: int, b: int| 0 <= a < b < row_count(total, max_rows) implies #[trigger] sampled(
            total,
            max_rows,
            a,
        ) < #[trigger] sampled(total, max_rows, b) by {
            assert(a * t + m <= b * t) by (nonlinear_arith)
                requires
                    a + 1 <= b,
                    m <= t,
                    t >= 0,
            ;
            vstd::arithmetic::div_mod::lemma_div_is_ordered(a * t + m, b * t, m);
            assert((a * t + m) / m == a * t / m + 1) by {
                vstd::arithmetic::div_mod::lemma_div_plus_one(a * t, m);
            }
        }
    }
}

/// Every row of a sample shows a snapshot.
proof fn lemma_sampled(total: int, max_rows: int, row: int)
    requires
        total > 0,
        max_rows > 0,
        total > max_rows ==> max_rows > 1,
        0 <= row < row_count(total, max_rows),
    ensures
        0 <= sampled(total, max_rows, row) < total,
{
    law_sample_spans(total, max_rows);
    if row > 0 {
        assert(sampled(total, max_rows, 0) < sampled(total, max_rows, row));
    }
    let last = row_count(total, max_rows) - 1;
    if row < last {
        assert(sampled(total, max_rows, row) < sampled(total, max_rows, last));
    }
}

impl<O: Fn(Operation, u64, u64) -> u64, I: Fn(i64) -> u64> Arith<O, I> {
    /// How dense a bucket is.
    pub open spec fn density(self, bucket: Bucket) -> u64 {
        self.quotient(bucket.2, upper(self.difference(bucket.1, bucket.0), MIN_POSITIVE))
    }

    /// The density of the densest bucket; zero without buckets.
    pub open spec fn peak(self, buckets: Seq<Bucket>) -> u64
        decreases buckets.len(),
    {
        if buckets.len() == 0 {
            ZERO
        } else {
            upper(self.peak(buckets.drop_last()), self.density(buckets.last()))
        }
    }

    /// How high a bucket is drawn under the tallest one of its row.
    pub open spec fn height(self, bucket: Bucket, peak: u64) -> u64 {
        if below(ZERO, peak) {
            self.product(self.quotient(self.density(bucket), peak), HEIGHT)
        } else {
            ZERO
        }
    }

    /// The silhouette of a snapshot at a lift: the baseline, one step per
    /// bucket, and the baseline again.
    pub open spec fn silhouette(self, buckets: Seq<Bucket>, lift: u64) -> TraceModel {
        if buckets.len() == 0 {
            TraceModel { xs: Seq::empty(), ys: Seq::empty() }
        } else {
            let peak = self.peak(buckets);
            TraceModel {
                xs: seq![buckets.first().0] + buckets.map_values(|bucket: Bucket| bucket.0)
                    + seq![buckets.last().1],
                ys: seq![lift] + buckets.map_values(
                    |bucket: Bucket| self.sum(lift, self.height(bucket, peak)),
                ) + seq![lift],
            }
        }
    }

    fn weigh(&self, bucket: Bucket) -> (density: u64)
        requires
            self.ok(),
        ensures
            density == self.density(bucket),
    {
        self.over(bucket.2, upper_of(self.minus(bucket.1, bucket.0), MIN_POSITIVE))
    }

    fn find_peak(&self, buckets: &Vec<Bucket>) -> (peak: u64)
        requires
            self.ok(),
        ensures
            peak == self.peak(buckets@),
    {
        let mut peak: u64 = ZERO;
        let mut i: usize = 0;
        assert(buckets@.take(0) =~= Seq::<Bucket>::empty());
        while i < buckets.len()
            invariant
                i <= buckets@.len(),
                self.ok(),
                peak == self.peak(buckets@.take(i as int)),
            decreases buckets@.len() - i,
        {
            assert(buckets@.take(i + 1).drop_last() =~= buckets@.take(i as int));
            peak = upper_of(peak, self.weigh(buckets[i]));
            i += 1;
        }
        assert(buckets@.take(buckets@.len() as int) =~= buckets@);
        peak
    }

    fn outline(&self, buckets: &Vec<Bucket>, lift: u64) -> (trace: Trace)
        requires
            self.ok(),
        ensures
            trace@ == self.silhouette(buckets@, lift),
    {
        let mut xs: Vec<u64> = Vec::new();
        let mut ys: Vec<u64> = Vec::new();
        if buckets.len() == 0 {
            let trace = Trace { xs, ys };
            assert(trace@ =~= self.silhouette(buckets@, lift));
            return trace;
        }
        let ghost goal = self.silhouette(buckets@, lift);
        let peak: u64 = self.find_peak(buckets);
        xs.push(buckets[0].0);
        ys.push(lift);
        let mut i: usize = 0;
        while i < buckets.len()
            invariant
                i <= buckets@.len(),
                buckets@.len() > 0,
                self.ok(),
                peak == self.peak(buckets@),
                goal == self.silhouette(buckets@, lift),
                xs@ =~= goal.xs.take(i + 1),
                ys@ =~= goal.ys.take(i + 1),
            decreases buckets@.len() - i,
        {
            let bucket = buckets[i];
            let height: u64 = if is_below(ZERO, peak) {
                self.times(self.over(self.weigh(bucket), peak), HEIGHT)
            } else {
                ZERO
            };
            xs.push(bucket.0);
            ys.push(self.plus(lift, height));
            assert(goal.xs.take(i + 2) =~= goal.xs.take(i + 1).push(goal.xs[i + 1]));
            assert(goal.ys.take(i + 2) =~= goal.ys.take(i + 1).push(goal.ys[i + 1]));
            i += 1;
        }
        xs.push(buckets[buckets.len() - 1].1);
        ys.push(lift);
        let trace = Trace { xs, ys };
        assert(trace@ =~= goal);
        trace
    }

    /// The ridgeline of a histogram series: rows oldest first, the oldest
    /// lifted highest.
    pub open spec fn ridges(self, snapshots: Seq<SnapshotModel>, max_rows: int) -> Seq<TraceModel> {
        let count = row_count(snapshots.len() as int, max_rows);
        Seq::new(
            count as nat,
            |row: int|
                self.silhouette(
                    snapshots[sampled(snapshots.len() as int, max_rows, row)].buckets,
                    self.product(self.number((count - 1 - row) as i64), LIFT),
                ),
        )
    }
}

/// Ridgeline data for one histogram series: sampled snapshots as lifted
/// rectangular profiles, rendered back to front.
pub struct DistData {
    /// Rows oldest first. The oldest draws first at the highest lift, so
    /// that nearer rows overwrite what they cross.
    pub rows: Vec<Trace>,
    /// Steps of the back (oldest) and front (newest) drawn rows.
    pub step_range: (i64, i64),
    /// Rows drawn.
    pub drawn: usize,
    /// Snapshots held — the title says when it sampled.
    pub total: usize,
}

impl DistData {
    /// Samples up to `max_rows` snapshots evenly (always with the first and
    /// the last) and builds the lifted profiles.
    pub fn build<O: Fn(Operation, u64, u64) -> u64, I: Fn(i64) -> u64>(
        series: &HistogramSeries,
        max_rows: usize,
        arith: &Arith<O, I>,
    ) -> (data: Option<DistData>)
        requires
            arith.ok(),
            max_rows != 1 || series.snapshots@.len() <= 1,
        ensures
            data is None <==> series.snapshots@.len() == 0 || max_rows == 0,
            data matches Some(d) ==> {
                let snapshots = series@.snapshots;
                let count = row_count(snapshots.len() as int, max_rows as int);
                &&& traces_model(d.rows@) == arith.ridges(snapshots, max_rows as int)
                &&& d.step_range == (snapshots.first().step, snapshots.last().step)
                &&& d.drawn == count
                &&& d.total == snapshots.len()
            },
    {
        let total: usize = series.snapshots.len();
        if total == 0 || max_rows == 0 {
            return None;
        }
        let count: usize = if total <= max_rows {
            total
        } else {
            max_rows
        };
        let ghost snapshots = series@.snapshots;
        let ghost goal = arith.ridges(snapshots, max_rows as int);
        let mut rows: Vec<Trace> = Vec::new();
        let mut row: usize = 0;
        assert(traces_model(rows@) =~= goal.take(0));
        while row < count
            invariant
                row <= count,
                arith.ok(),
                total > 0,
                max_rows > 0,
                total > max_rows ==> max_rows > 1,
                total == series.snapshots@.len(),
                snapshots == series@.snapshots,
                count == row_count(total as int, max_rows as int),
                goal == arith.ridges(snapshots, max_rows as int),
                traces_model(rows@) == goal.take(row as int),
            decreases count - row,
        {
            proof {
                lemma_sampled(total as int, max_rows as int, row as int);
                assert(row * (total - 1) <= u64::MAX * u64::MAX) by (nonlinear_arith)
                    requires
                        0 <= row <= u64::MAX,
                        0 <= total - 1 <= u64::MAX,
                ;
            }
            let at: usize = if total <= max_rows {
                row
            } else {
                ((row as u128 * (total as u128 - 1)) / (max_rows as u128 - 1)) as usize
            };
            assert(at == sampled(total as int, max_rows as int, row as int));
            assert(snapshots[at as int] == series.snapshots@[at as int]@);
            let lift: u64 = arith.times(arith.from_whole((count - 1 - row) as i64), LIFT);
            let trace = arith.outline(&series.snapshots[at].buckets, lift);
            let ghost before = rows@;
            let ghost last = trace@;
            rows.push(trace);
            assert(traces_model(rows@) =~= traces_model(before).push(last));
            assert(goal.take(row + 1) =~= goal.take(row as int).push(goal[row as int]));
            row += 1;
        }
        assert(goal.take(goal.len() as int) =~= goal);
        assert(snapshots.first() == series.snapshots@[0]@);
        assert(snapshots.last() == series.snapshots@[total - 1]@);
        Some(
            DistData {
                rows,
                step_range: (series.snapshots[0].step, series.snapshots[total - 1].step),
                drawn: count,
                total,
            },
        )
    }
}

} // verus!
