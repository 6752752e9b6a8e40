//! What a chart shows: positions on its axes, token counts on the line between
//! two counter points, and readings at the nearest point.
use vstd::prelude::*;

use crate::arith::{Arith, Operation};
use crate::chart::{
    ascending_bits, beyond, counter_in, extent, front, law_noted_is_a_set, match_label,
    matching_tags, row_count, sampled, to_materialize, ChartModel, ChartSeriesModel, OptionsModel,
    XAxis, MIN_POSITIVE,
};
use crate::discover::within;
use crate::double::{below, finite, nan};
use crate::event::Bucket;
use crate::exact::{exact_up_to, lemma_measures_order, measures};
use crate::run::{Run, RunModel};
use crate::series::{
    increasing, kept, lemma_kept, upper, GhostModel, PointsModel, SeriesClass, SnapshotModel,
};

verus! {

/// Where a step splits increasing steps.
proof fn lemma_split(steps: Seq<i64>, step: i64, at: int)
    requires
        increasing(steps),
        0 <= at <= steps.len(),
        at > 0 ==> steps[at - 1] < step,
        at < steps.len() ==> step <= steps[at],
    ensures
        kept(steps, step) == at,
{
    lemma_kept(steps, step);
    let k = kept(steps, step) as int;
    if k < at {
        assert(steps[k] >= step);
        if k < at - 1 {
            assert(steps[k] < steps[at - 1]);
        }
    } else if at < k {
        assert(steps[k - 1] < step);
        if at < k - 1 {
            assert(steps[at] < steps[k - 1]);
        }
    }
}

impl<O: Fn(Operation, u64, u64) -> u64, I: Fn(i64) -> u64> Arith<O, I> {
    /// Between two counter points the token count is that before, plus the
    /// share of the rise that the steps passed are of the gap.
    pub proof fn law_tokens_lie_on_the_line(
        self,
        counter: PointsModel,
        at: int,
        step: i64,
        x: int,
        y: int,
        share: int,
    )
        requires
            self.exact(),
            increasing(counter.steps),
            counter.values.len() == counter.steps.len(),
            0 <= at < counter.steps.len() - 1,
            counter.steps[at] < step < counter.steps[at + 1],
            measures(counter.values[at], x),
            measures(counter.values[at + 1], y),
            exact_up_to(1024 * counter.steps[at]),
            exact_up_to(1024 * counter.steps[at + 1]),
            exact_up_to(1024 * (counter.steps[at + 1] - counter.steps[at])),
            exact_up_to(x),
            exact_up_to(y),
            exact_up_to(y - x),
            exact_up_to((y - x) * (step - counter.steps[at])),
            exact_up_to(share),
            exact_up_to(x + share),
            share * (counter.steps[at + 1] - counter.steps[at]) == (y - x) * (step
                - counter.steps[at]),
        ensures
            self.tokens_at(counter, step) matches Some(tokens) && measures(tokens, x + share),
    {
        let before = counter.values[at];
        let after = counter.values[at + 1];
        let from = counter.steps[at];
        let to = counter.steps[at + 1];
        lemma_split(counter.steps, step, at + 1);
        self.lemma_exact_number(from);
        self.lemma_exact_number(to);
        assert(exact_up_to(1024 * step));
        self.lemma_exact_number(step);
        self.lemma_exact_difference(after, before, y, x);
        let rise = self.result(Operation::Minus, after, before);
        self.lemma_exact_difference(self.number(step), self.number(from), 1024 * step, 1024 * from);
        let passed = self.result(Operation::Minus, self.number(step), self.number(from));
        self.lemma_exact_difference(self.number(to), self.number(from), 1024 * to, 1024 * from);
        let gap = self.result(Operation::Minus, self.number(to), self.number(from));
        let part = (y - x) * (step - from);
        assert((y - x) * (1024 * step - 1024 * from) == part * 1024) by (nonlinear_arith)
            requires
                part == (y - x) * (step - from),
        ;
        self.lemma_exact_product(rise, passed, y - x, 1024 * step - 1024 * from, part);
        let product = self.result(Operation::Times, rise, passed);
        assert(part * 1024 == share * (1024 * to - 1024 * from)) by (nonlinear_arith)
            requires
                part == share * (to - from),
        ;
        self.lemma_exact_quotient(product, gap, part, 1024 * to - 1024 * from, share);
        let quotient = self.result(Operation::Divide, product, gap);
        self.lemma_exact_sum(before, quotient, x, share);
    }

    /// Where the counter rises, the token count rises with the step, above the
    /// count before and below the count after; where it falls, it falls.
    pub proof fn law_tokens_rise_with_the_counter(
        self,
        counter: PointsModel,
        at: int,
        first: i64,
        second: i64,
        x: int,
        y: int,
        share: int,
        more: int,
    )
        requires
            self.exact(),
            increasing(counter.steps),
            counter.values.len() == counter.steps.len(),
            0 <= at < counter.steps.len() - 1,
            counter.steps[at] < first < second < counter.steps[at + 1],
            measures(counter.values[at], x),
            measures(counter.values[at + 1], y),
            exact_up_to(1024 * counter.steps[at]),
            exact_up_to(1024 * counter.steps[at + 1]),
            exact_up_to(1024 * (counter.steps[at + 1] - counter.steps[at])),
            exact_up_to(x),
            exact_up_to(y),
            exact_up_to(y - x),
            exact_up_to((y - x) * (counter.steps[at + 1] - counter.steps[at])),
            share * (counter.steps[at + 1] - counter.steps[at]) == (y - x) * (first
                - counter.steps[at]),
            more * (counter.steps[at + 1] - counter.steps[at]) == (y - x) * (second
                - counter.steps[at]),
        ensures
            self.tokens_at(counter, first) matches Some(a) && self.tokens_at(
                counter,
                second,
            ) matches Some(b) && {
                &&& x < y ==> below(counter.values[at], a) && below(a, b) && below(
                    b,
                    counter.values[at + 1],
                )
                &&& x > y ==> below(a, counter.values[at]) && below(b, a) && below(
                    counter.values[at + 1],
                    b,
                )
            },
    {
        let from = counter.steps[at] as int;
        let gap = counter.steps[at + 1] - from;
        let d = y - x;
        let p = first - from;
        let q = second - from;
        assert((d > 0 ==> 0 < share < more && more < d) && (d < 0 ==> d < more && more < share
            && share < 0) && (d == 0 ==> share == 0 && more == 0)) by (nonlinear_arith)
            requires
                0 < p < q,
                q < gap,
                share * gap == d * p,
                more * gap == d * q,
        ;
        assert((d >= 0 ==> 0 <= d * p <= d * gap && 0 <= d * q <= d * gap) && (d <= 0 ==> d * gap
            <= d * p <= 0 && d * gap <= d * q <= 0)) by (nonlinear_arith)
            requires
                0 < p < q,
                q < gap,
        ;
        self.law_tokens_lie_on_the_line(counter, at, first, x, y, share);
        self.law_tokens_lie_on_the_line(counter, at, second, x, y, more);
        let a = self.tokens_at(counter, first)->0;
        let b = self.tokens_at(counter, second)->0;
        lemma_measures_order(counter.values[at], a, x, x + share);
        lemma_measures_order(a, b, x + share, x + more);
        lemma_measures_order(b, counter.values[at + 1], x + more, y);
        lemma_measures_order(a, counter.values[at], x + share, x);
        lemma_measures_order(b, a, x + more, x + share);
        lemma_measures_order(counter.values[at + 1], b, y, x + more);
    }

    /// At a step that the counter logged, the token count is the logged one.
    pub proof fn law_logged_tokens_are_exact(self, counter: PointsModel, at: int)
        requires
            increasing(counter.steps),
            counter.values.len() == counter.steps.len(),
            0 <= at < counter.steps.len(),
            finite(counter.values[at]),
        ensures
            self.tokens_at(counter, counter.steps[at]) == Some(counter.values[at]),
    {
        if at > 0 {
            assert(counter.steps[at - 1] < counter.steps[at]);
        }
        lemma_split(counter.steps, counter.steps[at], at);
    }

    /// On the step axis a point stands at its step, on the wall axis at its
    /// wall time, on the relative axis as long after the first point as it
    /// came, and on the tokens axis at its token count, nowhere without a
    /// counter.
    pub proof fn law_axes_place_points(
        self,
        first_wall: u64,
        counter: PointsModel,
        step: i64,
        wall: u64,
        x: int,
        y: int,
    )
        requires
            self.exact(),
            exact_up_to(1024 * step),
            measures(wall, x),
            measures(first_wall, y),
            exact_up_to(x - y),
        ensures
            self.x_of(XAxis::Step, first_wall, Some(counter), step, wall) matches Some(at)
                && measures(at, 1024 * step),
            self.x_of(XAxis::Wall, first_wall, Some(counter), step, wall) == Some(wall),
            self.x_of(XAxis::Relative, first_wall, Some(counter), step, wall) matches Some(at)
                && measures(at, x - y),
            self.x_of(XAxis::Tokens, first_wall, Some(counter), step, wall) == self.tokens_at(
                counter,
                step,
            ),
            self.x_of(XAxis::Tokens, first_wall, None, step, wall) is None,
    {
        self.lemma_exact_number(step);
        self.lemma_exact_difference(wall, first_wall, x, y);
    }
}

impl<O: Fn(Operation, u64, u64) -> u64, I: Fn(i64) -> u64> Arith<O, I> {
    /// A drawn point stands at its x position, with its value, in the order of
    /// the points.
    pub proof fn law_points_stand_at_their_place(
        self,
        axis: XAxis,
        first_wall: u64,
        counter: Option<PointsModel>,
        steps: Seq<i64>,
        walls: Seq<u64>,
        values: Seq<u64>,
        n: nat,
        at: int,
    )
        requires
            axis != XAxis::Tokens,
            0 <= at < n,
            n <= values.len(),
        ensures
            ({
                let line = self.columns(axis, first_wall, counter, steps, walls, values, n);
                &&& line.xs.len() == n && line.ys.len() == n
                &&& line.ys[at] == values[at]
                &&& axis == XAxis::Step ==> line.xs[at] == self.number(steps[at])
                &&& axis == XAxis::Wall ==> line.xs[at] == walls[at]
                &&& axis == XAxis::Relative ==> line.xs[at] == self.result(
                    Operation::Minus,
                    walls[at],
                    first_wall,
                )
            }),
        decreases n,
    {
        self.law_chart_shows_every_point(axis, first_wall, counter, steps, walls, values, n);
        self.law_chart_shows_every_point(
            axis,
            first_wall,
            counter,
            steps,
            walls,
            values,
            (n - 1) as nat,
        );
        if at < n - 1 {
            self.law_points_stand_at_their_place(
                axis,
                first_wall,
                counter,
                steps,
                walls,
                values,
                (n - 1) as nat,
                at,
            );
        }
    }

    /// A series that is drawn is added behind the others, under its label,
    /// with every point on every axis but tokens; its ghosts are drawn where
    /// they are asked for, and nowhere else; a series without points adds
    /// nothing.
    pub proof fn law_series_are_added(
        self,
        chart: ChartModel,
        points: PointsModel,
        counter: Option<PointsModel>,
        label: Seq<char>,
        options: OptionsModel,
    )
        requires
            points.values.len() == points.steps.len(),
            options.x_axis != XAxis::Tokens,
        ensures
            ({
                let after = self.with_series(chart, points, counter, label, options);
                let n = chart.series.len() as int;
                &&& points.steps.len() == 0 ==> after == chart
                &&& points.steps.len() > 0 ==> {
                    &&& after.series.len() == n + 1
                    &&& after.series.take(n) == chart.series
                    &&& after.series[n].label == label
                    &&& after.series[n].line.ys == points.values
                    &&& !options.show_ghosts ==> after.series[n].ghosts.len() == 0
                    &&& options.show_ghosts ==> after.series[n].ghosts == self.ghost_columns(
                        options.x_axis,
                        points.walls[0],
                        counter,
                        points.ghosts,
                    )
                }
                &&& after.cut == chart.cut && after.log_y == chart.log_y && after.time_x
                    == chart.time_x && after.smooth == chart.smooth
            }),
    {
        let n = points.steps.len();
        if n > 0 {
            self.law_chart_shows_every_point(
                options.x_axis,
                points.walls[0],
                counter,
                points.steps,
                points.walls,
                points.values,
                n,
            );
            assert(points.values.take(n as int) =~= points.values);
            let after = self.with_series(chart, points, counter, label, options);
            assert(after.series.take(chart.series.len() as int) =~= chart.series);
        }
    }

    /// Ghosts are drawn point by point: on every axis but tokens each tail
    /// with a point is a trace, with its values.
    pub proof fn law_ghosts_are_drawn(
        self,
        axis: XAxis,
        first_wall: u64,
        counter: Option<PointsModel>,
        ghosts: Seq<GhostModel>,
        tail: GhostModel,
    )
        requires
            axis != XAxis::Tokens,
            tail.values.len() == tail.steps.len(),
        ensures
            ({
                let before = self.ghost_columns(axis, first_wall, counter, ghosts);
                let after = self.ghost_columns(axis, first_wall, counter, ghosts.push(tail));
                &&& tail.steps.len() == 0 ==> after == before
                &&& tail.steps.len() > 0 ==> after.len() == before.len() + 1 && after.last().ys
                    == tail.values && after.drop_last() == before
            }),
    {
        assert(ghosts.push(tail).drop_last() =~= ghosts);
        self.law_chart_shows_every_point(
            axis,
            first_wall,
            counter,
            tail.steps,
            tail.walls,
            tail.values,
            tail.steps.len(),
        );
        assert(tail.values.take(tail.values.len() as int) =~= tail.values);
        let before = self.ghost_columns(axis, first_wall, counter, ghosts);
        if tail.steps.len() > 0 {
            let after = self.ghost_columns(axis, first_wall, counter, ghosts.push(tail));
            assert(after.drop_last() =~= before);
        }
    }

    /// Every restart is marked where its first point stands.
    pub proof fn law_restarts_are_marked(
        self,
        axis: XAxis,
        counter: Option<PointsModel>,
        points: PointsModel,
        list: Seq<u64>,
        n: nat,
        at: int,
    )
        requires
            ascending_bits(list),
            0 <= at < n,
            points.boundaries[at] < points.steps.len(),
        ensures
            ascending_bits(self.restarts_noted(axis, counter, points, list, n)),
            self.x_of(
                axis,
                points.walls[0],
                counter,
                points.steps[points.boundaries[at] as int],
                points.walls[points.boundaries[at] as int],
            ) matches Some(x) ==> self.restarts_noted(axis, counter, points, list, n).contains(x),
            forall|x: u64| #[trigger]
                list.contains(x) ==> self.restarts_noted(axis, counter, points, list, n).contains(x),
        decreases n,
    {
        let before = self.restarts_noted(axis, counter, points, list, (n - 1) as nat);
        self.lemma_restarts_ascend(axis, counter, points, list, (n - 1) as nat);
        self.lemma_restarts_ascend(axis, counter, points, list, n);
        if at < n - 1 {
            self.law_restarts_are_marked(axis, counter, points, list, (n - 1) as nat, at);
        }
        let place = points.boundaries[n - 1] as int;
        if place < points.steps.len() {
            if let Some(x) = self.x_of(
                axis,
                points.walls[0],
                counter,
                points.steps[place],
                points.walls[place],
            ) {
                law_noted_is_a_set(before, x);
            }
        }
    }

    proof fn lemma_restarts_ascend(
        self,
        axis: XAxis,
        counter: Option<PointsModel>,
        points: PointsModel,
        list: Seq<u64>,
        n: nat,
    )
        requires
            ascending_bits(list),
        ensures
            ascending_bits(self.restarts_noted(axis, counter, points, list, n)),
            forall|x: u64| #[trigger]
                list.contains(x) ==> self.restarts_noted(axis, counter, points, list, n).contains(x),
        decreases n,
    {
        if n > 0 {
            self.lemma_restarts_ascend(axis, counter, points, list, (n - 1) as nat);
            let before = self.restarts_noted(axis, counter, points, list, (n - 1) as nat);
            let place = points.boundaries[n - 1] as int;
            if place < points.steps.len() {
                if let Some(x) = self.x_of(
                    axis,
                    points.walls[0],
                    counter,
                    points.steps[place],
                    points.walls[place],
                ) {
                    law_noted_is_a_set(before, x);
                }
            }
        }
    }

    /// A reading names the series and tells a point of it, one that is nearest
    /// to the crosshair; a series without points reads nothing.
    pub proof fn law_readings_tell_the_nearest_point(
        self,
        series: Seq<ChartSeriesModel>,
        more: ChartSeriesModel,
        x: u64,
        other: int,
    )
        requires
            more.line.xs.len() > 0 ==> 0 <= other < more.line.xs.len(),
        ensures
            ({
                let before = self.readings(series, x);
                let after = self.readings(series.push(more), x);
                &&& more.line.xs.len() == 0 ==> after == before
                &&& more.line.xs.len() > 0 ==> {
                    let at = self.nearest(more.line.xs, x, more.line.xs.len());
                    &&& after.len() == before.len() + 1
                    &&& after.drop_last() == before
                    &&& after.last() == (more.label, more.line.xs[at], more.line.ys[at])
                    &&& 0 <= at < more.line.xs.len()
                    &&& !below(
                        self.distance(more.line.xs[other], x),
                        self.distance(after.last().1, x),
                    )
                }
            }),
    {
        assert(series.push(more).drop_last() =~= series);
        let before = self.readings(series, x);
        if more.line.xs.len() > 0 {
            self.law_nearest_is_nearest(more.line.xs, x, more.line.xs.len(), other);
            assert(self.readings(series.push(more), x).drop_last() =~= before);
        }
    }

    /// A bucket is as dense as its count over its width.
    pub proof fn law_density_is_count_over_width(
        self,
        left: u64,
        right: u64,
        count: u64,
        x: int,
        y: int,
        n: int,
        d: int,
    )
        requires
            self.exact(),
            measures(left, x),
            measures(right, y),
            measures(count, n),
            x < y,
            exact_up_to(y - x),
            exact_up_to(d),
            n * 1024 == d * (y - x),
        ensures
            measures(self.density((left, right, count)), d),
    {
        self.lemma_exact_difference(right, left, y, x);
        let width = self.result(Operation::Minus, right, left);
        lemma_smallest_is_below(width, y - x);
        self.lemma_exact_quotient(count, width, n, y - x, d);
    }

    /// The peak is the density of the densest bucket: none is above it.
    pub proof fn law_peak_is_the_densest(self, buckets: Seq<Bucket>, at: int)
        requires
            0 <= at < buckets.len(),
        ensures
            !below(self.peak(buckets), self.density(buckets[at])),
            !nan(self.peak(buckets)),
        decreases buckets.len(),
    {
        let init = buckets.drop_last();
        if at < init.len() {
            self.law_peak_is_the_densest(init, at);
            assert(init[at] == buckets[at]);
        } else if init.len() > 0 {
            self.law_peak_is_the_densest(init, 0);
        } else {
            assert(self.peak(init) == 0);
        }
    }

    /// A silhouette starts and ends on its baseline and has one step per
    /// bucket, at the bucket's left edge.
    pub proof fn law_silhouettes_step_by_bucket(self, buckets: Seq<Bucket>, lift: u64, at: int)
        requires
            0 <= at < buckets.len(),
        ensures
            ({
                let line = self.silhouette(buckets, lift);
                let n = buckets.len() as int;
                &&& line.xs.len() == n + 2 && line.ys.len() == n + 2
                &&& line.ys[0] == lift && line.ys[n + 1] == lift
                &&& line.xs[0] == buckets[0].0 && line.xs[n + 1] == buckets[n - 1].1
                &&& line.xs[at + 1] == buckets[at].0
                &&& line.ys[at + 1] == self.result(
                    Operation::Plus,
                    lift,
                    self.height(buckets[at], self.peak(buckets)),
                )
            }),
            self.silhouette(Seq::empty(), lift).xs.len() == 0,
    {
    }

    /// A ridgeline has a row for each snapshot that it samples, oldest first,
    /// and the newest on the ground.
    pub proof fn law_ridges_show_the_sample(
        self,
        snapshots: Seq<SnapshotModel>,
        max_rows: int,
        row: int,
    )
        requires
            max_rows > 1,
            0 <= row < row_count(snapshots.len() as int, max_rows),
        ensures
            ({
                let rows = self.ridges(snapshots, max_rows);
                let count = row_count(snapshots.len() as int, max_rows);
                &&& rows.len() == count
                &&& rows[row] == self.silhouette(
                    snapshots[sampled(snapshots.len() as int, max_rows, row)].buckets,
                    self.result(
                        Operation::Times,
                        self.number((count - 1 - row) as i64),
                        0x3FE1_9999_9999_999A,
                    ),
                )
            }),
            snapshots.len() <= max_rows ==> row_count(snapshots.len() as int, max_rows)
                == snapshots.len() && sampled(snapshots.len() as int, max_rows, row) == row,
            snapshots.len() > max_rows ==> row_count(snapshots.len() as int, max_rows) == max_rows,
    {
    }
}

/// The smallest width is the first number with a leading digit.
#[verifier::spinoff_prover]
proof fn lemma_smallest_units()
    ensures
        crate::double::units(MIN_POSITIVE) == 0x10_0000_0000_0000,
{
    vstd::arithmetic::power2::lemma2_to64();
    let size = crate::double::magnitude(MIN_POSITIVE);
    assert(size == 0x10_0000_0000_0000);
    assert(size / 0x10_0000_0000_0000 == 1);
    assert(size % 0x10_0000_0000_0000 == 0);
    let one = vstd::arithmetic::power2::pow2(0) as int;
    assert(one == 1);
    assert((0x10_0000_0000_0000 + 0) * one == 0x10_0000_0000_0000) by (nonlinear_arith)
        requires
            one == 1,
    ;
}

/// A positive number of 1024ths is above the smallest width.
proof fn lemma_smallest_is_below(bits: u64, n: int)
    requires
        measures(bits, n),
        n > 0,
    ensures
        upper(bits, MIN_POSITIVE) == bits,
{
    vstd::arithmetic::power2::lemma2_to64();
    vstd::arithmetic::power2::lemma2_to64_rest();
    let p = vstd::arithmetic::power2::pow2(1064) as int;
    vstd::arithmetic::power2::lemma_pow2_adds(52, 1012);
    vstd::arithmetic::power2::lemma_pow2_pos(1012);
    lemma_smallest_units();
    let q = vstd::arithmetic::power2::pow2(1012) as int;
    assert(n * p >= 0x10_0000_0000_0000) by (nonlinear_arith)
        requires
            n > 0,
            p == 0x10_0000_0000_0000 * q,
            q > 0,
    ;
    crate::exact::law_order_is_the_order_of_numbers(bits, MIN_POSITIVE);
}

/// A chart takes the first sixteen series, and counts the rest.
pub proof fn law_charts_take_sixteen<T>(list: Seq<T>)
    requires
        list.len() <= usize::MAX,
    ensures
        front(list).len() <= 16,
        front(list).len() + beyond(list.len()) == list.len(),
        front(list) == list.take(front(list).len() as int),
        beyond(list.len()) > 0 ==> front(list).len() == 16,
{
    assert(list.take(list.len() as int) =~= list);
}

/// The legend names the tag, behind its run where the chart is of several.
pub proof fn law_legends(run: Seq<char>, tag: Seq<char>)
    ensures
        match_label(run, tag, false) == tag,
        match_label(run, tag, true) == run + " "@ + tag,
{
}

/// A chart starts empty, with the switches that were chosen; its x axis is one
/// of times where that is the wall clock.
pub proof fn law_charts_start_empty(options: OptionsModel)
    ensures
        ({
            let chart = ChartModel::start(options);
            &&& chart.series.len() == 0 && chart.boundaries.len() == 0
            &&& chart.time_x == (options.x_axis == XAxis::Wall)
            &&& chart.log_y == options.log_y && chart.smooth == options.smooth
            &&& chart.cut == 0 && chart.run_count == 0 && chart.tokens_dropped == 0
                && chart.runs_without_counter == 0
        }),
{
}

/// The range of a chart spans its series: it starts no later than the first
/// position of any, ends no earlier than the last, and either end is one of
/// theirs.
pub proof fn law_extent_spans_the_series(series: Seq<ChartSeriesModel>, at: int)
    requires
        0 <= at < series.len(),
        forall|i: int|
            0 <= i < series.len() && (#[trigger] series[i]).line.xs.len() > 0 ==> finite(
                series[i].line.xs.first(),
            ) && finite(series[i].line.xs.last()),
    ensures
        series[at].line.xs.len() > 0 ==> (extent(series) matches Some((from, to)) && !below(
            series[at].line.xs.first(),
            from,
        ) && !below(to, series[at].line.xs.last())),
        extent(series) matches Some((from, to)) ==> finite(from) && finite(to) && (exists|i: int|
            0 <= i < series.len() && (#[trigger] series[i]).line.xs.len() > 0
                && series[i].line.xs.first() == from) && (exists|i: int|
            0 <= i < series.len() && (#[trigger] series[i]).line.xs.len() > 0
                && series[i].line.xs.last() == to),
    decreases series.len(),
{
    let init = series.drop_last();
    let n = series.len() - 1;
    assert(series[n] == series.last());
    assert forall|i: int|
        0 <= i < init.len() && (#[trigger] init[i]).line.xs.len() > 0 implies finite(
        init[i].line.xs.first(),
    ) && finite(init[i].line.xs.last()) by {
        assert(init[i] == series[i]);
    }
    if init.len() > 0 {
        let k = if at < n {
            at
        } else {
            0
        };
        law_extent_spans_the_series(init, k);
        assert(init[k] == series[k]);
        if let Some((from, to)) = extent(init) {
            let i = choose|i: int|
                0 <= i < init.len() && (#[trigger] init[i]).line.xs.len() > 0
                    && init[i].line.xs.first() == from;
            let j = choose|j: int|
                0 <= j < init.len() && (#[trigger] init[j]).line.xs.len() > 0
                    && init[j].line.xs.last() == to;
            assert(init[i] == series[i] && init[j] == series[j]);
        }
    }
}

/// A scalar series whose tag holds the filter is matched, and no other.
pub proof fn law_matching_tags(run: Run, filter: Seq<char>, n: nat, at: int)
    requires
        run.series.wf(),
        n <= run.series.names().len(),
        0 <= at < run.series.names().len(),
    ensures
        matching_tags(run, filter, n).contains(run.series.names()[at]) <==> at < n
            && run.series.values()[at].class == SeriesClass::Scalar && within(
            run.series.names()[at],
            filter,
        ),
    decreases n,
{
    let list = matching_tags(run, filter, n);
    let tag = run.series.names()[at];
    if n > 0 {
        let before = matching_tags(run, filter, (n - 1) as nat);
        law_matching_tags(run, filter, (n - 1) as nat, at);
        let last = run.series.names()[n - 1];
        if before.contains(tag) {
            let k = choose|k: int| 0 <= k < before.len() && before[k] == tag;
            assert(list[k] == tag);
        }
        if run.series.values()[n - 1].class == SeriesClass::Scalar && within(last, filter) {
            assert(list[before.len() as int] == last);
        }
        if list.contains(tag) && !before.contains(tag) {
            let k = choose|k: int| 0 <= k < list.len() && list[k] == tag;
            if k < before.len() {
                assert(before[k] == tag);
            }
            assert(tag == last);
            if at < n - 1 {
                crate::names::lemma_in_order_distinct(run.series.names(), at, n - 1);
            } else if at > n - 1 {
                crate::names::lemma_in_order_distinct(run.series.names(), n - 1, at);
            }
        }
    }
}

/// Every match is materialized on every axis but tokens, in order; on the
/// tokens axis behind its run's counter, and not at all without one.
pub proof fn law_matches_are_materialized(
    runs: Map<Seq<char>, RunModel>,
    matches: Seq<(Seq<char>, Seq<char>)>,
    options: OptionsModel,
    run: Seq<char>,
    tag: Seq<char>,
)
    ensures
        ({
            let before = to_materialize(runs, matches, options);
            let after = to_materialize(runs, matches.push((run, tag)), options);
            &&& options.x_axis != XAxis::Tokens ==> after == before.push((run, tag))
            &&& options.x_axis == XAxis::Tokens ==> match counter_in(
                runs,
                run,
                options.tokens_tag,
            ) {
                Some(counter) => after == before.push((run, counter)).push((run, tag)),
                None => after == before,
            }
        }),
        to_materialize(runs, Seq::empty(), options).len() == 0,
{
    assert(matches.push((run, tag)).drop_last() =~= matches);
}

} // verus!
