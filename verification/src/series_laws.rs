//! What a series remembers: a summary's segments behind every point, points
//! and ghosts behind a restart, snapshots behind a rewrite, and the points
//! that events and rows hold.
use vstd::prelude::*;

use crate::backends::{hparams_of, shrank, DvcliveModel, DocumentModel, MlflowModel, ParamFileModel, TextModel};
use crate::double::{finite, nan};
use crate::dvclive::TsvSchema;
use crate::event::{EventModel, PayloadModel, ValueModel};
use crate::exact::signed_units;
use crate::materialize::{event_points, event_snapshots, events_points, events_snapshots};
use crate::numeric::{Moments, Numeric};
use crate::run::{hparam_of_param, Intake};
use crate::series::{
    increasing, kept, last_point, lemma_kept, preempts, snapshot_steps, HistogramsModel, PointStamp,
    PointsModel, SegmentSummary, SnapshotModel,
};
use crate::text::trimmed;

verus! {

impl<
    F: Fn(&str) -> Option<u64>,
    G: Fn(u64) -> u64,
    H: Fn(Moments, u64) -> Moments,
> Numeric<F, G, H> {
    /// The first point of a series is its first and its last, and counted; a
    /// finite one is its least and its greatest, another is counted apart.
    pub proof fn law_first_point_of_a_summary(self, point: PointStamp)
        ensures
            ({
                let segments = self.observed(Seq::empty(), point);
                &&& segments.len() == 1
                &&& segments[0].first == point && segments[0].last == point
                &&& segments[0].count == 1 && segments[0].preempted_at is None
                &&& finite(point.value) ==> segments[0].min == point.value && segments[0].max
                    == point.value && segments[0].non_finite == 0
                &&& !finite(point.value) ==> nan(segments[0].min) && nan(segments[0].max)
                    && segments[0].non_finite == 1
            }),
    {
    }

    /// A point whose step goes up grows the last segment; one whose step does
    /// not opens the next, and marks where the one before was cut off. Earlier
    /// segments stay.
    pub proof fn law_next_point_of_a_summary(
        self,
        segments: Seq<SegmentSummary>,
        point: PointStamp,
        at: int,
    )
        requires
            segments.len() > 0,
            segments.last().count < u64::MAX,
            segments.last().non_finite < u64::MAX,
        ensures
            ({
                let after = self.observed(segments, point);
                let n = segments.len() - 1;
                let grows = segments[n].last.step < point.step;
                &&& 0 <= at < n ==> after[at] == segments[at]
                &&& last_point(after) == Some(point)
                &&& preempts(segments, point) == !grows
                &&& grows ==> {
                    &&& after.len() == segments.len()
                    &&& after[n].first == segments[n].first
                    &&& after[n].count == segments[n].count + 1
                    &&& after[n].preempted_at == segments[n].preempted_at
                    &&& finite(point.value) ==> after[n].non_finite == segments[n].non_finite
                    &&& !finite(point.value) ==> after[n].non_finite == segments[n].non_finite + 1
                        && after[n].min == segments[n].min && after[n].max == segments[n].max
                        && after[n].moments == segments[n].moments
                }
                &&& !grows ==> {
                    &&& after.len() == segments.len() + 1
                    &&& after[n] == (SegmentSummary {
                        preempted_at: Some(point.step),
                        ..segments[n]
                    })
                    &&& after[n + 1].first == point && after[n + 1].count == 1
                    &&& after[n + 1].preempted_at is None
                }
            }),
    {
    }

    /// A finite value is between the least and the greatest of its segment, and
    /// its moments are those behind the value.
    pub proof fn law_values_lie_between_the_extremes(
        self,
        segment: SegmentSummary,
        point: PointStamp,
    )
        requires
            finite(point.value),
            nan(segment.min) || finite(segment.min),
            nan(segment.max) || finite(segment.max),
        ensures
            ({
                let after = self.grow(segment, point);
                &&& finite(after.min) && finite(after.max)
                &&& signed_units(after.min) <= signed_units(point.value) <= signed_units(after.max)
                &&& finite(segment.min) ==> signed_units(after.min) <= signed_units(segment.min)
                    && (after.min == segment.min || after.min == point.value)
                &&& finite(segment.max) ==> signed_units(segment.max) <= signed_units(after.max)
                    && (after.max == segment.max || after.max == point.value)
                &&& nan(segment.min) ==> after.min == point.value
                &&& nan(segment.max) ==> after.max == point.value
                &&& after.moments == self.push(segment.moments, point.value)
            }),
    {
        if finite(segment.min) {
            crate::catalog_laws::law_lower_and_upper(segment.min, point.value);
        }
        if finite(segment.max) {
            crate::catalog_laws::law_lower_and_upper(segment.max, point.value);
        }
    }

    /// A line of a text file is a point where it reads, and else a lost record
    /// more.
    pub proof fn law_lines_are_points_or_lost(
        self,
        intake: Intake,
        name: Seq<char>,
        tag: Seq<char>,
        schema: TsvSchema,
        line: Seq<char>,
        lines: Seq<Seq<char>>,
    )
        ensures
            self.row(schema, line) matches Some(row) ==> self.take_row(
                intake,
                name,
                tag,
                schema,
                line,
            ) == self.take_scalar(
                intake,
                name,
                tag,
                PointStamp { step: row.step, wall: row.wall, value: row.value },
            ),
            self.row(schema, line) is None ==> self.take_row(intake, name, tag, schema, line)
                == intake.dropped(),
            self.metric(line) matches Some(metric) ==> self.take_metric(intake, name, tag, line)
                == self.take_scalar(
                intake,
                name,
                tag,
                PointStamp { step: metric.step, wall: metric.wall, value: metric.value },
            ),
            self.metric(line) is None ==> self.take_metric(intake, name, tag, line)
                == intake.dropped(),
            self.take_rows(intake, name, tag, schema, lines.push(line)) == self.take_row(
                self.take_rows(intake, name, tag, schema, lines),
                name,
                tag,
                schema,
                line,
            ),
            self.take_metrics(intake, name, tag, lines.push(line)) == self.take_metric(
                self.take_metrics(intake, name, tag, lines),
                name,
                tag,
                line,
            ),
    {
        assert(lines.push(line).drop_last() =~= lines);
    }

    /// A parameter document is read where its modification time is another one
    /// than before; the run then has what it says, and nothing else.
    pub proof fn law_documents_are_read_when_they_change(
        self,
        intake: Intake,
        state: DvcliveModel,
        document: DocumentModel,
        text: Seq<char>,
    )
        ensures
            document.mtime == state.params_mtime ==> self.take_document(
                intake,
                state,
                Some(document),
            ) == (intake, state),
            document.mtime != state.params_mtime && document.text == Some(text) ==> ({
                let (after, noted) = self.take_document(intake, state, Some(document));
                &&& after.run.hparams == hparams_of(self.params(text))
                &&& after.run.series == intake.run.series && after.points == intake.points
                &&& noted == (DvcliveModel { params_mtime: document.mtime, ..state })
            }),
            document.mtime != state.params_mtime && document.text is None ==> self.take_document(
                intake,
                state,
                Some(document),
            ).0 == intake,
            self.take_document(intake, state, None) == (intake, state),
    {
    }

    /// A parameter file is read once, and sets the parameter of its name.
    pub proof fn law_parameter_files_are_read_once(
        self,
        intake: Intake,
        state: MlflowModel,
        file: ParamFileModel,
        text: Seq<char>,
    )
        ensures
            state.params_seen.dom().contains(file.path) ==> self.take_param(intake, state, file)
                == (intake, state),
            !state.params_seen.dom().contains(file.path) ==> ({
                let (after, noted) = self.take_param(intake, state, file);
                &&& noted.params_seen.dom().contains(file.path)
                &&& noted.offsets == state.offsets && noted.run == state.run
                &&& file.text == Some(text) ==> after.run.hparams == intake.run.hparams.insert(
                    file.relative,
                    hparam_of_param(self.typed(trimmed(text))),
                ) && after.run.series == intake.run.series
                &&& file.text is None ==> after == intake
                &&& self.take_param(after, noted, file) == (after, noted)
            }),
    {
    }

    /// Where a file is shorter than what was read of it, all files of the root
    /// are read again from their start, into a run without series.
    pub proof fn law_shrunk_files_start_over(
        self,
        intake: Intake,
        state: MlflowModel,
        files: Seq<TextModel>,
    )
        requires
            shrank(state.offsets, files),
        ensures
            self.drain_mlflow(intake, state, Seq::empty(), files) == self.drain_metrics(
                intake.reset(state.run),
                MlflowModel { offsets: Map::empty(), ..state },
                files,
            ),
    {
    }
}

/// A file shrank where it is shorter than the offset that it was read to; one
/// that was not read yet cannot have.
pub proof fn law_shrunk_files(offsets: Map<Seq<char>, u64>, file: TextModel)
    ensures
        offsets.dom().contains(file.path) && file.len < offsets[file.path] ==> shrank(
            offsets,
            seq![file],
        ),
        offsets.dom().contains(file.path) && file.len >= offsets[file.path] ==> !shrank(
            offsets,
            seq![file],
        ),
        !offsets.dom().contains(file.path) ==> !shrank(offsets, seq![file]),
{
    let files = seq![file];
    assert(files[0] == file);
}

/// A point behind all others is added at the end. One that is not moves those
/// at or behind its step into a ghost, in order, and marks where.
pub proof fn law_points_behind_a_restart(points: PointsModel, point: PointStamp, cut: int)
    requires
        points.wf(),
        0 <= cut <= points.steps.len(),
        cut > 0 ==> points.steps[cut - 1] < point.step,
        cut < points.steps.len() ==> point.step <= points.steps[cut],
        points.steps.len() <= usize::MAX,
    ensures
        ({
            let after = points.pushed(point);
            &&& after.steps == points.steps.take(cut).push(point.step)
            &&& after.walls == points.walls.take(cut).push(point.wall)
            &&& after.values == points.values.take(cut).push(point.value)
            &&& cut == points.steps.len() ==> after.boundaries == points.boundaries && after.ghosts
                == points.ghosts
            &&& cut < points.steps.len() ==> {
                &&& after.boundaries == points.boundaries.push(cut as usize)
                &&& after.ghosts.len() == points.ghosts.len() + 1
                &&& after.ghosts.drop_last() == points.ghosts
                &&& after.ghosts.last().at == cut
                &&& after.ghosts.last().steps == points.steps.skip(cut)
                &&& after.ghosts.last().walls == points.walls.skip(cut)
                &&& after.ghosts.last().values == points.values.skip(cut)
            }
        }),
{
    lemma_cut(points.steps, point.step, cut);
    let after = points.pushed(point);
    if cut == points.steps.len() {
        assert(points.steps.take(cut) =~= points.steps);
        assert(points.walls.take(cut) =~= points.walls);
        assert(points.values.take(cut) =~= points.values);
    } else {
        assert(after.ghosts.drop_last() =~= points.ghosts);
    }
}

proof fn lemma_cut(steps: Seq<i64>, step: i64, cut: int)
    requires
        increasing(steps),
        0 <= cut <= steps.len(),
        cut > 0 ==> steps[cut - 1] < step,
        cut < steps.len() ==> step <= steps[cut],
    ensures
        kept(steps, step) == cut,
{
    lemma_kept(steps, step);
    let k = kept(steps, step) as int;
    if k < cut {
        assert(steps[k] >= step);
        if k < cut - 1 {
            assert(steps[k] < steps[cut - 1]);
        }
    } else if cut < k {
        assert(steps[k - 1] < step);
        if cut < k - 1 {
            assert(steps[cut] < steps[k - 1]);
        }
    }
}

/// A snapshot behind all others is added at the end; one that is not drops
/// those at or behind its step, and marks where.
pub proof fn law_snapshots_behind_a_restart(
    series: HistogramsModel,
    snapshot: SnapshotModel,
    cut: int,
)
    requires
        series.wf(),
        0 <= cut <= series.snapshots.len(),
        cut > 0 ==> series.snapshots[cut - 1].step < snapshot.step,
        cut < series.snapshots.len() ==> snapshot.step <= series.snapshots[cut].step,
        series.snapshots.len() <= usize::MAX,
    ensures
        ({
            let after = series.pushed(snapshot);
            &&& after.snapshots == series.snapshots.take(cut).push(snapshot)
            &&& cut == series.snapshots.len() ==> after.boundaries == series.boundaries
            &&& cut < series.snapshots.len() ==> after.boundaries == series.boundaries.push(
                cut as usize,
            )
        }),
{
    let steps = snapshot_steps(series.snapshots);
    lemma_cut(steps, snapshot.step, cut);
    assert(series.snapshots.take(series.snapshots.len() as int) =~= series.snapshots);
}

/// An event holds a point for each of its values under the tag, at its step
/// and wall time; what reads as no number is a gap; another payload holds none.
pub proof fn law_events_hold_points(event: EventModel, value: ValueModel, tag: Seq<char>)
    requires
        event.payload == PayloadModel::Summary(seq![value]),
    ensures
        value.tag != tag ==> event_points(event, tag).len() == 0 && event_snapshots(
            event,
            tag,
        ).len() == 0,
        value.tag == tag ==> event_points(event, tag).len() == 1,
        value.tag == tag ==> (value.scalar() matches Some(bits) ==> event_points(event, tag)[0]
            == (PointStamp { step: event.step, wall: event.wall_time, value: bits })),
        value.tag == tag && value.scalar() is None ==> nan(event_points(event, tag)[0].value),
        value.tag == tag ==> (value.histogram_buckets() matches Some(buckets) ==> event_snapshots(
            event,
            tag,
        ) == seq![SnapshotModel { step: event.step, wall: event.wall_time, buckets }]),
        value.histogram_buckets() is None ==> event_snapshots(event, tag).len() == 0,
        event_points(EventModel { payload: PayloadModel::Other, ..event }, tag).len() == 0,
{
    let values = seq![value];
    reveal_with_fuel(crate::materialize::values_points, 2);
    reveal_with_fuel(crate::materialize::values_snapshots, 2);
    assert(values.drop_last() =~= Seq::<ValueModel>::empty());
}

/// The points of events are those of each, one event behind the other.
pub proof fn law_points_of_events_in_order(events: Seq<EventModel>, event: EventModel, tag: Seq<char>)
    ensures
        events_points(events.push(event), tag) == events_points(events, tag) + event_points(
            event,
            tag,
        ),
        events_snapshots(events.push(event), tag) == events_snapshots(events, tag)
            + event_snapshots(event, tag),
        events_points(Seq::empty(), tag).len() == 0,
{
    assert(events.push(event).drop_last() =~= events);
}

} // verus!
