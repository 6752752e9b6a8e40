//! Collecting the points of one series out of the files of its run.
use vstd::prelude::*;

use crate::backends::first_schema;
use crate::dvclive::TsvSchema;
use crate::event::{event_of, Event, EventModel, EventPayload, PayloadModel, ValueModel};
use crate::numeric::{Moments, Numeric};
use crate::reader::{read_event, ReadEventError};
use crate::record::{frame, ByteStream, Frame, RecordReader};
use crate::series::{
    HistogramSeries, HistogramSnapshot, HistogramsModel, PointStamp, Points, PointsModel,
    SnapshotModel,
};
use crate::text::{decode_text, lines_of, same_text, split_lines, text_of, texts};
use crate::wandb::{payloads, read_records, scan};
use crate::wandb_record::{WandbModel, WandbRecord, NAN};

verus! {

/// Points with more pushed onto them, one behind the other.
pub open spec fn pushed_onto(points: PointsModel, more: Seq<PointStamp>) -> PointsModel
    decreases more.len(),
{
    if more.len() == 0 {
        points
    } else {
        pushed_onto(points, more.drop_last()).pushed(more.last())
    }
}

/// Pushing a sequence and then another is pushing both.
pub proof fn lemma_pushed_concat(points: PointsModel, a: Seq<PointStamp>, b: Seq<PointStamp>)
    ensures
        pushed_onto(pushed_onto(points, a), b) == pushed_onto(points, a + b),
    decreases b.len(),
{
    if b.len() == 0 {
        assert(a + b =~= a);
    } else {
        lemma_pushed_concat(points, a, b.drop_last());
        assert((a + b).drop_last() =~= a + b.drop_last());
    }
}

/// Pushing onto nothing.
pub proof fn lemma_pushed_onto_start(points: Seq<PointStamp>)
    ensures
        pushed_onto(PointsModel::start(), points) == PointsModel::pushed_all(points),
    decreases points.len(),
{
    if points.len() > 0 {
        lemma_pushed_onto_start(points.drop_last());
    }
}

/// Snapshots with more pushed onto them, one behind the other.
pub open spec fn snapshots_onto(
    series: HistogramsModel,
    more: Seq<SnapshotModel>,
) -> HistogramsModel
    decreases more.len(),
{
    if more.len() == 0 {
        series
    } else {
        snapshots_onto(series, more.drop_last()).pushed(more.last())
    }
}

/// Pushing a sequence and then another is pushing both.
pub proof fn lemma_snapshots_concat(
    series: HistogramsModel,
    a: Seq<SnapshotModel>,
    b: Seq<SnapshotModel>,
)
    ensures
        snapshots_onto(snapshots_onto(series, a), b) == snapshots_onto(series, a + b),
    decreases b.len(),
{
    if b.len() == 0 {
        assert(a + b =~= a);
    } else {
        lemma_snapshots_concat(series, a, b.drop_last());
        assert((a + b).drop_last() =~= a + b.drop_last());
    }
}

/// The point that a value of a summary stands for.
pub open spec fn value_point(value: ValueModel, step: i64, wall: u64) -> PointStamp {
    PointStamp {
        step,
        wall,
        value: match value.scalar() {
            Some(bits) => bits,
            None => NAN,
        },
    }
}

/// The points of the values under a tag.
pub open spec fn values_points(
    values: Seq<ValueModel>,
    tag: Seq<char>,
    step: i64,
    wall: u64,
) -> Seq<PointStamp>
    decreases values.len(),
{
    if values.len() == 0 {
        Seq::empty()
    } else {
        let before = values_points(values.drop_last(), tag, step, wall);
        if values.last().tag == tag {
            before.push(value_point(values.last(), step, wall))
        } else {
            before
        }
    }
}

/// The points of an event under a tag.
pub open spec fn event_points(event: EventModel, tag: Seq<char>) -> Seq<PointStamp> {
    match event.payload {
        PayloadModel::Summary(values) => values_points(values, tag, event.step, event.wall_time),
        _ => Seq::empty(),
    }
}

/// The snapshots of the values under a tag.
pub open spec fn values_snapshots(
    values: Seq<ValueModel>,
    tag: Seq<char>,
    step: i64,
    wall: u64,
) -> Seq<SnapshotModel>
    decreases values.len(),
{
    if values.len() == 0 {
        Seq::empty()
    } else {
        let before = values_snapshots(values.drop_last(), tag, step, wall);
        match values.last().histogram_buckets() {
            Some(buckets) => if values.last().tag == tag {
                before.push(SnapshotModel { step, wall, buckets })
            } else {
                before
            },
            None => before,
        }
    }
}

/// The snapshots of an event under a tag.
pub open spec fn event_snapshots(event: EventModel, tag: Seq<char>) -> Seq<SnapshotModel> {
    match event.payload {
        PayloadModel::Summary(values) => values_snapshots(
            values,
            tag,
            event.step,
            event.wall_time,
        ),
        _ => Seq::empty(),
    }
}

/// The events of the whole records at the front of bytes; records that do not
/// decode are passed over.
pub open spec fn events_of(bytes: Seq<u8>) -> Seq<EventModel>
    decreases bytes.len(),
{
    match frame(bytes) {
        Frame::Whole { data, data_crc, size } => if 0 < size <= bytes.len() {
            let more = events_of(bytes.skip(size as int));
            match event_of(data) {
                Ok(event) => seq![event] + more,
                Err(_) => more,
            }
        } else {
            Seq::empty()
        },
        _ => Seq::empty(),
    }
}

/// The points of events under a tag.
pub open spec fn events_points(events: Seq<EventModel>, tag: Seq<char>) -> Seq<PointStamp>
    decreases events.len(),
{
    if events.len() == 0 {
        Seq::empty()
    } else {
        events_points(events.drop_last(), tag) + event_points(events.last(), tag)
    }
}

/// The snapshots of events under a tag.
pub open spec fn events_snapshots(events: Seq<EventModel>, tag: Seq<char>) -> Seq<SnapshotModel>
    decreases events.len(),
{
    if events.len() == 0 {
        Seq::empty()
    } else {
        events_snapshots(events.drop_last(), tag) + event_snapshots(events.last(), tag)
    }
}

/// Pushes the points of an event under a tag.
fn collect_points(points: &mut Points, event: &Event, tag: &str)
    requires
        old(points).wf(),
    ensures
        final(points).wf(),
        final(points)@ == pushed_onto(old(points)@, event_points(event@, tag@)),
{
    let values = match &event.payload {
        EventPayload::Summary(values) => values,
        _ => return ,
    };
    let ghost models = event@.payload->Summary_0;
    let ghost start = points@;
    let mut i: usize = 0;
    assert(models.take(0) =~= Seq::<ValueModel>::empty());
    while i < values.len()
        invariant
            i <= values@.len(),
            models.len() == values@.len(),
            forall|k: int| 0 <= k < values@.len() ==> #[trigger] models[k] == values@[k]@,
            points.wf(),
            points@ == pushed_onto(
                start,
                values_points(models.take(i as int), tag@, event.step, event.wall_time),
            ),
        decreases values@.len() - i,
    {
        let ghost before = values_points(
            models.take(i as int),
            tag@,
            event.step,
            event.wall_time,
        );
        proof {
            assert(models.take(i + 1).drop_last() =~= models.take(i as int));
            assert(models.take(i + 1).last() == values@[i as int]@);
        }
        let value = &values[i];
        if same_text(&value.tag, tag) {
            let point = PointStamp {
                step: event.step,
                wall: event.wall_time,
                value: match value.scalar() {
                    Some(bits) => bits,
                    None => NAN,
                },
            };
            points.push(point);
            assert(before.push(point).drop_last() =~= before);
        }
        i += 1;
    }
    assert(models.take(i as int) =~= models);
}

/// Pushes the snapshots of an event under a tag.
fn collect_snapshots(series: &mut HistogramSeries, event: &Event, tag: &str)
    requires
        old(series).wf(),
    ensures
        final(series).wf(),
        final(series)@ == snapshots_onto(old(series)@, event_snapshots(event@, tag@)),
{
    let values = match &event.payload {
        EventPayload::Summary(values) => values,
        _ => return ,
    };
    let ghost models = event@.payload->Summary_0;
    let ghost start = series@;
    let mut i: usize = 0;
    assert(models.take(0) =~= Seq::<ValueModel>::empty());
    while i < values.len()
        invariant
            i <= values@.len(),
            models.len() == values@.len(),
            forall|k: int| 0 <= k < values@.len() ==> #[trigger] models[k] == values@[k]@,
            series.wf(),
            series@ == snapshots_onto(
                start,
                values_snapshots(models.take(i as int), tag@, event.step, event.wall_time),
            ),
        decreases values@.len() - i,
    {
        let ghost before = values_snapshots(
            models.take(i as int),
            tag@,
            event.step,
            event.wall_time,
        );
        proof {
            assert(models.take(i + 1).drop_last() =~= models.take(i as int));
            assert(models.take(i + 1).last() == values@[i as int]@);
        }
        let value = &values[i];
        if same_text(&value.tag, tag) {
            if let Some(buckets) = value.histogram_buckets() {
                let snapshot = HistogramSnapshot {
                    step: event.step,
                    wall: event.wall_time,
                    buckets,
                };
                series.push(snapshot);
                assert(before.push(snapshot@).drop_last() =~= before);
            }
        }
        i += 1;
    }
    assert(models.take(i as int) =~= models);
}

/// The front of bytes, up to a frontier.
pub open spec fn upto(bytes: Seq<u8>, frontier: u64) -> Seq<u8> {
    if frontier < bytes.len() {
        bytes.take(frontier as int)
    } else {
        bytes
    }
}

/// The front of bytes, up to a frontier.
fn front(bytes: &[u8], frontier: u64) -> (result: &[u8])
    ensures
        result@ == upto(bytes@, frontier),
{
    if frontier < bytes.len() as u64 {
        let result = vstd::slice::slice_subrange(bytes, 0, frontier as usize);
        assert(result@ =~= bytes@.take(frontier as int));
        result
    } else {
        bytes
    }
}

proof fn lemma_events_step(bytes: Seq<u8>, done: Seq<EventModel>)
    requires
        frame(bytes) is Whole,
    ensures
        frame(bytes) matches Frame::Whole { data, data_crc, size } && 0 < size <= bytes.len()
            && match event_of(data) {
            Ok(event) => done + events_of(bytes) == done.push(event) + events_of(
                bytes.skip(size as int),
            ),
            Err(_) => events_of(bytes) == events_of(bytes.skip(size as int)),
        },
{
    if let Frame::Whole { data, data_crc, size } = frame(bytes) {
        if let Ok(event) = event_of(data) {
            let more = events_of(bytes.skip(size as int));
            assert(done + (seq![event] + more) =~= done.push(event) + more);
        }
    }
}

/// Pushes the points of an event file under a tag, up to a frontier.
pub fn points_of_events(points: &mut Points, bytes: &[u8], frontier: u64, tag: &str)
    requires
        old(points).wf(),
    ensures
        final(points).wf(),
        final(points)@ == pushed_onto(
            old(points)@,
            events_points(events_of(upto(bytes@, frontier)), tag@),
        ),
{
    let part = front(bytes, frontier);
    let ghost all = events_of(part@);
    let ghost mut done: Seq<EventModel> = Seq::empty();
    let mut stream = ByteStream::new(crate::bytes::copy_bytes(part));
    let mut records = RecordReader::new();
    let ghost start = points@;
    proof {
        assert(records.ahead(stream) =~= part@);
        assert(part.len() == part@.len());
        assert(done + all =~= all);
    }
    loop
        invariant
            records.wf(),
            records.room(stream),
            records.dead() is None,
            points.wf(),
            all == done + events_of(records.ahead(stream)),
            points@ == pushed_onto(start, events_points(done, tag@)),
            start == old(points)@,
            all == events_of(upto(bytes@, frontier)),
        decreases records.ahead(stream).len(),
    {
        let ghost ahead = records.ahead(stream);
        proof {
            if frame(ahead) is Whole {
                lemma_events_step(ahead, done);
            }
        }
        match read_event(&mut records, &mut stream) {
            Ok(event) => {
                let ghost before = events_points(done, tag@);
                collect_points(points, &event, tag);
                proof {
                    lemma_pushed_concat(start, before, event_points(event@, tag@));
                    assert(done.push(event@).drop_last() =~= done);
                    done = done.push(event@);
                    assert(records.ahead(stream) =~= ahead.skip(frame(ahead)->Whole_size as int));
                }
            },
            // Already accounted when the file was drained.
            Err(ReadEventError::Corrupt { .. }) => {
                assert(records.ahead(stream) =~= ahead.skip(frame(ahead)->Whole_size as int));
            },
            Err(ReadEventError::Malformed { .. }) => {
                assert(records.ahead(stream) =~= ahead.skip(frame(ahead)->Whole_size as int));
            },
            Err(_) => {
                assert(done + Seq::<EventModel>::empty() =~= done);
                return ;
            },
        }
    }
}

/// Pushes the snapshots of an event file under a tag, up to a frontier.
pub fn snapshots_of_events(series: &mut HistogramSeries, bytes: &[u8], frontier: u64, tag: &str)
    requires
        old(series).wf(),
    ensures
        final(series).wf(),
        final(series)@ == snapshots_onto(
            old(series)@,
            events_snapshots(events_of(upto(bytes@, frontier)), tag@),
        ),
{
    let part = front(bytes, frontier);
    let ghost all = events_of(part@);
    let ghost mut done: Seq<EventModel> = Seq::empty();
    let mut stream = ByteStream::new(crate::bytes::copy_bytes(part));
    let mut records = RecordReader::new();
    let ghost start = series@;
    proof {
        assert(records.ahead(stream) =~= part@);
        assert(part.len() == part@.len());
        assert(done + all =~= all);
    }
    loop
        invariant
            records.wf(),
            records.room(stream),
            records.dead() is None,
            series.wf(),
            all == done + events_of(records.ahead(stream)),
            series@ == snapshots_onto(start, events_snapshots(done, tag@)),
            start == old(series)@,
            all == events_of(upto(bytes@, frontier)),
        decreases records.ahead(stream).len(),
    {
        let ghost ahead = records.ahead(stream);
        proof {
            if frame(ahead) is Whole {
                lemma_events_step(ahead, done);
            }
        }
        match read_event(&mut records, &mut stream) {
            Ok(event) => {
                let ghost before = events_snapshots(done, tag@);
                collect_snapshots(series, &event, tag);
                proof {
                    lemma_snapshots_concat(start, before, event_snapshots(event@, tag@));
                    assert(done.push(event@).drop_last() =~= done);
                    done = done.push(event@);
                    assert(records.ahead(stream) =~= ahead.skip(frame(ahead)->Whole_size as int));
                }
            },
            Err(ReadEventError::Corrupt { .. }) => {
                assert(records.ahead(stream) =~= ahead.skip(frame(ahead)->Whole_size as int));
            },
            Err(ReadEventError::Malformed { .. }) => {
                assert(records.ahead(stream) =~= ahead.skip(frame(ahead)->Whole_size as int));
            },
            Err(_) => {
                assert(done + Seq::<EventModel>::empty() =~= done);
                return ;
            },
        }
    }
}

impl<
    F: Fn(&str) -> Option<u64>,
    G: Fn(u64) -> u64,
    H: Fn(Moments, u64) -> Moments,
> Numeric<F, G, H> {
    /// The points of the rows of a TSV file.
    pub open spec fn rows_points(self, schema: TsvSchema, lines: Seq<Seq<char>>) -> Seq<PointStamp>
        decreases lines.len(),
    {
        if lines.len() == 0 {
            Seq::empty()
        } else {
            let before = self.rows_points(schema, lines.drop_last());
            match self.row(schema, lines.last()) {
                Some(row) => before.push(
                    PointStamp { step: row.step, wall: row.wall, value: row.value },
                ),
                None => before,
            }
        }
    }

    /// The points of a TSV file: its header defines the layout, its rows
    /// become points.
    pub open spec fn tsv_points(self, text: Seq<char>) -> Seq<PointStamp> {
        let lines = lines_of(text);
        match first_schema(lines) {
            Some(schema) => self.rows_points(schema, lines.skip(1)),
            None => Seq::empty(),
        }
    }

    /// The points of the lines of a metric file.
    pub open spec fn metric_points(self, lines: Seq<Seq<char>>) -> Seq<PointStamp>
        decreases lines.len(),
    {
        if lines.len() == 0 {
            Seq::empty()
        } else {
            let before = self.metric_points(lines.drop_last());
            match self.metric(lines.last()) {
                Some(metric) => before.push(
                    PointStamp { step: metric.step, wall: metric.wall, value: metric.value },
                ),
                None => before,
            }
        }
    }

    /// The points of a history row under a key.
    pub open spec fn history_points(
        self,
        step: i64,
        wall: u64,
        values: Seq<(Seq<char>, u64)>,
        key: Seq<char>,
    ) -> Seq<PointStamp>
        decreases values.len(),
    {
        if values.len() == 0 {
            Seq::empty()
        } else {
            let before = self.history_points(step, wall, values.drop_last(), key);
            if values.last().0 == key {
                before.push(PointStamp { step, wall, value: values.last().1 })
            } else {
                before
            }
        }
    }

    /// The points of a record of a wandb log under a key.
    pub open spec fn payload_points(self, payload: Seq<u8>, key: Seq<char>) -> Seq<PointStamp> {
        match self.record(payload) {
            Some(WandbModel::History { step, wall, values }) => self.history_points(
                step,
                wall,
                values,
                key,
            ),
            _ => Seq::empty(),
        }
    }

    /// The points of the records of a wandb log under a key.
    pub open spec fn payloads_points(self, records: Seq<Seq<u8>>, key: Seq<char>) -> Seq<PointStamp>
        decreases records.len(),
    {
        if records.len() == 0 {
            Seq::empty()
        } else {
            self.payloads_points(records.drop_last(), key) + self.payload_points(
                records.last(),
                key,
            )
        }
    }

    /// The points of a wandb log under a key.
    pub open spec fn log_points(self, bytes: Seq<u8>, key: Seq<char>) -> Seq<PointStamp> {
        if bytes.len() < 7 {
            Seq::empty()
        } else {
            self.payloads_points(scan(bytes.skip(7), 7, None, 7).0, key)
        }
    }

    /// The points of a TSV file.
    pub fn points_of_tsv(&self, bytes: &[u8], frontier: u64) -> (points: Points)
        requires
            self.ok(),
        ensures
            points.wf(),
            points@ == PointsModel::pushed_all(self.tsv_points(text_of(upto(bytes@, frontier)))),
    {
        let text = decode_text(front(bytes, frontier));
        let lines = split_lines(&text);
        let ghost all = texts(lines@);
        let mut points = Points::new();
        let schema = if lines.len() > 0 {
            assert(all[0] == lines@[0]@);
            TsvSchema::from_header(&lines[0])
        } else {
            None
        };
        assert(schema == first_schema(all));
        if let Some(schema) = schema {
            let ghost rows = all.skip(1);
            let mut i: usize = 1;
            assert(rows.take(0) =~= Seq::<Seq<char>>::empty());
            while i < lines.len()
                invariant
                    1 <= i <= lines@.len(),
                    self.ok(),
                    all == texts(lines@),
                    rows == all.skip(1),
                    points.wf(),
                    points@ == PointsModel::pushed_all(
                        self.rows_points(schema, rows.take(i - 1)),
                    ),
                decreases lines@.len() - i,
            {
                let ghost before = self.rows_points(schema, rows.take(i - 1));
                proof {
                    assert(rows.take(i as int).drop_last() =~= rows.take(i - 1));
                    assert(rows.take(i as int).last() == lines@[i as int]@);
                }
                if let Some(row) = self.parse_row(&schema, &lines[i]) {
                    let point = PointStamp { step: row.step, wall: row.wall, value: row.value };
                    points.push(point);
                    assert(before.push(point).drop_last() =~= before);
                }
                i += 1;
            }
            assert(rows.take(i - 1) =~= rows);
        }
        points
    }

    /// The points of a metric file.
    pub fn points_of_metrics(&self, bytes: &[u8], frontier: u64) -> (points: Points)
        requires
            self.ok(),
        ensures
            points.wf(),
            points@ == PointsModel::pushed_all(
                self.metric_points(lines_of(text_of(upto(bytes@, frontier)))),
            ),
    {
        let text = decode_text(front(bytes, frontier));
        let lines = split_lines(&text);
        let ghost all = texts(lines@);
        let mut points = Points::new();
        let mut i: usize = 0;
        assert(all.take(0) =~= Seq::<Seq<char>>::empty());
        while i < lines.len()
            invariant
                i <= lines@.len(),
                self.ok(),
                all == texts(lines@),
                points.wf(),
                points@ == PointsModel::pushed_all(self.metric_points(all.take(i as int))),
            decreases lines@.len() - i,
        {
            let ghost before = self.metric_points(all.take(i as int));
            proof {
                assert(all.take(i + 1).drop_last() =~= all.take(i as int));
                assert(all.take(i + 1).last() == lines@[i as int]@);
            }
            if let Some(metric) = self.parse_metric(&lines[i]) {
                let point = PointStamp {
                    step: metric.step,
                    wall: metric.wall,
                    value: metric.value,
                };
                points.push(point);
                assert(before.push(point).drop_last() =~= before);
            }
            i += 1;
        }
        assert(all.take(i as int) =~= all);
        points
    }

    /// Pushes the points of a record of a wandb log under a key.
    fn collect_history(&self, points: &mut Points, payload: &[u8], key: &str)
        requires
            self.ok(),
            old(points).wf(),
        ensures
            final(points).wf(),
            final(points)@ == pushed_onto(old(points)@, self.payload_points(payload@, key@)),
    {
        if let Some(WandbRecord::History { step, wall, values }) = self.parse_record(payload) {
            let ghost all = crate::wandb_record::numbers_model(values@);
            let ghost start = points@;
            let mut i: usize = 0;
            assert(all.take(0) =~= Seq::<(Seq<char>, u64)>::empty());
            while i < values.len()
                invariant
                    i <= values@.len(),
                    all == crate::wandb_record::numbers_model(values@),
                    points.wf(),
                    points@ == pushed_onto(
                        start,
                        self.history_points(step, wall, all.take(i as int), key@),
                    ),
                decreases values@.len() - i,
            {
                let ghost before = self.history_points(step, wall, all.take(i as int), key@);
                proof {
                    assert(all.take(i + 1).drop_last() =~= all.take(i as int));
                    assert(all.take(i + 1).last() == (values@[i as int].0@, values@[i as int].1));
                }
                if same_text(&values[i].0, key) {
                    let value: u64 = values[i].1;
                    let point = PointStamp { step, wall, value };
                    points.push(point);
                    assert(before.push(point).drop_last() =~= before);
                }
                i += 1;
            }
            assert(all.take(i as int) =~= all);
        }
    }

    /// The points of a wandb log under a key, up to a frontier.
    pub fn points_of_log(&self, bytes: &[u8], frontier: u64, key: &str) -> (points: Points)
        requires
            self.ok(),
        ensures
            points.wf(),
            points@ == PointsModel::pushed_all(self.log_points(upto(bytes@, frontier), key@)),
    {
        let part = front(bytes, frontier);
        let mut points = Points::new();
        if part.len() < 7 {
            return points;
        }
        let body = vstd::slice::slice_subrange(part, 7, part.len());
        assert(body@ =~= part@.skip(7));
        let (records, _) = read_records(body, 7);
        let ghost all = payloads(records@);
        let mut i: usize = 0;
        assert(all.take(0) =~= Seq::<Seq<u8>>::empty());
        while i < records.len()
            invariant
                i <= records@.len(),
                self.ok(),
                all == payloads(records@),
                points.wf(),
                points@ == PointsModel::pushed_all(self.payloads_points(all.take(i as int), key@)),
            decreases records@.len() - i,
        {
            let ghost before = self.payloads_points(all.take(i as int), key@);
            proof {
                assert(all.take(i + 1).drop_last() =~= all.take(i as int));
                assert(all.take(i + 1).last() == records@[i as int]@);
            }
            self.collect_history(&mut points, &records[i], key);
            proof {
                let more = self.payload_points(records@[i as int]@, key@);
                lemma_pushed_onto_start(before);
                lemma_pushed_concat(PointsModel::start(), before, more);
                lemma_pushed_onto_start(before + more);
            }
            i += 1;
        }
        assert(all.take(i as int) =~= all);
        points
    }
}

} // verus!
