//! What holds of the catalog as a whole: the summaries and the held points of
//! an event file are always those of its committed front, however the file
//! was read in pieces.
use vstd::prelude::*;

use crate::drain::LogModel;
use crate::event::{event_of, EventModel, PayloadModel, ValueModel};
use crate::materialize::{
    event_points, events_of, events_points, lemma_pushed_concat, lemma_pushed_onto_start,
    pushed_onto, value_point, values_points,
};
use crate::numeric::{Moments, Numeric};
use crate::record::{frame, law_whole_records_stay, Frame};
use crate::run::{marks_hparams, Intake, RunModel};
use crate::series::{PointStamp, PointsModel, SegmentSummary, SeriesClass};
use crate::shelf::Key;

verus! {

/// The segments of a series; none where there is no such series.
pub open spec fn segments_of(run: RunModel, tag: Seq<char>) -> Seq<SegmentSummary> {
    if run.series.dom().contains(tag) {
        run.series[tag].segments
    } else {
        Seq::empty()
    }
}

/// A held series is scalar.
pub open spec fn held_scalar(intake: Intake, key: Key) -> bool {
    intake.points.dom().contains(key) ==> intake.run.series.dom().contains(key.1)
        && intake.run.series[key.1].class == SeriesClass::Scalar
}

/// What taking in points of a series does: its summary observes them, and if
/// it is held they are pushed.
pub open spec fn took<F: Fn(&str) -> Option<u64>, G: Fn(u64) -> u64, H: Fn(Moments, u64) -> Moments>(
    numeric: Numeric<F, G, H>,
    before: Intake,
    after: Intake,
    key: Key,
    points: Seq<PointStamp>,
) -> bool {
    &&& segments_of(after.run, key.1) == observed_onto(
        numeric,
        segments_of(before.run, key.1),
        points,
    )
    &&& held_scalar(before, key) ==> {
        &&& held_scalar(after, key)
        &&& after.points.dom().contains(key) == before.points.dom().contains(key)
        &&& before.points.dom().contains(key) ==> after.points[key].0 == pushed_onto(
            before.points[key].0,
            points,
        )
    }
}

/// The segments of a series behind more points.
pub open spec fn observed_onto<
    F: Fn(&str) -> Option<u64>,
    G: Fn(u64) -> u64,
    H: Fn(Moments, u64) -> Moments,
>(
    numeric: Numeric<F, G, H>,
    segments: Seq<SegmentSummary>,
    points: Seq<PointStamp>,
) -> Seq<SegmentSummary>
    decreases points.len(),
{
    if points.len() == 0 {
        segments
    } else {
        numeric.observed(observed_onto(numeric, segments, points.drop_last()), points.last())
    }
}

/// Observing a sequence and then another is observing both.
pub proof fn lemma_observed_concat<
    F: Fn(&str) -> Option<u64>,
    G: Fn(u64) -> u64,
    H: Fn(Moments, u64) -> Moments,
>(
    numeric: Numeric<F, G, H>,
    segments: Seq<SegmentSummary>,
    a: Seq<PointStamp>,
    b: Seq<PointStamp>,
)
    ensures
        observed_onto(numeric, observed_onto(numeric, segments, a), b) == observed_onto(
            numeric,
            segments,
            a + b,
        ),
    decreases b.len(),
{
    if b.len() == 0 {
        assert(a + b =~= a);
    } else {
        lemma_observed_concat(numeric, segments, a, b.drop_last());
        assert((a + b).drop_last() =~= a + b.drop_last());
    }
}

/// Observing from nothing.
pub proof fn lemma_observed_onto_nothing<
    F: Fn(&str) -> Option<u64>,
    G: Fn(u64) -> u64,
    H: Fn(Moments, u64) -> Moments,
>(numeric: Numeric<F, G, H>, points: Seq<PointStamp>)
    ensures
        observed_onto(numeric, Seq::empty(), points) == numeric.observed_all(points),
    decreases points.len(),
{
    if points.len() > 0 {
        lemma_observed_onto_nothing(numeric, points.drop_last());
    }
}

/// Taking in twice takes in both.
pub proof fn lemma_took_both<
    F: Fn(&str) -> Option<u64>,
    G: Fn(u64) -> u64,
    H: Fn(Moments, u64) -> Moments,
>(
    numeric: Numeric<F, G, H>,
    a: Intake,
    b: Intake,
    c: Intake,
    key: Key,
    first: Seq<PointStamp>,
    second: Seq<PointStamp>,
)
    requires
        took(numeric, a, b, key, first),
        took(numeric, b, c, key, second),
    ensures
        took(numeric, a, c, key, first + second),
{
    lemma_observed_concat(numeric, segments_of(a.run, key.1), first, second);
    if a.points.dom().contains(key) {
        lemma_pushed_concat(a.points[key].0, first, second);
    }
}

/// Nothing is taken in where neither the series nor what is held change.
pub proof fn lemma_took_nothing<
    F: Fn(&str) -> Option<u64>,
    G: Fn(u64) -> u64,
    H: Fn(Moments, u64) -> Moments,
>(numeric: Numeric<F, G, H>, before: Intake, after: Intake, key: Key)
    requires
        after.run.series == before.run.series,
        after.points == before.points,
    ensures
        took(numeric, before, after, key, Seq::empty()),
{
}

proof fn lemma_take_value<
    F: Fn(&str) -> Option<u64>,
    G: Fn(u64) -> u64,
    H: Fn(Moments, u64) -> Moments,
>(numeric: Numeric<F, G, H>, intake: Intake, key: Key, step: i64, wall: u64, value: ValueModel)
    requires
        !marks_hparams(key.1),
    ensures
        took(
            numeric,
            intake,
            numeric.take_value(intake, key.0, step, wall, value),
            key,
            if value.tag == key.1 {
                seq![value_point(value, step, wall)]
            } else {
                Seq::empty()
            },
        ),
{
    let after = numeric.take_value(intake, key.0, step, wall, value);
    if value.tag == key.1 {
        let point = value_point(value, step, wall);
        let one = seq![point];
        assert(one.drop_last() =~= Seq::<PointStamp>::empty());
        reveal_with_fuel(observed_onto, 2);
        reveal_with_fuel(pushed_onto, 2);
        assert(observed_onto(numeric, segments_of(intake.run, key.1), one) == numeric.observed(
            segments_of(intake.run, key.1),
            point,
        ));
        if intake.points.dom().contains(key) {
            assert(pushed_onto(intake.points[key].0, one) == intake.points[key].0.pushed(point));
        }
    } else {
        assert(segments_of(after.run, key.1) == segments_of(intake.run, key.1));
        assert(after.points.dom().contains(key) == intake.points.dom().contains(key));
    }
}

proof fn lemma_take_values<
    F: Fn(&str) -> Option<u64>,
    G: Fn(u64) -> u64,
    H: Fn(Moments, u64) -> Moments,
>(
    numeric: Numeric<F, G, H>,
    intake: Intake,
    key: Key,
    step: i64,
    wall: u64,
    values: Seq<ValueModel>,
)
    requires
        !marks_hparams(key.1),
    ensures
        took(
            numeric,
            intake,
            numeric.take_values(intake, key.0, step, wall, values),
            key,
            values_points(values, key.1, step, wall),
        ),
    decreases values.len(),
{
    if values.len() == 0 {
        lemma_took_nothing(numeric, intake, intake, key);
    } else {
        let front = values.drop_last();
        let between = numeric.take_values(intake, key.0, step, wall, front);
        lemma_take_values(numeric, intake, key, step, wall, front);
        lemma_take_value(numeric, between, key, step, wall, values.last());
        let first = values_points(front, key.1, step, wall);
        let second = if values.last().tag == key.1 {
            seq![value_point(values.last(), step, wall)]
        } else {
            Seq::empty()
        };
        lemma_took_both(
            numeric,
            intake,
            between,
            numeric.take_values(intake, key.0, step, wall, values),
            key,
            first,
            second,
        );
        assert(first + second =~= values_points(values, key.1, step, wall));
    }
}

proof fn lemma_take_event<
    F: Fn(&str) -> Option<u64>,
    G: Fn(u64) -> u64,
    H: Fn(Moments, u64) -> Moments,
>(numeric: Numeric<F, G, H>, intake: Intake, key: Key, event: EventModel)
    requires
        !marks_hparams(key.1),
    ensures
        took(
            numeric,
            intake,
            numeric.take_event(intake, key.0, event),
            key,
            event_points(event, key.1),
        ),
{
    let walled = Intake { run: intake.run.walled(event.wall_time), ..intake };
    lemma_took_nothing(numeric, intake, walled, key);
    if let PayloadModel::Summary(values) = event.payload {
        lemma_take_values(numeric, walled, key, event.step, event.wall_time, values);
        let more = event_points(event, key.1);
        lemma_took_both(
            numeric,
            intake,
            walled,
            numeric.take_event(intake, key.0, event),
            key,
            Seq::empty(),
            more,
        );
        assert(Seq::<PointStamp>::empty() + more =~= more);
    }
}

/// The points of events and of what comes behind them.
pub proof fn lemma_events_points_concat(a: Seq<EventModel>, b: Seq<EventModel>, tag: Seq<char>)
    ensures
        events_points(a + b, tag) == events_points(a, tag) + events_points(b, tag),
    decreases b.len(),
{
    if b.len() == 0 {
        assert(a + b =~= a);
        assert(events_points(a, tag) + Seq::<PointStamp>::empty() =~= events_points(a, tag));
    } else {
        lemma_events_points_concat(a, b.drop_last(), tag);
        assert((a + b).drop_last() =~= a + b.drop_last());
        assert(events_points(a, tag) + (events_points(b.drop_last(), tag) + event_points(
            b.last(),
            tag,
        )) =~= events_points(a, tag) + events_points(b.drop_last(), tag) + event_points(
            b.last(),
            tag,
        ));
    }
}

/// What is left behind the whole records at the front of bytes.
pub open spec fn unread(bytes: Seq<u8>) -> Seq<u8>
    decreases bytes.len(),
{
    match frame(bytes) {
        Frame::Whole { data, data_crc, size } => if 0 < size <= bytes.len() {
            unread(bytes.skip(size as int))
        } else {
            bytes
        },
        _ => bytes,
    }
}

/// Whole records give their points to a series.
pub proof fn lemma_take_frames<
    F: Fn(&str) -> Option<u64>,
    G: Fn(u64) -> u64,
    H: Fn(Moments, u64) -> Moments,
>(numeric: Numeric<F, G, H>, intake: Intake, key: Key, bytes: Seq<u8>)
    requires
        !marks_hparams(key.1),
    ensures
        numeric.take_frames(intake, key.0, bytes).1 == unread(bytes),
        took(
            numeric,
            intake,
            numeric.take_frames(intake, key.0, bytes).0,
            key,
            events_points(events_of(bytes), key.1),
        ),
    decreases bytes.len(),
{
    match frame(bytes) {
        Frame::Whole { data, data_crc, size } => if 0 < size <= bytes.len() {
            let rest = bytes.skip(size as int);
            let next = numeric.take_record(intake, key.0, data);
            lemma_take_frames(numeric, next, key, rest);
            let after = numeric.take_frames(intake, key.0, bytes).0;
            let more = events_points(events_of(rest), key.1);
            match event_of(data) {
                Ok(event) => {
                    lemma_take_event(numeric, intake, key, event);
                    let first = event_points(event, key.1);
                    lemma_took_both(numeric, intake, next, after, key, first, more);
                    lemma_events_points_concat(seq![event], events_of(rest), key.1);
                    assert(seq![event].drop_last() =~= Seq::<EventModel>::empty());
                    reveal_with_fuel(events_points, 2);
                    assert(Seq::<PointStamp>::empty() + first =~= first);
                    assert(events_points(events_of(bytes), key.1) == first + more);
                },
                Err(_) => {
                    lemma_took_nothing(numeric, intake, next, key);
                    lemma_took_both(numeric, intake, next, after, key, Seq::empty(), more);
                    assert(Seq::<PointStamp>::empty() + more =~= more);
                },
            }
        } else {
            lemma_took_nothing(numeric, intake, intake, key);
        },
        _ => {
            lemma_took_nothing(numeric, intake, intake, key);
        },
    }
}

/// What is left is the end of the bytes, and what is before it are whole
/// records that give the same events.
pub proof fn lemma_unread(bytes: Seq<u8>)
    ensures
        unread(bytes).len() <= bytes.len(),
        unread(bytes) == bytes.skip(bytes.len() - unread(bytes).len()),
        unread(bytes.take(bytes.len() - unread(bytes).len())).len() == 0,
        events_of(bytes.take(bytes.len() - unread(bytes).len())) == events_of(bytes),
    decreases bytes.len(),
{
    law_whole_records_stay(bytes, Seq::empty());
    let left = unread(bytes);
    match frame(bytes) {
        Frame::Whole { data, data_crc, size } => {
            let rest = bytes.skip(size as int);
            lemma_unread(rest);
            let n = bytes.len() - left.len();
            let front = bytes.take(n);
            assert(rest.skip(rest.len() - left.len()) =~= bytes.skip(n));
            let one = bytes.take(size as int);
            let more = rest.take(rest.len() - left.len());
            assert(one + more =~= front);
            assert(one + rest =~= bytes);
            lemma_whole_front(bytes);
            law_whole_records_stay(one, more);
            assert(front.skip(size as int) =~= more);
        },
        _ => {
            assert(bytes.skip(0) =~= bytes);
            let nothing = bytes.take(0);
            assert(frame(nothing) is Short);
        },
    }
}

/// A whole record at the front of bytes is whole without what comes behind.
proof fn lemma_whole_front(bytes: Seq<u8>)
    ensures
        frame(bytes) matches Frame::Whole { data, data_crc, size } ==> size <= bytes.len()
            && frame(bytes.take(size as int)) == frame(bytes),
{
    if let Frame::Whole { data, data_crc, size } = frame(bytes) {
        law_whole_records_stay(bytes, Seq::empty());
        let one = bytes.take(size as int);
        crate::bytes::lemma_le64(0, bytes.subrange(0, 8));
        assert(one.subrange(0, 8) =~= bytes.subrange(0, 8));
        assert(one.subrange(8, 12) =~= bytes.subrange(8, 12));
        let length = crate::record::claimed_length(bytes);
        assert(one.subrange(12, 12 + length) =~= bytes.subrange(12, 12 + length));
        assert(one.subrange(12 + length, 16 + length) =~= bytes.subrange(
            12 + length,
            16 + length,
        ));
    }
}

/// The events of whole records and of what comes behind them.
pub proof fn lemma_events_concat(a: Seq<u8>, b: Seq<u8>)
    requires
        unread(a).len() == 0,
    ensures
        events_of(a + b) == events_of(a) + events_of(b),
        unread(a + b) == unread(b),
    decreases a.len(),
{
    law_whole_records_stay(a, b);
    match frame(a) {
        Frame::Whole { data, data_crc, size } => {
            let rest = a.skip(size as int);
            lemma_events_concat(rest, b);
            assert((a + b).skip(size as int) =~= rest + b);
            lemma_events_front(a);
            lemma_events_front(a + b);
            if let Ok(event) = event_of(data) {
                assert(seq![event] + (events_of(rest) + events_of(b)) =~= (seq![event]
                    + events_of(rest)) + events_of(b));
            }
        },
        _ => {
            assert(a.len() == 0);
            assert(a + b =~= b);
            assert(events_of(a) + events_of(b) =~= events_of(b));
        },
    }
}

/// The events of bytes that start with a whole record.
proof fn lemma_events_front(bytes: Seq<u8>)
    ensures
        frame(bytes) matches Frame::Whole { data, data_crc, size } ==> {
            let rest = bytes.skip(size as int);
            &&& unread(bytes) == unread(rest)
            &&& events_of(bytes) == match event_of(data) {
                Ok(event) => seq![event] + events_of(rest),
                Err(_) => events_of(rest),
            }
        },
{
    law_whole_records_stay(bytes, Seq::empty());
}

/// The points of a series in the committed front of an event file.
pub open spec fn committed_points(content: Seq<u8>, committed: u64, tag: Seq<char>) -> Seq<
    PointStamp,
> {
    events_points(events_of(content.take(committed as int)), tag)
}

/// What is known of a series is what the committed front of its event file
/// says: the offset is a record boundary, the summary is that of the front's
/// points, and if the series is held, its points are those of a re-read.
pub open spec fn in_step<
    F: Fn(&str) -> Option<u64>,
    G: Fn(u64) -> u64,
    H: Fn(Moments, u64) -> Moments,
>(
    numeric: Numeric<F, G, H>,
    intake: Intake,
    log: LogModel,
    content: Seq<u8>,
    tag: Seq<char>,
) -> bool {
    let points = committed_points(content, log.committed, tag);
    &&& log.committed <= content.len()
    &&& unread(content.take(log.committed as int)).len() == 0
    &&& segments_of(intake.run, tag) == numeric.observed_all(points)
    &&& held_scalar(intake, (log.run, tag))
    &&& intake.points.dom().contains((log.run, tag)) ==> intake.points[(log.run, tag)].0
        == PointsModel::pushed_all(points)
}

/// Draining what an event file has grown by keeps every series of it in step:
/// what was taken in once is never taken in again, nothing whole is left out,
/// and re-reading a held series up to the new frontier would give the points
/// that are held.
pub proof fn law_drain_stays_in_step<
    F: Fn(&str) -> Option<u64>,
    G: Fn(u64) -> u64,
    H: Fn(Moments, u64) -> Moments,
>(
    numeric: Numeric<F, G, H>,
    intake: Intake,
    log: LogModel,
    content: Seq<u8>,
    tail: Seq<u8>,
    failed: bool,
    tag: Seq<char>,
)
    requires
        !marks_hparams(tag),
        !log.dead,
        log.fits(tail),
        in_step(numeric, intake, log, content, tag),
        log.pending + tail == content.skip(log.committed as int),
    ensures
        ({
            let (after, next) = numeric.drain_log(intake, log, tail, failed);
            in_step(numeric, after, next, content, tag)
        }),
{
    let key = (log.run, tag);
    let front = content.take(log.committed as int);
    let ahead = content.skip(log.committed as int);
    let (taken, left, bad) = numeric.take_frames(intake, log.run, ahead);
    lemma_take_frames(numeric, intake, key, ahead);
    lemma_unread(ahead);
    let whole = ahead.take(ahead.len() - left.len());
    let (after, next) = numeric.drain_log(intake, log, tail, failed);
    assert(next.committed == log.committed + whole.len());
    assert(content.take(next.committed as int) =~= front + whole);
    lemma_events_concat(front, whole);
    let first = events_points(events_of(front), tag);
    let more = events_points(events_of(whole), tag);
    lemma_events_points_concat(events_of(front), events_of(whole), tag);
    assert(committed_points(content, next.committed, tag) == first + more);
    assert(events_points(events_of(ahead), tag) == more);
    assert(took(numeric, intake, taken, key, more));
    assert(took(numeric, intake, after, key, more));
    lemma_observed_onto_nothing(numeric, first);
    lemma_observed_concat(numeric, Seq::empty(), first, more);
    lemma_observed_onto_nothing(numeric, first + more);
    lemma_pushed_onto_start(first);
    lemma_pushed_concat(PointsModel::start(), first, more);
    lemma_pushed_onto_start(first + more);
}

/// A file of which nothing was taken in is in step with a run that has
/// nothing of the series, and holds nothing.
pub proof fn law_start_is_in_step<
    F: Fn(&str) -> Option<u64>,
    G: Fn(u64) -> u64,
    H: Fn(Moments, u64) -> Moments,
>(
    numeric: Numeric<F, G, H>,
    intake: Intake,
    run: Seq<char>,
    content: Seq<u8>,
    tag: Seq<char>,
)
    requires
        !intake.run.series.dom().contains(tag),
        !intake.points.dom().contains((run, tag)),
    ensures
        in_step(numeric, intake, LogModel::start(run, 0), content, tag),
{
    let nothing = content.take(0);
    assert(frame(nothing) is Short);
    assert(events_of(nothing) =~= Seq::<EventModel>::empty());
}

} // verus!
