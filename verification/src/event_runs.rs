//! Runs of several event files: what was observed of a series are the points
//! of its files, one file behind the other, as long as no file grows once a
//! later one was read.
use vstd::prelude::*;

use crate::drain::LogModel;
use crate::event::{event_of, EventModel, PayloadModel, ValueModel};
use crate::frontier::grown;
use crate::materialize::{
    event_snapshots, events_of, events_points, events_snapshots, lemma_snapshots_concat,
    snapshots_onto, values_snapshots,
};
use crate::names::{in_order, lemma_in_order_distinct};
use crate::numeric::{Moments, Numeric};
use crate::project::contents_of;
use crate::project_laws::{
    lemma_events_concat, lemma_events_points_concat, lemma_take_frames, took, unread,
};
use crate::record::{frame, law_whole_records_stay, Frame};
use crate::run::{marks_hparams, Intake};
use crate::series::{HistogramsModel, PointStamp, SeriesClass, SnapshotModel};
use crate::shelf::Key;
use crate::text::text_before;

verus! {

/// Sequences by path, one behind the other.
pub open spec fn strung<A>(
    paths: Seq<Seq<char>>,
    part: spec_fn(Seq<char>) -> Seq<A>,
) -> Seq<A>
    decreases paths.len(),
{
    if paths.len() == 0 {
        Seq::empty()
    } else {
        strung(paths.drop_last(), part) + part(paths.last())
    }
}

/// The sequences of those paths that are among others, one behind the other.
pub open spec fn strung_among<A>(
    all: Seq<Seq<char>>,
    paths: Seq<Seq<char>>,
    part: spec_fn(Seq<char>) -> Seq<A>,
) -> Seq<A>
    decreases all.len(),
{
    if all.len() == 0 {
        Seq::empty()
    } else {
        let before = strung_among(all.drop_last(), paths, part);
        if paths.contains(all.last()) {
            before + part(all.last())
        } else {
            before
        }
    }
}

/// The front of names in order is in order, and does not hold the last.
pub proof fn lemma_order_front(names: Seq<Seq<char>>)
    requires
        in_order(names),
        names.len() > 0,
    ensures
        in_order(names.drop_last()),
        !names.drop_last().contains(names.last()),
        forall|name: Seq<char>| #[trigger]
            names.contains(name) <==> names.drop_last().contains(name) || name == names.last(),
{
    let front = names.drop_last();
    let last = names.last();
    assert(names[names.len() - 1] == last);
    assert forall|i: int, j: int| 0 <= i < j < front.len() implies text_before(
        #[trigger] front[i],
        #[trigger] front[j],
    ) by {
        assert(front[i] == names[i] && front[j] == names[j]);
    }
    if front.contains(last) {
        let i = choose|i: int| 0 <= i < front.len() && front[i] == last;
        assert(names[i] == last);
        lemma_in_order_distinct(names, i, names.len() - 1);
    }
    assert forall|name: Seq<char>| #[trigger]
        names.contains(name) <==> front.contains(name) || name == last by {
        if front.contains(name) {
            let i = choose|i: int| 0 <= i < front.len() && front[i] == name;
            assert(names[i] == name);
        }
        if names.contains(name) && name != last {
            let i = choose|i: int| 0 <= i < names.len() && names[i] == name;
            assert(front[i] == name);
        }
    }
}

/// Two lists in order: the last of the one that is greater is not in the
/// other.
proof fn lemma_beyond(names: Seq<Seq<char>>, other: Seq<Seq<char>>)
    requires
        in_order(names),
        in_order(other),
        names.len() > 0,
        other.len() > 0,
        other.contains(names.last()),
        names.last() != other.last(),
    ensures
        !names.contains(other.last()),
{
    if names.contains(other.last()) {
        let a = names.last();
        let b = other.last();
        let i = choose|i: int| 0 <= i < names.len() && names[i] == b;
        let j = choose|j: int| 0 <= j < other.len() && other[j] == a;
        assert(text_before(names[i], names[names.len() - 1]));
        assert(text_before(other[j], other[other.len() - 1]));
        crate::text::lemma_text_order(a, b);
    }
}

/// Of two lists in order, the one strung as far as it is among the other is
/// strung whole, where what is not among it has nothing.
pub proof fn lemma_strung_among<A>(
    all: Seq<Seq<char>>,
    paths: Seq<Seq<char>>,
    part: spec_fn(Seq<char>) -> Seq<A>,
)
    requires
        in_order(all),
        in_order(paths),
        forall|i: int|
            0 <= i < paths.len() && !all.contains(#[trigger] paths[i]) ==> part(paths[i]).len()
                == 0,
    ensures
        strung_among(all, paths, part) == strung(paths, part),
    decreases all.len() + paths.len(),
{
    if paths.len() == 0 {
        lemma_among_none(all, paths, part);
    } else {
        let front = paths.drop_last();
        let last = paths.last();
        assert(paths[paths.len() - 1] == last);
        lemma_order_front(paths);
        if all.len() == 0 || !all.contains(last) {
            assert forall|i: int|
                0 <= i < front.len() && !all.contains(#[trigger] front[i]) implies part(
                front[i],
            ).len() == 0 by {
                assert(front[i] == paths[i]);
            }
            lemma_strung_among(all, front, part);
            assert(part(last) =~= Seq::<A>::empty());
            assert(strung(front, part) + part(last) =~= strung(front, part));
            lemma_among_same(all, paths, front, part);
        } else {
            lemma_order_front(all);
            let before = all.drop_last();
            if all.last() == last {
                assert forall|i: int|
                    0 <= i < front.len() && !before.contains(#[trigger] front[i]) implies part(
                    front[i],
                ).len() == 0 by {
                    assert(front[i] == paths[i]);
                    assert(front.contains(front[i]));
                    assert(!all.contains(paths[i]));
                }
                lemma_strung_among(before, front, part);
                lemma_among_same(before, paths, front, part);
            } else {
                assert(!paths.contains(all.last())) by {
                    if paths.contains(all.last()) {
                        lemma_beyond(all, paths);
                    }
                }
                assert forall|i: int|
                    0 <= i < paths.len() && !before.contains(#[trigger] paths[i]) implies part(
                    paths[i],
                ).len() == 0 by {
                    assert(paths.contains(paths[i]));
                    assert(!all.contains(paths[i]));
                }
                lemma_strung_among(before, paths, part);
            }
        }
    }
}

proof fn lemma_among_none<A>(
    all: Seq<Seq<char>>,
    paths: Seq<Seq<char>>,
    part: spec_fn(Seq<char>) -> Seq<A>,
)
    requires
        paths.len() == 0,
    ensures
        strung_among(all, paths, part) == Seq::<A>::empty(),
    decreases all.len(),
{
    if all.len() > 0 {
        lemma_among_none(all.drop_last(), paths, part);
    }
}

proof fn lemma_among_same<A>(
    all: Seq<Seq<char>>,
    paths: Seq<Seq<char>>,
    other: Seq<Seq<char>>,
    part: spec_fn(Seq<char>) -> Seq<A>,
)
    requires
        forall|i: int|
            0 <= i < all.len() ==> paths.contains(#[trigger] all[i]) == other.contains(all[i]),
    ensures
        strung_among(all, paths, part) == strung_among(all, other, part),
    decreases all.len(),
{
    if all.len() > 0 {
        let front = all.drop_last();
        assert forall|i: int| 0 <= i < front.len() implies paths.contains(#[trigger] front[i])
            == other.contains(front[i]) by {
            assert(front[i] == all[i]);
        }
        assert(all[all.len() - 1] == all.last());
        lemma_among_same(front, paths, other, part);
    }
}

/// More paths that have nothing string to the same.
pub proof fn lemma_wider<A>(
    wider: Seq<Seq<char>>,
    paths: Seq<Seq<char>>,
    part: spec_fn(Seq<char>) -> Seq<A>,
)
    requires
        in_order(wider),
        in_order(paths),
        forall|i: int| 0 <= i < paths.len() ==> wider.contains(#[trigger] paths[i]),
        forall|i: int|
            0 <= i < wider.len() && !paths.contains(#[trigger] wider[i]) ==> part(wider[i]).len()
                == 0,
    ensures
        strung(wider, part) == strung(paths, part),
{
    lemma_strung_among(wider, paths, part);
    lemma_among_all(wider, paths, part);
}

proof fn lemma_among_all<A>(
    all: Seq<Seq<char>>,
    paths: Seq<Seq<char>>,
    part: spec_fn(Seq<char>) -> Seq<A>,
)
    requires
        forall|i: int|
            0 <= i < all.len() && !paths.contains(#[trigger] all[i]) ==> part(all[i]).len() == 0,
    ensures
        strung_among(all, paths, part) == strung(all, part),
    decreases all.len(),
{
    if all.len() > 0 {
        let front = all.drop_last();
        let last = all.last();
        assert(all[all.len() - 1] == last);
        assert forall|i: int| 0 <= i < front.len() && !paths.contains(#[trigger] front[i]) implies
            part(front[i]).len() == 0 by {
            assert(front[i] == all[i]);
        }
        lemma_among_all(front, paths, part);
        if !paths.contains(last) {
            assert(strung(front, part) + part(last) =~= strung(front, part));
        }
    }
}

/// Nothing strung together is nothing.
pub proof fn lemma_strung_nothing<A>(
    paths: Seq<Seq<char>>,
    part: spec_fn(Seq<char>) -> Seq<A>,
)
    requires
        forall|i: int| 0 <= i < paths.len() ==> part(#[trigger] paths[i]).len() == 0,
    ensures
        strung(paths, part) == Seq::<A>::empty(),
    decreases paths.len(),
{
    if paths.len() > 0 {
        let front = paths.drop_last();
        assert forall|i: int| 0 <= i < front.len() implies part(#[trigger] front[i]).len()
            == 0 by {
            assert(front[i] == paths[i]);
        }
        assert(paths[paths.len() - 1] == paths.last());
        lemma_strung_nothing(front, part);
        assert(strung(paths, part) =~= Seq::<A>::empty());
    }
}

/// No part gains anything once a later one has something.
pub open spec fn gains_in_order<A>(
    paths: Seq<Seq<char>>,
    old: spec_fn(Seq<char>) -> Seq<A>,
    now: spec_fn(Seq<char>) -> Seq<A>,
) -> bool {
    forall|i: int, j: int|
        0 <= i < j < paths.len() ==> now(#[trigger] paths[i]) == old(paths[i]) || old(
            #[trigger] paths[j],
        ).len() == 0
}

/// Where parts gain in order, what they had and what they gained, one behind
/// the other, is what they have.
pub proof fn lemma_gains_strung<A>(
    paths: Seq<Seq<char>>,
    old: spec_fn(Seq<char>) -> Seq<A>,
    gain: spec_fn(Seq<char>) -> Seq<A>,
    now: spec_fn(Seq<char>) -> Seq<A>,
)
    requires
        forall|i: int|
            0 <= i < paths.len() ==> now(#[trigger] paths[i]) == old(paths[i]) + gain(paths[i]),
        gains_in_order(paths, old, now),
    ensures
        strung(paths, now) == strung(paths, old) + strung(paths, gain),
    decreases paths.len(),
{
    if paths.len() == 0 {
        assert(strung(paths, now) =~= strung(paths, old) + strung(paths, gain));
    } else {
        let front = paths.drop_last();
        let last = paths.last();
        let n = paths.len() - 1;
        assert(paths[n] == last);
        assert forall|i: int| 0 <= i < front.len() implies now(#[trigger] front[i]) == old(front[i])
            + gain(front[i]) by {
            assert(front[i] == paths[i]);
        }
        assert(gains_in_order(front, old, now)) by {
            assert forall|i: int, j: int| 0 <= i < j < front.len() implies now(#[trigger] front[i])
                == old(front[i]) || old(#[trigger] front[j]).len() == 0 by {
                assert(front[i] == paths[i] && front[j] == paths[j]);
            }
        }
        lemma_gains_strung(front, old, gain, now);
        if old(last).len() != 0 {
            assert forall|i: int| 0 <= i < front.len() implies gain(#[trigger] front[i]).len()
                == 0 by {
                assert(front[i] == paths[i]);
                assert(now(paths[i]) == old(paths[i]) || old(paths[n]).len() == 0);
                assert(now(paths[i]) == old(paths[i]) + gain(paths[i]));
            }
            lemma_strung_nothing(front, gain);
        }
        assert(strung(paths, now) =~= strung(paths, old) + strung(paths, gain));
    }
}

/// The points of a series in a file.
pub open spec fn points_of_file(
    contents: Map<Seq<char>, Seq<u8>>,
    tag: Seq<char>,
) -> spec_fn(Seq<char>) -> Seq<PointStamp> {
    |path: Seq<char>| events_points(events_of(contents_of(contents, path)), tag)
}

/// The snapshots of a series in a file.
pub open spec fn snapshots_of_file(
    contents: Map<Seq<char>, Seq<u8>>,
    tag: Seq<char>,
) -> spec_fn(Seq<char>) -> Seq<SnapshotModel> {
    |path: Seq<char>| events_snapshots(events_of(contents_of(contents, path)), tag)
}

/// A file that holds nothing has nothing of a series.
pub proof fn lemma_nothing_in(
    contents: Map<Seq<char>, Seq<u8>>,
    tag: Seq<char>,
    path: Seq<char>,
)
    requires
        contents_of(contents, path).len() == 0,
    ensures
        points_of_file(contents, tag)(path).len() == 0,
        snapshots_of_file(contents, tag)(path).len() == 0,
{
    assert(events_of(contents_of(contents, path)).len() == 0);
}

/// A file was read as far as there are whole records: to a torn one, or to
/// where its framing died.
pub open spec fn framed(log: LogModel, content: Seq<u8>) -> bool {
    let ahead = content.skip(log.committed as int);
    &&& log.committed <= content.len()
    &&& unread(content.take(log.committed as int)).len() == 0
    &&& !(frame(ahead) is Whole)
    &&& if log.dead {
        frame(ahead) is Bad
    } else {
        log.pending == ahead
    }
}

/// The events of a file that was read as far as it goes are those of its
/// committed front.
pub proof fn lemma_framed(log: LogModel, content: Seq<u8>)
    requires
        framed(log, content),
    ensures
        events_of(content) == events_of(content.take(log.committed as int)),
{
    let front = content.take(log.committed as int);
    let ahead = content.skip(log.committed as int);
    assert(front + ahead =~= content);
    lemma_events_concat(front, ahead);
    assert(events_of(front) + Seq::<EventModel>::empty() =~= events_of(front));
}

/// A file that holds nothing was read as far as it goes.
pub proof fn lemma_framed_start(run: Seq<char>, content: Seq<u8>)
    requires
        content.len() == 0,
    ensures
        framed(LogModel::start(run, 0), content),
{
    assert(content.skip(0) =~= content);
    assert(frame(content) is Short);
    assert(content.take(0) =~= Seq::<u8>::empty());
    assert(LogModel::start(run, 0).pending =~= content);
}

/// The events that a file has gained.
pub open spec fn gained(log: LogModel, now: Seq<u8>) -> Seq<EventModel> {
    events_of(now.skip(log.committed as int))
}

/// What a file holds are the events it held, and those it gained.
pub proof fn lemma_gained(log: LogModel, content: Seq<u8>, now: Seq<u8>)
    requires
        framed(log, content),
        grown(content, now),
    ensures
        events_of(now) == events_of(content) + gained(log, now),
{
    let at = log.committed as int;
    let front = content.take(at);
    lemma_framed(log, content);
    assert(front =~= now.take(content.len() as int).take(at));
    assert(front + now.skip(at) =~= now) by {
        assert(now.take(content.len() as int).take(at) =~= now.take(at));
    }
    lemma_events_concat(front, now.skip(at));
}

/// The snapshots of events and of what comes behind them.
pub proof fn lemma_events_snapshots_concat(
    a: Seq<EventModel>,
    b: Seq<EventModel>,
    tag: Seq<char>,
)
    ensures
        events_snapshots(a + b, tag) == events_snapshots(a, tag) + events_snapshots(b, tag),
    decreases b.len(),
{
    if b.len() == 0 {
        assert(a + b =~= a);
        assert(events_snapshots(a, tag) + events_snapshots(b, tag) =~= events_snapshots(a, tag));
    } else {
        lemma_events_snapshots_concat(a, b.drop_last(), tag);
        assert((a + b).drop_last() =~= a + b.drop_last());
        assert(events_snapshots(a + b, tag) =~= events_snapshots(a, tag) + events_snapshots(
            b,
            tag,
        ));
    }
}

/// What a file holds of a series is what it held, and what it gained.
pub proof fn lemma_gained_series(log: LogModel, content: Seq<u8>, now: Seq<u8>, tag: Seq<char>)
    requires
        framed(log, content),
        grown(content, now),
    ensures
        events_points(events_of(now), tag) == events_points(events_of(content), tag)
            + events_points(gained(log, now), tag),
        events_snapshots(events_of(now), tag) == events_snapshots(events_of(content), tag)
            + events_snapshots(gained(log, now), tag),
{
    lemma_gained(log, content, now);
    lemma_events_points_concat(events_of(content), gained(log, now), tag);
    lemma_events_snapshots_concat(events_of(content), gained(log, now), tag);
}

/// A held histogram series is one.
pub open spec fn held_histogram(intake: Intake, key: Key) -> bool {
    intake.histograms.dom().contains(key) ==> intake.run.series.dom().contains(key.1)
        && intake.run.series[key.1].class == SeriesClass::Histogram
}

/// What taking in snapshots of a series does: if it is held they are pushed.
pub open spec fn took_snapshots(
    before: Intake,
    after: Intake,
    key: Key,
    snapshots: Seq<SnapshotModel>,
) -> bool {
    held_histogram(before, key) ==> {
        &&& held_histogram(after, key)
        &&& after.histograms.dom().contains(key) == before.histograms.dom().contains(key)
        &&& before.histograms.dom().contains(key) ==> after.histograms[key].0 == snapshots_onto(
            before.histograms[key].0,
            snapshots,
        )
    }
}

/// What is held of a histogram series are these snapshots.
pub open spec fn known_snapshots(
    intake: Intake,
    key: Key,
    snapshots: Seq<SnapshotModel>,
) -> bool {
    &&& held_histogram(intake, key)
    &&& intake.histograms.dom().contains(key) ==> intake.histograms[key].0 == snapshots_onto(
        HistogramsModel::start(),
        snapshots,
    )
}

/// Taking in more snapshots makes those known too.
pub proof fn lemma_known_snapshots_grow(
    before: Intake,
    after: Intake,
    key: Key,
    snapshots: Seq<SnapshotModel>,
    more: Seq<SnapshotModel>,
)
    requires
        known_snapshots(before, key, snapshots),
        took_snapshots(before, after, key, more),
    ensures
        known_snapshots(after, key, snapshots + more),
{
    lemma_snapshots_concat(HistogramsModel::start(), snapshots, more);
}

proof fn lemma_took_both_snapshots(
    a: Intake,
    b: Intake,
    c: Intake,
    key: Key,
    first: Seq<SnapshotModel>,
    second: Seq<SnapshotModel>,
)
    requires
        took_snapshots(a, b, key, first),
        took_snapshots(b, c, key, second),
    ensures
        took_snapshots(a, c, key, first + second),
{
    if a.histograms.dom().contains(key) {
        lemma_snapshots_concat(a.histograms[key].0, first, second);
    }
}

/// A series that is not there does not come to be, and is not held.
pub open spec fn no_more_of(before: Intake, after: Intake, key: Key) -> bool {
    &&& after.run.series.dom().contains(key.1) ==> before.run.series.dom().contains(key.1)
    &&& after.points.dom().contains(key) ==> before.points.dom().contains(key)
    &&& after.histograms.dom().contains(key) ==> before.histograms.dom().contains(key)
}

impl<
    F: Fn(&str) -> Option<u64>,
    G: Fn(u64) -> u64,
    H: Fn(Moments, u64) -> Moments,
> Numeric<F, G, H> {
    proof fn lemma_value_snapshots(
        self,
        intake: Intake,
        key: Key,
        step: i64,
        wall: u64,
        value: ValueModel,
    )
        requires
            !marks_hparams(key.1),
        ensures
            took_snapshots(
                intake,
                self.take_value(intake, key.0, step, wall, value),
                key,
                values_snapshots(seq![value], key.1, step, wall),
            ),
    {
        let one = seq![value];
        assert(one.drop_last() =~= Seq::<ValueModel>::empty());
        reveal_with_fuel(values_snapshots, 2);
        let taken = values_snapshots(one, key.1, step, wall);
        if taken.len() > 0 {
            let snapshot = taken.last();
            assert(taken =~= seq![snapshot]);
            assert(taken.drop_last() =~= Seq::<SnapshotModel>::empty());
            reveal_with_fuel(snapshots_onto, 2);
            if intake.histograms.dom().contains(key) {
                assert(snapshots_onto(intake.histograms[key].0, taken)
                    == intake.histograms[key].0.pushed(snapshot));
            }
        } else {
            assert(taken =~= Seq::<SnapshotModel>::empty());
        }
    }

    proof fn lemma_values_snapshots(
        self,
        intake: Intake,
        key: Key,
        step: i64,
        wall: u64,
        values: Seq<ValueModel>,
    )
        requires
            !marks_hparams(key.1),
        ensures
            took_snapshots(
                intake,
                self.take_values(intake, key.0, step, wall, values),
                key,
                values_snapshots(values, key.1, step, wall),
            ),
        decreases values.len(),
    {
        if values.len() > 0 {
            let front = values.drop_last();
            let between = self.take_values(intake, key.0, step, wall, front);
            self.lemma_values_snapshots(intake, key, step, wall, front);
            self.lemma_value_snapshots(between, key, step, wall, values.last());
            let first = values_snapshots(front, key.1, step, wall);
            let one = seq![values.last()];
            let second = values_snapshots(one, key.1, step, wall);
            lemma_took_both_snapshots(
                intake,
                between,
                self.take_values(intake, key.0, step, wall, values),
                key,
                first,
                second,
            );
            assert(one.drop_last() =~= Seq::<ValueModel>::empty());
            reveal_with_fuel(values_snapshots, 2);
            assert(first + second =~= values_snapshots(values, key.1, step, wall));
        }
    }

    proof fn lemma_event_snapshots(self, intake: Intake, key: Key, event: EventModel)
        requires
            !marks_hparams(key.1),
        ensures
            took_snapshots(
                intake,
                self.take_event(intake, key.0, event),
                key,
                event_snapshots(event, key.1),
            ),
    {
        let walled = Intake { run: intake.run.walled(event.wall_time), ..intake };
        if let PayloadModel::Summary(values) = event.payload {
            self.lemma_values_snapshots(walled, key, event.step, event.wall_time, values);
        }
    }

    /// Whole records give their snapshots to a series.
    proof fn lemma_frames_snapshots(self, intake: Intake, key: Key, bytes: Seq<u8>)
        requires
            !marks_hparams(key.1),
        ensures
            took_snapshots(
                intake,
                self.take_frames(intake, key.0, bytes).0,
                key,
                events_snapshots(events_of(bytes), key.1),
            ),
        decreases bytes.len(),
    {
        if let Frame::Whole { data, data_crc, size } = frame(bytes) {
            if 0 < size <= bytes.len() {
                let rest = bytes.skip(size as int);
                let next = self.take_record(intake, key.0, data);
                let after = self.take_frames(intake, key.0, bytes).0;
                self.lemma_frames_snapshots(next, key, rest);
                let more = events_snapshots(events_of(rest), key.1);
                if let Ok(event) = event_of(data) {
                    self.lemma_event_snapshots(intake, key, event);
                    let first = event_snapshots(event, key.1);
                    lemma_took_both_snapshots(intake, next, after, key, first, more);
                    lemma_events_snapshots_concat(seq![event], events_of(rest), key.1);
                    assert(seq![event].drop_last() =~= Seq::<EventModel>::empty());
                    reveal_with_fuel(events_snapshots, 2);
                    assert(Seq::<SnapshotModel>::empty() + first =~= first);
                } else {
                    lemma_took_both_snapshots(intake, next, after, key, Seq::empty(), more);
                    assert(Seq::<SnapshotModel>::empty() + more =~= more);
                }
            }
        }
    }

    /// What is left of bytes is their end, and no whole record; where it is no
    /// record at all, the framing died.
    proof fn lemma_left(self, intake: Intake, name: Seq<char>, bytes: Seq<u8>)
        ensures
            ({
                let (after, left, bad) = self.take_frames(intake, name, bytes);
                &&& left == unread(bytes)
                &&& left.len() <= bytes.len()
                &&& left == bytes.skip(bytes.len() - left.len())
                &&& !(frame(left) is Whole)
                &&& bad == (frame(left) is Bad)
            }),
        decreases bytes.len(),
    {
        let left = self.take_frames(intake, name, bytes).1;
        assert(bytes.skip(0) =~= bytes);
        law_whole_records_stay(bytes, Seq::empty());
        if let Frame::Whole { data, data_crc, size } = frame(bytes) {
            let rest = bytes.skip(size as int);
            self.lemma_left(self.take_record(intake, name, data), name, rest);
            assert(left =~= bytes.skip(bytes.len() - left.len()));
        }
    }

    proof fn lemma_marker_values(
        self,
        intake: Intake,
        key: Key,
        step: i64,
        wall: u64,
        values: Seq<ValueModel>,
    )
        requires
            marks_hparams(key.1),
        ensures
            no_more_of(intake, self.take_values(intake, key.0, step, wall, values), key),
        decreases values.len(),
    {
        if values.len() > 0 {
            self.lemma_marker_values(intake, key, step, wall, values.drop_last());
        }
    }

    /// A marker of the hparams plugin does not become a series.
    proof fn lemma_marker_frames(self, intake: Intake, key: Key, bytes: Seq<u8>)
        requires
            marks_hparams(key.1),
        ensures
            no_more_of(intake, self.take_frames(intake, key.0, bytes).0, key),
        decreases bytes.len(),
    {
        if let Frame::Whole { data, data_crc, size } = frame(bytes) {
            if 0 < size <= bytes.len() {
                let next = self.take_record(intake, key.0, data);
                if let Ok(event) = event_of(data) {
                    let walled = Intake { run: intake.run.walled(event.wall_time), ..intake };
                    if let PayloadModel::Summary(values) = event.payload {
                        self.lemma_marker_values(
                            walled,
                            key,
                            event.step,
                            event.wall_time,
                            values,
                        );
                    }
                }
                self.lemma_marker_frames(next, key, bytes.skip(size as int));
            }
        }
    }

    /// Draining an event file that has grown takes in what it gained, once,
    /// and reads it as far as there are whole records.
    #[verifier::spinoff_prover]
    pub proof fn law_event_file_growth_is_taken_in(
        self,
        intake: Intake,
        log: LogModel,
        tail: Seq<u8>,
        failed: bool,
        tag: Seq<char>,
        content: Seq<u8>,
        now: Seq<u8>,
    )
        requires
            framed(log, content),
            grown(content, now),
            log.dead || (log.fits(tail) && tail == now.skip(log.consumed()) && !failed),
        ensures
            ({
                let key = (log.run, tag);
                let (after, next) = self.drain_log(intake, log, tail, failed);
                &&& framed(next, now)
                &&& if marks_hparams(tag) {
                    no_more_of(intake, after, key)
                } else {
                    &&& took(self, intake, after, key, events_points(gained(log, now), tag))
                    &&& took_snapshots(
                        intake,
                        after,
                        key,
                        events_snapshots(gained(log, now), tag),
                    )
                }
            }),
    {
        let key = (log.run, tag);
        let at = log.committed as int;
        let ahead = content.skip(at);
        let front = content.take(at);
        let bytes = now.skip(at);
        let (after, next) = self.drain_log(intake, log, tail, failed);
        lemma_front(content, now, at);
        if log.dead {
            law_whole_records_stay(ahead, now.skip(content.len() as int));
            crate::project_laws::lemma_took_nothing(self, intake, after, key);
        } else {
            assert(log.consumed() == content.len());
            assert(log.pending + tail == bytes);
            self.lemma_left(intake, log.run, bytes);
            let left = unread(bytes);
            crate::project_laws::lemma_unread(bytes);
            let whole = bytes.take(bytes.len() - left.len());
            assert(left =~= now.skip(next.committed as int));
            assert(now.take(next.committed as int) =~= front + whole);
            lemma_events_concat(front, whole);
            if marks_hparams(tag) {
                self.lemma_marker_frames(intake, key, bytes);
            } else {
                lemma_take_frames(self, intake, key, bytes);
                self.lemma_frames_snapshots(intake, key, bytes);
            }
        }
    }
}

/// What a file held is the front of what it holds, and behind an offset it
/// holds what it held, and more.
pub proof fn lemma_front(content: Seq<u8>, now: Seq<u8>, n: int)
    requires
        grown(content, now),
        0 <= n <= content.len(),
    ensures
        now.take(n) == content.take(n),
        content.skip(n) + now.skip(content.len() as int) == now.skip(n),
{
    assert forall|i: int| 0 <= i < content.len() implies content[i] == now[i] by {
        assert(content[i] == now.take(content.len() as int)[i]);
    }
    assert(now.take(n) =~= content.take(n));
    assert(content.skip(n) + now.skip(content.len() as int) =~= now.skip(n));
}

} // verus!
