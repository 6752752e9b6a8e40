//! What holds of the viewer as a whole: a growing file is taken in once, a
//! written file comes back whole, a restart of one series leaves the others
//! alone and is counted, and a chart shows every point or says how many it
//! left out.
use vstd::prelude::*;

use crate::arith::{Arith, Operation};
use crate::chart::XAxis;
use crate::drain::LogModel;
use crate::event::ValueModel;
use crate::numeric::{Moments, Numeric};
use crate::record::{
    file_bytes, frame, law_record_round_trip, law_whole_records_stay, record_bytes, Frame,
};
use crate::run::{Intake, RunModel};
use crate::series::{kept, lemma_kept, PointStamp, PointsModel, SeriesModel};

verus! {

/// The bytes of a file with one more record, and what comes behind.
proof fn lemma_appended_file(payloads: Seq<Seq<u8>>, last: Seq<u8>, more: Seq<u8>)
    ensures
        file_bytes(payloads.push(last)) + more == file_bytes(payloads) + (record_bytes(last) + more),
{
    assert(payloads.push(last).drop_last() =~= payloads);
    lemma_three(file_bytes(payloads), record_bytes(last), more);
}

/// Appending goes in any order.
proof fn lemma_three(a: Seq<u8>, b: Seq<u8>, c: Seq<u8>)
    ensures
        (a + b) + c == a + (b + c),
{
    assert((a + b) + c =~= a + (b + c));
}

impl<
    F: Fn(&str) -> Option<u64>,
    G: Fn(u64) -> u64,
    H: Fn(Moments, u64) -> Moments,
> Numeric<F, G, H> {
    /// Bytes taken in as they arrive, split anywhere, come to what the same
    /// bytes come to at once: the torn end of the first part is completed by
    /// the second. Framing that died stays dead.
    pub proof fn law_growth_is_taken_once(
        self,
        intake: Intake,
        name: Seq<char>,
        first: Seq<u8>,
        second: Seq<u8>,
    )
        ensures
            ({
                let (taken, left, bad) = self.take_frames(intake, name, first);
                if bad {
                    self.take_frames(intake, name, first + second) == (taken, left + second, true)
                } else {
                    self.take_frames(intake, name, first + second) == self.take_frames(
                        taken,
                        name,
                        left + second,
                    )
                }
            }),
        decreases first.len(),
    {
        law_whole_records_stay(first, second);
        if let Frame::Whole { data, data_crc, size } = frame(first) {
            let tail = first.skip(size as int);
            assert((first + second).skip(size as int) =~= tail + second);
            self.law_growth_is_taken_once(
                self.take_record(intake, name, data),
                name,
                tail,
                second,
            );
        }
    }

    /// A log that is drained twice, with the file split anywhere, ends where
    /// one drained at once ends.
    pub proof fn law_two_polls_are_one(
        self,
        intake: Intake,
        log: LogModel,
        first: Seq<u8>,
        second: Seq<u8>,
        failed: bool,
    )
        requires
            !log.dead,
            log.fits(first + second),
        ensures
            ({
                let (between, half) = self.drain_log(intake, log, first, false);
                !half.dead ==> self.drain_log(between, half, second, failed) == self.drain_log(
                    intake,
                    log,
                    first + second,
                    failed,
                )
            }),
    {
        let (between, half) = self.drain_log(intake, log, first, false);
        let ahead = log.pending + first;
        assert(log.fits(first));
        assert(log.pending + (first + second) =~= ahead + second);
        self.law_growth_is_taken_once(intake, log.run, ahead, second);
        self.lemma_left_is_shorter(intake, log.run, ahead);
        if !half.dead {
            assert(half.fits(second));
            self.lemma_left_is_shorter(between, log.run, half.pending + second);
        }
    }

    proof fn lemma_left_is_shorter(self, intake: Intake, name: Seq<char>, bytes: Seq<u8>)
        ensures
            self.take_frames(intake, name, bytes).1.len() <= bytes.len(),
        decreases bytes.len(),
    {
        if let Frame::Whole { data, data_crc, size } = frame(bytes) {
            if 0 < size <= bytes.len() {
                self.lemma_left_is_shorter(
                    self.take_record(intake, name, data),
                    name,
                    bytes.skip(size as int),
                );
            }
        }
    }

    /// Records taken in one behind the other.
    pub open spec fn take_records(self, intake: Intake, name: Seq<char>, payloads: Seq<Seq<u8>>) -> Intake
        decreases payloads.len(),
    {
        if payloads.len() == 0 {
            intake
        } else {
            self.take_record(
                self.take_records(intake, name, payloads.drop_last()),
                name,
                payloads.last(),
            )
        }
    }

    /// The record at the front of bytes is taken in first.
    proof fn lemma_first_record(self, intake: Intake, name: Seq<char>, payload: Seq<u8>, more: Seq<u8>)
        requires
            payload.len() <= u64::MAX,
        ensures
            self.take_frames(intake, name, record_bytes(payload) + more) == self.take_frames(
                self.take_record(intake, name, payload),
                name,
                more,
            ),
    {
        law_record_round_trip(payload, more);
        let bytes = record_bytes(payload) + more;
        let size = (16 + payload.len()) as nat;
        assert(bytes.len() >= size);
        assert(bytes.skip(size as int) == more);
    }

    /// A written file is taken in whole: every record that was put into it,
    /// in order, before whatever comes behind them.
    pub proof fn law_written_records_are_taken_in(
        self,
        intake: Intake,
        name: Seq<char>,
        payloads: Seq<Seq<u8>>,
        more: Seq<u8>,
    )
        requires
            forall|i: int| 0 <= i < payloads.len() ==> (#[trigger] payloads[i]).len() <= u64::MAX,
        ensures
            self.take_frames(intake, name, file_bytes(payloads) + more) == self.take_frames(
                self.take_records(intake, name, payloads),
                name,
                more,
            ),
        decreases payloads.len(),
    {
        if payloads.len() == 0 {
            assert(file_bytes(payloads) + more =~= more);
        } else {
            let init = payloads.drop_last();
            let last = payloads.last();
            assert forall|i: int| 0 <= i < init.len() implies (#[trigger] init[i]).len()
                <= u64::MAX by {
                assert(init[i] == payloads[i]);
            }
            let behind = record_bytes(last) + more;
            lemma_appended_file(init, last, more);
            assert(init.push(last) =~= payloads);
            self.law_written_records_are_taken_in(intake, name, init, behind);
            self.lemma_first_record(self.take_records(intake, name, init), name, last, more);
        }
    }

    /// A written file is taken in to its end: nothing of it is left over, and
    /// its framing is alive.
    pub proof fn law_written_file_is_taken_in(
        self,
        intake: Intake,
        name: Seq<char>,
        payloads: Seq<Seq<u8>>,
    )
        requires
            forall|i: int| 0 <= i < payloads.len() ==> (#[trigger] payloads[i]).len() <= u64::MAX,
        ensures
            self.take_frames(intake, name, file_bytes(payloads)) == (
                self.take_records(intake, name, payloads),
                Seq::<u8>::empty(),
                false,
            ),
    {
        let nothing = Seq::<u8>::empty();
        self.law_written_records_are_taken_in(intake, name, payloads, nothing);
        assert(file_bytes(payloads) + nothing =~= file_bytes(payloads));
        assert(frame(nothing) is Short);
    }

    /// Every restart is counted, once: the restarts of a run grow by what the
    /// segments of the series grow by, its first one apart.
    pub proof fn law_restarts_are_counted(
        self,
        run: RunModel,
        tag: Seq<char>,
        series: SeriesModel,
        point: PointStamp,
    )
        requires
            run.preemptions < u64::MAX,
        ensures
            ({
                let after = self.with_point(run, tag, series, point);
                let before = if series.segments.len() == 0 {
                    1
                } else {
                    series.segments.len()
                };
                &&& after.series[tag].segments.len() >= before
                &&& after.preemptions - run.preemptions == after.series[tag].segments.len()
                    - before
            }),
    {
    }

    /// A value changes its own series and no other: a restart in one tag
    /// never disturbs another, neither its summary nor its held points.
    pub proof fn law_restarts_are_per_series(
        self,
        intake: Intake,
        name: Seq<char>,
        step: i64,
        wall: u64,
        value: ValueModel,
        other: Seq<char>,
    )
        requires
            other != value.tag,
        ensures
            ({
                let after = self.take_value(intake, name, step, wall, value);
                &&& after.run.series.dom().contains(other) == intake.run.series.dom().contains(
                    other,
                )
                &&& intake.run.series.dom().contains(other) ==> after.run.series[other]
                    == intake.run.series[other]
                &&& after.points.dom().contains((name, other)) == intake.points.dom().contains(
                    (name, other),
                )
                &&& intake.points.dom().contains((name, other)) ==> after.points[(name, other)]
                    == intake.points[(name, other)]
                &&& after.histograms.dom().contains((name, other))
                    == intake.histograms.dom().contains((name, other))
                &&& intake.histograms.dom().contains((name, other)) ==> after.histograms[(
                    name,
                    other,
                )] == intake.histograms[(name, other)]
            }),
    {
    }
}

impl<O: Fn(Operation, u64, u64) -> u64, I: Fn(i64) -> u64> Arith<O, I> {
    /// Token counts are never extrapolated: before the first and behind the
    /// last step of the counter there is none. On a step that the counter
    /// logged it is the logged value.
    pub proof fn law_tokens_are_never_extrapolated(self, counter: PointsModel, step: i64)
        requires
            counter.wf(),
        ensures
            counter.steps.len() == 0 || step < counter.steps.first() || step > counter.steps.last()
                ==> self.tokens_at(counter, step) is None,
            forall|i: int|
                0 <= i < counter.steps.len() && #[trigger] counter.steps[i] == step
                    && crate::double::finite(counter.values[i]) ==> self.tokens_at(counter, step)
                    == Some(counter.values[i]),
    {
        lemma_kept(counter.steps, step);
        let at = kept(counter.steps, step) as int;
        assert forall|i: int|
            0 <= i < counter.steps.len() && #[trigger] counter.steps[i] == step
                && crate::double::finite(counter.values[i]) implies self.tokens_at(counter, step)
            == Some(counter.values[i]) by {
            if i < at {
                assert(counter.steps[i] < step);
            } else if at < i {
                assert(counter.steps[at] >= step);
                assert(counter.steps[at] < counter.steps[i]);
            }
        }
    }

    /// On every axis but tokens a chart draws every point, in order and with
    /// its own value.
    pub proof fn law_chart_shows_every_point(
        self,
        axis: XAxis,
        first_wall: u64,
        counter: Option<PointsModel>,
        steps: Seq<i64>,
        walls: Seq<u64>,
        values: Seq<u64>,
        n: nat,
    )
        requires
            axis != XAxis::Tokens,
            n <= values.len(),
        ensures
            self.columns(axis, first_wall, counter, steps, walls, values, n).xs.len() == n,
            self.columns(axis, first_wall, counter, steps, walls, values, n).ys == values.take(
                n as int,
            ),
            self.unplaced(axis, first_wall, counter, steps, walls, n) == 0,
        decreases n,
    {
        if n > 0 {
            self.law_chart_shows_every_point(
                axis,
                first_wall,
                counter,
                steps,
                walls,
                values,
                (n - 1) as nat,
            );
            assert(values.take(n as int) =~= values.take(n - 1).push(values[n - 1]));
        } else {
            assert(values.take(0) =~= Seq::<u64>::empty());
        }
    }

    /// On every axis, what a chart does not draw it counts.
    pub proof fn law_chart_counts_what_it_drops(
        self,
        axis: XAxis,
        first_wall: u64,
        counter: Option<PointsModel>,
        steps: Seq<i64>,
        walls: Seq<u64>,
        values: Seq<u64>,
        n: nat,
    )
        requires
            n <= u64::MAX,
        ensures
            self.columns(axis, first_wall, counter, steps, walls, values, n).xs.len()
                + self.unplaced(axis, first_wall, counter, steps, walls, n) == n,
            self.columns(axis, first_wall, counter, steps, walls, values, n).ys.len()
                == self.columns(axis, first_wall, counter, steps, walls, values, n).xs.len(),
        decreases n,
    {
        if n > 0 {
            self.law_chart_counts_what_it_drops(
                axis,
                first_wall,
                counter,
                steps,
                walls,
                values,
                (n - 1) as nat,
            );
        }
    }
}

} // verus!
