//! What holds of the text backends as a whole: lines are taken in once,
//! however a file was read in pieces, and a file that is read on from its
//! cached offset comes to what it would have come to without the cache.
use vstd::prelude::*;
use vstd::utf8::{decode_utf8, valid_utf8};

use crate::backends::{offset_of, tsv_tag, DvcliveModel, MlflowModel, TextModel};
use crate::drain::{complete, law_torn_line_stays_unread, LogModel};
use crate::dvclive::TsvSchema;
use crate::event::{PayloadModel, ValueModel};
use crate::numeric::{Moments, Numeric};
use crate::record::{frame, Frame};
use crate::run::{Intake, Run, RunModel, Stamp};
use crate::text::{first_index, lemma_first_index, lines_of, text_of};
use crate::warm::{entry_of, FileEntry};
use crate::warm_laws::law_saved_run_is_restored;

verus! {

/// A text that ends where a line ends.
pub open spec fn ends_a_line(text: Seq<char>) -> bool {
    text.len() == 0 || text.last() == '\n'
}

/// Lines do not run over a line feed: the lines of a text that ends where a
/// line ends, and those of what follows, are the lines of both.
pub proof fn law_lines_part_at_a_line_feed(a: Seq<char>, b: Seq<char>)
    requires
        ends_a_line(a),
    ensures
        lines_of(a + b) == lines_of(a) + lines_of(b),
    decreases a.len(),
{
    lemma_first_index(a, '\n');
    if a.len() == 0 {
        assert(a + b =~= b);
        assert(lines_of(a) + lines_of(b) =~= lines_of(b));
    } else {
        assert(a.contains(a.last()));
        let i = first_index(a, '\n')->0;
        lemma_first_index(a + b, '\n');
        assert((a + b)[i] == '\n');
        assert((a + b).contains((a + b)[i]));
        let j = first_index(a + b, '\n')->0;
        assert(i == j) by {
            if j < i {
                assert((a + b)[j] == a[j]);
            }
        }
        assert((a + b).take(i) =~= a.take(i));
        assert((a + b).skip(i + 1) =~= a.skip(i + 1) + b);
        let rest = a.skip(i + 1);
        if rest.len() > 0 {
            assert(rest.last() == a.last());
        }
        law_lines_part_at_a_line_feed(rest, b);
        assert(lines_of(a + b) =~= lines_of(a) + lines_of(b));
    }
}

/// Text decodes piece by piece.
pub proof fn lemma_decoded_both(a: Seq<u8>, b: Seq<u8>)
    requires
        valid_utf8(a),
        valid_utf8(b),
    ensures
        valid_utf8(a + b),
        decode_utf8(a + b) == decode_utf8(a) + decode_utf8(b),
{
    vstd::utf8::valid_utf8_concat(a, b);
    let both = a + b;
    let at = a.len() as int;
    if b.len() == 0 {
        assert(both =~= a);
        assert(decode_utf8(a) + decode_utf8(b) =~= decode_utf8(a));
    } else {
        vstd::utf8::is_char_boundary_start_end_of_seq(b);
        vstd::utf8::is_char_boundary_iff_not_is_continuation_byte(b, 0);
        assert(both[at] == b[0]);
        vstd::utf8::is_char_boundary_iff_not_is_continuation_byte(both, at);
        vstd::utf8::decode_utf8_split(both, at);
        assert(both.subrange(0, at) =~= a);
        assert(both.subrange(at, both.len() as int) =~= b);
    }
}

/// Bytes that end at a line feed decode to a text that does.
pub proof fn lemma_decoded_line(bytes: Seq<u8>)
    requires
        valid_utf8(bytes),
        bytes.len() > 0,
        bytes.last() == 0x0A,
    ensures
        decode_utf8(bytes).len() > 0,
        decode_utf8(bytes).last() == '\n',
{
    let at = bytes.len() - 1;
    vstd::utf8::is_char_boundary_iff_not_is_continuation_byte(bytes, at);
    vstd::utf8::decode_utf8_split(bytes, at);
    vstd::utf8::valid_utf8_split(bytes, at);
    let end = bytes.subrange(at, bytes.len() as int);
    assert(end =~= seq![0x0Au8]);
    vstd::utf8::is_ascii_chars_encode_utf8(seq!['\n']);
    assert(vstd::utf8::encode_utf8(seq!['\n']) =~= end);
    vstd::utf8::encode_utf8_decode_utf8(seq!['\n']);
}

/// How many bytes are complete behind a complete front.
pub proof fn lemma_complete_both(front: Seq<u8>, more: Seq<u8>)
    requires
        front.len() == 0 || front.last() == 0x0A,
    ensures
        complete(front + more) == front.len() + complete(more),
    decreases more.len(),
{
    if more.len() == 0 {
        assert(front + more =~= front);
    } else {
        assert((front + more).drop_last() =~= front + more.drop_last());
        lemma_complete_both(front, more.drop_last());
    }
}

/// What two polls of a text file read: the bytes that were complete, and
/// those that are complete behind them once more has arrived.
pub open spec fn second_poll(first: Seq<u8>, second: Seq<u8>) -> Seq<u8> {
    first.skip(complete(first) as int) + second
}

/// A text file that is polled twice, split anywhere, gives the lines that it
/// gives at once: the torn end of the first part is completed by the second.
pub proof fn law_lines_are_read_once(first: Seq<u8>, second: Seq<u8>)
    requires
        valid_utf8(first.take(complete(first) as int)),
        valid_utf8(
            second_poll(first, second).take(complete(second_poll(first, second)) as int),
        ),
    ensures
        complete(first + second) == complete(first) + complete(second_poll(first, second)),
        lines_of(text_of((first + second).take(complete(first + second) as int))) == lines_of(
            text_of(first.take(complete(first) as int)),
        ) + lines_of(
            text_of(
                second_poll(first, second).take(complete(second_poll(first, second)) as int),
            ),
        ),
{
    law_torn_line_stays_unread(first);
    let front = first.take(complete(first) as int);
    let rest = second_poll(first, second);
    law_torn_line_stays_unread(rest);
    let back = rest.take(complete(rest) as int);
    assert(first + second =~= front + rest);
    lemma_complete_both(front, rest);
    assert((first + second).take(complete(first + second) as int) =~= front + back);
    lemma_decoded_both(front, back);
    if front.len() > 0 {
        lemma_decoded_line(front);
    }
    law_lines_part_at_a_line_feed(decode_utf8(front), decode_utf8(back));
}

/// An intake whose run was last written at a time.
pub open spec fn stamped(intake: Intake, time: Option<Stamp>) -> Intake {
    Intake { run: RunModel { last_write: time, ..intake.run }, ..intake }
}

/// The times of two polls, the second no earlier than the first.
pub open spec fn in_order(earlier: Option<Stamp>, later: Option<Stamp>) -> bool {
    match (earlier, later) {
        (Some(a), Some(b)) => a.total() <= b.total() && (a.total() == b.total() ==> a == b),
        (None, _) => true,
        (Some(_), None) => false,
    }
}

proof fn lemma_stamps(intake: Intake, earlier: Option<Stamp>, later: Option<Stamp>)
    requires
        in_order(earlier, later),
    ensures
        intake.written(earlier).written(later) == intake.written(later),
        intake.written(later) == stamped(intake, intake.written(later).run.last_write),
{
}

impl<
    F: Fn(&str) -> Option<u64>,
    G: Fn(u64) -> u64,
    H: Fn(Moments, u64) -> Moments,
> Numeric<F, G, H> {
    proof fn lemma_metrics_stamped(
        self,
        intake: Intake,
        time: Option<Stamp>,
        name: Seq<char>,
        tag: Seq<char>,
        lines: Seq<Seq<char>>,
    )
        ensures
            self.take_metrics(stamped(intake, time), name, tag, lines) == stamped(
                self.take_metrics(intake, name, tag, lines),
                time,
            ),
            self.take_metrics(intake, name, tag, lines).run.last_write == intake.run.last_write,
        decreases lines.len(),
    {
        if lines.len() > 0 {
            self.lemma_metrics_stamped(intake, time, name, tag, lines.drop_last());
        }
    }

    proof fn lemma_metrics_both(
        self,
        intake: Intake,
        name: Seq<char>,
        tag: Seq<char>,
        a: Seq<Seq<char>>,
        b: Seq<Seq<char>>,
    )
        ensures
            self.take_metrics(self.take_metrics(intake, name, tag, a), name, tag, b)
                == self.take_metrics(intake, name, tag, a + b),
        decreases b.len(),
    {
        if b.len() == 0 {
            assert(a + b =~= a);
        } else {
            assert((a + b).drop_last() =~= a + b.drop_last());
            self.lemma_metrics_both(intake, name, tag, a, b.drop_last());
        }
    }

    proof fn lemma_rows_stamped(
        self,
        intake: Intake,
        time: Option<Stamp>,
        name: Seq<char>,
        tag: Seq<char>,
        schema: TsvSchema,
        lines: Seq<Seq<char>>,
    )
        ensures
            self.take_rows(stamped(intake, time), name, tag, schema, lines) == stamped(
                self.take_rows(intake, name, tag, schema, lines),
                time,
            ),
            self.take_rows(intake, name, tag, schema, lines).run.last_write
                == intake.run.last_write,
        decreases lines.len(),
    {
        if lines.len() > 0 {
            self.lemma_rows_stamped(intake, time, name, tag, schema, lines.drop_last());
        }
    }

    proof fn lemma_rows_both(
        self,
        intake: Intake,
        name: Seq<char>,
        tag: Seq<char>,
        schema: TsvSchema,
        a: Seq<Seq<char>>,
        b: Seq<Seq<char>>,
    )
        ensures
            self.take_rows(self.take_rows(intake, name, tag, schema, a), name, tag, schema, b)
                == self.take_rows(intake, name, tag, schema, a + b),
        decreases b.len(),
    {
        if b.len() == 0 {
            assert(a + b =~= a);
        } else {
            assert((a + b).drop_last() =~= a + b.drop_last());
            self.lemma_rows_both(intake, name, tag, schema, a, b.drop_last());
        }
    }

    /// A metric file of an MLflow run that is polled twice, split anywhere,
    /// comes to what it comes to at once.
    pub proof fn law_metric_growth_is_taken_once(
        self,
        intake: Intake,
        state: MlflowModel,
        first: TextModel,
        last: TextModel,
    )
        requires
            first.path == last.path,
            first.relative == last.relative,
            in_order(first.mtime, last.mtime),
            first.tail is Some,
            last.tail is Some,
            valid_utf8(first.tail->0.take(complete(first.tail->0) as int)),
            valid_utf8(
                second_poll(first.tail->0, last.tail->0).take(
                    complete(second_poll(first.tail->0, last.tail->0)) as int,
                ),
            ),
        ensures
            ({
                let (between, half) = self.drain_metric(intake, state, first);
                let rest = TextModel {
                    tail: Some(second_poll(first.tail->0, last.tail->0)),
                    ..last
                };
                let whole = TextModel { tail: Some(first.tail->0 + last.tail->0), ..last };
                self.drain_metric(between, half, rest) == self.drain_metric(intake, state, whole)
            }),
    {
        let a = first.tail->0;
        let b = last.tail->0;
        let rest = second_poll(a, b);
        law_torn_line_stays_unread(a);
        law_torn_line_stays_unread(rest);
        law_lines_are_read_once(a, b);
        let lines = lines_of(text_of(a.take(complete(a) as int)));
        let more = lines_of(text_of(rest.take(complete(rest) as int)));
        let tag = first.relative;
        lemma_stamps(intake, first.mtime, last.mtime);
        let seen = intake.written(last.mtime);
        let early = intake.written(first.mtime);
        let time = seen.run.last_write;
        let taken = self.take_metrics(early, state.run, tag, lines);
        self.lemma_metrics_stamped(early, time, state.run, tag, lines);
        assert(stamped(early, time) == seen);
        assert(taken.written(last.mtime) == stamped(taken, time));
        assert(taken.written(last.mtime) == self.take_metrics(seen, state.run, tag, lines));
        self.lemma_metrics_both(seen, state.run, tag, lines, more);
        let offset = offset_of(state.offsets, first.path);
        if complete(a) == 0 {
            assert(a.take(0) =~= Seq::<u8>::empty());
            assert(lines =~= Seq::<Seq<char>>::empty());
            assert(lines + more =~= more);
        } else if complete(rest) == 0 {
            assert(rest.take(0) =~= Seq::<u8>::empty());
            assert(more =~= Seq::<Seq<char>>::empty());
            assert(lines + more =~= lines);
        } else {
            let once = state.offsets.insert(
                first.path,
                crate::drain::advanced(offset, complete(a)),
            );
            assert(once.insert(
                first.path,
                crate::drain::advanced(offset, complete(a) + complete(rest)),
            ) =~= state.offsets.insert(
                first.path,
                crate::drain::advanced(offset, complete(a) + complete(rest)),
            ));
        }
    }

    /// A TSV file of a dvclive root that is polled twice, split anywhere,
    /// comes to what it comes to at once: its header is read with the first
    /// whole line, and its rows once each. (A file whose first line is no
    /// header gives no rows either way; where it is then read on from is the
    /// one thing in which the two differ.)
    pub proof fn law_tsv_growth_is_taken_once(
        self,
        intake: Intake,
        state: DvcliveModel,
        first: TextModel,
        last: TextModel,
    )
        requires
            first.path == last.path,
            first.relative == last.relative,
            in_order(first.mtime, last.mtime),
            first.tail is Some,
            last.tail is Some,
            valid_utf8(first.tail->0.take(complete(first.tail->0) as int)),
            valid_utf8(
                second_poll(first.tail->0, last.tail->0).take(
                    complete(second_poll(first.tail->0, last.tail->0)) as int,
                ),
            ),
            offset_of(state.offsets, first.path) == 0 ==> !state.schemas.dom().contains(first.path),
        ensures
            ({
                let (between, half) = self.drain_tsv(intake, state, first);
                let rest = TextModel {
                    tail: Some(second_poll(first.tail->0, last.tail->0)),
                    ..last
                };
                let whole = TextModel { tail: Some(first.tail->0 + last.tail->0), ..last };
                let twice = self.drain_tsv(between, half, rest);
                let once = self.drain_tsv(intake, state, whole);
                &&& twice.0 == once.0
                &&& half.schemas.dom().contains(first.path) || half == state ==> twice.1 == once.1
            }),
    {
        if tsv_tag(first.relative) is Some {
            self.lemma_tsv_growth(intake, state, first, last);
        }
    }

    proof fn lemma_tsv_growth(
        self,
        intake: Intake,
        state: DvcliveModel,
        first: TextModel,
        last: TextModel,
    )
        requires
            first.path == last.path,
            first.relative == last.relative,
            in_order(first.mtime, last.mtime),
            first.tail is Some,
            last.tail is Some,
            valid_utf8(first.tail->0.take(complete(first.tail->0) as int)),
            valid_utf8(
                second_poll(first.tail->0, last.tail->0).take(
                    complete(second_poll(first.tail->0, last.tail->0)) as int,
                ),
            ),
            offset_of(state.offsets, first.path) == 0 ==> !state.schemas.dom().contains(first.path),
            tsv_tag(first.relative) is Some,
        ensures
            ({
                let (between, half) = self.drain_tsv(intake, state, first);
                let rest = TextModel {
                    tail: Some(second_poll(first.tail->0, last.tail->0)),
                    ..last
                };
                let whole = TextModel { tail: Some(first.tail->0 + last.tail->0), ..last };
                let twice = self.drain_tsv(between, half, rest);
                let once = self.drain_tsv(intake, state, whole);
                &&& twice.0 == once.0
                &&& half.schemas.dom().contains(first.path) || half == state ==> twice.1 == once.1
            }),
    {
        let a = first.tail->0;
        let b = last.tail->0;
        let rest = second_poll(a, b);
        law_torn_line_stays_unread(a);
        law_torn_line_stays_unread(rest);
        law_lines_are_read_once(a, b);
        let front = a.take(complete(a) as int);
        let lines = lines_of(text_of(front));
        let more = lines_of(text_of(rest.take(complete(rest) as int)));
        let tag = tsv_tag(first.relative)->0;
        let path = first.path;
        lemma_stamps(intake, first.mtime, last.mtime);
        let seen = intake.written(last.mtime);
        let early = intake.written(first.mtime);
        let time = seen.run.last_write;
        assert(stamped(early, time) == seen);
        let offset = offset_of(state.offsets, path);
        let end = crate::drain::advanced(offset, complete(a) + complete(rest));
        assert(state.offsets.insert(path, crate::drain::advanced(offset, complete(a))).insert(
            path,
            end,
        ) =~= state.offsets.insert(path, end));
        if complete(a) == 0 {
            assert(a.take(0) =~= Seq::<u8>::empty());
            assert(lines =~= Seq::<Seq<char>>::empty());
            assert(lines + more =~= more);
        } else {
            lemma_decoded_line(front);
            lemma_first_index(text_of(front), '\n');
            assert(lines.len() > 0);
            assert((lines + more)[0] == lines[0]);
            let (schema, rows) = if offset == 0 {
                (crate::backends::first_schema(lines), lines.skip(1))
            } else if state.schemas.dom().contains(path) {
                (Some(state.schemas[path]), lines)
            } else {
                (None, lines)
            };
            if let Some(s) = schema {
                let taken = self.take_rows(early, state.run, tag, s, rows);
                self.lemma_rows_stamped(early, time, state.run, tag, s, rows);
                assert(taken.written(last.mtime) == stamped(taken, time));
                assert(taken.written(last.mtime) == self.take_rows(
                    seen,
                    state.run,
                    tag,
                    s,
                    rows,
                ));
                self.lemma_rows_both(seen, state.run, tag, s, rows, more);
                assert((lines + more).skip(1) =~= lines.skip(1) + more);
                if complete(rest) == 0 {
                    assert(rest.take(0) =~= Seq::<u8>::empty());
                    assert(more =~= Seq::<Seq<char>>::empty());
                    assert(lines + more =~= lines);
                }
            } else {
                assert(early.written(last.mtime) == seen);
            }
        }
    }

    proof fn lemma_values_alike(
        self,
        a: Intake,
        b: Intake,
        name: Seq<char>,
        step: i64,
        wall: u64,
        values: Seq<ValueModel>,
    )
        requires
            same_history(a.run, b.run),
        ensures
            same_history(
                self.take_values(a, name, step, wall, values).run,
                self.take_values(b, name, step, wall, values).run,
            ),
        decreases values.len(),
    {
        if values.len() > 0 {
            self.lemma_values_alike(a, b, name, step, wall, values.drop_last());
        }
    }

    proof fn lemma_frames_alike(self, a: Intake, b: Intake, name: Seq<char>, bytes: Seq<u8>)
        requires
            same_history(a.run, b.run),
        ensures
            same_history(
                self.take_frames(a, name, bytes).0.run,
                self.take_frames(b, name, bytes).0.run,
            ),
            self.take_frames(a, name, bytes).1 == self.take_frames(b, name, bytes).1,
            self.take_frames(a, name, bytes).2 == self.take_frames(b, name, bytes).2,
        decreases bytes.len(),
    {
        if let Frame::Whole { data, data_crc, size } = frame(bytes) {
            if 0 < size <= bytes.len() {
                if let Ok(event) = crate::event::event_of(data) {
                    let c = Intake { run: a.run.walled(event.wall_time), ..a };
                    let d = Intake { run: b.run.walled(event.wall_time), ..b };
                    if let PayloadModel::Summary(values) = event.payload {
                        self.lemma_values_alike(c, d, name, event.step, event.wall_time, values);
                    }
                }
                self.lemma_frames_alike(
                    self.take_record(a, name, data),
                    self.take_record(b, name, data),
                    name,
                    bytes.skip(size as int),
                );
            }
        }
    }

    /// A warm start misses nothing and takes nothing in twice. An event file
    /// that is read on from its committed offset, into a run with the same
    /// history, comes to the history that the reader which stayed open comes
    /// to, and ends in its place.
    pub proof fn law_warm_start_continues(
        self,
        warm: Intake,
        cold: Intake,
        log: LogModel,
        more: Seq<u8>,
        failed: bool,
    )
        requires
            same_history(warm.run, cold.run),
            !log.dead,
        ensures
            ({
                let (grown, end) = self.drain_log(cold, log, more, failed);
                let (resumed, place) = self.drain_log(
                    warm,
                    LogModel::start(log.run, log.committed),
                    log.pending + more,
                    failed,
                );
                &&& log.fits(more) || log.pending.len() == 0 ==> place == end
                &&& same_history(resumed.run, grown.run)
            }),
    {
        let start = LogModel::start(log.run, log.committed);
        let ahead = log.pending + more;
        assert(start.pending + ahead =~= ahead);
        if log.pending.len() == 0 {
            assert(log =~= start);
            assert(ahead =~= more);
        }
        self.lemma_frames_alike(warm, cold, log.run, ahead);
    }

    /// A file that did not grow since its cache was saved is not read: a warm
    /// start takes nothing of it in.
    pub proof fn law_unchanged_file_is_not_read(self, intake: Intake, run: Seq<char>, offset: u64)
        ensures
            self.drain_log(intake, LogModel::start(run, offset), Seq::empty(), false) == (
                intake,
                LogModel::start(run, offset),
            ),
    {
        let log = LogModel::start(run, offset);
        let nothing = Seq::<u8>::empty();
        assert(log.pending + nothing =~= nothing);
        assert(frame(nothing) is Short);
    }
}

/// Runs with the same history: the same series, hyperparameters and walls.
/// When a run was last written and whether it finished is for its files to
/// say.
pub open spec fn same_history(a: RunModel, b: RunModel) -> bool {
    a == (RunModel {
        backend: a.backend,
        last_write: a.last_write,
        finished: a.finished,
        ..b
    })
}

/// A run comes back from the cache with its history.
pub proof fn law_cache_keeps_the_history(name: Seq<char>, run: Run, files: Seq<FileEntry>)
    requires
        run.wf(),
    ensures
        same_history(entry_of(name, run, files).run(), run@),
{
    law_saved_run_is_restored(name, run, files);
}

} // verus!
