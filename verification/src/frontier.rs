//! How far a file was taken in, and what was observed of it: of every backend,
//! the points that a re-read up to the committed offset gives are the points
//! that the summary of the series observed, and those that are held of it.
use vstd::prelude::*;
use vstd::utf8::{decode_utf8, valid_utf8};

use crate::backend_laws::{
    law_lines_part_at_a_line_feed, lemma_complete_both, lemma_decoded_both, lemma_decoded_line,
};
use crate::backends::{
    first_schema, offset_of, tsv_tag, DvcliveModel, LogFileModel, MlflowModel, TextModel,
    WandbStateModel,
};
use crate::drain::{complete, law_torn_line_stays_unread};
use crate::dvclive::TsvSchema;
use crate::materialize::{lemma_pushed_concat, lemma_pushed_onto_start};
use crate::numeric::{Moments, Numeric};
use crate::project_laws::{
    held_scalar, lemma_observed_concat, lemma_observed_onto_nothing, lemma_took_both,
    lemma_took_nothing, observed_onto, segments_of, took,
};
use crate::run::Intake;
use crate::series::{PointStamp, PointsModel};
use crate::shelf::Key;
use crate::text::{lines_of, text_of};
use crate::wandb::{assembled, chunk_at, header_error, law_read_resumes, scan, Chunk};
use crate::wandb_record::WandbModel;

verus! {

impl<
    F: Fn(&str) -> Option<u64>,
    G: Fn(u64) -> u64,
    H: Fn(Moments, u64) -> Moments,
> Numeric<F, G, H> {
    /// What is known of a series are these points: its summary observed them,
    /// and if it is held, they are what is held.
    pub open spec fn known(self, intake: Intake, key: Key, points: Seq<PointStamp>) -> bool {
        &&& segments_of(intake.run, key.1) == self.observed_all(points)
        &&& held_scalar(intake, key)
        &&& intake.points.dom().contains(key) ==> intake.points[key].0
            == PointsModel::pushed_all(points)
    }

    /// Taking in more points makes those known too.
    pub proof fn lemma_known_grows(
        self,
        before: Intake,
        after: Intake,
        key: Key,
        points: Seq<PointStamp>,
        more: Seq<PointStamp>,
    )
        requires
            self.known(before, key, points),
            took(self, before, after, key, more),
        ensures
            self.known(after, key, points + more),
    {
        lemma_observed_onto_nothing(self, points);
        lemma_observed_concat(self, Seq::empty(), points, more);
        lemma_observed_onto_nothing(self, points + more);
        lemma_pushed_onto_start(points);
        lemma_pushed_concat(PointsModel::start(), points, more);
        lemma_pushed_onto_start(points + more);
    }

    proof fn lemma_take_scalar(
        self,
        intake: Intake,
        key: Key,
        tag: Seq<char>,
        point: PointStamp,
    )
        ensures
            took(
                self,
                intake,
                self.take_scalar(intake, key.0, tag, point),
                key,
                if tag == key.1 {
                    seq![point]
                } else {
                    Seq::empty()
                },
            ),
    {
        let after = self.take_scalar(intake, key.0, tag, point);
        if tag == key.1 {
            let one = seq![point];
            assert(one.drop_last() =~= Seq::<PointStamp>::empty());
            reveal_with_fuel(observed_onto, 2);
            reveal_with_fuel(crate::materialize::pushed_onto, 2);
            assert(observed_onto(self, segments_of(intake.run, key.1), one) == self.observed(
                segments_of(intake.run, key.1),
                point,
            ));
            if intake.points.dom().contains(key) {
                assert(crate::materialize::pushed_onto(intake.points[key].0, one)
                    == intake.points[key].0.pushed(point));
            }
        } else {
            assert(segments_of(after.run, key.1) == segments_of(intake.run, key.1));
            assert(after.points.dom().contains(key) == intake.points.dom().contains(key));
        }
    }

    /// Rows of a TSV are points of its series, and of no other.
    pub proof fn lemma_take_rows(
        self,
        intake: Intake,
        key: Key,
        tag: Seq<char>,
        schema: TsvSchema,
        lines: Seq<Seq<char>>,
    )
        ensures
            took(
                self,
                intake,
                self.take_rows(intake, key.0, tag, schema, lines),
                key,
                if tag == key.1 {
                    self.rows_points(schema, lines)
                } else {
                    Seq::empty()
                },
            ),
        decreases lines.len(),
    {
        if lines.len() == 0 {
            lemma_took_nothing(self, intake, intake, key);
        } else {
            let front = lines.drop_last();
            let between = self.take_rows(intake, key.0, tag, schema, front);
            let after = self.take_rows(intake, key.0, tag, schema, lines);
            self.lemma_take_rows(intake, key, tag, schema, front);
            let first = if tag == key.1 {
                self.rows_points(schema, front)
            } else {
                Seq::empty()
            };
            match self.row(schema, lines.last()) {
                Some(row) => {
                    let point = PointStamp { step: row.step, wall: row.wall, value: row.value };
                    self.lemma_take_scalar(between, key, tag, point);
                    let second = if tag == key.1 {
                        seq![point]
                    } else {
                        Seq::empty()
                    };
                    lemma_took_both(self, intake, between, after, key, first, second);
                    assert(first + second =~= if tag == key.1 {
                        self.rows_points(schema, lines)
                    } else {
                        Seq::empty()
                    });
                },
                None => {
                    lemma_took_nothing(self, between, after, key);
                    lemma_took_both(self, intake, between, after, key, first, Seq::empty());
                    assert(first + Seq::<PointStamp>::empty() =~= first);
                },
            }
        }
    }

    /// Lines of a metric file are points of its series, and of no other.
    pub proof fn lemma_take_metrics(
        self,
        intake: Intake,
        key: Key,
        tag: Seq<char>,
        lines: Seq<Seq<char>>,
    )
        ensures
            took(
                self,
                intake,
                self.take_metrics(intake, key.0, tag, lines),
                key,
                if tag == key.1 {
                    self.metric_points(lines)
                } else {
                    Seq::empty()
                },
            ),
        decreases lines.len(),
    {
        if lines.len() == 0 {
            lemma_took_nothing(self, intake, intake, key);
        } else {
            let front = lines.drop_last();
            let between = self.take_metrics(intake, key.0, tag, front);
            let after = self.take_metrics(intake, key.0, tag, lines);
            self.lemma_take_metrics(intake, key, tag, front);
            let first = if tag == key.1 {
                self.metric_points(front)
            } else {
                Seq::empty()
            };
            match self.metric(lines.last()) {
                Some(metric) => {
                    let point = PointStamp {
                        step: metric.step,
                        wall: metric.wall,
                        value: metric.value,
                    };
                    self.lemma_take_scalar(between, key, tag, point);
                    let second = if tag == key.1 {
                        seq![point]
                    } else {
                        Seq::empty()
                    };
                    lemma_took_both(self, intake, between, after, key, first, second);
                    assert(first + second =~= if tag == key.1 {
                        self.metric_points(lines)
                    } else {
                        Seq::empty()
                    });
                },
                None => {
                    lemma_took_nothing(self, between, after, key);
                    lemma_took_both(self, intake, between, after, key, first, Seq::empty());
                    assert(first + Seq::<PointStamp>::empty() =~= first);
                },
            }
        }
    }

    proof fn lemma_take_history(
        self,
        intake: Intake,
        key: Key,
        step: i64,
        wall: u64,
        values: Seq<(Seq<char>, u64)>,
    )
        ensures
            took(
                self,
                intake,
                self.take_history(intake, key.0, step, wall, values),
                key,
                self.history_points(step, wall, values, key.1),
            ),
        decreases values.len(),
    {
        if values.len() == 0 {
            lemma_took_nothing(self, intake, intake, key);
        } else {
            let front = values.drop_last();
            let between = self.take_history(intake, key.0, step, wall, front);
            let after = self.take_history(intake, key.0, step, wall, values);
            self.lemma_take_history(intake, key, step, wall, front);
            let point = PointStamp { step, wall, value: values.last().1 };
            self.lemma_take_scalar(between, key, values.last().0, point);
            let first = self.history_points(step, wall, front, key.1);
            let second = if values.last().0 == key.1 {
                seq![point]
            } else {
                Seq::empty()
            };
            lemma_took_both(self, intake, between, after, key, first, second);
            assert(first + second =~= self.history_points(step, wall, values, key.1));
        }
    }

    /// Records of a wandb log give their points to a series.
    pub proof fn lemma_take_payloads(self, intake: Intake, key: Key, records: Seq<Seq<u8>>)
        ensures
            took(
                self,
                intake,
                self.take_payloads(intake, key.0, records),
                key,
                self.payloads_points(records, key.1),
            ),
        decreases records.len(),
    {
        if records.len() == 0 {
            lemma_took_nothing(self, intake, intake, key);
        } else {
            let front = records.drop_last();
            let between = self.take_payloads(intake, key.0, front);
            let after = self.take_payloads(intake, key.0, records);
            self.lemma_take_payloads(intake, key, front);
            let second = self.payload_points(records.last(), key.1);
            match self.record(records.last()) {
                Some(WandbModel::History { step, wall, values }) => {
                    self.lemma_take_history(between, key, step, wall, values);
                },
                _ => {
                    lemma_took_nothing(self, between, after, key);
                },
            }
            lemma_took_both(
                self,
                intake,
                between,
                after,
                key,
                self.payloads_points(front, key.1),
                second,
            );
        }
    }

    proof fn lemma_rows_points_both(
        self,
        schema: TsvSchema,
        a: Seq<Seq<char>>,
        b: Seq<Seq<char>>,
    )
        ensures
            self.rows_points(schema, a + b) == self.rows_points(schema, a) + self.rows_points(
                schema,
                b,
            ),
        decreases b.len(),
    {
        if b.len() == 0 {
            assert(a + b =~= a);
            assert(self.rows_points(schema, a) + self.rows_points(schema, b)
                =~= self.rows_points(schema, a));
        } else {
            assert((a + b).drop_last() =~= a + b.drop_last());
            self.lemma_rows_points_both(schema, a, b.drop_last());
            assert(self.rows_points(schema, a + b) =~= self.rows_points(schema, a)
                + self.rows_points(schema, b));
        }
    }

    proof fn lemma_metric_points_both(self, a: Seq<Seq<char>>, b: Seq<Seq<char>>)
        ensures
            self.metric_points(a + b) == self.metric_points(a) + self.metric_points(b),
        decreases b.len(),
    {
        if b.len() == 0 {
            assert(a + b =~= a);
            assert(self.metric_points(a) + self.metric_points(b) =~= self.metric_points(a));
        } else {
            assert((a + b).drop_last() =~= a + b.drop_last());
            self.lemma_metric_points_both(a, b.drop_last());
            assert(self.metric_points(a + b) =~= self.metric_points(a) + self.metric_points(b));
        }
    }

    proof fn lemma_payloads_points_both(self, a: Seq<Seq<u8>>, b: Seq<Seq<u8>>, tag: Seq<char>)
        ensures
            self.payloads_points(a + b, tag) == self.payloads_points(a, tag)
                + self.payloads_points(b, tag),
        decreases b.len(),
    {
        if b.len() == 0 {
            assert(a + b =~= a);
            assert(self.payloads_points(a, tag) + self.payloads_points(b, tag)
                =~= self.payloads_points(a, tag));
        } else {
            assert((a + b).drop_last() =~= a + b.drop_last());
            self.lemma_payloads_points_both(a, b.drop_last(), tag);
            assert(self.payloads_points(a + b, tag) =~= self.payloads_points(a, tag)
                + self.payloads_points(b, tag));
        }
    }
}

/// Text behind whole lines decodes on its own, where all of it decodes.
proof fn lemma_text_behind(front: Seq<u8>, back: Seq<u8>)
    requires
        front.len() > 0,
        front.last() == 0x0A,
        valid_utf8(front + back),
    ensures
        valid_utf8(front),
        valid_utf8(back),
{
    let both = front + back;
    let at = front.len() - 1;
    vstd::utf8::is_char_boundary_iff_not_is_continuation_byte(both, at);
    vstd::utf8::valid_utf8_split(both, at);
    let head = both.subrange(0, at);
    let tail = both.subrange(at, both.len() as int);
    assert(tail[0] == 0x0A);
    assert(valid_utf8(tail));
    assert(vstd::utf8::pop_first_scalar(tail) =~= back);
    assert(valid_utf8(back));
    let feed = seq!['\n'];
    vstd::utf8::is_ascii_chars_encode_utf8(feed);
    vstd::utf8::encode_utf8_valid_utf8(feed);
    assert(vstd::utf8::encode_utf8(feed) =~= seq![0x0Au8]);
    vstd::utf8::valid_utf8_concat(head, seq![0x0Au8]);
    assert(head + seq![0x0Au8] =~= front);
}

/// The lines behind whole lines are those of the rest.
proof fn lemma_lines_behind(front: Seq<u8>, back: Seq<u8>)
    requires
        front.len() == 0 || front.last() == 0x0A,
        valid_utf8(front + back),
    ensures
        lines_of(text_of(front + back)) == lines_of(text_of(front)) + lines_of(text_of(back)),
        front.len() > 0 ==> lines_of(text_of(front)).len() > 0,
{
    if front.len() == 0 {
        assert(front + back =~= back);
        assert(text_of(front) =~= Seq::<char>::empty());
        assert(lines_of(text_of(front)) + lines_of(text_of(back)) =~= lines_of(text_of(back)));
    } else {
        lemma_text_behind(front, back);
        lemma_decoded_both(front, back);
        lemma_decoded_line(front);
        law_lines_part_at_a_line_feed(decode_utf8(front), decode_utf8(back));
        crate::text::lemma_first_index(text_of(front), '\n');
    }
}

/// What a file holds now, behind what it held: nothing of it was rewritten.
pub open spec fn grown(content: Seq<u8>, now: Seq<u8>) -> bool {
    content.len() <= now.len() && now.take(content.len() as int) == content
}

/// An offset behind whole lines.
pub open spec fn behind_lines(content: Seq<u8>, offset: u64) -> bool {
    offset <= content.len() && (offset > 0 ==> content[offset - 1] == 0x0A)
}

/// A TSV was read to its last line feed, unless its first line is no header.
pub open spec fn tsv_read_up(state: DvcliveModel, path: Seq<char>, content: Seq<u8>) -> bool {
    let offset = offset_of(state.offsets, path);
    offset == complete(content) || (offset > 0 && !state.schemas.dom().contains(path))
}

/// The whole lines of a file are text.
pub open spec fn lines_are_text(content: Seq<u8>) -> bool {
    valid_utf8(content.take(complete(content) as int))
}

/// A file is read on from behind its whole lines to the last line feed there
/// is now.
proof fn lemma_read_on(content: Seq<u8>, now: Seq<u8>, offset: u64)
    requires
        behind_lines(content, offset),
        grown(content, now),
        lines_are_text(now),
        now.len() <= u64::MAX,
    ensures
        ({
            let tail = now.skip(offset as int);
            let done = complete(tail);
            let end = offset + done;
            &&& end == complete(now) <= now.len()
            &&& now.take(offset as int) == content.take(offset as int)
            &&& done > 0 ==> now[end - 1] == 0x0A
            &&& lines_of(text_of(now.take(end))) == lines_of(text_of(content.take(offset as int)))
                + lines_of(text_of(tail.take(done as int)))
            &&& offset > 0 ==> lines_of(text_of(content.take(offset as int))).len() > 0
            &&& done > 0 ==> lines_of(text_of(tail.take(done as int))).len() > 0
        }),
{
    let tail = now.skip(offset as int);
    let done = complete(tail);
    let front = now.take(offset as int);
    law_torn_line_stays_unread(tail);
    assert(front =~= content.take(offset as int)) by {
        assert(content.take(offset as int) =~= now.take(content.len() as int).take(offset as int));
    }
    if offset > 0 {
        assert(front.last() == content[offset - 1]);
    }
    assert(front + tail =~= now);
    lemma_complete_both(front, tail);
    law_torn_line_stays_unread(now);
    let back = tail.take(done as int);
    assert(now.take(complete(now) as int) =~= front + back);
    assert(now.take(offset + done) =~= front + back);
    lemma_lines_behind(front, back);
    if done > 0 {
        assert(now[offset + done - 1] == tail[done - 1]);
        if front.len() > 0 {
            lemma_text_behind(front, back);
        } else {
            assert(front + back =~= back);
        }
        assert(back.last() == 0x0A);
        lemma_decoded_line(back);
        crate::text::lemma_first_index(text_of(back), '\n');
    }
}

impl<
    F: Fn(&str) -> Option<u64>,
    G: Fn(u64) -> u64,
    H: Fn(Moments, u64) -> Moments,
> Numeric<F, G, H> {
    /// What is known of a dvclive series is what its TSV says up to the
    /// offset that it was read to.
    pub open spec fn tsv_in_step(
        self,
        intake: Intake,
        state: DvcliveModel,
        path: Seq<char>,
        tag: Seq<char>,
        content: Seq<u8>,
    ) -> bool {
        let offset = offset_of(state.offsets, path);
        let text = text_of(content.take(offset as int));
        &&& behind_lines(content, offset)
        &&& self.known(intake, (state.run, tag), self.tsv_points(text))
        &&& (if offset == 0 {
            !state.schemas.dom().contains(path)
        } else {
            first_schema(lines_of(text)) == (if state.schemas.dom().contains(path) {
                Some(state.schemas[path])
            } else {
                None
            })
        })
    }

    /// Draining a TSV that has grown keeps its series in step, and reads it to
    /// the last line feed.
    pub proof fn law_tsv_stays_in_step(
        self,
        intake: Intake,
        state: DvcliveModel,
        file: TextModel,
        tag: Seq<char>,
        content: Seq<u8>,
        now: Seq<u8>,
    )
        requires
            self.tsv_in_step(intake, state, file.path, tag, content),
            tsv_tag(file.relative) == Some(tag),
            file.tail == Some(now.skip(offset_of(state.offsets, file.path) as int)),
            grown(content, now),
            lines_are_text(now),
            now.len() <= u64::MAX,
        ensures
            ({
                let (after, next) = self.drain_tsv(intake, state, file);
                &&& self.tsv_in_step(after, next, file.path, tag, now)
                &&& tsv_read_up(next, file.path, now)
            }),
    {
        let key = (state.run, tag);
        let offset = offset_of(state.offsets, file.path);
        let tail = now.skip(offset as int);
        let done = complete(tail);
        let seen = intake.written(file.mtime);
        let (after, next) = self.drain_tsv(intake, state, file);
        lemma_read_on(content, now, offset);
        lemma_took_nothing(self, intake, seen, key);
        let before = lines_of(text_of(content.take(offset as int)));
        let more = lines_of(text_of(tail.take(done as int)));
        let points = self.tsv_points(text_of(content.take(offset as int)));
        self.lemma_known_grows(intake, seen, key, points, Seq::empty());
        assert(points + Seq::<PointStamp>::empty() =~= points);
        if offset == 0 {
            assert(content.take(0) =~= Seq::<u8>::empty());
            assert(before =~= Seq::<Seq<char>>::empty());
            assert(before + more =~= more);
            assert(points =~= Seq::<PointStamp>::empty());
        }
        if done > 0 {
            assert((before + more)[0] == if offset == 0 {
                more[0]
            } else {
                before[0]
            });
            let known = first_schema(before + more);
            if offset == 0 {
                if let Some(schema) = known {
                    let rows = more.skip(1);
                    self.lemma_take_rows(seen, key, tag, schema, rows);
                    let gained = self.rows_points(schema, rows);
                    self.lemma_known_grows(seen, after, key, points, gained);
                    assert(points + gained =~= gained);
                }
            } else if let Some(schema) = known {
                self.lemma_take_rows(seen, key, tag, schema, more);
                let gained = self.rows_points(schema, more);
                self.lemma_known_grows(seen, after, key, points, gained);
                assert((before + more).skip(1) =~= before.skip(1) + more);
                self.lemma_rows_points_both(schema, before.skip(1), more);
            }
        }
    }

    /// What is known of an MLflow series is what its metric file says up to
    /// the offset that it was read to.
    pub open spec fn metric_in_step(
        self,
        intake: Intake,
        state: MlflowModel,
        path: Seq<char>,
        tag: Seq<char>,
        content: Seq<u8>,
    ) -> bool {
        let offset = offset_of(state.offsets, path);
        let text = text_of(content.take(offset as int));
        &&& behind_lines(content, offset)
        &&& self.known(intake, (state.run, tag), self.metric_points(lines_of(text)))
    }

    /// Draining a metric file that has grown keeps its series in step, and
    /// reads it to the last line feed.
    pub proof fn law_metric_stays_in_step(
        self,
        intake: Intake,
        state: MlflowModel,
        file: TextModel,
        content: Seq<u8>,
        now: Seq<u8>,
    )
        requires
            self.metric_in_step(intake, state, file.path, file.relative, content),
            file.tail == Some(now.skip(offset_of(state.offsets, file.path) as int)),
            grown(content, now),
            lines_are_text(now),
            now.len() <= u64::MAX,
        ensures
            ({
                let (after, next) = self.drain_metric(intake, state, file);
                &&& self.metric_in_step(after, next, file.path, file.relative, now)
                &&& offset_of(next.offsets, file.path) == complete(now)
            }),
    {
        let tag = file.relative;
        let key = (state.run, tag);
        let offset = offset_of(state.offsets, file.path);
        let tail = now.skip(offset as int);
        let done = complete(tail);
        let seen = intake.written(file.mtime);
        let (after, next) = self.drain_metric(intake, state, file);
        lemma_read_on(content, now, offset);
        lemma_took_nothing(self, intake, seen, key);
        let before = lines_of(text_of(content.take(offset as int)));
        let more = lines_of(text_of(tail.take(done as int)));
        let points = self.metric_points(before);
        self.lemma_known_grows(intake, seen, key, points, Seq::empty());
        assert(points + Seq::<PointStamp>::empty() =~= points);
        if done > 0 {
            self.lemma_take_metrics(seen, key, tag, more);
            self.lemma_known_grows(seen, after, key, points, self.metric_points(more));
            self.lemma_metric_points_both(before, more);
        }
    }

    /// What is known of a wandb series is what its log says up to the offset
    /// that it was read to, and that is as far as there are whole records.
    pub open spec fn log_in_step(
        self,
        intake: Intake,
        state: WandbStateModel,
        tag: Seq<char>,
        content: Seq<u8>,
    ) -> bool {
        &&& state.offset <= content.len()
        &&& self.known(
            intake,
            (state.run, tag),
            self.log_points(content.take(state.offset as int), tag),
        )
        &&& (if state.dead {
            state.offset == 0 && content.len() >= 7 && header_error(content.take(7)) is Some
        } else if state.offset == 0 {
            content.len() < 7
        } else {
            &&& state.offset >= 7
            &&& header_error(content.take(7)) is None
            &&& scan(content.skip(7), 7, None, 7).1 == state.offset
        })
    }

    /// The points of a series in a log: those of its whole records, where its
    /// header is one that can be read.
    pub open spec fn log_observed(self, content: Seq<u8>, tag: Seq<char>) -> Seq<PointStamp> {
        if content.len() < 7 || header_error(content.take(7)) is Some {
            Seq::empty()
        } else {
            self.payloads_points(scan(content.skip(7), 7, None, 7).0, tag)
        }
    }

    /// A log in step was read as far as there are whole records.
    pub proof fn lemma_log_observed(
        self,
        intake: Intake,
        state: WandbStateModel,
        tag: Seq<char>,
        content: Seq<u8>,
    )
        requires
            self.log_in_step(intake, state, tag, content),
        ensures
            self.log_points(content.take(state.offset as int), tag) == self.log_observed(
                content,
                tag,
            ),
    {
        if state.offset > 0 {
            self.lemma_log_points(content, tag);
        }
    }

    /// The points of a TSV that was read to its last line feed are those of
    /// its whole lines.
    pub proof fn lemma_tsv_observed(
        self,
        intake: Intake,
        state: DvcliveModel,
        path: Seq<char>,
        tag: Seq<char>,
        content: Seq<u8>,
    )
        requires
            self.tsv_in_step(intake, state, path, tag, content),
            tsv_read_up(state, path, content),
            lines_are_text(content),
            content.len() <= u64::MAX,
        ensures
            self.tsv_points(text_of(content.take(offset_of(state.offsets, path) as int)))
                == self.tsv_points(text_of(content.take(complete(content) as int))),
    {
        let offset = offset_of(state.offsets, path);
        if offset != complete(content) {
            assert(content.take(content.len() as int) =~= content);
            lemma_read_on(content, content, offset);
            let before = lines_of(text_of(content.take(offset as int)));
            let tail = content.skip(offset as int);
            let more = lines_of(text_of(tail.take(complete(tail) as int)));
            assert((before + more)[0] == before[0]);
        }
    }

    /// The points of a log are those of its whole records.
    proof fn lemma_log_points(self, content: Seq<u8>, tag: Seq<char>)
        requires
            content.len() >= 7,
        ensures
            ({
                let (records, end) = scan(content.skip(7), 7, None, 7);
                &&& 7 <= end <= content.len()
                &&& self.log_points(content.take(end), tag) == self.payloads_points(records, tag)
            }),
    {
        let (records, end) = scan(content.skip(7), 7, None, 7);
        lemma_scan_committed(content.skip(7), 7, None, 7);
        assert(content.take(end).skip(7) =~= content.skip(7).take(end - 7));
    }

    /// Draining a log that has grown keeps its series in step.
    pub proof fn law_log_stays_in_step(
        self,
        intake: Intake,
        state: WandbStateModel,
        file: LogFileModel,
        tag: Seq<char>,
        content: Seq<u8>,
        now: Seq<u8>,
    )
        requires
            self.log_in_step(intake, state, tag, content),
            file.len >= state.offset,
            file.tail == now.skip(state.offset as int),
            grown(content, now),
            now.len() <= u64::MAX,
        ensures
            ({
                let (after, next) = self.drain_wandb(intake, state, Some(file));
                self.log_in_step(after, next, tag, now)
            }),
    {
        let key = (state.run, tag);
        let offset = state.offset;
        let seen = intake.written(file.mtime);
        let (after, next) = self.drain_wandb(intake, state, Some(file));
        let points = self.log_points(content.take(offset as int), tag);
        assert(content.take(offset as int) =~= now.take(offset as int)) by {
            assert(content.take(offset as int) =~= now.take(content.len() as int).take(
                offset as int,
            ));
        }
        lemma_took_nothing(self, intake, seen, key);
        self.lemma_known_grows(intake, seen, key, points, Seq::empty());
        assert(points + Seq::<PointStamp>::empty() =~= points);
        if content.len() >= 7 {
            assert(content.take(7) =~= now.take(7)) by {
                assert(content.take(7) =~= now.take(content.len() as int).take(7));
            }
        }
        if !state.dead {
            if offset == 0 {
                assert(file.tail =~= now);
                if now.len() >= 7 {
                    assert(file.tail.take(7) =~= now.take(7));
                    lemma_took_nothing(self, seen, seen.died(), key);
                    self.lemma_known_grows(seen, seen.died(), key, points, Seq::empty());
                    if header_error(file.tail.take(7)) is None {
                        assert(file.tail.skip(7) =~= now.skip(7));
                        let (records, end) = scan(now.skip(7), 7, None, 7);
                        self.lemma_log_points(now, tag);
                        self.lemma_take_payloads(seen, key, records);
                        let gained = self.payloads_points(records, tag);
                        self.lemma_known_grows(seen, after, key, points, gained);
                        assert(points =~= Seq::<PointStamp>::empty());
                        assert(points + gained =~= gained);
                    }
                }
            } else {
                let body = content.skip(7);
                let more = now.skip(content.len() as int);
                assert(body + more =~= now.skip(7));
                law_read_resumes(body, more, 7);
                let (records, committed) = scan(body, 7, None, 7);
                assert(now.skip(7).skip(committed - 7) =~= now.skip(offset as int));
                let at = offset as int;
                let (later, end) = scan(now.skip(at), at, None, at);
                self.lemma_log_points(content, tag);
                self.lemma_log_points(now, tag);
                self.lemma_take_payloads(seen, key, later);
                let gained = self.payloads_points(later, tag);
                self.lemma_known_grows(seen, after, key, points, gained);
                self.lemma_payloads_points_both(records, later, tag);
            }
        }
    }
}

/// Scanning up to the committed offset gives the same records and the same
/// offset.
proof fn lemma_scan_committed(
    bytes: Seq<u8>,
    at: int,
    partial: Option<Seq<u8>>,
    committed: int,
)
    requires
        committed <= at,
    ensures
        ({
            let (records, end) = scan(bytes, at, partial, committed);
            &&& end <= at + bytes.len()
            &&& end > at || (end == committed && records.len() == 0)
            &&& end >= at ==> scan(bytes.take(end - at), at, partial, committed) == (records, end)
        }),
    decreases bytes.len(),
{
    let (records, end) = scan(bytes, at, partial, committed);
    let chunk = chunk_at(bytes, at);
    match chunk {
        Chunk::Stop => {
        },
        Chunk::Gap { size } => {
            if 0 < size <= bytes.len() {
                let next = if partial is None {
                    at + size
                } else {
                    committed
                };
                lemma_scan_committed(bytes.skip(size), at + size, partial, next);
                if end >= at + size {
                    let cut = bytes.take(end - at);
                    assert(cut.skip(size) =~= bytes.skip(size).take(end - at - size));
                    lemma_chunk_cut(bytes, end - at, at);
                }
            }
        },
        Chunk::Data { kind, payload, size } => {
            if let Some((done, open)) = assembled(partial, kind, payload) {
                if 0 < size <= bytes.len() {
                    let next = if done is Some {
                        at + size
                    } else {
                        committed
                    };
                    lemma_scan_committed(bytes.skip(size), at + size, open, next);
                    if end >= at + size {
                        let cut = bytes.take(end - at);
                        assert(cut.skip(size) =~= bytes.skip(size).take(end - at - size));
                        lemma_chunk_cut(bytes, end - at, at);
                    }
                }
            }
        },
    }
    if end == at {
        let nothing = bytes.take(0);
        assert(chunk_at(nothing, at) is Stop);
        assert(records =~= Seq::<Seq<u8>>::empty());
    }
}

/// A chunk is read the same where the bytes end behind it.
proof fn lemma_chunk_cut(bytes: Seq<u8>, n: int, at: int)
    requires
        0 <= n <= bytes.len(),
        match chunk_at(bytes, at) {
            Chunk::Stop => false,
            Chunk::Gap { size } => size <= n,
            Chunk::Data { kind, payload, size } => size <= n,
        },
    ensures
        chunk_at(bytes.take(n), at) == chunk_at(bytes, at),
{
    let cut = bytes.take(n);
    if crate::wandb::block_left(at) >= 7 {
        assert(cut.len() >= 7);
        assert(cut.subrange(0, 4) =~= bytes.subrange(0, 4));
        let length = bytes[4] + bytes[5] * 0x100;
        if cut.len() >= 7 + length {
            assert(cut.subrange(7, 7 + length) =~= bytes.subrange(7, 7 + length));
        }
    }
}

} // verus!
