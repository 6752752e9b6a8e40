//! A logdir watched for the scalars of one tag filter: files stay open
//! across polls, and a poll reads on where the last one ended.
use vstd::prelude::*;

use crate::arith::{Arith, Operation};
use crate::discover::{contains_text, found_models, within, Found, FoundModel};
use crate::drain::{advanced, LogModel};
use crate::event::{event_of, Event, EventModel, EventPayload, PayloadModel, ValueModel};
use crate::listing::note_name;
use crate::names::{sorted, NameMap};
use crate::project::{tail_of, EventTail, TailModel};
use crate::reader::{read_event, ReadEventError};
use crate::record::{frame, ByteStream, Frame, RecordReader};
use crate::series::{count_up, counted};
use crate::tui::{lemma_no_members, members};

verus! {

/// One scalar series: parallel step and value columns, in arrival order.
/// Values that are no numbers stay in place — a gap, never interpolated.
pub struct ScalarSeries {
    /// The steps, as doubles.
    pub steps: Vec<u64>,
    /// The values.
    pub values: Vec<u64>,
}

/// What a scalar series holds.
#[verifier::ext_equal]
pub struct ScalarModel {
    pub steps: Seq<u64>,
    pub values: Seq<u64>,
}

impl View for ScalarSeries {
    type V = ScalarModel;

    open spec fn view(&self) -> ScalarModel {
        ScalarModel { steps: self.steps@, values: self.values@ }
    }
}

impl ScalarModel {
    /// A series without points.
    pub open spec fn start() -> ScalarModel {
        ScalarModel { steps: Seq::empty(), values: Seq::empty() }
    }

    /// A series with one more point.
    pub open spec fn pushed(self, step: u64, value: u64) -> ScalarModel {
        ScalarModel { steps: self.steps.push(step), values: self.values.push(value) }
    }
}

/// The watched series of one run, by tag.
pub struct WatchedRun {
    /// The series.
    pub series: NameMap<ScalarSeries>,
}

impl View for WatchedRun {
    type V = Map<Seq<char>, ScalarModel>;

    open spec fn view(&self) -> Map<Seq<char>, ScalarModel> {
        self.series.model()
    }
}

/// The watched series of all runs.
pub type Watched = Map<Seq<char>, Map<Seq<char>, ScalarModel>>;

/// The watched series with one more point.
pub open spec fn with_scalar(runs: Watched, run: Seq<char>, tag: Seq<char>, step: u64, value: u64) -> Watched {
    let series = if runs.dom().contains(run) {
        runs[run]
    } else {
        Map::empty()
    };
    let known = if series.dom().contains(tag) {
        series[tag]
    } else {
        ScalarModel::start()
    };
    runs.insert(run, series.insert(tag, known.pushed(step, value)))
}

/// What a watcher holds of the data.
#[verifier::ext_equal]
pub struct Catch {
    /// The series whose tags hold the filter.
    pub runs: Watched,
    /// Every scalar tag seen anywhere, matching or not.
    pub seen: Set<Seq<char>>,
    /// Records lost to corruption or undecodable bytes.
    pub dropped: u64,
    /// Files that ended in an error; their valid prefix is retained.
    pub dead: u64,
    /// Points appended in this poll.
    pub appended: u64,
}

impl<O: Fn(Operation, u64, u64) -> u64, I: Fn(i64) -> u64> Arith<O, I> {
    /// One value of an event: a scalar is seen, and kept where its tag holds
    /// the filter.
    pub open spec fn watch_value(
        self,
        catch: Catch,
        run: Seq<char>,
        filter: Seq<char>,
        step: i64,
        value: ValueModel,
    ) -> Catch {
        match value.scalar() {
            None => catch,
            Some(scalar) => {
                let seen = Catch { seen: catch.seen.insert(value.tag), ..catch };
                if within(value.tag, filter) {
                    Catch {
                        runs: with_scalar(
                            seen.runs,
                            run,
                            value.tag,
                            self.number(step),
                            scalar,
                        ),
                        appended: counted(seen.appended),
                        ..seen
                    }
                } else {
                    seen
                }
            },
        }
    }

    /// The values of an event, one behind the other.
    pub open spec fn watch_values(
        self,
        catch: Catch,
        run: Seq<char>,
        filter: Seq<char>,
        step: i64,
        values: Seq<ValueModel>,
    ) -> Catch
        decreases values.len(),
    {
        if values.len() == 0 {
            catch
        } else {
            self.watch_value(
                self.watch_values(catch, run, filter, step, values.drop_last()),
                run,
                filter,
                step,
                values.last(),
            )
        }
    }

    /// One event: only a summary holds scalars.
    pub open spec fn watch_event(self, catch: Catch, run: Seq<char>, filter: Seq<char>, event: EventModel) -> Catch {
        match event.payload {
            PayloadModel::Summary(values) => self.watch_values(
                catch,
                run,
                filter,
                event.step,
                values,
            ),
            _ => catch,
        }
    }

    /// One record: one that does not decode is lost, and counted.
    pub open spec fn watch_record(self, catch: Catch, run: Seq<char>, filter: Seq<char>, data: Seq<u8>) -> Catch {
        match event_of(data) {
            Ok(event) => self.watch_event(catch, run, filter, event),
            Err(_) => Catch { dropped: counted(catch.dropped), ..catch },
        }
    }

    /// The whole records at the front of bytes: what was caught, what is
    /// left, and whether the framing died there.
    pub open spec fn watch_frames(self, catch: Catch, run: Seq<char>, filter: Seq<char>, bytes: Seq<u8>) -> (
        Catch,
        Seq<u8>,
        bool,
    )
        decreases bytes.len(),
    {
        match frame(bytes) {
            Frame::Short => (catch, bytes, false),
            Frame::Bad { want, got } => (catch, bytes, true),
            Frame::Whole { data, data_crc, size } => if 0 < size <= bytes.len() {
                self.watch_frames(
                    self.watch_record(catch, run, filter, data),
                    run,
                    filter,
                    bytes.skip(size as int),
                )
            } else {
                (catch, bytes, false)
            },
        }
    }

    /// A file that has grown by `tail`; `failed` says that reading it ended
    /// in an error. A dead file is not read.
    pub open spec fn watch_file(
        self,
        catch: Catch,
        filter: Seq<char>,
        log: LogModel,
        tail: Seq<u8>,
        failed: bool,
    ) -> (Catch, LogModel) {
        if log.dead || !log.fits(tail) {
            (catch, log)
        } else {
            let ahead = log.pending + tail;
            let (caught, left, bad) = self.watch_frames(catch, log.run, filter, ahead);
            let dead = bad || failed;
            (
                if dead {
                    Catch { dead: counted(caught.dead), ..caught }
                } else {
                    caught
                },
                LogModel {
                    committed: (log.committed + ahead.len() - left.len()) as u64,
                    pending: if dead {
                        Seq::empty()
                    } else {
                        left
                    },
                    dead,
                    ..log
                },
            )
        }
    }
}

/// The catch of a watcher.
pub struct Haul {
    /// The series whose tags hold the filter, by run.
    pub runs: NameMap<WatchedRun>,
    /// Every scalar tag seen anywhere — for "no such tag" suggestions.
    pub seen_tags: NameMap<()>,
    /// Records lost to corruption or undecodable bytes. Shown, not hidden.
    pub dropped_records: u64,
    /// Files whose framing died or that stopped reading on an error.
    pub dead_files: u64,
    /// Points appended in this poll.
    pub appended: u64,
}

impl View for Haul {
    type V = Catch;

    open spec fn view(&self) -> Catch {
        Catch {
            runs: self.runs.model(),
            seen: members(self.seen_tags),
            dropped: self.dropped_records,
            dead: self.dead_files,
            appended: self.appended,
        }
    }
}

impl Haul {
    /// The maps are in order.
    pub open spec fn wf(self) -> bool {
        &&& self.runs.wf()
        &&& self.seen_tags.wf()
        &&& forall|i: int|
            0 <= i < self.runs.values().len() ==> (#[trigger] self.runs.values()[i]).series.wf()
    }

    /// Nothing caught.
    pub fn new() -> (haul: Haul)
        ensures
            haul.wf(),
            haul@ == (Catch {
                runs: Map::empty(),
                seen: Set::empty(),
                dropped: 0,
                dead: 0,
                appended: 0,
            }),
    {
        let haul = Haul {
            runs: NameMap::new(),
            seen_tags: NameMap::new(),
            dropped_records: 0,
            dead_files: 0,
            appended: 0,
        };
        assert(haul@.runs =~= Map::<Seq<char>, Map<Seq<char>, ScalarModel>>::empty());
        assert(haul@.seen =~= Set::<Seq<char>>::empty());
        haul
    }

    fn see(&mut self, tag: &String)
        requires
            old(self).wf(),
        ensures
            final(self).wf(),
            final(self)@ == (Catch { seen: old(self)@.seen.insert(tag@), ..old(self)@ }),
    {
        let ghost before = self.seen_tags;
        note_name(&mut self.seen_tags, tag);
        proof {
            lemma_no_members(before);
            lemma_no_members(self.seen_tags);
            assert forall|n: Seq<char>| members(self.seen_tags).contains(n) <==> members(
                before,
            ).insert(tag@).contains(n) by {
                assert(self.seen_tags.has(n) <==> before.has(n) || n == tag@);
            }
            assert(members(self.seen_tags) =~= members(before).insert(tag@));
        }
    }
}

fn push_scalar(run: &mut WatchedRun, tag: &String, step: u64, value: u64)
    requires
        old(run).series.wf(),
    ensures
        final(run).series.wf(),
        final(run)@ == old(run)@.insert(
            tag@,
            (if old(run)@.dom().contains(tag@) {
                old(run)@[tag@]
            } else {
                ScalarModel::start()
            }).pushed(step, value),
        ),
{
    let ghost start = run.series;
    proof {
        start.lemma_model_has(tag@);
    }
    match run.series.find(tag) {
        Some(at) => {
            let ghost before = run.series.values()[at as int];
            let series = run.series.value_at_mut(at);
            series.steps.push(step);
            series.values.push(value);
            proof {
                run.series.lemma_model_update(start, at as int);
                start.lemma_model_index(at as int);
                assert(run.series.values()[at as int]@ =~= before@.pushed(step, value));
            }
        },
        None => {
            let mut series = ScalarSeries { steps: Vec::new(), values: Vec::new() };
            series.steps.push(step);
            series.values.push(value);
            assert(series@ =~= ScalarModel::start().pushed(step, value));
            let ghost added = series;
            run.series.insert(tag.clone(), series);
            proof {
                run.series.lemma_model_insert(start, tag@, added);
            }
        },
    }
}

impl Haul {
    fn keep(&mut self, run: &String, tag: &String, step: u64, value: u64)
        requires
            old(self).wf(),
        ensures
            final(self).wf(),
            final(self)@ == (Catch {
                runs: with_scalar(old(self)@.runs, run@, tag@, step, value),
                appended: counted(old(self)@.appended),
                ..old(self)@
            }),
    {
        let ghost start = self.runs;
        proof {
            start.lemma_model_has(run@);
        }
        match self.runs.find(run) {
            Some(at) => {
                proof {
                    start.lemma_model_index(at as int);
                }
                let watched = self.runs.value_at_mut(at);
                push_scalar(watched, tag, step, value);
                proof {
                    self.runs.lemma_model_update(start, at as int);
                    assert forall|i: int| 0 <= i < self.runs.values().len() implies (
                    #[trigger] self.runs.values()[i]).series.wf() by {
                        if i != at {
                            assert(self.runs.values()[i] == start.values()[i]);
                        }
                    }
                }
            },
            None => {
                let mut watched = WatchedRun { series: NameMap::new() };
                assert(watched@ =~= Map::<Seq<char>, ScalarModel>::empty());
                push_scalar(&mut watched, tag, step, value);
                let ghost added = watched;
                let at: usize = self.runs.insert(run.clone(), watched);
                proof {
                    self.runs.lemma_model_insert(start, run@, added);
                    assert forall|i: int| 0 <= i < self.runs.values().len() implies (
                    #[trigger] self.runs.values()[i]).series.wf() by {
                        if i < at {
                            assert(self.runs.values()[i] == start.values()[i]);
                        } else if i > at {
                            assert(self.runs.values()[i] == start.values()[i - 1]);
                        }
                    }
                }
            },
        }
        self.appended = count_up(self.appended);
    }

    fn take<O: Fn(Operation, u64, u64) -> u64, I: Fn(i64) -> u64>(
        &mut self,
        run: &String,
        filter: &str,
        event: &Event,
        arith: &Arith<O, I>,
    )
        requires
            old(self).wf(),
            arith.ok(),
        ensures
            final(self).wf(),
            final(self)@ == arith.watch_event(old(self)@, run@, filter@, event@),
    {
        if let EventPayload::Summary(values) = &event.payload {
            let ghost start = self@;
            let ghost all = crate::event::values_model(values@);
            let mut i: usize = 0;
            assert(all.take(0) =~= Seq::<ValueModel>::empty());
            while i < values.len()
                invariant
                    i <= values@.len(),
                    all == crate::event::values_model(values@),
                    self.wf(),
                    arith.ok(),
                    self@ == arith.watch_values(
                        start,
                        run@,
                        filter@,
                        event.step,
                        all.take(i as int),
                    ),
                decreases values@.len() - i,
            {
                assert(all.take(i + 1).drop_last() =~= all.take(i as int));
                assert(all[i as int] == values@[i as int]@);
                let value = &values[i];
                if let Some(scalar) = value.scalar() {
                    self.see(&value.tag);
                    if contains_text(&value.tag, filter) {
                        self.keep(run, &value.tag, arith.from_whole(event.step), scalar);
                    }
                }
                i += 1;
            }
            assert(all.take(all.len() as int) =~= all);
        }
    }
}

/// A watched file: whose run it is of, how far it is read, and whether it
/// died.
pub struct WatchedFile {
    run: String,
    records: RecordReader,
    dead: bool,
}

impl View for WatchedFile {
    type V = LogModel;

    closed spec fn view(&self) -> LogModel {
        LogModel {
            run: self.run@,
            committed: self.records.committed(),
            pending: if self.dead {
                Seq::empty()
            } else {
                self.records.pending()
            },
            dead: self.dead,
        }
    }
}

/// A whole record takes up room, and no more than there is.
proof fn lemma_frame_room(bytes: Seq<u8>)
    ensures
        frame(bytes) matches Frame::Whole { data, data_crc, size } ==> 0 < size <= bytes.len(),
{
}

impl WatchedFile {
    /// The file's framing state is sound.
    pub closed spec fn wf(self) -> bool {
        &&& self.records.wf()
        &&& !self.dead ==> self.records.dead() is None
    }

    /// A file read from the start.
    pub fn new(run: String) -> (file: WatchedFile)
        ensures
            file.wf(),
            file@ == LogModel::start(run@, 0),
    {
        WatchedFile { run, records: RecordReader::new(), dead: false }
    }

    /// Where the file is to be read on from.
    pub fn consumed(&self) -> (offset: u64)
        requires
            self.wf(),
        ensures
            offset == advanced(self@.committed, self@.pending.len()),
    {
        if self.dead {
            self.records.committed_offset()
        } else {
            let pending: u64 = self.records.pending_len();
            let committed: u64 = self.records.committed_offset();
            if pending > u64::MAX - committed {
                u64::MAX
            } else {
                committed + pending
            }
        }
    }

    /// Takes in what the file has grown by.
    pub fn drain<O: Fn(Operation, u64, u64) -> u64, I: Fn(i64) -> u64>(
        &mut self,
        haul: &mut Haul,
        filter: &str,
        tail: &[u8],
        failed: bool,
        arith: &Arith<O, I>,
    )
        requires
            old(self).wf(),
            old(haul).wf(),
            arith.ok(),
        ensures
            final(self).wf(),
            final(haul).wf(),
            (final(haul)@, final(self)@) == arith.watch_file(
                old(haul)@,
                filter@,
                old(self)@,
                tail@,
                failed,
            ),
    {
        if self.dead {
            return ;
        }
        let pending: u64 = self.records.pending_len();
        let committed: u64 = self.records.committed_offset();
        if pending > u64::MAX - committed || tail.len() as u64 > u64::MAX - committed - pending
            || pending > usize::MAX as u64 || tail.len() > usize::MAX - pending as usize {
            return ;
        }
        let ghost before = self@;
        let ghost start = haul@;
        let ghost ahead = self.records.pending() + tail@;
        let ghost expected = arith.watch_frames(start, before.run, filter@, ahead);
        let mut stream = ByteStream::new(crate::bytes::copy_bytes(tail));
        assert(self.records.ahead(stream) =~= ahead);
        loop
            invariant
                self.records.wf(),
                self.records.room(stream),
                self.records.dead() is None,
                !self.dead,
                self.run@ == before.run,
                haul.wf(),
                arith.ok(),
                before == old(self)@,
                start == old(haul)@,
                ahead == before.pending + tail@,
                !before.dead,
                before.fits(tail@),
                expected == arith.watch_frames(start, before.run, filter@, ahead),
                self.records.committed() + self.records.ahead(stream).len() == before.committed
                    + ahead.len(),
                arith.watch_frames(
                    haul@,
                    before.run,
                    filter@,
                    self.records.ahead(stream),
                ) == expected,
            decreases self.records.ahead(stream).len(),
        {
            let ghost left = self.records.ahead(stream);
            proof {
                lemma_frame_room(left);
            }
            match read_event(&mut self.records, &mut stream) {
                Ok(event) => {
                    haul.take(&self.run, filter, &event, arith);
                    assert(self.records.ahead(stream) =~= left.skip(
                        frame(left)->Whole_size as int,
                    ));
                },
                Err(ReadEventError::Truncated) => {
                    if failed {
                        self.dead = true;
                        haul.dead_files = count_up(haul.dead_files);
                    }
                    return ;
                },
                Err(ReadEventError::BadLengthCrc { .. }) => {
                    self.dead = true;
                    haul.dead_files = count_up(haul.dead_files);
                    return ;
                },
                Err(_) => {
                    haul.dropped_records = count_up(haul.dropped_records);
                    assert(self.records.ahead(stream) =~= left.skip(
                        frame(left)->Whole_size as int,
                    ));
                },
            }
        }
    }
}

/// The watched files with those of a list that were not watched yet.
pub open spec fn opened(files: Map<Seq<char>, LogModel>, found: Seq<FoundModel>) -> Map<
    Seq<char>,
    LogModel,
>
    decreases found.len(),
{
    if found.len() == 0 {
        files
    } else {
        let before = opened(files, found.drop_last());
        let last = found.last();
        if before.dom().contains(last.path) {
            before
        } else {
            before.insert(last.path, LogModel::start(last.name, 0))
        }
    }
}

impl<O: Fn(Operation, u64, u64) -> u64, I: Fn(i64) -> u64> Arith<O, I> {
    /// The watched files under some paths, read on one behind the other.
    pub open spec fn watch_files(
        self,
        catch: Catch,
        filter: Seq<char>,
        files: Map<Seq<char>, LogModel>,
        tails: Map<Seq<char>, TailModel>,
        paths: Seq<Seq<char>>,
    ) -> (Catch, Map<Seq<char>, LogModel>)
        decreases paths.len(),
    {
        if paths.len() == 0 {
            (catch, files)
        } else {
            let (caught, read) = self.watch_files(
                catch,
                filter,
                files,
                tails,
                paths.drop_last(),
            );
            let path = paths.last();
            let tail = tail_of(tails, path);
            let (next, log) = self.watch_file(caught, filter, read[path], tail.bytes, tail.failed);
            (next, read.insert(path, log))
        }
    }

    /// One poll: files that are new are opened, and every file is read on in
    /// the order of the paths, so that a run's files come in the order of
    /// their names.
    pub open spec fn polled(
        self,
        catch: Catch,
        filter: Seq<char>,
        files: Map<Seq<char>, LogModel>,
        found: Seq<FoundModel>,
        tails: Map<Seq<char>, TailModel>,
    ) -> (Catch, Map<Seq<char>, LogModel>) {
        let open = opened(files, found);
        self.watch_files(
            Catch { appended: 0, ..catch },
            filter,
            open,
            tails,
            sorted(open.dom()),
        )
    }
}

/// Watches a logdir for scalar data matching a tag filter.
pub struct Watcher {
    /// Where the logs are.
    pub root: String,
    /// What a tag has to hold.
    pub filter: String,
    /// What was caught.
    pub haul: Haul,
    /// The files under reading, by path.
    pub files: NameMap<WatchedFile>,
}

impl Watcher {
    /// The maps are in order and the files sound.
    pub open spec fn wf(self) -> bool {
        &&& self.haul.wf()
        &&& self.files.wf()
        &&& forall|i: int|
            0 <= i < self.files.values().len() ==> (#[trigger] self.files.values()[i]).wf()
    }

    /// A watcher that has read nothing.
    pub fn new(root: String, filter: String) -> (watcher: Watcher)
        ensures
            watcher.wf(),
            watcher.root@ == root@,
            watcher.filter@ == filter@,
            watcher.haul@ == (Catch {
                runs: Map::empty(),
                seen: Set::empty(),
                dropped: 0,
                dead: 0,
                appended: 0,
            }),
            watcher.files.model() == Map::<Seq<char>, LogModel>::empty(),
    {
        let watcher = Watcher { root, filter, haul: Haul::new(), files: NameMap::new() };
        assert(watcher.files.model() =~= Map::<Seq<char>, LogModel>::empty());
        watcher
    }

    /// Where a file is to be read on from: its start where it is new.
    pub fn offset(&self, path: &str) -> (offset: u64)
        requires
            self.wf(),
        ensures
            offset == (if self.files.model().dom().contains(path@) {
                advanced(
                    self.files.model()[path@].committed,
                    self.files.model()[path@].pending.len(),
                )
            } else {
                0
            }),
    {
        proof {
            self.files.lemma_model_has(path@);
        }
        match self.files.find(path) {
            Some(at) => self.files.value_at(at).consumed(),
            None => 0,
        }
    }

    fn open_all(&mut self, found: &Vec<Found>)
        requires
            old(self).wf(),
        ensures
            final(self).wf(),
            final(self).root == old(self).root,
            final(self).filter == old(self).filter,
            final(self).haul == old(self).haul,
            final(self).files.model() == opened(old(self).files.model(), found_models(found@)),
    {
        let ghost start = *self;
        let ghost all = found_models(found@);
        let mut i: usize = 0;
        assert(all.take(0) =~= Seq::<FoundModel>::empty());
        while i < found.len()
            invariant
                i <= found@.len(),
                all == found_models(found@),
                self.wf(),
                self.root == start.root,
                self.filter == start.filter,
                self.haul == start.haul,
                self.files.model() == opened(start.files.model(), all.take(i as int)),
            decreases found@.len() - i,
        {
            assert(all.take(i + 1).drop_last() =~= all.take(i as int));
            assert(all[i as int] == found@[i as int]@);
            let ghost before = self.files;
            proof {
                before.lemma_model_has(found@[i as int].path@);
            }
            if !self.files.contains(&found[i].path) {
                let file = WatchedFile::new(found[i].name.clone());
                let ghost added = file;
                let at: usize = self.files.insert(found[i].path.clone(), file);
                proof {
                    self.files.lemma_model_insert(before, found@[i as int].path@, added);
                    assert forall|k: int| 0 <= k < self.files.values().len() implies (
                    #[trigger] self.files.values()[k]).wf() by {
                        if k < at {
                            assert(self.files.values()[k] == before.values()[k]);
                        } else if k > at {
                            assert(self.files.values()[k] == before.values()[k - 1]);
                        }
                    }
                }
            }
            i += 1;
        }
        assert(all.take(all.len() as int) =~= all);
    }

    /// Opens the files of `found` that are new and reads every file on.
    /// Returns the number of points appended.
    pub fn poll<O: Fn(Operation, u64, u64) -> u64, I: Fn(i64) -> u64>(
        &mut self,
        found: &Vec<Found>,
        tails: &NameMap<EventTail>,
        arith: &Arith<O, I>,
    ) -> (appended: u64)
        requires
            old(self).wf(),
            tails.wf(),
            arith.ok(),
        ensures
            final(self).wf(),
            final(self).root == old(self).root,
            final(self).filter == old(self).filter,
            (final(self).haul@, final(self).files.model()) == arith.polled(
                old(self).haul@,
                old(self).filter@,
                old(self).files.model(),
                found_models(found@),
                tails.model(),
            ),
            appended == final(self).haul@.appended,
    {
        self.open_all(found);
        self.haul.appended = 0;
        let ghost start = *self;
        let ghost paths = self.files.names();
        proof {
            self.files.lemma_model_names();
        }
        let nothing: Vec<u8> = Vec::new();
        let mut i: usize = 0;
        assert(paths.take(0) =~= Seq::<Seq<char>>::empty());
        while i < self.files.len()
            invariant
                i <= self.files.names().len(),
                self.wf(),
                tails.wf(),
                arith.ok(),
                nothing@ == Seq::<u8>::empty(),
                self.root == start.root,
                self.filter == start.filter,
                paths == self.files.names(),
                (self.haul@, self.files.model()) == arith.watch_files(
                    start.haul@,
                    start.filter@,
                    start.files.model(),
                    tails.model(),
                    paths.take(i as int),
                ),
            decreases self.files.names().len() - i,
        {
            assert(paths.take(i + 1).drop_last() =~= paths.take(i as int));
            let ghost before = self.files;
            proof {
                tails.lemma_model_has(paths[i as int]);
                before.lemma_model_index(i as int);
            }
            let (bytes, failed) = match tails.get(self.files.name_at(i)) {
                Some(tail) => (&tail.bytes, tail.failed),
                None => (&nothing, false),
            };
            let file = self.files.value_at_mut(i);
            file.drain(&mut self.haul, &self.filter, bytes.as_slice(), failed, arith);
            proof {
                self.files.lemma_model_update(before, i as int);
                assert forall|k: int| 0 <= k < self.files.values().len() implies (
                #[trigger] self.files.values()[k]).wf() by {
                    if k != i {
                        assert(self.files.values()[k] == before.values()[k]);
                    }
                }
            }
            i += 1;
        }
        assert(paths.take(paths.len() as int) =~= paths);
        self.haul.appended
    }
}

} // verus!
