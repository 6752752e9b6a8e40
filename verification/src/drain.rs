//! Draining the files of a run: the bytes that a file has grown by become
//! points of the run's series.
//!
//! Every backend keeps to the same discipline. Files are append-only, what
//! was taken in is never read again, and a torn end — half a record, half a
//! line — stays unconsumed: a state to resume from, not an error.
use vstd::prelude::*;

use crate::event::event_of;
use crate::numeric::{Moments, Numeric};
use crate::reader::{read_event, ReadEventError};
use crate::record::{frame, ByteStream, Frame, RecordReader};
use crate::run::{ingest, Intake, Run, Sink};

verus! {

/// An offset further on.
pub open spec fn advanced(offset: u64, by: nat) -> u64 {
    if offset + by > u64::MAX {
        u64::MAX
    } else {
        (offset + by) as u64
    }
}

/// An offset further on; beyond what can be counted, the end of it.
pub fn advance(offset: u64, by: usize) -> (end: u64)
    ensures
        end == advanced(offset, by as nat),
{
    if by as u64 > u64::MAX - offset {
        u64::MAX
    } else {
        offset + by as u64
    }
}

/// How many bytes there are up to and with the last line feed: what comes
/// behind is a line still being written.
pub open spec fn complete(bytes: Seq<u8>) -> nat
    decreases bytes.len(),
{
    if bytes.len() == 0 {
        0
    } else if bytes.last() == 0x0A {
        bytes.len()
    } else {
        complete(bytes.drop_last())
    }
}

/// A torn line stays unread: what is taken of a text ends at a line feed, and
/// no line feed comes behind it.
pub proof fn law_torn_line_stays_unread(bytes: Seq<u8>)
    ensures
        complete(bytes) <= bytes.len(),
        complete(bytes) > 0 ==> bytes[complete(bytes) - 1] == 0x0A,
        forall|i: int| complete(bytes) <= i < bytes.len() ==> #[trigger] bytes[i] != 0x0A,
    decreases bytes.len(),
{
    if bytes.len() > 0 && bytes.last() != 0x0A {
        let front = bytes.drop_last();
        law_torn_line_stays_unread(front);
        assert forall|i: int| complete(bytes) <= i < bytes.len() implies #[trigger] bytes[i]
            != 0x0A by {
            if i < front.len() {
                assert(front[i] == bytes[i]);
            }
        }
    }
}

/// How many bytes there are up to and with the last line feed.
pub fn complete_len(bytes: &[u8]) -> (count: usize)
    ensures
        count == complete(bytes@),
        count <= bytes@.len(),
{
    let mut i: usize = bytes.len();
    assert(bytes@.take(i as int) =~= bytes@);
    while i > 0
        invariant
            i <= bytes@.len(),
            complete(bytes@) == complete(bytes@.take(i as int)),
        decreases i,
    {
        assert(bytes@.take(i as int).drop_last() =~= bytes@.take(i - 1));
        if bytes[i - 1] == 0x0A {
            return i;
        }
        i = i - 1;
    }
    0
}

/// An event file under reading: whose run it is of, how far it is read, and
/// whether its framing died.
pub struct EventLog {
    run: String,
    records: RecordReader,
    dead: bool,
}

/// What an [`EventLog`] holds. A dead log has nothing pending.
#[verifier::ext_equal]
pub struct LogModel {
    pub run: Seq<char>,
    pub committed: u64,
    pub pending: Seq<u8>,
    pub dead: bool,
}

impl LogModel {
    /// A log that is read on from an offset.
    pub open spec fn start(run: Seq<char>, offset: u64) -> LogModel {
        LogModel { run, committed: offset, pending: Seq::empty(), dead: false }
    }

    /// The offset of the first byte that was not read yet.
    pub open spec fn consumed(self) -> int {
        self.committed + self.pending.len()
    }

    /// Whether more bytes can be counted.
    pub open spec fn fits(self, more: Seq<u8>) -> bool {
        &&& self.consumed() + more.len() <= u64::MAX
        &&& self.pending.len() + more.len() <= usize::MAX
    }
}

impl View for EventLog {
    type V = LogModel;

    closed spec fn view(&self) -> LogModel {
        LogModel {
            run: self.run@,
            committed: self.records.committed(),
            pending: if self.dead {
                Seq::empty()
            } else {
                self.records.pending()
            },
            dead: self.dead,
        }
    }
}

impl<
    F: Fn(&str) -> Option<u64>,
    G: Fn(u64) -> u64,
    H: Fn(Moments, u64) -> Moments,
> Numeric<F, G, H> {
    /// One record of an event file: its event is taken in; one that does not
    /// decode is lost, and counted.
    pub open spec fn take_record(self, intake: Intake, name: Seq<char>, data: Seq<u8>) -> Intake {
        match event_of(data) {
            Ok(event) => self.take_event(intake, name, event),
            Err(_) => intake.dropped(),
        }
    }

    /// The whole records at the front of bytes, one behind the other: what
    /// was taken in, what is left, and whether the framing died there.
    pub open spec fn take_frames(self, intake: Intake, name: Seq<char>, bytes: Seq<u8>) -> (
        Intake,
        Seq<u8>,
        bool,
    )
        decreases bytes.len(),
    {
        match frame(bytes) {
            Frame::Short => (intake, bytes, false),
            Frame::Bad { want, got } => (intake, bytes, true),
            Frame::Whole { data, data_crc, size } => if 0 < size <= bytes.len() {
                self.take_frames(
                    self.take_record(intake, name, data),
                    name,
                    bytes.skip(size as int),
                )
            } else {
                (intake, bytes, false)
            },
        }
    }

    /// An event file that has grown by `tail`; `failed` says that reading it
    /// ended in an error. A dead file is not read.
    pub open spec fn drain_log(self, intake: Intake, log: LogModel, tail: Seq<u8>, failed: bool) -> (
        Intake,
        LogModel,
    ) {
        if log.dead || !log.fits(tail) {
            (intake, log)
        } else {
            let ahead = log.pending + tail;
            let (taken, left, bad) = self.take_frames(intake, log.run, ahead);
            let dead = bad || failed;
            (
                if dead {
                    taken.died()
                } else {
                    taken
                },
                LogModel {
                    committed: (log.committed + ahead.len() - left.len()) as u64,
                    pending: if dead {
                        Seq::empty()
                    } else {
                        left
                    },
                    dead,
                    ..log
                },
            )
        }
    }
}

/// A whole record takes up room, and no more than there is.
proof fn lemma_frame_size(bytes: Seq<u8>)
    ensures
        frame(bytes) matches Frame::Whole { data, data_crc, size } ==> 0 < size <= bytes.len(),
{
}

impl EventLog {
    /// The log's framing state is sound.
    pub closed spec fn wf(self) -> bool {
        &&& self.records.wf()
        &&& !self.dead ==> self.records.dead() is None
    }

    /// A log read from the start, or on from a committed offset.
    pub fn new(run: String, offset: u64) -> (log: EventLog)
        ensures
            log.wf(),
            log@ == LogModel::start(run@, offset),
    {
        EventLog { run, records: RecordReader::resume_at(offset), dead: false }
    }

    /// The name of the run.
    pub fn run_name(&self) -> (name: &String)
        ensures
            name@ == self@.run,
    {
        &self.run
    }

    /// The offset just past the last complete record.
    pub fn committed_offset(&self) -> (offset: u64)
        ensures
            offset == self@.committed,
    {
        self.records.committed_offset()
    }

    /// Whether the log's framing died.
    pub fn is_dead(&self) -> (dead: bool)
        ensures
            dead == self@.dead,
    {
        self.dead
    }

    /// The offset of the first byte that was not read yet: where the file is
    /// to be read on from.
    pub fn consumed(&self) -> (offset: u64)
        requires
            self.wf(),
        ensures
            offset == advanced(self@.committed, self@.pending.len()),
    {
        if self.dead {
            self.records.committed_offset()
        } else {
            let pending: u64 = self.records.pending_len();
            let committed: u64 = self.records.committed_offset();
            if pending > u64::MAX - committed {
                u64::MAX
            } else {
                committed + pending
            }
        }
    }

    /// Takes in the events of the bytes that the file has grown by. A bad
    /// length checksum, or an error on reading, ends the file; its valid
    /// prefix is retained.
    pub fn drain<
        F: Fn(&str) -> Option<u64>,
        G: Fn(u64) -> u64,
        H: Fn(Moments, u64) -> Moments,
    >(
        &mut self,
        run: &mut Run,
        sink: &mut Sink,
        tail: &[u8],
        failed: bool,
        numeric: &Numeric<F, G, H>,
    )
        requires
            old(self).wf(),
            old(run).wf(),
            old(sink).wf(),
            numeric.ok(),
        ensures
            final(self).wf(),
            final(run).wf(),
            final(sink).wf(),
            (final(sink).with(*final(run)), final(self)@) == numeric.drain_log(
                old(sink).with(*old(run)),
                old(self)@,
                tail@,
                failed,
            ),
    {
        if self.dead {
            return ;
        }
        let pending: u64 = self.records.pending_len();
        let committed: u64 = self.records.committed_offset();
        if pending > u64::MAX - committed || tail.len() as u64 > u64::MAX - committed - pending
            || pending > usize::MAX as u64 || tail.len() > usize::MAX - pending as usize {
            return ;
        }
        let ghost before = self@;
        let ghost intake = sink.with(*run);
        let ghost ahead = self.records.pending() + tail@;
        let ghost expected = numeric.take_frames(intake, before.run, ahead);
        let mut stream = ByteStream::new(crate::bytes::copy_bytes(tail));
        assert(self.records.ahead(stream) =~= ahead);
        loop
            invariant
                self.records.wf(),
                self.records.room(stream),
                self.records.dead() is None,
                !self.dead,
                self.run@ == before.run,
                run.wf(),
                sink.wf(),
                numeric.ok(),
                before == old(self)@,
                intake == old(sink).with(*old(run)),
                ahead == before.pending + tail@,
                !before.dead,
                before.fits(tail@),
                expected == numeric.take_frames(intake, before.run, ahead),
                self.records.committed() + self.records.ahead(stream).len() == before.committed
                    + ahead.len(),
                numeric.take_frames(
                    sink.with(*run),
                    before.run,
                    self.records.ahead(stream),
                ) == expected,
            decreases self.records.ahead(stream).len(),
        {
            let ghost left = self.records.ahead(stream);
            proof {
                lemma_frame_size(left);
            }
            match read_event(&mut self.records, &mut stream) {
                Ok(event) => {
                    ingest(run, sink, &self.run, &event, numeric);
                    assert(self.records.ahead(stream) =~= left.skip(
                        frame(left)->Whole_size as int,
                    ));
                },
                Err(ReadEventError::Truncated) => {
                    if failed {
                        self.dead = true;
                        sink.report.count_died();
                    }
                    return ;
                },
                Err(ReadEventError::BadLengthCrc { .. }) => {
                    self.dead = true;
                    sink.report.count_died();
                    return ;
                },
                Err(_) => {
                    sink.report.count_dropped();
                    assert(self.records.ahead(stream) =~= left.skip(
                        frame(left)->Whole_size as int,
                    ));
                },
            }
        }
    }
}

} // verus!
