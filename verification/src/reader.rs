//! The top layer: a resumable reader that turns a growing tfevents stream
//! into decoded [`Event`]s, with an honest taxonomy of everything that can go
//! wrong in a file a trainer is still writing (or died while writing).
use vstd::prelude::*;

use crate::crc::MaskedCrc;
use crate::event::{event_of, Event};
use crate::record::{
    checksum_of, frame, ByteStream, ChecksumError, Frame, ReadRecordError, RecordReader,
};
use crate::wire::DecodeError;

verus! {

/// Failure modes of [`EventFileReader::next_event`].
///
/// Only [`Truncated`](ReadEventError::Truncated) is a stopping state, and
/// even it is temporary while a writer lives. `Corrupt` and `Malformed` spoil
/// one record — report them and keep reading; `BadLengthCrc` ends the file.
#[derive(Clone, Copy, PartialEq, Eq, Structural, Debug)]
#[allow(inconsistent_fields)]
pub enum ReadEventError {
    /// The stream ended mid-record: either the true end of a live file or a
    /// torn write from a dead one. Keep the reader; retry when the file
    /// grows.
    Truncated,
    /// The framing is untrustworthy from `offset` on; no further records can
    /// be recovered. Data before `offset` remains valid.
    BadLengthCrc {
        /// Byte offset of the start of the unrecoverable record.
        offset: u64,
        /// The checksum stored on disk.
        want: MaskedCrc,
        /// The checksum computed from the length bytes actually read.
        got: MaskedCrc,
    },
    /// The record at `offset` failed its payload checksum: bytes were lost
    /// or mangled on disk. The framing is intact — subsequent records still
    /// read. This is visible data loss, not a silent gap.
    Corrupt {
        /// Byte offset of the start of the corrupt record.
        offset: u64,
        /// The stored-vs-computed checksum pair.
        error: ChecksumError,
    },
    /// The record at `offset` passed its checksum but is not a decodable
    /// `Event` — most likely a proto feature outside this decoder. The
    /// stream continues.
    Malformed {
        /// Byte offset of the start of the undecodable record.
        offset: u64,
        /// What the wire decoder objected to.
        error: DecodeError,
    },
}

/// Reads decoded [`Event`]s from a tfevents stream, resumably.
///
/// The reader owns the stream and its parse state. For live tailing, keep
/// calling [`next_event`](EventFileReader::next_event) after `Truncated` —
/// the stream and the internal offset *are* the resume state. To resume
/// a previously closed file cheaply, persist
/// [`committed_offset`](EventFileReader::committed_offset) and reopen with
/// [`EventFileReader::resume`].
pub struct EventFileReader {
    stream: ByteStream,
    records: RecordReader,
}

/// How the record at `offset` reads as an event: decoded, or what is wrong
/// with it. The checksum is consulted only where decoding fails.
pub open spec fn record_error(data: Seq<u8>, data_crc: MaskedCrc, offset: u64) -> Option<
    ReadEventError,
> {
    match event_of(data) {
        Ok(_) => None,
        Err(error) => match checksum_of(data, data_crc) {
            Err(mismatch) => Some(ReadEventError::Corrupt { offset, error: mismatch }),
            Ok(_) => Some(ReadEventError::Malformed { offset, error }),
        },
    }
}

/// What reading one event through `records` from `stream` does.
pub open spec fn event_read(
    before: RecordReader,
    from: ByteStream,
    after: RecordReader,
    to: ByteStream,
    result: Result<Event, ReadEventError>,
) -> bool {
    &&& after.wf()
    &&& after.room(to)
    &&& to.data() == from.data()
    &&& before.tracks(from) ==> after.tracks(to)
    &&& match before.dead() {
        Some(ReadRecordError::BadLengthCrc { offset, want, got }) => {
            &&& result == Err::<Event, ReadEventError>(
                ReadEventError::BadLengthCrc { offset, want, got },
            )
            &&& after == before
            &&& to == from
        },
        Some(ReadRecordError::Truncated) => true,
        None => match frame(before.ahead(from)) {
            Frame::Short => {
                &&& result == Err::<Event, ReadEventError>(ReadEventError::Truncated)
                &&& after.dead() is None
                &&& after.committed() == before.committed()
                &&& after.pending() == before.ahead(from)
                &&& to.remaining() == Seq::<u8>::empty()
            },
            Frame::Bad { want, got } => {
                &&& result == Err::<Event, ReadEventError>(
                    ReadEventError::BadLengthCrc { offset: before.committed(), want, got },
                )
                &&& after.dead() == Some(
                    ReadRecordError::BadLengthCrc { offset: before.committed(), want, got },
                )
                &&& after.committed() == before.committed()
                &&& after.ahead(to) == before.ahead(from)
            },
            Frame::Whole { data, data_crc, size } => {
                &&& match record_error(data, data_crc, before.committed()) {
                    Some(error) => result == Err::<Event, ReadEventError>(error),
                    None => result matches Ok(event) && event@ == event_of(data)->Ok_0,
                }
                &&& after.dead() is None
                &&& after.committed() == before.committed() + size
                &&& after.pending() == Seq::<u8>::empty()
                &&& to.remaining() == before.ahead(from).skip(size as int)
            },
        },
    }
}

/// Reads the next event through `records` from `stream`.
///
/// Checksums are not verified on the happy path (framing already guarantees
/// length integrity); a payload checksum is computed only when decoding
/// fails, to tell [`Corrupt`](ReadEventError::Corrupt) apart from
/// [`Malformed`](ReadEventError::Malformed).
pub fn read_event(records: &mut RecordReader, stream: &mut ByteStream) -> (result: Result<
    Event,
    ReadEventError,
>)
    requires
        old(records).wf(),
        old(records).room(*old(stream)),
    ensures
        event_read(*old(records), *old(stream), *final(records), *final(stream), result),
{
    let offset: u64 = records.committed_offset();
    let record = match records.read_record(stream) {
        Ok(record) => record,
        Err(ReadRecordError::Truncated) => {
            return Err(ReadEventError::Truncated);
        },
        Err(ReadRecordError::BadLengthCrc { offset, want, got }) => {
            return Err(ReadEventError::BadLengthCrc { offset, want, got });
        },
    };
    match Event::decode(&record.data) {
        Ok(event) => Ok(event),
        Err(decode_error) => match record.checksum() {
            Err(error) => Err(ReadEventError::Corrupt { offset, error }),
            Ok(()) => Err(ReadEventError::Malformed { offset, error: decode_error }),
        },
    }
}

impl EventFileReader {
    /// The stream being read.
    pub closed spec fn stream(self) -> ByteStream {
        self.stream
    }

    /// The framing state.
    pub closed spec fn records(self) -> RecordReader {
        self.records
    }

    /// The reader can go on: its framing state is sound and its counters
    /// have room.
    pub open spec fn wf(self) -> bool {
        &&& self.records().wf()
        &&& self.records().room(self.stream())
    }

    /// Wraps a stream positioned at the start of a tfevents file.
    pub fn new(stream: ByteStream) -> (reader: EventFileReader)
        ensures
            reader.wf(),
            reader.stream() == stream,
            reader.records().pending() == Seq::<u8>::empty(),
            reader.records().committed() == 0,
            reader.records().dead() is None,
            stream.pos() == 0 ==> reader.records().tracks(stream),
    {
        let count: usize = stream.available();
        let reader = EventFileReader { stream, records: RecordReader::new() };
        assert(reader.records().ahead(stream) =~= stream.remaining());
        reader
    }

    /// Byte offset just past the last complete record — the value to persist
    /// for [`EventFileReader::resume`].
    pub fn committed_offset(&self) -> (offset: u64)
        ensures
            offset == self.records().committed(),
    {
        self.records.committed_offset()
    }

    /// Hands the reader bytes that the file has grown by.
    pub fn feed(&mut self, bytes: &[u8])
        requires
            old(self).wf(),
            old(self).stream().pos() <= old(self).stream().data().len(),
            old(self).records().ahead(old(self).stream()).len() + bytes@.len() <= usize::MAX,
            old(self).records().committed() + old(self).records().ahead(
                old(self).stream(),
            ).len() + bytes@.len() <= u64::MAX,
        ensures
            final(self).wf(),
            final(self).records() == old(self).records(),
            final(self).stream().pos() == old(self).stream().pos(),
            final(self).stream().data() == old(self).stream().data() + bytes@,
            final(self).records().ahead(final(self).stream()) == old(self).records().ahead(
                old(self).stream(),
            ) + bytes@,
            old(self).records().tracks(old(self).stream()) ==> final(self).records().tracks(
                final(self).stream(),
            ),
    {
        self.stream.feed(bytes);
        proof {
            assert(self.records().ahead(self.stream()) =~= old(self).records().ahead(
                old(self).stream(),
            ) + bytes@);
            if old(self).records().tracks(old(self).stream()) {
                assert(self.stream().data().skip(self.records().committed() as int) =~= old(
                    self,
                ).stream().data().skip(self.records().committed() as int) + bytes@);
            }
        }
    }

    /// Reads the next event.
    pub fn next_event(&mut self) -> (result: Result<Event, ReadEventError>)
        requires
            old(self).wf(),
        ensures
            final(self).wf(),
            event_read(
                old(self).records(),
                old(self).stream(),
                final(self).records(),
                final(self).stream(),
                result,
            ),
    {
        read_event(&mut self.records, &mut self.stream)
    }

    /// Consumes the reader, returning the underlying stream.
    pub fn into_inner(self) -> (stream: ByteStream)
        ensures
            stream == self.stream(),
    {
        self.stream
    }

    /// Resumes reading at `offset`, which must be a record boundary
    /// previously obtained from [`committed_offset`](Self::committed_offset)
    /// (on this file, unchanged since).
    pub fn resume(stream: ByteStream, offset: usize) -> (reader: EventFileReader)
        ensures
            reader.wf(),
            reader.stream().data() == stream.data(),
            reader.stream().pos() == offset,
            reader.records().pending() == Seq::<u8>::empty(),
            reader.records().committed() == offset,
            reader.records().dead() is None,
            offset <= stream.data().len() ==> reader.records().tracks(reader.stream()),
    {
        let mut stream = stream;
        stream.seek(offset);
        let count: usize = stream.available();
        let records = RecordReader::resume_at(offset as u64);
        assert(records.ahead(stream) =~= stream.remaining());
        EventFileReader { stream, records }
    }
}

/// Two readers of one stream that track the same committed offset have the
/// same bytes ahead: dropping a reader and resuming at its committed offset
/// reads on exactly where it left off.
pub proof fn law_resume_continues(
    left: RecordReader,
    left_stream: ByteStream,
    resumed: RecordReader,
    resumed_stream: ByteStream,
)
    requires
        left.tracks(left_stream),
        resumed.tracks(resumed_stream),
        left_stream.data() == resumed_stream.data(),
        resumed.committed() == left.committed(),
    ensures
        left.ahead(left_stream) == resumed.ahead(resumed_stream),
        frame(left.ahead(left_stream)) == frame(resumed.ahead(resumed_stream)),
{
}

} // verus!
