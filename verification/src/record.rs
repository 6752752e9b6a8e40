//! TFRecord framing: length-prefixed records with masked CRC-32C checksums.
//!
//! Each record on disk is `u64 LE length` + `u32 masked CRC of the length
//! bytes` + `payload` + `u32 masked CRC of the payload`.
//!
//! The reader is a resumable state machine over a [`ByteStream`]: running out
//! of bytes mid-record returns [`ReadRecordError::Truncated`] and keeps the
//! partial state, so the next call continues where the last one stopped once
//! the writer has appended more bytes. A bad length CRC means the framing
//! itself cannot be trusted — the file is dead past that point, its valid
//! prefix retained. Payload CRCs are deliberately *not* verified here (the hot
//! path skips them); [`Record::checksum`] validates on demand, typically only
//! after a payload fails to parse, to distinguish corruption from a decoder
//! gap.
use vstd::prelude::*;

use crate::bytes::{copy_bytes, read_le32, read_le64};
use crate::crc::MaskedCrc;

verus! {

/// Bytes of the length header: a `u64` length and the masked CRC of it.
pub const LENGTH_HEADER: usize = 12;

/// Bytes of the trailing payload checksum.
pub const DATA_CRC: usize = 4;

/// The bytes a reader is handed: what has arrived, and how far it was read.
///
/// A position past the end reads nothing until enough bytes have arrived.
pub struct ByteStream {
    data: Vec<u8>,
    pos: usize,
}

impl ByteStream {
    /// The bytes that have arrived since the start of the stream.
    pub closed spec fn data(self) -> Seq<u8> {
        self.data@
    }

    /// Where the next byte is read.
    pub closed spec fn pos(self) -> nat {
        self.pos as nat
    }

    /// The bytes that have arrived and were not read yet.
    pub open spec fn remaining(self) -> Seq<u8> {
        if self.pos() <= self.data().len() {
            self.data().skip(self.pos() as int)
        } else {
            Seq::empty()
        }
    }

    /// A stream at the start of `data`.
    pub fn new(data: Vec<u8>) -> (stream: ByteStream)
        ensures
            stream.data() == data@,
            stream.pos() == 0,
            stream.remaining() == data@,
    {
        let stream = ByteStream { data, pos: 0 };
        assert(stream.data().skip(0) =~= data@);
        stream
    }

    /// Appends newly arrived bytes.
    pub fn feed(&mut self, bytes: &[u8])
        ensures
            final(self).data() == old(self).data() + bytes@,
            final(self).pos() == old(self).pos(),
            old(self).pos() <= old(self).data().len() ==> final(self).remaining() == old(
                self,
            ).remaining() + bytes@,
    {
        crate::bytes::put_bytes(&mut self.data, bytes);
        assert(old(self).pos() <= old(self).data().len() ==> self.remaining() =~= old(
            self,
        ).remaining() + bytes@);
    }

    /// Moves to `offset`, counted from the start of the stream.
    pub fn seek(&mut self, offset: usize)
        ensures
            final(self).data() == old(self).data(),
            final(self).pos() == offset,
    {
        self.pos = offset;
    }

    /// How many bytes have arrived and were not read yet.
    pub fn available(&self) -> (count: usize)
        ensures
            count == self.remaining().len(),
            self.pos() + count <= usize::MAX,
    {
        if self.pos <= self.data.len() {
            self.data.len() - self.pos
        } else {
            0
        }
    }

    /// Moves the next `count` bytes to the end of `buf`.
    fn read_into(&mut self, buf: &mut Vec<u8>, count: usize)
        requires
            count <= old(self).remaining().len(),
        ensures
            final(buf)@ == old(buf)@ + old(self).remaining().take(count as int),
            final(self).remaining() == old(self).remaining().skip(count as int),
            final(self).data() == old(self).data(),
    {
        if count > 0 {
            assert(self.pos + count <= self.data.len());
            let end: usize = self.pos + count;
            crate::bytes::put_bytes(buf, vstd::slice::slice_subrange(&self.data, self.pos, end));
            assert(self.data@.subrange(self.pos as int, end as int) =~= self.remaining().take(
                count as int,
            ));
            self.pos = end;
        }
        assert(buf@ =~= old(buf)@ + old(self).remaining().take(count as int));
        assert(self.remaining() =~= old(self).remaining().skip(count as int));
    }
}

/// A complete record read from TFRecord framing.
///
/// The payload CRC has been read but not verified; call [`Record::checksum`]
/// to validate it (off the hot path — typically only when the payload fails
/// to parse downstream).
#[derive(Debug)]
pub struct Record {
    /// The record payload.
    pub data: Vec<u8>,
    /// The masked CRC-32C of the payload as stored on disk.
    pub data_crc: MaskedCrc,
}

/// A payload failed CRC validation: the bytes on disk are corrupt.
#[derive(Clone, Copy, PartialEq, Eq, Structural, Debug)]
pub struct ChecksumError {
    /// The checksum stored on disk.
    pub want: MaskedCrc,
    /// The checksum of the bytes actually read.
    pub got: MaskedCrc,
}

/// What validating `data` against a stored checksum says.
pub open spec fn checksum_of(data: Seq<u8>, stored: MaskedCrc) -> Result<(), ChecksumError> {
    if crate::crc::masked_crc(data) == stored {
        Ok(())
    } else {
        Err(ChecksumError { want: stored, got: crate::crc::masked_crc(data) })
    }
}

impl Record {
    /// Verifies the payload against its stored CRC.
    pub fn checksum(&self) -> (result: Result<(), ChecksumError>)
        ensures
            result == checksum_of(self.data@, self.data_crc),
    {
        let got = MaskedCrc::compute(&self.data);
        if got == self.data_crc {
            Ok(())
        } else {
            Err(ChecksumError { want: self.data_crc, got })
        }
    }
}

/// Failure modes of [`RecordReader::read_record`].
#[derive(Clone, Copy, PartialEq, Eq, Structural, Debug)]
pub enum ReadRecordError {
    /// The stream ended mid-record. This is a normal state, not damage: a
    /// live writer may still be appending, so keep the reader and retry once
    /// the file has grown. Partial progress is retained.
    Truncated,
    /// The length header failed its CRC: the framing is untrustworthy from
    /// `offset` on, and no further records can be recovered from this stream.
    /// Everything read before `offset` remains valid.
    BadLengthCrc {
        /// Byte offset of the start of the unrecoverable record.
        offset: u64,
        /// The checksum stored on disk.
        want: MaskedCrc,
        /// The checksum computed from the length bytes actually read.
        got: MaskedCrc,
    },
}

/// The length that a twelve-byte header claims.
pub open spec fn claimed_length(header: Seq<u8>) -> int {
    crate::bytes::le64(header.subrange(0, 8))
}

/// The checksum stored in a twelve-byte header.
pub open spec fn stored_length_crc(header: Seq<u8>) -> MaskedCrc {
    MaskedCrc(crate::bytes::le32(header.subrange(8, 12)) as u32)
}

/// The checksum that the length bytes of a header really have.
pub open spec fn computed_length_crc(header: Seq<u8>) -> MaskedCrc {
    crate::crc::masked_crc(header.subrange(0, 8))
}

/// Whether the length bytes of a header match its checksum.
pub open spec fn header_valid(header: Seq<u8>) -> bool {
    stored_length_crc(header) == computed_length_crc(header)
}

/// What stands at the front of a byte sequence.
#[verifier::ext_equal]
pub enum Frame {
    /// The bytes end inside the record.
    Short,
    /// The length header does not match its checksum.
    Bad { want: MaskedCrc, got: MaskedCrc },
    /// A whole record of `size` bytes, framing included.
    Whole { data: Seq<u8>, data_crc: MaskedCrc, size: nat },
}

/// The frame at the front of `bytes`.
pub open spec fn frame(bytes: Seq<u8>) -> Frame {
    if bytes.len() < 12 {
        Frame::Short
    } else if !header_valid(bytes) {
        Frame::Bad { want: stored_length_crc(bytes), got: computed_length_crc(bytes) }
    } else {
        let length = claimed_length(bytes);
        if bytes.len() < 16 + length {
            Frame::Short
        } else {
            Frame::Whole {
                data: bytes.subrange(12, 12 + length),
                data_crc: MaskedCrc(
                    crate::bytes::le32(bytes.subrange(12 + length, 16 + length)) as u32,
                ),
                size: (16 + length) as nat,
            }
        }
    }
}

enum State {
    /// Accumulating the 12-byte length header.
    Header { buf: Vec<u8> },
    /// Accumulating `length` payload bytes plus the trailing payload CRC.
    Payload { header: Vec<u8>, length: usize, buf: Vec<u8> },
    /// A bad length CRC was seen: the framing is dead, every subsequent call
    /// reports the same error without touching the stream.
    Dead { header: Vec<u8>, offset: u64, want: MaskedCrc, got: MaskedCrc },
}

/// A resumable reader for TFRecord framing.
///
/// The reader owns only parse state, not the stream: pass the stream to each
/// [`read_record`](RecordReader::read_record) call. This keeps it usable both
/// for one-shot reads and for live tailing, where the same file is polled as
/// it grows.
pub struct RecordReader {
    state: State,
    /// Total bytes consumed from the stream, including any partial record.
    consumed: u64,
    /// Bytes consumed through the end of the last complete record — the
    /// offset to resume from if the reader is dropped and later recreated.
    committed: u64,
}

impl RecordReader {
    /// The bytes of the record in progress that were read so far.
    pub closed spec fn pending(self) -> Seq<u8> {
        match self.state {
            State::Header { buf } => buf@,
            State::Payload { header, buf, .. } => header@ + buf@,
            State::Dead { header, .. } => header@,
        }
    }

    /// The offset just past the last complete record.
    pub closed spec fn committed(self) -> u64 {
        self.committed
    }

    /// The error that a dead reader keeps reporting.
    pub closed spec fn dead(self) -> Option<ReadRecordError> {
        match self.state {
            State::Dead { offset, want, got, .. } => Some(
                ReadRecordError::BadLengthCrc { offset, want, got },
            ),
            _ => None,
        }
    }

    /// The reader's state is one that reading can reach.
    pub closed spec fn wf(self) -> bool {
        &&& self.consumed == self.committed + self.pending().len()
        &&& match self.state {
            State::Header { buf } => buf@.len() < 12,
            State::Payload { header, length, buf } => {
                &&& header@.len() == 12
                &&& header_valid(header@)
                &&& length as int == claimed_length(header@) || (length == usize::MAX
                    && claimed_length(header@) > usize::MAX)
                &&& buf@.len() < claimed_length(header@) + 4
            },
            State::Dead { header, .. } => header@.len() == 12,
        }
    }

    /// Creates a reader expecting a record boundary at the start of the
    /// stream.
    pub fn new() -> (reader: RecordReader)
        ensures
            reader.wf(),
            reader.pending() == Seq::<u8>::empty(),
            reader.committed() == 0,
            reader.dead() is None,
    {
        RecordReader { state: State::Header { buf: Vec::new() }, consumed: 0, committed: 0 }
    }

    /// Creates a reader that accounts for `offset` bytes already consumed
    /// before the stream's current position (for resuming a previously
    /// committed offset: seek the file, then hand it to this reader).
    pub fn resume_at(offset: u64) -> (reader: RecordReader)
        ensures
            reader.wf(),
            reader.pending() == Seq::<u8>::empty(),
            reader.committed() == offset,
            reader.dead() is None,
    {
        RecordReader {
            state: State::Header { buf: Vec::new() },
            consumed: offset,
            committed: offset,
        }
    }

    /// Byte offset just past the last complete record. Seeking a fresh stream
    /// here and reading with [`RecordReader::resume_at`] continues exactly
    /// where this reader left off.
    pub fn committed_offset(&self) -> (offset: u64)
        ensures
            offset == self.committed(),
    {
        self.committed
    }

    /// How many bytes of an incomplete record the reader holds.
    pub fn pending_len(&self) -> (count: u64)
        requires
            self.wf(),
        ensures
            count == self.pending().len(),
    {
        self.consumed - self.committed
    }

    /// The bytes left to read, those of the record in progress in front.
    pub open spec fn ahead(self, stream: ByteStream) -> Seq<u8> {
        self.pending() + stream.remaining()
    }

    /// The committed offset is where the unread bytes start: a fresh reader
    /// resumed there over the same stream has the same bytes ahead.
    pub open spec fn tracks(self, stream: ByteStream) -> bool {
        &&& self.committed() <= stream.data().len()
        &&& self.ahead(stream) == stream.data().skip(self.committed() as int)
    }

    /// The counters have room for every byte that has arrived.
    pub open spec fn room(self, stream: ByteStream) -> bool {
        &&& self.committed() + self.ahead(stream).len() <= u64::MAX
        &&& self.ahead(stream).len() <= usize::MAX
    }

    /// Reads the next record, resuming any partial progress.
    ///
    /// On [`ReadRecordError::Truncated`] the partial state is kept; call
    /// again with the same (grown) stream to continue. On
    /// [`ReadRecordError::BadLengthCrc`] the reader is permanently dead and
    /// repeats the same error.
    #[verifier::rlimit(60)]
    #[verifier::spinoff_prover]
    pub fn read_record(&mut self, stream: &mut ByteStream) -> (result: Result<
        Record,
        ReadRecordError,
    >)
        requires
            old(self).wf(),
            old(self).room(*old(stream)),
        ensures
            final(self).wf(),
            final(stream).data() == old(stream).data(),
            old(self).tracks(*old(stream)) ==> final(self).tracks(*final(stream)),
            final(self).room(*final(stream)),
            old(self).dead() matches Some(error) ==> {
                &&& result == Err::<Record, ReadRecordError>(error)
                &&& *final(self) == *old(self)
                &&& *final(stream) == *old(stream)
            },
            old(self).dead() is None ==> match frame(old(self).ahead(*old(stream))) {
                Frame::Short => {
                    &&& result == Err::<Record, ReadRecordError>(ReadRecordError::Truncated)
                    &&& final(self).dead() is None
                    &&& final(self).committed() == old(self).committed()
                    &&& final(self).pending() == old(self).ahead(*old(stream))
                    &&& final(stream).remaining() == Seq::<u8>::empty()
                },
                Frame::Bad { want, got } => {
                    let error = ReadRecordError::BadLengthCrc {
                        offset: old(self).committed(),
                        want,
                        got,
                    };
                    &&& result == Err::<Record, ReadRecordError>(error)
                    &&& final(self).dead() == Some(error)
                    &&& final(self).committed() == old(self).committed()
                    &&& final(self).ahead(*final(stream)) == old(self).ahead(*old(stream))
                },
                Frame::Whole { data, data_crc, size } => {
                    &&& result matches Ok(record) && record.data@ == data && record.data_crc
                        == data_crc
                    &&& final(self).dead() is None
                    &&& final(self).committed() == old(self).committed() + size
                    &&& final(self).pending() == Seq::<u8>::empty()
                    &&& final(stream).remaining() == old(self).ahead(*old(stream)).skip(
                        size as int,
                    )
                },
            },
    {
        let ghost total = self.ahead(*stream);
        if let State::Dead { offset, want, got, .. } = &self.state {
            return Err(ReadRecordError::BadLengthCrc { offset: *offset, want: *want, got: *got });
        }
        let mut state = State::Header { buf: Vec::new() };
        core::mem::swap(&mut self.state, &mut state);
        let (header, length, mut buf): (Vec<u8>, usize, Vec<u8>) = match state {
            State::Header { mut buf } => {
                let full = fill(stream, &mut buf, LENGTH_HEADER, &mut self.consumed);
                if !full {
                    self.state = State::Header { buf };
                    assert(self.pending() =~= total);
                    assert(self.ahead(*stream) =~= total);
                    return Err(ReadRecordError::Truncated);
                }
                assert(buf@ =~= total.take(12));
                assert(total.subrange(0, 8) =~= buf@.subrange(0, 8));
                assert(total.subrange(8, 12) =~= buf@.subrange(8, 12));
                let length_bytes = vstd::slice::slice_subrange(&buf, 0, 8);
                let stored = MaskedCrc(read_le32(&buf, 8));
                let computed = MaskedCrc::compute(length_bytes);
                if computed != stored {
                    let offset: u64 = self.committed;
                    self.state = State::Dead { header: buf, offset, want: stored, got: computed };
                    assert(self.ahead(*stream) =~= total);
                    return Err(ReadRecordError::BadLengthCrc {
                        offset,
                        want: stored,
                        got: computed,
                    });
                }
                let claimed: u64 = read_le64(&buf, 0);
                let length: usize = if claimed > usize::MAX as u64 {
                    usize::MAX
                } else {
                    claimed as usize
                };
                (buf, length, Vec::new())
            },
            State::Payload { header, length, buf } => (header, length, buf),
            State::Dead { header, .. } => (header, 0, Vec::new()),
        };
        assert(header@ + (buf@ + stream.remaining()) =~= total);
        assert(header@ =~= total.take(12));
        assert(total.subrange(0, 8) =~= header@.subrange(0, 8));
        assert(total.subrange(8, 12) =~= header@.subrange(8, 12));
        let full = if length > usize::MAX - DATA_CRC {
            let everything: usize = stream.available() + buf.len();
            let _ = fill(stream, &mut buf, everything, &mut self.consumed);
            false
        } else {
            fill(stream, &mut buf, length + DATA_CRC, &mut self.consumed)
        };
        if !full {
            self.state = State::Payload { header, length, buf };
            assert(self.pending() =~= total);
            assert(self.ahead(*stream) =~= total);
            return Err(ReadRecordError::Truncated);
        }
        let data_crc = MaskedCrc(read_le32(&buf, length));
        let data = copy_bytes(vstd::slice::slice_subrange(&buf, 0, length));
        proof {
            assert(buf@ =~= total.subrange(12, 16 + length));
            assert(data@ =~= total.subrange(12, 12 + length));
            assert(buf@.subrange(length as int, length + 4) =~= total.subrange(
                12 + length,
                16 + length,
            ));
            assert(stream.remaining() =~= total.skip(16 + length));
            if old(self).tracks(*old(stream)) {
                let start = old(self).committed() as int;
                assert(total.skip(16 + length) =~= stream.data().skip(start + 16 + length));
            }
        }
        self.committed = self.consumed;
        self.state = State::Header { buf: Vec::new() };
        assert(self.ahead(*stream) =~= stream.remaining());
        Ok(Record { data, data_crc })
    }
}

impl Default for RecordReader {
    fn default() -> (reader: RecordReader)
        ensures
            reader.wf(),
            reader.pending() == Seq::<u8>::empty(),
            reader.committed() == 0,
            reader.dead() is None,
    {
        RecordReader::new()
    }
}

/// Extends `buf` from `stream` until it holds `want` bytes, tracking consumed
/// bytes. Returns whether the goal was reached; short of it, every byte that
/// has arrived was taken.
fn fill(stream: &mut ByteStream, buf: &mut Vec<u8>, want: usize, consumed: &mut u64) -> (full: bool)
    requires
        *old(consumed) + old(stream).remaining().len() <= u64::MAX,
        old(buf)@.len() + old(stream).remaining().len() <= usize::MAX,
        old(buf)@.len() <= want,
    ensures
        full == (old(buf)@.len() + old(stream).remaining().len() >= want),
        final(stream).data() == old(stream).data(),
        final(buf)@ + final(stream).remaining() == old(buf)@ + old(stream).remaining(),
        full ==> final(buf)@.len() == want,
        !full ==> final(stream).remaining().len() == 0,
        *final(consumed) - *old(consumed) == final(buf)@.len() - old(buf)@.len(),
{
    let missing: usize = want - buf.len();
    let available: usize = stream.available();
    let count: usize = if missing <= available {
        missing
    } else {
        available
    };
    stream.read_into(buf, count);
    *consumed = *consumed + count as u64;
    assert(buf@ + stream.remaining() =~= old(buf)@ + old(stream).remaining());
    missing <= available
}

/// The bytes of one framed record.
pub open spec fn record_bytes(payload: Seq<u8>) -> Seq<u8> {
    let length = crate::bytes::le64_bytes(payload.len() as u64);
    length + crate::bytes::le32_bytes(crate::crc::masked_crc(length).0) + payload
        + crate::bytes::le32_bytes(crate::crc::masked_crc(payload).0)
}

/// The bytes of a sequence of framed records.
pub open spec fn file_bytes(payloads: Seq<Seq<u8>>) -> Seq<u8>
    decreases payloads.len(),
{
    if payloads.len() == 0 {
        Seq::empty()
    } else {
        file_bytes(payloads.drop_last()) + record_bytes(payloads.last())
    }
}

/// What reading a byte sequence to its end gives.
#[verifier::ext_equal]
pub struct ReadOut {
    /// The records, payload and stored checksum.
    pub records: Seq<(Seq<u8>, MaskedCrc)>,
    /// The bytes behind the last whole record.
    pub rest: Seq<u8>,
    /// Whether the framing died there.
    pub dead: bool,
}

/// Every record of `bytes` in order, until they end or the framing dies.
pub open spec fn read_all(bytes: Seq<u8>) -> ReadOut
    decreases bytes.len(),
{
    match frame(bytes) {
        Frame::Short => ReadOut { records: Seq::empty(), rest: bytes, dead: false },
        Frame::Bad { .. } => ReadOut { records: Seq::empty(), rest: bytes, dead: true },
        Frame::Whole { data, data_crc, size } => {
            if size <= 0 || size > bytes.len() {
                ReadOut { records: Seq::empty(), rest: bytes, dead: false }
            } else {
                let tail = read_all(bytes.skip(size as int));
                ReadOut { records: seq![(data, data_crc)] + tail.records, ..tail }
            }
        },
    }
}

/// The frame at the front of a byte sequence does not depend on what comes
/// after it: more bytes change the answer only where the record was not
/// whole yet.
pub proof fn law_whole_records_stay(bytes: Seq<u8>, more: Seq<u8>)
    ensures
        !(frame(bytes) is Short) ==> frame(bytes + more) == frame(bytes),
        frame(bytes) matches Frame::Whole { size, .. } ==> 16 <= size <= bytes.len(),
{
    if bytes.len() >= 12 {
        let all = bytes + more;
        assert(all.subrange(0, 8) =~= bytes.subrange(0, 8));
        assert(all.subrange(8, 12) =~= bytes.subrange(8, 12));
        crate::bytes::lemma_le64(0, bytes.subrange(0, 8));
        let length = claimed_length(bytes);
        if bytes.len() >= 16 + length {
            assert(all.subrange(12, 12 + length) =~= bytes.subrange(12, 12 + length));
            assert(all.subrange(12 + length, 16 + length) =~= bytes.subrange(
                12 + length,
                16 + length,
            ));
        }
    }
}

/// Reading a file in two pieces, split at any byte, gives the records that
/// reading it whole gives: the torn tail of the first piece is completed by
/// the second. A dead file stays dead whatever is appended.
pub proof fn law_resumes_at_every_byte(first: Seq<u8>, second: Seq<u8>)
    ensures
        !read_all(first).dead ==> read_all(first + second) == (ReadOut {
            records: read_all(first).records + read_all(read_all(first).rest + second).records,
            rest: read_all(read_all(first).rest + second).rest,
            dead: read_all(read_all(first).rest + second).dead,
        }),
        read_all(first).dead ==> read_all(first + second) == (ReadOut {
            records: read_all(first).records,
            rest: read_all(first).rest + second,
            dead: true,
        }),
    decreases first.len(),
{
    law_whole_records_stay(first, second);
    match frame(first) {
        Frame::Whole { data, data_crc, size } => {
            let tail = first.skip(size as int);
            assert((first + second).skip(size as int) =~= tail + second);
            law_resumes_at_every_byte(tail, second);
            let head = seq![(data, data_crc)];
            let later = read_all(read_all(tail).rest + second).records;
            assert(head + (read_all(tail).records + later) =~= (head + read_all(tail).records)
                + later);
        },
        Frame::Short => {
            assert(Seq::<(Seq<u8>, MaskedCrc)>::empty() + read_all(first + second).records
                =~= read_all(first + second).records);
        },
        Frame::Bad { .. } => {},
    }
}

/// A valid header, a payload of the length it claims and four checksum bytes
/// make a whole frame, whatever follows.
proof fn lemma_frame_of_parts(header: Seq<u8>, payload: Seq<u8>, stored: Seq<u8>, more: Seq<u8>)
    requires
        header.len() == 12,
        header_valid(header),
        claimed_length(header) == payload.len(),
        stored.len() == 4,
    ensures
        frame(header + payload + stored + more) == (Frame::Whole {
            data: payload,
            data_crc: MaskedCrc(crate::bytes::le32(stored) as u32),
            size: (16 + payload.len()) as nat,
        }),
        (header + payload + stored + more).skip(16int + payload.len()) == more,
{
    let all = header + payload + stored + more;
    let length = payload.len() as int;
    assert(all.subrange(0, 8) =~= header.subrange(0, 8));
    assert(all.subrange(8, 12) =~= header.subrange(8, 12));
    assert(all.subrange(12, 12 + length) =~= payload);
    assert(all.subrange(12 + length, 16 + length) =~= stored);
    assert(all.skip(16 + length) =~= more);
}

/// Reading gives back what writing framed: the record at the front of its
/// own bytes, whatever follows.
pub proof fn law_record_round_trip(payload: Seq<u8>, more: Seq<u8>)
    requires
        payload.len() <= u64::MAX,
    ensures
        record_bytes(payload).len() == 16 + payload.len(),
        frame(record_bytes(payload) + more) == (Frame::Whole {
            data: payload,
            data_crc: crate::crc::masked_crc(payload),
            size: (16 + payload.len()) as nat,
        }),
        (record_bytes(payload) + more).skip(16int + payload.len()) == more,
        checksum_of(payload, crate::crc::masked_crc(payload)) is Ok,
{
    let length = crate::bytes::le64_bytes(payload.len() as u64);
    let length_crc = crate::crc::masked_crc(length).0;
    let data_crc = crate::crc::masked_crc(payload).0;
    crate::bytes::lemma_le64(payload.len() as u64, length);
    crate::bytes::lemma_le32(length_crc, crate::bytes::le32_bytes(length_crc));
    crate::bytes::lemma_le32(data_crc, crate::bytes::le32_bytes(data_crc));
    let header = length + crate::bytes::le32_bytes(length_crc);
    assert(header.subrange(0, 8) =~= length);
    assert(header.subrange(8, 12) =~= crate::bytes::le32_bytes(length_crc));
    lemma_frame_of_parts(header, payload, crate::bytes::le32_bytes(data_crc), more);
}

/// The header of a record is valid and claims the payload's length.
proof fn lemma_record_header(payload: Seq<u8>)
    requires
        payload.len() <= u64::MAX,
    ensures
        record_bytes(payload).len() == 16 + payload.len(),
        header_valid(record_bytes(payload).take(12)),
        claimed_length(record_bytes(payload).take(12)) == payload.len(),
{
    let length = crate::bytes::le64_bytes(payload.len() as u64);
    let length_crc = crate::crc::masked_crc(length).0;
    crate::bytes::lemma_le64(payload.len() as u64, length);
    crate::bytes::lemma_le32(length_crc, crate::bytes::le32_bytes(length_crc));
    let header = length + crate::bytes::le32_bytes(length_crc);
    assert(record_bytes(payload).take(12) =~= header);
    assert(header.subrange(0, 8) =~= length);
    assert(header.subrange(8, 12) =~= crate::bytes::le32_bytes(length_crc));
}

/// A file of framed records reads back as exactly those payloads, each with
/// a matching checksum, and nothing is left over.
#[verifier::rlimit(40)]
#[verifier::spinoff_prover]
pub proof fn law_file_round_trip(payloads: Seq<Seq<u8>>, more: Seq<u8>)
    requires
        forall|i: int| 0 <= i < payloads.len() ==> (#[trigger] payloads[i]).len() <= u64::MAX,
    ensures
        read_all(file_bytes(payloads) + more) == (ReadOut {
            records: payloads.map_values(
                |p: Seq<u8>| (p, crate::crc::masked_crc(p)),
            ) + read_all(more).records,
            rest: read_all(more).rest,
            dead: read_all(more).dead,
        }),
    decreases payloads.len(),
{
    let stored = |p: Seq<u8>| (p, crate::crc::masked_crc(p));
    if payloads.len() == 0 {
        assert(file_bytes(payloads) + more =~= more);
        assert(payloads.map_values(stored) + read_all(more).records =~= read_all(more).records);
    } else {
        let init = payloads.drop_last();
        let last = payloads.last();
        assert forall|i: int| 0 <= i < init.len() implies (#[trigger] init[i]).len()
            <= u64::MAX by {
            assert(init[i] == payloads[i]);
        }
        let behind = record_bytes(last) + more;
        assert(file_bytes(payloads) + more =~= file_bytes(init) + behind);
        law_file_round_trip(init, behind);
        law_record_round_trip(last, more);
        let tail = read_all(more).records;
        assert(read_all(behind).records == seq![stored(last)] + tail);
        assert(init.map_values(stored) + (seq![stored(last)] + tail) =~= payloads.map_values(stored)
            + tail);
    }
}

/// A torn tail is a state, not an error: every proper prefix of a record's
/// bytes is merely short.
#[verifier::rlimit(50)]
#[verifier::spinoff_prover]
pub proof fn law_torn_record_is_short(payload: Seq<u8>, cut: int)
    requires
        payload.len() <= u64::MAX,
        0 <= cut < record_bytes(payload).len(),
    ensures
        frame(record_bytes(payload).take(cut)) is Short,
{
    let all = record_bytes(payload);
    let torn = all.take(cut);
    law_record_round_trip(payload, Seq::empty());
    assert(all + Seq::<u8>::empty() =~= all);
    law_whole_records_stay(torn, all.skip(cut));
    assert(torn + all.skip(cut) =~= all);
}

/// A corrupt payload does not block its successors: with the framing intact,
/// whatever the payload and its checksum hold, the records behind it read as
/// before.
#[verifier::rlimit(40)]
#[verifier::spinoff_prover]
pub proof fn law_corruption_stays_local(
    payload: Seq<u8>,
    corrupt: Seq<u8>,
    stored: Seq<u8>,
    more: Seq<u8>,
)
    requires
        payload.len() <= u64::MAX,
        corrupt.len() == payload.len(),
        stored.len() == 4,
    ensures
        frame(record_bytes(payload).take(12) + corrupt + stored + more) == (Frame::Whole {
            data: corrupt,
            data_crc: MaskedCrc(crate::bytes::le32(stored) as u32),
            size: (16 + payload.len()) as nat,
        }),
        read_all(record_bytes(payload).take(12) + corrupt + stored + more).records.skip(1)
            == read_all(more).records,
{
    let header = record_bytes(payload).take(12);
    let all = header + corrupt + stored + more;
    lemma_record_header(payload);
    lemma_frame_of_parts(header, corrupt, stored, more);
    law_whole_records_stay(all, Seq::empty());
    assert(read_all(all).records.skip(1) =~= read_all(more).records);
}

} // verus!
