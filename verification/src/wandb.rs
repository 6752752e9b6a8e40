//! The wandb offline `.wandb` file: a 7-byte header, then LevelDB-log
//! framing (32 KiB blocks of CRC'd chunks; records span chunks, chunks
//! never span blocks), each record a `wandb_internal.Record` proto. The
//! format has strong de-facto stability — a version byte gates hard breaks,
//! and the replay contract keeps old files readable forever.
//!
//! Everything here is pure over byte slices; the model owns files and
//! offsets. Live tailing follows LEET's recipe: parse to the last complete
//! record, remember that offset, retry when the file grows.
use vstd::prelude::*;

use crate::bytes::{copy_bytes, le32, put_bytes, read_le32};
use crate::crc::{crc_register, lemma_register_concat, update_register};
use crate::text::{decimal_text, push_decimal, push_text};

verus! {

/// The 7-byte file header: `":W&B"` + `0xBEE1` LE + version.
pub const HEADER_LEN: u64 = 7;

/// Bytes of a block: chunks never cross a multiple of it.
pub const BLOCK: usize = 32768;

/// Bytes of a chunk header: checksum, length and kind.
pub const CHUNK_HEADER: usize = 7;

/// Reflected polynomial of CRC-32/IEEE.
pub const IEEE: u32 = 0xEDB8_8320;

/// The first six bytes of every file.
pub open spec fn magic() -> Seq<u8> {
    seq![0x3Au8, 0x57u8, 0x26u8, 0x42u8, 0xE1u8, 0xBEu8]
}

/// What is wrong with a file header, in words.
pub open spec fn header_error(bytes: Seq<u8>) -> Option<Seq<char>> {
    if bytes.len() < 7 {
        Some("file shorter than the wandb header"@)
    } else if bytes.take(6) != magic() {
        Some("not a wandb log file"@)
    } else if bytes[6] != 0 {
        Some(
            "wandb log version "@ + decimal_text(bytes[6] as nat)
                + " is newer than this reader understands"@,
        )
    } else {
        None
    }
}

/// Checks the file header. `Ok(())` for version 0; newer versions fail
/// loudly (the format's own contract for breaking changes) and other bytes
/// mean this is not a `.wandb` file at all.
pub fn check_header(bytes: &[u8]) -> (result: Result<(), String>)
    ensures
        match header_error(bytes@) {
            Some(message) => result matches Err(text) && text@ == message,
            None => result is Ok,
        },
{
    if bytes.len() < 7 {
        return Err("file shorter than the wandb header".to_owned());
    }
    if bytes[0] != 0x3A || bytes[1] != 0x57 || bytes[2] != 0x26 || bytes[3] != 0x42 || bytes[4]
        != 0xE1 || bytes[5] != 0xBE {
        proof {
            let front = bytes@.take(6);
            if front == magic() {
                assert(front[0] == 0x3A && front[1] == 0x57 && front[2] == 0x26 && front[3] == 0x42
                    && front[4] == 0xE1 && front[5] == 0xBE);
            }
        }
        return Err("not a wandb log file".to_owned());
    }
    assert(bytes@.take(6) =~= magic());
    if bytes[6] != 0 {
        let mut message = "wandb log version ".to_owned();
        push_decimal(&mut message, bytes[6] as u64);
        push_text(&mut message, " is newer than this reader understands");
        return Err(message);
    }
    Ok(())
}

/// The CRC-32/IEEE of `data`.
pub open spec fn crc32(data: Seq<u8>) -> u32 {
    !crc_register(0xFFFF_FFFF, data, IEEE)
}

/// A CRC-32/IEEE under computation.
pub struct Crc32(u32);

impl Crc32 {
    /// The register holds the division of the bytes given so far.
    pub closed spec fn covers(self, data: Seq<u8>) -> bool {
        self.0 == crc_register(0xFFFF_FFFF, data, IEEE)
    }

    /// A checksum of no bytes.
    pub fn new() -> (crc: Crc32)
        ensures
            crc.covers(Seq::empty()),
    {
        Crc32(0xFFFF_FFFF)
    }

    /// Takes more bytes in.
    pub fn update(&mut self, bytes: &[u8])
        ensures
            forall|data: Seq<u8>| #[trigger]
                old(self).covers(data) ==> final(self).covers(data + bytes@),
    {
        let ghost before = self.0;
        self.0 = update_register(self.0, bytes, IEEE);
        proof {
            assert forall|data: Seq<u8>| #[trigger] old(self).covers(data) implies self.covers(
                data + bytes@,
            ) by {
                lemma_register_concat(0xFFFF_FFFF, data, bytes@, IEEE);
            }
        }
    }

    /// The checksum of the bytes taken in.
    pub fn finish(self) -> (crc: u32)
        ensures
            forall|data: Seq<u8>| #[trigger] self.covers(data) ==> crc == crc32(data),
    {
        !self.0
    }
}

/// The checksum of a chunk: over its kind byte, then its payload.
pub open spec fn chunk_crc(kind: u8, payload: Seq<u8>) -> u32 {
    crc32(seq![kind] + payload)
}

/// The checksum of a chunk.
pub fn checksum_chunk(kind: u8, payload: &[u8]) -> (crc: u32)
    ensures
        crc == chunk_crc(kind, payload@),
{
    let mut crc = Crc32::new();
    let head: [u8; 1] = [kind];
    crc.update(&head);
    assert(head@ =~= seq![kind]);
    assert(Seq::<u8>::empty() + head@ =~= seq![kind]);
    assert(crc.covers(Seq::<u8>::empty() + head@));
    assert(crc.covers(seq![kind]));
    crc.update(payload);
    assert(crc.covers(seq![kind] + payload@));
    crc.finish()
}

/// The bytes left in the block of an absolute position.
pub open spec fn block_left(at: int) -> int {
    BLOCK - at % (BLOCK as int)
}

/// What stands at the front of bytes that start at an absolute position.
#[verifier::ext_equal]
pub enum Chunk {
    /// Nothing whole, or nothing to be trusted.
    Stop,
    /// Padding to the end of the block.
    Gap { size: int },
    /// A chunk of data.
    Data { kind: u8, payload: Seq<u8>, size: int },
}

/// The chunk at the front of `bytes`, which start at absolute position `at`.
///
/// Fewer than seven bytes left in a block are padding, and so is the rest of
/// a block behind an all-zero chunk header. A chunk whose length crosses the
/// block, or whose checksum fails, is not to be trusted.
pub open spec fn chunk_at(bytes: Seq<u8>, at: int) -> Chunk {
    let left = block_left(at);
    let gap = if left > bytes.len() {
        Chunk::Stop
    } else {
        Chunk::Gap { size: left }
    };
    if left < CHUNK_HEADER {
        gap
    } else if bytes.len() < CHUNK_HEADER {
        Chunk::Stop
    } else {
        let crc = le32(bytes.subrange(0, 4));
        let length = bytes[4] + bytes[5] * 0x100;
        let kind = bytes[6];
        if crc == 0 && length == 0 && kind == 0 {
            gap
        } else if length > left - CHUNK_HEADER || CHUNK_HEADER + length > bytes.len() {
            Chunk::Stop
        } else {
            let payload = bytes.subrange(7, 7 + length);
            if chunk_crc(kind, payload) != crc {
                Chunk::Stop
            } else {
                Chunk::Data { kind, payload, size: 7 + length }
            }
        }
    }
}

/// A record that its chunks have completed, and the record still under
/// assembly, behind one more chunk; nothing where the chunk is out of place.
pub open spec fn assembled(partial: Option<Seq<u8>>, kind: u8, payload: Seq<u8>) -> Option<
    (Option<Seq<u8>>, Option<Seq<u8>>),
> {
    if kind == 1 {
        Some((Some(payload), None))
    } else if kind == 2 {
        Some((None, Some(payload)))
    } else {
        match partial {
            Some(front) => if kind == 3 {
                Some((None, Some(front + payload)))
            } else if kind == 4 {
                Some((Some(front + payload), None))
            } else {
                None
            },
            None => None,
        }
    }
}

/// The records of `bytes`, which start at absolute position `at` with
/// `partial` under assembly, and the offset just past the last complete one
/// (`committed` so far).
pub open spec fn scan(bytes: Seq<u8>, at: int, partial: Option<Seq<u8>>, committed: int) -> (
    Seq<Seq<u8>>,
    int,
)
    decreases bytes.len(),
{
    match chunk_at(bytes, at) {
        Chunk::Stop => (Seq::empty(), committed),
        Chunk::Gap { size } => if 0 < size <= bytes.len() {
            scan(
                bytes.skip(size),
                at + size,
                partial,
                if partial is None {
                    at + size
                } else {
                    committed
                },
            )
        } else {
            (Seq::empty(), committed)
        },
        Chunk::Data { kind, payload, size } => match assembled(partial, kind, payload) {
            None => (Seq::empty(), committed),
            Some((done, open)) => if 0 < size <= bytes.len() {
                match done {
                    None => scan(bytes.skip(size), at + size, open, committed),
                    Some(record) => {
                        let (later, end) = scan(bytes.skip(size), at + size, open, at + size);
                        (seq![record] + later, end)
                    },
                }
            } else {
                (Seq::empty(), committed)
            },
        },
    }
}

/// What the byte vectors of a list hold.
pub open spec fn payloads(records: Seq<Vec<u8>>) -> Seq<Seq<u8>> {
    records.map_values(|record: Vec<u8>| record@)
}

/// What an optional byte vector holds.
pub open spec fn option_bytes(bytes: Option<Vec<u8>>) -> Option<Seq<u8>> {
    match bytes {
        Some(b) => Some(b@),
        None => None,
    }
}

/// Assembled record payloads from `buf`, which starts at absolute file
/// position `base` (a previously committed offset; the caller strips the
/// file header on first read). Returns the payloads and the absolute offset
/// just past the last *complete* record — a torn tail stays unconsumed, a
/// state to resume from.
#[verifier::rlimit(40)]
pub fn read_records(buf: &[u8], base: u64) -> (result: (Vec<Vec<u8>>, u64))
    requires
        base + buf.len() <= u64::MAX,
    ensures
        (payloads(result.0@), result.1 as int) == scan(
            buf@,
            base as int,
            None,
            base as int,
        ),
{
    let mut records: Vec<Vec<u8>> = Vec::new();
    let mut committed: u64 = base;
    let mut position: usize = 0;
    // A record under assembly from FIRST/MIDDLE chunks.
    let mut partial: Option<Vec<u8>> = None;
    let ghost expected = scan(buf@, base as int, None, base as int);
    assert(buf@.skip(0) =~= buf@);
    assert(payloads(records@) =~= Seq::<Seq<u8>>::empty());
    assert(payloads(records@) + expected.0 =~= expected.0);
    loop
        invariant
            position <= buf.len(),
            base + buf.len() <= u64::MAX,
            base <= committed <= base + position,
            expected == scan(buf@, base as int, None, base as int),
            ({
                let rest = scan(
                    buf@.skip(position as int),
                    base + position,
                    option_bytes(partial),
                    committed as int,
                );
                expected == (payloads(records@) + rest.0, rest.1)
            }),
        decreases buf.len() - position,
    {
        let ghost rest = buf@.skip(position as int);
        let ghost at = base + position;
        let ghost done = payloads(records@);
        assert(done + Seq::<Seq<u8>>::empty() =~= done);
        let in_block: u64 = (base + position as u64) % (BLOCK as u64);
        let left: usize = BLOCK - in_block as usize;
        assert(left == block_left(at));
        // A chunk never crosses a block boundary (relative to the file
        // start): fewer than 7 bytes left in a block is zero padding.
        let padding = left < CHUNK_HEADER;
        if !padding && buf.len() - position < CHUNK_HEADER {
            return (records, committed);
        }
        // An all-zero chunk header is preallocated space: skip to the next
        // block boundary too.
        let zeros = padding || (read_le32(buf, position) == 0 && buf[position + 4] == 0 && buf[position
            + 5] == 0 && buf[position + 6] == 0);
        assert(!padding ==> rest.subrange(0, 4) =~= buf@.subrange(position as int, position + 4));
        if zeros {
            if left > buf.len() - position {
                return (records, committed);
            }
            assert(chunk_at(rest, at) == Chunk::Gap { size: left as int });
            assert(rest.skip(left as int) =~= buf@.skip(position + left));
            position = position + left;
            // Padding carries no data; a complete record boundary here
            // moves the committed offset past it.
            if partial.is_none() {
                committed = base + position as u64;
            }
            continue ;
        }
        let stored_crc: u32 = read_le32(buf, position);
        let len: usize = buf[position + 4] as usize + buf[position + 5] as usize * 0x100;
        let kind: u8 = buf[position + 6];
        // A chunk claiming to cross a block: framing is untrustworthy from
        // here on; keep the valid prefix.
        if len > left - CHUNK_HEADER || CHUNK_HEADER + len > buf.len() - position {
            return (records, committed);
        }
        let start: usize = position + CHUNK_HEADER;
        let end: usize = start + len;
        let payload = vstd::slice::slice_subrange(buf, start, end);
        assert(payload@ =~= rest.subrange(7, 7 + len));
        // Plain CRC-32/IEEE over kind byte then payload — not the masked
        // CRC32C tfevents uses.
        if checksum_chunk(kind, payload) != stored_crc {
            return (records, committed);
        }
        assert(chunk_at(rest, at) == Chunk::Data { kind, payload: payload@, size: 7 + len });
        assert(rest.skip(7 + len) =~= buf@.skip(end as int));
        if kind == 1 {
            // FULL
            let record = copy_bytes(payload);
            records.push(record);
            partial = None;
            committed = base + end as u64;
            assert(payloads(records@) =~= done.push(payload@));
        } else if kind == 2 {
            // FIRST
            partial = Some(copy_bytes(payload));
        } else {
            let mut front: Vec<u8> = match partial {
                Some(front) => front,
                None => {
                    return (records, committed);
                },
            };
            if kind == 3 {
                // MIDDLE
                put_bytes(&mut front, payload);
                partial = Some(front);
            } else if kind == 4 {
                // LAST
                put_bytes(&mut front, payload);
                assert(payloads(records@.push(front)) =~= done.push(front@));
                records.push(front);
                partial = None;
                committed = base + end as u64;
            } else {
                return (records, committed);
            }
        }
        proof {
            let next = scan(
                buf@.skip(end as int),
                base + end,
                option_bytes(partial),
                committed as int,
            );
            if payloads(records@) != done {
                let record = payloads(records@).last();
                assert(done + (seq![record] + next.0) =~= done.push(record) + next.0);
            }
        }
        position = end;
    }
}

/// A whole chunk reads the same whatever follows it.
proof fn lemma_chunk_stable(bytes: Seq<u8>, more: Seq<u8>, at: int)
    ensures
        !(chunk_at(bytes, at) is Stop) ==> chunk_at(bytes + more, at) == chunk_at(bytes, at),
        chunk_at(bytes, at) matches Chunk::Gap { size } ==> 0 < size <= bytes.len(),
        chunk_at(bytes, at) matches Chunk::Data { size, .. } ==> 0 < size <= bytes.len(),
{
    let all = bytes + more;
    if bytes.len() >= 7 {
        assert(all.subrange(0, 4) =~= bytes.subrange(0, 4));
        let length = bytes[4] + bytes[5] * 0x100;
        if bytes.len() >= 7 + length {
            assert(all.subrange(7, 7 + length) =~= bytes.subrange(7, 7 + length));
        }
    }
}

/// Scanning on behind more bytes: what was read stays read, and the rest is
/// what scanning afresh from the committed offset gives.
proof fn lemma_scan_extends(
    whole: Seq<u8>,
    base: int,
    bytes: Seq<u8>,
    more: Seq<u8>,
    at: int,
    partial: Option<Seq<u8>>,
    committed: int,
)
    requires
        base <= committed <= at,
        at - base <= whole.len(),
        whole.skip(at - base) == bytes + more,
        scan(whole.skip(committed - base), committed, None, committed) == scan(
            bytes + more,
            at,
            partial,
            committed,
        ),
    ensures
        ({
            let (records, end) = scan(bytes, at, partial, committed);
            let (later, last) = scan(whole.skip(end - base), end, None, end);
            &&& committed <= end <= at + bytes.len()
            &&& scan(bytes + more, at, partial, committed) == (records + later, last)
        }),
    decreases bytes.len(),
{
    lemma_chunk_stable(bytes, more, at);
    let all = bytes + more;
    match chunk_at(bytes, at) {
        Chunk::Stop => {
            let (later, last) = scan(all, at, partial, committed);
            assert(Seq::<Seq<u8>>::empty() + later =~= later);
        },
        Chunk::Gap { size } => {
            assert(all.skip(size) =~= bytes.skip(size) + more);
            assert(whole.skip(at + size - base) =~= all.skip(size));
            let next = if partial is None {
                at + size
            } else {
                committed
            };
            lemma_scan_extends(whole, base, bytes.skip(size), more, at + size, partial, next);
        },
        Chunk::Data { kind, payload, size } => {
            assert(all.skip(size) =~= bytes.skip(size) + more);
            assert(whole.skip(at + size - base) =~= all.skip(size));
            match assembled(partial, kind, payload) {
                None => {
                    let (later, last) = scan(all, at, partial, committed);
                    assert(Seq::<Seq<u8>>::empty() + later =~= later);
                },
                Some((done, open)) => {
                    let next = if done is Some {
                        at + size
                    } else {
                        committed
                    };
                    lemma_scan_extends(whole, base, bytes.skip(size), more, at + size, open, next);
                    if let Some(record) = done {
                        let (records, end) = scan(bytes.skip(size), at + size, open, next);
                        let (later, last) = scan(whole.skip(end - base), end, None, end);
                        assert(seq![record] + (records + later) =~= (seq![record] + records)
                            + later);
                    }
                },
            }
        },
    }
}

/// A torn tail is a state to resume from: reading a prefix of a file, then
/// the grown file from the committed offset, gives the records and the
/// offset that reading the grown file at once gives.
pub proof fn law_read_resumes(bytes: Seq<u8>, more: Seq<u8>, base: int)
    requires
        base >= 0,
    ensures
        ({
            let (records, committed) = scan(bytes, base, None, base);
            let (later, end) = scan(
                (bytes + more).skip(committed - base),
                committed,
                None,
                committed,
            );
            &&& base <= committed <= base + bytes.len()
            &&& scan(bytes + more, base, None, base) == (records + later, end)
        }),
{
    let whole = bytes + more;
    assert(whole.skip(0) =~= whole);
    lemma_scan_extends(whole, base, bytes, more, base, None, base);
}

/// The bytes of one chunk.
pub open spec fn chunk_bytes(kind: u8, payload: Seq<u8>) -> Seq<u8> {
    crate::bytes::le32_bytes(chunk_crc(kind, payload)) + seq![
        (payload.len() % 0x100) as u8,
        (payload.len() / 0x100) as u8,
        kind,
    ] + payload
}

/// The padding written before a chunk at an absolute position: zeros where
/// fewer than seven bytes are left in the block.
pub open spec fn padding(at: int) -> Seq<u8> {
    if block_left(at) < CHUNK_HEADER {
        Seq::new(block_left(at) as nat, |i: int| 0u8)
    } else {
        Seq::empty()
    }
}

/// How much of a payload fits in the chunk written at an absolute position,
/// padding passed.
pub open spec fn room(at: int) -> int {
    block_left(at + padding(at).len()) - CHUNK_HEADER
}

/// The bytes of a record written at an absolute position: one chunk where it
/// fits, else chunks that end at block boundaries.
pub open spec fn record_chunks(at: int, payload: Seq<u8>, first: bool) -> Seq<u8>
    decreases
            payload.len(),
            if room(at) == 0 {
                1int
            } else {
                0
            },
{
    let pad = padding(at);
    let room = room(at);
    proof {
        lemma_next_room(at, payload);
    }
    if payload.len() <= room {
        pad + chunk_bytes(
            if first {
                1
            } else {
                4
            },
            payload,
        )
    } else {
        let front = pad + chunk_bytes(
            if first {
                2
            } else {
                3
            },
            payload.take(room),
        );
        front + record_chunks(at + front.len(), payload.skip(room), false)
    }
}

/// There is room for part of a payload in every chunk, or the next one
/// starts a block.
pub proof fn lemma_next_room(at: int, payload: Seq<u8>)
    ensures
        0 <= room(at) <= 32761,
        padding(at).len() < 7,
        room(at) < payload.len() ==> {
            let front = padding(at) + chunk_bytes(2, payload.take(room(at)));
            &&& front.len() == padding(at).len() + 7 + room(at)
            &&& (at + front.len()) % (BLOCK as int) == 0
            &&& room(at + front.len()) == 32761
        },
{
    let pad = padding(at).len() as int;
    assert(block_left(at) < 7 ==> (at + block_left(at)) % (BLOCK as int) == 0);
    assert(7 <= block_left(at + pad) <= BLOCK);
    if room(at) < payload.len() {
        crate::bytes::lemma_le32(0, crate::bytes::le32_bytes(0));
        let next = at + pad + 7 + room(at);
        assert(next == at + pad + block_left(at + pad));
        assert(next % (BLOCK as int) == 0);
        assert(padding(next).len() == 0);
    }
}

/// A written chunk reads back as it was written, whatever follows.
proof fn lemma_chunk_round_trip(kind: u8, payload: Seq<u8>, rest: Seq<u8>, at: int)
    requires
        kind != 0,
        CHUNK_HEADER + payload.len() <= block_left(at),
    ensures
        chunk_at(chunk_bytes(kind, payload) + rest, at) == (Chunk::Data {
            kind,
            payload,
            size: 7int + payload.len(),
        }),
        (chunk_bytes(kind, payload) + rest).skip(7 + payload.len() as int) == rest,
        chunk_bytes(kind, payload).len() == 7 + payload.len(),
{
    let crc = chunk_crc(kind, payload);
    let stored = crate::bytes::le32_bytes(crc);
    crate::bytes::lemma_le32(crc, stored);
    let all = chunk_bytes(kind, payload) + rest;
    let n = payload.len() as int;
    assert(n <= 32761);
    assert(all.subrange(0, 4) =~= stored);
    assert(all[4] == n % 0x100);
    assert(all[5] == n / 0x100);
    assert(all[6] == kind);
    assert(all[4] + all[5] * 0x100 == n);
    assert(all.subrange(7, 7 + n) =~= payload);
    assert(all.skip(7 + n) =~= rest);
}

/// Scanning one written chunk, then the rest.
proof fn lemma_scan_chunk(
    kind: u8,
    payload: Seq<u8>,
    rest: Seq<u8>,
    at: int,
    partial: Option<Seq<u8>>,
    committed: int,
)
    requires
        kind != 0,
        CHUNK_HEADER + payload.len() <= block_left(at),
        assembled(partial, kind, payload) is Some,
    ensures
        chunk_bytes(kind, payload).len() == 7 + payload.len(),
        ({
            let next = at + 7 + payload.len();
            let (done, open) = assembled(partial, kind, payload)->0;
            scan(chunk_bytes(kind, payload) + rest, at, partial, committed) == match done {
                None => scan(rest, next, open, committed),
                Some(record) => {
                    let (later, end) = scan(rest, next, open, next);
                    (seq![record] + later, end)
                },
            }
        }),
{
    lemma_chunk_round_trip(kind, payload, rest, at);
}

/// Padding reads as a gap to the end of the block.
proof fn lemma_padding_round_trip(at: int, rest: Seq<u8>, partial: Option<Seq<u8>>, committed: int)
    ensures
        scan(padding(at) + rest, at, partial, committed) == scan(
            rest,
            at + padding(at).len(),
            partial,
            if padding(at).len() > 0 && partial is None {
                at + padding(at).len()
            } else {
                committed
            },
        ),
{
    let pad = padding(at);
    if pad.len() > 0 {
        assert((pad + rest).skip(pad.len() as int) =~= rest);
        assert(chunk_at(pad + rest, at) == Chunk::Gap { size: pad.len() as int });
    } else {
        assert(pad + rest =~= rest);
    }
}

proof fn lemma_record_chunks_scan(
    at: int,
    payload: Seq<u8>,
    front: Option<Seq<u8>>,
    rest: Seq<u8>,
    committed: int,
)
    ensures
        ({
            let written = record_chunks(at, payload, front is None);
            let end = at + written.len();
            let (later, last) = scan(rest, end, None, end);
            let whole = match front {
                Some(f) => f + payload,
                None => payload,
            };
            scan(written + rest, at, front, committed) == (seq![whole] + later, last)
        }),
    decreases
            payload.len(),
            if room(at) == 0 {
                1int
            } else {
                0
            },
            1int,
{
    let first = front is None;
    let pad = padding(at);
    let n = room(at);
    let written = record_chunks(at, payload, first);
    let start = at + pad.len();
    let passed = if pad.len() > 0 && first {
        start
    } else {
        committed
    };
    lemma_next_room(at, payload);
    if payload.len() <= n {
        let kind: u8 = if first {
            1
        } else {
            4
        };
        let chunk = chunk_bytes(kind, payload);
        assert(written == pad + chunk);
        assert(written + rest =~= pad + (chunk + rest));
        lemma_padding_round_trip(at, chunk + rest, front, committed);
        lemma_scan_chunk(kind, payload, rest, start, front, passed);
    } else {
        let kind: u8 = if first {
            2
        } else {
            3
        };
        let part = payload.take(n);
        let grown = match front {
            Some(f) => f + part,
            None => part,
        };
        lemma_record_chunks_split(at, payload, front, rest, committed, grown);
    }
}

/// The first chunk of a record that does not fit in one.
#[verifier::rlimit(40)]
proof fn lemma_record_chunks_split(
    at: int,
    payload: Seq<u8>,
    front: Option<Seq<u8>>,
    rest: Seq<u8>,
    committed: int,
    grown: Seq<u8>,
)
    requires
        payload.len() > room(at),
        grown == match front {
            Some(f) => f + payload.take(room(at)),
            None => payload.take(room(at)),
        },
    ensures
        ({
            let written = record_chunks(at, payload, front is None);
            let end = at + written.len();
            let (later, last) = scan(rest, end, None, end);
            let whole = match front {
                Some(f) => f + payload,
                None => payload,
            };
            scan(written + rest, at, front, committed) == (seq![whole] + later, last)
        }),
    decreases
            payload.len(),
            if room(at) == 0 {
                1int
            } else {
                0
            },
            0int,
{
    let first = front is None;
    let pad = padding(at);
    let n = room(at);
    let written = record_chunks(at, payload, first);
    let start = at + pad.len();
    let passed = if pad.len() > 0 && first {
        start
    } else {
        committed
    };
    let kind: u8 = if first {
        2
    } else {
        3
    };
    lemma_next_room(at, payload);
    let part = payload.take(n);
    let chunk = chunk_bytes(kind, part);
    let next = start + 7 + n;
    let later = record_chunks(next, payload.skip(n), false);
    lemma_scan_chunk(kind, part, later + rest, start, front, passed);
    assert(written == pad + chunk + later);
    assert(written + rest =~= pad + (chunk + (later + rest)));
    lemma_padding_round_trip(at, chunk + (later + rest), front, committed);
    lemma_record_chunks_scan(next, payload.skip(n), Some(grown), rest, passed);
    assert(part + payload.skip(n) =~= payload);
    let whole = match front {
        Some(f) => f + payload,
        None => payload,
    };
    assert(grown + payload.skip(n) =~= whole);
    assert(next + later.len() == at + written.len());
}

/// A record written at any position of a file reads back as that record,
/// and reading goes on right behind it with the offset committed there.
pub proof fn law_record_reads_back(at: int, payload: Seq<u8>, rest: Seq<u8>, committed: int)
    ensures
        ({
            let written = record_chunks(at, payload, true);
            let end = at + written.len();
            let (later, last) = scan(rest, end, None, end);
            scan(written + rest, at, None, committed) == (seq![payload] + later, last)
        }),
{
    lemma_record_chunks_scan(at, payload, None, rest, committed);
}

/// The bytes of records written one behind the other from an absolute
/// position on.
pub open spec fn records_bytes(at: int, records: Seq<Seq<u8>>) -> Seq<u8>
    decreases records.len(),
{
    if records.len() == 0 {
        Seq::empty()
    } else {
        let front = records_bytes(at, records.drop_last());
        front + record_chunks(at + front.len(), records.last(), true)
    }
}

/// Every record of a written file reads back, in order, and the committed
/// offset is the end of the file.
pub proof fn law_records_read_back(at: int, records: Seq<Seq<u8>>, rest: Seq<u8>, committed: int)
    requires
        records.len() > 0 || committed == at,
    ensures
        ({
            let written = records_bytes(at, records);
            let end = at + written.len();
            let (later, last) = scan(rest, end, None, end);
            scan(written + rest, at, None, committed) == (records + later, last)
        }),
    decreases records.len(),
{
    let written = records_bytes(at, records);
    let end = at + written.len();
    let (later, last) = scan(rest, end, None, end);
    if records.len() == 0 {
        assert(written + rest =~= rest);
        assert(records + later =~= later);
    } else {
        let init = records.drop_last();
        let front = records_bytes(at, init);
        let tail = record_chunks(at + front.len(), records.last(), true);
        assert(written + rest =~= front + (tail + rest));
        law_record_reads_back(at + front.len(), records.last(), rest, at + front.len());
        if init.len() > 0 {
            law_records_read_back(at, init, tail + rest, committed);
        } else {
            assert(front =~= Seq::<u8>::empty());
            assert(front + (tail + rest) =~= tail + rest);
            law_record_reads_back(at, records.last(), rest, committed);
        }
        assert(init + (seq![records.last()] + later) =~= records + later);
        assert(init.len() == 0 ==> init + (seq![records.last()] + later) =~= seq![records.last()]
            + later);
    }
}

/// A chunk cut short is no chunk.
proof fn lemma_torn_chunk(kind: u8, payload: Seq<u8>, cut: int, at: int)
    requires
        kind != 0,
        CHUNK_HEADER + payload.len() <= block_left(at),
        0 <= cut < chunk_bytes(kind, payload).len(),
    ensures
        chunk_at(chunk_bytes(kind, payload).take(cut), at) is Stop,
{
    let crc = chunk_crc(kind, payload);
    let stored = crate::bytes::le32_bytes(crc);
    crate::bytes::lemma_le32(crc, stored);
    let chunk = chunk_bytes(kind, payload);
    let n = payload.len() as int;
    if cut >= 7 {
        let torn = chunk.take(cut);
        assert(torn[4] == chunk[4] && torn[5] == chunk[5] && torn[6] == chunk[6]);
        assert(chunk[4] == n % 0x100);
        assert(chunk[5] == n / 0x100);
        assert(chunk[6] == kind);
        assert(torn[4] + torn[5] * 0x100 == n);
    }
}

/// How far a torn record at an absolute position is committed: to behind the
/// padding before it, where all of that is there.
pub open spec fn padding_passed(at: int, cut: int, committed: int) -> int {
    if 0 < padding(at).len() <= cut {
        at + padding(at).len()
    } else {
        committed
    }
}

proof fn lemma_torn_chunks(
    at: int,
    payload: Seq<u8>,
    front: Option<Seq<u8>>,
    cut: int,
    committed: int,
)
    requires
        0 <= cut < record_chunks(at, payload, front is None).len(),
    ensures
        scan(record_chunks(at, payload, front is None).take(cut), at, front, committed) == (
            Seq::<Seq<u8>>::empty(),
            if front is None {
                padding_passed(at, cut, committed)
            } else {
                committed
            },
        ),
    decreases
            payload.len(),
            if room(at) == 0 {
                1int
            } else {
                0
            },
{
    let first = front is None;
    let pad = padding(at);
    let n = room(at);
    let written = record_chunks(at, payload, first);
    let torn = written.take(cut);
    let start = at + pad.len();
    lemma_next_room(at, payload);
    let split = payload.len() > n;
    let part = if split {
        payload.take(n)
    } else {
        payload
    };
    let kind: u8 = if split {
        if first {
            2
        } else {
            3
        }
    } else {
        if first {
            1
        } else {
            4
        }
    };
    let chunk = chunk_bytes(kind, part);
    let next = start + 7 + n;
    let later = if split {
        record_chunks(next, payload.skip(n), false)
    } else {
        Seq::empty()
    };
    lemma_chunk_round_trip(kind, part, Seq::empty(), start);
    assert(written =~= pad + (chunk + later));
    if cut < pad.len() {
        assert(torn.len() < block_left(at));
    } else {
        let rest = (chunk + later).take(cut - pad.len());
        let passed = if pad.len() > 0 && first {
            start
        } else {
            committed
        };
        assert(torn =~= pad + rest);
        lemma_padding_round_trip(at, rest, front, committed);
        if rest.len() < chunk.len() {
            assert(rest =~= chunk.take(rest.len() as int));
            lemma_torn_chunk(kind, part, rest.len() as int, start);
        } else {
            let tail = later.take(rest.len() - chunk.len());
            assert(rest =~= chunk + tail);
            let grown = match front {
                Some(f) => f + part,
                None => part,
            };
            lemma_scan_chunk(kind, part, tail, start, front, passed);
            lemma_torn_chunks(
                next,
                payload.skip(n),
                Some(grown),
                rest.len() - chunk.len(),
                passed,
            );
        }
    }
}

/// A torn tail gives nothing: of whole records and the bytes of one more that
/// is cut short, wherever it is cut, exactly the whole ones are read, and the
/// offset is committed behind the last of them (or behind the padding that
/// fills its block).
pub proof fn law_torn_log_record_is_unread(
    at: int,
    records: Seq<Seq<u8>>,
    payload: Seq<u8>,
    cut: int,
)
    requires
        ({
            let end = at + records_bytes(at, records).len();
            0 <= cut < record_chunks(end, payload, true).len()
        }),
    ensures
        ({
            let written = records_bytes(at, records);
            let end = at + written.len();
            let torn = record_chunks(end, payload, true).take(cut);
            scan(written + torn, at, None, at) == (records, padding_passed(end, cut, end))
        }),
{
    let end = at + records_bytes(at, records).len();
    let torn = record_chunks(end, payload, true).take(cut);
    lemma_torn_chunks(end, payload, None, cut, end);
    law_records_read_back(at, records, torn, at);
    assert(records + Seq::<Seq<u8>>::empty() =~= records);
}

} // verus!
