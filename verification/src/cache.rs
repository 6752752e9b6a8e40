//! The summary cache: instant tables over hundreds of runs without
//! re-reading gigabytes on startup.
//!
//! The cache of a project maps each event file's `(path, size, mtime)` to its
//! run's serialized summaries and the final committed byte offset. On a warm
//! start an unchanged logdir is a metadata walk; a grown file resumes from
//! its cached offset; a shrunk or replaced file invalidates its whole run.
//!
//! The cache is disposable by design (observer principle): the format is
//! versioned by magic, any parse surprise discards the whole cache, and
//! deleting it is always safe. The field set is small and frozen here.
use vstd::prelude::*;

use crate::bytes::{
    le32, le32_bytes, le64, le64_bytes, put_bytes, put_le32, put_le64, read_le32, read_le64,
};
use crate::names::NameMap;
use crate::run::{Run, Stamp};
use crate::series::{PointStamp, SeriesClass};
use crate::text::{decode_strict, strict_text};

verus! {

/// The magic in front of a cache, which names its version.
pub open spec fn magic() -> Seq<u8> {
    seq![0x56u8, 0x54, 0x56, 0x43, 0x41, 0x43, 0x48, 0x31]
}

/// A cached file's identity and resume state.
pub struct CachedFile {
    /// The name of the run.
    pub run: String,
    /// The file's size.
    pub size: u64,
    /// When the file was modified.
    pub mtime: Stamp,
    /// The committed offset.
    pub offset: u64,
}

/// What a [`CachedFile`] holds.
#[verifier::ext_equal]
pub struct CachedModel {
    pub run: Seq<char>,
    pub size: u64,
    pub mtime: Stamp,
    pub offset: u64,
}

impl View for CachedFile {
    type V = CachedModel;

    open spec fn view(&self) -> CachedModel {
        CachedModel { run: self.run@, size: self.size, mtime: self.mtime, offset: self.offset }
    }
}

/// Everything a warm start needs.
pub struct CachedProject {
    /// The runs.
    pub runs: NameMap<Run>,
    /// The files.
    pub files: NameMap<CachedFile>,
}

/// One byte of a 64-bit FNV-1a hash.
pub open spec fn fnv_step(hash: u64, byte: u8) -> u64 {
    (((hash ^ (byte as u64)) * 0x0000_0100_0000_01B3) % 0x1_0000_0000_0000_0000) as u64
}

/// The 64-bit FNV-1a hash of bytes.
pub open spec fn fnv_hash(bytes: Seq<u8>) -> u64
    decreases bytes.len(),
{
    if bytes.len() == 0 {
        0xcbf2_9ce4_8422_2325
    } else {
        fnv_step(fnv_hash(bytes.drop_last()), bytes.last())
    }
}

/// The 64-bit FNV-1a hash of bytes.
pub fn fnv1a(bytes: &[u8]) -> (hash: u64)
    ensures
        hash == fnv_hash(bytes@),
{
    let mut hash: u64 = 0xcbf2_9ce4_8422_2325;
    let mut i: usize = 0;
    while i < bytes.len()
        invariant
            i <= bytes@.len(),
            hash == fnv_hash(bytes@.take(i as int)),
        decreases bytes@.len() - i,
    {
        proof {
            assert(bytes@.take(i + 1).drop_last() =~= bytes@.take(i as int));
            assert(bytes@.take(i + 1).last() == bytes@[i as int]);
        }
        let mixed: u64 = hash ^ (bytes[i] as u64);
        hash = mixed.wrapping_mul(0x0000_0100_0000_01B3);
        i += 1;
    }
    assert(bytes@.take(i as int) =~= bytes@);
    hash
}

/// A hexadecimal digit.
pub open spec fn hex_digit(n: int) -> char {
    if n < 10 {
        ('0' as int + n) as char
    } else {
        ('a' as int + n - 10) as char
    }
}

/// The lowest `digits` hexadecimal digits of a number, padded with zeros.
pub open spec fn hex_text(n: int, digits: nat) -> Seq<char>
    decreases digits,
{
    if digits == 0 {
        Seq::empty()
    } else {
        hex_text(n / 16, (digits - 1) as nat).push(hex_digit(n % 16))
    }
}

/// A hexadecimal digit.
fn digit_of(n: u64) -> (c: char)
    requires
        n < 16,
    ensures
        c == hex_digit(n as int),
{
    let value: u8 = n as u8;
    if n < 10 {
        (0x30 + value) as char
    } else {
        (0x61 + (value - 10)) as char
    }
}

/// The lowest `digits` hexadecimal digits of a number.
pub fn hex(n: u64, digits: usize) -> (text: String)
    ensures
        text@ == hex_text(n as int, digits as nat),
    decreases digits,
{
    if digits == 0 {
        return String::new();
    }
    let mut text = hex(n / 16, digits - 1);
    text.push(digit_of(n % 16));
    text
}

/// The name of the cache file of a project, given the bytes of its absolute
/// root.
pub fn cache_name(root: &[u8]) -> (name: String)
    ensures
        name@ == hex_text(fnv_hash(root@) as int, 16) + ".vcache"@,
{
    let mut name = hex(fnv1a(root), 16);
    crate::text::push_text(&mut name, ".vcache");
    name
}

/// The code of a class.
pub open spec fn code_of(class: SeriesClass) -> u8 {
    match class {
        SeriesClass::Scalar => 0,
        SeriesClass::Histogram => 1,
        SeriesClass::Image => 2,
        SeriesClass::Text => 3,
        SeriesClass::Unknown => 4,
    }
}

/// The class of a code, if it is one.
pub open spec fn class_of_code(code: u8) -> Option<SeriesClass> {
    if code == 0 {
        Some(SeriesClass::Scalar)
    } else if code == 1 {
        Some(SeriesClass::Histogram)
    } else if code == 2 {
        Some(SeriesClass::Image)
    } else if code == 3 {
        Some(SeriesClass::Text)
    } else if code == 4 {
        Some(SeriesClass::Unknown)
    } else {
        None
    }
}

/// The code of a class gives the class back, and no other code does.
pub proof fn law_class_codes(class: SeriesClass, code: u8)
    ensures
        class_of_code(code_of(class)) == Some(class),
        class_of_code(code) == Some(class) <==> code == code_of(class),
{
}

/// The code of a class.
pub fn class_code(class: SeriesClass) -> (code: u8)
    ensures
        code == code_of(class),
{
    match class {
        SeriesClass::Scalar => 0,
        SeriesClass::Histogram => 1,
        SeriesClass::Image => 2,
        SeriesClass::Text => 3,
        SeriesClass::Unknown => 4,
    }
}

/// The class of a code, if it is one.
pub fn class_from(code: u8) -> (class: Option<SeriesClass>)
    ensures
        class == class_of_code(code),
{
    match code {
        0 => Some(SeriesClass::Scalar),
        1 => Some(SeriesClass::Histogram),
        2 => Some(SeriesClass::Image),
        3 => Some(SeriesClass::Text),
        4 => Some(SeriesClass::Unknown),
        _ => None,
    }
}

/// The front of bytes, and the rest.
pub open spec fn take_of(bytes: Seq<u8>, len: nat) -> Option<(Seq<u8>, Seq<u8>)> {
    if bytes.len() < len {
        None
    } else {
        Some((bytes.take(len as int), bytes.skip(len as int)))
    }
}

/// One byte, and the rest.
pub open spec fn byte_of(bytes: Seq<u8>) -> Option<(u8, Seq<u8>)> {
    if bytes.len() < 1 {
        None
    } else {
        Some((bytes[0], bytes.skip(1)))
    }
}

/// A 32-bit number, and the rest.
pub open spec fn u32_of(bytes: Seq<u8>) -> Option<(u32, Seq<u8>)> {
    if bytes.len() < 4 {
        None
    } else {
        Some((le32(bytes.take(4)) as u32, bytes.skip(4)))
    }
}

/// A 64-bit number, and the rest.
pub open spec fn u64_of(bytes: Seq<u8>) -> Option<(u64, Seq<u8>)> {
    if bytes.len() < 8 {
        None
    } else {
        Some((le64(bytes.take(8)) as u64, bytes.skip(8)))
    }
}

/// An optional number behind its marker, and the rest.
pub open spec fn option_of(bytes: Seq<u8>) -> Option<(Option<u64>, Seq<u8>)> {
    match byte_of(bytes) {
        None => None,
        Some((mark, rest)) => if mark == 0 {
            Some((None, rest))
        } else if mark == 1 {
            match u64_of(rest) {
                None => None,
                Some((value, rest)) => Some((Some(value), rest)),
            }
        } else {
            None
        },
    }
}

/// A text behind its length, and the rest.
pub open spec fn string_of(bytes: Seq<u8>) -> Option<(Seq<char>, Seq<u8>)> {
    match u32_of(bytes) {
        None => None,
        Some((len, rest)) => match take_of(rest, len as nat) {
            None => None,
            Some((front, rest)) => match strict_text(front) {
                None => None,
                Some(text) => Some((text, rest)),
            },
        },
    }
}

/// The moment of seconds and nanoseconds, if system time can hold it.
pub open spec fn moment(secs: u64, nanos: u32) -> Option<Stamp> {
    if secs + nanos / 1_000_000_000 > i64::MAX {
        None
    } else {
        Some(
            Stamp {
                secs: (secs + nanos / 1_000_000_000) as u64,
                nanos: (nanos % 1_000_000_000) as u32,
            },
        )
    }
}

/// A modification time, and the rest.
pub open spec fn mtime_of(bytes: Seq<u8>) -> Option<(Stamp, Seq<u8>)> {
    match u64_of(bytes) {
        None => None,
        Some((secs, rest)) => match u32_of(rest) {
            None => None,
            Some((nanos, rest)) => match moment(secs, nanos) {
                None => None,
                Some(stamp) => Some((stamp, rest)),
            },
        },
    }
}

/// A point, and the rest.
pub open spec fn point_of(bytes: Seq<u8>) -> Option<(PointStamp, Seq<u8>)> {
    match u64_of(bytes) {
        None => None,
        Some((step, rest)) => match u64_of(rest) {
            None => None,
            Some((wall, rest)) => match u64_of(rest) {
                None => None,
                Some((value, rest)) => Some(
                    (PointStamp { step: step as i64, wall, value }, rest),
                ),
            },
        },
    }
}

/// Reads a cache from front to back.
pub struct Cursor<'a> {
    buf: &'a [u8],
    pos: usize,
}

impl<'a> Cursor<'a> {
    /// What was not read yet.
    pub closed spec fn rest(self) -> Seq<u8> {
        self.buf@.skip(self.pos as int)
    }

    /// The position is inside the bytes.
    pub closed spec fn wf(self) -> bool {
        self.pos <= self.buf@.len()
    }

    /// A cursor at the start of bytes.
    pub fn new(buf: &'a [u8]) -> (cursor: Cursor<'a>)
        ensures
            cursor.wf(),
            cursor.rest() == buf@,
    {
        let cursor = Cursor { buf, pos: 0 };
        assert(cursor.rest() =~= buf@);
        cursor
    }

    /// Whether everything was read.
    pub fn at_end(&self) -> (end: bool)
        requires
            self.wf(),
        ensures
            end == (self.rest().len() == 0),
    {
        self.pos == self.buf.len()
    }

    /// The next `len` bytes.
    pub fn take(&mut self, len: usize) -> (bytes: Option<&'a [u8]>)
        requires
            old(self).wf(),
        ensures
            final(self).wf(),
            match bytes {
                Some(b) => take_of(old(self).rest(), len as nat) == Some(
                    (b@, final(self).rest()),
                ),
                None => take_of(old(self).rest(), len as nat) is None,
            },
    {
        if len > self.buf.len() - self.pos {
            return None;
        }
        let bytes = vstd::slice::slice_subrange(self.buf, self.pos, self.pos + len);
        proof {
            assert(bytes@ =~= self.rest().take(len as int));
            assert(self.rest().skip(len as int) =~= self.buf@.skip(self.pos + len));
        }
        self.pos = self.pos + len;
        Some(bytes)
    }

    /// The next byte.
    pub fn byte(&mut self) -> (byte: Option<u8>)
        requires
            old(self).wf(),
        ensures
            final(self).wf(),
            match byte {
                Some(b) => byte_of(old(self).rest()) == Some((b, final(self).rest())),
                None => byte_of(old(self).rest()) is None,
            },
    {
        let bytes = self.take(1)?;
        Some(bytes[0])
    }

    /// The next 32-bit number.
    pub fn u32(&mut self) -> (value: Option<u32>)
        requires
            old(self).wf(),
        ensures
            final(self).wf(),
            match value {
                Some(v) => u32_of(old(self).rest()) == Some((v, final(self).rest())),
                None => u32_of(old(self).rest()) is None,
            },
    {
        let bytes = self.take(4)?;
        assert(bytes@.subrange(0, 4) =~= bytes@);
        Some(read_le32(bytes, 0))
    }

    /// The next 64-bit number.
    pub fn u64(&mut self) -> (value: Option<u64>)
        requires
            old(self).wf(),
        ensures
            final(self).wf(),
            match value {
                Some(v) => u64_of(old(self).rest()) == Some((v, final(self).rest())),
                None => u64_of(old(self).rest()) is None,
            },
    {
        let bytes = self.take(8)?;
        assert(bytes@.subrange(0, 8) =~= bytes@);
        Some(read_le64(bytes, 0))
    }

    /// The next optional number.
    pub fn opt_u64(&mut self) -> (value: Option<Option<u64>>)
        requires
            old(self).wf(),
        ensures
            final(self).wf(),
            match value {
                Some(v) => option_of(old(self).rest()) == Some((v, final(self).rest())),
                None => option_of(old(self).rest()) is None,
            },
    {
        match self.byte()? {
            0 => Some(None),
            1 => Some(Some(self.u64()?)),
            _ => None,
        }
    }

    /// The next text.
    pub fn string(&mut self) -> (text: Option<String>)
        requires
            old(self).wf(),
        ensures
            final(self).wf(),
            match text {
                Some(t) => string_of(old(self).rest()) == Some((t@, final(self).rest())),
                None => string_of(old(self).rest()) is None,
            },
    {
        let len: usize = self.u32()? as usize;
        let bytes = self.take(len)?;
        decode_strict(bytes)
    }

    /// The next modification time.
    pub fn mtime(&mut self) -> (mtime: Option<Stamp>)
        requires
            old(self).wf(),
        ensures
            final(self).wf(),
            match mtime {
                Some(m) => mtime_of(old(self).rest()) == Some((m, final(self).rest())),
                None => mtime_of(old(self).rest()) is None,
            },
    {
        let secs: u64 = self.u64()?;
        let nanos: u32 = self.u32()?;
        let carry: u64 = (nanos / 1_000_000_000) as u64;
        if secs > i64::MAX as u64 - carry {
            return None;
        }
        Some(Stamp { secs: secs + carry, nanos: nanos % 1_000_000_000 })
    }

    /// The next point.
    pub fn point(&mut self) -> (point: Option<PointStamp>)
        requires
            old(self).wf(),
        ensures
            final(self).wf(),
            match point {
                Some(p) => point_of(old(self).rest()) == Some((p, final(self).rest())),
                None => point_of(old(self).rest()) is None,
            },
    {
        let step: u64 = self.u64()?;
        let wall: u64 = self.u64()?;
        let value: u64 = self.u64()?;
        Some(PointStamp { step: step as i64, wall, value })
    }
}

/// Appends a 32-bit number.
pub fn put_u32(out: &mut Vec<u8>, value: u32)
    ensures
        final(out)@ == old(out)@ + le32_bytes(value),
{
    put_le32(out, value);
}

/// Appends a 64-bit number.
pub fn put_u64(out: &mut Vec<u8>, value: u64)
    ensures
        final(out)@ == old(out)@ + le64_bytes(value),
{
    put_le64(out, value);
}

/// The bytes of an optional number.
pub open spec fn option_bytes(value: Option<u64>) -> Seq<u8> {
    match value {
        Some(v) => seq![1u8] + le64_bytes(v),
        None => seq![0u8],
    }
}

/// Appends an optional number.
pub fn put_opt_u64(out: &mut Vec<u8>, value: Option<u64>)
    ensures
        final(out)@ == old(out)@ + option_bytes(value),
{
    match value {
        Some(v) => {
            out.push(1);
            put_u64(out, v);
        },
        None => {
            out.push(0);
        },
    }
    assert(out@ =~= old(out)@ + option_bytes(value));
}

/// The bytes of a text.
pub open spec fn text_bytes(text: Seq<char>) -> Seq<u8> {
    let bytes = vstd::utf8::encode_utf8(text);
    le32_bytes(bytes.len() as u32) + bytes
}

/// Appends a text.
pub fn put_str(out: &mut Vec<u8>, value: &str)
    ensures
        final(out)@ == old(out)@ + text_bytes(value@),
{
    let bytes = value.as_bytes();
    put_u32(out, bytes.len() as u32);
    put_bytes(out, bytes);
    assert(out@ =~= old(out)@ + text_bytes(value@));
}

/// The bytes of a modification time.
pub open spec fn mtime_bytes(mtime: Stamp) -> Seq<u8> {
    le64_bytes(mtime.secs) + le32_bytes(mtime.nanos)
}

/// Appends a modification time.
pub fn put_mtime(out: &mut Vec<u8>, mtime: Stamp)
    ensures
        final(out)@ == old(out)@ + mtime_bytes(mtime),
{
    put_u64(out, mtime.secs);
    put_u32(out, mtime.nanos);
    assert(out@ =~= old(out)@ + mtime_bytes(mtime));
}

/// The bytes of a point.
pub open spec fn point_bytes(point: PointStamp) -> Seq<u8> {
    le64_bytes(point.step as u64) + (le64_bytes(point.wall) + le64_bytes(point.value))
}

/// Appends a point.
pub fn put_point(out: &mut Vec<u8>, point: PointStamp)
    ensures
        final(out)@ == old(out)@ + point_bytes(point),
{
    put_u64(out, point.step as u64);
    put_u64(out, point.wall);
    put_u64(out, point.value);
    assert(out@ =~= old(out)@ + point_bytes(point));
}

} // verus!
