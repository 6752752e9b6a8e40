//! Minimal protobuf wire-format reading: varints, field keys, and the four
//! wire types the tfevents protos use. No schema, no codegen — just enough to
//! walk a message and pull out the fields the decoder knows, skipping the
//! rest (forward compatibility comes free with the wire format).
use vstd::prelude::*;

use crate::bytes::{le32, le64, read_le32, read_le64};

verus! {

/// A protobuf payload could not be decoded as a valid wire-format message.
///
/// This means either genuine corruption (distinguish by validating the record
/// checksum) or a proto feature outside this crate's minimal decoder.
#[derive(Clone, Copy, PartialEq, Eq, Structural, Debug)]
pub enum DecodeError {
    /// The buffer ended inside a varint, fixed-width value, or
    /// length-delimited field.
    Truncated,
    /// A varint ran past the maximum encoded length of ten bytes.
    VarintTooLong,
    /// A field key carried a wire type this decoder does not handle
    /// (including the long-deprecated group types).
    UnsupportedWireType(u8),
    /// A field key had field number zero, which is invalid.
    InvalidFieldNumber,
    /// A packed numeric field's byte length was not a multiple of the
    /// element width.
    MisalignedPackedField,
}

/// One field's value, tagged by wire type.
#[derive(Clone, Copy, Debug)]
pub enum WireValue<'a> {
    /// Wire type 0: int32/int64/uint/bool/enum.
    Varint(u64),
    /// Wire type 1: fixed64/double.
    Fixed64(u64),
    /// Wire type 2: strings, bytes, sub-messages, packed repeated numerics.
    Bytes(&'a [u8]),
    /// Wire type 5: fixed32/float.
    Fixed32(u32),
}

/// The value of one field.
#[verifier::ext_equal]
pub enum Field {
    Varint(u64),
    Fixed64(u64),
    Bytes(Seq<u8>),
    Fixed32(u32),
}

impl Field {
    /// The bytes of a length-delimited field.
    pub open spec fn bytes(self) -> Option<Seq<u8>> {
        match self {
            Field::Bytes(b) => Some(b),
            _ => None,
        }
    }

    /// The number of a varint field.
    pub open spec fn varint(self) -> Option<u64> {
        match self {
            Field::Varint(v) => Some(v),
            _ => None,
        }
    }

    /// The number of a varint field, read in two's complement.
    pub open spec fn int64(self) -> Option<i64> {
        match self {
            Field::Varint(v) => Some(v as i64),
            _ => None,
        }
    }

    /// The bit pattern of a double field.
    pub open spec fn double(self) -> Option<u64> {
        match self {
            Field::Fixed64(v) => Some(v),
            _ => None,
        }
    }

    /// The bit pattern of a float field.
    pub open spec fn float(self) -> Option<u32> {
        match self {
            Field::Fixed32(v) => Some(v),
            _ => None,
        }
    }
}

impl<'a> View for WireValue<'a> {
    type V = Field;

    open spec fn view(&self) -> Field {
        match *self {
            WireValue::Varint(v) => Field::Varint(v),
            WireValue::Fixed64(v) => Field::Fixed64(v),
            WireValue::Bytes(b) => Field::Bytes(b@),
            WireValue::Fixed32(v) => Field::Fixed32(v),
        }
    }
}

impl<'a> WireValue<'a> {
    /// The value as a varint, if that is its wire type.
    pub fn varint(self) -> (result: Option<u64>)
        ensures
            result == self@.varint(),
    {
        match self {
            WireValue::Varint(v) => Some(v),
            _ => None,
        }
    }

    /// The value as length-delimited bytes, if that is its wire type.
    pub fn bytes(self) -> (result: Option<&'a [u8]>)
        ensures
            match result {
                Some(b) => self@.bytes() == Some(b@),
                None => self@.bytes() is None,
            },
    {
        match self {
            WireValue::Bytes(b) => Some(b),
            _ => None,
        }
    }

    /// The bit pattern of the value as a double, if it is a fixed64.
    pub fn double(self) -> (result: Option<u64>)
        ensures
            result == self@.double(),
    {
        match self {
            WireValue::Fixed64(v) => Some(v),
            _ => None,
        }
    }

    /// The bit pattern of the value as a float, if it is a fixed32.
    pub fn float(self) -> (result: Option<u32>)
        ensures
            result == self@.float(),
    {
        match self {
            WireValue::Fixed32(v) => Some(v),
            _ => None,
        }
    }

    /// The value as an `i64` (standard two's-complement varint encoding).
    pub fn int64(self) -> (result: Option<i64>)
        ensures
            result == self@.int64(),
    {
        match self {
            WireValue::Varint(v) => Some(v as i64),
            _ => None,
        }
    }
}

/// The varint at the front of `s`, its first byte being the `index`-th of the
/// encoding: the number and the count of bytes it took.
///
/// Seven bits a byte, least significant first, while the top bit is set. The
/// tenth byte may only contribute the final bit.
pub open spec fn varint_from(s: Seq<u8>, index: nat) -> Result<(nat, nat), DecodeError>
    decreases s.len(),
{
    if index >= 10 {
        Err(DecodeError::VarintTooLong)
    } else if s.len() == 0 {
        Err(DecodeError::Truncated)
    } else if index == 9 && s[0] % 128 > 1 {
        Err(DecodeError::VarintTooLong)
    } else if s[0] < 128 {
        Ok((s[0] as nat, 1))
    } else {
        match varint_from(s.skip(1), index + 1) {
            Ok((high, count)) => Ok(((s[0] % 128 + 128 * high) as nat, count + 1)),
            Err(error) => Err(error),
        }
    }
}

/// The varint at the front of `s`: its number and the bytes behind it.
pub open spec fn read_varint(s: Seq<u8>) -> Result<(u64, Seq<u8>), DecodeError> {
    match varint_from(s, 0) {
        Ok((value, count)) => Ok((value as u64, s.skip(count as int))),
        Err(error) => Err(error),
    }
}

/// The `count` bytes at the front of `s` and the bytes behind them.
pub open spec fn read_bytes(s: Seq<u8>, count: int) -> Result<(Seq<u8>, Seq<u8>), DecodeError> {
    if count > s.len() {
        Err(DecodeError::Truncated)
    } else {
        Ok((s.take(count), s.skip(count)))
    }
}

/// The value at the front of `s` under a wire type, and the bytes behind it.
pub open spec fn read_value(s: Seq<u8>, wire_type: int) -> Result<
    (Field, Seq<u8>),
    DecodeError,
> {
    if wire_type == 0 {
        match read_varint(s) {
            Ok((v, rest)) => Ok((Field::Varint(v), rest)),
            Err(error) => Err(error),
        }
    } else if wire_type == 1 {
        match read_bytes(s, 8) {
            Ok((b, rest)) => Ok((Field::Fixed64(le64(b) as u64), rest)),
            Err(error) => Err(error),
        }
    } else if wire_type == 2 {
        match read_varint(s) {
            Ok((len, behind)) => match read_bytes(behind, len as int) {
                Ok((b, rest)) => Ok((Field::Bytes(b), rest)),
                Err(error) => Err(error),
            },
            Err(error) => Err(error),
        }
    } else if wire_type == 5 {
        match read_bytes(s, 4) {
            Ok((b, rest)) => Ok((Field::Fixed32(le32(b) as u32), rest)),
            Err(error) => Err(error),
        }
    } else {
        Err(DecodeError::UnsupportedWireType(wire_type as u8))
    }
}

/// The field at the front of a message: its number, its value and the bytes
/// behind it; nothing at the end of the message.
pub open spec fn read_field(s: Seq<u8>) -> Result<Option<(u32, Field, Seq<u8>)>, DecodeError> {
    if s.len() == 0 {
        Ok(None)
    } else {
        match read_varint(s) {
            Ok((key, behind)) => if key / 8 == 0 || key / 8 > u32::MAX {
                Err(DecodeError::InvalidFieldNumber)
            } else {
                match read_value(behind, (key % 8) as int) {
                    Ok((value, rest)) => Ok(Some(((key / 8) as u32, value, rest))),
                    Err(error) => Err(error),
                }
            },
            Err(error) => Err(error),
        }
    }
}

/// What the bytes of a varint from the `index`-th on stay below.
pub open spec fn varint_limit(index: nat) -> int
    decreases 10 - index,
{
    if index >= 9 {
        2
    } else {
        128 * varint_limit(index + 1)
    }
}

/// The weight of the `index`-th byte of a varint.
pub open spec fn varint_weight(index: nat) -> int
    decreases index,
{
    if index == 0 {
        1
    } else {
        128 * varint_weight((index - 1) as nat)
    }
}

/// A varint takes one to ten bytes, all of them there, and spells a number of
/// 64 bits.
pub proof fn lemma_varint_bounds(s: Seq<u8>, index: nat)
    ensures
        varint_from(s, index) matches Ok((value, count)) ==> {
            &&& 1 <= count <= s.len()
            &&& count + index <= 10
            &&& value < varint_limit(index)
            &&& index == 0 ==> value <= u64::MAX
        },
    decreases s.len(),
{
    reveal_with_fuel(varint_limit, 10);
    if index < 10 && s.len() > 0 && s[0] >= 128 {
        lemma_varint_bounds(s.skip(1), index + 1);
    }
}

/// A field leaves fewer bytes behind it than it started with, and they are
/// the end of the message.
pub proof fn lemma_field_shrinks(s: Seq<u8>)
    ensures
        read_field(s) matches Ok(Some((_, _, rest))) ==> rest.len() < s.len() && rest == s.skip(
            s.len() - rest.len(),
        ),
{
    if s.len() > 0 {
        lemma_varint_bounds(s, 0);
        if let Ok((key, behind)) = read_varint(s) {
            lemma_varint_bounds(behind, 0);
            if let Ok(Some((_, _, rest))) = read_field(s) {
                assert(rest =~= s.skip(s.len() - rest.len()));
            }
        }
    }
}

/// Folds the fields of a message, front to back, with `step`. The first
/// error, of the wire or of the step, ends it.
pub open spec fn walk<A>(
    s: Seq<u8>,
    start: A,
    step: spec_fn(A, u32, Field) -> Result<A, DecodeError>,
) -> Result<A, DecodeError>
    decreases s.len(),
{
    proof {
        lemma_field_shrinks(s);
    }
    match read_field(s) {
        Err(error) => Err(error),
        Ok(None) => Ok(start),
        Ok(Some((field, value, rest))) => match step(start, field, value) {
            Err(error) => Err(error),
            Ok(next) => walk(rest, next, step),
        },
    }
}

/// A cursor over one serialized message.
pub struct MessageReader<'a> {
    buf: &'a [u8],
    pos: usize,
}

impl<'a> MessageReader<'a> {
    /// The bytes that were not read yet.
    pub closed spec fn rest(self) -> Seq<u8> {
        self.buf@.skip(self.pos as int)
    }

    /// The cursor stands inside the message or at its end.
    pub closed spec fn wf(self) -> bool {
        self.pos <= self.buf@.len()
    }

    /// A cursor at the start of `buf`.
    pub fn new(buf: &'a [u8]) -> (reader: MessageReader<'a>)
        ensures
            reader.wf(),
            reader.rest() == buf@,
    {
        assert(buf@.skip(0) =~= buf@);
        MessageReader { buf, pos: 0 }
    }

    /// The unread bytes are no more than memory can hold.
    pub proof fn lemma_rest_fits(self)
        requires
            self.wf(),
        ensures
            self.rest().len() <= usize::MAX,
    {
        assert(self.buf.len() <= usize::MAX);
    }

    /// Whether every byte was read.
    pub fn at_end(&self) -> (end: bool)
        requires
            self.wf(),
        ensures
            end == (self.rest().len() == 0),
    {
        self.pos == self.buf.len()
    }

    /// Reads the next `(field number, value)` pair, or `None` at the end of
    /// the message. Unknown fields are the caller's to ignore — every wire
    /// type is fully consumed here.
    pub fn next_field(&mut self) -> (result: Result<Option<(u32, WireValue<'a>)>, DecodeError>)
        requires
            old(self).wf(),
        ensures
            final(self).wf(),
            match read_field(old(self).rest()) {
                Err(error) => result == Err::<Option<(u32, WireValue<'a>)>, DecodeError>(error),
                Ok(None) => result matches Ok(None) && final(self).rest() == old(self).rest(),
                Ok(Some((field, value, rest))) => {
                    &&& result matches Ok(Some((f, v))) && f == field && v@ == value
                    &&& final(self).rest() == rest
                    &&& rest.len() < old(self).rest().len()
                },
            },
    {
        proof {
            lemma_field_shrinks(self.rest());
        }
        if self.pos == self.buf.len() {
            return Ok(None);
        }
        let key: u64 = self.varint()?;
        if key / 8 > u32::MAX as u64 {
            return Err(DecodeError::InvalidFieldNumber);
        }
        let field: u32 = (key / 8) as u32;
        if field == 0 {
            return Err(DecodeError::InvalidFieldNumber);
        }
        let wire_type: u8 = (key % 8) as u8;
        let value = if wire_type == 0 {
            WireValue::Varint(self.varint()?)
        } else if wire_type == 1 {
            let bytes = self.take(8)?;
            assert(bytes@.subrange(0, 8) =~= bytes@);
            WireValue::Fixed64(read_le64(bytes, 0))
        } else if wire_type == 2 {
            let len: u64 = self.varint()?;
            if len > usize::MAX as u64 {
                assert(self.buf.len() <= usize::MAX);
                return Err(DecodeError::Truncated);
            }
            WireValue::Bytes(self.take(len as usize)?)
        } else if wire_type == 5 {
            let bytes = self.take(4)?;
            assert(bytes@.subrange(0, 4) =~= bytes@);
            WireValue::Fixed32(read_le32(bytes, 0))
        } else {
            return Err(DecodeError::UnsupportedWireType(wire_type));
        };
        Ok(Some((field, value)))
    }

    /// Reads one varint.
    pub fn varint(&mut self) -> (result: Result<u64, DecodeError>)
        requires
            old(self).wf(),
        ensures
            final(self).wf(),
            match read_varint(old(self).rest()) {
                Err(error) => result == Err::<u64, DecodeError>(error),
                Ok((value, rest)) => result == Ok::<u64, DecodeError>(value)
                    && final(self).rest() == rest,
            },
    {
        proof {
            lemma_varint_bounds(self.rest(), 0);
        }
        let ghost start = self.pos as int;
        let ghost whole = self.rest();
        let ghost expected = varint_from(whole, 0);
        let mut result: u64 = 0;
        let mut scale: u64 = 1;
        let mut index: usize = 0;
        while index < 10
            invariant
                index <= 10,
                self.wf(),
                self.buf == old(self).buf,
                self.pos == start + index,
                start == old(self).pos,
                whole == old(self).rest(),
                expected == varint_from(whole, 0),
                index < 10 ==> scale == varint_weight(index as nat),
                index < 10 ==> result < scale,
                index < 10 ==> scale <= 0x8000_0000_0000_0000,
                index == 10 ==> expected == Err::<(nat, nat), DecodeError>(
                    DecodeError::VarintTooLong,
                ),
                index < 10 ==> match varint_from(self.rest(), index as nat) {
                    Ok((high, count)) => expected == Ok::<(nat, nat), DecodeError>(
                        ((result + scale * high) as nat, (index + count) as nat),
                    ),
                    Err(error) => expected == Err::<(nat, nat), DecodeError>(error),
                },
            decreases 10 - index,
        {
            if self.pos >= self.buf.len() {
                return Err(DecodeError::Truncated);
            }
            let ghost here = self.rest();
            let byte: u8 = self.buf[self.pos];
            assert(here[0] == byte);
            self.pos = self.pos + 1;
            assert(self.rest() =~= here.skip(1));
            let bits: u64 = (byte % 128) as u64;
            // The tenth byte may only contribute the final bit; higher bits
            // would overflow.
            if index == 9 && bits > 1 {
                return Err(DecodeError::VarintTooLong);
            }
            proof {
                lemma_varint_bounds(here, index as nat);
                lemma_scale(index as nat, result as int, scale as int, bits as int);
            }
            let ghost before = result;
            result = result + scale * bits;
            if byte < 128 {
                assert(self.rest() =~= whole.skip((index + 1) as int));
                return Ok(result);
            }
            proof {
                if index < 9 {
                    lemma_varint_bounds(self.rest(), (index + 1) as nat);
                    if let Ok((high, count)) = varint_from(self.rest(), (index + 1) as nat) {
                        assert(before + scale * ((byte % 128) as nat + 128 * high) == result + (
                        scale * 128) * high) by (nonlinear_arith)
                            requires
                                result == before + scale * ((byte % 128) as nat),
                        ;
                    }
                }
            }
            if index < 9 {
                scale = scale * 128;
            }
            index = index + 1;
        }
        Err(DecodeError::VarintTooLong)
    }

    /// Takes the next `len` bytes.
    pub fn take(&mut self, len: usize) -> (result: Result<&'a [u8], DecodeError>)
        requires
            old(self).wf(),
        ensures
            final(self).wf(),
            match read_bytes(old(self).rest(), len as int) {
                Err(error) => result == Err::<&'a [u8], DecodeError>(error),
                Ok((bytes, rest)) => result matches Ok(b) && b@ == bytes && final(self).rest()
                    == rest,
            },
    {
        if len > self.buf.len() - self.pos {
            return Err(DecodeError::Truncated);
        }
        let end: usize = self.pos + len;
        let slice = vstd::slice::slice_subrange(self.buf, self.pos, end);
        assert(slice@ =~= self.rest().take(len as int));
        self.pos = end;
        assert(self.rest() =~= old(self).rest().skip(len as int));
        Ok(slice)
    }
}

/// The weight of each varint byte and the room left under it.
proof fn lemma_scale(index: nat, result: int, scale: int, bits: int)
    requires
        index < 10,
        scale == varint_weight(index),
        0 <= result < scale,
        0 <= bits < 128,
        index == 9 ==> bits <= 1,
    ensures
        0 <= scale * bits,
        result + scale * bits <= u64::MAX,
        index < 9 ==> {
            &&& scale * 128 == varint_weight(index + 1)
            &&& scale * 128 <= 0x8000_0000_0000_0000
            &&& result + scale * bits < scale * 128
        },
{
    reveal_with_fuel(varint_weight, 11);
    assert(index == 9 ==> scale == 0x8000_0000_0000_0000);
    assert(index < 9 ==> scale * 128 <= 0x8000_0000_0000_0000);
    assert(0 <= scale * bits) by (nonlinear_arith)
        requires
            0 <= bits,
            scale > 0,
    ;
    if index == 9 {
        assert(scale * bits <= scale) by (nonlinear_arith)
            requires
                0 <= bits <= 1,
                scale > 0,
        ;
    } else {
        assert(result + scale * bits < scale * 128) by (nonlinear_arith)
            requires
                result < scale,
                bits < 128,
                scale > 0,
        ;
    }
}

/// The doubles of a packed field, as bit patterns.
pub open spec fn unpack64(s: Seq<u8>) -> Result<Seq<u64>, DecodeError> {
    if s.len() % 8 != 0 {
        Err(DecodeError::MisalignedPackedField)
    } else {
        Ok(Seq::new((s.len() / 8) as nat, |i: int| le64(s.subrange(8 * i, 8 * i + 8)) as u64))
    }
}

/// The floats of a packed field, as bit patterns.
pub open spec fn unpack32(s: Seq<u8>) -> Result<Seq<u32>, DecodeError> {
    if s.len() % 4 != 0 {
        Err(DecodeError::MisalignedPackedField)
    } else {
        Ok(Seq::new((s.len() / 4) as nat, |i: int| le32(s.subrange(4 * i, 4 * i + 4)) as u32))
    }
}

/// Decodes a packed repeated `double` field to bit patterns.
pub fn packed_f64(bytes: &[u8]) -> (result: Result<Vec<u64>, DecodeError>)
    ensures
        match unpack64(bytes@) {
            Ok(values) => result matches Ok(v) && v@ == values,
            Err(error) => result == Err::<Vec<u64>, DecodeError>(error),
        },
{
    if bytes.len() % 8 != 0 {
        return Err(DecodeError::MisalignedPackedField);
    }
    let mut values: Vec<u64> = Vec::new();
    let mut at: usize = 0;
    while at < bytes.len()
        invariant
            at <= bytes.len(),
            at % 8 == 0,
            bytes.len() % 8 == 0,
            values@.len() == at / 8,
            forall|i: int|
                0 <= i < values@.len() ==> values@[i] == le64(bytes@.subrange(8 * i, 8 * i + 8)),
        decreases bytes.len() - at,
    {
        values.push(read_le64(bytes, at));
        at = at + 8;
    }
    assert(values@ =~= unpack64(bytes@)->Ok_0);
    Ok(values)
}

/// Decodes a packed repeated `float` field to bit patterns.
pub fn packed_f32(bytes: &[u8]) -> (result: Result<Vec<u32>, DecodeError>)
    ensures
        match unpack32(bytes@) {
            Ok(values) => result matches Ok(v) && v@ == values,
            Err(error) => result == Err::<Vec<u32>, DecodeError>(error),
        },
{
    if bytes.len() % 4 != 0 {
        return Err(DecodeError::MisalignedPackedField);
    }
    let mut values: Vec<u32> = Vec::new();
    let mut at: usize = 0;
    while at < bytes.len()
        invariant
            at <= bytes.len(),
            at % 4 == 0,
            bytes.len() % 4 == 0,
            values@.len() == at / 4,
            forall|i: int|
                0 <= i < values@.len() ==> values@[i] == le32(bytes@.subrange(4 * i, 4 * i + 4)),
        decreases bytes.len() - at,
    {
        values.push(read_le32(bytes, at));
        at = at + 4;
    }
    assert(values@ =~= unpack32(bytes@)->Ok_0);
    Ok(values)
}

/// The varint encoding of a number: seven bits a byte, least significant
/// first, the top bit set on all but the last.
pub open spec fn varint_bytes(value: nat) -> Seq<u8>
    decreases value,
{
    if value < 128 {
        seq![value as u8]
    } else {
        seq![(value % 128 + 128) as u8] + varint_bytes(value / 128)
    }
}

/// The key of a field: its number and wire type.
pub open spec fn key_bytes(field: u32, wire_type: nat) -> Seq<u8> {
    varint_bytes((field * 8 + wire_type) as nat)
}

/// A varint field.
pub open spec fn varint_field(field: u32, value: u64) -> Seq<u8> {
    key_bytes(field, 0) + varint_bytes(value as nat)
}

/// A double field, by its bit pattern.
pub open spec fn fixed64_field(field: u32, bits: u64) -> Seq<u8> {
    key_bytes(field, 1) + crate::bytes::le64_bytes(bits)
}

/// A length-delimited field.
pub open spec fn bytes_field(field: u32, value: Seq<u8>) -> Seq<u8> {
    key_bytes(field, 2) + varint_bytes(value.len()) + value
}

/// A float field, by its bit pattern.
pub open spec fn fixed32_field(field: u32, bits: u32) -> Seq<u8> {
    key_bytes(field, 5) + crate::bytes::le32_bytes(bits)
}

/// The packed encoding of doubles, by their bit patterns.
pub open spec fn packed64(values: Seq<u64>) -> Seq<u8>
    decreases values.len(),
{
    if values.len() == 0 {
        Seq::empty()
    } else {
        packed64(values.drop_last()) + crate::bytes::le64_bytes(values.last())
    }
}

proof fn lemma_varint_round_trip_from(value: nat, rest: Seq<u8>, index: nat)
    requires
        index < 10,
        value < varint_limit(index),
    ensures
        varint_from(varint_bytes(value) + rest, index) == Ok::<(nat, nat), DecodeError>(
            (value, varint_bytes(value).len()),
        ),
    decreases value,
{
    let s = varint_bytes(value) + rest;
    if value < 128 {
        assert(s[0] == value);
    } else {
        assert(index < 9);
        assert(s[0] == value % 128 + 128);
        assert(s.skip(1) =~= varint_bytes(value / 128) + rest);
        lemma_varint_round_trip_from(value / 128, rest, index + 1);
    }
}

/// Reading a varint gives back the number that was written and stops right
/// behind it.
pub proof fn law_varint_round_trip(value: u64, rest: Seq<u8>)
    ensures
        read_varint(varint_bytes(value as nat) + rest) == Ok::<(u64, Seq<u8>), DecodeError>(
            (value, rest),
        ),
        1 <= varint_bytes(value as nat).len() <= 10,
{
    reveal_with_fuel(varint_limit, 10);
    let s = varint_bytes(value as nat) + rest;
    lemma_varint_round_trip_from(value as nat, rest, 0);
    lemma_varint_bounds(s, 0);
    assert(s.skip(varint_bytes(value as nat).len() as int) =~= rest);
}

proof fn lemma_key_round_trip(field: u32, wire_type: nat, rest: Seq<u8>)
    requires
        wire_type < 8,
    ensures
        read_varint(key_bytes(field, wire_type) + rest) == Ok::<(u64, Seq<u8>), DecodeError>(
            ((field * 8 + wire_type) as u64, rest),
        ),
        key_bytes(field, wire_type).len() >= 1,
{
    law_varint_round_trip((field * 8 + wire_type) as u64, rest);
}

proof fn lemma_varint_field(field: u32, number: u64, rest: Seq<u8>)
    requires
        field > 0,
    ensures
        read_field(varint_field(field, number) + rest) == Ok::<
            Option<(u32, Field, Seq<u8>)>,
            DecodeError,
        >(Some((field, Field::Varint(number), rest))),
{
    let digits = varint_bytes(number as nat);
    let all = varint_field(field, number) + rest;
    assert(all =~= key_bytes(field, 0) + (digits + rest));
    lemma_key_round_trip(field, 0, digits + rest);
    law_varint_round_trip(number, rest);
    assert(all.len() > 0);
}

proof fn lemma_fixed64_field(field: u32, number: u64, rest: Seq<u8>)
    requires
        field > 0,
    ensures
        read_field(fixed64_field(field, number) + rest) == Ok::<
            Option<(u32, Field, Seq<u8>)>,
            DecodeError,
        >(Some((field, Field::Fixed64(number), rest))),
{
    let wide = crate::bytes::le64_bytes(number);
    let all = fixed64_field(field, number) + rest;
    assert(all =~= key_bytes(field, 1) + (wide + rest));
    lemma_key_round_trip(field, 1, wide + rest);
    crate::bytes::lemma_le64(number, wide);
    assert((wide + rest).take(8) =~= wide);
    assert((wide + rest).skip(8) =~= rest);
    assert(all.len() > 0);
}

proof fn lemma_bytes_field(field: u32, bytes: Seq<u8>, rest: Seq<u8>)
    requires
        field > 0,
        bytes.len() <= u64::MAX,
    ensures
        read_field(bytes_field(field, bytes) + rest) == Ok::<
            Option<(u32, Field, Seq<u8>)>,
            DecodeError,
        >(Some((field, Field::Bytes(bytes), rest))),
{
    let length = varint_bytes(bytes.len());
    let all = bytes_field(field, bytes) + rest;
    assert(all =~= key_bytes(field, 2) + (length + (bytes + rest)));
    lemma_key_round_trip(field, 2, length + (bytes + rest));
    law_varint_round_trip(bytes.len() as u64, bytes + rest);
    assert((bytes + rest).take(bytes.len() as int) =~= bytes);
    assert((bytes + rest).skip(bytes.len() as int) =~= rest);
    assert(all.len() > 0);
}

proof fn lemma_fixed32_field(field: u32, single: u32, rest: Seq<u8>)
    requires
        field > 0,
    ensures
        read_field(fixed32_field(field, single) + rest) == Ok::<
            Option<(u32, Field, Seq<u8>)>,
            DecodeError,
        >(Some((field, Field::Fixed32(single), rest))),
{
    let narrow = crate::bytes::le32_bytes(single);
    let all = fixed32_field(field, single) + rest;
    assert(all =~= key_bytes(field, 5) + (narrow + rest));
    lemma_key_round_trip(field, 5, narrow + rest);
    crate::bytes::lemma_le32(single, narrow);
    assert((narrow + rest).take(4) =~= narrow);
    assert((narrow + rest).skip(4) =~= rest);
    assert(all.len() > 0);
}

/// Reading a field gives back what was written — its number, its wire type
/// and its value — and stops right behind it.
pub proof fn law_field_round_trip(
    field: u32,
    number: u64,
    single: u32,
    bytes: Seq<u8>,
    rest: Seq<u8>,
)
    requires
        field > 0,
        bytes.len() <= u64::MAX,
    ensures
        read_field(varint_field(field, number) + rest) == Ok::<
            Option<(u32, Field, Seq<u8>)>,
            DecodeError,
        >(Some((field, Field::Varint(number), rest))),
        read_field(fixed64_field(field, number) + rest) == Ok::<
            Option<(u32, Field, Seq<u8>)>,
            DecodeError,
        >(Some((field, Field::Fixed64(number), rest))),
        read_field(bytes_field(field, bytes) + rest) == Ok::<
            Option<(u32, Field, Seq<u8>)>,
            DecodeError,
        >(Some((field, Field::Bytes(bytes), rest))),
        read_field(fixed32_field(field, single) + rest) == Ok::<
            Option<(u32, Field, Seq<u8>)>,
            DecodeError,
        >(Some((field, Field::Fixed32(single), rest))),
{
    lemma_varint_field(field, number, rest);
    lemma_fixed64_field(field, number, rest);
    lemma_bytes_field(field, bytes, rest);
    lemma_fixed32_field(field, single, rest);
}

proof fn lemma_varint_stable(s: Seq<u8>, more: Seq<u8>, index: nat)
    ensures
        varint_from(s, index) is Ok ==> varint_from(s + more, index) == varint_from(s, index),
    decreases s.len(),
{
    if index < 10 && s.len() > 0 {
        assert((s + more)[0] == s[0]);
        assert((s + more).skip(1) =~= s.skip(1) + more);
        lemma_varint_stable(s.skip(1), more, index + 1);
    }
}

proof fn lemma_read_varint_stable(s: Seq<u8>, more: Seq<u8>)
    ensures
        read_varint(s) matches Ok((value, rest)) ==> read_varint(s + more) == Ok::<
            (u64, Seq<u8>),
            DecodeError,
        >((value, rest + more)),
{
    lemma_varint_stable(s, more, 0);
    lemma_varint_bounds(s, 0);
    if let Ok((value, count)) = varint_from(s, 0) {
        assert((s + more).skip(count as int) =~= s.skip(count as int) + more);
    }
}

proof fn lemma_read_bytes_stable(s: Seq<u8>, more: Seq<u8>, count: int)
    requires
        count >= 0,
    ensures
        read_bytes(s, count) matches Ok((bytes, rest)) ==> read_bytes(s + more, count) == Ok::<
            (Seq<u8>, Seq<u8>),
            DecodeError,
        >((bytes, rest + more)),
{
    if count <= s.len() {
        assert((s + more).take(count) =~= s.take(count));
        assert((s + more).skip(count) =~= s.skip(count) + more);
    }
}

/// A whole field reads the same whatever follows it.
pub proof fn lemma_field_stable(s: Seq<u8>, more: Seq<u8>)
    ensures
        read_field(s) matches Ok(Some((field, value, rest))) ==> read_field(s + more) == Ok::<
            Option<(u32, Field, Seq<u8>)>,
            DecodeError,
        >(Some((field, value, rest + more))),
{
    if s.len() > 0 {
        lemma_read_varint_stable(s, more);
        if let Ok((key, behind)) = read_varint(s) {
            lemma_read_varint_stable(behind, more);
            lemma_read_bytes_stable(behind, more, 8);
            lemma_read_bytes_stable(behind, more, 4);
            if let Ok((len, body)) = read_varint(behind) {
                lemma_read_bytes_stable(body, more, len as int);
            }
        }
    }
}

/// Walking one field, then the rest.
pub proof fn lemma_walk_field<A>(
    s: Seq<u8>,
    field: u32,
    value: Field,
    rest: Seq<u8>,
    start: A,
    step: spec_fn(A, u32, Field) -> Result<A, DecodeError>,
)
    requires
        read_field(s) == Ok::<Option<(u32, Field, Seq<u8>)>, DecodeError>(
            Some((field, value, rest)),
        ),
    ensures
        walk(s, start, step) == (match step(start, field, value) {
            Ok(next) => walk(rest, next, step),
            Err(error) => Err(error),
        }),
{
}

/// Bytes that are a run of whole fields.
pub open spec fn whole_fields(s: Seq<u8>) -> bool
    decreases s.len(),
{
    proof {
        lemma_field_shrinks(s);
    }
    match read_field(s) {
        Err(_) => false,
        Ok(None) => true,
        Ok(Some((field, value, rest))) => whole_fields(rest),
    }
}

/// A field that the schema ignores can stand anywhere between the others: it
/// is skipped, and everything around it decodes, or is refused, as without
/// it.
pub proof fn law_ignored_field_is_skipped<A>(
    front: Seq<u8>,
    ignored: Seq<u8>,
    back: Seq<u8>,
    start: A,
    step: spec_fn(A, u32, Field) -> Result<A, DecodeError>,
    field: u32,
    value: Field,
)
    requires
        whole_fields(front),
        read_field(ignored) == Ok::<Option<(u32, Field, Seq<u8>)>, DecodeError>(
            Some((field, value, Seq::empty())),
        ),
        forall|state: A| #[trigger] step(state, field, value) == Ok::<A, DecodeError>(state),
    ensures
        walk(front + ignored + back, start, step) == walk(front + back, start, step),
    decreases front.len(),
{
    lemma_field_shrinks(front);
    lemma_field_stable(front, ignored + back);
    lemma_field_stable(front, back);
    assert(front + ignored + back =~= front + (ignored + back));
    match read_field(front) {
        Ok(Some((number, known, rest))) => {
            if let Ok(next) = step(start, number, known) {
                law_ignored_field_is_skipped(rest, ignored, back, next, step, field, value);
                assert(rest + ignored + back =~= rest + (ignored + back));
            }
        },
        _ => {
            lemma_field_stable(ignored, back);
            assert(front =~= Seq::<u8>::empty());
            assert(front + (ignored + back) =~= ignored + back);
            assert(front + back =~= back);
            assert(Seq::<u8>::empty() + back =~= back);
            lemma_walk_field(ignored + back, field, value, back, start, step);
        },
    }
}

/// Packed doubles unpack to themselves.
pub proof fn law_packed_round_trip(values: Seq<u64>)
    ensures
        packed64(values).len() == 8 * values.len(),
        unpack64(packed64(values)) == Ok::<Seq<u64>, DecodeError>(values),
    decreases values.len(),
{
    if values.len() > 0 {
        let init = values.drop_last();
        law_packed_round_trip(init);
        let tail = crate::bytes::le64_bytes(values.last());
        crate::bytes::lemma_le64(values.last(), tail);
        let all = packed64(values);
        let unpacked = unpack64(all)->Ok_0;
        assert(unpacked.len() == values.len());
        assert forall|i: int| 0 <= i < values.len() implies unpacked[i] == values[i] by {
            if i < init.len() {
                assert(all.subrange(8 * i, 8 * i + 8) =~= packed64(init).subrange(
                    8 * i,
                    8 * i + 8,
                ));
                assert((unpack64(packed64(init))->Ok_0)[i] == init[i]);
            } else {
                assert(all.subrange(8 * i, 8 * i + 8) =~= tail);
            }
        }
        assert(unpacked =~= values);
    } else {
        assert(unpack64(packed64(values))->Ok_0 =~= values);
    }
}

} // verus!
