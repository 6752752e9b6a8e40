//! What the errors of the event reader say.
use vstd::prelude::*;

use crate::cache::{hex, hex_text};
use crate::crc::MaskedCrc;
use crate::reader::ReadEventError;
use crate::record::{ChecksumError, ReadRecordError};
use crate::text::{decimal_text, push_decimal, push_text};
use crate::wire::DecodeError;

verus! {

/// What a decode error says.
pub open spec fn decode_words(error: DecodeError) -> Seq<char> {
    match error {
        DecodeError::Truncated => "message truncated mid-field"@,
        DecodeError::VarintTooLong => "varint longer than ten bytes"@,
        DecodeError::UnsupportedWireType(t) => "unsupported wire type "@ + decimal_text(t as nat),
        DecodeError::InvalidFieldNumber => "field number zero is invalid"@,
        DecodeError::MisalignedPackedField =>
            "packed field length is not a multiple of the element size"@,
    }
}

impl DecodeError {
    /// The error in one sentence.
    pub fn message(&self) -> (text: String)
        ensures
            text@ == decode_words(*self),
    {
        match self {
            DecodeError::Truncated => "message truncated mid-field".to_owned(),
            DecodeError::VarintTooLong => "varint longer than ten bytes".to_owned(),
            DecodeError::UnsupportedWireType(t) => {
                let mut text = "unsupported wire type ".to_owned();
                push_decimal(&mut text, *t as u64);
                text
            },
            DecodeError::InvalidFieldNumber => "field number zero is invalid".to_owned(),
            DecodeError::MisalignedPackedField =>
                "packed field length is not a multiple of the element size".to_owned(),
        }
    }
}

/// A stored and a computed checksum, as eight hexadecimal digits each.
pub open spec fn checksum_pair(want: MaskedCrc, got: MaskedCrc) -> Seq<char> {
    "stored 0x"@ + hex_text(want.0 as int, 8) + ", computed 0x"@ + hex_text(got.0 as int, 8)
}

fn push_pair(text: &mut String, want: MaskedCrc, got: MaskedCrc)
    ensures
        final(text)@ == old(text)@ + checksum_pair(want, got),
{
    let ghost before = text@;
    push_text(text, "stored 0x");
    push_text(text, &hex(want.0 as u64, 8));
    push_text(text, ", computed 0x");
    push_text(text, &hex(got.0 as u64, 8));
    assert(text@ =~= before + checksum_pair(want, got));
}

/// What a checksum error says.
pub open spec fn checksum_words(error: ChecksumError) -> Seq<char> {
    "record checksum mismatch: "@ + checksum_pair(error.want, error.got)
}

impl ChecksumError {
    /// The error in one sentence.
    pub fn message(&self) -> (text: String)
        ensures
            text@ == checksum_words(*self),
    {
        let mut text = "record checksum mismatch: ".to_owned();
        push_pair(&mut text, self.want, self.got);
        text
    }
}

/// What a record error says.
pub open spec fn record_words(error: ReadRecordError) -> Seq<char> {
    match error {
        ReadRecordError::Truncated => "record truncated (stream ended mid-record)"@,
        ReadRecordError::BadLengthCrc { offset, want, got } => "bad length CRC at offset "@
            + decimal_text(offset as nat) + ": "@ + checksum_pair(want, got),
    }
}

impl ReadRecordError {
    /// The error in one sentence.
    pub fn message(&self) -> (text: String)
        ensures
            text@ == record_words(*self),
    {
        match self {
            ReadRecordError::Truncated => "record truncated (stream ended mid-record)".to_owned(),
            ReadRecordError::BadLengthCrc { offset, want, got } => {
                let mut text = "bad length CRC at offset ".to_owned();
                push_decimal(&mut text, *offset);
                push_text(&mut text, ": ");
                push_pair(&mut text, *want, *got);
                text
            },
        }
    }
}

/// What an event error says.
pub open spec fn event_words(error: ReadEventError) -> Seq<char> {
    match error {
        ReadEventError::Truncated => "event truncated (stream ended mid-record)"@,
        ReadEventError::BadLengthCrc { offset, want, got } => "framing dead at offset "@
            + decimal_text(offset as nat) + ": bad length CRC"@,
        ReadEventError::Corrupt { offset, error } => "corrupt record at offset "@ + decimal_text(
            offset as nat,
        ) + ": "@ + checksum_words(error),
        ReadEventError::Malformed { offset, error } => "undecodable record at offset "@
            + decimal_text(offset as nat) + ": "@ + decode_words(error),
    }
}

impl ReadEventError {
    /// The error in one sentence.
    pub fn message(&self) -> (text: String)
        ensures
            text@ == event_words(*self),
    {
        match self {
            ReadEventError::Truncated => "event truncated (stream ended mid-record)".to_owned(),
            ReadEventError::BadLengthCrc { offset, .. } => {
                let mut text = "framing dead at offset ".to_owned();
                push_decimal(&mut text, *offset);
                push_text(&mut text, ": bad length CRC");
                text
            },
            ReadEventError::Corrupt { offset, error } => {
                let mut text = "corrupt record at offset ".to_owned();
                push_decimal(&mut text, *offset);
                push_text(&mut text, ": ");
                push_text(&mut text, &error.message());
                text
            },
            ReadEventError::Malformed { offset, error } => {
                let mut text = "undecodable record at offset ".to_owned();
                push_decimal(&mut text, *offset);
                push_text(&mut text, ": ");
                push_text(&mut text, &error.message());
                text
            },
        }
    }
}

} // verus!
