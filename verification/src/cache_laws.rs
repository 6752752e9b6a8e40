//! What a cache file is made of, byte by byte.
use vstd::prelude::*;
use vstd::arithmetic::div_mod::lemma_mod_breakdown;
use vstd::arithmetic::power::{lemma_pow_positive, pow};

use crate::bytes::{le32, le32_bytes, le64, le64_bytes, lemma_le32, lemma_le64};
use crate::cache::{
    class_of_code, code_of, hex_digit, hex_text, magic, moment, mtime_bytes, option_bytes,
    point_bytes, text_bytes,
};
use crate::run::Stamp;
use crate::series::{PointStamp, SeriesClass};

verus! {

/// What a lower-case hexadecimal digit is worth.
pub open spec fn worth(c: char) -> int {
    if '0' <= c <= '9' {
        c as int - '0' as int
    } else if 'a' <= c <= 'f' {
        c as int - 'a' as int + 10
    } else {
        -1
    }
}

/// The number that hexadecimal digits write.
pub open spec fn hex_number(text: Seq<char>) -> int
    decreases text.len(),
{
    if text.len() == 0 {
        0
    } else {
        16 * hex_number(text.drop_last()) + worth(text.last())
    }
}

/// Hexadecimal text has as many digits as were asked for, all of them lower
/// case, and reads back as the number, as far as that many digits hold it.
pub proof fn law_hexadecimal_reads_back(n: int, digits: nat)
    requires
        n >= 0,
    ensures
        hex_text(n, digits).len() == digits,
        hex_number(hex_text(n, digits)) == n % pow(16, digits),
        forall|i: int| 0 <= i < digits ==> 0 <= worth(#[trigger] hex_text(n, digits)[i]) < 16,
    decreases digits,
{
    reveal(pow);
    if digits > 0 {
        let less = (digits - 1) as nat;
        law_hexadecimal_reads_back(n / 16, less);
        lemma_pow_positive(16, less);
        lemma_mod_breakdown(n, 16, pow(16, less));
        let text = hex_text(n, digits);
        assert(text.drop_last() =~= hex_text(n / 16, less));
        assert(text.last() == hex_digit(n % 16));
        assert(worth(hex_digit(n % 16)) == n % 16);
    }
}

/// Scalars, histograms, images, texts and what is not known are written as
/// the numbers from zero to four; no other number is a class.
pub proof fn law_classes_are_numbered(code: u8)
    ensures
        code_of(SeriesClass::Scalar) == 0,
        code_of(SeriesClass::Histogram) == 1,
        code_of(SeriesClass::Image) == 2,
        code_of(SeriesClass::Text) == 3,
        code_of(SeriesClass::Unknown) == 4,
        class_of_code(code) is Some <==> code <= 4,
        class_of_code(code) matches Some(class) ==> code_of(class) == code,
{
}

/// A cache file begins with `VTVCACH1`.
pub proof fn law_cache_files_begin(i: int)
    requires
        0 <= i < 8,
    ensures
        magic().len() == "VTVCACH1"@.len(),
        magic()[i] as int == "VTVCACH1"@[i] as int,
{
    reveal_strlit("VTVCACH1");
}

/// Seconds and nanoseconds make the moment that lies so far after the epoch,
/// unless that is later than a clock can tell.
pub proof fn law_moments_lie_after_the_epoch(secs: u64, nanos: u32)
    ensures
        moment(secs, nanos) is None <==> secs * 1_000_000_000 + nanos >= (i64::MAX + 1)
            * 1_000_000_000,
        moment(secs, nanos) matches Some(stamp) ==> stamp.nanos < 1_000_000_000
            && stamp.total() == secs * 1_000_000_000 + nanos,
{
}

/// A text is written as the count of its bytes and its bytes.
pub proof fn law_texts_are_counted(text: Seq<char>)
    requires
        vstd::utf8::encode_utf8(text).len() <= u32::MAX,
    ensures
        text_bytes(text).len() == 4 + vstd::utf8::encode_utf8(text).len(),
        le32(text_bytes(text).take(4)) == vstd::utf8::encode_utf8(text).len(),
        text_bytes(text).skip(4) == vstd::utf8::encode_utf8(text),
{
    let bytes = vstd::utf8::encode_utf8(text);
    let head = le32_bytes(bytes.len() as u32);
    lemma_le32(bytes.len() as u32, head);
    assert(text_bytes(text).take(4) =~= head);
    assert(text_bytes(text).skip(4) =~= bytes);
}

/// A number that may be missing is written as one and the number, or as zero.
pub proof fn law_missing_numbers_are_marked(value: u64)
    ensures
        option_bytes(None) == seq![0u8],
        option_bytes(Some(value)).len() == 9,
        option_bytes(Some(value))[0] == 1,
        le64(option_bytes(Some(value)).skip(1)) == value,
{
    lemma_le64(value, le64_bytes(value));
    assert(option_bytes(Some(value)).skip(1) =~= le64_bytes(value));
}

/// A moment is written as its seconds, in eight bytes, and its nanoseconds,
/// in four.
pub proof fn law_moments_are_laid_out(time: Stamp)
    ensures
        mtime_bytes(time).len() == 12,
        le64(mtime_bytes(time).take(8)) == time.secs,
        le32(mtime_bytes(time).skip(8)) == time.nanos,
{
    lemma_le64(time.secs, le64_bytes(time.secs));
    lemma_le32(time.nanos, le32_bytes(time.nanos));
    assert(mtime_bytes(time).take(8) =~= le64_bytes(time.secs));
    assert(mtime_bytes(time).skip(8) =~= le32_bytes(time.nanos));
}

/// A point is written as its step, its wall time and its value, in eight
/// bytes each.
pub proof fn law_points_are_laid_out(point: PointStamp)
    ensures
        point_bytes(point).len() == 24,
        le64(point_bytes(point).take(8)) == point.step as u64,
        le64(point_bytes(point).subrange(8, 16)) == point.wall,
        le64(point_bytes(point).skip(16)) == point.value,
{
    let bytes = point_bytes(point);
    let step = le64_bytes(point.step as u64);
    lemma_le64(point.step as u64, step);
    lemma_le64(point.wall, le64_bytes(point.wall));
    lemma_le64(point.value, le64_bytes(point.value));
    assert(bytes.take(8) =~= step);
    assert(bytes.subrange(8, 16) =~= le64_bytes(point.wall));
    assert(bytes.skip(16) =~= le64_bytes(point.value));
}

} // verus!
