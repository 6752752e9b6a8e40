//! How the formats lie on disk: small fields and records byte by byte, chunks
//! of the run log by their kinds, events by their fields, and doubles as the
//! whole numbers that they come to.
use vstd::arithmetic::power2::{lemma2_to64, lemma_pow2_adds, lemma_pow2_pos, pow2};
use vstd::prelude::*;

use crate::bytes::{le32, le32_bytes, le64, le64_bytes, lemma_le64};
use crate::crc::masked_crc;
use crate::double::{nan, rounded, truncated, units};
use crate::event::{
    event_of, event_schema, event_start, histogram_of, histogram_schema, histogram_start,
    summary_of, summary_schema, value_of, value_schema, value_start, DatumModel, EventModel,
    HistogramModel, PayloadModel, ValueModel,
};
use crate::exact::measures;
use crate::naming::fresh_name;
use crate::reader::{record_error, ReadEventError};
use crate::record::{checksum_of, record_bytes, ChecksumError};
use crate::text::{
    decimal_text, digit, integer_of, law_decimal_round_trip, law_text_round_trip, text_before,
    trimmed, white,
};
use crate::value_laws::{
    lemma_walk_bytes, lemma_walk_fixed32, lemma_walk_fixed64, lemma_walk_one, lemma_walk_varint,
};
use crate::wandb::{assembled, chunk_bytes, chunk_crc, header_error, record_chunks, room};
use crate::wire::{
    bytes_field, fixed32_field, fixed64_field, law_packed_round_trip, packed64, varint_field,
    DecodeError,
};

verus! {

/// Digits read as their number, behind a minus as its negative and behind a
/// plus as the number itself; a sign without digits reads as nothing, and so
/// do two signs.
pub proof fn law_signs_of_whole_numbers(n: i64, sign: char, other: char)
    requires
        n >= 0,
        sign == '-' || sign == '+',
        other == '-' || other == '+',
    ensures
        integer_of(decimal_text(n as nat)) == Some(n),
        integer_of(seq!['-'] + decimal_text(n as nat)) == Some((-n) as i64),
        integer_of(seq!['+'] + decimal_text(n as nat)) == Some(n),
        integer_of(seq![sign]) is None,
        integer_of(seq![other] + (seq![sign] + decimal_text(n as nat))) is None,
{
    let digits = decimal_text(n as nat);
    law_decimal_round_trip(n as nat);
    let negative = seq!['-'] + digits;
    let positive = seq!['+'] + digits;
    assert(negative.skip(1) =~= digits && positive.skip(1) =~= digits);
    assert(!digit(negative[0]) && !digit(positive[0]));
    let alone = seq![sign];
    assert(!digit(alone[0]));
    assert(alone.skip(1).len() == 0);
    let signed = seq![sign] + digits;
    let both = seq![other] + signed;
    assert(both.skip(1) =~= signed);
    assert(!digit(signed[0]) && !digit(both[0]));
}

/// A small field is its number times eight and its kind, then its value: a
/// number, a length and bytes, eight bytes or four, least significant first.
pub proof fn law_small_fields_byte_by_byte(field: u32, n: u64, bytes: Seq<u8>, double: u64, single: u32)
    requires
        0 < field < 16,
        n < 128,
        bytes.len() < 128,
    ensures
        varint_field(field, n) == seq![(8 * field) as u8, n as u8],
        bytes_field(field, bytes) == seq![(8 * field + 2) as u8, bytes.len() as u8] + bytes,
        fixed64_field(field, double) == seq![(8 * field + 1) as u8] + le64_bytes(double),
        fixed32_field(field, single) == seq![(8 * field + 5) as u8] + le32_bytes(single),
{
    assert(varint_field(field, n) =~= seq![(8 * field) as u8, n as u8]);
    assert(bytes_field(field, bytes) =~= seq![(8 * field + 2) as u8, bytes.len() as u8] + bytes);
    assert(fixed64_field(field, double) =~= seq![(8 * field + 1) as u8] + le64_bytes(double));
    assert(fixed32_field(field, single) =~= seq![(8 * field + 5) as u8] + le32_bytes(single));
}

/// Little-endian bytes spell the number that they are of, the first byte the
/// least.
pub proof fn law_little_endian(a: u8, b: u8, c: u8, d: u8, x: u64)
    ensures
        le32(seq![a, b, c, d]) == a + 256 * b + 65_536 * c + 16_777_216 * d,
        le64_bytes(x).len() == 8,
        le64(le64_bytes(x)) == x,
        le64_bytes(x)[0] == x % 256,
{
    lemma_le64(x, le64_bytes(x));
}

/// A record is its length in eight bytes, a masked checksum of those, the
/// payload, and a masked checksum of that.
pub proof fn law_records_byte_by_byte(payload: Seq<u8>)
    requires
        payload.len() + 16 <= u64::MAX,
    ensures
        ({
            let bytes = record_bytes(payload);
            let n = payload.len() as int;
            &&& bytes.len() == n + 16
            &&& bytes.subrange(0, 8) == le64_bytes(payload.len() as u64)
            &&& bytes.subrange(8, 12) == le32_bytes(
                masked_crc(le64_bytes(payload.len() as u64)).0,
            )
            &&& bytes.subrange(12, 12 + n) == payload
            &&& bytes.subrange(12 + n, 16 + n) == le32_bytes(masked_crc(payload).0)
        }),
{
    let bytes = record_bytes(payload);
    let n = payload.len() as int;
    lemma_le64(payload.len() as u64, le64_bytes(payload.len() as u64));
    assert(bytes.subrange(0, 8) =~= le64_bytes(payload.len() as u64));
    assert(bytes.subrange(8, 12) =~= le32_bytes(masked_crc(le64_bytes(payload.len() as u64)).0));
    assert(bytes.subrange(12, 12 + n) =~= payload);
    assert(bytes.subrange(12 + n, 16 + n) =~= le32_bytes(masked_crc(payload).0));
}

/// A chunk of the run log is a checksum over its kind and payload in four
/// bytes, the payload's length in two, the kind, and the payload.
pub proof fn law_chunks_byte_by_byte(kind: u8, payload: Seq<u8>)
    requires
        payload.len() < 0x1_0000,
    ensures
        ({
            let bytes = chunk_bytes(kind, payload);
            &&& bytes.len() == 7 + payload.len()
            &&& bytes.take(4) == le32_bytes(chunk_crc(kind, payload))
            &&& bytes[4] + 256 * bytes[5] == payload.len()
            &&& bytes[6] == kind
            &&& bytes.skip(7) == payload
        }),
{
    let bytes = chunk_bytes(kind, payload);
    assert(bytes.take(4) =~= le32_bytes(chunk_crc(kind, payload)));
    assert(bytes.skip(7) =~= payload);
}

/// A record that fits is one whole chunk; a longer one is a first chunk,
/// middle ones and a last one, whose payloads make it up in order. A chunk out
/// of place makes up nothing.
pub proof fn law_chunks_make_up_records(
    at: int,
    small: Seq<u8>,
    a: Seq<u8>,
    b: Seq<u8>,
    open: Option<Seq<u8>>,
)
    requires
        at >= 0,
        at % 32768 <= 32761,
        small.len() <= 32761 - at % 32768,
    ensures
        record_chunks(at, small, true) == chunk_bytes(1, small),
        record_chunks(at, small, false) == chunk_bytes(4, small),
        assembled(open, 1, a) == Some((Some(a), None::<Seq<u8>>)),
        assembled(open, 2, a) == Some((None::<Seq<u8>>, Some(a))),
        assembled(Some(a), 3, b) == Some((None::<Seq<u8>>, Some(a + b))),
        assembled(Some(a), 4, b) == Some((Some(a + b), None::<Seq<u8>>)),
        assembled(None, 3, a) is None,
        assembled(None, 4, a) is None,
        assembled(Some(a), 5, b) is None,
        assembled(Some(a), 0, b) is None,
{
    let none = Seq::<u8>::empty();
    assert(room(at) == 32761 - at % 32768);
    assert(none + chunk_bytes(1, small) =~= chunk_bytes(1, small));
    assert(none + chunk_bytes(4, small) =~= chunk_bytes(4, small));
}

/// A run log starts with six bytes of its own and version zero.
pub proof fn law_run_log_header(version: u8, rest: Seq<u8>)
    ensures
        ({
            let own = seq![0x3Au8, 0x57u8, 0x26u8, 0x42u8, 0xE1u8, 0xBEu8];
            &&& header_error(own + seq![0u8] + rest) is None
            &&& version != 0 ==> header_error(own + seq![version] + rest) is Some
            &&& header_error(own) is Some
        }),
        rest.len() >= 7 && rest[0] != 0x3A ==> header_error(rest) is Some,
{
    let own = seq![0x3Au8, 0x57u8, 0x26u8, 0x42u8, 0xE1u8, 0xBEu8];
    assert((own + seq![0u8] + rest).take(6) =~= own);
    assert((own + seq![version] + rest).take(6) =~= own);
    if rest.len() >= 7 && rest[0] != 0x3A {
        assert(rest.take(6)[0] == rest[0]);
        assert(own[0] == 0x3A);
    }
}

/// An event is its wall time, its step and its summary; its file's version is
/// one too.
pub proof fn law_events_by_their_fields(wall: u64, step: u64, summary: Seq<u8>, version: Seq<char>)
    requires
        summary.len() <= u64::MAX,
        step <= i64::MAX,
        vstd::utf8::encode_utf8(version).len() <= u64::MAX,
    ensures
        summary_of(summary) matches Ok(values) ==> event_of(
            fixed64_field(1, wall) + varint_field(2, step) + bytes_field(5, summary),
        ) == Ok::<EventModel, DecodeError>(
            EventModel {
                wall_time: wall,
                step: step as i64,
                payload: PayloadModel::Summary(values),
            },
        ),
        event_of(fixed64_field(1, wall) + bytes_field(3, vstd::utf8::encode_utf8(version))) == Ok::<
            EventModel,
            DecodeError,
        >(
            EventModel { wall_time: wall, step: 0, payload: PayloadModel::FileVersion(version) },
        ),
{
    let e0 = event_start();
    let e1 = EventModel { wall_time: wall, ..e0 };
    let e2 = EventModel { step: step as i64, ..e1 };
    let schema = event_schema();
    let last = bytes_field(5, summary);
    let rest = varint_field(2, step) + last;
    assert(fixed64_field(1, wall) + varint_field(2, step) + last =~= fixed64_field(1, wall) + rest);
    lemma_walk_fixed64(1, wall, rest, e0, schema);
    lemma_walk_varint(2, step, last, e1, schema);
    lemma_walk_one(5, summary, e2, schema);
    let text = vstd::utf8::encode_utf8(version);
    law_text_round_trip(version);
    lemma_walk_fixed64(1, wall, bytes_field(3, text), e0, schema);
    lemma_walk_one(3, text, e1, schema);
}

/// A summary is its values, in order; a value of a number is its tag and the
/// number.
pub proof fn law_summaries_hold_their_values(
    a: Seq<u8>,
    b: Seq<u8>,
    tag: Seq<char>,
    single: u32,
)
    requires
        a.len() <= u64::MAX,
        b.len() <= u64::MAX,
        vstd::utf8::encode_utf8(tag).len() <= u64::MAX,
    ensures
        value_of(a) matches Ok(x) ==> (value_of(b) matches Ok(y) ==> summary_of(
            bytes_field(1, a) + bytes_field(1, b),
        ) == Ok::<Seq<ValueModel>, DecodeError>(seq![x, y])),
        value_of(bytes_field(1, vstd::utf8::encode_utf8(tag)) + fixed32_field(2, single)) == Ok::<
            ValueModel,
            DecodeError,
        >(ValueModel { tag, metadata: None, payload: DatumModel::Simple(single) }),
{
    let none = Seq::<ValueModel>::empty();
    if let Ok(x) = value_of(a) {
        if let Ok(y) = value_of(b) {
            lemma_walk_bytes(1, a, bytes_field(1, b), none, summary_schema());
            lemma_walk_one(1, b, none.push(x), summary_schema());
            assert(none.push(x).push(y) =~= seq![x, y]);
        }
    }
    let v0 = value_start();
    let v1 = ValueModel { tag, ..v0 };
    law_text_round_trip(tag);
    let number = fixed32_field(2, single);
    lemma_walk_bytes(1, vstd::utf8::encode_utf8(tag), number, v0, value_schema());
    lemma_walk_fixed32(2, single, Seq::empty(), v1, value_schema());
    assert(number + Seq::<u8>::empty() =~= number);
}

/// A histogram is its least and greatest value, its count, its sums, the right
/// edges and the counts of its buckets.
pub proof fn law_histograms_by_their_fields(
    min: u64,
    max: u64,
    num: u64,
    sum: u64,
    squares: u64,
    edges: Seq<u64>,
    counts: Seq<u64>,
)
    requires
        8 * edges.len() <= u64::MAX,
        8 * counts.len() <= u64::MAX,
    ensures
        histogram_of(
            fixed64_field(1, min) + fixed64_field(2, max) + fixed64_field(3, num) + fixed64_field(
                4,
                sum,
            ) + fixed64_field(5, squares) + bytes_field(6, packed64(edges)) + bytes_field(
                7,
                packed64(counts),
            ),
        ) == Ok::<HistogramModel, DecodeError>(
            HistogramModel {
                min,
                max,
                num,
                sum,
                sum_squares: squares,
                bucket_limit: edges,
                bucket: counts,
            },
        ),
{
    law_packed_round_trip(edges);
    law_packed_round_trip(counts);
    let schema = histogram_schema();
    let none = Seq::<u64>::empty();
    let h0 = histogram_start();
    let h1 = HistogramModel { min, ..h0 };
    let h2 = HistogramModel { max, ..h1 };
    let h3 = HistogramModel { num, ..h2 };
    let h4 = HistogramModel { sum, ..h3 };
    let h5 = HistogramModel { sum_squares: squares, ..h4 };
    let h6 = HistogramModel { bucket_limit: edges, ..h5 };
    let s7 = bytes_field(7, packed64(counts));
    let s6 = bytes_field(6, packed64(edges)) + s7;
    let s5 = fixed64_field(5, squares) + s6;
    let s4 = fixed64_field(4, sum) + s5;
    let s3 = fixed64_field(3, num) + s4;
    let s2 = fixed64_field(2, max) + s3;
    let all = fixed64_field(1, min) + fixed64_field(2, max) + fixed64_field(3, num)
        + fixed64_field(4, sum) + fixed64_field(5, squares) + bytes_field(6, packed64(edges))
        + bytes_field(7, packed64(counts));
    assert(all =~= fixed64_field(1, min) + s2);
    assert(none + edges =~= edges);
    assert(none + counts =~= counts);
    lemma_walk_fixed64(1, min, s2, h0, schema);
    lemma_walk_fixed64(2, max, s3, h1, schema);
    lemma_walk_fixed64(3, num, s4, h2, schema);
    lemma_walk_fixed64(4, sum, s5, h3, schema);
    lemma_walk_fixed64(5, squares, s6, h4, schema);
    lemma_walk_bytes(6, packed64(edges), s7, h5, schema);
    lemma_walk_one(7, packed64(counts), h6, schema);
}

/// The buckets of a histogram lie side by side: each starts where the one
/// before ends, the first at the least value, the last ends at the greatest,
/// and each has its count.
pub proof fn law_buckets_lie_side_by_side(histogram: HistogramModel, at: int)
    requires
        histogram.bucket_limit.len() == histogram.bucket.len(),
        0 <= at < histogram.bucket.len(),
    ensures
        ({
            let buckets = histogram.buckets();
            let n = histogram.bucket.len() as int;
            &&& buckets.len() == n
            &&& buckets[0].0 == histogram.min
            &&& buckets[n - 1].1 == histogram.max
            &&& at > 0 ==> buckets[at].0 == buckets[at - 1].1
            &&& at < n - 1 ==> buckets[at].1 == histogram.bucket_limit[at]
            &&& buckets[at].2 == histogram.bucket[at]
        }),
{
}

/// A record that decodes is an event whatever its checksum; one that does not
/// is corrupt where its checksum is off, and malformed where it is right.
pub proof fn law_errors_of_records(data: Seq<u8>, offset: u64, other: crate::crc::MaskedCrc)
    requires
        other != masked_crc(data),
    ensures
        event_of(data) is Ok ==> record_error(data, masked_crc(data), offset) is None
            && record_error(data, other, offset) is None,
        event_of(data) matches Err(error) ==> record_error(data, masked_crc(data), offset) == Some(
            ReadEventError::Malformed { offset, error },
        ),
        event_of(data) is Err ==> record_error(data, other, offset) == Some(
            ReadEventError::Corrupt {
                offset,
                error: ChecksumError { want: other, got: masked_crc(data) },
            },
        ),
        checksum_of(data, masked_crc(data)) is Ok,
        checksum_of(data, other) == Err::<(), ChecksumError>(
            ChecksumError { want: other, got: masked_crc(data) },
        ),
{
}

proof fn lemma_measured_units(bits: u64, n: int)
    requires
        measures(bits, n),
    ensures
        ({
            let size = if n < 0 {
                -n
            } else {
                n
            };
            &&& units(bits) == size * pow2(1064)
            &&& units(bits) as int / pow2(1074) as int == size / 1024
            &&& units(bits) as int % pow2(1074) as int == (size % 1024) * pow2(1064)
            &&& pow2(1074) == 1024 * pow2(1064)
            &&& n > 0 ==> bits < 0x8000_0000_0000_0000
            &&& n < 0 ==> bits >= 0x8000_0000_0000_0000
        }),
{
    lemma2_to64();
    lemma_pow2_adds(10, 1064);
    lemma_pow2_pos(1064);
    let p = pow2(1064) as int;
    let q = pow2(1074) as int;
    let size = if n < 0 {
        -n
    } else {
        n
    };
    assert((n > 0 ==> n * p > 0) && (n < 0 ==> n * p < 0) && (n == 0 ==> n * p == 0)) by (nonlinear_arith)
        requires
            p > 0,
    ;
    assert((-n) * p == -(n * p)) by (nonlinear_arith);
    let whole = size / 1024;
    let rest = size % 1024;
    assert(size == 1024 * whole + rest);
    assert(size * p == whole * q + rest * p) by (nonlinear_arith)
        requires
            size == 1024 * whole + rest,
            q == 1024 * p,
    ;
    assert(0 <= rest * p < q) by (nonlinear_arith)
        requires
            0 <= rest < 1024,
            q == 1024 * p,
            p > 0,
    ;
    vstd::arithmetic::div_mod::lemma_fundamental_div_mod_converse(size * p, q, whole, rest * p);
}

/// The integer part of a double drops what is behind the point, above and
/// below zero.
pub proof fn law_integer_parts(bits: u64, n: int)
    requires
        measures(bits, n),
        -0x7FFF_FFFF_FFFF < n < 0x7FFF_FFFF_FFFF,
    ensures
        n >= 0 ==> truncated(bits) == n / 1024,
        n < 0 ==> truncated(bits) == -((-n) / 1024),
{
    lemma_measured_units(bits, n);
}

/// A double is rounded to the nearest whole number, halves up.
pub proof fn law_nearest_whole_numbers(bits: u64, n: int)
    requires
        measures(bits, n),
        0 <= n < 0x7FFF_FFFF_FFFF,
    ensures
        rounded(bits) == (n + 512) / 1024,
{
    lemma_measured_units(bits, n);
    let p = pow2(1064) as int;
    let rest = n % 1024;
    lemma_pow2_pos(1064);
    assert((2 * (rest * p) >= 1024 * p) == (2 * rest >= 1024)) by (nonlinear_arith)
        requires
            p > 0,
    ;
}

/// What is no number has no integer part, and what is beyond all integers the
/// last one.
pub proof fn law_integer_parts_at_the_ends(bits: u64)
    ensures
        nan(bits) ==> truncated(bits) == 0,
        truncated(0x7FF0_0000_0000_0000) == i64::MAX,
        truncated(0xFFF0_0000_0000_0000) == i64::MIN,
{
}

/// Texts are ordered by their first difference, the smaller character first,
/// and a front before the whole.
pub proof fn law_text_order(common: Seq<char>, a: char, b: char, x: Seq<char>, y: Seq<char>)
    requires
        (a as int) < (b as int),
    ensures
        text_before(common + seq![a] + x, common + seq![b] + y),
        !text_before(common + seq![b] + y, common + seq![a] + x),
        text_before(common, common + seq![a] + x),
        !text_before(common, common),
    decreases common.len(),
{
    let p = common + seq![a] + x;
    let q = common + seq![b] + y;
    if common.len() > 0 {
        let rest = common.skip(1);
        law_text_order(rest, a, b, x, y);
        assert(p.skip(1) =~= rest + seq![a] + x);
        assert(q.skip(1) =~= rest + seq![b] + y);
        assert(p[0] == common[0] && q[0] == common[0]);
    }
}

/// White space around a text is trimmed away, and nothing else.
pub proof fn law_trimming(front: Seq<char>, text: Seq<char>, back: Seq<char>)
    requires
        text.len() > 0,
        !white(text[0]),
        !white(text.last()),
        forall|i: int| 0 <= i < front.len() ==> white(#[trigger] front[i]),
        forall|i: int| 0 <= i < back.len() ==> white(#[trigger] back[i]),
    ensures
        trimmed(front + text + back) == text,
        white(' ') && white('\t') && white('\n') && white('\r'),
        !white('a') && !white('0') && !white('_'),
{
    lemma_trim_end(front + text, back);
    lemma_trim_start(front, text);
    assert((front + text).last() == text.last());
}

proof fn lemma_trim_end(text: Seq<char>, back: Seq<char>)
    requires
        text.len() > 0,
        !white(text.last()),
        forall|i: int| 0 <= i < back.len() ==> white(#[trigger] back[i]),
    ensures
        crate::text::trimmed_end(text + back) == text,
    decreases back.len(),
{
    if back.len() == 0 {
        assert(text + back =~= text);
    } else {
        let all = text + back;
        assert(all.last() == back[back.len() - 1]);
        assert(all.drop_last() =~= text + back.drop_last());
        lemma_trim_end(text, back.drop_last());
    }
}

proof fn lemma_trim_start(front: Seq<char>, text: Seq<char>)
    requires
        text.len() > 0,
        !white(text[0]),
        forall|i: int| 0 <= i < front.len() ==> white(#[trigger] front[i]),
    ensures
        crate::text::trimmed_start(front + text) == text,
    decreases front.len(),
{
    if front.len() == 0 {
        assert(front + text =~= text);
    } else {
        let all = front + text;
        assert(all[0] == front[0]);
        assert(all.skip(1) =~= front.skip(1) + text);
        assert forall|i: int| 0 <= i < front.skip(1).len() implies white(
            #[trigger] front.skip(1)[i],
        ) by {
            assert(front.skip(1)[i] == front[i + 1]);
        }
        lemma_trim_start(front.skip(1), text);
    }
}

/// A name that is free is taken as it is; one that is not gets a tilde and a
/// number.
pub proof fn law_fresh_names(taken: Set<Seq<char>>, base: Seq<char>)
    ensures
        !taken.contains(base) ==> fresh_name(taken, base) == base,
        taken.contains(base) ==> fresh_name(taken, base).len() > base.len() && fresh_name(
            taken,
            base,
        ).take(base.len() as int) == base && fresh_name(taken, base)[base.len() as int] == '~',
{
    if taken.contains(base) {
        let n = choose|n: nat| crate::naming::first_free(taken, base, n);
        let name = base.push('~') + crate::text::decimal_text(n);
        assert(name.take(base.len() as int) =~= base);
        assert(name[base.len() as int] == '~');
    }
}

} // verus!
