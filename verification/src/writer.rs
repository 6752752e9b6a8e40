//! A minimal tfevents *writer* — for tests, fixtures, and benchmarks.
//!
//! The viewer itself never writes into a run directory (it is a read-only
//! observer); this module exists so that code exercising the readers can
//! produce byte-exact synthetic files without a protobuf library. It covers
//! only what those need: TFRecord framing and TF1-style events.
use vstd::prelude::*;

use crate::bytes::{put_bytes, put_le32, put_le64};
use crate::crc::MaskedCrc;
use crate::event::{
    event_of, event_schema, event_start, histogram_of, histogram_schema, histogram_start,
    summary_of, summary_schema, value_of, value_schema, value_start, Bucket, DatumModel, EventModel,
    HistogramModel, PayloadModel, ValueModel,
};
use crate::record::{file_bytes, record_bytes};
use crate::text::law_text_round_trip;
use crate::wire::{
    bytes_field, fixed32_field, fixed64_field, law_field_round_trip, law_packed_round_trip,
    lemma_walk_field, packed64, read_field, varint_bytes, varint_field, walk, whole_fields,
    DecodeError, Field,
};

verus! {

/// Appends one TFRecord (length, masked length CRC, payload, masked payload
/// CRC) to `out`.
pub fn write_record(out: &mut Vec<u8>, payload: &[u8])
    ensures
        final(out)@ == old(out)@ + record_bytes(payload@),
{
    let mut length: Vec<u8> = Vec::new();
    put_le64(&mut length, payload.len() as u64);
    assert(length@ =~= crate::bytes::le64_bytes(payload@.len() as u64));
    put_bytes(out, &length);
    put_le32(out, MaskedCrc::compute(&length).0);
    put_bytes(out, payload);
    put_le32(out, MaskedCrc::compute(payload).0);
    assert(out@ =~= old(out)@ + record_bytes(payload@));
}

/// The bytes of a `file_version` event.
pub open spec fn file_version_bytes() -> Seq<u8> {
    bytes_field(3, vstd::utf8::encode_utf8("brain.Event:2"@))
}

/// Encodes a `file_version` event (`brain.Event:2`), the first record of
/// every real events file.
pub fn file_version_event() -> (event: Vec<u8>)
    ensures
        event@ == file_version_bytes(),
{
    let mut event: Vec<u8> = Vec::new();
    field_bytes(3, "brain.Event:2".as_bytes(), &mut event);
    assert(event@ =~= file_version_bytes());
    event
}

/// The bytes of an event around a summary of one value.
pub open spec fn event_bytes(wall_time: u64, step: i64, value: Seq<u8>) -> Seq<u8> {
    fixed64_field(1, wall_time) + varint_field(2, step as u64) + bytes_field(
        5,
        bytes_field(1, value),
    )
}

/// The bytes of a value with a tag and a float.
pub open spec fn scalar_value_bytes(tag: Seq<char>, value: u32) -> Seq<u8> {
    bytes_field(1, vstd::utf8::encode_utf8(tag)) + fixed32_field(2, value)
}

/// Appends the bytes of an event around a summary of one value.
fn put_event(wall_time: u64, step: i64, value: &[u8], event: &mut Vec<u8>)
    ensures
        final(event)@ == old(event)@ + event_bytes(wall_time, step, value@),
{
    let mut summary: Vec<u8> = Vec::new();
    field_bytes(1, value, &mut summary);
    assert(summary@ =~= bytes_field(1, value@));
    varint(1 * 8 + 1, event);
    put_le64(event, wall_time);
    varint(2 * 8, event);
    varint(step as u64, event);
    field_bytes(5, &summary, event);
    assert(event@ =~= old(event)@ + event_bytes(wall_time, step, value@));
}

/// Encodes one TF1-style scalar event: a `Summary` with a single
/// `simple_value` under `tag`. The numbers are bit patterns, of a double and
/// of a single.
pub fn scalar_event(wall_time: u64, step: i64, tag: &str, value: u32) -> (event: Vec<u8>)
    ensures
        event@ == event_bytes(wall_time, step, scalar_value_bytes(tag@, value)),
{
    let mut summary_value: Vec<u8> = Vec::new();
    field_bytes(1, tag.as_bytes(), &mut summary_value);
    varint(2 * 8 + 5, &mut summary_value);
    put_le32(&mut summary_value, value);
    assert(summary_value@ =~= scalar_value_bytes(tag@, value));
    let mut event: Vec<u8> = Vec::new();
    put_event(wall_time, step, &summary_value, &mut event);
    assert(event@ =~= event_bytes(wall_time, step, scalar_value_bytes(tag@, value)));
    event
}

/// The right edges of buckets.
pub open spec fn right_edges(buckets: Seq<Bucket>) -> Seq<u64> {
    buckets.map_values(|bucket: Bucket| bucket.1)
}

/// The counts of buckets.
pub open spec fn counts(buckets: Seq<Bucket>) -> Seq<u64> {
    buckets.map_values(|bucket: Bucket| bucket.2)
}

/// The left edge of the first bucket; zero where there is none.
pub open spec fn outer_left(buckets: Seq<Bucket>) -> u64 {
    if buckets.len() == 0 {
        0
    } else {
        buckets[0].0
    }
}

/// The right edge of the last bucket; zero where there is none.
pub open spec fn outer_right(buckets: Seq<Bucket>) -> u64 {
    if buckets.len() == 0 {
        0
    } else {
        buckets.last().1
    }
}

/// The bytes of a histogram.
pub open spec fn histogram_bytes(buckets: Seq<Bucket>, total: u64) -> Seq<u8> {
    fixed64_field(1, outer_left(buckets)) + fixed64_field(2, outer_right(buckets)) + fixed64_field(
        3,
        total,
    ) + bytes_field(6, packed64(right_edges(buckets))) + bytes_field(7, packed64(counts(buckets)))
}

/// The bytes of a value with a tag and a histogram.
pub open spec fn histogram_value_bytes(tag: Seq<char>, buckets: Seq<Bucket>, total: u64) -> Seq<
    u8,
> {
    bytes_field(1, vstd::utf8::encode_utf8(tag)) + bytes_field(5, histogram_bytes(buckets, total))
}

/// Appends a double field.
fn field_fixed64(field: u32, bits: u64, out: &mut Vec<u8>)
    ensures
        final(out)@ == old(out)@ + fixed64_field(field, bits),
{
    varint(field as u64 * 8 + 1, out);
    put_le64(out, bits);
    assert(out@ =~= old(out)@ + fixed64_field(field, bits));
}

/// Encodes one TF1-style histogram event: a `HistogramProto` with the given
/// `(left, right, count)` buckets under `tag`. Interior edges become
/// `bucket_limit`s; the outer edges become `min`/`max`. `total` is the sum of
/// the counts.
pub fn histogram_event(
    wall_time: u64,
    step: i64,
    tag: &str,
    buckets: &[Bucket],
    total: u64,
) -> (event: Vec<u8>)
    ensures
        event@ == event_bytes(wall_time, step, histogram_value_bytes(tag@, buckets@, total)),
{
    let mut histogram: Vec<u8> = Vec::new();
    let min: u64 = if buckets.len() == 0 {
        0
    } else {
        buckets[0].0
    };
    let max: u64 = if buckets.len() == 0 {
        0
    } else {
        buckets[buckets.len() - 1].1
    };
    field_fixed64(1, min, &mut histogram);
    field_fixed64(2, max, &mut histogram);
    field_fixed64(3, total, &mut histogram);
    let mut limits: Vec<u8> = Vec::new();
    let mut heights: Vec<u8> = Vec::new();
    let mut i: usize = 0;
    assert(right_edges(buckets@.take(0)) =~= Seq::<u64>::empty());
    assert(counts(buckets@.take(0)) =~= Seq::<u64>::empty());
    while i < buckets.len()
        invariant
            i <= buckets@.len(),
            limits@ == packed64(right_edges(buckets@.take(i as int))),
            heights@ == packed64(counts(buckets@.take(i as int))),
        decreases buckets@.len() - i,
    {
        let (left, right, count) = buckets[i];
        put_le64(&mut limits, right);
        put_le64(&mut heights, count);
        proof {
            let longer = buckets@.take(i + 1);
            assert(right_edges(longer).drop_last() =~= right_edges(buckets@.take(i as int)));
            assert(right_edges(longer).last() == right);
            assert(counts(longer).drop_last() =~= counts(buckets@.take(i as int)));
            assert(counts(longer).last() == count);
        }
        i += 1;
    }
    assert(buckets@.take(buckets@.len() as int) =~= buckets@);
    field_bytes(6, &limits, &mut histogram);
    field_bytes(7, &heights, &mut histogram);
    assert(histogram@ =~= histogram_bytes(buckets@, total));

    let mut summary_value: Vec<u8> = Vec::new();
    field_bytes(1, tag.as_bytes(), &mut summary_value);
    field_bytes(5, &histogram, &mut summary_value);
    assert(summary_value@ =~= histogram_value_bytes(tag@, buckets@, total));
    let mut event: Vec<u8> = Vec::new();
    put_event(wall_time, step, &summary_value, &mut event);
    assert(event@ =~= event_bytes(
        wall_time,
        step,
        histogram_value_bytes(tag@, buckets@, total),
    ));
    event
}

/// The payloads of an events file: its version, then its events.
pub open spec fn payloads_with_version(events: Seq<Vec<u8>>) -> Seq<Seq<u8>> {
    seq![file_version_bytes()] + events.map_values(|event: Vec<u8>| event@)
}

/// A complete little events file: `file_version` followed by the given
/// pre-encoded event payloads, each framed as a TFRecord.
pub fn events_file(events: &[Vec<u8>]) -> (file: Vec<u8>)
    ensures
        file@ == file_bytes(payloads_with_version(events@)),
{
    let mut out: Vec<u8> = Vec::new();
    let version = file_version_event();
    write_record(&mut out, &version);
    proof {
        let first = payloads_with_version(events@.take(0));
        assert(first =~= seq![version@]);
        assert(first.drop_last() =~= Seq::<Seq<u8>>::empty());
        assert(file_bytes(first.drop_last()) =~= Seq::<u8>::empty());
        assert(out@ =~= file_bytes(first));
    }
    let mut i: usize = 0;
    while i < events.len()
        invariant
            i <= events@.len(),
            out@ == file_bytes(payloads_with_version(events@.take(i as int))),
        decreases events@.len() - i,
    {
        write_record(&mut out, &events[i]);
        proof {
            let longer = payloads_with_version(events@.take(i + 1));
            assert(longer.drop_last() =~= payloads_with_version(events@.take(i as int)));
            assert(longer.last() == events@[i as int]@);
        }
        i += 1;
    }
    assert(events@.take(events@.len() as int) =~= events@);
    out
}

/// Appends the varint encoding of `value`.
pub fn varint(value: u64, out: &mut Vec<u8>)
    ensures
        final(out)@ == old(out)@ + varint_bytes(value as nat),
{
    let mut value: u64 = value;
    let ghost whole = varint_bytes(value as nat);
    while value >= 128
        invariant
            out@ + varint_bytes(value as nat) == old(out)@ + whole,
        decreases value,
    {
        let ghost before = out@;
        let ghost digits = varint_bytes(value as nat);
        out.push((value % 128 + 128) as u8);
        value = value / 128;
        assert(out@ + varint_bytes(value as nat) =~= before + digits);
    }
    out.push(value as u8);
    assert(out@ =~= old(out)@ + whole);
}

/// Appends a length-delimited field.
pub fn field_bytes(field: u32, value: &[u8], out: &mut Vec<u8>)
    ensures
        final(out)@ == old(out)@ + bytes_field(field, value@),
{
    varint(field as u64 * 8 + 2, out);
    varint(value.len() as u64, out);
    put_bytes(out, value);
    assert(out@ =~= old(out)@ + bytes_field(field, value@));
}

/// Walking the one length-delimited field that a message consists of.
proof fn lemma_single_bytes_field<A>(
    field: u32,
    bytes: Seq<u8>,
    start: A,
    step: spec_fn(A, u32, Field) -> Result<A, DecodeError>,
)
    requires
        field > 0,
        bytes.len() <= u64::MAX,
    ensures
        walk(bytes_field(field, bytes), start, step) == step(start, field, Field::Bytes(bytes)),
{
    law_field_round_trip(field, 0, 0, bytes, Seq::empty());
    assert(bytes_field(field, bytes) + Seq::<u8>::empty() =~= bytes_field(field, bytes));
    lemma_walk_field(
        bytes_field(field, bytes),
        field,
        Field::Bytes(bytes),
        Seq::empty(),
        start,
        step,
    );
}

/// An event around a summary of one value decodes to that value, at its step
/// and wall time.
pub proof fn law_event_round_trip(wall_time: u64, step: i64, value: Seq<u8>, model: ValueModel)
    requires
        value_of(value) == Ok::<ValueModel, DecodeError>(model),
        bytes_field(1, value).len() <= u64::MAX,
    ensures
        event_of(event_bytes(wall_time, step, value)) == Ok::<EventModel, DecodeError>(
            EventModel { wall_time, step, payload: PayloadModel::Summary(seq![model]) },
        ),
{
    let summary = bytes_field(1, value);
    lemma_single_bytes_field(1, value, Seq::<ValueModel>::empty(), summary_schema());
    assert(summary_of(summary) == Ok::<Seq<ValueModel>, DecodeError>(
        Seq::<ValueModel>::empty().push(model),
    ));
    assert(Seq::<ValueModel>::empty().push(model) =~= seq![model]);
    assert((step as u64) as i64 == step) by (bit_vector);

    let third = bytes_field(5, summary);
    let second = varint_field(2, step as u64) + third;
    let all = event_bytes(wall_time, step, value);
    assert(all =~= fixed64_field(1, wall_time) + second);
    law_field_round_trip(1, wall_time, 0, Seq::empty(), second);
    law_field_round_trip(2, step as u64, 0, Seq::empty(), third);
    let e0 = event_start();
    let e1 = EventModel { wall_time, ..e0 };
    let e2 = EventModel { step, ..e1 };
    lemma_walk_field(all, 1, Field::Fixed64(wall_time), second, e0, event_schema());
    lemma_walk_field(second, 2, Field::Varint(step as u64), third, e1, event_schema());
    lemma_single_bytes_field(5, summary, e2, event_schema());
}

/// A written scalar event decodes to its tag, step, wall time and value.
pub proof fn law_scalar_event_round_trip(wall_time: u64, step: i64, tag: Seq<char>, value: u32)
    requires
        scalar_value_bytes(tag, value).len() + 20 <= u64::MAX,
    ensures
        event_of(event_bytes(wall_time, step, scalar_value_bytes(tag, value))) == Ok::<
            EventModel,
            DecodeError,
        >(
            EventModel {
                wall_time,
                step,
                payload: PayloadModel::Summary(
                    seq![ValueModel { tag, metadata: None, payload: DatumModel::Simple(value) }],
                ),
            },
        ),
{
    let name = vstd::utf8::encode_utf8(tag);
    let bytes = scalar_value_bytes(tag, value);
    let second = fixed32_field(2, value);
    law_text_round_trip(tag);
    law_field_round_trip(1, 0, 0, name, second);
    law_field_round_trip(2, 0, value, Seq::empty(), Seq::empty());
    assert(second + Seq::<u8>::empty() =~= second);
    let v0 = value_start();
    let v1 = ValueModel { tag, ..v0 };
    lemma_walk_field(bytes, 1, Field::Bytes(name), second, v0, value_schema());
    lemma_walk_field(second, 2, Field::Fixed32(value), Seq::empty(), v1, value_schema());
    let model = ValueModel { tag, metadata: None, payload: DatumModel::Simple(value) };
    assert(value_of(bytes) == Ok::<ValueModel, DecodeError>(model));
    lemma_bytes_field_len(1, bytes);
    law_event_round_trip(wall_time, step, bytes, model);
}

proof fn lemma_bytes_field_len(field: u32, bytes: Seq<u8>)
    requires
        bytes.len() <= u64::MAX,
    ensures
        bytes_field(field, bytes).len() <= bytes.len() + 20,
{
    crate::wire::law_varint_round_trip((field * 8 + 2) as u64, Seq::empty());
    crate::wire::law_varint_round_trip(bytes.len() as u64, Seq::empty());
}

/// A written histogram decodes to its outer edges, its total, its right
/// edges and its counts.
pub proof fn law_histogram_round_trip(buckets: Seq<Bucket>, total: u64)
    requires
        8 * buckets.len() <= u64::MAX,
    ensures
        histogram_of(histogram_bytes(buckets, total)) == Ok::<HistogramModel, DecodeError>(
            HistogramModel {
                min: outer_left(buckets),
                max: outer_right(buckets),
                num: total,
                sum: 0,
                sum_squares: 0,
                bucket_limit: right_edges(buckets),
                bucket: counts(buckets),
            },
        ),
{
    let min = outer_left(buckets);
    let max = outer_right(buckets);
    let limits = packed64(right_edges(buckets));
    let heights = packed64(counts(buckets));
    law_packed_round_trip(right_edges(buckets));
    law_packed_round_trip(counts(buckets));
    let s5 = bytes_field(7, heights);
    let s4 = bytes_field(6, limits) + s5;
    let s3 = fixed64_field(3, total) + s4;
    let s2 = fixed64_field(2, max) + s3;
    let s1 = histogram_bytes(buckets, total);
    assert(s1 =~= fixed64_field(1, min) + s2);
    law_field_round_trip(1, min, 0, Seq::empty(), s2);
    law_field_round_trip(2, max, 0, Seq::empty(), s3);
    law_field_round_trip(3, total, 0, Seq::empty(), s4);
    law_field_round_trip(6, 0, 0, limits, s5);
    let schema = histogram_schema();
    let h0 = histogram_start();
    let h1 = HistogramModel { min, ..h0 };
    let h2 = HistogramModel { max, ..h1 };
    let h3 = HistogramModel { num: total, ..h2 };
    let h4 = HistogramModel { bucket_limit: right_edges(buckets), ..h3 };
    assert(h3.bucket_limit + right_edges(buckets) =~= right_edges(buckets));
    assert(h4.bucket + counts(buckets) =~= counts(buckets));
    lemma_walk_field(s1, 1, Field::Fixed64(min), s2, h0, schema);
    lemma_walk_field(s2, 2, Field::Fixed64(max), s3, h1, schema);
    lemma_walk_field(s3, 3, Field::Fixed64(total), s4, h2, schema);
    lemma_walk_field(s4, 6, Field::Bytes(limits), s5, h3, schema);
    lemma_single_bytes_field(7, heights, h4, schema);
}

/// Buckets that touch read back as they were written: the histogram of
/// contiguous buckets has exactly those buckets.
pub proof fn law_contiguous_buckets_round_trip(buckets: Seq<Bucket>, total: u64)
    requires
        8 * buckets.len() <= u64::MAX,
        forall|i: int|
            #![trigger buckets[i]]
            0 < i < buckets.len() ==> buckets[i].0 == buckets[i - 1].1,
    ensures
        histogram_of(histogram_bytes(buckets, total)) matches Ok(histogram)
            && histogram.buckets() == buckets,
{
    law_histogram_round_trip(buckets, total);
    let histogram = histogram_of(histogram_bytes(buckets, total))->Ok_0;
    let read = histogram.buckets();
    assert(read.len() == buckets.len());
    assert forall|i: int| 0 <= i < buckets.len() implies read[i] == buckets[i] by {
        if i > 0 {
            assert(histogram.bucket_limit[i - 1] == buckets[i - 1].1);
        }
        assert(histogram.bucket_limit[i] == buckets[i].1);
        assert(histogram.bucket[i] == buckets[i].2);
    }
    assert(read =~= buckets);
}

/// A field number that the event schema does not know is skipped wherever it
/// stands between whole fields: what is around it decodes, or is refused, as
/// without it.
pub proof fn law_event_skips_unknown_fields(
    front: Seq<u8>,
    unknown: Seq<u8>,
    back: Seq<u8>,
    field: u32,
    value: Field,
)
    requires
        whole_fields(front),
        read_field(unknown) == Ok::<Option<(u32, Field, Seq<u8>)>, DecodeError>(
            Some((field, value, Seq::empty())),
        ),
        field != 1 && field != 2 && field != 3 && field != 5,
    ensures
        event_of(front + unknown + back) == event_of(front + back),
{
    crate::wire::law_ignored_field_is_skipped(
        front,
        unknown,
        back,
        event_start(),
        event_schema(),
        field,
        value,
    );
}

/// The first record of a written file decodes to the version it names.
pub proof fn law_file_version_round_trip()
    ensures
        event_of(file_version_bytes()) == Ok::<EventModel, DecodeError>(
            EventModel {
                wall_time: 0,
                step: 0,
                payload: PayloadModel::FileVersion("brain.Event:2"@),
            },
        ),
{
    reveal_strlit("brain.Event:2");
    let version = vstd::utf8::encode_utf8("brain.Event:2"@);
    law_text_round_trip("brain.Event:2"@);
    assert(version.len() == 13) by {
        vstd::utf8::is_ascii_chars_encode_utf8("brain.Event:2"@);
    }
    lemma_single_bytes_field(3, version, event_start(), event_schema());
}

} // verus!
