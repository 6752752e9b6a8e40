//! What a summary value of an event file comes to: the messages that trainers
//! write decode field by field, and the plugin or the payload names the class
//! of the series that they make.
use vstd::prelude::*;

use crate::bytes::{le32_bytes, le64_bytes, lemma_le32, lemma_le64};
use crate::double::widened;
use crate::event::{
    data_class_of, data_type_of, image_of, image_schema, image_start, metadata_of, metadata_schema,
    metadata_start, plugin_schema, shape_of, shape_schema, tensor_of, tensor_schema, tensor_start,
    value_of, value_schema, value_start, DataClass, DataType, DatumModel, ImageModel, MetadataModel,
    TensorModel, ValueModel,
};
use crate::hparams::{
    entry_schema, hparam_of, hparam_schema, plugin_data_of, session_schema, HparamModel,
};
use crate::numeric::{Moments, Numeric};
use crate::run::{class_of, Intake};
use crate::series::{PointStamp, SeriesClass, SnapshotModel};
use crate::text::law_text_round_trip;
use crate::wire::{
    bytes_field, fixed32_field, fixed64_field, law_field_round_trip, law_packed_round_trip,
    lemma_walk_field, packed64, varint_field, walk, DecodeError, Field,
};

verus! {

/// Walking a length-delimited field, then the rest.
pub proof fn lemma_walk_bytes<A>(
    field: u32,
    bytes: Seq<u8>,
    rest: Seq<u8>,
    start: A,
    step: spec_fn(A, u32, Field) -> Result<A, DecodeError>,
)
    requires
        field > 0,
        bytes.len() <= u64::MAX,
    ensures
        walk(bytes_field(field, bytes) + rest, start, step) == (match step(
            start,
            field,
            Field::Bytes(bytes),
        ) {
            Ok(next) => walk(rest, next, step),
            Err(error) => Err(error),
        }),
{
    law_field_round_trip(field, 0, 0, bytes, rest);
    lemma_walk_field(bytes_field(field, bytes) + rest, field, Field::Bytes(bytes), rest, start, step);
}

/// Walking a varint field, then the rest.
pub proof fn lemma_walk_varint<A>(
    field: u32,
    number: u64,
    rest: Seq<u8>,
    start: A,
    step: spec_fn(A, u32, Field) -> Result<A, DecodeError>,
)
    requires
        field > 0,
    ensures
        walk(varint_field(field, number) + rest, start, step) == (match step(
            start,
            field,
            Field::Varint(number),
        ) {
            Ok(next) => walk(rest, next, step),
            Err(error) => Err(error),
        }),
{
    law_field_round_trip(field, number, 0, Seq::empty(), rest);
    lemma_walk_field(
        varint_field(field, number) + rest,
        field,
        Field::Varint(number),
        rest,
        start,
        step,
    );
}

/// Walking a double field, then the rest.
pub proof fn lemma_walk_fixed64<A>(
    field: u32,
    bits: u64,
    rest: Seq<u8>,
    start: A,
    step: spec_fn(A, u32, Field) -> Result<A, DecodeError>,
)
    requires
        field > 0,
    ensures
        walk(fixed64_field(field, bits) + rest, start, step) == (match step(
            start,
            field,
            Field::Fixed64(bits),
        ) {
            Ok(next) => walk(rest, next, step),
            Err(error) => Err(error),
        }),
{
    law_field_round_trip(field, bits, 0, Seq::empty(), rest);
    lemma_walk_field(fixed64_field(field, bits) + rest, field, Field::Fixed64(bits), rest, start, step);
}

/// Walking a float field, then the rest.
pub proof fn lemma_walk_fixed32<A>(
    field: u32,
    bits: u32,
    rest: Seq<u8>,
    start: A,
    step: spec_fn(A, u32, Field) -> Result<A, DecodeError>,
)
    requires
        field > 0,
    ensures
        walk(fixed32_field(field, bits) + rest, start, step) == (match step(
            start,
            field,
            Field::Fixed32(bits),
        ) {
            Ok(next) => walk(rest, next, step),
            Err(error) => Err(error),
        }),
{
    law_field_round_trip(field, 0, bits, Seq::empty(), rest);
    lemma_walk_field(fixed32_field(field, bits) + rest, field, Field::Fixed32(bits), rest, start, step);
}

/// A message that is one length-delimited field.
pub proof fn lemma_walk_one<A>(
    field: u32,
    bytes: Seq<u8>,
    start: A,
    step: spec_fn(A, u32, Field) -> Result<A, DecodeError>,
)
    requires
        field > 0,
        bytes.len() <= u64::MAX,
    ensures
        walk(bytes_field(field, bytes), start, step) == step(start, field, Field::Bytes(bytes)),
{
    assert(bytes_field(field, bytes) + Seq::<u8>::empty() =~= bytes_field(field, bytes));
    lemma_walk_bytes(field, bytes, Seq::empty(), start, step);
}

/// The element types of tensors have their numbers, and the data classes
/// theirs.
pub proof fn law_types_have_their_numbers()
    ensures
        data_type_of(1) == DataType::Float,
        data_type_of(2) == DataType::Double,
        data_type_of(3) == DataType::Int32,
        data_type_of(7) == DataType::String,
        data_type_of(9) == DataType::Int64,
        data_class_of(1) == DataClass::Scalar,
        data_class_of(2) == DataClass::Tensor,
        data_class_of(3) == DataClass::BlobSequence,
        forall|n: i32|
            n != 0 && n != 1 && n != 2 && n != 3 && n != 7 && n != 9 ==> #[trigger] data_type_of(n)
                == DataType::Other(n),
{
}

/// A tensor of rank zero with raw bytes decodes to its type and those bytes.
pub proof fn law_raw_tensor_round_trip(dtype: u64, content: Seq<u8>)
    requires
        dtype <= 0x7FFF_FFFF,
        content.len() <= u64::MAX,
    ensures
        tensor_of(varint_field(1, dtype) + bytes_field(2, Seq::empty()) + bytes_field(4, content))
            == Ok::<TensorModel, DecodeError>(
            TensorModel {
                dtype: data_type_of(dtype as i32),
                shape: Seq::empty(),
                tensor_content: content,
                float_val: Seq::empty(),
                double_val: Seq::empty(),
                string_val: Seq::empty(),
            },
        ),
{
    let s3 = bytes_field(4, content);
    let s2 = bytes_field(2, Seq::<u8>::empty()) + s3;
    let all = varint_field(1, dtype) + bytes_field(2, Seq::empty()) + bytes_field(4, content);
    assert(all =~= varint_field(1, dtype) + s2);
    let schema = tensor_schema();
    let t0 = tensor_start();
    let t1 = TensorModel { dtype: data_type_of(dtype as i32), ..t0 };
    assert(shape_of(Seq::empty()) == Ok::<Seq<i64>, DecodeError>(Seq::empty()));
    lemma_walk_varint(1, dtype, s2, t0, schema);
    lemma_walk_bytes(2, Seq::empty(), s3, t1, schema);
    lemma_walk_one(4, content, t1, schema);
}

/// A tensor of one float, written as a float of its own, and a tensor of one
/// double, written as a double of its own, read as that number.
pub proof fn law_listed_number_round_trip(single: u32, double: u64)
    ensures
        tensor_of(varint_field(1, 1) + fixed32_field(5, single)) matches Ok(tensor)
            && tensor.scalar() == Some(widened(single)),
        tensor_of(varint_field(1, 2) + fixed64_field(6, double)) matches Ok(tensor)
            && tensor.scalar() == Some(double),
{
    let schema = tensor_schema();
    let t0 = tensor_start();
    let floats = TensorModel { dtype: DataType::Float, ..t0 };
    lemma_walk_varint(1, 1, fixed32_field(5, single), t0, schema);
    lemma_walk_fixed32(5, single, Seq::empty(), floats, schema);
    assert(fixed32_field(5, single) + Seq::<u8>::empty() =~= fixed32_field(5, single));
    let doubles = TensorModel { dtype: DataType::Double, ..t0 };
    lemma_walk_varint(1, 2, fixed64_field(6, double), t0, schema);
    lemma_walk_fixed64(6, double, Seq::empty(), doubles, schema);
    assert(fixed64_field(6, double) + Seq::<u8>::empty() =~= fixed64_field(6, double));
    reveal_with_fuel(crate::event::element_count, 1);
}

/// A tensor of one float or one double, written as raw little-endian bytes,
/// reads as that number.
pub proof fn law_raw_number_round_trip(single: u32, double: u64)
    ensures
        tensor_of(
            varint_field(1, 1) + bytes_field(2, Seq::empty()) + bytes_field(4, le32_bytes(single)),
        ) matches Ok(tensor) && tensor.scalar() == Some(widened(single)),
        tensor_of(
            varint_field(1, 2) + bytes_field(2, Seq::empty()) + bytes_field(4, le64_bytes(double)),
        ) matches Ok(tensor) && tensor.scalar() == Some(double),
{
    lemma_le32(single, le32_bytes(single));
    lemma_le64(double, le64_bytes(double));
    law_raw_tensor_round_trip(1, le32_bytes(single));
    law_raw_tensor_round_trip(2, le64_bytes(double));
    assert(le32_bytes(single).subrange(0, 4) =~= le32_bytes(single));
    assert(le64_bytes(double).subrange(0, 8) =~= le64_bytes(double));
    reveal_with_fuel(crate::event::element_count, 1);
}

/// A tensor is a number where its sizes multiply to one, and then it is its
/// first element; one of more elements, or of none, is no number.
pub proof fn law_numbers_are_single_elements(tensor: TensorModel, a: i64, b: i64)
    requires
        tensor.float_val.len() > 0,
        tensor.double_val.len() > 0,
    ensures
        ({
            let plain = TensorModel { shape: Seq::empty(), ..tensor };
            let line = TensorModel { shape: seq![a], ..tensor };
            let sheet = TensorModel { shape: seq![a, b], ..tensor };
            &&& tensor.dtype == DataType::Float ==> plain.scalar() == Some(
                widened(tensor.float_val[0]),
            )
            &&& tensor.dtype == DataType::Double ==> plain.scalar() == Some(tensor.double_val[0])
            &&& a == 1 ==> line.scalar() == plain.scalar()
            &&& a != 1 ==> line.scalar() is None
            &&& a * b == 1 ==> sheet.scalar() == plain.scalar()
            &&& a * b != 1 ==> sheet.scalar() is None
            &&& tensor.dtype != DataType::Float && tensor.dtype != DataType::Double
                ==> plain.scalar() is None
        }),
{
    reveal_with_fuel(crate::event::element_count, 3);
    assert(seq![a].drop_last() =~= Seq::<i64>::empty());
    assert(seq![a, b].drop_last() =~= seq![a]);
    assert(crate::event::element_count(seq![a]) == a);
    assert(crate::event::element_count(seq![a, b]) == a * b);
}

/// A tensor of `k` rows of three doubles reads as `k` buckets, left edge,
/// right edge and count.
pub proof fn law_bucket_tensor_round_trip(
    tag: Seq<char>,
    metadata: Option<MetadataModel>,
    numbers: Seq<u64>,
    rows: u64,
)
    requires
        numbers.len() == 3 * rows,
        24 * rows <= i64::MAX,
    ensures
        tensor_of(
            varint_field(1, 2) + bytes_field(
                2,
                bytes_field(2, varint_field(1, rows)) + bytes_field(2, varint_field(1, 3)),
            ) + bytes_field(4, packed64(numbers)),
        ) matches Ok(tensor) && ({
            let value = ValueModel { tag, metadata, payload: DatumModel::Tensor(tensor) };
            &&& value.histogram_buckets() matches Some(buckets) && buckets.len() == rows
                && forall|i: int|
                0 <= i < rows ==> #[trigger] buckets[i] == (
                    numbers[3 * i],
                    numbers[3 * i + 1],
                    numbers[3 * i + 2],
                )
            &&& rows > 0 ==> value.scalar() is None
        }),
{
    let d1 = varint_field(1, rows);
    let d2 = varint_field(1, 3);
    let dims = bytes_field(2, d1) + bytes_field(2, d2);
    let content = packed64(numbers);
    law_packed_round_trip(numbers);
    crate::wire::law_varint_round_trip(rows, Seq::empty());
    crate::wire::law_varint_round_trip(3, Seq::empty());
    crate::wire::law_varint_round_trip(8, Seq::empty());
    crate::wire::law_varint_round_trip(18, Seq::empty());
    crate::wire::law_varint_round_trip(d1.len() as u64, Seq::empty());
    crate::wire::law_varint_round_trip(d2.len() as u64, Seq::empty());
    let schema = crate::event::dim_schema();
    assert(d1 + Seq::<u8>::empty() =~= d1);
    assert(d2 + Seq::<u8>::empty() =~= d2);
    lemma_walk_varint(1, rows, Seq::empty(), 0i64, schema);
    lemma_walk_varint(1, 3, Seq::empty(), 0i64, schema);
    assert(walk(d1, 0i64, schema) == Ok::<i64, DecodeError>(rows as i64));
    assert(walk(d2, 0i64, schema) == Ok::<i64, DecodeError>(3i64));
    let none = Seq::<i64>::empty();
    lemma_walk_bytes(2, d1, bytes_field(2, d2), none, shape_schema());
    lemma_walk_one(2, d2, none.push(rows as i64), shape_schema());
    let shape = none.push(rows as i64).push(3i64);
    assert(shape_of(dims) == Ok::<Seq<i64>, DecodeError>(shape));
    let s3 = bytes_field(4, content);
    let s2 = bytes_field(2, dims) + s3;
    let all = varint_field(1, 2) + bytes_field(2, dims) + bytes_field(4, content);
    assert(all =~= varint_field(1, 2) + s2);
    let t0 = tensor_start();
    let t1 = TensorModel { dtype: DataType::Double, ..t0 };
    let t2 = TensorModel { shape, ..t1 };
    lemma_walk_varint(1, 2, s2, t0, tensor_schema());
    lemma_walk_bytes(2, dims, s3, t1, tensor_schema());
    lemma_walk_one(4, content, t2, tensor_schema());
    let tensor = TensorModel { tensor_content: content, ..t2 };
    assert(tensor_of(all) == Ok::<TensorModel, DecodeError>(tensor));
    let value = ValueModel { tag, metadata, payload: DatumModel::Tensor(tensor) };
    assert(tensor.doubles() == Some(numbers));
    assert(shape[1] == 3 && shape[0] == rows);
    let buckets = value.histogram_buckets()->0;
    assert(buckets.len() == rows);
    assert(shape.drop_last() =~= none.push(rows as i64));
    assert(none.push(rows as i64).drop_last() =~= none);
    reveal_with_fuel(crate::event::element_count, 3);
    assert(crate::event::element_count(shape) == rows * 3);
}

/// Metadata names its plugin, carries the plugin's bytes, and its data class.
pub proof fn law_metadata_round_trip(plugin: Seq<char>, content: Seq<u8>, class: u64)
    requires
        vstd::utf8::encode_utf8(plugin).len() + content.len() + 100 <= u64::MAX,
        class <= 0x7FFF_FFFF,
    ensures
        metadata_of(
            bytes_field(
                1,
                bytes_field(1, vstd::utf8::encode_utf8(plugin)) + bytes_field(2, content),
            ) + varint_field(4, class),
        ) == Ok::<MetadataModel, DecodeError>(
            MetadataModel {
                plugin_name: plugin,
                plugin_content: content,
                data_class: data_class_of(class as i32),
            },
        ),
{
    let name = vstd::utf8::encode_utf8(plugin);
    law_text_round_trip(plugin);
    let inner = bytes_field(1, name) + bytes_field(2, content);
    let m0 = metadata_start();
    let m1 = MetadataModel { plugin_name: plugin, ..m0 };
    let m2 = MetadataModel { plugin_content: content, ..m1 };
    lemma_walk_bytes(1, name, bytes_field(2, content), m0, plugin_schema());
    lemma_walk_one(2, content, m1, plugin_schema());
    assert(walk(inner, m0, plugin_schema()) == Ok::<MetadataModel, DecodeError>(m2));
    crate::wire::law_varint_round_trip(10, Seq::empty());
    crate::wire::law_varint_round_trip(18, Seq::empty());
    crate::wire::law_varint_round_trip(name.len() as u64, Seq::empty());
    crate::wire::law_varint_round_trip(content.len() as u64, Seq::empty());
    assert(varint_field(4, class) + Seq::<u8>::empty() =~= varint_field(4, class));
    lemma_walk_bytes(1, inner, varint_field(4, class), m0, metadata_schema());
    lemma_walk_varint(4, class, Seq::empty(), m2, metadata_schema());
}

/// An image decodes to its size, its colorspace and its encoded bytes.
pub proof fn law_image_round_trip(height: u64, width: u64, colorspace: u64, encoded: Seq<u8>)
    requires
        height <= 0x7FFF_FFFF,
        width <= 0x7FFF_FFFF,
        colorspace <= 0x7FFF_FFFF,
        encoded.len() <= u64::MAX,
    ensures
        image_of(
            varint_field(1, height) + varint_field(2, width) + varint_field(3, colorspace)
                + bytes_field(4, encoded),
        ) == Ok::<ImageModel, DecodeError>(
            ImageModel {
                height: height as i32,
                width: width as i32,
                colorspace: colorspace as i32,
                encoded_image: encoded,
            },
        ),
{
    let s4 = bytes_field(4, encoded);
    let s3 = varint_field(3, colorspace) + s4;
    let s2 = varint_field(2, width) + s3;
    let all = varint_field(1, height) + varint_field(2, width) + varint_field(3, colorspace)
        + bytes_field(4, encoded);
    assert(all =~= varint_field(1, height) + s2);
    let i0 = image_start();
    let i1 = ImageModel { height: height as i32, ..i0 };
    let i2 = ImageModel { width: width as i32, ..i1 };
    let i3 = ImageModel { colorspace: colorspace as i32, ..i2 };
    lemma_walk_varint(1, height, s2, i0, image_schema());
    lemma_walk_varint(2, width, s3, i1, image_schema());
    lemma_walk_varint(3, colorspace, s4, i2, image_schema());
    lemma_walk_one(4, encoded, i3, image_schema());
}

/// A summary value decodes to its tag, its payload — a tensor, an image or a
/// histogram — and its metadata.
pub proof fn law_value_round_trip(
    tag: Seq<char>,
    payload: Seq<u8>,
    metadata: Seq<u8>,
    about: MetadataModel,
)
    requires
        vstd::utf8::encode_utf8(tag).len() <= u64::MAX,
        payload.len() <= u64::MAX,
        metadata.len() <= u64::MAX,
        metadata_of(metadata) == Ok::<MetadataModel, DecodeError>(about),
    ensures
        tensor_of(payload) matches Ok(tensor) ==> value_of(
            bytes_field(1, vstd::utf8::encode_utf8(tag)) + bytes_field(8, payload) + bytes_field(
                9,
                metadata,
            ),
        ) == Ok::<ValueModel, DecodeError>(
            ValueModel { tag, metadata: Some(about), payload: DatumModel::Tensor(tensor) },
        ),
        image_of(payload) matches Ok(image) ==> value_of(
            bytes_field(1, vstd::utf8::encode_utf8(tag)) + bytes_field(4, payload) + bytes_field(
                9,
                metadata,
            ),
        ) == Ok::<ValueModel, DecodeError>(
            ValueModel { tag, metadata: Some(about), payload: DatumModel::Image(image) },
        ),
        crate::event::histogram_of(payload) matches Ok(histogram) ==> value_of(
            bytes_field(1, vstd::utf8::encode_utf8(tag)) + bytes_field(5, payload) + bytes_field(
                9,
                metadata,
            ),
        ) == Ok::<ValueModel, DecodeError>(
            ValueModel { tag, metadata: Some(about), payload: DatumModel::Histogram(histogram) },
        ),
{
    let name = vstd::utf8::encode_utf8(tag);
    law_text_round_trip(tag);
    let v0 = value_start();
    let v1 = ValueModel { tag, ..v0 };
    let back = bytes_field(9, metadata);
    let schema = value_schema();
    if let Ok(tensor) = tensor_of(payload) {
        let rest = bytes_field(8, payload) + back;
        assert(bytes_field(1, name) + bytes_field(8, payload) + back =~= bytes_field(1, name) + rest);
        let v2 = ValueModel { payload: DatumModel::Tensor(tensor), ..v1 };
        lemma_walk_bytes(1, name, rest, v0, schema);
        lemma_walk_bytes(8, payload, back, v1, schema);
        lemma_walk_one(9, metadata, v2, schema);
    }
    if let Ok(image) = image_of(payload) {
        let rest = bytes_field(4, payload) + back;
        assert(bytes_field(1, name) + bytes_field(4, payload) + back =~= bytes_field(1, name) + rest);
        let v2 = ValueModel { payload: DatumModel::Image(image), ..v1 };
        lemma_walk_bytes(1, name, rest, v0, schema);
        lemma_walk_bytes(4, payload, back, v1, schema);
        lemma_walk_one(9, metadata, v2, schema);
    }
    if let Ok(histogram) = crate::event::histogram_of(payload) {
        let rest = bytes_field(5, payload) + back;
        assert(bytes_field(1, name) + bytes_field(5, payload) + back =~= bytes_field(1, name) + rest);
        let v2 = ValueModel { payload: DatumModel::Histogram(histogram), ..v1 };
        lemma_walk_bytes(1, name, rest, v0, schema);
        lemma_walk_bytes(5, payload, back, v1, schema);
        lemma_walk_one(9, metadata, v2, schema);
    }
}

/// The plugins of scalars, histograms, images and text make series of those
/// classes, whatever the payload.
pub proof fn law_plugins_name_the_class(value: ValueModel, about: MetadataModel)
    requires
        value.metadata == Some(about),
    ensures
        about.plugin_name == "scalars"@ ==> class_of(value) == SeriesClass::Scalar,
        about.plugin_name == "histograms"@ ==> class_of(value) == SeriesClass::Histogram,
        about.plugin_name == "images"@ ==> class_of(value) == SeriesClass::Image,
        about.plugin_name == "text"@ ==> class_of(value) == SeriesClass::Text,
{
    reveal_strlit("scalars");
    reveal_strlit("histograms");
    reveal_strlit("images");
    reveal_strlit("text");
    assert("scalars"@.len() == 7 && "histograms"@.len() == 10);
    assert("images"@.len() == 6 && "text"@.len() == 4);
}

/// No plugin, or one that names none of the four classes.
pub open spec fn unclassed(value: ValueModel) -> bool {
    value.metadata matches Some(about) ==> {
        &&& about.plugin_name != "scalars"@
        &&& about.plugin_name != "histograms"@
        &&& about.plugin_name != "images"@
        &&& about.plugin_name != "text"@
    }
}

/// Without such a plugin the payload shows the class: what reads as a number is
/// a scalar, histograms and images are what they are, strings are text, and
/// rows of buckets are a histogram.
pub proof fn law_payload_shows_the_class(value: ValueModel)
    requires
        unclassed(value),
    ensures
        value.scalar() is Some ==> class_of(value) == SeriesClass::Scalar,
        value.payload is Simple ==> class_of(value) == SeriesClass::Scalar,
        value.payload is Histogram ==> class_of(value) == SeriesClass::Histogram,
        value.payload is Image ==> class_of(value) == SeriesClass::Image,
        value.payload matches DatumModel::Tensor(tensor) && tensor.dtype == DataType::String
            ==> class_of(value) == SeriesClass::Text,
        value.histogram_buckets() is Some && value.scalar() is None ==> class_of(value)
            == SeriesClass::Histogram,
        value.payload is Other ==> class_of(value) == SeriesClass::Unknown,
{
}

/// A float of TF1 is the number that it is, in a double.
pub proof fn law_simple_value_is_its_number(value: ValueModel, bits: u32)
    requires
        value.payload == DatumModel::Simple(bits),
    ensures
        value.scalar() == Some(widened(bits)),
{
}

impl<
    F: Fn(&str) -> Option<u64>,
    G: Fn(u64) -> u64,
    H: Fn(Moments, u64) -> Moments,
> Numeric<F, G, H> {
    /// The first value under a tag makes a series of its class, with the plugin
    /// that it names, one point, and that point the last.
    pub proof fn law_first_value_makes_the_series(
        self,
        intake: Intake,
        name: Seq<char>,
        step: i64,
        wall: u64,
        value: ValueModel,
    )
        requires
            !intake.run.series.dom().contains(value.tag),
            value.tag.len() == 0 || value.tag[0] != '_',
        ensures
            ({
                let after = self.take_value(intake, name, step, wall, value);
                let series = after.run.series[value.tag];
                &&& after.run.series.dom() == intake.run.series.dom().insert(value.tag)
                &&& series.class == class_of(value)
                &&& series.segments.len() == 1
                &&& series.segments[0].count == 1
                &&& series.segments[0].first == series.segments[0].last
                &&& series.segments[0].last.step == step
                &&& series.segments[0].last.wall == wall
                &&& value.scalar() matches Some(bits) ==> series.segments[0].last.value == bits
                &&& value.metadata matches Some(about) ==> about.plugin_name.len() > 0
                    ==> series.plugin == Some(about.plugin_name)
                &&& after.run.preemptions == intake.run.preemptions
                &&& after.run.hparams == intake.run.hparams
            }),
    {
        reveal_strlit("_hparams_/");
        if crate::run::marks_hparams(value.tag) {
            assert(value.tag.take(10)[0] == '_');
        }
        let after = self.take_value(intake, name, step, wall, value);
        assert(after.run.series.dom() =~= intake.run.series.dom().insert(value.tag));
    }

    /// A series keeps the class that its first classifiable value gave it.
    pub proof fn law_class_is_fixed_once(
        self,
        intake: Intake,
        name: Seq<char>,
        step: i64,
        wall: u64,
        value: ValueModel,
        tag: Seq<char>,
    )
        requires
            intake.run.series.dom().contains(tag),
            intake.run.series[tag].class != SeriesClass::Unknown,
        ensures
            ({
                let after = self.take_value(intake, name, step, wall, value);
                &&& after.run.series.dom().contains(tag)
                &&& after.run.series[tag].class == intake.run.series[tag].class
            }),
    {
    }

    /// A held scalar series grows by the number of each of its values, and a
    /// held histogram series by the buckets, at their step and wall time.
    pub proof fn law_held_series_grow_by_their_values(
        self,
        intake: Intake,
        name: Seq<char>,
        step: i64,
        wall: u64,
        value: ValueModel,
    )
        requires
            intake.run.series.dom().contains(value.tag),
            value.tag.len() == 0 || value.tag[0] != '_',
        ensures
            ({
                let key = (name, value.tag);
                let class = intake.run.series[value.tag].class;
                let after = self.take_value(intake, name, step, wall, value);
                &&& class == SeriesClass::Scalar && intake.points.dom().contains(key)
                    ==> after.points.dom().contains(key) && (value.scalar() matches Some(bits)
                    ==> after.points[key].0 == intake.points[key].0.pushed(
                    PointStamp { step, wall, value: bits },
                ))
                &&& class == SeriesClass::Histogram && intake.histograms.dom().contains(key)
                    ==> after.histograms.dom().contains(key) && (value.histogram_buckets() matches Some(
                    buckets,
                ) ==> after.histograms[key].0 == intake.histograms[key].0.pushed(
                    SnapshotModel { step, wall, buckets },
                ))
                &&& class != SeriesClass::Scalar && class != SeriesClass::Unknown ==> after.points
                    == intake.points
            }),
    {
        reveal_strlit("_hparams_/");
        if crate::run::marks_hparams(value.tag) {
            assert(value.tag.take(10)[0] == '_');
        }
    }

    /// What the hparams plugin marks is no series, and no point.
    pub proof fn law_hparams_markers_are_no_series(
        self,
        intake: Intake,
        name: Seq<char>,
        step: i64,
        wall: u64,
        value: ValueModel,
        rest: Seq<char>,
    )
        requires
            value.tag == "_hparams_/"@ + rest,
        ensures
            ({
                let after = self.take_value(intake, name, step, wall, value);
                &&& after.run.series == intake.run.series
                &&& after.points == intake.points
                &&& after.histograms == intake.histograms
                &&& after.report == intake.report
            }),
    {
        reveal_strlit("_hparams_/");
        assert(value.tag.take(10) =~= "_hparams_/"@);
    }

    /// The session start of the hparams plugin gives its hyperparameters to the
    /// run: each of them, over what the run had under that key, and no other
    /// changes.
    pub proof fn law_session_start_gives_hparams(
        self,
        intake: Intake,
        name: Seq<char>,
        step: i64,
        wall: u64,
        value: ValueModel,
        about: MetadataModel,
        given: Map<Seq<char>, HparamModel>,
    )
        requires
            value.tag == "_hparams_/session_start_info"@,
            value.metadata == Some(about),
            about.plugin_name == "hparams"@,
            plugin_data_of(about.plugin_content) == Ok::<Map<Seq<char>, HparamModel>, DecodeError>(
                given,
            ),
        ensures
            ({
                let after = self.take_value(intake, name, step, wall, value).run.hparams;
                &&& forall|key: Seq<char>| #[trigger]
                    given.dom().contains(key) ==> after.dom().contains(key) && after[key]
                        == given[key]
                &&& forall|key: Seq<char>|
                    !given.dom().contains(key) ==> (#[trigger] after.dom().contains(key)
                        == intake.run.hparams.dom().contains(key)) && (after.dom().contains(key)
                        ==> after[key] == intake.run.hparams[key])
            }),
    {
        reveal_strlit("_hparams_/");
        reveal_strlit("_hparams_/session_start_info");
        reveal_strlit("hparams");
        assert(value.tag.take(10) =~= "_hparams_/"@);
    }
}

/// A hyperparameter reads back as the number, the text or the truth it was
/// written as.
pub proof fn law_hparam_round_trip(bits: u64, text: Seq<char>, truth: bool)
    requires
        vstd::utf8::encode_utf8(text).len() <= u64::MAX,
    ensures
        hparam_of(fixed64_field(2, bits)) == Ok::<Option<HparamModel>, DecodeError>(
            Some(HparamModel::Number(bits)),
        ),
        hparam_of(bytes_field(3, vstd::utf8::encode_utf8(text))) == Ok::<
            Option<HparamModel>,
            DecodeError,
        >(Some(HparamModel::Text(text))),
        hparam_of(
            varint_field(
                4,
                if truth {
                    1
                } else {
                    0
                },
            ),
        ) == Ok::<Option<HparamModel>, DecodeError>(Some(HparamModel::Truth(truth))),
{
    let none = None::<HparamModel>;
    law_text_round_trip(text);
    lemma_walk_fixed64(2, bits, Seq::empty(), none, hparam_schema());
    assert(fixed64_field(2, bits) + Seq::<u8>::empty() =~= fixed64_field(2, bits));
    lemma_walk_one(3, vstd::utf8::encode_utf8(text), none, hparam_schema());
    let number: u64 = if truth {
        1
    } else {
        0
    };
    lemma_walk_varint(4, number, Seq::empty(), none, hparam_schema());
    assert(varint_field(4, number) + Seq::<u8>::empty() =~= varint_field(4, number));
}

/// A session start of one hyperparameter reads back as that key with that
/// value.
pub proof fn law_session_round_trip(key: Seq<char>, spelled: Seq<u8>, value: HparamModel)
    requires
        vstd::utf8::encode_utf8(key).len() + spelled.len() + 200 <= u64::MAX,
        hparam_of(spelled) == Ok::<Option<HparamModel>, DecodeError>(Some(value)),
    ensures
        plugin_data_of(
            bytes_field(
                3,
                bytes_field(
                    1,
                    bytes_field(1, vstd::utf8::encode_utf8(key)) + bytes_field(2, spelled),
                ),
            ),
        ) == Ok::<Map<Seq<char>, HparamModel>, DecodeError>(
            Map::<Seq<char>, HparamModel>::empty().insert(key, value),
        ),
{
    let name = vstd::utf8::encode_utf8(key);
    law_text_round_trip(key);
    let entry = bytes_field(1, name) + bytes_field(2, spelled);
    let e0 = (Seq::<char>::empty(), None::<HparamModel>);
    let e1 = (key, None::<HparamModel>);
    lemma_walk_bytes(1, name, bytes_field(2, spelled), e0, entry_schema());
    lemma_walk_one(2, spelled, e1, entry_schema());
    assert(walk(entry, e0, entry_schema()) == Ok::<
        (Seq<char>, Option<HparamModel>),
        DecodeError,
    >((key, Some(value))));
    crate::wire::law_varint_round_trip(10, Seq::empty());
    crate::wire::law_varint_round_trip(18, Seq::empty());
    crate::wire::law_varint_round_trip(name.len() as u64, Seq::empty());
    crate::wire::law_varint_round_trip(spelled.len() as u64, Seq::empty());
    crate::wire::law_varint_round_trip(entry.len() as u64, Seq::empty());
    let session = bytes_field(1, entry);
    lemma_walk_one(1, entry, Map::<Seq<char>, HparamModel>::empty(), session_schema());
    law_field_round_trip(3, 0, 0, session, Seq::empty());
    assert(bytes_field(3, session) + Seq::<u8>::empty() =~= bytes_field(3, session));
}

} // verus!
