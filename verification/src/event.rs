//! Typed decoding of the tfevents `Event` proto and the summary messages
//! inside it.
//!
//! Only the fields a viewer needs are decoded — TF1 and TF2 scalars,
//! histograms, images, text, and summary metadata; everything else is skipped
//! at the wire level, which is how protobuf forward compatibility is meant to
//! work. Field numbers follow the frozen TensorFlow protos (`event.proto`,
//! `summary.proto`, `tensor.proto`).
//!
//! Floating-point numbers are held as their bit patterns.
use vstd::prelude::*;

use crate::bytes::{copy_bytes, le32, le64, read_le32, read_le64};
use crate::double::{widen, widened};
use crate::text::{decode_text, text_of};
use crate::wire::{
    packed_f32, packed_f64, unpack32, unpack64, walk, DecodeError, Field, MessageReader, WireValue,
};

verus! {

/// One record of a tfevents file: a timestamped, stepped envelope around a
/// payload (usually a [`Summary`](EventPayload::Summary)).
#[derive(PartialEq, Debug)]
pub struct Event {
    /// Seconds since the Unix epoch, as written by the trainer: the bits of
    /// a double.
    pub wall_time: u64,
    /// Global step. Defaults to zero when absent.
    pub step: i64,
    /// The event's payload, if it is one this decoder understands.
    pub payload: EventPayload,
}

/// The `what` oneof of an `Event`.
#[derive(PartialEq, Debug)]
#[non_exhaustive]
pub enum EventPayload {
    /// `file_version` — `"brain.Event:2"` for every file written this decade.
    FileVersion(String),
    /// `summary` — the tagged values that carry all logged data.
    Summary(Vec<SummaryValue>),
    /// A payload this decoder deliberately ignores (graph defs, session
    /// logs, run metadata) or an absent oneof.
    Other,
}

/// One `Summary.Value`: a tag and the datum logged under it.
#[derive(PartialEq, Debug)]
pub struct SummaryValue {
    /// The series tag, e.g. `train/loss`.
    pub tag: String,
    /// Plugin metadata. Writers attach it to the first point of each series
    /// only, so absence on later points is normal.
    pub metadata: Option<SummaryMetadata>,
    /// The datum itself.
    pub payload: SummaryPayload,
}

/// The value oneof of a `Summary.Value`.
#[derive(PartialEq, Debug)]
#[non_exhaustive]
pub enum SummaryPayload {
    /// `simple_value` — the TF1 scalar, the bits of a single.
    Simple(u32),
    /// `tensor` — the TF2 carrier for scalars, histograms, images, and text.
    Tensor(Tensor),
    /// `image` — the TF1 encoded-image message.
    Image(Image),
    /// `histo` — the TF1 histogram message.
    Histogram(Histogram),
    /// A value kind this decoder does not understand, or an absent oneof
    /// (normal for metadata-only summaries such as hparams markers).
    Other,
}

/// `SummaryMetadata`: which plugin owns a series and how its data is classed.
#[derive(PartialEq, Debug)]
pub struct SummaryMetadata {
    /// The owning plugin's name, e.g. `scalars`, `histograms`, `hparams`.
    pub plugin_name: String,
    /// Plugin-specific payload (e.g. serialized hparams session info).
    pub plugin_content: Vec<u8>,
    /// The data class, set by TF2 writers; `Unknown` on TF1 files.
    pub data_class: DataClass,
}

/// `SummaryMetadata.DataClass`.
#[derive(Clone, Copy, PartialEq, Eq, Structural, Debug)]
#[non_exhaustive]
pub enum DataClass {
    /// Unset (TF1 writers, metadata-only summaries).
    Unknown,
    /// Rank-0 tensors: the scalars pipeline.
    Scalar,
    /// Small tensors: histograms, text.
    Tensor,
    /// Blob sequences: images, audio, graphs.
    BlobSequence,
    /// A value outside the known enum, preserved verbatim.
    Unrecognized(i32),
}

/// `TensorProto`, decoded to the fields TF2 summaries actually use.
#[derive(PartialEq, Debug)]
pub struct Tensor {
    /// Element type.
    pub dtype: DataType,
    /// Dimension sizes, in order. Empty for rank-0.
    pub shape: Vec<i64>,
    /// Raw little-endian element bytes (one of the two storage forms).
    pub tensor_content: Vec<u8>,
    /// Explicit `float` elements (the other storage form, for DT_FLOAT), as
    /// the bits of singles.
    pub float_val: Vec<u32>,
    /// Explicit `double` elements (for DT_DOUBLE), as the bits of doubles.
    pub double_val: Vec<u64>,
    /// Explicit string/bytes elements (for DT_STRING: text, encoded images).
    pub string_val: Vec<Vec<u8>>,
}

/// `tensorflow::DataType`, reduced to the cases summaries use.
#[derive(Clone, Copy, PartialEq, Eq, Structural, Debug)]
#[non_exhaustive]
pub enum DataType {
    /// Unset.
    Unknown,
    /// `DT_FLOAT` (1).
    Float,
    /// `DT_DOUBLE` (2).
    Double,
    /// `DT_INT32` (3).
    Int32,
    /// `DT_STRING` (7).
    String,
    /// `DT_INT64` (9).
    Int64,
    /// Anything else, preserved verbatim.
    Other(i32),
}

/// The TF1 `Summary.Image` message.
#[derive(PartialEq, Debug)]
pub struct Image {
    /// Height in pixels.
    pub height: i32,
    /// Width in pixels.
    pub width: i32,
    /// Colorspace code (1 grayscale … 6 RGBA).
    pub colorspace: i32,
    /// The encoded image bytes (PNG unless the writer chose otherwise).
    pub encoded_image: Vec<u8>,
}

/// The TF1 `HistogramProto` message; every number the bits of a double.
#[derive(PartialEq, Debug)]
pub struct Histogram {
    /// Minimum observed value.
    pub min: u64,
    /// Maximum observed value.
    pub max: u64,
    /// Count of observed values.
    pub num: u64,
    /// Sum of observed values.
    pub sum: u64,
    /// Sum of squares of observed values.
    pub sum_squares: u64,
    /// Right edge of each bucket.
    pub bucket_limit: Vec<u64>,
    /// Count in each bucket.
    pub bucket: Vec<u64>,
}

/// What an [`Event`] holds.
#[verifier::ext_equal]
pub struct EventModel {
    pub wall_time: u64,
    pub step: i64,
    pub payload: PayloadModel,
}

/// What an [`EventPayload`] holds.
#[verifier::ext_equal]
pub enum PayloadModel {
    FileVersion(Seq<char>),
    Summary(Seq<ValueModel>),
    Other,
}

/// What a [`SummaryValue`] holds.
#[verifier::ext_equal]
pub struct ValueModel {
    pub tag: Seq<char>,
    pub metadata: Option<MetadataModel>,
    pub payload: DatumModel,
}

/// What a [`SummaryPayload`] holds.
#[verifier::ext_equal]
pub enum DatumModel {
    Simple(u32),
    Tensor(TensorModel),
    Image(ImageModel),
    Histogram(HistogramModel),
    Other,
}

/// What a [`SummaryMetadata`] holds.
#[verifier::ext_equal]
pub struct MetadataModel {
    pub plugin_name: Seq<char>,
    pub plugin_content: Seq<u8>,
    pub data_class: DataClass,
}

/// What a [`Tensor`] holds.
#[verifier::ext_equal]
pub struct TensorModel {
    pub dtype: DataType,
    pub shape: Seq<i64>,
    pub tensor_content: Seq<u8>,
    pub float_val: Seq<u32>,
    pub double_val: Seq<u64>,
    pub string_val: Seq<Seq<u8>>,
}

/// What an [`Image`] holds.
#[verifier::ext_equal]
pub struct ImageModel {
    pub height: i32,
    pub width: i32,
    pub colorspace: i32,
    pub encoded_image: Seq<u8>,
}

/// What a [`Histogram`] holds.
#[verifier::ext_equal]
pub struct HistogramModel {
    pub min: u64,
    pub max: u64,
    pub num: u64,
    pub sum: u64,
    pub sum_squares: u64,
    pub bucket_limit: Seq<u64>,
    pub bucket: Seq<u64>,
}

impl View for Event {
    type V = EventModel;

    open spec fn view(&self) -> EventModel {
        EventModel { wall_time: self.wall_time, step: self.step, payload: self.payload@ }
    }
}

impl View for EventPayload {
    type V = PayloadModel;

    open spec fn view(&self) -> PayloadModel {
        match *self {
            EventPayload::FileVersion(text) => PayloadModel::FileVersion(text@),
            EventPayload::Summary(values) => PayloadModel::Summary(values_model(values@)),
            EventPayload::Other => PayloadModel::Other,
        }
    }
}

impl View for SummaryValue {
    type V = ValueModel;

    open spec fn view(&self) -> ValueModel {
        ValueModel {
            tag: self.tag@,
            metadata: match self.metadata {
                Some(metadata) => Some(metadata@),
                None => None,
            },
            payload: self.payload@,
        }
    }
}

impl View for SummaryPayload {
    type V = DatumModel;

    open spec fn view(&self) -> DatumModel {
        match *self {
            SummaryPayload::Simple(bits) => DatumModel::Simple(bits),
            SummaryPayload::Tensor(tensor) => DatumModel::Tensor(tensor@),
            SummaryPayload::Image(image) => DatumModel::Image(image@),
            SummaryPayload::Histogram(histogram) => DatumModel::Histogram(histogram@),
            SummaryPayload::Other => DatumModel::Other,
        }
    }
}

impl View for SummaryMetadata {
    type V = MetadataModel;

    open spec fn view(&self) -> MetadataModel {
        MetadataModel {
            plugin_name: self.plugin_name@,
            plugin_content: self.plugin_content@,
            data_class: self.data_class,
        }
    }
}

impl View for Tensor {
    type V = TensorModel;

    open spec fn view(&self) -> TensorModel {
        TensorModel {
            dtype: self.dtype,
            shape: self.shape@,
            tensor_content: self.tensor_content@,
            float_val: self.float_val@,
            double_val: self.double_val@,
            string_val: self.string_val@.map_values(|bytes: Vec<u8>| bytes@),
        }
    }
}

impl View for Image {
    type V = ImageModel;

    open spec fn view(&self) -> ImageModel {
        ImageModel {
            height: self.height,
            width: self.width,
            colorspace: self.colorspace,
            encoded_image: self.encoded_image@,
        }
    }
}

impl View for Histogram {
    type V = HistogramModel;

    open spec fn view(&self) -> HistogramModel {
        HistogramModel {
            min: self.min,
            max: self.max,
            num: self.num,
            sum: self.sum,
            sum_squares: self.sum_squares,
            bucket_limit: self.bucket_limit@,
            bucket: self.bucket@,
        }
    }
}

/// The data class of an enum number.
pub open spec fn data_class_of(value: i32) -> DataClass {
    if value == 0 {
        DataClass::Unknown
    } else if value == 1 {
        DataClass::Scalar
    } else if value == 2 {
        DataClass::Tensor
    } else if value == 3 {
        DataClass::BlobSequence
    } else {
        DataClass::Unrecognized(value)
    }
}

impl vstd::std_specs::convert::FromSpecImpl<i32> for DataClass {
    open spec fn obeys_from_spec() -> bool {
        true
    }

    open spec fn from_spec(value: i32) -> DataClass {
        data_class_of(value)
    }
}

impl From<i32> for DataClass {
    fn from(value: i32) -> (class: DataClass) {
        match value {
            0 => DataClass::Unknown,
            1 => DataClass::Scalar,
            2 => DataClass::Tensor,
            3 => DataClass::BlobSequence,
            other => DataClass::Unrecognized(other),
        }
    }
}

/// The element type of an enum number.
pub open spec fn data_type_of(value: i32) -> DataType {
    if value == 0 {
        DataType::Unknown
    } else if value == 1 {
        DataType::Float
    } else if value == 2 {
        DataType::Double
    } else if value == 3 {
        DataType::Int32
    } else if value == 7 {
        DataType::String
    } else if value == 9 {
        DataType::Int64
    } else {
        DataType::Other(value)
    }
}

impl vstd::std_specs::convert::FromSpecImpl<i32> for DataType {
    open spec fn obeys_from_spec() -> bool {
        true
    }

    open spec fn from_spec(value: i32) -> DataType {
        data_type_of(value)
    }
}

impl From<i32> for DataType {
    fn from(value: i32) -> (dtype: DataType) {
        match value {
            0 => DataType::Unknown,
            1 => DataType::Float,
            2 => DataType::Double,
            3 => DataType::Int32,
            7 => DataType::String,
            9 => DataType::Int64,
            other => DataType::Other(other),
        }
    }
}

/// How many elements a shape has: the product of its dimensions.
pub open spec fn element_count(shape: Seq<i64>) -> int
    decreases shape.len(),
{
    if shape.len() == 0 {
        1
    } else {
        element_count(shape.drop_last()) * shape.last()
    }
}

impl TensorModel {
    /// The single number of a tensor of one `DT_FLOAT` or `DT_DOUBLE`
    /// element, as the bits of a double: the first of the explicit list, else
    /// the first of the raw bytes.
    pub open spec fn scalar(self) -> Option<u64> {
        if element_count(self.shape) != 1 {
            None
        } else if self.dtype == DataType::Float {
            if self.float_val.len() > 0 {
                Some(widened(self.float_val[0]))
            } else if self.tensor_content.len() >= 4 {
                Some(widened(le32(self.tensor_content.subrange(0, 4)) as u32))
            } else {
                None
            }
        } else if self.dtype == DataType::Double {
            if self.double_val.len() > 0 {
                Some(self.double_val[0])
            } else if self.tensor_content.len() >= 8 {
                Some(le64(self.tensor_content.subrange(0, 8)) as u64)
            } else {
                None
            }
        } else {
            None
        }
    }

    /// The elements of a `DT_DOUBLE` tensor.
    pub open spec fn doubles(self) -> Option<Seq<u64>> {
        if self.dtype != DataType::Double {
            None
        } else if self.double_val.len() > 0 {
            Some(self.double_val)
        } else {
            match unpack64(self.tensor_content) {
                Ok(values) => Some(values),
                Err(_) => None,
            }
        }
    }
}

impl ValueModel {
    /// The scalar of a value, as the bits of a double.
    pub open spec fn scalar(self) -> Option<u64> {
        match self.payload {
            DatumModel::Simple(bits) => Some(widened(bits)),
            DatumModel::Tensor(tensor) => tensor.scalar(),
            _ => None,
        }
    }
}

/// One histogram bucket: the bits of its left edge, its right edge and its
/// count.
pub type Bucket = (u64, u64, u64);

impl HistogramModel {
    /// How many buckets have both an edge and a count.
    pub open spec fn width(self) -> nat {
        if self.bucket_limit.len() <= self.bucket.len() {
            self.bucket_limit.len()
        } else {
            self.bucket.len()
        }
    }

    /// The buckets: each starts where the one before ends, the first at the
    /// observed minimum, and the last ends at the observed maximum.
    pub open spec fn buckets(self) -> Seq<Bucket> {
        Seq::new(
            self.width(),
            |i: int|
                (
                    if i == 0 {
                        self.min
                    } else {
                        self.bucket_limit[i - 1]
                    },
                    if i == self.width() - 1 {
                        self.max
                    } else {
                        self.bucket_limit[i]
                    },
                    self.bucket[i],
                ),
        )
    }
}

/// The rows of three of a flat list.
pub open spec fn rows(values: Seq<u64>) -> Seq<Bucket> {
    Seq::new(
        (values.len() / 3) as nat,
        |i: int| (values[3 * i], values[3 * i + 1], values[3 * i + 2]),
    )
}

impl ValueModel {
    /// The buckets of a histogram value, in the TF1 form or as a `[k, 3]`
    /// tensor of doubles with its `3 k` elements.
    pub open spec fn histogram_buckets(self) -> Option<Seq<Bucket>> {
        match self.payload {
            DatumModel::Histogram(histogram) => Some(histogram.buckets()),
            DatumModel::Tensor(tensor) => match tensor.doubles() {
                Some(values) => if tensor.shape.len() == 2 && tensor.shape[1] == 3
                    && tensor.shape[0] * 3 == values.len() {
                    Some(rows(values))
                } else {
                    None
                },
                None => None,
            },
            _ => None,
        }
    }
}

impl Histogram {
    /// The buckets, contiguous from the observed minimum to the observed
    /// maximum.
    pub fn buckets(&self) -> (buckets: Vec<Bucket>)
        ensures
            buckets@ == self@.buckets(),
    {
        let width: usize = if self.bucket_limit.len() <= self.bucket.len() {
            self.bucket_limit.len()
        } else {
            self.bucket.len()
        };
        let mut buckets: Vec<Bucket> = Vec::new();
        let mut i: usize = 0;
        while i < width
            invariant
                i <= width,
                width == self@.width(),
                buckets@ == self@.buckets().take(i as int),
            decreases width - i,
        {
            let left: u64 = if i == 0 {
                self.min
            } else {
                self.bucket_limit[i - 1]
            };
            let right: u64 = if i == width - 1 {
                self.max
            } else {
                self.bucket_limit[i]
            };
            buckets.push((left, right, self.bucket[i]));
            i += 1;
            assert(buckets@ =~= self@.buckets().take(i as int));
        }
        assert(buckets@ =~= self@.buckets());
        buckets
    }
}

impl SummaryValue {
    /// The buckets of a histogram value under either convention; `None` when
    /// the value is not a histogram.
    pub fn histogram_buckets(&self) -> (result: Option<Vec<Bucket>>)
        ensures
            match result {
                Some(buckets) => self@.histogram_buckets() == Some(buckets@),
                None => self@.histogram_buckets() is None,
            },
    {
        match &self.payload {
            SummaryPayload::Histogram(histogram) => Some(histogram.buckets()),
            SummaryPayload::Tensor(tensor) => match tensor.doubles() {
                Some(values) => {
                    if tensor.shape.len() != 2 || tensor.shape[1] != 3 || values.len() % 3 != 0 {
                        return None;
                    }
                    let count: usize = values.len() / 3;
                    if tensor.shape[0] < 0 || tensor.shape[0] as u64 != count as u64 {
                        return None;
                    }
                    let mut buckets: Vec<Bucket> = Vec::new();
                    let mut i: usize = 0;
                    while i < count
                        invariant
                            i <= count,
                            values.len() == 3 * count,
                            buckets@ == rows(values@).take(i as int),
                        decreases count - i,
                    {
                        buckets.push((values[3 * i], values[3 * i + 1], values[3 * i + 2]));
                        i += 1;
                        assert(buckets@ =~= rows(values@).take(i as int));
                    }
                    assert(buckets@ =~= rows(values@));
                    Some(buckets)
                },
                None => None,
            },
            _ => None,
        }
    }

    /// The scalar carried by this value, under either the TF1 convention
    /// (`simple_value`) or the TF2 convention (a rank-0 float or double
    /// tensor), as the bits of a double. `None` when the value is not a
    /// scalar.
    pub fn scalar(&self) -> (result: Option<u64>)
        ensures
            result == self@.scalar(),
    {
        match &self.payload {
            SummaryPayload::Simple(bits) => Some(widen(*bits)),
            SummaryPayload::Tensor(tensor) => tensor.scalar(),
            _ => None,
        }
    }
}

/// A product with a factor other than one and minus one is not one.
proof fn lemma_unit_factors(a: int, b: int)
    ensures
        a * b == 1 ==> (b == 1 || b == -1) && (a == 1 || a == -1),
{
    if a * b == 1 {
        assert(b == 1 || b == -1) by (nonlinear_arith)
            requires
                a * b == 1,
        ;
    }
}

impl Tensor {
    /// The empty tensor of unknown type.
    pub fn empty() -> (tensor: Tensor)
        ensures
            tensor@ == tensor_start(),
    {
        let tensor = Tensor {
            dtype: DataType::Unknown,
            shape: Vec::new(),
            tensor_content: Vec::new(),
            float_val: Vec::new(),
            double_val: Vec::new(),
            string_val: Vec::new(),
        };
        assert(tensor@.string_val =~= Seq::<Seq<u8>>::empty());
        tensor
    }

    /// Whether the shape has exactly one element.
    fn has_one_element(&self) -> (one: bool)
        ensures
            one == (element_count(self.shape@) == 1),
    {
        let mut i: usize = self.shape.len();
        let mut negative: bool = false;
        assert(self.shape@.take(i as int) =~= self.shape@);
        while i > 0
            invariant
                i <= self.shape@.len(),
                (element_count(self.shape@) == 1) == (element_count(self.shape@.take(i as int)) == (
                if negative {
                    -1int
                } else {
                    1
                })),
            decreases i,
        {
            let ghost front = self.shape@.take(i as int);
            assert(front.drop_last() =~= self.shape@.take(i - 1));
            let size: i64 = self.shape[i - 1];
            proof {
                let rest = element_count(front.drop_last());
                lemma_unit_factors(rest, size as int);
                lemma_unit_factors(-rest, size as int);
                assert((-rest) * size == -(rest * size)) by (nonlinear_arith);
                assert(rest * -1 == -rest) by (nonlinear_arith);
            }
            if size == -1 {
                negative = !negative;
            } else if size != 1 {
                return false;
            }
            i = i - 1;
        }
        !negative
    }

    /// The tensor's single value as the bits of a double, for the TF2 scalar
    /// convention (rank-0 `DT_FLOAT` or `DT_DOUBLE`, value in the explicit
    /// list or in `tensor_content`). Lenient about a spurious `[1]` shape.
    pub fn scalar(&self) -> (result: Option<u64>)
        ensures
            result == self@.scalar(),
    {
        if !self.has_one_element() {
            return None;
        }
        match self.dtype {
            DataType::Float => if self.float_val.len() > 0 {
                Some(widen(self.float_val[0]))
            } else if self.tensor_content.len() >= 4 {
                Some(widen(read_le32(&self.tensor_content, 0)))
            } else {
                None
            },
            DataType::Double => if self.double_val.len() > 0 {
                Some(self.double_val[0])
            } else if self.tensor_content.len() >= 8 {
                Some(read_le64(&self.tensor_content, 0))
            } else {
                None
            },
            _ => None,
        }
    }

    /// All elements as the bits of doubles for a `DT_DOUBLE` tensor (the TF2
    /// histogram carrier: shape `[k, 3]`, rows of `(left, right, count)`).
    pub fn doubles(&self) -> (result: Option<Vec<u64>>)
        ensures
            match result {
                Some(values) => self@.doubles() == Some(values@),
                None => self@.doubles() is None,
            },
    {
        if self.dtype != DataType::Double {
            return None;
        }
        if self.double_val.len() > 0 {
            return Some(copy_doubles(&self.double_val));
        }
        match packed_f64(&self.tensor_content) {
            Ok(values) => Some(values),
            Err(_) => None,
        }
    }

    /// The string elements of a `DT_STRING` tensor (text summaries; image
    /// summaries are `[width, height, png, ...]`).
    pub fn strings(&self) -> (result: Option<&Vec<Vec<u8>>>)
        ensures
            result == (if self.dtype == DataType::String {
                Some(&self.string_val)
            } else {
                None
            }),
    {
        if self.dtype == DataType::String {
            Some(&self.string_val)
        } else {
            None
        }
    }
}

/// A copy of a vector of bit patterns.
pub fn copy_doubles(values: &Vec<u64>) -> (copy: Vec<u64>)
    ensures
        copy@ == values@,
{
    let mut copy: Vec<u64> = Vec::new();
    let mut i: usize = 0;
    while i < values.len()
        invariant
            i <= values@.len(),
            copy@ == values@.take(i as int),
        decreases values@.len() - i,
    {
        copy.push(values[i]);
        i += 1;
        assert(copy@ =~= values@.take(i as int));
    }
    assert(values@.take(values@.len() as int) =~= values@);
    copy
}

/// Moves the elements of `more` to the end of `values`.
fn extend_doubles(values: &mut Vec<u64>, more: Vec<u64>)
    ensures
        final(values)@ == old(values)@ + more@,
{
    let mut more = more;
    values.append(&mut more);
}

/// Moves the elements of `more` to the end of `values`.
fn extend_singles(values: &mut Vec<u32>, more: Vec<u32>)
    ensures
        final(values)@ == old(values)@ + more@,
{
    let mut more = more;
    values.append(&mut more);
}

/// An event before its first field.
pub open spec fn event_start() -> EventModel {
    EventModel { wall_time: 0, step: 0, payload: PayloadModel::Other }
}

/// What one field adds to an event.
pub open spec fn event_step(event: EventModel, field: u32, value: Field) -> Result<
    EventModel,
    DecodeError,
> {
    if field == 1 && value.double() is Some {
        Ok(EventModel { wall_time: value.double()->0, ..event })
    } else if field == 2 && value.int64() is Some {
        Ok(EventModel { step: value.int64()->0, ..event })
    } else if field == 3 && value.bytes() is Some {
        Ok(EventModel { payload: PayloadModel::FileVersion(text_of(value.bytes()->0)), ..event })
    } else if field == 5 && value.bytes() is Some {
        match summary_of(value.bytes()->0) {
            Ok(values) => Ok(EventModel { payload: PayloadModel::Summary(values), ..event }),
            Err(error) => Err(error),
        }
    } else {
        Ok(event)
    }
}

/// The fields of an event.
pub open spec fn event_schema() -> spec_fn(EventModel, u32, Field) -> Result<
    EventModel,
    DecodeError,
> {
    |event: EventModel, field: u32, value: Field| event_step(event, field, value)
}

/// The event that a record payload spells.
pub open spec fn event_of(bytes: Seq<u8>) -> Result<EventModel, DecodeError> {
    walk(bytes, event_start(), event_schema())
}

/// What one field adds to the values of a summary.
pub open spec fn summary_step(values: Seq<ValueModel>, field: u32, value: Field) -> Result<
    Seq<ValueModel>,
    DecodeError,
> {
    if field == 1 && value.bytes() is Some {
        match value_of(value.bytes()->0) {
            Ok(entry) => Ok(values.push(entry)),
            Err(error) => Err(error),
        }
    } else {
        Ok(values)
    }
}

/// The fields of a summary.
pub open spec fn summary_schema() -> spec_fn(Seq<ValueModel>, u32, Field) -> Result<
    Seq<ValueModel>,
    DecodeError,
> {
    |values: Seq<ValueModel>, field: u32, value: Field| summary_step(values, field, value)
}

/// The values that a summary message spells.
pub open spec fn summary_of(bytes: Seq<u8>) -> Result<Seq<ValueModel>, DecodeError> {
    walk(bytes, Seq::empty(), summary_schema())
}

/// A value before its first field.
pub open spec fn value_start() -> ValueModel {
    ValueModel { tag: Seq::empty(), metadata: None, payload: DatumModel::Other }
}

/// What one field adds to a summary value.
pub open spec fn value_step(entry: ValueModel, field: u32, value: Field) -> Result<
    ValueModel,
    DecodeError,
> {
    if field == 1 && value.bytes() is Some {
        Ok(ValueModel { tag: text_of(value.bytes()->0), ..entry })
    } else if field == 2 && value.float() is Some {
        Ok(ValueModel { payload: DatumModel::Simple(value.float()->0), ..entry })
    } else if field == 4 && value.bytes() is Some {
        match image_of(value.bytes()->0) {
            Ok(image) => Ok(ValueModel { payload: DatumModel::Image(image), ..entry }),
            Err(error) => Err(error),
        }
    } else if field == 5 && value.bytes() is Some {
        match histogram_of(value.bytes()->0) {
            Ok(histogram) => Ok(ValueModel { payload: DatumModel::Histogram(histogram), ..entry }),
            Err(error) => Err(error),
        }
    } else if field == 8 && value.bytes() is Some {
        match tensor_of(value.bytes()->0) {
            Ok(tensor) => Ok(ValueModel { payload: DatumModel::Tensor(tensor), ..entry }),
            Err(error) => Err(error),
        }
    } else if field == 9 && value.bytes() is Some {
        match metadata_of(value.bytes()->0) {
            Ok(metadata) => Ok(ValueModel { metadata: Some(metadata), ..entry }),
            Err(error) => Err(error),
        }
    } else {
        Ok(entry)
    }
}

/// The fields of a summary value.
pub open spec fn value_schema() -> spec_fn(ValueModel, u32, Field) -> Result<
    ValueModel,
    DecodeError,
> {
    |entry: ValueModel, field: u32, value: Field| value_step(entry, field, value)
}

/// The value that a `Summary.Value` message spells.
pub open spec fn value_of(bytes: Seq<u8>) -> Result<ValueModel, DecodeError> {
    walk(bytes, value_start(), value_schema())
}

/// Metadata before its first field.
pub open spec fn metadata_start() -> MetadataModel {
    MetadataModel {
        plugin_name: Seq::empty(),
        plugin_content: Seq::empty(),
        data_class: DataClass::Unknown,
    }
}

/// What one field of the plugin data adds to metadata.
pub open spec fn plugin_step(metadata: MetadataModel, field: u32, value: Field) -> Result<
    MetadataModel,
    DecodeError,
> {
    if field == 1 && value.bytes() is Some {
        Ok(MetadataModel { plugin_name: text_of(value.bytes()->0), ..metadata })
    } else if field == 2 && value.bytes() is Some {
        Ok(MetadataModel { plugin_content: value.bytes()->0, ..metadata })
    } else {
        Ok(metadata)
    }
}

/// The fields of the plugin data.
pub open spec fn plugin_schema() -> spec_fn(MetadataModel, u32, Field) -> Result<
    MetadataModel,
    DecodeError,
> {
    |metadata: MetadataModel, field: u32, value: Field| plugin_step(metadata, field, value)
}

/// What one field adds to metadata.
pub open spec fn metadata_step(metadata: MetadataModel, field: u32, value: Field) -> Result<
    MetadataModel,
    DecodeError,
> {
    if field == 1 && value.bytes() is Some {
        walk(value.bytes()->0, metadata, plugin_schema())
    } else if field == 4 && value.varint() is Some {
        Ok(MetadataModel { data_class: data_class_of(value.varint()->0 as i32), ..metadata })
    } else {
        Ok(metadata)
    }
}

/// The fields of metadata.
pub open spec fn metadata_schema() -> spec_fn(MetadataModel, u32, Field) -> Result<
    MetadataModel,
    DecodeError,
> {
    |metadata: MetadataModel, field: u32, value: Field| metadata_step(metadata, field, value)
}

/// The metadata that a `SummaryMetadata` message spells.
pub open spec fn metadata_of(bytes: Seq<u8>) -> Result<MetadataModel, DecodeError> {
    walk(bytes, metadata_start(), metadata_schema())
}

/// A tensor before its first field.
pub open spec fn tensor_start() -> TensorModel {
    TensorModel {
        dtype: DataType::Unknown,
        shape: Seq::empty(),
        tensor_content: Seq::empty(),
        float_val: Seq::empty(),
        double_val: Seq::empty(),
        string_val: Seq::empty(),
    }
}

/// What one field adds to a list of doubles: packed or one by one.
pub open spec fn doubles_step(values: Seq<u64>, value: Field) -> Result<Seq<u64>, DecodeError> {
    match value {
        Field::Bytes(bytes) => match unpack64(bytes) {
            Ok(more) => Ok(values + more),
            Err(error) => Err(error),
        },
        Field::Fixed64(bits) => Ok(values.push(bits)),
        _ => Ok(values),
    }
}

/// What one field adds to a list of singles: packed or one by one.
pub open spec fn singles_step(values: Seq<u32>, value: Field) -> Result<Seq<u32>, DecodeError> {
    match value {
        Field::Bytes(bytes) => match unpack32(bytes) {
            Ok(more) => Ok(values + more),
            Err(error) => Err(error),
        },
        Field::Fixed32(bits) => Ok(values.push(bits)),
        _ => Ok(values),
    }
}

/// What one field adds to a tensor.
pub open spec fn tensor_step(tensor: TensorModel, field: u32, value: Field) -> Result<
    TensorModel,
    DecodeError,
> {
    if field == 1 && value.varint() is Some {
        Ok(TensorModel { dtype: data_type_of(value.varint()->0 as i32), ..tensor })
    } else if field == 2 && value.bytes() is Some {
        match shape_of(value.bytes()->0) {
            Ok(shape) => Ok(TensorModel { shape, ..tensor }),
            Err(error) => Err(error),
        }
    } else if field == 4 && value.bytes() is Some {
        Ok(TensorModel { tensor_content: value.bytes()->0, ..tensor })
    } else if field == 5 {
        match singles_step(tensor.float_val, value) {
            Ok(float_val) => Ok(TensorModel { float_val, ..tensor }),
            Err(error) => Err(error),
        }
    } else if field == 6 {
        match doubles_step(tensor.double_val, value) {
            Ok(double_val) => Ok(TensorModel { double_val, ..tensor }),
            Err(error) => Err(error),
        }
    } else if field == 8 && value.bytes() is Some {
        Ok(TensorModel { string_val: tensor.string_val.push(value.bytes()->0), ..tensor })
    } else {
        Ok(tensor)
    }
}

/// The fields of a tensor.
pub open spec fn tensor_schema() -> spec_fn(TensorModel, u32, Field) -> Result<
    TensorModel,
    DecodeError,
> {
    |tensor: TensorModel, field: u32, value: Field| tensor_step(tensor, field, value)
}

/// The tensor that a `TensorProto` message spells.
pub open spec fn tensor_of(bytes: Seq<u8>) -> Result<TensorModel, DecodeError> {
    walk(bytes, tensor_start(), tensor_schema())
}

/// What one field of a dimension says of its size.
pub open spec fn dim_step(size: i64, field: u32, value: Field) -> Result<i64, DecodeError> {
    if field == 1 && value.int64() is Some {
        Ok(value.int64()->0)
    } else {
        Ok(size)
    }
}

/// The fields of a dimension.
pub open spec fn dim_schema() -> spec_fn(i64, u32, Field) -> Result<i64, DecodeError> {
    |size: i64, field: u32, value: Field| dim_step(size, field, value)
}

/// What one field adds to a shape.
pub open spec fn shape_step(shape: Seq<i64>, field: u32, value: Field) -> Result<
    Seq<i64>,
    DecodeError,
> {
    if field == 2 && value.bytes() is Some {
        match walk(value.bytes()->0, 0i64, dim_schema()) {
            Ok(size) => Ok(shape.push(size)),
            Err(error) => Err(error),
        }
    } else {
        Ok(shape)
    }
}

/// The fields of a shape.
pub open spec fn shape_schema() -> spec_fn(Seq<i64>, u32, Field) -> Result<Seq<i64>, DecodeError> {
    |shape: Seq<i64>, field: u32, value: Field| shape_step(shape, field, value)
}

/// The dimensions that a `TensorShapeProto` message spells.
pub open spec fn shape_of(bytes: Seq<u8>) -> Result<Seq<i64>, DecodeError> {
    walk(bytes, Seq::empty(), shape_schema())
}

/// An image before its first field.
pub open spec fn image_start() -> ImageModel {
    ImageModel { height: 0, width: 0, colorspace: 0, encoded_image: Seq::empty() }
}

/// A number of an image: zero where the field is not a varint.
pub open spec fn image_number(value: Field) -> i32 {
    match value.int64() {
        Some(number) => number as i32,
        None => 0,
    }
}

/// What one field adds to an image.
pub open spec fn image_step(image: ImageModel, field: u32, value: Field) -> Result<
    ImageModel,
    DecodeError,
> {
    if field == 1 {
        Ok(ImageModel { height: image_number(value), ..image })
    } else if field == 2 {
        Ok(ImageModel { width: image_number(value), ..image })
    } else if field == 3 {
        Ok(ImageModel { colorspace: image_number(value), ..image })
    } else if field == 4 && value.bytes() is Some {
        Ok(ImageModel { encoded_image: value.bytes()->0, ..image })
    } else {
        Ok(image)
    }
}

/// The fields of an image.
pub open spec fn image_schema() -> spec_fn(ImageModel, u32, Field) -> Result<
    ImageModel,
    DecodeError,
> {
    |image: ImageModel, field: u32, value: Field| image_step(image, field, value)
}

/// The image that a `Summary.Image` message spells.
pub open spec fn image_of(bytes: Seq<u8>) -> Result<ImageModel, DecodeError> {
    walk(bytes, image_start(), image_schema())
}

/// A histogram before its first field.
pub open spec fn histogram_start() -> HistogramModel {
    HistogramModel {
        min: 0,
        max: 0,
        num: 0,
        sum: 0,
        sum_squares: 0,
        bucket_limit: Seq::empty(),
        bucket: Seq::empty(),
    }
}

/// A number of a histogram: zero where the field is not a double.
pub open spec fn histogram_number(value: Field) -> u64 {
    match value.double() {
        Some(bits) => bits,
        None => 0,
    }
}

/// What one field adds to a histogram.
pub open spec fn histogram_step(histogram: HistogramModel, field: u32, value: Field) -> Result<
    HistogramModel,
    DecodeError,
> {
    if field == 1 {
        Ok(HistogramModel { min: histogram_number(value), ..histogram })
    } else if field == 2 {
        Ok(HistogramModel { max: histogram_number(value), ..histogram })
    } else if field == 3 {
        Ok(HistogramModel { num: histogram_number(value), ..histogram })
    } else if field == 4 {
        Ok(HistogramModel { sum: histogram_number(value), ..histogram })
    } else if field == 5 {
        Ok(HistogramModel { sum_squares: histogram_number(value), ..histogram })
    } else if field == 6 {
        match doubles_step(histogram.bucket_limit, value) {
            Ok(bucket_limit) => Ok(HistogramModel { bucket_limit, ..histogram }),
            Err(error) => Err(error),
        }
    } else if field == 7 {
        match doubles_step(histogram.bucket, value) {
            Ok(bucket) => Ok(HistogramModel { bucket, ..histogram }),
            Err(error) => Err(error),
        }
    } else {
        Ok(histogram)
    }
}

/// The fields of a histogram.
pub open spec fn histogram_schema() -> spec_fn(HistogramModel, u32, Field) -> Result<
    HistogramModel,
    DecodeError,
> {
    |histogram: HistogramModel, field: u32, value: Field| histogram_step(histogram, field, value)
}

/// The histogram that a `HistogramProto` message spells.
pub open spec fn histogram_of(bytes: Seq<u8>) -> Result<HistogramModel, DecodeError> {
    walk(bytes, histogram_start(), histogram_schema())
}

/// What the values of a summary hold.
pub open spec fn values_model(values: Seq<SummaryValue>) -> Seq<ValueModel> {
    values.map_values(|value: SummaryValue| value@)
}

impl Event {
    /// Decodes one record payload as an `Event`.
    pub fn decode(buf: &[u8]) -> (result: Result<Event, DecodeError>)
        ensures
            match event_of(buf@) {
                Ok(model) => result matches Ok(decoded) && decoded@ == model,
                Err(error) => result == Err::<Event, DecodeError>(error),
            },
    {
        let mut event = Event { wall_time: 0, step: 0, payload: EventPayload::Other };
        let mut reader = MessageReader::new(buf);
        loop
            invariant
                reader.wf(),
                event_of(buf@) == walk(reader.rest(), event@, event_schema()),
            decreases reader.rest().len(),
        {
            match reader.next_field()? {
                None => {
                    return Ok(event);
                },
                Some((field, value)) => {
                    if field == 1 {
                        if let Some(bits) = value.double() {
                            event.wall_time = bits;
                        }
                    } else if field == 2 {
                        if let Some(step) = value.int64() {
                            event.step = step;
                        }
                    } else if field == 3 {
                        if let Some(bytes) = value.bytes() {
                            event.payload = EventPayload::FileVersion(decode_text(bytes));
                        }
                    } else if field == 5 {
                        if let Some(bytes) = value.bytes() {
                            event.payload = EventPayload::Summary(decode_summary(bytes)?);
                        }
                    }
                },
            }
        }
    }
}

/// Decodes a `Summary` message.
fn decode_summary(buf: &[u8]) -> (result: Result<Vec<SummaryValue>, DecodeError>)
    ensures
        match summary_of(buf@) {
            Ok(model) => result matches Ok(decoded) && values_model(decoded@) == model,
            Err(error) => result == Err::<Vec<SummaryValue>, DecodeError>(error),
        },
{
    let mut values = Vec::<SummaryValue>::new();
    assert(values_model(values@) =~= Seq::<ValueModel>::empty());
    let mut reader = MessageReader::new(buf);
    loop
        invariant
            reader.wf(),
            summary_of(buf@) == walk(reader.rest(), values_model(values@), summary_schema()),
        decreases reader.rest().len(),
    {
        let ghost before = values_model(values@);
        match reader.next_field()? {
            None => {
                return Ok(values);
            },
            Some((field, value)) => {
                if field == 1 {
                    if let Some(bytes) = value.bytes() {
                        let entry = decode_summary_value(bytes)?;
                        values.push(entry);
                        assert(values_model(values@) =~= before.push(entry@));
                    }
                }
            },
        }
    }
}

/// Decodes a `Summary.Value` message.
fn decode_summary_value(buf: &[u8]) -> (result: Result<SummaryValue, DecodeError>)
    ensures
        match value_of(buf@) {
            Ok(model) => result matches Ok(decoded) && decoded@ == model,
            Err(error) => result == Err::<SummaryValue, DecodeError>(error),
        },
{
    let mut out = SummaryValue { tag: String::new(), metadata: None, payload: SummaryPayload::Other };
    assert(out@ == value_start());
    let mut reader = MessageReader::new(buf);
    loop
        invariant
            reader.wf(),
            value_of(buf@) == walk(reader.rest(), out@, value_schema()),
        decreases reader.rest().len(),
    {
        match reader.next_field()? {
            None => {
                return Ok(out);
            },
            Some((field, value)) => {
                if field == 1 {
                    if let Some(bytes) = value.bytes() {
                        out.tag = decode_text(bytes);
                    }
                } else if field == 2 {
                    if let Some(bits) = value.float() {
                        out.payload = SummaryPayload::Simple(bits);
                    }
                } else if field == 4 {
                    if let Some(bytes) = value.bytes() {
                        out.payload = SummaryPayload::Image(decode_image(bytes)?);
                    }
                } else if field == 5 {
                    if let Some(bytes) = value.bytes() {
                        out.payload = SummaryPayload::Histogram(decode_histogram(bytes)?);
                    }
                } else if field == 8 {
                    if let Some(bytes) = value.bytes() {
                        out.payload = SummaryPayload::Tensor(decode_tensor(bytes)?);
                    }
                } else if field == 9 {
                    if let Some(bytes) = value.bytes() {
                        out.metadata = Some(decode_metadata(bytes)?);
                    }
                }
            },
        }
    }
}

/// Decodes the plugin data of a `SummaryMetadata` message into it.
fn decode_plugin(buf: &[u8], metadata: SummaryMetadata) -> (result: Result<
    SummaryMetadata,
    DecodeError,
>)
    ensures
        match walk(buf@, metadata@, plugin_schema()) {
            Ok(model) => result matches Ok(decoded) && decoded@ == model,
            Err(error) => result == Err::<SummaryMetadata, DecodeError>(error),
        },
{
    let mut out = metadata;
    let mut reader = MessageReader::new(buf);
    loop
        invariant
            reader.wf(),
            walk(buf@, metadata@, plugin_schema()) == walk(reader.rest(), out@, plugin_schema()),
        decreases reader.rest().len(),
    {
        match reader.next_field()? {
            None => {
                return Ok(out);
            },
            Some((field, value)) => {
                if field == 1 {
                    if let Some(bytes) = value.bytes() {
                        out.plugin_name = decode_text(bytes);
                    }
                } else if field == 2 {
                    if let Some(bytes) = value.bytes() {
                        out.plugin_content = copy_bytes(bytes);
                    }
                }
            },
        }
    }
}

/// Decodes a `SummaryMetadata` message.
fn decode_metadata(buf: &[u8]) -> (result: Result<SummaryMetadata, DecodeError>)
    ensures
        match metadata_of(buf@) {
            Ok(model) => result matches Ok(decoded) && decoded@ == model,
            Err(error) => result == Err::<SummaryMetadata, DecodeError>(error),
        },
{
    let mut out = SummaryMetadata {
        plugin_name: String::new(),
        plugin_content: Vec::new(),
        data_class: DataClass::Unknown,
    };
    assert(out@ == metadata_start());
    let mut reader = MessageReader::new(buf);
    loop
        invariant
            reader.wf(),
            metadata_of(buf@) == walk(reader.rest(), out@, metadata_schema()),
        decreases reader.rest().len(),
    {
        match reader.next_field()? {
            None => {
                return Ok(out);
            },
            Some((field, value)) => {
                if field == 1 {
                    if let Some(bytes) = value.bytes() {
                        out = decode_plugin(bytes, out)?;
                    }
                } else if field == 4 {
                    if let Some(number) = value.varint() {
                        out.data_class = DataClass::from(number as i32);
                    }
                }
            },
        }
    }
}

/// Decodes a `TensorProto` message.
fn decode_tensor(buf: &[u8]) -> (result: Result<Tensor, DecodeError>)
    ensures
        match tensor_of(buf@) {
            Ok(model) => result matches Ok(decoded) && decoded@ == model,
            Err(error) => result == Err::<Tensor, DecodeError>(error),
        },
{
    let mut out = Tensor::empty();
    let mut reader = MessageReader::new(buf);
    loop
        invariant
            reader.wf(),
            tensor_of(buf@) == walk(reader.rest(), out@, tensor_schema()),
        decreases reader.rest().len(),
    {
        let ghost before = out@;
        match reader.next_field()? {
            None => {
                return Ok(out);
            },
            Some((field, value)) => {
                if field == 1 {
                    if let Some(number) = value.varint() {
                        out.dtype = DataType::from(number as i32);
                    }
                } else if field == 2 {
                    if let Some(bytes) = value.bytes() {
                        out.shape = decode_shape(bytes)?;
                    }
                } else if field == 4 {
                    if let Some(bytes) = value.bytes() {
                        out.tensor_content = copy_bytes(bytes);
                    }
                } else if field == 5 {
                    match value {
                        WireValue::Bytes(bytes) => {
                            let more = packed_f32(bytes)?;
                            extend_singles(&mut out.float_val, more);
                        },
                        WireValue::Fixed32(bits) => out.float_val.push(bits),
                        _ => {},
                    }
                } else if field == 6 {
                    decode_doubles(&mut out.double_val, value)?;
                } else if field == 8 {
                    if let Some(bytes) = value.bytes() {
                        out.string_val.push(copy_bytes(bytes));
                        assert(out@.string_val =~= before.string_val.push(bytes@));
                    }
                }
            },
        }
    }
}

/// Decodes one dimension of a shape.
fn decode_dim(buf: &[u8]) -> (result: Result<i64, DecodeError>)
    ensures
        result == walk(buf@, 0i64, dim_schema()),
{
    let mut size: i64 = 0;
    let mut reader = MessageReader::new(buf);
    loop
        invariant
            reader.wf(),
            walk(buf@, 0i64, dim_schema()) == walk(reader.rest(), size, dim_schema()),
        decreases reader.rest().len(),
    {
        match reader.next_field()? {
            None => {
                return Ok(size);
            },
            Some((field, value)) => {
                if field == 1 {
                    if let Some(number) = value.int64() {
                        size = number;
                    }
                }
            },
        }
    }
}

/// Decodes a `TensorShapeProto` message: repeated `Dim dim = 2`, each with an
/// `int64 size = 1`.
fn decode_shape(buf: &[u8]) -> (result: Result<Vec<i64>, DecodeError>)
    ensures
        match shape_of(buf@) {
            Ok(model) => result matches Ok(decoded) && decoded@ == model,
            Err(error) => result == Err::<Vec<i64>, DecodeError>(error),
        },
{
    let mut shape = Vec::<i64>::new();
    let mut reader = MessageReader::new(buf);
    loop
        invariant
            reader.wf(),
            shape_of(buf@) == walk(reader.rest(), shape@, shape_schema()),
        decreases reader.rest().len(),
    {
        match reader.next_field()? {
            None => {
                return Ok(shape);
            },
            Some((field, value)) => {
                if field == 2 {
                    if let Some(bytes) = value.bytes() {
                        shape.push(decode_dim(bytes)?);
                    }
                }
            },
        }
    }
}

/// Decodes a `Summary.Image` message.
fn decode_image(buf: &[u8]) -> (result: Result<Image, DecodeError>)
    ensures
        match image_of(buf@) {
            Ok(model) => result matches Ok(decoded) && decoded@ == model,
            Err(error) => result == Err::<Image, DecodeError>(error),
        },
{
    let mut out = Image { height: 0, width: 0, colorspace: 0, encoded_image: Vec::new() };
    let mut reader = MessageReader::new(buf);
    loop
        invariant
            reader.wf(),
            image_of(buf@) == walk(reader.rest(), out@, image_schema()),
        decreases reader.rest().len(),
    {
        match reader.next_field()? {
            None => {
                return Ok(out);
            },
            Some((field, value)) => {
                let number: i32 = match value.int64() {
                    Some(number) => number as i32,
                    None => 0,
                };
                if field == 1 {
                    out.height = number;
                } else if field == 2 {
                    out.width = number;
                } else if field == 3 {
                    out.colorspace = number;
                } else if field == 4 {
                    if let Some(bytes) = value.bytes() {
                        out.encoded_image = copy_bytes(bytes);
                    }
                }
            },
        }
    }
}

/// Adds one field to a list of doubles.
fn decode_doubles(values: &mut Vec<u64>, value: WireValue) -> (result: Result<(), DecodeError>)
    ensures
        match doubles_step(old(values)@, value@) {
            Ok(model) => result is Ok && final(values)@ == model,
            Err(error) => result == Err::<(), DecodeError>(error),
        },
{
    match value {
        WireValue::Bytes(bytes) => {
            let more = packed_f64(bytes)?;
            extend_doubles(values, more);
        },
        WireValue::Fixed64(bits) => values.push(bits),
        _ => {},
    }
    Ok(())
}

/// Decodes a `HistogramProto` message.
fn decode_histogram(buf: &[u8]) -> (result: Result<Histogram, DecodeError>)
    ensures
        match histogram_of(buf@) {
            Ok(model) => result matches Ok(decoded) && decoded@ == model,
            Err(error) => result == Err::<Histogram, DecodeError>(error),
        },
{
    let mut out = Histogram {
        min: 0,
        max: 0,
        num: 0,
        sum: 0,
        sum_squares: 0,
        bucket_limit: Vec::new(),
        bucket: Vec::new(),
    };
    let mut reader = MessageReader::new(buf);
    loop
        invariant
            reader.wf(),
            histogram_of(buf@) == walk(reader.rest(), out@, histogram_schema()),
        decreases reader.rest().len(),
    {
        match reader.next_field()? {
            None => {
                return Ok(out);
            },
            Some((field, value)) => {
                let number: u64 = match value.double() {
                    Some(bits) => bits,
                    None => 0,
                };
                if field == 1 {
                    out.min = number;
                } else if field == 2 {
                    out.max = number;
                } else if field == 3 {
                    out.num = number;
                } else if field == 4 {
                    out.sum = number;
                } else if field == 5 {
                    out.sum_squares = number;
                } else if field == 6 {
                    decode_doubles(&mut out.bucket_limit, value)?;
                } else if field == 7 {
                    decode_doubles(&mut out.bucket, value)?;
                }
            },
        }
    }
}

} // verus!
