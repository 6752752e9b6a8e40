//! What holds of the summary cache as a whole: a saved cache reads back as
//! what was saved, and a torn one is not read at all.
use vstd::prelude::*;

use crate::bytes::{le32_bytes, le64_bytes, lemma_le32, lemma_le64};
use crate::cache::{
    byte_of, code_of, law_class_codes, magic, mtime_bytes, mtime_of, option_bytes, option_of,
    point_bytes, point_of, string_of, take_of, text_bytes, u32_of, u64_of,
};
use crate::hparams::HparamModel;
use crate::names::NameMap;
use crate::numeric::Moments;
use crate::run::{Backend, Run, RunModel, Stamp};
use crate::series::{PointStamp, SegmentSummary, SeriesModel};
use crate::warm::{
    cache_bytes, cache_of, entry_of, file_item, file_writer, hparam_item, hparam_writer,
    items_bytes, items_of, list_bytes, list_of, map_of, moments_bytes, moments_of, pairs_of,
    plugin_bytes, plugin_of, run_bytes, run_item, run_of, run_writer, segment_item,
    segment_values_bytes, segment_values_of, segment_writer, series_item, series_writer, step_bytes,
    step_of, walls_bytes, walls_of, whole_of, FileEntry, RunEntry,
};

verus! {

/// A reader that reads the same of bytes whatever comes behind them.
pub open spec fn stable<T>(item: spec_fn(Seq<u8>) -> Option<(T, Seq<u8>)>) -> bool {
    forall|bytes: Seq<u8>, more: Seq<u8>| #[trigger]
        item(bytes + more) == (match item(bytes) {
            Some((value, rest)) => Some((value, rest + more)),
            None => item(bytes + more),
        })
}

proof fn lemma_byte_stable(bytes: Seq<u8>, more: Seq<u8>)
    ensures
        byte_of(bytes) matches Some((value, rest)) ==> byte_of(bytes + more) == Some(
            (value, rest + more),
        ),
{
    if bytes.len() >= 1 {
        assert((bytes + more).skip(1) =~= bytes.skip(1) + more);
    }
}

proof fn lemma_u32_stable(bytes: Seq<u8>, more: Seq<u8>)
    ensures
        u32_of(bytes) matches Some((value, rest)) ==> u32_of(bytes + more) == Some(
            (value, rest + more),
        ),
{
    if bytes.len() >= 4 {
        assert((bytes + more).take(4) =~= bytes.take(4));
        assert((bytes + more).skip(4) =~= bytes.skip(4) + more);
    }
}

proof fn lemma_u64_stable(bytes: Seq<u8>, more: Seq<u8>)
    ensures
        u64_of(bytes) matches Some((value, rest)) ==> u64_of(bytes + more) == Some(
            (value, rest + more),
        ),
{
    if bytes.len() >= 8 {
        assert((bytes + more).take(8) =~= bytes.take(8));
        assert((bytes + more).skip(8) =~= bytes.skip(8) + more);
    }
}

proof fn lemma_take_stable(bytes: Seq<u8>, len: nat, more: Seq<u8>)
    ensures
        take_of(bytes, len) matches Some((front, rest)) ==> take_of(bytes + more, len) == Some(
            (front, rest + more),
        ),
{
    if bytes.len() >= len {
        assert((bytes + more).take(len as int) =~= bytes.take(len as int));
        assert((bytes + more).skip(len as int) =~= bytes.skip(len as int) + more);
    }
}

proof fn lemma_option_stable(bytes: Seq<u8>, more: Seq<u8>)
    ensures
        option_of(bytes) matches Some((value, rest)) ==> option_of(bytes + more) == Some(
            (value, rest + more),
        ),
{
    lemma_byte_stable(bytes, more);
    if let Some((mark, rest)) = byte_of(bytes) {
        lemma_u64_stable(rest, more);
    }
}

proof fn lemma_string_stable(bytes: Seq<u8>, more: Seq<u8>)
    ensures
        string_of(bytes) matches Some((value, rest)) ==> string_of(bytes + more) == Some(
            (value, rest + more),
        ),
{
    lemma_u32_stable(bytes, more);
    if let Some((len, rest)) = u32_of(bytes) {
        lemma_take_stable(rest, len as nat, more);
    }
}

proof fn lemma_mtime_stable(bytes: Seq<u8>, more: Seq<u8>)
    ensures
        mtime_of(bytes) matches Some((value, rest)) ==> mtime_of(bytes + more) == Some(
            (value, rest + more),
        ),
{
    lemma_u64_stable(bytes, more);
    if let Some((secs, rest)) = u64_of(bytes) {
        lemma_u32_stable(rest, more);
    }
}

proof fn lemma_point_stable(bytes: Seq<u8>, more: Seq<u8>)
    ensures
        point_of(bytes) matches Some((value, rest)) ==> point_of(bytes + more) == Some(
            (value, rest + more),
        ),
{
    lemma_u64_stable(bytes, more);
    if let Some((step, rest)) = u64_of(bytes) {
        lemma_u64_stable(rest, more);
        if let Some((wall, rest)) = u64_of(rest) {
            lemma_u64_stable(rest, more);
        }
    }
}

proof fn lemma_moments_stable(bytes: Seq<u8>, more: Seq<u8>)
    ensures
        moments_of(bytes) matches Some((value, rest)) ==> moments_of(bytes + more) == Some(
            (value, rest + more),
        ),
{
    lemma_u64_stable(bytes, more);
    if let Some((count, rest)) = u64_of(bytes) {
        lemma_u64_stable(rest, more);
        if let Some((mean, rest)) = u64_of(rest) {
            lemma_u64_stable(rest, more);
        }
    }
}

proof fn lemma_list_stable<T>(
    bytes: Seq<u8>,
    n: nat,
    item: spec_fn(Seq<u8>) -> Option<(T, Seq<u8>)>,
    more: Seq<u8>,
)
    requires
        stable(item),
    ensures
        list_of(bytes, n, item) matches Some((value, rest)) ==> list_of(bytes + more, n, item)
            == Some((value, rest + more)),
    decreases n,
{
    if n > 0 {
        assert(item(bytes) is Some ==> item(bytes + more) is Some);
        if let Some((first, rest)) = item(bytes) {
            lemma_list_stable(rest, (n - 1) as nat, item, more);
        }
    }
}

proof fn lemma_items_stable<T>(
    bytes: Seq<u8>,
    item: spec_fn(Seq<u8>) -> Option<(T, Seq<u8>)>,
    more: Seq<u8>,
)
    requires
        stable(item),
    ensures
        items_of(bytes, item) matches Some((value, rest)) ==> items_of(bytes + more, item) == Some(
            (value, rest + more),
        ),
{
    lemma_u32_stable(bytes, more);
    if let Some((n, rest)) = u32_of(bytes) {
        lemma_list_stable(rest, n as nat, item, more);
    }
}

proof fn lemma_hparam_stable()
    ensures
        stable(hparam_item()),
{
    assert forall|bytes: Seq<u8>, more: Seq<u8>| #[trigger] hparam_item()(bytes + more) == (
    match hparam_item()(bytes) {
        Some((value, rest)) => Some((value, rest + more)),
        None => hparam_item()(bytes + more),
    }) by {
        lemma_string_stable(bytes, more);
        if let Some((key, rest)) = string_of(bytes) {
            lemma_byte_stable(rest, more);
            if let Some((mark, rest)) = byte_of(rest) {
                lemma_u64_stable(rest, more);
                lemma_string_stable(rest, more);
                lemma_byte_stable(rest, more);
            }
        }
    }
}

proof fn lemma_file_stable()
    ensures
        stable(file_item()),
{
    assert forall|bytes: Seq<u8>, more: Seq<u8>| #[trigger] file_item()(bytes + more) == (
    match file_item()(bytes) {
        Some((value, rest)) => Some((value, rest + more)),
        None => file_item()(bytes + more),
    }) by {
        lemma_string_stable(bytes, more);
        if let Some((path, rest)) = string_of(bytes) {
            lemma_u64_stable(rest, more);
            if let Some((size, rest)) = u64_of(rest) {
                lemma_mtime_stable(rest, more);
                if let Some((mtime, rest)) = mtime_of(rest) {
                    lemma_u64_stable(rest, more);
                }
            }
        }
    }
}

proof fn lemma_segment_values_stable(bytes: Seq<u8>, more: Seq<u8>)
    ensures
        segment_values_of(bytes) matches Some((value, rest)) ==> segment_values_of(bytes + more)
            == Some((value, rest + more)),
{
    lemma_u64_stable(bytes, more);
    if let Some((min, rest)) = u64_of(bytes) {
        lemma_u64_stable(rest, more);
        if let Some((max, rest)) = u64_of(rest) {
            lemma_moments_stable(rest, more);
            if let Some((moments, rest)) = moments_of(rest) {
                lemma_u64_stable(rest, more);
                if let Some((count, rest)) = u64_of(rest) {
                    lemma_u64_stable(rest, more);
                    if let Some((non_finite, rest)) = u64_of(rest) {
                        lemma_option_stable(rest, more);
                    }
                }
            }
        }
    }
}

proof fn lemma_segment_stable()
    ensures
        stable(segment_item()),
{
    assert forall|bytes: Seq<u8>, more: Seq<u8>| #[trigger] segment_item()(bytes + more) == (
    match segment_item()(bytes) {
        Some((value, rest)) => Some((value, rest + more)),
        None => segment_item()(bytes + more),
    }) by {
        lemma_point_stable(bytes, more);
        if let Some((first, rest)) = point_of(bytes) {
            lemma_point_stable(rest, more);
            if let Some((last, rest)) = point_of(rest) {
                lemma_segment_values_stable(rest, more);
            }
        }
    }
}

proof fn lemma_plugin_stable(bytes: Seq<u8>, more: Seq<u8>)
    ensures
        plugin_of(bytes) matches Some((value, rest)) ==> plugin_of(bytes + more) == Some(
            (value, rest + more),
        ),
{
    lemma_byte_stable(bytes, more);
    if let Some((mark, rest)) = byte_of(bytes) {
        lemma_string_stable(rest, more);
    }
}

proof fn lemma_series_stable()
    ensures
        stable(series_item()),
{
    lemma_segment_stable();
    assert forall|bytes: Seq<u8>, more: Seq<u8>| #[trigger] series_item()(bytes + more) == (
    match series_item()(bytes) {
        Some((value, rest)) => Some((value, rest + more)),
        None => series_item()(bytes + more),
    }) by {
        lemma_string_stable(bytes, more);
        if let Some((tag, rest)) = string_of(bytes) {
            lemma_byte_stable(rest, more);
            if let Some((code, rest)) = byte_of(rest) {
                lemma_plugin_stable(rest, more);
                if let Some((plugin, rest)) = plugin_of(rest) {
                    lemma_items_stable(rest, segment_item(), more);
                }
            }
        }
    }
}

proof fn lemma_walls_stable(bytes: Seq<u8>, more: Seq<u8>)
    ensures
        walls_of(bytes) matches Some((value, rest)) ==> walls_of(bytes + more) == Some(
            (value, rest + more),
        ),
{
    lemma_option_stable(bytes, more);
    if let Some((first, rest)) = option_of(bytes) {
        lemma_option_stable(rest, more);
        if let Some((last, rest)) = option_of(rest) {
            lemma_u64_stable(rest, more);
        }
    }
}

proof fn lemma_run_stable()
    ensures
        stable(run_item()),
{
    lemma_hparam_stable();
    lemma_file_stable();
    lemma_series_stable();
    assert forall|bytes: Seq<u8>, more: Seq<u8>| #[trigger] run_item()(bytes + more) == (
    match run_item()(bytes) {
        Some((value, rest)) => Some((value, rest + more)),
        None => run_item()(bytes + more),
    }) by {
        lemma_string_stable(bytes, more);
        if let Some((name, rest)) = string_of(bytes) {
            lemma_string_stable(rest, more);
            if let Some((dir, rest)) = string_of(rest) {
                lemma_items_stable(rest, hparam_item(), more);
                if let Some((hparams, rest)) = items_of(rest, hparam_item()) {
                    lemma_walls_stable(rest, more);
                    if let Some((walls, rest)) = walls_of(rest) {
                        lemma_items_stable(rest, file_item(), more);
                        if let Some((files, rest)) = items_of(rest, file_item()) {
                            lemma_items_stable(rest, series_item(), more);
                        }
                    }
                }
            }
        }
    }
}

/// A torn cache is not read: where bytes are a whole cache, no shorter front
/// of them is one.
pub proof fn law_torn_cache_is_refused(bytes: Seq<u8>, n: int)
    requires
        cache_of(bytes) is Some,
        0 <= n < bytes.len(),
    ensures
        cache_of(bytes.take(n)) is None,
{
    let front = bytes.take(n);
    let more = bytes.skip(n);
    assert(front + more =~= bytes);
    if cache_of(front) is Some {
        law_longer_cache_is_refused(front, more);
    }
}

/// Bytes behind a whole cache spoil it.
pub proof fn law_longer_cache_is_refused(bytes: Seq<u8>, more: Seq<u8>)
    requires
        cache_of(bytes) is Some,
        more.len() > 0,
    ensures
        cache_of(bytes + more) is None,
{
    lemma_run_stable();
    lemma_longer_is_refused(bytes, more, run_item());
}

proof fn lemma_longer_is_refused<T>(
    bytes: Seq<u8>,
    more: Seq<u8>,
    item: spec_fn(Seq<u8>) -> Option<(T, Seq<u8>)>,
)
    requires
        stable(item),
        whole_of(bytes, item) is Some,
        more.len() > 0,
    ensures
        whole_of(bytes + more, item) is None,
{
    lemma_take_stable(bytes, 8, more);
    let rest = (take_of(bytes, 8)->0).1;
    lemma_items_stable(rest, item, more);
}

proof fn lemma_u32_round(value: u32, rest: Seq<u8>)
    ensures
        u32_of(le32_bytes(value) + rest) == Some((value, rest)),
{
    lemma_le32(value, le32_bytes(value));
    assert((le32_bytes(value) + rest).take(4) =~= le32_bytes(value));
    assert((le32_bytes(value) + rest).skip(4) =~= rest);
}

proof fn lemma_u64_round(value: u64, rest: Seq<u8>)
    ensures
        u64_of(le64_bytes(value) + rest) == Some((value, rest)),
{
    lemma_le64(value, le64_bytes(value));
    assert((le64_bytes(value) + rest).take(8) =~= le64_bytes(value));
    assert((le64_bytes(value) + rest).skip(8) =~= rest);
}

proof fn lemma_byte_round(value: u8, rest: Seq<u8>)
    ensures
        byte_of(seq![value] + rest) == Some((value, rest)),
{
    assert((seq![value] + rest).skip(1) =~= rest);
}

proof fn lemma_joined(a: Seq<u8>, b: Seq<u8>, rest: Seq<u8>)
    ensures
        (a + b) + rest == a + (b + rest),
{
    assert((a + b) + rest =~= a + (b + rest));
}

proof fn lemma_option_round(value: Option<u64>, rest: Seq<u8>)
    ensures
        option_of(option_bytes(value) + rest) == Some((value, rest)),
{
    match value {
        Some(v) => {
            lemma_joined(seq![1u8], le64_bytes(v), rest);
            lemma_byte_round(1, le64_bytes(v) + rest);
            lemma_u64_round(v, rest);
        },
        None => {
            lemma_byte_round(0, rest);
        },
    }
}

/// A text whose length a cache can count.
pub open spec fn text_fits(text: Seq<char>) -> bool {
    vstd::utf8::encode_utf8(text).len() <= u32::MAX
}

proof fn lemma_string_round(text: Seq<char>, rest: Seq<u8>)
    requires
        text_fits(text),
    ensures
        string_of(text_bytes(text) + rest) == Some((text, rest)),
{
    let bytes = vstd::utf8::encode_utf8(text);
    vstd::utf8::encode_utf8_valid_utf8(text);
    vstd::utf8::encode_utf8_decode_utf8(text);
    lemma_joined(le32_bytes(bytes.len() as u32), bytes, rest);
    lemma_u32_round(bytes.len() as u32, bytes + rest);
    assert((bytes + rest).take(bytes.len() as int) =~= bytes);
    assert((bytes + rest).skip(bytes.len() as int) =~= rest);
}

/// A moment that system time holds.
pub open spec fn stamp_fits(stamp: Stamp) -> bool {
    stamp.secs <= i64::MAX && stamp.nanos < 1_000_000_000
}

proof fn lemma_mtime_round(mtime: Stamp, rest: Seq<u8>)
    requires
        stamp_fits(mtime),
    ensures
        mtime_of(mtime_bytes(mtime) + rest) == Some((mtime, rest)),
{
    lemma_joined(le64_bytes(mtime.secs), le32_bytes(mtime.nanos), rest);
    lemma_u64_round(mtime.secs, le32_bytes(mtime.nanos) + rest);
    lemma_u32_round(mtime.nanos, rest);
}

proof fn lemma_step_cast(step: i64)
    ensures
        (step as u64) as i64 == step,
{
    assert((step as u64) as i64 == step) by (bit_vector);
}

proof fn lemma_point_round(point: PointStamp, rest: Seq<u8>)
    ensures
        point_of(point_bytes(point) + rest) == Some((point, rest)),
{
    let a = le64_bytes(point.step as u64);
    let b = le64_bytes(point.wall);
    let c = le64_bytes(point.value);
    lemma_joined(a, b + c, rest);
    lemma_joined(b, c, rest);
    lemma_u64_round(point.step as u64, b + (c + rest));
    lemma_u64_round(point.wall, c + rest);
    lemma_u64_round(point.value, rest);
    lemma_step_cast(point.step);
}

proof fn lemma_moments_round(moments: Moments, rest: Seq<u8>)
    ensures
        moments_of(moments_bytes(moments) + rest) == Some((moments, rest)),
{
    let a = le64_bytes(moments.count);
    let b = le64_bytes(moments.mean);
    let c = le64_bytes(moments.m2);
    lemma_joined(a, b + c, rest);
    lemma_joined(b, c, rest);
    lemma_u64_round(moments.count, b + (c + rest));
    lemma_u64_round(moments.mean, c + rest);
    lemma_u64_round(moments.m2, rest);
}

proof fn lemma_step_round(step: Option<i64>, rest: Seq<u8>)
    ensures
        step_of(step_bytes(step) + rest) == Some((step, rest)),
{
    match step {
        Some(s) => {
            lemma_option_round(Some(s as u64), rest);
            lemma_step_cast(s);
        },
        None => {
            lemma_option_round(None, rest);
        },
    }
}

/// A reader that gives back what a writer wrote of items that fit.
pub open spec fn inverts<T>(
    item: spec_fn(Seq<u8>) -> Option<(T, Seq<u8>)>,
    writer: spec_fn(T) -> Seq<u8>,
    fits: spec_fn(T) -> bool,
) -> bool {
    forall|value: T, rest: Seq<u8>|
        fits(value) ==> #[trigger] item(writer(value) + rest) == Some((value, rest))
}

proof fn lemma_list_front<T>(items: Seq<T>, writer: spec_fn(T) -> Seq<u8>)
    requires
        items.len() > 0,
    ensures
        list_bytes(items, writer) == writer(items[0]) + list_bytes(items.skip(1), writer),
    decreases items.len(),
{
    if items.len() == 1 {
        assert(list_bytes(items.drop_last(), writer) =~= Seq::<u8>::empty());
        assert(list_bytes(items.skip(1), writer) =~= Seq::<u8>::empty());
        assert(list_bytes(items, writer) =~= writer(items[0]) + Seq::<u8>::empty());
    } else {
        let front = items.drop_last();
        lemma_list_front(front, writer);
        assert(front.skip(1) =~= items.skip(1).drop_last());
        assert(items.skip(1).last() == items.last());
        lemma_joined(writer(items[0]), list_bytes(front.skip(1), writer), writer(items.last()));
    }
}

proof fn lemma_list_round<T>(
    items: Seq<T>,
    item: spec_fn(Seq<u8>) -> Option<(T, Seq<u8>)>,
    writer: spec_fn(T) -> Seq<u8>,
    fits: spec_fn(T) -> bool,
    rest: Seq<u8>,
)
    requires
        inverts(item, writer, fits),
        forall|i: int| 0 <= i < items.len() ==> fits(#[trigger] items[i]),
    ensures
        list_of(list_bytes(items, writer) + rest, items.len(), item) == Some((items, rest)),
    decreases items.len(),
{
    if items.len() == 0 {
        assert(list_bytes(items, writer) + rest =~= rest);
        assert(items =~= Seq::<T>::empty());
    } else {
        let more = items.skip(1);
        lemma_list_front(items, writer);
        lemma_joined(writer(items[0]), list_bytes(more, writer), rest);
        assert(fits(items[0]));
        assert(item(writer(items[0]) + (list_bytes(more, writer) + rest)) == Some(
            (items[0], list_bytes(more, writer) + rest),
        ));
        assert forall|i: int| 0 <= i < more.len() implies fits(#[trigger] more[i]) by {
            assert(more[i] == items[i + 1]);
        }
        lemma_list_round(more, item, writer, fits, rest);
        assert(seq![items[0]] + more =~= items);
    }
}

proof fn lemma_items_round<T>(
    items: Seq<T>,
    item: spec_fn(Seq<u8>) -> Option<(T, Seq<u8>)>,
    writer: spec_fn(T) -> Seq<u8>,
    fits: spec_fn(T) -> bool,
    rest: Seq<u8>,
)
    requires
        inverts(item, writer, fits),
        items.len() <= u32::MAX,
        forall|i: int| 0 <= i < items.len() ==> fits(#[trigger] items[i]),
    ensures
        items_of(items_bytes(items, writer) + rest, item) == Some((items, rest)),
{
    let n = items.len() as u32;
    lemma_joined(le32_bytes(n), list_bytes(items, writer), rest);
    lemma_u32_round(n, list_bytes(items, writer) + rest);
    lemma_list_round(items, item, writer, fits, rest);
}

/// A hyperparameter whose texts a cache can count.
pub open spec fn hparam_fits(hparam: (Seq<char>, HparamModel)) -> bool {
    &&& text_fits(hparam.0)
    &&& hparam.1 matches HparamModel::Text(text) ==> text_fits(text)
}

/// Whether a hyperparameter fits.
pub open spec fn hparam_fit() -> spec_fn((Seq<char>, HparamModel)) -> bool {
    |hparam: (Seq<char>, HparamModel)| hparam_fits(hparam)
}

proof fn lemma_hparam_round()
    ensures
        inverts(hparam_item(), hparam_writer(), hparam_fit()),
{
    assert forall|value: (Seq<char>, HparamModel), rest: Seq<u8>| hparam_fit()(value) implies
    #[trigger] hparam_item()(hparam_writer()(value) + rest) == Some((value, rest)) by {
        let key = text_bytes(value.0);
        match value.1 {
            HparamModel::Number(bits) => {
                lemma_joined(key, seq![0u8] + le64_bytes(bits), rest);
                lemma_joined(seq![0u8], le64_bytes(bits), rest);
                lemma_string_round(value.0, seq![0u8] + (le64_bytes(bits) + rest));
                lemma_byte_round(0, le64_bytes(bits) + rest);
                lemma_u64_round(bits, rest);
            },
            HparamModel::Text(text) => {
                lemma_joined(key, seq![1u8] + text_bytes(text), rest);
                lemma_joined(seq![1u8], text_bytes(text), rest);
                lemma_string_round(value.0, seq![1u8] + (text_bytes(text) + rest));
                lemma_byte_round(1, text_bytes(text) + rest);
                lemma_string_round(text, rest);
            },
            HparamModel::Truth(truth) => {
                let t: u8 = if truth {
                    1
                } else {
                    0
                };
                assert(seq![2u8, t] =~= seq![2u8] + seq![t]);
                lemma_joined(key, seq![2u8] + seq![t], rest);
                lemma_joined(seq![2u8], seq![t], rest);
                lemma_string_round(value.0, seq![2u8] + (seq![t] + rest));
                lemma_byte_round(2, seq![t] + rest);
                lemma_byte_round(t, rest);
            },
        }
    }
}

/// A file whose path and time a cache can hold.
pub open spec fn file_fits(file: FileEntry) -> bool {
    &&& text_fits(file.path)
    &&& stamp_fits(file.mtime)
}

/// Whether a file fits.
pub open spec fn file_fit() -> spec_fn(FileEntry) -> bool {
    |file: FileEntry| file_fits(file)
}

proof fn lemma_file_round()
    ensures
        inverts(file_item(), file_writer(), file_fit()),
{
    assert forall|value: FileEntry, rest: Seq<u8>| file_fit()(value) implies #[trigger] file_item()(
        file_writer()(value) + rest,
    ) == Some((value, rest)) by {
        let a = text_bytes(value.path);
        let b = le64_bytes(value.size);
        let c = mtime_bytes(value.mtime);
        let d = le64_bytes(value.offset);
        lemma_joined(a, b + (c + d), rest);
        lemma_joined(b, c + d, rest);
        lemma_joined(c, d, rest);
        lemma_string_round(value.path, b + (c + (d + rest)));
        lemma_u64_round(value.size, c + (d + rest));
        lemma_mtime_round(value.mtime, d + rest);
        lemma_u64_round(value.offset, rest);
    }
}

proof fn lemma_segment_values_round(segment: SegmentSummary, rest: Seq<u8>)
    ensures
        segment_values_of(segment_values_bytes(segment) + rest) == Some(
            (
                (
                    segment.min,
                    segment.max,
                    segment.moments,
                    segment.count,
                    segment.non_finite,
                    segment.preempted_at,
                ),
                rest,
            ),
        ),
{
    let a = le64_bytes(segment.min);
    let b = le64_bytes(segment.max);
    let c = moments_bytes(segment.moments);
    let d = le64_bytes(segment.count);
    let e = le64_bytes(segment.non_finite);
    let f = step_bytes(segment.preempted_at);
    lemma_joined(a, b + (c + (d + (e + f))), rest);
    lemma_joined(b, c + (d + (e + f)), rest);
    lemma_joined(c, d + (e + f), rest);
    lemma_joined(d, e + f, rest);
    lemma_joined(e, f, rest);
    lemma_u64_round(segment.min, b + (c + (d + (e + (f + rest)))));
    lemma_u64_round(segment.max, c + (d + (e + (f + rest))));
    lemma_moments_round(segment.moments, d + (e + (f + rest)));
    lemma_u64_round(segment.count, e + (f + rest));
    lemma_u64_round(segment.non_finite, f + rest);
    lemma_step_round(segment.preempted_at, rest);
}

/// Every segment fits.
pub open spec fn segment_fit() -> spec_fn(SegmentSummary) -> bool {
    |segment: SegmentSummary| true
}

proof fn lemma_segment_round()
    ensures
        inverts(segment_item(), segment_writer(), segment_fit()),
{
    assert forall|value: SegmentSummary, rest: Seq<u8>| segment_fit()(value) implies #[trigger]
    segment_item()(segment_writer()(value) + rest) == Some((value, rest)) by {
        let a = point_bytes(value.first);
        let b = point_bytes(value.last);
        let c = segment_values_bytes(value);
        lemma_joined(a, b + c, rest);
        lemma_joined(b, c, rest);
        lemma_point_round(value.first, b + (c + rest));
        lemma_point_round(value.last, c + rest);
        lemma_segment_values_round(value, rest);
    }
}

/// A series whose texts and segments a cache can count.
pub open spec fn series_fits(series: (Seq<char>, SeriesModel)) -> bool {
    &&& text_fits(series.0)
    &&& series.1.plugin matches Some(plugin) ==> text_fits(plugin)
    &&& series.1.segments.len() <= u32::MAX
}

/// Whether a series fits.
pub open spec fn series_fit() -> spec_fn((Seq<char>, SeriesModel)) -> bool {
    |series: (Seq<char>, SeriesModel)| series_fits(series)
}

proof fn lemma_plugin_round(plugin: Option<Seq<char>>, rest: Seq<u8>)
    requires
        plugin matches Some(p) ==> text_fits(p),
    ensures
        plugin_of(plugin_bytes(plugin) + rest) == Some((plugin, rest)),
{
    match plugin {
        Some(p) => {
            lemma_joined(seq![1u8], text_bytes(p), rest);
            lemma_byte_round(1, text_bytes(p) + rest);
            lemma_string_round(p, rest);
        },
        None => {
            lemma_byte_round(0, rest);
        },
    }
}

proof fn lemma_series_round()
    ensures
        inverts(series_item(), series_writer(), series_fit()),
{
    lemma_segment_round();
    assert forall|value: (Seq<char>, SeriesModel), rest: Seq<u8>| series_fit()(value) implies
    #[trigger] series_item()(series_writer()(value) + rest) == Some((value, rest)) by {
        let a = text_bytes(value.0);
        let b = seq![code_of(value.1.class)];
        let c = plugin_bytes(value.1.plugin);
        let d = items_bytes(value.1.segments, segment_writer());
        lemma_joined(a, b + (c + d), rest);
        lemma_joined(b, c + d, rest);
        lemma_joined(c, d, rest);
        lemma_string_round(value.0, b + (c + (d + rest)));
        lemma_byte_round(code_of(value.1.class), c + (d + rest));
        law_class_codes(value.1.class, code_of(value.1.class));
        lemma_plugin_round(value.1.plugin, d + rest);
        lemma_items_round(
            value.1.segments,
            segment_item(),
            segment_writer(),
            segment_fit(),
            rest,
        );
    }
}

/// A run whose texts, lists and times a cache can hold.
pub open spec fn run_fits(run: RunEntry) -> bool {
    &&& text_fits(run.name)
    &&& text_fits(run.dir)
    &&& run.hparams.len() <= u32::MAX
    &&& run.files.len() <= u32::MAX
    &&& run.series.len() <= u32::MAX
    &&& forall|i: int| 0 <= i < run.hparams.len() ==> hparam_fits(#[trigger] run.hparams[i])
    &&& forall|i: int| 0 <= i < run.files.len() ==> file_fits(#[trigger] run.files[i])
    &&& forall|i: int| 0 <= i < run.series.len() ==> series_fits(#[trigger] run.series[i])
}

/// Whether a run fits.
pub open spec fn run_fit() -> spec_fn(RunEntry) -> bool {
    |run: RunEntry| run_fits(run)
}

proof fn lemma_walls_round(run: RunEntry, rest: Seq<u8>)
    ensures
        walls_of(walls_bytes(run) + rest) == Some(
            ((run.first_wall, run.last_wall, run.preemptions), rest),
        ),
{
    let a = option_bytes(run.first_wall);
    let b = option_bytes(run.last_wall);
    let c = le64_bytes(run.preemptions);
    lemma_joined(a, b + c, rest);
    lemma_joined(b, c, rest);
    lemma_option_round(run.first_wall, b + (c + rest));
    lemma_option_round(run.last_wall, c + rest);
    lemma_u64_round(run.preemptions, rest);
}

proof fn lemma_one_run_round(run: RunEntry, rest: Seq<u8>)
    requires
        run_fits(run),
    ensures
        run_of(run_bytes(run) + rest) == Some((run, rest)),
{
    let a = text_bytes(run.name);
    let b = text_bytes(run.dir);
    let c = items_bytes(run.hparams, hparam_writer());
    let d = walls_bytes(run);
    let e = items_bytes(run.files, file_writer());
    let f = items_bytes(run.series, series_writer());
    lemma_joined(a, b + (c + (d + (e + f))), rest);
    lemma_joined(b, c + (d + (e + f)), rest);
    lemma_joined(c, d + (e + f), rest);
    lemma_joined(d, e + f, rest);
    lemma_joined(e, f, rest);
    lemma_string_round(run.name, b + (c + (d + (e + (f + rest)))));
    lemma_string_round(run.dir, c + (d + (e + (f + rest))));
    lemma_hparam_round();
    lemma_items_round(
        run.hparams,
        hparam_item(),
        hparam_writer(),
        hparam_fit(),
        d + (e + (f + rest)),
    );
    lemma_walls_round(run, e + (f + rest));
    lemma_file_round();
    lemma_items_round(run.files, file_item(), file_writer(), file_fit(), f + rest);
    lemma_series_round();
    lemma_items_round(run.series, series_item(), series_writer(), series_fit(), rest);
}

proof fn lemma_run_round()
    ensures
        inverts(run_item(), run_writer(), run_fit()),
{
    assert forall|value: RunEntry, rest: Seq<u8>| run_fit()(value) implies #[trigger] run_item()(
        run_writer()(value) + rest,
    ) == Some((value, rest)) by {
        lemma_one_run_round(value, rest);
    }
}

proof fn lemma_runs_round(runs: Seq<RunEntry>)
    requires
        runs.len() <= u32::MAX,
        forall|i: int| 0 <= i < runs.len() ==> run_fits(#[trigger] runs[i]),
    ensures
        items_of(items_bytes(runs, run_writer()), run_item()) == Some((runs, Seq::<u8>::empty())),
{
    lemma_run_round();
    assert forall|i: int| 0 <= i < runs.len() implies run_fit()(#[trigger] runs[i]) by {
        assert(run_fits(runs[i]));
    }
    lemma_items_round(runs, run_item(), run_writer(), run_fit(), Seq::empty());
    let body = items_bytes(runs, run_writer());
    assert(body + Seq::<u8>::empty() =~= body);
}

/// What is saved is what a load reads back, run by run.
pub proof fn law_cache_round_trip(runs: Seq<RunEntry>)
    requires
        runs.len() <= u32::MAX,
        forall|i: int| 0 <= i < runs.len() ==> run_fits(#[trigger] runs[i]),
    ensures
        cache_of(cache_bytes(runs)) == Some(runs),
{
    lemma_runs_round(runs);
    lemma_behind_magic(items_bytes(runs, run_writer()), runs, run_item());
}

proof fn lemma_behind_magic<T>(
    body: Seq<u8>,
    items: Seq<T>,
    item: spec_fn(Seq<u8>) -> Option<(T, Seq<u8>)>,
)
    requires
        items_of(body, item) == Some((items, Seq::<u8>::empty())),
    ensures
        whole_of(magic() + body, item) == Some(items),
{
    let bytes = magic() + body;
    assert(bytes.take(8) =~= magic());
    assert(bytes.skip(8) =~= body);
}

/// The pairs of a map, read back, are the map.
pub proof fn lemma_pairs_of_map<V: View>(map: NameMap<V>, n: int)
    requires
        map.wf(),
        0 <= n <= map.names().len(),
    ensures
        forall|name: Seq<char>| #[trigger]
            map_of(pairs_of(map).take(n)).dom().contains(name) <==> exists|i: int|
                0 <= i < n && #[trigger] map.names()[i] == name,
        forall|i: int|
            0 <= i < n ==> map_of(pairs_of(map).take(n))[#[trigger] map.names()[i]]
                == map.values()[i]@,
    decreases n,
{
    let pairs = pairs_of(map);
    if n > 0 {
        lemma_pairs_of_map(map, n - 1);
        assert(pairs.take(n).drop_last() =~= pairs.take(n - 1));
        assert(pairs.take(n).last() == (map.names()[n - 1], map.values()[n - 1]@));
        assert forall|name: Seq<char>| #[trigger]
            map_of(pairs.take(n)).dom().contains(name) <==> exists|i: int|
                0 <= i < n && #[trigger] map.names()[i] == name by {
            if name == map.names()[n - 1] {
                assert(0 <= n - 1 < n && map.names()[n - 1] == name);
            } else if map_of(pairs.take(n - 1)).dom().contains(name) {
                let i = choose|i: int| 0 <= i < n - 1 && #[trigger] map.names()[i] == name;
                assert(0 <= i < n && map.names()[i] == name);
            }
        }
        assert forall|i: int| 0 <= i < n implies map_of(pairs.take(n))[#[trigger] map.names()[i]]
            == map.values()[i]@ by {
            if map.names()[i] == map.names()[n - 1] {
                crate::names::lemma_in_order_distinct(map.names(), i, n - 1);
            }
        }
    }
}

/// The pairs of a map, read back, are the map.
pub proof fn law_pairs_of_map<V: View>(map: NameMap<V>)
    requires
        map.wf(),
    ensures
        map_of(pairs_of(map)) == map.model(),
{
    let n = map.names().len() as int;
    lemma_pairs_of_map(map, n);
    assert(pairs_of(map).take(n) =~= pairs_of(map));
    assert forall|name: Seq<char>| map_of(pairs_of(map)).dom().contains(name)
        == map.model().dom().contains(name) by {
        map.lemma_model_has(name);
    }
    assert forall|name: Seq<char>| map.model().dom().contains(name) implies map_of(
        pairs_of(map),
    )[name] == map.model()[name] by {
        map.lemma_model_has(name);
        let i = map.index_of(name);
        map.lemma_index(i);
        assert(map_of(pairs_of(map))[map.names()[i]] == map.values()[i]@);
    }
    assert(map_of(pairs_of(map)) =~= map.model());
}

/// A saved run comes back with its summaries, its hyperparameters and its
/// walls; when it was last written and whether it finished is for the files
/// to say again.
pub proof fn law_saved_run_is_restored(name: Seq<char>, run: Run, files: Seq<FileEntry>)
    requires
        run.wf(),
    ensures
        entry_of(name, run, files).run() == (RunModel {
            backend: Backend::Tfevents,
            last_write: None,
            finished: None,
            ..run@
        }),
{
    law_pairs_of_map(run.hparams);
    law_pairs_of_map(run.series);
}

} // verus!
