//! Test and fixture aid: writes a whole `.wandb` file (header + framed
//! records). The viewer never writes into a run directory; this exists so
//! the readers can be exercised without a wandb installation.
use vstd::prelude::*;

use crate::bytes::{put_bytes, put_le32};
use crate::double::{equal, is_equal};
use crate::text::{integer_text, push_integer};
use crate::wandb::{
    block_left, checksum_chunk, chunk_bytes, lemma_next_room, magic, padding, payloads,
    record_chunks, records_bytes, room, BLOCK, CHUNK_HEADER,
};
use crate::wire::bytes_field;
use crate::writer::field_bytes;

verus! {

/// The bytes of a file of records.
pub open spec fn wandb_bytes(records: Seq<Seq<u8>>) -> Seq<u8> {
    magic() + seq![0u8] + records_bytes(7, records)
}

/// A complete file from pre-encoded record payloads.
pub fn wandb_file(records: &[Vec<u8>]) -> (file: Vec<u8>)
    ensures
        file@ == wandb_bytes(payloads(records@)),
{
    let mut out: Vec<u8> = vec![0x3A, 0x57, 0x26, 0x42, 0xE1, 0xBE, 0x00];
    assert(payloads(records@.take(0)) =~= Seq::<Seq<u8>>::empty());
    assert(out@ =~= wandb_bytes(payloads(records@.take(0))));
    let mut i: usize = 0;
    while i < records.len()
        invariant
            i <= records@.len(),
            out@ == wandb_bytes(payloads(records@.take(i as int))),
        decreases records@.len() - i,
    {
        let ghost before = payloads(records@.take(i as int));
        append_record(&mut out, &records[i]);
        proof {
            let longer = payloads(records@.take(i + 1));
            assert(longer.drop_last() =~= before);
            assert(longer.last() == records@[i as int]@);
            assert(wandb_bytes(before).len() == 7 + records_bytes(7, before).len());
            assert(out@ =~= wandb_bytes(longer));
        }
        i += 1;
    }
    assert(records@.take(records@.len() as int) =~= records@);
    out
}

/// Appends one record, splitting into FIRST/MIDDLE/LAST chunks at block
/// boundaries exactly like the real writer.
#[verifier::rlimit(80)]
pub fn append_record(out: &mut Vec<u8>, payload: &[u8])
    ensures
        final(out)@ == old(out)@ + record_chunks(old(out)@.len() as int, payload@, true),
{
    let mut from: usize = 0;
    let mut first: bool = true;
    let ghost expected = old(out)@ + record_chunks(old(out)@.len() as int, payload@, true);
    assert(payload@.skip(0) =~= payload@);
    loop
        invariant
            from <= payload.len(),
            expected == old(out)@ + record_chunks(old(out)@.len() as int, payload@, true),
            expected == out@ + record_chunks(
                out@.len() as int,
                payload@.skip(from as int),
                first,
            ),
        decreases
                payload.len() - from,
                if room(out@.len() as int) == 0 {
                    1int
                } else {
                    0
                },
    {
        let ghost before = out@;
        let ghost at = out@.len() as int;
        let ghost rest = payload@.skip(from as int);
        proof {
            lemma_next_room(at, rest);
        }
        let mut left: usize = BLOCK - out.len() % BLOCK;
        assert(left == block_left(at));
        if left < CHUNK_HEADER {
            push_zeros(out, left);
            left = BLOCK;
        }
        assert(out@ =~= before + padding(at));
        assert(left - CHUNK_HEADER == room(at));
        let remaining: usize = payload.len() - from;
        let last = remaining <= left - CHUNK_HEADER;
        let take: usize = if last {
            remaining
        } else {
            left - CHUNK_HEADER
        };
        let kind: u8 = if first {
            if last {
                1
            } else {
                2
            }
        } else {
            if last {
                4
            } else {
                3
            }
        };
        let chunk = vstd::slice::slice_subrange(payload, from, from + take);
        assert(chunk@ =~= if last {
            rest
        } else {
            rest.take(room(at))
        });
        put_le32(out, checksum_chunk(kind, chunk));
        out.push((take % 0x100) as u8);
        out.push((take / 0x100) as u8);
        out.push(kind);
        put_bytes(out, chunk);
        assert(out@ =~= before + (padding(at) + chunk_bytes(kind, chunk@)));
        if last {
            return ;
        }
        proof {
            assert(rest.skip(room(at)) =~= payload@.skip(from + take));
            assert(chunk_bytes(kind, chunk@).len() == chunk_bytes(2, chunk@).len()) by {
                crate::bytes::lemma_le32(0, crate::bytes::le32_bytes(0));
            }
            let later = record_chunks(out@.len() as int, payload@.skip(from + take), false);
            assert(expected =~= before + (padding(at) + chunk_bytes(kind, chunk@) + later));
            assert(expected =~= out@ + later);
        }
        from = from + take;
        first = false;
    }
}

/// Appends zeros.
fn push_zeros(out: &mut Vec<u8>, count: usize)
    ensures
        final(out)@ == old(out)@ + Seq::new(count as nat, |i: int| 0u8),
{
    let mut i: usize = 0;
    while i < count
        invariant
            i <= count,
            out@ == old(out)@ + Seq::new(i as nat, |k: int| 0u8),
        decreases count - i,
    {
        out.push(0);
        i += 1;
        assert(out@ =~= old(out)@ + Seq::new(i as nat, |k: int| 0u8));
    }
}

/// The bytes of a history or config item.
pub open spec fn item_bytes(key: Seq<char>, json: Seq<char>) -> Seq<u8> {
    bytes_field(1, vstd::utf8::encode_utf8(key)) + bytes_field(16, vstd::utf8::encode_utf8(json))
}

/// Encodes a history or config item.
fn item(key: &str, json: &str) -> (out: Vec<u8>)
    ensures
        out@ == item_bytes(key@, json@),
{
    let mut out: Vec<u8> = Vec::new();
    field_bytes(1, key.as_bytes(), &mut out);
    field_bytes(16, json.as_bytes(), &mut out);
    assert(out@ =~= item_bytes(key@, json@));
    out
}

/// The bytes of a list of items, each a field 1.
pub open spec fn items_bytes(items: Seq<(&str, &str)>) -> Seq<u8>
    decreases items.len(),
{
    if items.len() == 0 {
        Seq::empty()
    } else {
        items_bytes(items.drop_last()) + bytes_field(
            1,
            item_bytes(items.last().0@, items.last().1@),
        )
    }
}

/// Appends a list of items.
fn put_items(items: &[(&str, &str)], out: &mut Vec<u8>)
    ensures
        final(out)@ == old(out)@ + items_bytes(items@),
{
    let mut i: usize = 0;
    assert(out@ =~= old(out)@ + items_bytes(items@.take(0)));
    while i < items.len()
        invariant
            i <= items@.len(),
            out@ == old(out)@ + items_bytes(items@.take(i as int)),
        decreases items@.len() - i,
    {
        let (key, json) = items[i];
        let entry = item(key, json);
        field_bytes(1, &entry, out);
        proof {
            assert(items@.take(i + 1).drop_last() =~= items@.take(i as int));
            assert(items@.take(i + 1).last() == items@[i as int]);
            assert(out@ =~= old(out)@ + items_bytes(items@.take(i + 1)));
        }
        i += 1;
    }
    assert(items@.take(items@.len() as int) =~= items@);
}

/// The bytes of a history record: the step, the wall time unless it is zero,
/// then the metrics.
pub open spec fn history_bytes(
    step: i64,
    wall: u64,
    wall_text: Seq<char>,
    values: Seq<(&str, &str)>,
) -> Seq<u8> {
    let stamp = if equal(wall, 0) {
        Seq::empty()
    } else {
        bytes_field(1, item_bytes("_timestamp"@, wall_text))
    };
    bytes_field(
        2,
        bytes_field(1, item_bytes("_step"@, integer_text(step as int))) + stamp + items_bytes(
            values,
        ),
    )
}

/// A history record: `_step`/`_timestamp` plus the given metrics. `wall` is
/// the bits of a double and `wall_text` its decimal text.
pub fn history_record(step: i64, wall: u64, wall_text: &str, values: &[(&str, &str)]) -> (record:
    Vec<u8>)
    ensures
        record@ == history_bytes(step, wall, wall_text@, values@),
{
    let mut history: Vec<u8> = Vec::new();
    let mut step_text = String::new();
    push_integer(&mut step_text, step);
    assert(step_text@ =~= integer_text(step as int));
    let step_item = item("_step", &step_text);
    field_bytes(1, &step_item, &mut history);
    if !is_equal(wall, 0) {
        let wall_item = item("_timestamp", wall_text);
        field_bytes(1, &wall_item, &mut history);
    }
    put_items(values, &mut history);
    let ghost stamp = if equal(wall, 0) {
        Seq::empty()
    } else {
        bytes_field(1, item_bytes("_timestamp"@, wall_text@))
    };
    assert(history@ =~= bytes_field(1, item_bytes("_step"@, integer_text(step as int))) + stamp
        + items_bytes(values@));
    let mut record: Vec<u8> = Vec::new();
    field_bytes(2, &history, &mut record);
    assert(record@ =~= history_bytes(step, wall, wall_text@, values@));
    record
}

/// A config record.
pub fn config_record(updates: &[(&str, &str)]) -> (record: Vec<u8>)
    ensures
        record@ == bytes_field(5, items_bytes(updates@)),
{
    let mut config: Vec<u8> = Vec::new();
    put_items(updates, &mut config);
    assert(config@ =~= items_bytes(updates@));
    let mut record: Vec<u8> = Vec::new();
    field_bytes(5, &config, &mut record);
    assert(record@ =~= bytes_field(5, items_bytes(updates@)));
    record
}

/// An exit record.
pub fn exit_record() -> (record: Vec<u8>)
    ensures
        record@ == bytes_field(18, Seq::empty()),
{
    let mut record: Vec<u8> = Vec::new();
    let empty: Vec<u8> = Vec::new();
    field_bytes(18, &empty, &mut record);
    assert(record@ =~= bytes_field(18, Seq::empty()));
    record
}

} // verus!
