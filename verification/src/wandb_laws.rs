//! What records of the run log come to: items read back under their keys,
//! nested ones joined by slashes, and history, config and exit records as what
//! they were written as.
use vstd::prelude::*;

use crate::double::truncated;
use crate::numeric::{Moments, Numeric};
use crate::params::ParamModel;
use crate::text::{first_index, law_text_round_trip, lemma_first_index, pieces, trimmed};
use crate::wandb_record::{
    config_of_items, config_schema, history_schema, item_of, item_schema, joined, json_number_of,
    json_param_of, lemma_loose_shrinks, loose_field, loose_walk, record_shape, replaced,
    row_of_entries, row_step, unescaped, unwrapped, wrapped_value, EntryModel, ItemModel, Loose,
    RecordShape, RowModel, WandbModel,
};
use crate::wire::{bytes_field, law_field_round_trip};

verus! {

/// Walking a length-delimited field, then the rest.
proof fn lemma_loose_bytes<A>(
    field: u32,
    bytes: Seq<u8>,
    rest: Seq<u8>,
    start: A,
    step: spec_fn(A, u32, Loose) -> Option<A>,
)
    requires
        field > 0,
        bytes.len() <= u64::MAX,
    ensures
        loose_field(bytes_field(field, bytes) + rest) == Some(
            Some((field, Loose::Bytes(bytes), rest)),
        ),
        loose_walk(bytes_field(field, bytes) + rest, start, step) == (match step(
            start,
            field,
            Loose::Bytes(bytes),
        ) {
            Some(next) => loose_walk(rest, next, step),
            None => None,
        }),
{
    law_field_round_trip(field, 0, 0, bytes, rest);
    lemma_loose_shrinks(bytes_field(field, bytes) + rest);
}

/// A message that is one length-delimited field.
proof fn lemma_loose_one<A>(
    field: u32,
    bytes: Seq<u8>,
    start: A,
    step: spec_fn(A, u32, Loose) -> Option<A>,
)
    requires
        field > 0,
        bytes.len() <= u64::MAX,
    ensures
        loose_walk(bytes_field(field, bytes), start, step) == step(start, field, Loose::Bytes(bytes)),
{
    assert(bytes_field(field, bytes) + Seq::<u8>::empty() =~= bytes_field(field, bytes));
    lemma_loose_bytes(field, bytes, Seq::empty(), start, step);
}

/// The first separator stands behind a text that has none.
pub proof fn lemma_first_behind(front: Seq<char>, mark: char, back: Seq<char>)
    requires
        !front.contains(mark),
    ensures
        first_index(front + seq![mark] + back, mark) == Some(front.len() as int),
{
    let s = front + seq![mark] + back;
    let n = front.len() as int;
    lemma_first_index(s, mark);
    assert(s[n] == mark);
    assert(s.contains(mark));
    let i = first_index(s, mark)->0;
    if i < n {
        assert(s[i] == front[i]);
        assert(front.contains(front[i]));
    }
}

/// The first part of a joined key stands in front.
proof fn lemma_joined_front(parts: Seq<Seq<char>>)
    requires
        parts.len() > 1,
    ensures
        joined(parts) == parts[0] + seq!['/'] + joined(parts.skip(1)),
    decreases parts.len(),
{
    if parts.len() > 2 {
        let init = parts.drop_last();
        lemma_joined_front(init);
        assert(init.skip(1) =~= parts.skip(1).drop_last());
        assert(joined(parts) =~= parts[0] + seq!['/'] + joined(parts.skip(1)));
    } else {
        let init = parts.drop_last();
        assert(init.len() == 1 && parts.skip(1).len() == 1);
        assert(joined(init) == parts[0]);
        assert(joined(parts.skip(1)) == parts[1]);
        assert(parts.last() == parts[1]);
        assert(joined(parts) =~= parts[0] + seq!['/'] + joined(parts.skip(1)));
    }
}

/// Splitting a joined key at its slashes gives back its parts, every one, in
/// order — where none of them holds a slash.
pub proof fn law_joined_keys_split_back(parts: Seq<Seq<char>>)
    requires
        parts.len() > 0,
        forall|i: int| 0 <= i < parts.len() ==> !(#[trigger] parts[i]).contains('/'),
    ensures
        pieces(joined(parts), '/') == parts,
    decreases parts.len(),
{
    let key = joined(parts);
    if parts.len() == 1 {
        lemma_first_index(key, '/');
        assert(pieces(key, '/') =~= parts);
    } else {
        let rest = parts.skip(1);
        lemma_joined_front(parts);
        lemma_first_behind(parts[0], '/', joined(rest));
        let n = parts[0].len() as int;
        assert(key.take(n) =~= parts[0]);
        assert(key.skip(n + 1) =~= joined(rest));
        assert forall|i: int| 0 <= i < rest.len() implies !(#[trigger] rest[i]).contains('/') by {
            assert(rest[i] == parts[i + 1]);
        }
        law_joined_keys_split_back(rest);
        assert(pieces(key, '/') =~= parts);
    }
}

/// Different nested keys are different keys — where no part holds a slash.
pub proof fn law_joined_keys_differ(a: Seq<Seq<char>>, b: Seq<Seq<char>>)
    requires
        a.len() > 0,
        b.len() > 0,
        forall|i: int| 0 <= i < a.len() ==> !(#[trigger] a[i]).contains('/'),
        forall|i: int| 0 <= i < b.len() ==> !(#[trigger] b[i]).contains('/'),
    ensures
        joined(a) == joined(b) ==> a == b,
{
    law_joined_keys_split_back(a);
    law_joined_keys_split_back(b);
}

/// The parts of a nested key, as an item writes them.
pub open spec fn nested_bytes(parts: Seq<Seq<char>>) -> Seq<u8>
    decreases parts.len(),
{
    if parts.len() == 0 {
        Seq::empty()
    } else {
        bytes_field(2, vstd::utf8::encode_utf8(parts[0])) + nested_bytes(parts.skip(1))
    }
}

/// Every part is short enough to be written.
pub open spec fn writable(parts: Seq<Seq<char>>) -> bool {
    forall|i: int|
        0 <= i < parts.len() ==> vstd::utf8::encode_utf8(#[trigger] parts[i]).len() <= u64::MAX
}

proof fn lemma_nested_walk(parts: Seq<Seq<char>>, rest: Seq<u8>, item: ItemModel)
    requires
        writable(parts),
    ensures
        loose_walk(nested_bytes(parts) + rest, item, item_schema()) == loose_walk(
            rest,
            ItemModel { nested: item.nested + parts, ..item },
            item_schema(),
        ),
    decreases parts.len(),
{
    if parts.len() == 0 {
        assert(nested_bytes(parts) + rest =~= rest);
        assert(item.nested + parts =~= item.nested);
    } else {
        let part = vstd::utf8::encode_utf8(parts[0]);
        let more = nested_bytes(parts.skip(1)) + rest;
        law_text_round_trip(parts[0]);
        assert(nested_bytes(parts) + rest =~= bytes_field(2, part) + more);
        lemma_loose_bytes(2, part, more, item, item_schema());
        let next = ItemModel { nested: item.nested.push(parts[0]), ..item };
        assert forall|i: int| 0 <= i < parts.skip(1).len() implies vstd::utf8::encode_utf8(
            #[trigger] parts.skip(1)[i],
        ).len() <= u64::MAX by {
            assert(parts.skip(1)[i] == parts[i + 1]);
        }
        lemma_nested_walk(parts.skip(1), rest, next);
        assert(next.nested + parts.skip(1) =~= item.nested + parts);
    }
}

/// An item with a nested key reads back under its parts joined by slashes, and
/// splitting that key gives the parts back; one with a flat key reads back
/// under it. Either has its JSON text.
pub proof fn law_item_reads_back(key: Seq<char>, parts: Seq<Seq<char>>, json: Seq<char>)
    requires
        vstd::utf8::encode_utf8(key).len() <= u64::MAX,
        vstd::utf8::encode_utf8(json).len() <= u64::MAX,
        writable(parts),
        parts.len() > 0,
        forall|i: int| 0 <= i < parts.len() ==> !(#[trigger] parts[i]).contains('/'),
    ensures
        item_of(nested_bytes(parts) + bytes_field(16, vstd::utf8::encode_utf8(json))) matches Some(
            (name, text),
        ) && pieces(name, '/') == parts && text == json,
        item_of(
            bytes_field(1, vstd::utf8::encode_utf8(key)) + bytes_field(
                16,
                vstd::utf8::encode_utf8(json),
            ),
        ) == Some((key, json)),
{
    let start = ItemModel { key: Seq::empty(), nested: Seq::empty(), json: Seq::empty() };
    let value = vstd::utf8::encode_utf8(json);
    let name = vstd::utf8::encode_utf8(key);
    law_text_round_trip(json);
    law_text_round_trip(key);
    lemma_nested_walk(parts, bytes_field(16, value), start);
    let nested = ItemModel { nested: start.nested + parts, ..start };
    assert(start.nested + parts =~= parts);
    lemma_loose_one(16, value, nested, item_schema());
    law_joined_keys_split_back(parts);
    lemma_loose_bytes(1, name, bytes_field(16, value), start, item_schema());
    lemma_loose_one(16, value, ItemModel { key, ..start }, item_schema());
}

/// Items, as a history row or a config writes them.
pub open spec fn items_written(items: Seq<(Seq<char>, Seq<char>)>) -> Seq<u8>
    decreases items.len(),
{
    if items.len() == 0 {
        Seq::empty()
    } else {
        bytes_field(
            1,
            bytes_field(1, vstd::utf8::encode_utf8(items[0].0)) + bytes_field(
                16,
                vstd::utf8::encode_utf8(items[0].1),
            ),
        ) + items_written(items.skip(1))
    }
}

/// Every key and text is short enough to be written.
pub open spec fn items_writable(items: Seq<(Seq<char>, Seq<char>)>) -> bool {
    forall|i: int|
        0 <= i < items.len() ==> vstd::utf8::encode_utf8((#[trigger] items[i]).0).len()
            + vstd::utf8::encode_utf8(items[i].1).len() + 100 <= u64::MAX
}

/// What a row of items is, entry by entry.
pub open spec fn as_entries(items: Seq<(Seq<char>, Seq<char>)>) -> Seq<EntryModel> {
    items.map_values(|item: (Seq<char>, Seq<char>)| EntryModel::Item(item.0, item.1))
}

/// The items whose keys are not the tracker's own.
pub open spec fn public_items(items: Seq<(Seq<char>, Seq<char>)>) -> Seq<(Seq<char>, Seq<char>)>
    decreases items.len(),
{
    if items.len() == 0 {
        Seq::empty()
    } else {
        let rest = public_items(items.skip(1));
        if items[0].0.len() > 0 && items[0].0[0] == '_' {
            rest
        } else {
            seq![items[0]] + rest
        }
    }
}

proof fn lemma_item_len(item: (Seq<char>, Seq<char>))
    requires
        vstd::utf8::encode_utf8(item.0).len() + vstd::utf8::encode_utf8(item.1).len() + 100
            <= u64::MAX,
    ensures
        (bytes_field(1, vstd::utf8::encode_utf8(item.0)) + bytes_field(
            16,
            vstd::utf8::encode_utf8(item.1),
        )).len() <= u64::MAX,
{
    crate::wire::law_varint_round_trip(10, Seq::empty());
    crate::wire::law_varint_round_trip(130, Seq::empty());
    crate::wire::law_varint_round_trip(
        vstd::utf8::encode_utf8(item.0).len() as u64,
        Seq::empty(),
    );
    crate::wire::law_varint_round_trip(
        vstd::utf8::encode_utf8(item.1).len() as u64,
        Seq::empty(),
    );
}

proof fn lemma_flat_item(item: (Seq<char>, Seq<char>))
    requires
        vstd::utf8::encode_utf8(item.0).len() + vstd::utf8::encode_utf8(item.1).len() + 100
            <= u64::MAX,
    ensures
        item_of(
            bytes_field(1, vstd::utf8::encode_utf8(item.0)) + bytes_field(
                16,
                vstd::utf8::encode_utf8(item.1),
            ),
        ) == Some(item),
{
    let part = Seq::<char>::empty();
    let parts = seq![part];
    assert(vstd::utf8::encode_utf8(part).len() <= u64::MAX) by {
        assert(vstd::utf8::encode_utf8(part) =~= Seq::<u8>::empty());
    }
    assert(writable(parts));
    assert(!part.contains('/'));
    law_item_reads_back(item.0, parts, item.1);
}

proof fn lemma_history_walk(items: Seq<(Seq<char>, Seq<char>)>, before: Seq<EntryModel>)
    requires
        items_writable(items),
    ensures
        loose_walk(items_written(items), before, history_schema()) == Some(
            before + as_entries(items),
        ),
    decreases items.len(),
{
    if items.len() == 0 {
        assert(before + as_entries(items) =~= before);
    } else {
        let item = items[0];
        let bytes = bytes_field(1, vstd::utf8::encode_utf8(item.0)) + bytes_field(
            16,
            vstd::utf8::encode_utf8(item.1),
        );
        lemma_item_len(item);
        lemma_flat_item(item);
        let next = before.push(EntryModel::Item(item.0, item.1));
        lemma_loose_bytes(1, bytes, items_written(items.skip(1)), before, history_schema());
        assert forall|i: int| 0 <= i < items.skip(1).len() implies vstd::utf8::encode_utf8(
            (#[trigger] items.skip(1)[i]).0,
        ).len() + vstd::utf8::encode_utf8(items.skip(1)[i].1).len() + 100 <= u64::MAX by {
            assert(items.skip(1)[i] == items[i + 1]);
        }
        lemma_history_walk(items.skip(1), next);
        assert(next + as_entries(items.skip(1)) =~= before + as_entries(items));
    }
}

proof fn lemma_config_walk(
    items: Seq<(Seq<char>, Seq<char>)>,
    before: Seq<(Seq<char>, Seq<char>)>,
)
    requires
        items_writable(items),
    ensures
        loose_walk(items_written(items), before, config_schema()) == Some(
            before + public_items(items),
        ),
    decreases items.len(),
{
    if items.len() == 0 {
        assert(before + public_items(items) =~= before);
    } else {
        let item = items[0];
        let bytes = bytes_field(1, vstd::utf8::encode_utf8(item.0)) + bytes_field(
            16,
            vstd::utf8::encode_utf8(item.1),
        );
        lemma_item_len(item);
        lemma_flat_item(item);
        let next = if item.0.len() > 0 && item.0[0] == '_' {
            before
        } else {
            before.push(item)
        };
        lemma_loose_bytes(1, bytes, items_written(items.skip(1)), before, config_schema());
        assert forall|i: int| 0 <= i < items.skip(1).len() implies vstd::utf8::encode_utf8(
            (#[trigger] items.skip(1)[i]).0,
        ).len() + vstd::utf8::encode_utf8(items.skip(1)[i].1).len() + 100 <= u64::MAX by {
            assert(items.skip(1)[i] == items[i + 1]);
        }
        lemma_config_walk(items.skip(1), next);
        assert(next + public_items(items.skip(1)) =~= before + public_items(items));
    }
}

/// A history record, a config record and an exit record are what they were
/// written as: the items in order, a config without the tracker's own keys.
pub proof fn law_records_are_what_they_were_written_as(
    items: Seq<(Seq<char>, Seq<char>)>,
    rest: Seq<u8>,
)
    requires
        items_writable(items),
        items_written(items).len() <= u64::MAX,
    ensures
        record_shape(bytes_field(2, items_written(items)) + rest) == Some(
            RecordShape::History(as_entries(items)),
        ),
        record_shape(bytes_field(5, items_written(items)) + rest) == Some(
            RecordShape::Config(public_items(items)),
        ),
        record_shape(bytes_field(18, items_written(items)) + rest) == Some(RecordShape::Exit),
        record_shape(Seq::empty()) == Some(RecordShape::Other),
{
    let written = items_written(items);
    lemma_history_walk(items, Seq::empty());
    lemma_config_walk(items, Seq::empty());
    assert(Seq::<EntryModel>::empty() + as_entries(items) =~= as_entries(items));
    assert(Seq::<(Seq<char>, Seq<char>)>::empty() + public_items(items) =~= public_items(items));
    lemma_loose_bytes(2, written, rest, Seq::<EntryModel>::empty(), history_schema());
    lemma_loose_bytes(5, written, rest, Seq::<EntryModel>::empty(), history_schema());
    lemma_loose_bytes(18, written, rest, Seq::<EntryModel>::empty(), history_schema());
}

/// The words of JSON and of Python that stand for numbers that are none, and
/// those that stand for no number.
pub proof fn law_number_words_of_json(reading: Option<u64>)
    ensures
        json_number_of("NaN"@, reading) matches Some(bits) && crate::double::nan(bits),
        json_number_of("nan"@, reading) matches Some(bits) && crate::double::nan(bits),
        json_number_of("Infinity"@, reading) == Some(0x7FF0_0000_0000_0000u64),
        json_number_of("inf"@, reading) == Some(0x7FF0_0000_0000_0000u64),
        json_number_of("-Infinity"@, reading) == Some(0xFFF0_0000_0000_0000u64),
        json_number_of("-inf"@, reading) == Some(0xFFF0_0000_0000_0000u64),
        json_number_of("true"@, reading) is None,
        json_number_of("false"@, reading) is None,
        json_number_of("null"@, reading) is None,
{
    reveal_strlit("NaN");
    reveal_strlit("nan");
    reveal_strlit("Infinity");
    reveal_strlit("inf");
    reveal_strlit("-Infinity");
    reveal_strlit("-inf");
    reveal_strlit("true");
    reveal_strlit("false");
    reveal_strlit("null");
    assert("NaN"@.len() == 3 && "nan"@.len() == 3 && "inf"@.len() == 3);
    assert("true"@.len() == 4 && "null"@.len() == 4 && "-inf"@.len() == 4);
    assert("false"@.len() == 5 && "Infinity"@.len() == 8 && "-Infinity"@.len() == 9);
    assert("NaN"@[0] == 'N' && "nan"@[0] == 'n' && "inf"@[0] == 'i');
    assert("true"@[0] == 't' && "null"@[0] == 'n' && "-inf"@[0] == '-');
}

/// A text that is no word of JSON is the number that it reads as, with or
/// without white space around it.
pub proof fn law_other_numbers_are_read(text: Seq<char>, reading: Option<u64>)
    requires
        trimmed(text).len() > 0,
        crate::text::digit(trimmed(text)[0]),
    ensures
        json_number_of(text, reading) == reading,
{
    reveal_strlit("NaN");
    reveal_strlit("nan");
    reveal_strlit("Infinity");
    reveal_strlit("inf");
    reveal_strlit("-Infinity");
    reveal_strlit("-inf");
    reveal_strlit("true");
    reveal_strlit("false");
    reveal_strlit("null");
}

/// `_step` sets the step of a row, `_timestamp` its wall time, `_runtime`
/// nothing; any other number is a metric under its key; what is no number adds
/// nothing, and an explicit step stands back behind one that is there.
pub proof fn law_row_entries(
    row: RowModel,
    key: Seq<char>,
    json: Seq<char>,
    reading: Option<u64>,
    bits: u64,
    step: i64,
)
    requires
        json_number_of(json, reading) == Some(bits),
        key != "_step"@,
        key != "_timestamp"@,
        key != "_runtime"@,
    ensures
        row_step(row, EntryModel::Item("_step"@, json), reading) == (RowModel {
            step: Some(truncated(bits)),
            ..row
        }),
        row_step(row, EntryModel::Item("_timestamp"@, json), reading) == (RowModel {
            wall: bits,
            ..row
        }),
        row_step(row, EntryModel::Item("_runtime"@, json), reading) == row,
        row_step(row, EntryModel::Item(key, json), reading) == (RowModel {
            values: row.values.push((key, bits)),
            ..row
        }),
        row_step(row, EntryModel::Step(step), reading).step == Some(
            match row.step {
                Some(known) => known,
                None => step,
            },
        ),
        row_step(row, EntryModel::Step(step), reading).values == row.values,
        row_step(row, EntryModel::Item(key, "null"@), reading) == row,
{
    law_number_words_of_json(reading);
    reveal_strlit("_step");
    reveal_strlit("_timestamp");
    reveal_strlit("_runtime");
    assert("_step"@.len() == 5 && "_timestamp"@.len() == 10 && "_runtime"@.len() == 8);
}

/// A wrapped value is the value inside, however often it is wrapped; `true`
/// and `false` are truths, numbers numbers, and `null` is nothing.
pub proof fn law_json_scalars(json: Seq<char>, reading: Option<u64>)
    ensures
        unwrapped(json) == "true"@ ==> json_param_of(json, reading) == Some(
            ParamModel::Truth(true),
        ),
        unwrapped(json) == "false"@ ==> json_param_of(json, reading) == Some(
            ParamModel::Truth(false),
        ),
        unwrapped(json) == "null"@ ==> json_param_of(json, reading) is None,
        unwrapped(json).len() > 0 && crate::text::digit(unwrapped(json)[0]) && reading is Some
            && trimmed(unwrapped(json)) == unwrapped(json) ==> json_param_of(json, reading) == Some(
            ParamModel::Number(reading->0),
        ),
{
    reveal_strlit("true");
    reveal_strlit("false");
    reveal_strlit("null");
    assert("true"@.len() == 4 && "false"@.len() == 5 && "null"@.len() == 4);
    assert("true"@[0] == 't' && "null"@[0] == 'n' && "false"@[0] == 'f');
    if trimmed(unwrapped(json)) == unwrapped(json) && unwrapped(json).len() > 0
        && crate::text::digit(unwrapped(json)[0]) {
        law_other_numbers_are_read(unwrapped(json), reading);
    }
}

/// A value in its wrapper is that value, under as many wrappers as there are.
pub proof fn law_wrappers_are_taken_off(inner: Seq<char>)
    ensures
        wrapped_value(seq!['{'] + "\"value\""@ + seq![':'] + inner + seq!['}']) == Some(inner),
        unwrapped(seq!['{'] + "\"value\""@ + seq![':'] + inner + seq!['}']) == unwrapped(inner),
{
    reveal_strlit("\"value\"");
    let key = "\"value\""@;
    assert(key.len() == 7);
    assert(key[0] == '"' && key[1] == 'v' && key[2] == 'a' && key[3] == 'l' && key[4] == 'u'
        && key[5] == 'e' && key[6] == '"');
    let json = seq!['{'] + key + seq![':'] + inner + seq!['}'];
    assert(json[0] == '{' && json.last() == '}');
    assert(!crate::text::white('{') && !crate::text::white('}') && !crate::text::white('"'));
    assert(trimmed(json) == json);
    let within = json.subrange(1, json.len() - 1);
    assert(within =~= key + seq![':'] + inner);
    assert(!key.contains(':'));
    lemma_first_behind(key, ':', inner);
    assert(within.take(7) =~= key);
    assert(within.skip(8) =~= inner);
    assert(key.last() == '"');
    assert(trimmed(key) == key);
}

/// In a JSON string an escaped quote is a quote and an escaped backslash a
/// backslash; other characters stand for themselves.
pub proof fn law_escapes_are_read(a: Seq<char>, c: char)
    requires
        c != '\\',
    ensures
        unescaped(seq!['\\', '"']) == seq!['"'],
        unescaped(seq!['\\', '\\']) == seq!['\\'],
        unescaped(seq![c]) == seq![c],
        replaced(seq![c] + a, '\\', '"', '"') == seq![c] + replaced(a, '\\', '"', '"'),
        replaced(seq!['\\', '"'] + a, '\\', '"', '"') == seq!['"'] + replaced(a, '\\', '"', '"'),
{
    reveal_with_fuel(replaced, 3);
    let none = Seq::<char>::empty();
    let quote = seq!['\\', '"'];
    let slash = seq!['\\', '\\'];
    assert(quote.skip(2) =~= none);
    assert(slash.skip(1) =~= seq!['\\']);
    assert(slash.skip(2) =~= none);
    assert(seq!['\\'].skip(1) =~= none);
    assert(seq![c].skip(1) =~= none);
    assert(seq!['"'].skip(1) =~= none);
    assert(replaced(none, '\\', '"', '"') =~= none);
    assert(replaced(none, '\\', '\\', '\\') =~= none);
    assert(seq!['"'] + none =~= seq!['"']);
    assert(seq!['\\'] + none =~= seq!['\\']);
    assert(seq![c] + none =~= seq![c]);
    assert(seq!['\\'] + seq!['\\'] =~= slash);
    assert((seq![c] + a).skip(1) =~= a);
    assert((quote + a).skip(2) =~= a);
    assert(replaced(quote, '\\', '"', '"') =~= seq!['"']);
    assert(replaced(slash, '\\', '"', '"') =~= slash);
    assert(replaced(slash, '\\', '\\', '\\') =~= seq!['\\']);
    assert(replaced(seq!['"'], '\\', '\\', '\\') =~= seq!['"']);
    assert(replaced(seq![c], '\\', '"', '"') =~= seq![c]);
    assert(replaced(seq![c], '\\', '\\', '\\') =~= seq![c]);
}

impl<
    F: Fn(&str) -> Option<u64>,
    G: Fn(u64) -> u64,
    H: Fn(Moments, u64) -> Moments,
> Numeric<F, G, H> {
    /// A written history record reads back as its step, its wall time and its
    /// metric.
    pub proof fn law_written_history_reads_back(
        self,
        step: Seq<char>,
        wall: Seq<char>,
        key: Seq<char>,
        json: Seq<char>,
        s: u64,
        w: u64,
        bits: u64,
    )
        requires
            json_number_of(step, self.read(trimmed(step))) == Some(s),
            json_number_of(wall, self.read(trimmed(wall))) == Some(w),
            json_number_of(json, self.read(trimmed(json))) == Some(bits),
            key != "_step"@,
            key != "_timestamp"@,
            key != "_runtime"@,
            items_writable(history_items(step, wall, key, json)),
            items_written(history_items(step, wall, key, json)).len() <= u64::MAX,
        ensures
            self.record(bytes_field(2, items_written(history_items(step, wall, key, json))))
                == Some(
                WandbModel::History {
                    step: truncated(s),
                    wall: w,
                    values: seq![(key, bits)],
                },
            ),
    {
        let items = history_items(step, wall, key, json);
        let none = Seq::<u8>::empty();
        law_records_are_what_they_were_written_as(items, none);
        let history = bytes_field(2, items_written(items));
        assert(history + none =~= history);
        let entries = as_entries(items);
        let e1 = EntryModel::Item("_step"@, step);
        let e2 = EntryModel::Item("_timestamp"@, wall);
        let e3 = EntryModel::Item(key, json);
        let r1 = self.read(trimmed(step));
        let r2 = self.read(trimmed(wall));
        let r3 = self.read(trimmed(json));
        let a0 = Seq::<EntryModel>::empty();
        let b0 = Seq::<Option<u64>>::empty();
        assert(entries =~= a0.push(e1).push(e2).push(e3));
        assert(self.readings(RecordShape::History(entries)) =~= b0.push(r1).push(r2).push(r3));
        lemma_row_push(a0, b0, e1, r1);
        lemma_row_push(a0.push(e1), b0.push(r1), e2, r2);
        lemma_row_push(a0.push(e1).push(e2), b0.push(r1).push(r2), e3, r3);
        let start = RowModel { step: None, wall: 0, values: Seq::empty() };
        law_row_entries(start, key, step, r1, s, 0);
        let row1 = RowModel { step: Some(truncated(s)), ..start };
        law_row_entries(row1, key, wall, r2, w, 0);
        let row2 = RowModel { wall: w, ..row1 };
        law_row_entries(row2, key, json, r3, bits, 0);
        assert(row2.values.push((key, bits)) =~= seq![(key, bits)]);
    }

    /// A written config record reads back as its parameter, and an exit record
    /// as the end.
    pub proof fn law_written_config_reads_back(
        self,
        key: Seq<char>,
        json: Seq<char>,
        param: ParamModel,
    )
        requires
            json_param_of(json, self.read(trimmed(unwrapped(json)))) == Some(param),
            key.len() == 0 || key[0] != '_',
            items_writable(seq![(key, json)]),
            items_written(seq![(key, json)]).len() <= u64::MAX,
        ensures
            self.record(bytes_field(5, items_written(seq![(key, json)]))) == Some(
                WandbModel::Config(seq![(key, param)]),
            ),
            self.record(bytes_field(18, Seq::empty())) == Some(WandbModel::Exit),
    {
        let none = Seq::<u8>::empty();
        let nothing = Seq::<(Seq<char>, Seq<char>)>::empty();
        let one = seq![(key, json)];
        law_records_are_what_they_were_written_as(one, none);
        let config = bytes_field(5, items_written(one));
        assert(config + none =~= config);
        assert(one.skip(1) =~= nothing);
        assert(public_items(nothing) =~= nothing);
        assert(public_items(one) =~= one);
        let shape = RecordShape::Config(one);
        let reading = self.read(trimmed(unwrapped(json)));
        assert(self.readings(shape) =~= seq![reading]);
        assert(one.drop_last() =~= nothing);
        assert(config_of_items(nothing, seq![reading].drop_last()) =~= Seq::<
            (Seq<char>, ParamModel),
        >::empty());
        assert(config_of_items(one, seq![reading]) =~= seq![(key, param)]);
        assert(items_written(nothing) =~= none);
        law_records_are_what_they_were_written_as(nothing, none);
        assert(bytes_field(18, none) + none =~= bytes_field(18, none));
    }
}

/// The items of a history row with a step, a wall time and a metric.
pub open spec fn history_items(
    step: Seq<char>,
    wall: Seq<char>,
    key: Seq<char>,
    json: Seq<char>,
) -> Seq<(Seq<char>, Seq<char>)> {
    seq![("_step"@, step), ("_timestamp"@, wall), (key, json)]
}

proof fn lemma_row_push(
    entries: Seq<EntryModel>,
    readings: Seq<Option<u64>>,
    entry: EntryModel,
    reading: Option<u64>,
)
    ensures
        row_of_entries(entries.push(entry), readings.push(reading)) == row_step(
            row_of_entries(entries, readings),
            entry,
            reading,
        ),
{
    assert(entries.push(entry).drop_last() =~= entries);
    assert(readings.push(reading).drop_last() =~= readings);
}

} // verus!
