//! What one `wandb_internal.Record` means to a viewer: metric rows, config
//! updates and the clean exit.
use vstd::prelude::*;

use crate::double::{truncate_to_i64, truncated};
use crate::params::{reader_total, reads_as, ParamModel, ParamValue};
use crate::text::{
    between_marks, chars_of, decode_text, first_index, lemma_trimmed_len, same_text, split_once,
    starts_with_char, strip_marks, text_of, trim, trimmed,
};
use crate::wire::{read_value, read_varint, Field, MessageReader};

verus! {

/// What one `wandb_internal.Record` means to a viewer.
#[derive(PartialEq, Debug)]
pub enum WandbRecord {
    /// A metrics row: step, wall seconds, and the numeric values by key.
    History {
        /// Global step (`_step` when logged, else the history step).
        step: i64,
        /// Seconds since the epoch from `_timestamp`, the bits of a double;
        /// zero when absent.
        wall: u64,
        /// Numeric metrics, the bits of doubles; non-numeric history values
        /// are skipped.
        values: Vec<(String, u64)>,
    },
    /// Config updates: typed values by key.
    Config(Vec<(String, ParamValue)>),
    /// The run exited cleanly — its absence marks a crashed run.
    Exit,
    /// Anything else (summary, stats, console output, run info, header).
    Other,
}

/// The bits of a double that is not a number.
pub const NAN: u64 = 0x7FF8_0000_0000_0000;

/// The bits of positive infinity.
pub const INFINITY: u64 = 0x7FF0_0000_0000_0000;

/// The bits of negative infinity.
pub const NEG_INFINITY: u64 = 0xFFF0_0000_0000_0000;

/// A field's value where fixed-width numbers carry nothing of interest.
#[verifier::ext_equal]
pub enum Loose {
    Varint(u64),
    Bytes(Seq<u8>),
}

impl Loose {
    /// The bytes of a length-delimited field.
    pub open spec fn bytes(self) -> Option<Seq<u8>> {
        match self {
            Loose::Bytes(b) => Some(b),
            Loose::Varint(_) => None,
        }
    }

    /// The number of a varint field.
    pub open spec fn varint(self) -> Option<u64> {
        match self {
            Loose::Varint(v) => Some(v),
            Loose::Bytes(_) => None,
        }
    }
}

/// The value of a field with fixed-width numbers read as zero.
pub open spec fn loose_value(value: Field) -> Loose {
    match value {
        Field::Varint(v) => Loose::Varint(v),
        Field::Bytes(b) => Loose::Bytes(b),
        Field::Fixed64(_) => Loose::Varint(0),
        Field::Fixed32(_) => Loose::Varint(0),
    }
}

/// The field at the front of a message: `Some(None)` at its end, `None`
/// where the bytes are malformed. Any field number is taken.
pub open spec fn loose_field(s: Seq<u8>) -> Option<Option<(u32, Loose, Seq<u8>)>> {
    if s.len() == 0 {
        Some(None)
    } else {
        match read_varint(s) {
            Err(_) => None,
            Ok((key, behind)) => if key / 8 > u32::MAX {
                None
            } else {
                match read_value(behind, (key % 8) as int) {
                    Err(_) => None,
                    Ok((value, rest)) => Some(
                        Some(((key / 8) as u32, loose_value(value), rest)),
                    ),
                }
            },
        }
    }
}

/// A field leaves fewer bytes behind it than it started with.
pub proof fn lemma_loose_shrinks(s: Seq<u8>)
    ensures
        loose_field(s) matches Some(Some((_, _, rest))) ==> rest.len() < s.len(),
{
    if s.len() > 0 {
        crate::wire::lemma_varint_bounds(s, 0);
        if let Ok((key, behind)) = read_varint(s) {
            crate::wire::lemma_varint_bounds(behind, 0);
        }
    }
}

/// Folds the fields of a message, front to back; nothing where a field is
/// malformed or the step refuses it.
pub open spec fn loose_walk<A>(
    s: Seq<u8>,
    start: A,
    step: spec_fn(A, u32, Loose) -> Option<A>,
) -> Option<A>
    decreases s.len(),
{
    proof {
        lemma_loose_shrinks(s);
    }
    match loose_field(s) {
        None => None,
        Some(None) => Some(start),
        Some(Some((field, value, rest))) => match step(start, field, value) {
            None => None,
            Some(next) => loose_walk(rest, next, step),
        },
    }
}

/// One field's value, tagged by what a viewer takes from it.
#[derive(Clone, Copy, Debug)]
pub enum WireValue<'a> {
    Varint(u64),
    Bytes(&'a [u8]),
}

impl<'a> View for WireValue<'a> {
    type V = Loose;

    open spec fn view(&self) -> Loose {
        match *self {
            WireValue::Varint(v) => Loose::Varint(v),
            WireValue::Bytes(b) => Loose::Bytes(b@),
        }
    }
}

impl<'a> WireValue<'a> {
    /// The bytes of a length-delimited field.
    pub fn bytes(&self) -> (result: Option<&'a [u8]>)
        ensures
            match result {
                Some(b) => self@.bytes() == Some(b@),
                None => self@.bytes() is None,
            },
    {
        match self {
            WireValue::Bytes(bytes) => Some(*bytes),
            WireValue::Varint(_) => None,
        }
    }

    /// The number of a varint field.
    pub fn varint(&self) -> (result: Option<u64>)
        ensures
            result == self@.varint(),
    {
        match self {
            WireValue::Varint(value) => Some(*value),
            WireValue::Bytes(_) => None,
        }
    }
}

/// A cursor over one serialized message.
pub struct Wire<'a> {
    reader: MessageReader<'a>,
}

impl<'a> Wire<'a> {
    /// The bytes that were not read yet.
    pub closed spec fn rest(self) -> Seq<u8> {
        self.reader.rest()
    }

    /// The cursor stands inside the message or at its end.
    pub closed spec fn wf(self) -> bool {
        self.reader.wf()
    }

    /// A cursor at the start of `buf`.
    pub fn new(buf: &'a [u8]) -> (wire: Wire<'a>)
        ensures
            wire.wf(),
            wire.rest() == buf@,
    {
        Wire { reader: MessageReader::new(buf) }
    }

    /// The next field: `Some(None)` at the end, `None` on malformed bytes.
    pub fn next(&mut self) -> (result: Option<Option<(u32, WireValue<'a>)>>)
        requires
            old(self).wf(),
        ensures
            final(self).wf(),
            match loose_field(old(self).rest()) {
                None => result is None,
                Some(None) => result matches Some(None) && final(self).rest() == old(self).rest(),
                Some(Some((field, value, rest))) => {
                    &&& result matches Some(Some((f, v))) && f == field && v@ == value
                    &&& final(self).rest() == rest
                    &&& rest.len() < old(self).rest().len()
                },
            },
    {
        proof {
            lemma_loose_shrinks(self.rest());
        }
        if self.reader.at_end() {
            return Some(None);
        }
        let key: u64 = match self.reader.varint() {
            Ok(key) => key,
            Err(_) => {
                return None;
            },
        };
        if key / 8 > u32::MAX as u64 {
            return None;
        }
        let field: u32 = (key / 8) as u32;
        let wire_type: u64 = key % 8;
        if wire_type == 0 {
            match self.reader.varint() {
                Ok(value) => Some(Some((field, WireValue::Varint(value)))),
                Err(_) => None,
            }
        } else if wire_type == 1 {
            match self.reader.take(8) {
                Ok(_) => Some(Some((field, WireValue::Varint(0)))),
                Err(_) => None,
            }
        } else if wire_type == 2 {
            let ghost behind = self.reader.rest();
            let len: u64 = match self.reader.varint() {
                Ok(len) => len,
                Err(_) => {
                    return None;
                },
            };
            if len > usize::MAX as u64 {
                proof {
                    self.reader.lemma_rest_fits();
                }
                return None;
            }
            match self.reader.take(len as usize) {
                Ok(bytes) => Some(Some((field, WireValue::Bytes(bytes)))),
                Err(_) => None,
            }
        } else if wire_type == 5 {
            match self.reader.take(4) {
                Ok(_) => Some(Some((field, WireValue::Varint(0)))),
                Err(_) => None,
            }
        } else {
            None
        }
    }
}

/// One entry of a history row: an item under a key, or an explicit step.
#[verifier::ext_equal]
pub enum EntryModel {
    Item(Seq<char>, Seq<char>),
    Step(i64),
}

/// An item under assembly: its key, its nested key and its JSON text.
#[verifier::ext_equal]
pub struct ItemModel {
    pub key: Seq<char>,
    pub nested: Seq<Seq<char>>,
    pub json: Seq<char>,
}

/// What one field adds to an item: key = 1, nested_key = 2, value_json = 16.
pub open spec fn item_step(item: ItemModel, field: u32, value: Loose) -> Option<ItemModel> {
    if field == 1 || field == 2 || field == 16 {
        match value.bytes() {
            None => None,
            Some(bytes) => if field == 1 {
                Some(ItemModel { key: text_of(bytes), ..item })
            } else if field == 2 {
                Some(ItemModel { nested: item.nested.push(text_of(bytes)), ..item })
            } else {
                Some(ItemModel { json: text_of(bytes), ..item })
            },
        }
    } else {
        Some(item)
    }
}

/// The fields of an item.
pub open spec fn item_schema() -> spec_fn(ItemModel, u32, Loose) -> Option<ItemModel> {
    |item: ItemModel, field: u32, value: Loose| item_step(item, field, value)
}

/// Texts joined by slashes.
pub open spec fn joined(parts: Seq<Seq<char>>) -> Seq<char>
    decreases parts.len(),
{
    if parts.len() == 0 {
        Seq::empty()
    } else if parts.len() == 1 {
        parts[0]
    } else {
        joined(parts.drop_last()) + seq!['/'] + parts.last()
    }
}

/// The key and JSON text of an item: a nested key is joined by slashes and
/// takes the place of the flat one.
pub open spec fn item_of(bytes: Seq<u8>) -> Option<(Seq<char>, Seq<char>)> {
    match loose_walk(
        bytes,
        ItemModel { key: Seq::empty(), nested: Seq::empty(), json: Seq::empty() },
        item_schema(),
    ) {
        None => None,
        Some(item) => Some(
            (
                if item.nested.len() > 0 {
                    joined(item.nested)
                } else {
                    item.key
                },
                item.json,
            ),
        ),
    }
}

/// What one field of a history step adds.
pub open spec fn history_step_step(
    entries: Seq<EntryModel>,
    field: u32,
    value: Loose,
) -> Option<Seq<EntryModel>> {
    if field == 1 {
        match value.varint() {
            Some(number) => Some(entries.push(EntryModel::Step(number as i64))),
            None => None,
        }
    } else {
        Some(entries)
    }
}

/// The fields of a history step.
pub open spec fn history_step_schema() -> spec_fn(Seq<EntryModel>, u32, Loose) -> Option<
    Seq<EntryModel>,
> {
    |entries: Seq<EntryModel>, field: u32, value: Loose| history_step_step(entries, field, value)
}

/// What one field adds to a history row.
pub open spec fn history_step(entries: Seq<EntryModel>, field: u32, value: Loose) -> Option<
    Seq<EntryModel>,
> {
    if field == 1 || field == 2 {
        match value.bytes() {
            None => None,
            Some(bytes) => if field == 1 {
                match item_of(bytes) {
                    Some((key, json)) => Some(entries.push(EntryModel::Item(key, json))),
                    None => None,
                }
            } else {
                loose_walk(bytes, entries, history_step_schema())
            },
        }
    } else {
        Some(entries)
    }
}

/// The fields of a history row.
pub open spec fn history_schema() -> spec_fn(Seq<EntryModel>, u32, Loose) -> Option<
    Seq<EntryModel>,
> {
    |entries: Seq<EntryModel>, field: u32, value: Loose| history_step(entries, field, value)
}

/// The entries of a history row.
pub open spec fn history_entries(bytes: Seq<u8>) -> Option<Seq<EntryModel>> {
    loose_walk(bytes, Seq::empty(), history_schema())
}

/// What one field adds to config updates: keys that start with an
/// underscore are the tracker's own.
pub open spec fn config_step(
    updates: Seq<(Seq<char>, Seq<char>)>,
    field: u32,
    value: Loose,
) -> Option<Seq<(Seq<char>, Seq<char>)>> {
    if field == 1 {
        match value.bytes() {
            None => None,
            Some(bytes) => match item_of(bytes) {
                Some((key, json)) => if key.len() > 0 && key[0] == '_' {
                    Some(updates)
                } else {
                    Some(updates.push((key, json)))
                },
                None => None,
            },
        }
    } else {
        Some(updates)
    }
}

/// The fields of config updates.
pub open spec fn config_schema() -> spec_fn(
    Seq<(Seq<char>, Seq<char>)>,
    u32,
    Loose,
) -> Option<Seq<(Seq<char>, Seq<char>)>> {
    |updates: Seq<(Seq<char>, Seq<char>)>, field: u32, value: Loose|
        config_step(updates, field, value)
}

/// The keys and JSON texts of config updates.
pub open spec fn config_items(bytes: Seq<u8>) -> Option<Seq<(Seq<char>, Seq<char>)>> {
    loose_walk(bytes, Seq::empty(), config_schema())
}

/// What a record is, before its numbers are read.
#[verifier::ext_equal]
pub enum RecordShape {
    History(Seq<EntryModel>),
    Config(Seq<(Seq<char>, Seq<char>)>),
    Exit,
    Other,
}

/// The first history (2), config (5) or exit (18) of a record decides what
/// it is; nothing where the bytes up to there are malformed.
pub open spec fn record_shape(s: Seq<u8>) -> Option<RecordShape>
    decreases s.len(),
{
    proof {
        lemma_loose_shrinks(s);
    }
    match loose_field(s) {
        None => None,
        Some(None) => Some(RecordShape::Other),
        Some(Some((field, value, rest))) => if field == 2 || field == 5 {
            match value.bytes() {
                None => None,
                Some(bytes) => if field == 2 {
                    match history_entries(bytes) {
                        Some(entries) => Some(RecordShape::History(entries)),
                        None => None,
                    }
                } else {
                    match config_items(bytes) {
                        Some(items) => Some(RecordShape::Config(items)),
                        None => None,
                    }
                },
            }
        } else if field == 18 {
            Some(RecordShape::Exit)
        } else {
            record_shape(rest)
        },
    }
}

/// A JSON number, given how its trimmed text reads as one: Python's bare
/// `NaN`/`Infinity` tokens are numbers, the JSON words are not.
pub open spec fn json_number_of(json: Seq<char>, reading: Option<u64>) -> Option<u64> {
    let text = trimmed(json);
    if text == "NaN"@ || text == "nan"@ {
        Some(NAN)
    } else if text == "Infinity"@ || text == "inf"@ {
        Some(INFINITY)
    } else if text == "-Infinity"@ || text == "-inf"@ {
        Some(NEG_INFINITY)
    } else if text == "true"@ || text == "false"@ || text == "null"@ {
        None
    } else {
        reading
    }
}

/// A JSON number, tolerating Python's bare `NaN`/`Infinity` tokens (which
/// the format really does emit). `number` reads a text as a double, to its
/// bits.
pub fn json_number<F: Fn(&str) -> Option<u64>>(json: &str, number: &F) -> (result: Option<u64>)
    requires
        reader_total(*number),
    ensures
        exists|reading: Option<u64>| #[trigger]
            reads_as(*number, trimmed(json@), reading) && result == json_number_of(json@, reading),
{
    let text = trim(json);
    let reading = number(&text);
    assert(reads_as(*number, trimmed(json@), reading));
    json_number_read(json, reading)
}

/// A JSON number whose trimmed text reads as `reading`.
pub fn json_number_read(json: &str, reading: Option<u64>) -> (result: Option<u64>)
    ensures
        result == json_number_of(json@, reading),
{
    let text = trim(json);
    if same_text(&text, "NaN") || same_text(&text, "nan") {
        Some(NAN)
    } else if same_text(&text, "Infinity") || same_text(&text, "inf") {
        Some(INFINITY)
    } else if same_text(&text, "-Infinity") || same_text(&text, "-inf") {
        Some(NEG_INFINITY)
    } else if same_text(&text, "true") || same_text(&text, "false") || same_text(&text, "null") {
        None
    } else {
        reading
    }
}

/// The value inside one `{"value": X}` wrapper.
pub open spec fn wrapped_value(json: Seq<char>) -> Option<Seq<char>> {
    match between_marks(trimmed(json), '{', '}') {
        None => None,
        Some(inner) => match first_index(inner, ':') {
            None => None,
            Some(i) => if trimmed(inner.take(i)) == "\"value\""@ {
                Some(inner.skip(i + 1))
            } else {
                None
            },
        },
    }
}

/// The value inside a wrapper is shorter than it.
pub proof fn lemma_wrapped_shrinks(json: Seq<char>)
    ensures
        wrapped_value(json) matches Some(value) ==> value.len() < json.len(),
{
    lemma_trimmed_len(json);
    if let Some(inner) = between_marks(trimmed(json), '{', '}') {
        crate::text::lemma_first_index(inner, ':');
    }
}

/// A JSON text out of all its wrappers.
pub open spec fn unwrapped(json: Seq<char>) -> Seq<char>
    decreases json.len(),
{
    proof {
        lemma_wrapped_shrinks(json);
    }
    match wrapped_value(json) {
        Some(value) => unwrapped(value),
        None => trimmed(json),
    }
}

/// Text with each occurrence of two characters replaced by one, from the
/// left.
pub open spec fn replaced(s: Seq<char>, a: char, b: char, c: char) -> Seq<char>
    decreases s.len(),
{
    if s.len() == 0 {
        s
    } else if s.len() >= 2 && s[0] == a && s[1] == b {
        seq![c] + replaced(s.skip(2), a, b, c)
    } else {
        seq![s[0]] + replaced(s.skip(1), a, b, c)
    }
}

/// The text of a JSON string: escaped quotes, then escaped backslashes.
pub open spec fn unescaped(s: Seq<char>) -> Seq<char> {
    replaced(replaced(s, '\\', '"', '"'), '\\', '\\', '\\')
}

/// A JSON scalar as a typed parameter, given how its unwrapped text reads
/// as a number.
pub open spec fn json_param_of(json: Seq<char>, reading: Option<u64>) -> Option<ParamModel> {
    let text = unwrapped(json);
    if text == "true"@ {
        Some(ParamModel::Truth(true))
    } else if text == "false"@ {
        Some(ParamModel::Truth(false))
    } else if text == "null"@ {
        None
    } else {
        match json_number_of(text, reading) {
            Some(bits) => Some(ParamModel::Number(bits)),
            None => match between_marks(text, '"', '"') {
                Some(inner) => Some(ParamModel::Text(unescaped(inner))),
                None => None,
            },
        }
    }
}

/// What an optional parameter holds.
pub open spec fn option_param(param: Option<ParamValue>) -> Option<ParamModel> {
    match param {
        Some(p) => Some(p@),
        None => None,
    }
}

/// Replaces each occurrence of two characters by one.
fn replace_pair(text: &str, a: char, b: char, c: char) -> (result: String)
    ensures
        result@ == replaced(text@, a, b, c),
{
    let chars = chars_of(text);
    let mut result = String::new();
    let mut i: usize = 0;
    assert(chars@.skip(0) =~= chars@);
    assert(result@ + replaced(chars@, a, b, c) =~= replaced(text@, a, b, c));
    while i < chars.len()
        invariant
            i <= chars@.len(),
            result@ + replaced(chars@.skip(i as int), a, b, c) == replaced(text@, a, b, c),
        decreases chars@.len() - i,
    {
        let ghost rest = chars@.skip(i as int);
        let ghost before = result@;
        if chars.len() - i >= 2 && chars[i] == a && chars[i + 1] == b {
            result.push(c);
            assert(rest.skip(2) =~= chars@.skip(i + 2));
            assert(result@ + replaced(chars@.skip(i + 2), a, b, c) =~= before + replaced(
                rest,
                a,
                b,
                c,
            ));
            i += 2;
        } else {
            result.push(chars[i]);
            assert(rest.skip(1) =~= chars@.skip(i + 1));
            assert(result@ + replaced(chars@.skip(i + 1), a, b, c) =~= before + replaced(
                rest,
                a,
                b,
                c,
            ));
            i += 1;
        }
    }
    assert(result@ + replaced(chars@.skip(i as int), a, b, c) =~= result@);
    result
}

/// The JSON text out of all its wrappers.
fn unwrap_value(json: &str) -> (result: String)
    ensures
        result@ == unwrapped(json@),
    decreases json@.len(),
{
    let text = trim(json);
    if let Some(inner) = strip_marks(&text, '{', '}') {
        if let Some((key, value)) = split_once(&inner, ':') {
            if same_text(&trim(&key), "\"value\"") {
                proof {
                    lemma_wrapped_shrinks(json@);
                }
                return unwrap_value(&value);
            }
        }
    }
    text
}

/// A JSON scalar as a typed param. Config values sometimes arrive wrapped
/// as `{"value": X}` (the config.yaml shape); unwrapping handles it.
pub fn json_param<F: Fn(&str) -> Option<u64>>(json: &str, number: &F) -> (result: Option<
    ParamValue,
>)
    requires
        reader_total(*number),
    ensures
        exists|reading: Option<u64>| #[trigger]
            reads_as(*number, trimmed(unwrapped(json@)), reading) && option_param(result)
                == json_param_of(json@, reading),
{
    let text = unwrap_value(json);
    let reading = number(&trim(&text));
    assert(reads_as(*number, trimmed(unwrapped(json@)), reading));
    json_param_read(json, reading)
}

/// A JSON scalar as a typed param, its unwrapped text reading as `reading`.
pub fn json_param_read(json: &str, reading: Option<u64>) -> (result: Option<ParamValue>)
    ensures
        option_param(result) == json_param_of(json@, reading),
{
    let text = unwrap_value(json);
    if same_text(&text, "true") {
        return Some(ParamValue::Bool(true));
    }
    if same_text(&text, "false") {
        return Some(ParamValue::Bool(false));
    }
    if same_text(&text, "null") {
        return None;
    }
    if let Some(bits) = json_number_read(&text, reading) {
        return Some(ParamValue::Number(bits));
    }
    match strip_marks(&text, '"', '"') {
        Some(inner) => {
            let quotes = replace_pair(&inner, '\\', '"', '"');
            Some(ParamValue::Text(replace_pair(&quotes, '\\', '\\', '\\')))
        },
        None => None,
    }
}

/// One entry of a history row.
pub enum HistoryEntry {
    /// An item under a key, with its JSON text.
    Item(String, String),
    /// An explicit step.
    Step(i64),
}

impl View for HistoryEntry {
    type V = EntryModel;

    open spec fn view(&self) -> EntryModel {
        match *self {
            HistoryEntry::Item(key, json) => EntryModel::Item(key@, json@),
            HistoryEntry::Step(step) => EntryModel::Step(step),
        }
    }
}

/// What the entries of a row hold.
pub open spec fn entries_model(entries: Seq<HistoryEntry>) -> Seq<EntryModel> {
    entries.map_values(|entry: HistoryEntry| entry@)
}

/// What pairs of strings hold.
pub open spec fn pairs_model(pairs: Seq<(String, String)>) -> Seq<(Seq<char>, Seq<char>)> {
    pairs.map_values(|pair: (String, String)| (pair.0@, pair.1@))
}

/// Joins texts by slashes.
fn join(parts: &Vec<String>) -> (result: String)
    ensures
        result@ == joined(crate::text::texts(parts@)),
{
    let ghost all = crate::text::texts(parts@);
    let mut result = String::new();
    let mut i: usize = 0;
    assert(all.take(0) =~= Seq::<Seq<char>>::empty());
    while i < parts.len()
        invariant
            i <= parts@.len(),
            all == crate::text::texts(parts@),
            result@ == joined(all.take(i as int)),
        decreases parts@.len() - i,
    {
        let ghost longer = all.take(i + 1);
        assert(longer.drop_last() =~= all.take(i as int));
        assert(longer.last() == parts@[i as int]@);
        if i > 0 {
            result.push('/');
        }
        let ghost before = result@;
        crate::text::push_text(&mut result, &parts[i]);
        proof {
            if i == 0 {
                assert(result@ =~= longer[0]);
            } else {
                assert(result@ =~= joined(longer.drop_last()) + seq!['/'] + longer.last());
            }
        }
        i += 1;
    }
    assert(all.take(parts@.len() as int) =~= all);
    result
}

/// HistoryItem / ConfigItem: key = 1, nested_key = 2, value_json = 16.
pub fn parse_item(buf: &[u8]) -> (result: Option<(String, String)>)
    ensures
        match result {
            Some((key, json)) => item_of(buf@) == Some((key@, json@)),
            None => item_of(buf@) is None,
        },
{
    let ghost start = ItemModel { key: Seq::empty(), nested: Seq::empty(), json: Seq::empty() };
    let mut key = String::new();
    let mut nested: Vec<String> = Vec::new();
    let mut json = String::new();
    let mut reader = Wire::new(buf);
    assert(crate::text::texts(nested@) =~= Seq::<Seq<char>>::empty());
    loop
        invariant
            reader.wf(),
            start == (ItemModel { key: Seq::empty(), nested: Seq::empty(), json: Seq::empty() }),
            loose_walk(buf@, start, item_schema()) == loose_walk(
                reader.rest(),
                ItemModel { key: key@, nested: crate::text::texts(nested@), json: json@ },
                item_schema(),
            ),
        decreases reader.rest().len(),
    {
        match reader.next()? {
            None => {
                if nested.len() > 0 {
                    key = join(&nested);
                }
                return Some((key, json));
            },
            Some((field, value)) => {
                if field == 1 {
                    key = decode_text(value.bytes()?);
                } else if field == 2 {
                    let ghost before = crate::text::texts(nested@);
                    let part = decode_text(value.bytes()?);
                    nested.push(part);
                    assert(crate::text::texts(nested@) =~= before.push(part@));
                } else if field == 16 {
                    json = decode_text(value.bytes()?);
                }
            },
        }
    }
}

/// Adds the step numbers of a history step.
fn parse_history_step(buf: &[u8], entries: &mut Vec<HistoryEntry>) -> (done: Option<()>)
    ensures
        match loose_walk(buf@, entries_model(old(entries)@), history_step_schema()) {
            Some(model) => done is Some && entries_model(final(entries)@) == model,
            None => done is None,
        },
{
    let ghost start = entries_model(entries@);
    let mut reader = Wire::new(buf);
    loop
        invariant
            reader.wf(),
            start == entries_model(old(entries)@),
            loose_walk(buf@, start, history_step_schema()) == loose_walk(
                reader.rest(),
                entries_model(entries@),
                history_step_schema(),
            ),
        decreases reader.rest().len(),
    {
        let ghost before = entries_model(entries@);
        match reader.next()? {
            None => {
                return Some(());
            },
            Some((field, value)) => {
                if field == 1 {
                    let number: u64 = value.varint()?;
                    entries.push(HistoryEntry::Step(number as i64));
                    assert(entries_model(entries@) =~= before.push(
                        EntryModel::Step(number as i64),
                    ));
                }
            },
        }
    }
}

/// The entries of a history row.
fn parse_history_entries(buf: &[u8]) -> (result: Option<Vec<HistoryEntry>>)
    ensures
        match result {
            Some(entries) => history_entries(buf@) == Some(entries_model(entries@)),
            None => history_entries(buf@) is None,
        },
{
    let mut entries: Vec<HistoryEntry> = Vec::new();
    let mut reader = Wire::new(buf);
    assert(entries_model(entries@) =~= Seq::<EntryModel>::empty());
    loop
        invariant
            reader.wf(),
            history_entries(buf@) == loose_walk(
                reader.rest(),
                entries_model(entries@),
                history_schema(),
            ),
        decreases reader.rest().len(),
    {
        let ghost before = entries_model(entries@);
        match reader.next()? {
            None => {
                return Some(entries);
            },
            Some((field, value)) => {
                if field == 1 {
                    let (key, json) = parse_item(value.bytes()?)?;
                    entries.push(HistoryEntry::Item(key, json));
                    assert(entries_model(entries@) =~= before.push(
                        EntryModel::Item(key@, json@),
                    ));
                } else if field == 2 {
                    parse_history_step(value.bytes()?, &mut entries)?;
                }
            },
        }
    }
}

/// The keys and JSON texts of config updates.
fn parse_config_items(buf: &[u8]) -> (result: Option<Vec<(String, String)>>)
    ensures
        match result {
            Some(items) => config_items(buf@) == Some(pairs_model(items@)),
            None => config_items(buf@) is None,
        },
{
    let mut items: Vec<(String, String)> = Vec::new();
    let mut reader = Wire::new(buf);
    assert(pairs_model(items@) =~= Seq::<(Seq<char>, Seq<char>)>::empty());
    loop
        invariant
            reader.wf(),
            config_items(buf@) == loose_walk(reader.rest(), pairs_model(items@), config_schema()),
        decreases reader.rest().len(),
    {
        let ghost before = pairs_model(items@);
        match reader.next()? {
            None => {
                return Some(items);
            },
            Some((field, value)) => {
                if field == 1 {
                    let (key, json) = parse_item(value.bytes()?)?;
                    if !starts_with_char(&key, '_') {
                        items.push((key, json));
                        assert(pairs_model(items@) =~= before.push((key@, json@)));
                    }
                }
            },
        }
    }
}

/// A history row read so far.
#[verifier::ext_equal]
pub struct RowModel {
    pub step: Option<i64>,
    pub wall: u64,
    pub values: Seq<(Seq<char>, u64)>,
}

/// What one entry adds to a row, given how its JSON text reads as a number:
/// `_step` sets the step, `_timestamp` the wall time, `_runtime` nothing, and
/// every other number is a metric. An explicit step stands back behind one
/// that is there already.
pub open spec fn row_step(row: RowModel, entry: EntryModel, reading: Option<u64>) -> RowModel {
    match entry {
        EntryModel::Step(step) => RowModel {
            step: match row.step {
                Some(s) => Some(s),
                None => Some(step),
            },
            ..row
        },
        EntryModel::Item(key, json) => match json_number_of(json, reading) {
            None => row,
            Some(bits) => if key == "_step"@ {
                RowModel { step: Some(truncated(bits)), ..row }
            } else if key == "_timestamp"@ {
                RowModel { wall: bits, ..row }
            } else if key == "_runtime"@ {
                row
            } else {
                RowModel { values: row.values.push((key, bits)), ..row }
            },
        },
    }
}

/// The row of entries, given how each one's JSON text reads as a number.
pub open spec fn row_of_entries(entries: Seq<EntryModel>, readings: Seq<Option<u64>>) -> RowModel
    decreases entries.len(),
{
    if entries.len() == 0 {
        RowModel { step: None, wall: 0, values: Seq::empty() }
    } else {
        row_step(
            row_of_entries(entries.drop_last(), readings.drop_last()),
            entries.last(),
            readings.last(),
        )
    }
}

/// `reading` is a possible reading of an entry's JSON text.
pub open spec fn entry_reads<F: Fn(&str) -> Option<u64>>(
    number: F,
    entry: EntryModel,
    reading: Option<u64>,
) -> bool {
    match entry {
        EntryModel::Item(key, json) => reads_as(number, trimmed(json), reading),
        EntryModel::Step(_) => reading is None,
    }
}

/// `readings` are possible readings of the entries of a row.
pub open spec fn entries_read<F: Fn(&str) -> Option<u64>>(
    number: F,
    entries: Seq<EntryModel>,
    readings: Seq<Option<u64>>,
) -> bool {
    &&& readings.len() == entries.len()
    &&& forall|i: int|
        0 <= i < entries.len() ==> entry_reads(number, #[trigger] entries[i], readings[i])
}

/// What a [`WandbRecord`] holds.
#[verifier::ext_equal]
pub enum WandbModel {
    History { step: i64, wall: u64, values: Seq<(Seq<char>, u64)> },
    Config(Seq<(Seq<char>, ParamModel)>),
    Exit,
    Other,
}

/// What named numbers hold.
pub open spec fn numbers_model(values: Seq<(String, u64)>) -> Seq<(Seq<char>, u64)> {
    values.map_values(|value: (String, u64)| (value.0@, value.1))
}

/// What named parameters hold.
pub open spec fn params_model(params: Seq<(String, ParamValue)>) -> Seq<(Seq<char>, ParamModel)> {
    params.map_values(|param: (String, ParamValue)| (param.0@, param.1@))
}

impl View for WandbRecord {
    type V = WandbModel;

    open spec fn view(&self) -> WandbModel {
        match *self {
            WandbRecord::History { step, wall, values } => WandbModel::History {
                step,
                wall,
                values: numbers_model(values@),
            },
            WandbRecord::Config(params) => WandbModel::Config(params_model(params@)),
            WandbRecord::Exit => WandbModel::Exit,
            WandbRecord::Other => WandbModel::Other,
        }
    }
}

/// The config of items, given how each one's text reads as a number: items
/// that are no scalars are left out.
pub open spec fn config_of_items(
    items: Seq<(Seq<char>, Seq<char>)>,
    readings: Seq<Option<u64>>,
) -> Seq<(Seq<char>, ParamModel)>
    decreases items.len(),
{
    if items.len() == 0 {
        Seq::empty()
    } else {
        let front = config_of_items(items.drop_last(), readings.drop_last());
        match json_param_of(items.last().1, readings.last()) {
            Some(param) => front.push((items.last().0, param)),
            None => front,
        }
    }
}

/// `readings` are possible readings of the items of a config.
pub open spec fn items_read<F: Fn(&str) -> Option<u64>>(
    number: F,
    items: Seq<(Seq<char>, Seq<char>)>,
    readings: Seq<Option<u64>>,
) -> bool {
    &&& readings.len() == items.len()
    &&& forall|i: int|
        0 <= i < items.len() ==> reads_as(
            number,
            trimmed(unwrapped((#[trigger] items[i]).1)),
            readings[i],
        )
}

/// A record of that shape, given how its numbers read.
pub open spec fn record_of(shape: RecordShape, readings: Seq<Option<u64>>) -> WandbModel {
    match shape {
        RecordShape::History(entries) => {
            let row = row_of_entries(entries, readings);
            WandbModel::History {
                step: match row.step {
                    Some(step) => step,
                    None => 0,
                },
                wall: row.wall,
                values: row.values,
            }
        },
        RecordShape::Config(items) => WandbModel::Config(config_of_items(items, readings)),
        RecordShape::Exit => WandbModel::Exit,
        RecordShape::Other => WandbModel::Other,
    }
}

/// `readings` are possible readings of the numbers of a record.
pub open spec fn record_reads<F: Fn(&str) -> Option<u64>>(
    number: F,
    shape: RecordShape,
    readings: Seq<Option<u64>>,
) -> bool {
    match shape {
        RecordShape::History(entries) => entries_read(number, entries, readings),
        RecordShape::Config(items) => items_read(number, items, readings),
        RecordShape::Exit => true,
        RecordShape::Other => true,
    }
}

/// `record` is a possible reading of a record of that shape.
pub open spec fn reads_as_record<F: Fn(&str) -> Option<u64>>(
    number: F,
    shape: RecordShape,
    record: WandbModel,
) -> bool {
    exists|readings: Seq<Option<u64>>| #[trigger]
        record_reads(number, shape, readings) && record == record_of(shape, readings)
}

/// Decodes a history row.
pub fn parse_history<F: Fn(&str) -> Option<u64>>(buf: &[u8], number: &F) -> (result: Option<
    WandbRecord,
>)
    requires
        reader_total(*number),
    ensures
        match history_entries(buf@) {
            None => result is None,
            Some(entries) => result matches Some(record) && reads_as_record(
                *number,
                RecordShape::History(entries),
                record@,
            ),
        },
{
    let entries = parse_history_entries(buf)?;
    let ghost model = entries_model(entries@);
    let ghost mut readings: Seq<Option<u64>> = Seq::empty();
    let mut step: Option<i64> = None;
    let mut wall: u64 = 0;
    let mut values: Vec<(String, u64)> = Vec::new();
    let mut i: usize = 0;
    assert(model.take(0) =~= Seq::<EntryModel>::empty());
    assert(numbers_model(values@) =~= Seq::<(Seq<char>, u64)>::empty());
    while i < entries.len()
        invariant
            i <= entries@.len(),
            reader_total(*number),
            model == entries_model(entries@),
            entries_read(*number, model.take(i as int), readings),
            row_of_entries(model.take(i as int), readings) == (RowModel {
                step,
                wall,
                values: numbers_model(values@),
            }),
        decreases entries@.len() - i,
    {
        let ghost longer = model.take(i + 1);
        let ghost before = numbers_model(values@);
        let ghost earlier = readings;
        assert(longer.drop_last() =~= model.take(i as int));
        assert(longer.last() == entries@[i as int]@);
        match &entries[i] {
            HistoryEntry::Step(number_step) => {
                proof {
                    readings = readings.push(None);
                }
                if step.is_none() {
                    step = Some(*number_step);
                }
            },
            HistoryEntry::Item(key, json) => {
                let text = trim(json);
                let reading = number(&text);
                assert(reads_as(*number, trimmed(json@), reading));
                proof {
                    readings = readings.push(reading);
                }
                if let Some(bits) = json_number_read(json, reading) {
                    if same_text(key, "_step") {
                        step = Some(truncate_to_i64(bits));
                    } else if same_text(key, "_timestamp") {
                        wall = bits;
                    } else if !same_text(key, "_runtime") {
                        values.push((key.clone(), bits));
                        assert(numbers_model(values@) =~= before.push((key@, bits)));
                    }
                }
            },
        }
        proof {
            assert(readings.drop_last() =~= earlier);
            assert forall|k: int| 0 <= k < longer.len() implies entry_reads(
                *number,
                #[trigger] longer[k],
                readings[k],
            ) by {
                if k < i {
                    assert(model.take(i as int)[k] == longer[k]);
                }
            }
        }
        i += 1;
    }
    assert(model.take(entries@.len() as int) =~= model);
    let step: i64 = match step {
        Some(step) => step,
        None => 0,
    };
    assert(record_reads(*number, RecordShape::History(model), readings));
    Some(WandbRecord::History { step, wall, values })
}

/// Decodes config updates.
pub fn parse_config<F: Fn(&str) -> Option<u64>>(buf: &[u8], number: &F) -> (result: Option<
    WandbRecord,
>)
    requires
        reader_total(*number),
    ensures
        match config_items(buf@) {
            None => result is None,
            Some(items) => result matches Some(record) && reads_as_record(
                *number,
                RecordShape::Config(items),
                record@,
            ),
        },
{
    let items = parse_config_items(buf)?;
    let ghost model = pairs_model(items@);
    let ghost mut readings: Seq<Option<u64>> = Seq::empty();
    let mut updates: Vec<(String, ParamValue)> = Vec::new();
    let mut i: usize = 0;
    assert(model.take(0) =~= Seq::<(Seq<char>, Seq<char>)>::empty());
    assert(params_model(updates@) =~= Seq::<(Seq<char>, ParamModel)>::empty());
    while i < items.len()
        invariant
            i <= items@.len(),
            reader_total(*number),
            model == pairs_model(items@),
            items_read(*number, model.take(i as int), readings),
            params_model(updates@) == config_of_items(model.take(i as int), readings),
        decreases items@.len() - i,
    {
        let ghost longer = model.take(i + 1);
        let ghost before = params_model(updates@);
        assert(longer.drop_last() =~= model.take(i as int));
        assert(longer.last() == (items@[i as int].0@, items@[i as int].1@));
        let text = unwrap_value(&items[i].1);
        let reading = number(&trim(&text));
        assert(reads_as(*number, trimmed(unwrapped(items@[i as int].1@)), reading));
        proof {
            let earlier = readings;
            readings = readings.push(reading);
            assert(readings.drop_last() =~= earlier);
            assert forall|k: int| 0 <= k < longer.len() implies reads_as(
                *number,
                trimmed(unwrapped((#[trigger] longer[k]).1)),
                readings[k],
            ) by {
                if k < i {
                    assert(model.take(i as int)[k] == longer[k]);
                }
            }
        }
        if let Some(param) = json_param_read(&items[i].1, reading) {
            let key = items[i].0.clone();
            updates.push((key, param));
            assert(params_model(updates@) =~= before.push((key@, param@)));
        }
        i += 1;
    }
    assert(model.take(items@.len() as int) =~= model);
    assert(record_reads(*number, RecordShape::Config(model), readings));
    Some(WandbRecord::Config(updates))
}

/// Decodes one record payload. `None` when the bytes are not a decodable
/// record — visible loss for the caller to count. `number` reads a text as a
/// double, to its bits.
pub fn parse_record<F: Fn(&str) -> Option<u64>>(payload: &[u8], number: &F) -> (result: Option<
    WandbRecord,
>)
    requires
        reader_total(*number),
    ensures
        match record_shape(payload@) {
            None => result is None,
            Some(shape) => result matches Some(record) && reads_as_record(
                *number,
                shape,
                record@,
            ),
        },
{
    let mut reader = Wire::new(payload);
    loop
        invariant
            reader.wf(),
            reader_total(*number),
            record_shape(payload@) == record_shape(reader.rest()),
        decreases reader.rest().len(),
    {
        match reader.next()? {
            None => {
                assert(record_reads(*number, RecordShape::Other, Seq::empty()));
                return Some(WandbRecord::Other);
            },
            Some((field, value)) => {
                if field == 2 {
                    let bytes = value.bytes()?;
                    return parse_history(bytes, number);
                } else if field == 5 {
                    let bytes = value.bytes()?;
                    return parse_config(bytes, number);
                } else if field == 18 {
                    assert(record_reads(*number, RecordShape::Exit, Seq::empty()));
                    return Some(WandbRecord::Exit);
                }
            },
        }
    }
}

} // verus!
