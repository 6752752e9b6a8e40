//! The hparams plugin: hyperparameter values ride in summary *metadata*
//! under fixed tags (`_hparams_/session_start_info` carries the per-run
//! values), with no tensor payload at all.
//!
//! Wire path: `SummaryMetadata.plugin_data.content` (plugin name `hparams`)
//! is an `HParamsPluginData` whose field 3 is a `SessionStartInfo`; its
//! field 1 is a `map<string, google.protobuf.Value>` of the run's
//! hyperparameters. Values are typed string / double / bool; anything else
//! the plugin cannot produce.
use vstd::prelude::*;

use crate::event::{SummaryValue, ValueModel};
use crate::names::NameMap;
use crate::text::{decode_text, same_text, text_of};
use crate::wire::{lemma_field_shrinks, read_field, walk, DecodeError, Field, MessageReader};

verus! {

/// The tag whose metadata carries a run's hyperparameter values.
pub const SESSION_START_INFO_TAG: &'static str = "_hparams_/session_start_info";

/// A typed hyperparameter value.
#[derive(PartialEq, Debug)]
pub enum HparamValue {
    /// A numeric hyperparameter (`number_value`): the bits of a double.
    F64(u64),
    /// A string hyperparameter (`string_value`).
    String(String),
    /// A boolean hyperparameter (`bool_value`).
    Bool(bool),
}

/// What an [`HparamValue`] holds.
#[verifier::ext_equal]
pub enum HparamModel {
    Number(u64),
    Text(Seq<char>),
    Truth(bool),
}

impl View for HparamValue {
    type V = HparamModel;

    open spec fn view(&self) -> HparamModel {
        match *self {
            HparamValue::F64(bits) => HparamModel::Number(bits),
            HparamValue::String(text) => HparamModel::Text(text@),
            HparamValue::Bool(truth) => HparamModel::Truth(truth),
        }
    }
}

impl HparamValue {
    /// A copy of the value.
    pub fn copy(&self) -> (value: HparamValue)
        ensures
            value@ == self@,
    {
        match self {
            HparamValue::F64(bits) => HparamValue::F64(*bits),
            HparamValue::String(text) => HparamValue::String(text.clone()),
            HparamValue::Bool(truth) => HparamValue::Bool(*truth),
        }
    }
}

/// What a map of hyperparameters holds.
pub open spec fn hparams_model(map: NameMap<HparamValue>) -> Map<Seq<char>, HparamModel> {
    map.model()
}

/// What one field adds to a value: the last number, string or boolean wins.
pub open spec fn hparam_step(out: Option<HparamModel>, field: u32, value: Field) -> Result<
    Option<HparamModel>,
    DecodeError,
> {
    if field == 2 && value.double() is Some {
        Ok(Some(HparamModel::Number(value.double()->0)))
    } else if field == 3 && value.bytes() is Some {
        Ok(Some(HparamModel::Text(text_of(value.bytes()->0))))
    } else if field == 4 && value.varint() is Some {
        Ok(Some(HparamModel::Truth(value.varint()->0 != 0)))
    } else {
        Ok(out)
    }
}

/// The fields of a value.
pub open spec fn hparam_schema() -> spec_fn(Option<HparamModel>, u32, Field) -> Result<
    Option<HparamModel>,
    DecodeError,
> {
    |out: Option<HparamModel>, field: u32, value: Field| hparam_step(out, field, value)
}

/// The value that a `google.protobuf.Value` message spells, if it is of one
/// of the three kinds.
pub open spec fn hparam_of(bytes: Seq<u8>) -> Result<Option<HparamModel>, DecodeError> {
    walk(bytes, None, hparam_schema())
}

/// What one field adds to a map entry.
pub open spec fn entry_step(
    entry: (Seq<char>, Option<HparamModel>),
    field: u32,
    value: Field,
) -> Result<(Seq<char>, Option<HparamModel>), DecodeError> {
    if field == 1 && value.bytes() is Some {
        Ok((text_of(value.bytes()->0), entry.1))
    } else if field == 2 && value.bytes() is Some {
        match hparam_of(value.bytes()->0) {
            Ok(out) => Ok((entry.0, out)),
            Err(error) => Err(error),
        }
    } else {
        Ok(entry)
    }
}

/// The fields of a map entry.
pub open spec fn entry_schema() -> spec_fn(
    (Seq<char>, Option<HparamModel>),
    u32,
    Field,
) -> Result<(Seq<char>, Option<HparamModel>), DecodeError> {
    |entry: (Seq<char>, Option<HparamModel>), field: u32, value: Field|
        entry_step(entry, field, value)
}

/// What one field adds to the hyperparameters.
pub open spec fn session_step(
    hparams: Map<Seq<char>, HparamModel>,
    field: u32,
    value: Field,
) -> Result<Map<Seq<char>, HparamModel>, DecodeError> {
    if field == 1 && value.bytes() is Some {
        match walk(value.bytes()->0, (Seq::empty(), None), entry_schema()) {
            Ok((key, Some(entry))) => Ok(hparams.insert(key, entry)),
            Ok((_, None)) => Ok(hparams),
            Err(error) => Err(error),
        }
    } else {
        Ok(hparams)
    }
}

/// The fields of the session start.
pub open spec fn session_schema() -> spec_fn(
    Map<Seq<char>, HparamModel>,
    u32,
    Field,
) -> Result<Map<Seq<char>, HparamModel>, DecodeError> {
    |hparams: Map<Seq<char>, HparamModel>, field: u32, value: Field|
        session_step(hparams, field, value)
}

/// The hyperparameters that a `SessionStartInfo` message spells.
pub open spec fn session_of(bytes: Seq<u8>) -> Result<Map<Seq<char>, HparamModel>, DecodeError> {
    walk(bytes, Map::empty(), session_schema())
}

/// The hyperparameters that an `HParamsPluginData` message spells: those of
/// its first session start, none where it has none.
pub open spec fn plugin_data_of(bytes: Seq<u8>) -> Result<
    Map<Seq<char>, HparamModel>,
    DecodeError,
>
    decreases bytes.len(),
{
    proof {
        lemma_field_shrinks(bytes);
    }
    match read_field(bytes) {
        Err(error) => Err(error),
        Ok(None) => Ok(Map::empty()),
        Ok(Some((field, value, rest))) => if field == 3 && value.bytes() is Some {
            session_of(value.bytes()->0)
        } else {
            plugin_data_of(rest)
        },
    }
}

impl ValueModel {
    /// Whether the value is the hparams plugin's session-start marker.
    pub open spec fn starts_session(self) -> bool {
        &&& self.metadata matches Some(metadata) && metadata.plugin_name == "hparams"@
        &&& self.tag == SESSION_START_INFO_TAG@
    }
}

/// Extracts a run's hyperparameters from a summary value, if it is the
/// hparams plugin's session-start marker.
///
/// Returns `None` for every other summary value; `Some(Err(_))` only when
/// the marker is present but its plugin content does not decode.
pub fn session_start_hparams(value: &SummaryValue) -> (result: Option<
    Result<NameMap<HparamValue>, DecodeError>,
>)
    ensures
        result is Some <==> value@.starts_session(),
        result matches Some(decoded) ==> match plugin_data_of(
            value@.metadata->0.plugin_content,
        ) {
            Ok(model) => decoded matches Ok(map) && map.wf() && hparams_model(map) == model,
            Err(error) => decoded matches Err(e) && e == error,
        },
{
    match &value.metadata {
        None => None,
        Some(metadata) => {
            if !same_text(&metadata.plugin_name, "hparams") {
                return None;
            }
            // Match on the fixed tag, not just the plugin name: the same
            // plugin owns the experiment and session-end markers too.
            if !same_text(&value.tag, SESSION_START_INFO_TAG) {
                return None;
            }
            Some(decode_plugin_data(&metadata.plugin_content))
        },
    }
}

/// Decodes `HParamsPluginData`, returning the hparams of its
/// `session_start_info` (field 3), or an empty map when the content carries
/// one of the other markers.
pub fn decode_plugin_data(buf: &[u8]) -> (result: Result<NameMap<HparamValue>, DecodeError>)
    ensures
        match plugin_data_of(buf@) {
            Ok(model) => result matches Ok(map) && map.wf() && hparams_model(map) == model,
            Err(error) => result matches Err(e) && e == error,
        },
{
    let mut reader = MessageReader::new(buf);
    loop
        invariant
            reader.wf(),
            plugin_data_of(buf@) == plugin_data_of(reader.rest()),
        decreases reader.rest().len(),
    {
        match reader.next_field()? {
            None => {
                let map = NameMap::new();
                assert(hparams_model(map) =~= Map::<Seq<char>, HparamModel>::empty());
                return Ok(map);
            },
            Some((field, value)) => {
                if field == 3 {
                    if let Some(bytes) = value.bytes() {
                        return decode_session_start_info(bytes);
                    }
                }
            },
        }
    }
}

/// Decodes one map entry: key = 1, value = 2 (google.protobuf.Value).
fn decode_entry(buf: &[u8]) -> (result: Result<(String, Option<HparamValue>), DecodeError>)
    ensures
        match walk(buf@, (Seq::<char>::empty(), None), entry_schema()) {
            Ok((key, out)) => result matches Ok((k, v)) && k@ == key && option_model(v) == out,
            Err(error) => result matches Err(e) && e == error,
        },
{
    let mut key = String::new();
    let mut out: Option<HparamValue> = None;
    let mut reader = MessageReader::new(buf);
    loop
        invariant
            reader.wf(),
            walk(buf@, (Seq::<char>::empty(), None), entry_schema()) == walk(
                reader.rest(),
                (key@, option_model(out)),
                entry_schema(),
            ),
        decreases reader.rest().len(),
    {
        match reader.next_field()? {
            None => {
                return Ok((key, out));
            },
            Some((field, value)) => {
                if field == 1 {
                    if let Some(bytes) = value.bytes() {
                        key = decode_text(bytes);
                    }
                } else if field == 2 {
                    if let Some(bytes) = value.bytes() {
                        out = decode_value(bytes)?;
                    }
                }
            },
        }
    }
}

/// Decodes `SessionStartInfo`: field 1 is the hparams map.
pub fn decode_session_start_info(buf: &[u8]) -> (result: Result<
    NameMap<HparamValue>,
    DecodeError,
>)
    ensures
        match session_of(buf@) {
            Ok(model) => result matches Ok(map) && map.wf() && hparams_model(map) == model,
            Err(error) => result matches Err(e) && e == error,
        },
{
    let mut hparams: NameMap<HparamValue> = NameMap::new();
    assert(hparams_model(hparams) =~= Map::<Seq<char>, HparamModel>::empty());
    let mut reader = MessageReader::new(buf);
    loop
        invariant
            reader.wf(),
            hparams.wf(),
            session_of(buf@) == walk(reader.rest(), hparams_model(hparams), session_schema()),
        decreases reader.rest().len(),
    {
        match reader.next_field()? {
            None => {
                return Ok(hparams);
            },
            Some((field, value)) => {
                if field == 1 {
                    if let Some(bytes) = value.bytes() {
                        let (key, entry) = decode_entry(bytes)?;
                        if let Some(entry) = entry {
                            let ghost before = hparams_model(hparams);
                            let ghost name = key@;
                            let ghost model = entry@;
                            let _ = hparams.insert(key, entry);
                            assert(hparams_model(hparams) =~= before.insert(name, model));
                        }
                    }
                }
            },
        }
    }
}

/// What an optional value holds.
pub open spec fn option_model(value: Option<HparamValue>) -> Option<HparamModel> {
    match value {
        Some(v) => Some(v@),
        None => None,
    }
}

/// Decodes a `google.protobuf.Value` into the three kinds hparams can carry.
/// Null, struct, and list values decode to `None` — the plugin never writes
/// them for hyperparameters.
pub fn decode_value(buf: &[u8]) -> (result: Result<Option<HparamValue>, DecodeError>)
    ensures
        match hparam_of(buf@) {
            Ok(model) => result matches Ok(out) && option_model(out) == model,
            Err(error) => result matches Err(e) && e == error,
        },
{
    let mut out: Option<HparamValue> = None;
    let mut reader = MessageReader::new(buf);
    loop
        invariant
            reader.wf(),
            hparam_of(buf@) == walk(reader.rest(), option_model(out), hparam_schema()),
        decreases reader.rest().len(),
    {
        match reader.next_field()? {
            None => {
                return Ok(out);
            },
            Some((field, value)) => {
                if field == 2 {
                    if let Some(bits) = value.double() {
                        out = Some(HparamValue::F64(bits));
                    }
                } else if field == 3 {
                    if let Some(bytes) = value.bytes() {
                        out = Some(HparamValue::String(decode_text(bytes)));
                    }
                } else if field == 4 {
                    if let Some(number) = value.varint() {
                        out = Some(HparamValue::Bool(number != 0));
                    }
                }
            },
        }
    }
}

} // verus!
