//! Typed configuration values, as the simple text formats can express them.
//!
//! Reading a decimal number into a double is floating-point work, which the
//! caller brings along as a function from text to bit pattern.
use vstd::prelude::*;

use crate::text::{between_marks, same_text, strip_marks, trim, trimmed};

verus! {

/// A typed configuration value, as the simple formats can express one.
#[derive(PartialEq, Debug)]
pub enum ParamValue {
    /// A number: the bits of a double.
    Number(u64),
    /// A boolean.
    Bool(bool),
    /// Anything else, verbatim.
    Text(String),
}

/// What a [`ParamValue`] holds.
#[verifier::ext_equal]
pub enum ParamModel {
    Number(u64),
    Truth(bool),
    Text(Seq<char>),
}

impl View for ParamValue {
    type V = ParamModel;

    open spec fn view(&self) -> ParamModel {
        match *self {
            ParamValue::Number(bits) => ParamModel::Number(bits),
            ParamValue::Bool(truth) => ParamModel::Truth(truth),
            ParamValue::Text(text) => ParamModel::Text(text@),
        }
    }
}

/// The number reader takes every text.
pub open spec fn reader_total<F: Fn(&str) -> Option<u64>>(number: F) -> bool {
    forall|text: &str| #[trigger] call_requires(number, (text,))
}

/// `out` is a possible reading of `text` as a number.
pub open spec fn reads_as<F: Fn(&str) -> Option<u64>>(
    number: F,
    text: Seq<char>,
    out: Option<u64>,
) -> bool {
    exists|t: &str| t@ == text && #[trigger] call_ensures(number, (t,), out)
}

/// Text without the quotes around it: single ones, else double ones.
pub open spec fn unquoted(s: Seq<char>) -> Seq<char> {
    match between_marks(s, '\'', '\'') {
        Some(inner) => inner,
        None => match between_marks(s, '"', '"') {
            Some(inner) => inner,
            None => s,
        },
    }
}

/// How a raw scalar is typed, given how its text reads as a number.
pub open spec fn param_of(raw: Seq<char>, reading: Option<u64>) -> ParamModel {
    let text = trimmed(raw);
    if text == "true"@ || text == "True"@ {
        ParamModel::Truth(true)
    } else if text == "false"@ || text == "False"@ {
        ParamModel::Truth(false)
    } else {
        match reading {
            Some(bits) => ParamModel::Number(bits),
            None => ParamModel::Text(unquoted(text)),
        }
    }
}

impl ParamValue {
    /// Types a raw scalar the way the source formats mean it: `true`/`false`
    /// as booleans, anything numeric as a number, the rest as text (quotes
    /// stripped). `number` reads a text as a double, to its bits.
    pub fn parse<F: Fn(&str) -> Option<u64>>(raw: &str, number: &F) -> (value: ParamValue)
        requires
            reader_total(*number),
        ensures
            exists|reading: Option<u64>| #[trigger]
                reads_as(*number, trimmed(raw@), reading) && value@ == param_of(raw@, reading),
    {
        let text = trim(raw);
        let reading = number(&text);
        assert(reads_as(*number, trimmed(raw@), reading));
        ParamValue::typed(raw, reading)
    }

    /// Types a raw scalar whose text reads as the number `reading`.
    pub fn typed(raw: &str, reading: Option<u64>) -> (value: ParamValue)
        ensures
            value@ == param_of(raw@, reading),
    {
        let text = trim(raw);
        if same_text(&text, "true") || same_text(&text, "True") {
            return ParamValue::Bool(true);
        }
        if same_text(&text, "false") || same_text(&text, "False") {
            return ParamValue::Bool(false);
        }
        match reading {
            Some(bits) => ParamValue::Number(bits),
            None => match strip_marks(&text, '\'', '\'') {
                Some(inner) => ParamValue::Text(inner),
                None => match strip_marks(&text, '"', '"') {
                    Some(inner) => ParamValue::Text(inner),
                    None => ParamValue::Text(text),
                },
            },
        }
    }

    /// A copy of the value.
    pub fn copy(&self) -> (value: ParamValue)
        ensures
            value@ == self@,
    {
        match self {
            ParamValue::Number(bits) => ParamValue::Number(*bits),
            ParamValue::Bool(truth) => ParamValue::Bool(*truth),
            ParamValue::Text(text) => ParamValue::Text(text.clone()),
        }
    }
}

} // verus!
