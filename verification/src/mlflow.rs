//! The MLflow file store: `mlruns/<experiment>/<run>/` with
//! `metrics/<name>` as text lines of `timestamp value step` (milliseconds,
//! value, step), `params/<name>` as one-line values, and `meta.yaml`
//! carrying the run's name and lifecycle.
use vstd::prelude::*;

use crate::dvclive::wall_read;
use crate::params::{param_of, reader_total, reads_as, ParamValue};
use crate::text::{
    first_index, integer_of, parse_i64, pieces, same_text, split, split_once, split_words, texts,
    trim, trimmed, words,
};

verus! {

/// One parsed metric line.
#[derive(Clone, Copy, PartialEq, Eq, Structural, Debug)]
pub struct MetricLine {
    /// Global step.
    pub step: i64,
    /// Seconds since the Unix epoch, the bits of a double.
    pub wall: u64,
    /// The value, the bits of a double; non-finite parses pass through
    /// honestly.
    pub value: u64,
}

/// The line of a step, if its wall time and its value could be read.
pub open spec fn metric_of(step: i64, wall: Option<u64>, value: Option<u64>) -> Option<MetricLine> {
    match (wall, value) {
        (Some(wall), Some(value)) => Some(MetricLine { step, wall, value }),
        _ => None,
    }
}

/// Whether a line has the three words of a metric, the last one an integer.
pub open spec fn metric_shape(line: Seq<char>) -> bool {
    words(line).len() == 3 && integer_of(words(line)[2]) is Some
}

/// Parses one `timestamp value step` line. `None` for lines that do not
/// fit — counted by the caller as visible data loss. `number` reads a text
/// as a double, to its bits; `seconds` turns a double of milliseconds into
/// one of seconds.
pub fn parse_metric_line<F: Fn(&str) -> Option<u64>, G: Fn(u64) -> u64>(
    line: &str,
    number: &F,
    seconds: &G,
) -> (result: Option<MetricLine>)
    requires
        reader_total(*number),
        forall|millis: u64| #[trigger] call_requires(*seconds, (millis,)),
    ensures
        !metric_shape(line@) ==> result is None,
        metric_shape(line@) ==> exists|value: Option<u64>, wall: Option<u64>|
            {
                &&& #[trigger] reads_as(*number, words(line@)[1], value)
                &&& #[trigger] wall_read(*number, *seconds, Some(words(line@)[0]), wall)
                &&& result == metric_of(integer_of(words(line@)[2])->0, wall, value)
            },
{
    let fields = split_words(line);
    assert(fields@.len() == words(line@).len());
    assert(forall|i: int|
        0 <= i < fields@.len() ==> words(line@)[i] == (#[trigger] fields@[i])@);
    if fields.len() != 3 {
        return None;
    }
    let step: i64 = match parse_i64(&fields[2]) {
        Some(step) => step,
        None => {
            return None;
        },
    };
    let value = number(&fields[1]);
    assert(reads_as(*number, words(line@)[1], value));
    let wall: Option<u64> = match number(&fields[0]) {
        None => {
            assert(reads_as(*number, words(line@)[0], None));
            None
        },
        Some(millis) => {
            assert(reads_as(*number, words(line@)[0], Some(millis)));
            let secs: u64 = seconds(millis);
            assert(call_ensures(*seconds, (millis,), secs));
            Some(secs)
        },
    };
    assert(wall_read(*number, *seconds, Some(words(line@)[0]), wall));
    match (wall, value) {
        (Some(wall), Some(value)) => Some(MetricLine { step, wall, value }),
        _ => None,
    }
}

/// A `params/<name>` file: the whole (single-line) content is the value.
pub fn parse_param<F: Fn(&str) -> Option<u64>>(content: &str, number: &F) -> (value: ParamValue)
    requires
        reader_total(*number),
    ensures
        exists|reading: Option<u64>| #[trigger]
            reads_as(*number, trimmed(trimmed(content@)), reading) && value@ == param_of(
                trimmed(content@),
                reading,
            ),
{
    let text = trim(content);
    ParamValue::parse(&text, number)
}

/// What `meta.yaml` tells a viewer about the run.
#[derive(PartialEq, Debug)]
pub struct RunMeta {
    /// The human-readable run name, when recorded.
    pub run_name: Option<String>,
    /// The run id, which doubles as identity proof: a `meta.yaml` without
    /// one is an experiment's, not a run's.
    pub run_id: Option<String>,
    /// The lifecycle status word (`RUNNING`, `FINISHED`, `FAILED`, …) or
    /// numeric code, verbatim.
    pub status: Option<String>,
}

/// What a [`RunMeta`] holds.
#[verifier::ext_equal]
pub struct MetaModel {
    pub run_name: Option<Seq<char>>,
    pub run_id: Option<Seq<char>>,
    pub status: Option<Seq<char>>,
}

/// What an optional string holds.
pub open spec fn option_text(text: Option<String>) -> Option<Seq<char>> {
    match text {
        Some(t) => Some(t@),
        None => None,
    }
}

impl View for RunMeta {
    type V = MetaModel;

    open spec fn view(&self) -> MetaModel {
        MetaModel {
            run_name: option_text(self.run_name),
            run_id: option_text(self.run_id),
            status: option_text(self.status),
        }
    }
}

/// What one `key: value` line says; lines without a value say nothing.
pub open spec fn meta_line(meta: MetaModel, line: Seq<char>) -> MetaModel {
    match first_index(line, ':') {
        None => meta,
        Some(i) => {
            let key = trimmed(line.take(i));
            let value = trimmed(line.skip(i + 1));
            if value.len() == 0 {
                meta
            } else if key == "run_name"@ {
                MetaModel { run_name: Some(value), ..meta }
            } else if key == "run_id"@ || key == "run_uuid"@ {
                MetaModel { run_id: Some(value), ..meta }
            } else if key == "status"@ {
                MetaModel { status: Some(value), ..meta }
            } else {
                meta
            }
        },
    }
}

/// The lines of a `meta.yaml`, later ones over earlier ones.
pub open spec fn meta_lines(lines: Seq<Seq<char>>) -> MetaModel
    decreases lines.len(),
{
    if lines.len() == 0 {
        MetaModel { run_name: None, run_id: None, status: None }
    } else {
        meta_line(meta_lines(lines.drop_last()), lines.last())
    }
}

/// Reads the fields a viewer uses from a run's `meta.yaml` (flat
/// `key: value` YAML — the file store writes nothing fancier).
pub fn parse_meta(text: &str) -> (meta: RunMeta)
    ensures
        meta@ == meta_lines(pieces(text@, '\n')),
{
    let mut meta = RunMeta { run_name: None, run_id: None, status: None };
    let lines = split(text, '\n');
    let ghost all = texts(lines@);
    let mut i: usize = 0;
    assert(all.take(0) =~= Seq::<Seq<char>>::empty());
    while i < lines.len()
        invariant
            i <= lines@.len(),
            all == texts(lines@),
            meta@ == meta_lines(all.take(i as int)),
        decreases lines@.len() - i,
    {
        proof {
            assert(all.take(i + 1).drop_last() =~= all.take(i as int));
            assert(all.take(i + 1).last() == lines@[i as int]@);
        }
        if let Some((front, back)) = split_once(&lines[i], ':') {
            let key = trim(&front);
            let value = trim(&back);
            if !value.as_str().is_empty() {
                if same_text(&key, "run_name") {
                    meta.run_name = Some(value);
                } else if same_text(&key, "run_id") || same_text(&key, "run_uuid") {
                    meta.run_id = Some(value);
                } else if same_text(&key, "status") {
                    meta.status = Some(value);
                }
            }
        }
        i += 1;
    }
    assert(all.take(lines@.len() as int) =~= all);
    meta
}

} // verus!
