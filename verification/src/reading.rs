//! What the text formats say, with the numbers read by a [`Numeric`]: each
//! line, parameter and record has one reading.
use vstd::prelude::*;

use crate::dvclive::{
    parse_params_yaml, row_of, typed_param, wall_read, yaml_params, TsvRow, TsvSchema,
};
use crate::mlflow::{metric_of, metric_shape, parse_metric_line, parse_param, MetricLine};
use crate::numeric::{Moments, Numeric};
use crate::params::{param_of, reads_as, ParamModel, ParamValue};
use crate::text::{integer_of, trimmed, words};
use crate::wandb_record::{
    parse_record, record_of, record_reads, record_shape, reads_as_record, unwrapped, EntryModel,
    RecordShape, WandbModel, WandbRecord,
};

verus! {

impl<
    F: Fn(&str) -> Option<u64>,
    G: Fn(u64) -> u64,
    H: Fn(Moments, u64) -> Moments,
> Numeric<F, G, H> {
    /// The wall time of an optional cell of milliseconds: zero where there is
    /// no cell, nothing where it does not read as a number.
    pub open spec fn wall(self, millis: Option<Seq<char>>) -> Option<u64> {
        match millis {
            None => Some(0),
            Some(text) => match self.read(text) {
                None => None,
                Some(bits) => Some(self.secs(bits)),
            },
        }
    }

    /// A possible wall time is the wall time.
    pub proof fn lemma_wall(self, millis: Option<Seq<char>>, wall: Option<u64>)
        requires
            self.ok(),
            wall_read(self.number, self.seconds, millis, wall),
        ensures
            self.wall(millis) == wall,
    {
        if let Some(text) = millis {
            match wall {
                None => {
                    self.lemma_read(text, None);
                },
                Some(secs) => {
                    let bits = choose|bits: u64|
                        reads_as(self.number, text, Some(bits)) && #[trigger] call_ensures(
                            self.seconds,
                            (bits,),
                            secs,
                        );
                    self.lemma_read(text, Some(bits));
                    self.lemma_secs(bits, secs);
                },
            }
        }
    }

    /// The row that a line of a TSV file holds.
    pub open spec fn row(self, schema: TsvSchema, line: Seq<char>) -> Option<TsvRow> {
        match schema.cells_of(line) {
            None => None,
            Some(cells) => row_of(cells.step, self.wall(cells.millis), self.read(cells.value)),
        }
    }

    /// The row that a line of a TSV file holds.
    pub fn parse_row(&self, schema: &TsvSchema, line: &str) -> (row: Option<TsvRow>)
        requires
            self.ok(),
        ensures
            row == self.row(*schema, line@),
    {
        let row = schema.parse_row(line, &self.number, &self.seconds);
        proof {
            if let Some(cells) = schema.cells_of(line@) {
                let (value, wall) = choose|value: Option<u64>, wall: Option<u64>|
                    {
                        &&& #[trigger] reads_as(self.number, cells.value, value)
                        &&& #[trigger] wall_read(self.number, self.seconds, cells.millis, wall)
                        &&& row == row_of(cells.step, wall, value)
                    };
                self.lemma_read(cells.value, value);
                self.lemma_wall(cells.millis, wall);
            }
        }
        row
    }

    /// The metric that a line of a metric file holds.
    pub open spec fn metric(self, line: Seq<char>) -> Option<MetricLine> {
        if metric_shape(line) {
            metric_of(
                integer_of(words(line)[2])->0,
                self.wall(Some(words(line)[0])),
                self.read(words(line)[1]),
            )
        } else {
            None
        }
    }

    /// The metric that a line of a metric file holds.
    pub fn parse_metric(&self, line: &str) -> (metric: Option<MetricLine>)
        requires
            self.ok(),
        ensures
            metric == self.metric(line@),
    {
        let metric = parse_metric_line(line, &self.number, &self.seconds);
        proof {
            if metric_shape(line@) {
                let (value, wall) = choose|value: Option<u64>, wall: Option<u64>|
                    {
                        &&& #[trigger] reads_as(self.number, words(line@)[1], value)
                        &&& #[trigger] wall_read(
                            self.number,
                            self.seconds,
                            Some(words(line@)[0]),
                            wall,
                        )
                        &&& metric == metric_of(integer_of(words(line@)[2])->0, wall, value)
                    };
                self.lemma_read(words(line@)[1], value);
                self.lemma_wall(Some(words(line@)[0]), wall);
            }
        }
        metric
    }

    /// How a raw scalar is typed.
    pub open spec fn typed(self, raw: Seq<char>) -> ParamModel {
        param_of(raw, self.read(trimmed(raw)))
    }

    /// The value of a parameter file.
    pub fn parse_param(&self, content: &str) -> (value: ParamValue)
        requires
            self.ok(),
        ensures
            value@ == self.typed(trimmed(content@)),
    {
        let value = parse_param(content, &self.number);
        proof {
            let reading = choose|reading: Option<u64>| #[trigger]
                reads_as(self.number, trimmed(trimmed(content@)), reading) && value@ == param_of(
                    trimmed(content@),
                    reading,
                );
            self.lemma_read(trimmed(trimmed(content@)), reading);
        }
        value
    }

    /// The parameters of a parameter document, in order.
    pub open spec fn params(self, text: Seq<char>) -> Seq<(Seq<char>, ParamModel)> {
        yaml_params(text).map_values(|raw: (Seq<char>, Seq<char>)| (raw.0, self.typed(raw.1)))
    }

    /// The parameters of a parameter document, in order.
    pub fn parse_params(&self, text: &str) -> (params: Vec<(String, ParamValue)>)
        requires
            self.ok(),
        ensures
            crate::wandb_record::params_model(params@) == self.params(text@),
    {
        let params = parse_params_yaml(text, &self.number);
        proof {
            let raws = yaml_params(text@);
            assert forall|i: int| 0 <= i < params@.len() implies (
                params@[i].0@,
                params@[i].1@,
            ) == self.params(text@)[i] by {
                assert(typed_param(self.number, raws[i], params@[i]));
                let reading = choose|reading: Option<u64>| #[trigger]
                    reads_as(self.number, trimmed(raws[i].1), reading) && params@[i].1@ == param_of(
                        raws[i].1,
                        reading,
                    );
                self.lemma_read(trimmed(raws[i].1), reading);
            }
            assert(crate::wandb_record::params_model(params@) =~= self.params(text@));
        }
        params
    }

    /// How the numbers of a record read.
    pub open spec fn readings(self, shape: RecordShape) -> Seq<Option<u64>> {
        match shape {
            RecordShape::History(entries) => entries.map_values(
                |entry: EntryModel|
                    match entry {
                        EntryModel::Item(key, json) => self.read(trimmed(json)),
                        EntryModel::Step(_) => None,
                    },
            ),
            RecordShape::Config(items) => items.map_values(
                |item: (Seq<char>, Seq<char>)| self.read(trimmed(unwrapped(item.1))),
            ),
            _ => Seq::empty(),
        }
    }

    /// The record that a payload holds, if it is a decodable one.
    pub open spec fn record(self, payload: Seq<u8>) -> Option<WandbModel> {
        match record_shape(payload) {
            None => None,
            Some(shape) => Some(record_of(shape, self.readings(shape))),
        }
    }

    /// A possible record is the record.
    pub proof fn lemma_record(self, shape: RecordShape, record: WandbModel)
        requires
            self.ok(),
            reads_as_record(self.number, shape, record),
        ensures
            record == record_of(shape, self.readings(shape)),
    {
        let readings = choose|readings: Seq<Option<u64>>| #[trigger]
            record_reads(self.number, shape, readings) && record == record_of(shape, readings);
        match shape {
            RecordShape::History(entries) => {
                assert forall|i: int| 0 <= i < entries.len() implies readings[i] == self.readings(
                    shape,
                )[i] by {
                    assert(crate::wandb_record::entry_reads(self.number, entries[i], readings[i]));
                    if let EntryModel::Item(key, json) = entries[i] {
                        self.lemma_read(trimmed(json), readings[i]);
                    }
                }
                assert(readings =~= self.readings(shape));
            },
            RecordShape::Config(items) => {
                assert forall|i: int| 0 <= i < items.len() implies readings[i] == self.readings(
                    shape,
                )[i] by {
                    self.lemma_read(trimmed(unwrapped(items[i].1)), readings[i]);
                }
                assert(readings =~= self.readings(shape));
            },
            _ => {},
        }
    }

    /// The record that a payload holds, if it is a decodable one.
    pub fn parse_record(&self, payload: &[u8]) -> (record: Option<WandbRecord>)
        requires
            self.ok(),
        ensures
            match record {
                Some(r) => self.record(payload@) == Some(r@),
                None => self.record(payload@) is None,
            },
    {
        let record = parse_record(payload, &self.number);
        proof {
            if record is Some {
                self.lemma_record(record_shape(payload@)->0, record->0@);
            }
        }
        record
    }
}

} // verus!
