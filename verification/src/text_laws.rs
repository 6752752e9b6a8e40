//! What the text files of trackers come to: rows and lines read back as what
//! was written, parameters have the types of their texts, and directories are
//! known by what lies in them.
use vstd::prelude::*;

use crate::backends::{tsv_tag, with_params};
use crate::discover::{
    joined, meaning, name_of, placed, starts_with, within, DiscoveryModel, EntryKind, EntryModel,
    FoundModel, Meaning, WalkModel,
};
use crate::dvclive::{
    column_at, column_named, columns, row_of, schema_of, yaml_line, yaml_pair, CellsModel, TsvRow,
    TsvSchema, YamlState,
};
use crate::export_laws::lemma_between_splits_back;
use crate::hparams::HparamModel;
use crate::mlflow::{meta_line, metric_shape, MetaModel, MetricLine};
use crate::numeric::{Moments, Numeric};
use crate::params::{param_of, unquoted, ParamModel};
use crate::run::{ends_with, hparam_of_param, Intake, RunModel};
use crate::table::with_between;
use crate::text::{
    first_index, integer_text, law_integer_round_trip, trimmed, trimmed_end, trimmed_start, white,
    word_len, words,
};
use crate::wandb_laws::lemma_first_behind;
use crate::wandb_record::WandbModel;

verus! {

/// A text with something in it and no white space.
pub open spec fn solid(text: Seq<char>) -> bool {
    text.len() > 0 && forall|i: int| 0 <= i < text.len() ==> !white(#[trigger] text[i])
}

proof fn lemma_solid_trims_to_itself(text: Seq<char>)
    requires
        solid(text),
    ensures
        trimmed(text) == text,
        trimmed_end(text) == text,
        trimmed_start(text) == text,
        !text.contains('\t'),
        !text.contains(' '),
        !text.contains('\n'),
{
    assert(!white(text[text.len() - 1]));
    assert(!white(text[0]));
    if text.contains('\t') {
        let i = choose|i: int| 0 <= i < text.len() && text[i] == '\t';
        assert(white(text[i]));
    }
    if text.contains(' ') {
        let i = choose|i: int| 0 <= i < text.len() && text[i] == ' ';
        assert(white(text[i]));
    }
    if text.contains('\n') {
        let i = choose|i: int| 0 <= i < text.len() && text[i] == '\n';
        assert(white(text[i]));
    }
}

proof fn lemma_decimal_is_solid(n: nat)
    ensures
        solid(crate::text::decimal_text(n)),
    decreases n,
{
    let text = crate::text::decimal_text(n);
    if n >= 10 {
        lemma_decimal_is_solid(n / 10);
        let front = crate::text::decimal_text(n / 10);
        assert forall|i: int| 0 <= i < text.len() implies !white(#[trigger] text[i]) by {
            if i < front.len() {
                assert(text[i] == front[i]);
            }
        }
    }
}

proof fn lemma_integer_is_solid(n: int)
    ensures
        solid(integer_text(n)),
{
    if n < 0 {
        lemma_decimal_is_solid((-n) as nat);
        let rest = crate::text::decimal_text((-n) as nat);
        let text = integer_text(n);
        assert forall|i: int| 0 <= i < text.len() implies !white(#[trigger] text[i]) by {
            if i > 0 {
                assert(text[i] == rest[i - 1]);
            }
        }
    } else {
        lemma_decimal_is_solid(n as nat);
    }
}

/// Three texts with tabs between them.
pub open spec fn tabbed(a: Seq<char>, b: Seq<char>, c: Seq<char>) -> Seq<char> {
    a + seq!['\t'] + b + seq!['\t'] + c
}

proof fn lemma_tabbed_columns(a: Seq<char>, b: Seq<char>, c: Seq<char>)
    requires
        solid(a),
        solid(b),
        solid(c),
    ensures
        columns(tabbed(a, b, c)) == seq![a, b, c],
{
    lemma_solid_trims_to_itself(a);
    lemma_solid_trims_to_itself(b);
    lemma_solid_trims_to_itself(c);
    let line = tabbed(a, b, c);
    assert(line.last() == c[c.len() - 1]);
    assert(!white(line.last()));
    let parts = seq![a, b, c];
    reveal_with_fuel(with_between, 3);
    assert(parts.drop_last() =~= seq![a, b]);
    assert(parts.drop_last().drop_last() =~= seq![a]);
    assert(with_between(parts, seq!['\t']) =~= line);
    lemma_between_splits_back(parts, '\t');
}

proof fn lemma_column_at(names: Seq<Seq<char>>, name: Seq<char>, at: usize)
    requires
        column_named(names, name, Some(at)),
    ensures
        column_at(names, name) == Some(at),
{
    let found = column_at(names, name);
    assert(column_named(names, name, found));
    match found {
        Some(i) => {
            if i < at {
                assert(names[i as int] == name);
            } else if at < i {
                assert(names[at as int] == name);
            }
        },
        None => {
            assert(names[at as int] == name);
        },
    }
}

/// A header of a timestamp, a step and a metric says where they stand.
pub proof fn law_tsv_header_is_read(metric: Seq<char>)
    requires
        solid(metric),
    ensures
        schema_of(tabbed("timestamp"@, "step"@, metric)) == Some(
            TsvSchema { timestamp: Some(0), step: Some(1), value: 2 },
        ),
{
    reveal_strlit("timestamp");
    reveal_strlit("step");
    let a = "timestamp"@;
    let b = "step"@;
    assert(a.len() == 9 && b.len() == 4);
    assert(solid(a));
    assert(solid(b));
    lemma_tabbed_columns(a, b, metric);
    let names = columns(tabbed(a, b, metric));
    assert(names[0] == a && names[1] == b && names[2] == metric);
    lemma_column_at(names, a, 0);
    lemma_column_at(names, b, 1);
}

/// A row of a TSV file reads back as its time, its step and its value.
pub proof fn law_tsv_row_reads_back(millis: Seq<char>, step: i64, value: Seq<char>)
    requires
        solid(millis),
        solid(value),
    ensures
        (TsvSchema { timestamp: Some(0), step: Some(1), value: 2 }).cells_of(
            tabbed(millis, integer_text(step as int), value),
        ) == Some(CellsModel { step, millis: Some(millis), value }),
        (TsvSchema { timestamp: None, step: None, value: 2 }).cells_of(
            tabbed(millis, integer_text(step as int), value),
        ) == Some(CellsModel { step: 0, millis: None, value }),
        (TsvSchema { timestamp: Some(0), step: Some(1), value: 3 }).cells_of(
            tabbed(millis, integer_text(step as int), value),
        ) is None,
{
    lemma_integer_is_solid(step as int);
    law_integer_round_trip(step);
    lemma_solid_trims_to_itself(millis);
    lemma_solid_trims_to_itself(value);
    lemma_solid_trims_to_itself(integer_text(step as int));
    lemma_tabbed_columns(millis, integer_text(step as int), value);
    let fields = columns(tabbed(millis, integer_text(step as int), value));
    assert(fields[0] == millis && fields[1] == integer_text(step as int) && fields[2] == value);
}

/// A row has the step, the wall time and the value of its cells, and is lost
/// where one of them does not read.
pub proof fn law_rows_need_both_numbers(step: i64, wall: u64, value: u64)
    ensures
        row_of(step, Some(wall), Some(value)) == Some(TsvRow { step, wall, value }),
        row_of(step, None, Some(value)) is None,
        row_of(step, Some(wall), None) is None,
        crate::mlflow::metric_of(step, Some(wall), Some(value)) == Some(
            MetricLine { step, wall, value },
        ),
        crate::mlflow::metric_of(step, None, Some(value)) is None,
        crate::mlflow::metric_of(step, Some(wall), None) is None,
{
}

/// The series of a TSV file is its name without the ending; another file is of
/// none.
pub proof fn law_tsv_files_name_their_series(name: Seq<char>)
    ensures
        tsv_tag(name + ".tsv"@) == Some(name),
        !ends_with(name, ".tsv"@) ==> tsv_tag(name) is None,
{
    reveal_strlit(".tsv");
    let file = name + ".tsv"@;
    assert(".tsv"@.len() == 4);
    assert(file.skip(file.len() - 4) =~= ".tsv"@);
    assert(file.take(file.len() - 4) =~= name);
}

proof fn lemma_words_front(a: Seq<char>, rest: Seq<char>)
    requires
        solid(a),
        rest.len() > 0 ==> white(rest[0]),
    ensures
        words(a + rest) == seq![a] + words(rest),
{
    let s = a + rest;
    lemma_word_front(a, rest);
    let n = a.len() as int;
    assert(s[0] == a[0]);
    assert(!white(a[0]));
    assert(s.take(n) =~= a);
    assert(s.skip(n) =~= rest);
}

proof fn lemma_word_front(a: Seq<char>, rest: Seq<char>)
    requires
        forall|i: int| 0 <= i < a.len() ==> !white(#[trigger] a[i]),
        rest.len() > 0 ==> white(rest[0]),
    ensures
        word_len(a + rest) == a.len(),
    decreases a.len(),
{
    let s = a + rest;
    if a.len() == 0 {
        assert(s =~= rest);
    } else {
        assert(s.skip(1) =~= a.skip(1) + rest);
        assert forall|i: int| 0 <= i < a.skip(1).len() implies !white(#[trigger] a.skip(1)[i]) by {
            assert(a.skip(1)[i] == a[i + 1]);
        }
        lemma_word_front(a.skip(1), rest);
        assert(s[0] == a[0]);
        assert(!white(a[0]));
    }
}

/// Three texts with blanks between them.
pub open spec fn spaced(a: Seq<char>, b: Seq<char>, c: Seq<char>) -> Seq<char> {
    a + (seq![' '] + (b + (seq![' '] + (c + Seq::empty()))))
}

proof fn lemma_spaced_words(a: Seq<char>, b: Seq<char>, c: Seq<char>)
    requires
        solid(a),
        solid(b),
        solid(c),
    ensures
        words(spaced(a, b, c)) == seq![a, b, c],
{
    let none = Seq::<char>::empty();
    let t = seq![' '] + (c + none);
    let s = seq![' '] + (b + t);
    assert(words(none) =~= Seq::<Seq<char>>::empty());
    lemma_words_front(c, none);
    assert(t.skip(1) =~= c + none);
    assert(white(t[0]));
    assert(words(t) == words(c + none));
    lemma_words_front(b, t);
    assert(s.skip(1) =~= b + t);
    assert(white(s[0]));
    assert(words(s) == words(b + t));
    lemma_words_front(a, s);
    assert(words(spaced(a, b, c)) =~= seq![a, b, c]);
}

impl<
    F: Fn(&str) -> Option<u64>,
    G: Fn(u64) -> u64,
    H: Fn(Moments, u64) -> Moments,
> Numeric<F, G, H> {
    /// A line of a metric file is milliseconds, a value and a step; one of
    /// another shape, or whose numbers do not read, is none.
    pub proof fn law_metric_line_reads_back(
        self,
        millis: Seq<char>,
        value: Seq<char>,
        step: i64,
        ms: u64,
        bits: u64,
    )
        requires
            solid(millis),
            solid(value),
            self.read(millis) == Some(ms),
            self.read(value) == Some(bits),
        ensures
            self.metric(spaced(millis, value, integer_text(step as int))) == Some(
                MetricLine { step, wall: self.secs(ms), value: bits },
            ),
    {
        lemma_integer_is_solid(step as int);
        law_integer_round_trip(step);
        lemma_spaced_words(millis, value, integer_text(step as int));
        let line = spaced(millis, value, integer_text(step as int));
        assert(words(line)[0] == millis && words(line)[1] == value);
        assert(words(line)[2] == integer_text(step as int));
        assert(metric_shape(line));
    }

    /// A row of a TSV file has the wall time of its milliseconds and the value
    /// that it writes; without a column of times the wall time is zero, and a
    /// time or a value that does not read makes it no row.
    pub proof fn law_tsv_rows_have_their_numbers(
        self,
        millis: Seq<char>,
        value: Seq<char>,
        step: i64,
    )
        requires
            solid(millis),
            solid(value),
        ensures
            ({
                let line = tabbed(millis, integer_text(step as int), value);
                let timed = self.row(TsvSchema { timestamp: Some(0), step: Some(1), value: 2 }, line);
                let bare = self.row(TsvSchema { timestamp: None, step: Some(1), value: 2 }, line);
                &&& match (self.read(millis), self.read(value)) {
                    (Some(ms), Some(bits)) => timed == Some(
                        TsvRow { step, wall: self.secs(ms), value: bits },
                    ),
                    _ => timed is None,
                }
                &&& match self.read(value) {
                    Some(bits) => bare == Some(TsvRow { step, wall: 0, value: bits }),
                    None => bare is None,
                }
            }),
    {
        law_tsv_row_reads_back(millis, step, value);
        lemma_integer_is_solid(step as int);
        law_integer_round_trip(step);
        lemma_solid_trims_to_itself(value);
        lemma_solid_trims_to_itself(integer_text(step as int));
        lemma_tabbed_columns(millis, integer_text(step as int), value);
        let fields = columns(tabbed(millis, integer_text(step as int), value));
        assert(fields[1] == integer_text(step as int) && fields[2] == value);
    }

    /// A row of a TSV file is a point of the file's series where it reads, and
    /// a lost record where it does not.
    pub proof fn law_tsv_row_is_a_point(
        self,
        schema: TsvSchema,
        millis: Seq<char>,
        step: i64,
        value: Seq<char>,
        ms: u64,
        bits: u64,
    )
        requires
            schema == (TsvSchema { timestamp: Some(0), step: Some(1), value: 2 }),
            solid(millis),
            solid(value),
            self.read(millis) == Some(ms),
            self.read(value) == Some(bits),
        ensures
            self.row(schema, tabbed(millis, integer_text(step as int), value)) == Some(
                TsvRow { step, wall: self.secs(ms), value: bits },
            ),
    {
        law_tsv_row_reads_back(millis, step, value);
    }

    /// A history record adds its values as points, a config record its
    /// parameters, an exit record that the run is finished; another adds
    /// nothing, and one that does not decode is counted as lost.
    pub proof fn law_log_records_add(
        self,
        intake: Intake,
        name: Seq<char>,
        payload: Seq<u8>,
        step: i64,
        wall: u64,
        tag: Seq<char>,
        bits: u64,
        updates: Seq<(Seq<char>, ParamModel)>,
    )
        ensures
            self.record(payload) == Some(
                WandbModel::History { step, wall, values: seq![(tag, bits)] },
            ) ==> self.take_payload(intake, name, payload) == self.take_scalar(
                intake,
                name,
                tag,
                crate::series::PointStamp { step, wall, value: bits },
            ),
            self.record(payload) == Some(WandbModel::Config(updates)) ==> self.take_payload(
                intake,
                name,
                payload,
            ).run.hparams == with_params(intake.run.hparams, updates),
            self.record(payload) == Some(WandbModel::Exit) ==> self.take_payload(
                intake,
                name,
                payload,
            ) == (Intake { run: RunModel { finished: Some(true), ..intake.run }, ..intake }),
            self.record(payload) == Some(WandbModel::Other) ==> self.take_payload(
                intake,
                name,
                payload,
            ) == intake,
            self.record(payload) is None ==> self.take_payload(intake, name, payload)
                == intake.dropped(),
    {
        reveal_with_fuel(Numeric::take_history, 2);
        let values = seq![(tag, bits)];
        assert(values.drop_last() =~= Seq::<(Seq<char>, u64)>::empty());
    }
}

/// Parameters taken in: the last one under a key counts, and a key that is not
/// among them keeps what it had.
pub proof fn law_later_parameters_win(
    hparams: Map<Seq<char>, HparamModel>,
    params: Seq<(Seq<char>, ParamModel)>,
    key: Seq<char>,
    at: int,
)
    ensures
        0 <= at < params.len() && params[at].0 == key && (forall|i: int|
            at < i < params.len() ==> (#[trigger] params[i]).0 != key) ==> with_params(
            hparams,
            params,
        ).dom().contains(key) && with_params(hparams, params)[key] == hparam_of_param(params[at].1),
        (forall|i: int| 0 <= i < params.len() ==> (#[trigger] params[i]).0 != key) ==> (with_params(
            hparams,
            params,
        ).dom().contains(key) == hparams.dom().contains(key)) && with_params(hparams, params)[key]
            == hparams[key],
    decreases params.len(),
{
    if params.len() > 0 {
        let init = params.drop_last();
        law_later_parameters_win(hparams, init, key, at);
        let last = params.len() - 1;
        assert(params[last] == params.last());
        if 0 <= at < last && params[at].0 == key && (forall|i: int|
            at < i < params.len() ==> (#[trigger] params[i]).0 != key) {
            assert(params[last].0 != key);
            assert forall|i: int| at < i < init.len() implies (#[trigger] init[i]).0 != key by {
                assert(init[i] == params[i]);
            }
        }
        if forall|i: int| 0 <= i < params.len() ==> (#[trigger] params[i]).0 != key {
            assert(params[last].0 != key);
            assert forall|i: int| 0 <= i < init.len() implies (#[trigger] init[i]).0 != key by {
                assert(init[i] == params[i]);
            }
        }
    }
}

/// A raw scalar is a truth where it is a word for one, else a number where it
/// reads as one, else a text, without its quotes.
pub proof fn law_scalars_are_typed(text: Seq<char>, inner: Seq<char>, bits: u64)
    requires
        solid(text),
        text != "true"@,
        text != "True"@,
        text != "false"@,
        text != "False"@,
    ensures
        param_of("true"@, Some(bits)) == ParamModel::Truth(true),
        param_of("True"@, None) == ParamModel::Truth(true),
        param_of("false"@, None) == ParamModel::Truth(false),
        param_of("False"@, Some(bits)) == ParamModel::Truth(false),
        param_of(text, Some(bits)) == ParamModel::Number(bits),
        param_of(text, None) == ParamModel::Text(unquoted(text)),
        unquoted(seq!['\''] + inner + seq!['\'']) == inner,
        unquoted(seq!['"'] + inner + seq!['"']) == inner,
        text[0] != '\'' && text[0] != '"' ==> unquoted(text) == text,
{
    reveal_strlit("true");
    reveal_strlit("True");
    reveal_strlit("false");
    reveal_strlit("False");
    assert("true"@.len() == 4 && "True"@.len() == 4);
    assert("false"@.len() == 5 && "False"@.len() == 5);
    assert("false"@[0] == 'f' && "False"@[0] == 'F');
    assert(solid("true"@));
    assert(solid("True"@));
    assert(solid("false"@));
    assert(solid("False"@));
    lemma_solid_trims_to_itself("true"@);
    lemma_solid_trims_to_itself("True"@);
    lemma_solid_trims_to_itself("false"@);
    lemma_solid_trims_to_itself("False"@);
    lemma_solid_trims_to_itself(text);
    let single = seq!['\''] + inner + seq!['\''];
    let double = seq!['"'] + inner + seq!['"'];
    assert(single.subrange(1, single.len() - 1) =~= inner);
    assert(double.subrange(1, double.len() - 1) =~= inner);
}

/// A line of a run's metadata sets what its key names: the run's name, its
/// identity under either key, its status; any other key, or one without a
/// value, sets nothing.
pub proof fn law_metadata_lines(meta: MetaModel, key: Seq<char>, value: Seq<char>)
    requires
        solid(value),
        solid(key),
        !key.contains(':'),
        key != "run_name"@,
        key != "run_id"@,
        key != "run_uuid"@,
        key != "status"@,
    ensures
        meta_line(meta, "run_name"@ + seq![':'] + value) == (MetaModel {
            run_name: Some(value),
            ..meta
        }),
        meta_line(meta, "run_id"@ + seq![':'] + value) == (MetaModel {
            run_id: Some(value),
            ..meta
        }),
        meta_line(meta, "run_uuid"@ + seq![':'] + value) == (MetaModel {
            run_id: Some(value),
            ..meta
        }),
        meta_line(meta, "status"@ + seq![':'] + value) == (MetaModel {
            status: Some(value),
            ..meta
        }),
        meta_line(meta, key + seq![':'] + value) == meta,
        meta_line(meta, "status"@ + seq![':'] + Seq::<char>::empty()) == meta,
{
    reveal_strlit("run_name");
    reveal_strlit("run_id");
    reveal_strlit("run_uuid");
    reveal_strlit("status");
    assert("run_name"@.len() == 8 && "run_uuid"@.len() == 8);
    assert("run_id"@.len() == 6 && "status"@.len() == 6);
    assert("run_name"@[4] == 'n' && "run_uuid"@[4] == 'u');
    assert("run_id"@[0] == 'r' && "status"@[0] == 's');
    lemma_metadata_line(meta, "run_name"@, value);
    lemma_metadata_line(meta, "run_id"@, value);
    lemma_metadata_line(meta, "run_uuid"@, value);
    lemma_metadata_line(meta, "status"@, value);
    lemma_metadata_line(meta, key, value);
    let none = Seq::<char>::empty();
    let line = "status"@ + seq![':'] + none;
    lemma_first_behind("status"@, ':', none);
    assert(line.skip(7) =~= none);
}

proof fn lemma_metadata_line(meta: MetaModel, key: Seq<char>, value: Seq<char>)
    requires
        solid(value),
        solid(key),
        !key.contains(':'),
    ensures
        ({
            let line = key + seq![':'] + value;
            &&& first_index(line, ':') == Some(key.len() as int)
            &&& trimmed(line.take(key.len() as int)) == key
            &&& trimmed(line.skip(key.len() as int + 1)) == value
        }),
{
    lemma_first_behind(key, ':', value);
    lemma_solid_trims_to_itself(key);
    lemma_solid_trims_to_itself(value);
    let line = key + seq![':'] + value;
    assert(line.take(key.len() as int) =~= key);
    assert(line.skip(key.len() as int + 1) =~= value);
}

/// A plain key of a parameter document.
pub open spec fn plain_key(key: Seq<char>) -> bool {
    solid(key) && !key.contains(':') && key[0] != '#' && key[0] != '-'
}

proof fn lemma_pair(key: Seq<char>, value: Seq<char>)
    requires
        plain_key(key),
        solid(value) || value.len() == 0,
    ensures
        ({
            let line = key + seq![':'] + value;
            &&& yaml_pair(line) == Some((key, value))
            &&& trimmed_end(line) == line
            &&& trimmed_start(line) == line
            &&& line.contains(':')
            &&& line[0] == key[0]
        }),
{
    let line = key + seq![':'] + value;
    let n = key.len() as int;
    lemma_first_behind(key, ':', value);
    lemma_solid_trims_to_itself(key);
    assert(line.take(n) =~= key);
    assert(line.skip(n + 1) =~= value);
    assert(line[n] == ':');
    assert(line[0] == key[0]);
    assert(!white(key[0]));
    if value.len() > 0 {
        lemma_solid_trims_to_itself(value);
        assert(line.last() == value[value.len() - 1]);
    } else {
        assert(trimmed(value) =~= value);
        assert(line.last() == ':');
    }
    assert(!white(line.last()));
}

/// An unindented key with a value is a parameter; one without a value is the
/// parent of what stands under it, whose keys stand behind the parent's and a
/// dot.
pub proof fn law_documents_flatten(
    state: YamlState,
    parent: Seq<char>,
    key: Seq<char>,
    value: Seq<char>,
    blank: Seq<char>,
)
    requires
        plain_key(parent),
        plain_key(key),
        solid(value),
        blank.len() > 0,
        forall|i: int| 0 <= i < blank.len() ==> #[trigger] blank[i] == ' ',
    ensures
        yaml_line(state, key + seq![':'] + value).params == state.params.push((key, value)),
        yaml_line(state, parent + seq![':'] + Seq::<char>::empty()).params == state.params,
        yaml_line(
            yaml_line(state, parent + seq![':'] + Seq::<char>::empty()),
            blank + (key + seq![':'] + value),
        ).params == state.params.push((parent + seq!['.'] + key, value)),
{
    let none = Seq::<char>::empty();
    lemma_pair(key, value);
    lemma_pair(parent, none);
    let inner = key + seq![':'] + value;
    let line = blank + inner;
    lemma_indented(blank, inner);
    assert(line.len() - inner.len() == blank.len());
}

proof fn lemma_indented(blank: Seq<char>, inner: Seq<char>)
    requires
        inner.len() > 0,
        !white(inner[0]),
        !white(inner.last()),
        forall|i: int| 0 <= i < blank.len() ==> #[trigger] blank[i] == ' ',
    ensures
        trimmed_end(blank + inner) == blank + inner,
        trimmed_start(blank + inner) == inner,
    decreases blank.len(),
{
    let line = blank + inner;
    assert(line.last() == inner.last());
    if blank.len() == 0 {
        assert(line =~= inner);
    } else {
        assert(line[0] == blank[0]);
        assert(line.skip(1) =~= blank.skip(1) + inner);
        lemma_indented(blank.skip(1), inner);
    }
}

/// A run is named by its path below the root, and the root's own run by a dot.
pub proof fn law_runs_are_named_by_their_place(root: Seq<char>, path: Seq<char>)
    requires
        path.len() > 0,
        path[0] != '/',
    ensures
        name_of(root, joined(root, path)) == path,
        name_of(root, root) == "."@,
{
    let dir = joined(root, path);
    if root.len() > 0 && root.last() == '/' {
        assert(dir.take(root.len() as int) =~= root);
        assert(dir.skip(root.len() as int) =~= path);
    } else if root.len() > 0 {
        let front = root.push('/');
        assert(dir.take(front.len() as int) =~= front);
        assert(dir.skip(front.len() as int) =~= path);
    } else {
        let front = root.push('/');
        if dir.take(1) == front {
            assert(dir.take(1)[0] == '/');
        }
    }
}

/// A file.
pub open spec fn file_named(name: Seq<char>, text: Option<Seq<char>>) -> EntryModel {
    EntryModel { name, kind: EntryKind::File, marked: false, text }
}

/// What an entry means: an event file has `tfevents` in its name, a run log is
/// `run-….wandb`, a marked `dvclive` directory is a root of its own, another
/// directory is walked; hidden entries and links mean nothing.
pub proof fn law_entries_mean(front: Seq<char>, back: Seq<char>, depth: nat, marked: bool)
    requires
        front.len() == 0 || front[0] != '.',
        depth < 32,
    ensures
        meaning(file_named(front + "tfevents"@ + back, None), depth) is Tfevents,
        !within("run-"@ + back + ".wandb"@, "tfevents"@) ==> meaning(
            file_named("run-"@ + back + ".wandb"@, None),
            depth,
        ) is Wandb,
        meaning(file_named(seq!['.'] + back, None), depth) is Nothing,
        meaning(
            EntryModel { name: "dvclive"@, kind: EntryKind::Directory, marked: true, text: None },
            depth,
        ) is Dvclive,
        meaning(
            EntryModel { name: "dvclive"@, kind: EntryKind::Directory, marked: false, text: None },
            depth,
        ) is Walk,
        front.len() > 0 && front != "dvclive"@ ==> meaning(
            EntryModel { name: front, kind: EntryKind::Directory, marked, text: None },
            depth,
        ) is Walk,
        meaning(
            EntryModel { name: front, kind: EntryKind::DirectoryLink, marked, text: None },
            depth,
        ) is Nothing,
        meaning(
            EntryModel {
                name: seq!['.'] + back,
                kind: EntryKind::Directory,
                marked,
                text: None,
            },
            depth,
        ) is Nothing,
{
    reveal_strlit("tfevents");
    reveal_strlit("run-");
    reveal_strlit(".wandb");
    reveal_strlit("dvclive");
    assert("tfevents"@.len() == 8 && "run-"@.len() == 4 && ".wandb"@.len() == 6);
    assert("tfevents"@[0] == 't' && "run-"@[0] == 'r' && "dvclive"@.len() == 7);
    assert("dvclive"@[0] == 'd');
    let file = front + "tfevents"@ + back;
    crate::caption_laws::lemma_stands_within(front, "tfevents"@, back);
    if front.len() > 0 {
        assert(file[0] == front[0]);
    } else {
        assert(file[0] == 't');
    }
    let log = "run-"@ + back + ".wandb"@;
    assert(log[0] == 'r');
    assert(log.take(4) =~= "run-"@);
    assert(log.skip(log.len() - 6) =~= ".wandb"@);
    assert(starts_with(log, "run-"@));
    assert(ends_with(log, ".wandb"@));
}

/// The metadata of a run makes its directory a run, under the name that it
/// records.
pub proof fn law_metadata_makes_a_run(text: Seq<char>, depth: nat)
    ensures
        ({
            let meta = crate::mlflow::meta_lines(crate::text::pieces(text, '\n'));
            let entry = file_named("meta.yaml"@, Some(text));
            &&& meta.run_id is Some ==> meaning(entry, depth) == Meaning::Mlflow(meta.run_name)
            &&& meta.run_id is None ==> meaning(entry, depth) is Nothing
            &&& meaning(file_named("meta.yaml"@, None), depth) is Nothing
        }),
{
    reveal_strlit("meta.yaml");
    reveal_strlit("tfevents");
    reveal_strlit("run-");
    let name = "meta.yaml"@;
    assert(name.len() == 9 && "tfevents"@.len() == 8);
    assert(name[0] == 'm' && name[1] == 'e');
    if within(name, "tfevents"@) {
        let i = choose|i: int|
            0 <= i <= name.len() - "tfevents"@.len() && #[trigger] name.subrange(
                i,
                i + "tfevents"@.len(),
            ) == "tfevents"@;
        assert(name.subrange(i, i + 8)[0] == "tfevents"@[0]);
        assert(name[i] == 't');
    }
    if starts_with(name, "run-"@) {
        assert("run-"@[0] == 'r');
        assert(name.take(4)[0] == 'm');
    }
}

/// Whatever is found is filed under its kind, by the name of its directory and
/// its path, and nothing else changes.
pub proof fn law_finds_are_filed(
    walk: WalkModel,
    dir: Seq<char>,
    depth: usize,
    entry: EntryModel,
)
    requires
        depth < usize::MAX,
    ensures
        ({
            let after = walk.with_entry(dir, depth, entry);
            let found = FoundModel {
                name: name_of(walk.root, dir),
                path: joined(dir, entry.name),
            };
            let kind = meaning(entry, depth as nat);
            &&& after.root == walk.root
            &&& kind is Nothing ==> after == walk
            &&& kind is Walk ==> after.found == walk.found && after.stack == walk.stack.push(
                (joined(dir, entry.name), (depth + 1) as usize),
            )
            &&& kind is Tfevents ==> after.stack == walk.stack && after.found == (DiscoveryModel {
                tfevents: placed(walk.found.tfevents, found),
                ..walk.found
            })
            &&& kind is Dvclive ==> after.stack == walk.stack && after.found == (DiscoveryModel {
                dvclive: placed(walk.found.dvclive, found),
                ..walk.found
            })
            &&& kind is Wandb ==> after.stack == walk.stack && after.found == (DiscoveryModel {
                wandb: placed(walk.found.wandb, found),
                ..walk.found
            })
            &&& kind matches Meaning::Mlflow(recorded) ==> after.stack == walk.stack && after.found
                == (DiscoveryModel {
                mlflow: placed(
                    walk.found.mlflow,
                    FoundModel {
                        name: match recorded {
                            Some(name) => name,
                            None => found.name,
                        },
                        path: dir,
                    },
                ),
                ..walk.found
            })
        }),
{
}

} // verus!
