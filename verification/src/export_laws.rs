//! What tables show: a cell is empty where its run has nothing under its
//! column, and otherwise it is the value itself.
use vstd::arithmetic::power2::{lemma2_to64, lemma_pow2_adds, lemma_pow2_pos, pow2};
use vstd::prelude::*;

use crate::arith::{Arith, Operation};
use crate::discover::within;
use crate::double::units;
use crate::exact::{exact_up_to, lemma_measures_order, lemma_measures_zero, measures};
use crate::hparams::HparamModel;
use crate::listing::{
    class_word, flat_table, has_class, key_cell, keys_among, latest_step, merged, row_cells,
    run_columns, status_word, summary_columns, summary_row, tag_cell, tags_among, total_points,
    RowModel,
};
use crate::names::{lemma_sorted, sorted, NameMap};
use crate::numeric::{Moments, Wording};
use crate::run::{status_of, Run, RunModel, RunStatus, Stamp};
use crate::series::{
    last_point, total_count, total_max, total_min, SegmentSummary, Series, SeriesClass,
};
use crate::table::{
    csv_field, csv_mark, csv_special, duration_text, json_chars, json_value, law_json_round_trip,
    padded, span_text, two_digits, with_between, CellModel, Format, TableModel,
};
use crate::text::{
    decimal_text, integer_of, law_integer_round_trip, lemma_first_index, pieces,
};
use crate::wandb_laws::lemma_first_behind;

verus! {

/// The cell under a hyperparameter's column is empty exactly where the run has
/// no such key.
pub proof fn law_key_cell_is_empty_without_the_key(run: Run, key: Seq<char>)
    ensures
        key_cell(run, key) is Empty <==> !run.hparams.has(key),
{
}

/// The cell holds the value: a number as that number, a text as that text, and
/// a truth as its word.
pub proof fn law_key_cell_holds_the_value(run: Run, key: Seq<char>)
    requires
        run.hparams.has(key),
    ensures
        run.hparams.at(key)@ matches HparamModel::Number(bits) ==> key_cell(run, key)
            == CellModel::Float(bits),
        run.hparams.at(key)@ matches HparamModel::Text(text) ==> key_cell(run, key)
            == CellModel::Text(text),
        run.hparams.at(key)@ == HparamModel::Truth(true) ==> key_cell(run, key) == CellModel::Text(
            "true"@,
        ),
        run.hparams.at(key)@ == HparamModel::Truth(false) ==> key_cell(run, key)
            == CellModel::Text("false"@),
{
}

/// Two runs with different values under a key have different cells, unless the
/// one is a truth and the other its word.
pub proof fn law_different_values_have_different_cells(a: Run, b: Run, key: Seq<char>)
    requires
        a.hparams.has(key),
        b.hparams.has(key),
        a.hparams.at(key)@ != b.hparams.at(key)@,
        a.hparams.at(key)@ is Truth == b.hparams.at(key)@ is Truth,
    ensures
        key_cell(a, key) != key_cell(b, key),
{
    reveal_strlit("true");
    reveal_strlit("false");
    assert("true"@.len() == 4 && "false"@.len() == 5);
}

/// A run with a key and a run without it have different cells.
pub proof fn law_present_and_missing_differ(a: Run, b: Run, key: Seq<char>)
    requires
        a.hparams.has(key),
        !b.hparams.has(key),
    ensures
        key_cell(a, key) != key_cell(b, key),
{
}

impl<F: Fn(&str) -> Option<u64>, P: Fn(u64) -> String> Wording<F, P> {
    /// The text of the cell is the value's own text form.
    pub proof fn law_key_cell_reads_as_the_value(self, run: Run, key: Seq<char>)
        requires
            run.hparams.has(key),
        ensures
            self.cell_text(key_cell(run, key)) == self.hparam_word(run.hparams.at(key)@),
            run.hparams.at(key)@ matches HparamModel::Number(bits) ==> self.cell_text(
                key_cell(run, key),
            ) == self.written(bits),
            run.hparams.at(key)@ matches HparamModel::Text(text) ==> self.cell_text(
                key_cell(run, key),
            ) == text,
    {
    }
}

/// The cell under a tag is the last value of the run's series, empty where
/// there is none.
pub proof fn law_tag_cell_holds_the_last_value(run: Run, tag: Seq<char>)
    ensures
        !run.series.has(tag) ==> tag_cell(run, tag) is Empty,
        run.series.has(tag) ==> match last_point(run.series.at(tag).summary.segments@) {
            Some(point) => tag_cell(run, tag) == CellModel::Float(point.value),
            None => tag_cell(run, tag) is Empty,
        },
{
}

/// What some runs have under a key, or as a scalar, is a finite set.
proof fn lemma_columns_finite(runs: NameMap<Run>, shown: Seq<int>)
    ensures
        keys_among(runs, shown).finite(),
        tags_among(runs, shown, SeriesClass::Scalar).finite(),
    decreases shown.len(),
{
    let keys = keys_among(runs, shown);
    let tags = tags_among(runs, shown, SeriesClass::Scalar);
    if shown.len() == 0 {
        assert(keys =~= Set::empty());
        assert(tags =~= Set::empty());
    } else {
        let init = shown.drop_last();
        lemma_columns_finite(runs, init);
        let run = runs.values()[shown.last()];
        let names = run.hparams.names().to_set();
        let series = run.series.names().to_set();
        vstd::seq_lib::seq_to_set_is_finite(run.hparams.names());
        vstd::seq_lib::seq_to_set_is_finite(run.series.names());
        let more = keys_among(runs, init).union(names);
        assert forall|key: Seq<char>| keys.contains(key) implies more.contains(key) by {
            let k = choose|k: int|
                0 <= k < shown.len() && (#[trigger] runs.values()[shown[k]]).hparams.has(key);
            if k < init.len() {
                assert(init[k] == shown[k]);
                assert(runs.values()[init[k]].hparams.has(key));
            } else {
                let i = run.hparams.index_of(key);
                assert(run.hparams.names()[i] == key);
                assert(run.hparams.names().contains(key));
            }
        }
        assert(keys.subset_of(more));
        vstd::set_lib::lemma_set_subset_finite(more, keys);
        let others = tags_among(runs, init, SeriesClass::Scalar).union(series);
        assert forall|tag: Seq<char>| tags.contains(tag) implies others.contains(tag) by {
            let k = choose|k: int|
                0 <= k < shown.len() && has_class(
                    #[trigger] runs.values()[shown[k]],
                    tag,
                    SeriesClass::Scalar,
                );
            if k < init.len() {
                assert(init[k] == shown[k]);
                assert(has_class(runs.values()[init[k]], tag, SeriesClass::Scalar));
            } else {
                let i = run.series.index_of(tag);
                assert(run.series.names()[i] == tag);
                assert(run.series.names().contains(tag));
            }
        }
        assert(tags.subset_of(others));
        vstd::set_lib::lemma_set_subset_finite(others, tags);
    }
}

/// Under a column stands, in every row, the cell of a hyperparameter.
pub open spec fn key_column(
    runs: NameMap<Run>,
    shown: Seq<int>,
    key: Seq<char>,
    column: int,
) -> bool {
    let table = flat_table(runs, shown);
    &&& 0 < column < table.columns.len()
    &&& table.columns[column] == key
    &&& forall|k: int|
        0 <= k < shown.len() ==> (#[trigger] table.rows[k])[column] == key_cell(
            runs.values()[shown[k]],
            key,
        )
}

/// Under a column stands, in every row, the last value of a series.
pub open spec fn tag_column(
    runs: NameMap<Run>,
    shown: Seq<int>,
    tag: Seq<char>,
    column: int,
) -> bool {
    let table = flat_table(runs, shown);
    &&& 0 < column < table.columns.len()
    &&& table.columns[column] == tag
    &&& forall|k: int|
        0 <= k < shown.len() ==> (#[trigger] table.rows[k])[column] == tag_cell(
            runs.values()[shown[k]],
            tag,
        )
}

/// The flat table has a row for each run that is shown, in their order, with
/// the run's name in front; every key that one of them has is a column of
/// values, and so is every scalar tag.
pub proof fn law_flat_table_leaves_nothing_out(
    runs: NameMap<Run>,
    shown: Seq<int>,
    at: int,
    name: Seq<char>,
)
    requires
        0 <= at < shown.len(),
    ensures
        ({
            let table = flat_table(runs, shown);
            &&& table.columns[0] == "run"@
            &&& table.rows.len() == shown.len()
            &&& table.rows[at].len() == table.columns.len()
            &&& table.rows[at][0] == CellModel::Text(runs.names()[shown[at]])
        }),
        runs.values()[shown[at]].hparams.has(name) ==> exists|column: int|
            key_column(runs, shown, name, column),
        runs.values()[shown[at]].series.has(name) && runs.values()[shown[at]].series.at(name).class
            == SeriesClass::Scalar ==> exists|column: int| tag_column(runs, shown, name, column),
{
    let keys = sorted(keys_among(runs, shown));
    let tags = sorted(tags_among(runs, shown, SeriesClass::Scalar));
    let table = flat_table(runs, shown);
    let run = runs.values()[shown[at]];
    lemma_columns_finite(runs, shown);
    lemma_sorted(keys_among(runs, shown));
    lemma_sorted(tags_among(runs, shown, SeriesClass::Scalar));
    if run.hparams.has(name) {
        assert(keys_among(runs, shown).contains(name));
        assert(keys.contains(name));
        let c = choose|c: int| 0 <= c < keys.len() && keys[c] == name;
        assert(table.columns[c + 1] == name);
        assert(key_column(runs, shown, name, c + 1));
    }
    if run.series.has(name) && run.series.at(name).class == SeriesClass::Scalar {
        assert(has_class(run, name, SeriesClass::Scalar));
        assert(tags_among(runs, shown, SeriesClass::Scalar).contains(name));
        assert(tags.contains(name));
        let c = choose|c: int| 0 <= c < tags.len() && tags[c] == name;
        let column = 1 + keys.len() + c;
        assert(table.columns[column] == name);
        assert(tag_column(runs, shown, name, column));
    }
}

/// Under each heading of the runs table stands what it names.
pub proof fn law_runs_table_cells(row: RowModel)
    requires
        row.series <= i64::MAX,
        row.points <= i64::MAX,
        row.restarts <= i64::MAX,
    ensures
        ({
            let columns = run_columns();
            let cells = row_cells(row);
            &&& columns.len() == 7 && cells.len() == 7
            &&& columns[0] == "run"@ && cells[0] == CellModel::Text(row.name)
            &&& columns[1] == "status"@ && cells[1] == CellModel::Text(row.status)
            &&& columns[2] == "series"@ && cells[2] == CellModel::Int(row.series as i64)
            &&& columns[3] == "points"@ && cells[3] == CellModel::Int(row.points as i64)
            &&& columns[4] == "restarts"@ && cells[4] == CellModel::Int(row.restarts as i64)
            &&& columns[5] == "step"@ && (cells[5] is Empty <==> row.step is None) && (
            row.step matches Some(step) ==> cells[5] == CellModel::Int(step))
            &&& columns[6] == "duration"@ && (cells[6] is Empty <==> row.duration is None) && (
            row.duration matches Some(seconds) ==> cells[6] == CellModel::Text(
                duration_text(seconds),
            ))
        }),
{
}

/// Under each heading of a run's summary stands what it names.
pub proof fn law_summary_cells<C: Fn(Moments, Moments) -> Moments>(
    combine: C,
    tag: Seq<char>,
    series: Series,
)
    requires
        total_count(series.summary.segments@) <= i64::MAX,
        series.summary.segments@.len() <= i64::MAX,
    ensures
        ({
            let columns = summary_columns();
            let cells = summary_row(combine, tag, series);
            let segments = series.summary.segments@;
            let moments = merged(combine, segments);
            &&& columns.len() == 9 && cells.len() == 9
            &&& columns[0] == "tag"@ && cells[0] == CellModel::Text(tag)
            &&& columns[1] == "class"@ && cells[1] == CellModel::Text(class_word(series.class))
            &&& columns[2] == "count"@ && cells[2] == CellModel::Int(total_count(segments) as i64)
            &&& columns[3] == "min"@ && (total_min(segments) matches Some(bits) ==> cells[3]
                == CellModel::Float(bits)) && (total_min(segments) is None ==> cells[3] is Empty)
            &&& columns[4] == "max"@ && (total_max(segments) matches Some(bits) ==> cells[4]
                == CellModel::Float(bits)) && (total_max(segments) is None ==> cells[4] is Empty)
            &&& columns[5] == "mean"@ && (moments.count > 0 ==> cells[5] == CellModel::Float(
                moments.mean,
            )) && (moments.count == 0 ==> cells[5] is Empty)
            &&& columns[6] == "last"@ && (last_point(segments) matches Some(point)
                ==> !crate::double::nan(point.value) ==> cells[6] == CellModel::Float(point.value))
                && ((last_point(segments) is None || crate::double::nan(
                last_point(segments)->0.value,
            )) ==> cells[6] is Empty)
            &&& columns[7] == "step"@ && (last_point(segments) matches Some(point) ==> cells[7]
                == CellModel::Int(point.step)) && (last_point(segments) is None
                ==> cells[7] is Empty)
            &&& columns[8] == "segments"@ && cells[8] == CellModel::Int(segments.len() as i64)
        }),
{
    lemma_total_count_nonnegative(series.summary.segments@);
}

proof fn lemma_total_count_nonnegative(segments: Seq<SegmentSummary>)
    ensures
        total_count(segments) >= 0,
    decreases segments.len(),
{
    if segments.len() > 0 {
        lemma_total_count_nonnegative(segments.drop_last());
    }
}

/// The words for the classes and for the states of a run.
pub proof fn law_words_of_classes_and_states()
    ensures
        class_word(SeriesClass::Scalar) == "scalar"@,
        class_word(SeriesClass::Histogram) == "histogram"@,
        class_word(SeriesClass::Image) == "image"@,
        class_word(SeriesClass::Text) == "text"@,
        status_word(RunStatus::Active) == "active"@,
        status_word(RunStatus::Idle) == "idle"@,
        status_word(RunStatus::Finished) == "done"@,
        status_word(RunStatus::Unknown) == "?"@,
{
}

/// The points of all series are counted together.
pub proof fn law_points_add_up(series: Seq<Series>, more: Series)
    requires
        total_points(series) + total_count(more.summary.segments@) <= u64::MAX,
    ensures
        total_points(Seq::empty()) == 0,
        total_points(series.push(more)) == total_points(series) + total_count(
            more.summary.segments@,
        ),
{
    lemma_total_count_nonnegative(more.summary.segments@);
    assert(series.push(more).drop_last() =~= series);
}

/// The step of a run is the greatest last step of its series: one of them has
/// it, and none is beyond it.
pub proof fn law_latest_step_is_the_greatest(series: Seq<Series>)
    ensures
        match latest_step(series) {
            Some(step) => {
                &&& exists|i: int|
                    0 <= i < series.len() && (last_point(
                        (#[trigger] series[i]).summary.segments@,
                    ) matches Some(point) && point.step == step)
                &&& forall|i: int|
                    0 <= i < series.len() ==> (last_point(
                        (#[trigger] series[i]).summary.segments@,
                    ) matches Some(point) ==> point.step <= step)
            },
            None => forall|i: int|
                0 <= i < series.len() ==> last_point((#[trigger] series[i]).summary.segments@)
                    is None,
        },
    decreases series.len(),
{
    if series.len() > 0 {
        let init = series.drop_last();
        law_latest_step_is_the_greatest(init);
        assert forall|i: int| 0 <= i < init.len() implies init[i] == series[i] by {}
        let n = series.len() - 1;
        if let Some(step) = latest_step(init) {
            let i = choose|i: int|
                0 <= i < init.len() && (last_point(
                    (#[trigger] init[i]).summary.segments@,
                ) matches Some(point) && point.step == step);
            assert(init[i] == series[i]);
        }
        assert(series[n] == series.last());
        assert forall|i: int| 0 <= i < series.len() implies (last_point(
            (#[trigger] series[i]).summary.segments@,
        ) matches Some(point) ==> latest_step(series) matches Some(step) && point.step
            <= step) by {
            if i < n {
                assert(init[i] == series[i]);
            }
        }
    }
}

impl<O: Fn(Operation, u64, u64) -> u64, I: Fn(i64) -> u64> Arith<O, I> {
    /// A run lasted from its first wall time to its last; where the last is
    /// not behind the first there is nothing to tell.
    pub proof fn law_run_lasts_from_first_to_last(self, run: RunModel, first: u64, last: u64, x: int, y: int)
        requires
            self.exact(),
            run.first_wall == Some(first),
            run.last_wall == Some(last),
            measures(first, x),
            measures(last, y),
            exact_up_to(y - x),
        ensures
            x < y ==> (self.span(run, true) matches Some(seconds) && measures(seconds, y - x))
                && self.span(run, false) == self.span(run, true),
            x == y ==> self.span(run, true) is None && (self.span(run, false) matches Some(seconds)
                && measures(seconds, 0)),
            y < x ==> self.span(run, true) is None && self.span(run, false) is None,
    {
        lemma_measures_order(first, last, x, y);
        self.lemma_exact_difference(last, first, y, x);
    }

    /// A run without wall times has no duration.
    pub proof fn law_no_walls_no_duration(self, run: RunModel, strict: bool)
        requires
            run.first_wall is None || run.last_wall is None,
        ensures
            self.span(run, strict) is None,
    {
    }

    /// The row of a run tells its name, its status, how many series it has,
    /// its points, its restarts and its step.
    pub proof fn law_row_tells_of_the_run(
        self,
        name: Seq<char>,
        run: Run,
        status: Seq<char>,
        strict: bool,
    )
        requires
            run.series.names().len() <= usize::MAX,
        ensures
            ({
                let row = self.row(name, run, status, strict);
                &&& row.name == name
                &&& row.status == status
                &&& row.series == run.series.names().len()
                &&& row.points == total_points(run.series.values())
                &&& row.restarts == run.preemptions
                &&& row.step == latest_step(run.series.values())
                &&& row.duration == self.span(run@, strict)
            }),
    {
    }
}

impl<F: Fn(&str) -> Option<u64>, P: Fn(u64) -> String> Wording<F, P> {
    /// Without a filter every run passes; a filter that reads as a predicate
    /// passes the runs that it holds of; any other passes the runs that have
    /// it in their name.
    pub proof fn law_filters_pass(
        self,
        text: Seq<char>,
        name: Seq<char>,
        status: Seq<char>,
        run: Run,
    )
        ensures
            self.passes(None, name, status, run),
            self.predicate(text) matches Ok(expr) ==> self.passes(Some(text), name, status, run)
                == self.holds(expr, name, status, run),
            self.predicate(text) is Err ==> self.passes(Some(text), name, status, run) == within(
                name,
                text,
            ),
    {
    }

    /// A run is shown exactly where the filter lets it through.
    pub proof fn law_shown_are_those_that_pass(
        self,
        runs: NameMap<Run>,
        filter: Option<Seq<char>>,
        now: Stamp,
        window: Stamp,
        n: nat,
        at: int,
    )
        requires
            0 <= at < n,
        ensures
            self.shown(runs, filter, now, window, n).contains(at) <==> self.passes(
                filter,
                runs.names()[at],
                status_word(status_of(runs.values()[at]@, now, window)),
                runs.values()[at],
            ),
        decreases n,
    {
        let before = self.shown(runs, filter, now, window, (n - 1) as nat);
        let more = before.push(n - 1);
        self.lemma_shown(runs, filter, now, window, (n - 1) as nat);
        if at < n - 1 {
            self.law_shown_are_those_that_pass(runs, filter, now, window, (n - 1) as nat, at);
            if before.contains(at) {
                let k = choose|k: int| 0 <= k < before.len() && before[k] == at;
                assert(more[k] == at);
            }
            if more.contains(at) {
                let k = choose|k: int| 0 <= k < more.len() && more[k] == at;
                assert(before[k] == at);
            }
        } else {
            assert(more[before.len() as int] == at);
            if before.contains(at) {
                let k = choose|k: int| 0 <= k < before.len() && before[k] == at;
                assert(before[k] < n - 1);
            }
        }
    }

    /// A cell reads as what it holds; an empty one as nothing; JSON has a gap
    /// for nothing and for what is not finite, and CSV keeps the text.
    pub proof fn law_cells_read_as_what_they_hold(self, text: Seq<char>, n: i64, bits: u64)
        ensures
            self.cell_text(CellModel::Text(text)) == text,
            integer_of(self.cell_text(CellModel::Int(n))) == Some(n),
            self.cell_text(CellModel::Float(bits)) == self.written(bits),
            self.cell_text(CellModel::Empty).len() == 0,
            json_value(
                self.json_cell(CellModel::Text(text)).subrange(
                    1,
                    self.json_cell(CellModel::Text(text)).len() - 1,
                ),
            ) == text,
            integer_of(self.json_cell(CellModel::Int(n))) == Some(n),
            crate::double::finite(bits) ==> self.json_cell(CellModel::Float(bits)) == self.written(
                bits,
            ),
            !crate::double::finite(bits) ==> self.json_cell(CellModel::Float(bits)) == "null"@,
            self.json_cell(CellModel::Empty) == "null"@,
    {
        law_integer_round_trip(n);
        law_json_round_trip(text);
        let cell = self.json_cell(CellModel::Text(text));
        assert(cell.subrange(1, cell.len() - 1) =~= json_chars(text));
    }

    /// Each format renders the table in its encoding.
    pub proof fn law_formats_render(self, table: TableModel)
        ensures
            self.rendered(table, Format::Text) == self.text_table(table),
            self.rendered(table, Format::Csv) == self.csv_table(table),
            self.rendered(table, Format::Json) == self.json_table(table),
    {
    }

    /// Fields that need no quotes read back from their line, split at its
    /// commas.
    pub proof fn law_csv_row_splits_back(self, fields: Seq<Seq<char>>)
        requires
            fields.len() > 0,
            forall|i: int| 0 <= i < fields.len() ==> !csv_special(#[trigger] fields[i]),
        ensures
            ({
                let line = self.csv_row(fields);
                line.last() == '\n' && pieces(line.drop_last(), ',') == fields
            }),
    {
        let plain = fields.map_values(|field: Seq<char>| csv_field(field));
        assert(plain =~= fields);
        assert forall|i: int| 0 <= i < fields.len() implies !(#[trigger] fields[i]).contains(
            ',',
        ) by {
            if fields[i].contains(',') {
                let k = choose|k: int| 0 <= k < fields[i].len() && fields[i][k] == ',';
                assert(csv_mark(fields[i][k]));
                assert(csv_special(fields[i]));
            }
        }
        lemma_between_splits_back(fields, ',');
        let line = self.csv_row(fields);
        assert(line.drop_last() =~= with_between(fields, seq![',']));
    }

    /// A table in CSV is the line of its columns, then a line for each row, in
    /// order.
    pub proof fn law_csv_table_has_a_line_per_row(
        self,
        columns: Seq<Seq<char>>,
        rows: Seq<Seq<CellModel>>,
        row: Seq<CellModel>,
    )
        ensures
            self.csv_table(TableModel { columns, rows: Seq::empty() }) == self.csv_row(columns),
            self.csv_table(TableModel { columns, rows: rows.push(row) }) == self.csv_table(
                TableModel { columns, rows },
            ) + self.csv_row(self.row_texts(row)),
    {
        let none = Seq::<Seq<CellModel>>::empty();
        let line = |row: Seq<CellModel>| self.csv_row(self.row_texts(row));
        assert(none.map_values(line) =~= Seq::<Seq<char>>::empty());
        assert(self.csv_rows(none) =~= Seq::<char>::empty());
        assert(self.csv_row(columns) + self.csv_rows(none) =~= self.csv_row(columns));
        let more = rows.push(row);
        assert(more.map_values(line) =~= rows.map_values(line).push(line(row)));
        assert(rows.map_values(line).push(line(row)).drop_last() =~= rows.map_values(line));
        assert(self.csv_rows(more) == self.csv_rows(rows) + line(row));
        assert(self.csv_row(columns) + (self.csv_rows(rows) + line(row)) =~= self.csv_row(columns)
            + self.csv_rows(rows) + line(row));
    }

    /// A column is as wide as its name or its widest cell.
    pub proof fn law_column_fits_its_cells(self, table: TableModel, column: int, n: nat, at: int)
        requires
            0 <= at < n,
        ensures
            self.column_width(table, column, n) >= table.columns[column].len(),
            self.column_width(table, column, n) >= self.cell_text(table.rows[at][column]).len(),
            self.column_width(table, column, n) == table.columns[column].len() || exists|i: int|
                0 <= i < n && self.column_width(table, column, n) == self.cell_text(
                    #[trigger] table.rows[i][column],
                ).len(),
        decreases n,
    {
        reveal_with_fuel(Wording::column_width, 2);
        if n > 1 {
            let i = if at < n - 1 {
                at
            } else {
                0
            };
            self.law_column_fits_its_cells(table, column, (n - 1) as nat, i);
        }
        assert(table.rows[n - 1][column] == table.rows[n - 1][column]);
    }
}

/// Texts without a mark read back when what joins them is split at it.
pub proof fn lemma_between_splits_back(parts: Seq<Seq<char>>, mark: char)
    requires
        parts.len() > 0,
        forall|i: int| 0 <= i < parts.len() ==> !(#[trigger] parts[i]).contains(mark),
    ensures
        pieces(with_between(parts, seq![mark]), mark) == parts,
    decreases parts.len(),
{
    let whole = with_between(parts, seq![mark]);
    if parts.len() == 1 {
        lemma_first_index(whole, mark);
        assert(pieces(whole, mark) =~= parts);
    } else {
        let rest = parts.skip(1);
        lemma_between_front(parts, seq![mark]);
        lemma_first_behind(parts[0], mark, with_between(rest, seq![mark]));
        let n = parts[0].len() as int;
        assert(whole.take(n) =~= parts[0]);
        assert(whole.skip(n + 1) =~= with_between(rest, seq![mark]));
        assert forall|i: int| 0 <= i < rest.len() implies !(#[trigger] rest[i]).contains(
            mark,
        ) by {
            assert(rest[i] == parts[i + 1]);
        }
        lemma_between_splits_back(rest, mark);
        assert(pieces(whole, mark) =~= parts);
    }
}

proof fn lemma_between_front(parts: Seq<Seq<char>>, between: Seq<char>)
    requires
        parts.len() > 1,
    ensures
        with_between(parts, between) == parts[0] + between + with_between(parts.skip(1), between),
    decreases parts.len(),
{
    let init = parts.drop_last();
    if parts.len() > 2 {
        lemma_between_front(init, between);
        assert(init.skip(1) =~= parts.skip(1).drop_last());
        assert(with_between(parts, between) =~= parts[0] + between + with_between(
            parts.skip(1),
            between,
        ));
    } else {
        assert(init.len() == 1 && parts.skip(1).len() == 1);
        assert(with_between(init, between) == parts[0]);
        assert(with_between(parts.skip(1), between) == parts[1]);
        assert(parts.last() == parts[1]);
    }
}

/// A filled text is as wide as asked for, or as it was; numbers stand right,
/// the rest left, and what fills is blank.
pub proof fn law_padding_fills_with_blanks(text: Seq<char>, width: nat, right: bool)
    ensures
        ({
            let all = padded(text, width, right);
            let n = text.len() as int;
            &&& all.len() == if n < width {
                width as int
            } else {
                n
            }
            &&& right ==> all.skip(all.len() - n) == text && forall|i: int|
                0 <= i < all.len() - n ==> #[trigger] all[i] == ' '
            &&& !right ==> all.take(n) == text && forall|i: int|
                n <= i < all.len() ==> #[trigger] all[i] == ' '
        }),
{
    let all = padded(text, width, right);
    let n = text.len() as int;
    if right {
        assert(all.skip(all.len() - n) =~= text);
    } else {
        assert(all.take(n) =~= text);
    }
}

/// Spans are told in seconds up to two minutes, in minutes and seconds up to
/// an hour, in hours and minutes up to two days, and in days and hours beyond.
pub proof fn law_spans_are_told(big: nat, small: nat, rest: nat)
    ensures
        big < 120 ==> span_text(big) == decimal_text(big) + "s"@,
        2 <= big < 60 && small < 60 ==> span_text(60 * big + small) == decimal_text(big) + "m"@
            + two_figures(small) + "s"@,
        1 <= big < 48 && small < 60 && rest < 60 ==> span_text(3600 * big + 60 * small + rest)
            == decimal_text(big) + "h"@ + two_figures(small) + "m"@,
        2 <= big && small < 24 && rest < 3600 ==> span_text(86_400 * big + 3600 * small + rest)
            == decimal_text(big) + "d"@ + two_figures(small) + "h"@,
{
    reveal_strlit("s");
    reveal_strlit("m");
    reveal_strlit("h");
    reveal_strlit("d");
    if big < 120 {
        assert(span_text(big) =~= decimal_text(big) + "s"@);
    }
    if small < 60 {
        lemma_two_figures(small);
        if 2 <= big < 60 {
            assert(span_text(60 * big + small) =~= decimal_text(big) + "m"@ + two_figures(small)
                + "s"@);
        }
        if 1 <= big < 48 && rest < 60 {
            assert((3600 * big + 60 * small + rest) / 3600 == big);
            assert((3600 * big + 60 * small + rest) % 3600 == 60 * small + rest);
            assert(span_text(3600 * big + 60 * small + rest) =~= decimal_text(big) + "h"@
                + two_figures(small) + "m"@);
        }
    }
    if 2 <= big && small < 24 && rest < 3600 {
        lemma_two_figures(small);
        assert((86_400 * big + 3600 * small + rest) / 86_400 == big);
        assert((86_400 * big + 3600 * small + rest) % 86_400 == 3600 * small + rest);
        assert(span_text(86_400 * big + 3600 * small + rest) =~= decimal_text(big) + "d"@
            + two_figures(small) + "h"@);
    }
}

/// A number below a hundred in two figures.
pub open spec fn two_figures(n: nat) -> Seq<char> {
    seq![(0x30 + n / 10) as char, (0x30 + n % 10) as char]
}

proof fn lemma_two_figures(n: nat)
    requires
        n < 60,
    ensures
        two_digits(n) == two_figures(n),
{
    reveal_with_fuel(decimal_text, 2);
    assert(two_digits(n) =~= two_figures(n));
}

/// A duration is told where it is a number that is not below zero, to the
/// nearest second.
pub proof fn law_durations_are_told_in_seconds(bits: u64, n: int)
    requires
        measures(bits, 1024 * n),
        n <= 0xFFFF_FFFF,
    ensures
        n >= 0 ==> duration_text(bits) == span_text(n as nat),
        n < 0 ==> duration_text(bits).len() == 0,
{
    lemma_measures_zero();
    lemma_measures_order(bits, 0, 1024 * n, 0);
    if n >= 0 {
        lemma_pow2_pos(1064);
        lemma_pow2_adds(10, 1064);
        lemma2_to64();
        let p = pow2(1064) as int;
        let q = pow2(1074) as int;
        assert(q == 1024 * p);
        assert((1024 * n) * p == n * q) by (nonlinear_arith)
            requires
                q == 1024 * p,
        ;
        assert(units(bits) == n * q) by {
            assert(n * q >= 0) by (nonlinear_arith)
                requires
                    n >= 0,
                    q > 0,
            ;
        }
        vstd::arithmetic::div_mod::lemma_div_multiples_vanish(n, q);
        vstd::arithmetic::div_mod::lemma_mod_multiples_basic(n, q);
        assert((n * q) / q == n) by {
            vstd::arithmetic::mul::lemma_mul_is_commutative(n, q);
        }
    }
}

} // verus!
