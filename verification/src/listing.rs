//! The runs a filter lets through, and the tables printed of them: the runs
//! table, the summary of one run, and the flat export.
use vstd::prelude::*;

use crate::arith::{Arith, Operation};
use crate::discover::{contains_text, within};
use crate::double::{is_below, is_nan};
use crate::hparams::{HparamModel, HparamValue};
use crate::names::{in_order, lists, sorted, NameMap};
use crate::numeric::{Moments, Wording};
use crate::predicate::{text_of_truth, truth_text, ExprModel, Predicate};
use crate::project::{sum_up, summed};
use crate::run::{status_of, Run, RunModel, RunStatus, Stamp};
use crate::series::{
    last_point, merge_step, merges, total_count, total_max, total_min, SegmentSummary, Series,
    SeriesClass,
};
use crate::table::{
    duration_text, fmt_duration, join_texts, row_model, with_between, Cell, CellModel, Format,
    Table, TableModel,
};
use crate::text::{push_text, texts};
use crate::warm::runs_wf;

verus! {

/// The word for a status.
pub open spec fn status_word(status: RunStatus) -> Seq<char> {
    match status {
        RunStatus::Active => "active"@,
        RunStatus::Idle => "idle"@,
        RunStatus::Finished => "done"@,
        RunStatus::Unknown => "?"@,
    }
}

/// The word for a run's status at a time.
pub open spec fn status_at(run: RunModel, now: Stamp, window: Stamp) -> Seq<char> {
    status_word(status_of(run, now, window))
}

/// The word for a run's status at a time.
pub fn status_text(run: &Run, now: Stamp, window: Stamp) -> (text: &'static str)
    ensures
        text@ == status_at(run@, now, window),
{
    match run.status(now, window) {
        RunStatus::Active => "active",
        RunStatus::Idle => "idle",
        RunStatus::Finished => "done",
        RunStatus::Unknown => "?",
    }
}

impl<F: Fn(&str) -> Option<u64>, P: Fn(u64) -> String> Wording<F, P> {
    /// A filter read as a predicate, where it reads as one.
    pub open spec fn filter_of(self, filter: Option<Seq<char>>) -> Option<ExprModel> {
        match filter {
            None => None,
            Some(text) => match self.predicate(text) {
                Ok(expr) => Some(expr),
                Err(_) => None,
            },
        }
    }

    /// Whether a filter lets a run through: everything passes where there is
    /// none, a predicate decides where the filter reads as one, and otherwise
    /// the filter has to stand in the run's name.
    pub open spec fn passes(
        self,
        filter: Option<Seq<char>>,
        name: Seq<char>,
        status: Seq<char>,
        run: Run,
    ) -> bool {
        match (filter, self.filter_of(filter)) {
            (None, _) => true,
            (Some(_), Some(expr)) => self.holds(expr, name, status, run),
            (Some(text), None) => within(name, text),
        }
    }

    /// Where the runs stand, of the first `n`, that a filter lets through.
    pub open spec fn shown(
        self,
        runs: NameMap<Run>,
        filter: Option<Seq<char>>,
        now: Stamp,
        window: Stamp,
        n: nat,
    ) -> Seq<int>
        decreases n,
    {
        if n == 0 {
            Seq::empty()
        } else {
            let before = self.shown(runs, filter, now, window, (n - 1) as nat);
            let run = runs.values()[n - 1];
            if self.passes(filter, runs.names()[n - 1], status_at(run@, now, window), run) {
                before.push(n - 1)
            } else {
                before
            }
        }
    }

    /// Where the runs stand that a filter lets through.
    pub open spec fn all_shown(
        self,
        runs: NameMap<Run>,
        filter: Option<Seq<char>>,
        now: Stamp,
        window: Stamp,
    ) -> Seq<int> {
        self.shown(runs, filter, now, window, runs.names().len())
    }

    /// What is shown stands in the map, in its order.
    pub proof fn lemma_shown(
        self,
        runs: NameMap<Run>,
        filter: Option<Seq<char>>,
        now: Stamp,
        window: Stamp,
        n: nat,
    )
        ensures
            ascending(self.shown(runs, filter, now, window, n), n),
        decreases n,
    {
        if n > 0 {
            self.lemma_shown(runs, filter, now, window, (n - 1) as nat);
            let before = self.shown(runs, filter, now, window, (n - 1) as nat);
            assert(ascending(before, (n - 1) as nat));
            assert(ascending(before.push(n - 1), n));
        }
    }
}

/// Places below `n`, each before the next.
pub open spec fn ascending(list: Seq<int>, n: nat) -> bool {
    &&& forall|k: int| 0 <= k < list.len() ==> 0 <= #[trigger] list[k] < n
    &&& forall|j: int, k: int| 0 <= j < k < list.len() ==> list[j] < list[k]
}

/// Reads a filter as a predicate, where it reads as one.
pub fn parse_filter<F: Fn(&str) -> Option<u64>, P: Fn(u64) -> String>(
    filter: Option<&str>,
    wording: &Wording<F, P>,
) -> (predicate: Option<Predicate>)
    requires
        wording.ok(),
    ensures
        predicate_model(predicate) == wording.filter_of(view_of(filter)),
{
    match filter {
        None => None,
        Some(text) => match Predicate::parse(text, wording) {
            Ok(predicate) => Some(predicate),
            Err(_) => None,
        },
    }
}

/// What an optional predicate holds.
pub open spec fn predicate_model(predicate: Option<Predicate>) -> Option<ExprModel> {
    match predicate {
        Some(p) => Some(p@),
        None => None,
    }
}

/// What an optional text holds.
pub open spec fn view_of(text: Option<&str>) -> Option<Seq<char>> {
    match text {
        Some(t) => Some(t@),
        None => None,
    }
}

/// Whether a filter lets a run through, with the filter read beforehand.
pub fn run_passes<F: Fn(&str) -> Option<u64>, P: Fn(u64) -> String>(
    filter: Option<&str>,
    predicate: Option<&Predicate>,
    name: &str,
    status: &str,
    run: &Run,
    wording: &Wording<F, P>,
) -> (passes: bool)
    requires
        wording.ok(),
        run.wf(),
    ensures
        passes == match (view_of(filter), predicate) {
            (None, _) => true,
            (Some(_), Some(p)) => wording.holds(p@, name@, status@, *run),
            (Some(text), None) => within(name@, text),
        },
{
    match filter {
        None => true,
        Some(text) => match predicate {
            Some(predicate) => predicate.matches(name, status, run, wording),
            None => contains_text(name, text),
        },
    }
}

/// Places, taken as numbers.
pub open spec fn places(list: Seq<usize>) -> Seq<int> {
    list.map_values(|at: usize| at as int)
}

/// Finds the runs that a filter lets through.
pub fn shown_runs<F: Fn(&str) -> Option<u64>, P: Fn(u64) -> String>(
    runs: &NameMap<Run>,
    filter: Option<&str>,
    now: Stamp,
    window: Stamp,
    wording: &Wording<F, P>,
) -> (shown: Vec<usize>)
    requires
        wording.ok(),
        runs_wf(*runs),
    ensures
        places(shown@) == wording.all_shown(*runs, view_of(filter), now, window),
{
    let predicate = parse_filter(filter, wording);
    let mut shown: Vec<usize> = Vec::new();
    let mut i: usize = 0;
    assert(places(shown@) =~= Seq::<int>::empty());
    while i < runs.len()
        invariant
            i <= runs.names().len(),
            wording.ok(),
            runs_wf(*runs),
            predicate_model(predicate) == wording.filter_of(view_of(filter)),
            places(shown@) == wording.shown(*runs, view_of(filter), now, window, i as nat),
        decreases runs.names().len() - i,
    {
        let run = runs.value_at(i);
        let status = status_text(run, now, window);
        if run_passes(filter, predicate.as_ref(), runs.name_at(i), status, run, wording) {
            let ghost before = shown@;
            shown.push(i);
            assert(places(shown@) =~= places(before).push(i as int));
        }
        i += 1;
    }
    shown
}

/// A count, capped at what a counter holds.
pub open spec fn capped(n: int) -> u64 {
    if n <= u64::MAX {
        n as u64
    } else {
        u64::MAX
    }
}

/// How many points the series hold together.
pub open spec fn total_points(series: Seq<Series>) -> u64
    decreases series.len(),
{
    if series.len() == 0 {
        0
    } else {
        summed(
            total_points(series.drop_last()),
            capped(total_count(series.last().summary.segments@)),
        )
    }
}

/// The greatest last step of the series.
pub open spec fn latest_step(series: Seq<Series>) -> Option<i64>
    decreases series.len(),
{
    if series.len() == 0 {
        None
    } else {
        let before = latest_step(series.drop_last());
        match last_point(series.last().summary.segments@) {
            None => before,
            Some(point) => match before {
                Some(step) if step > point.step => before,
                _ => Some(point.step),
            },
        }
    }
}

/// Counts the points of all series of a run.
pub fn count_points(run: &Run) -> (points: u64)
    requires
        run.wf(),
    ensures
        points == total_points(run.series.values()),
{
    let ghost all = run.series.values();
    let mut points: u64 = 0;
    let mut i: usize = 0;
    assert(all.take(0) =~= Seq::<Series>::empty());
    while i < run.series.len()
        invariant
            i <= all.len(),
            run.wf(),
            all == run.series.values(),
            points == total_points(all.take(i as int)),
        decreases all.len() - i,
    {
        assert(all.take(i + 1).drop_last() =~= all.take(i as int));
        points = sum_up(points, run.series.value_at(i).summary.count_capped());
        i += 1;
    }
    assert(all.take(all.len() as int) =~= all);
    points
}

/// Finds the greatest last step of all series of a run.
pub fn find_latest_step(run: &Run) -> (step: Option<i64>)
    requires
        run.wf(),
    ensures
        step == latest_step(run.series.values()),
{
    let ghost all = run.series.values();
    let mut step: Option<i64> = None;
    let mut i: usize = 0;
    assert(all.take(0) =~= Seq::<Series>::empty());
    while i < run.series.len()
        invariant
            i <= all.len(),
            run.wf(),
            all == run.series.values(),
            step == latest_step(all.take(i as int)),
        decreases all.len() - i,
    {
        assert(all.take(i + 1).drop_last() =~= all.take(i as int));
        if let Some(point) = run.series.value_at(i).summary.last() {
            let known = match step {
                Some(step) => step > point.step,
                None => false,
            };
            if !known {
                step = Some(point.step);
            }
        }
        i += 1;
    }
    assert(all.take(all.len() as int) =~= all);
    step
}

/// One row of the runs table.
pub struct RunRow {
    /// The run's name.
    pub name: String,
    /// The word for its status.
    pub status: &'static str,
    /// How many series it has.
    pub series: usize,
    /// How many points they hold.
    pub points: u64,
    /// How often it was restarted.
    pub restarts: u64,
    /// Its greatest last step.
    pub step: Option<i64>,
    /// The seconds between its first and its last point.
    pub duration: Option<u64>,
}

/// What a row holds.
#[verifier::ext_equal]
pub struct RowModel {
    pub name: Seq<char>,
    pub status: Seq<char>,
    pub series: usize,
    pub points: u64,
    pub restarts: u64,
    pub step: Option<i64>,
    pub duration: Option<u64>,
}

impl View for RunRow {
    type V = RowModel;

    open spec fn view(&self) -> RowModel {
        RowModel {
            name: self.name@,
            status: self.status@,
            series: self.series,
            points: self.points,
            restarts: self.restarts,
            step: self.step,
            duration: self.duration,
        }
    }
}

impl<O: Fn(Operation, u64, u64) -> u64, I: Fn(i64) -> u64> Arith<O, I> {
    /// The seconds from the first wall time to the last: only a later last,
    /// or also an equal one.
    pub open spec fn span(self, run: RunModel, strict: bool) -> Option<u64> {
        match (run.first_wall, run.last_wall) {
            (Some(first), Some(last)) => if crate::double::below(first, last) || !strict
                && crate::double::equal(first, last) {
                Some(self.difference(last, first))
            } else {
                None
            },
            _ => None,
        }
    }

    /// The row of a run.
    pub open spec fn row(self, name: Seq<char>, run: Run, status: Seq<char>, strict: bool) -> RowModel {
        RowModel {
            name,
            status,
            series: run.series.names().len() as usize,
            points: total_points(run.series.values()),
            restarts: run.preemptions,
            step: latest_step(run.series.values()),
            duration: self.span(run@, strict),
        }
    }

    fn measure_span(&self, run: &Run, strict: bool) -> (span: Option<u64>)
        requires
            self.ok(),
        ensures
            span == self.span(run@, strict),
    {
        match run.first_wall {
            None => None,
            Some(first) => match run.last_wall {
                None => None,
                Some(last) => {
                    if is_below(first, last) || !strict && crate::double::is_equal(first, last) {
                        Some(self.minus(last, first))
                    } else {
                        None
                    }
                },
            },
        }
    }

    /// Makes the row of a run.
    pub fn run_row(&self, name: &String, run: &Run, status: &'static str, strict: bool) -> (row: RunRow)
        requires
            self.ok(),
            run.wf(),
        ensures
            row@ == self.row(name@, *run, status@, strict),
    {
        RunRow {
            name: name.clone(),
            status,
            series: run.series.len(),
            points: count_points(run),
            restarts: run.preemptions,
            step: find_latest_step(run),
            duration: self.measure_span(run, strict),
        }
    }
}

/// The columns of the runs table.
pub open spec fn run_columns() -> Seq<Seq<char>> {
    seq![
        "run"@,
        "status"@,
        "series"@,
        "points"@,
        "restarts"@,
        "step"@,
        "duration"@,
    ]
}

/// The cells of a row of the runs table.
pub open spec fn row_cells(row: RowModel) -> Seq<CellModel> {
    seq![
        CellModel::Text(row.name),
        CellModel::Text(row.status),
        CellModel::Int(row.series as i64),
        CellModel::Int(row.points as i64),
        CellModel::Int(row.restarts as i64),
        match row.step {
            Some(step) => CellModel::Int(step),
            None => CellModel::Empty,
        },
        match row.duration {
            Some(seconds) => CellModel::Text(duration_text(seconds)),
            None => CellModel::Empty,
        },
    ]
}

/// Names the columns of the runs table.
pub fn name_run_columns() -> (columns: Vec<String>)
    ensures
        texts(columns@) == run_columns(),
{
    let columns = vec![
        "run".to_owned(),
        "status".to_owned(),
        "series".to_owned(),
        "points".to_owned(),
        "restarts".to_owned(),
        "step".to_owned(),
        "duration".to_owned(),
    ];
    assert(texts(columns@) =~= run_columns());
    columns
}

/// Makes the cells of a row of the runs table.
pub fn cells_of_row(row: &RunRow) -> (cells: Vec<Cell>)
    ensures
        row_model(cells@) == row_cells(row@),
{
    let cells = vec![
        Cell::Text(row.name.clone()),
        Cell::Text(row.status.to_owned()),
        Cell::Int(row.series as i64),
        Cell::Int(row.points as i64),
        Cell::Int(row.restarts as i64),
        match row.step {
            Some(step) => Cell::Int(step),
            None => Cell::Empty,
        },
        match row.duration {
            Some(seconds) => Cell::Text(fmt_duration(seconds)),
            None => Cell::Empty,
        },
    ];
    assert(row_model(cells@) =~= row_cells(row@));
    cells
}

/// The runs table.
pub open spec fn runs_table<F: Fn(&str) -> Option<u64>, P: Fn(u64) -> String, O: Fn(Operation, u64, u64) -> u64, I: Fn(i64) -> u64>(
    wording: Wording<F, P>,
    arith: Arith<O, I>,
    runs: NameMap<Run>,
    filter: Option<Seq<char>>,
    now: Stamp,
    window: Stamp,
) -> TableModel {
    TableModel {
        columns: run_columns(),
        rows: wording.all_shown(runs, filter, now, window).map_values(
            |at: int|
                row_cells(
                    arith.row(
                        runs.names()[at],
                        runs.values()[at],
                        status_at(runs.values()[at]@, now, window),
                        true,
                    ),
                ),
        ),
    }
}

/// Makes the runs table.
pub fn list_runs<F: Fn(&str) -> Option<u64>, P: Fn(u64) -> String, O: Fn(Operation, u64, u64) -> u64, I: Fn(i64) -> u64>(
    runs: &NameMap<Run>,
    filter: Option<&str>,
    now: Stamp,
    window: Stamp,
    wording: &Wording<F, P>,
    arith: &Arith<O, I>,
) -> (table: Table)
    requires
        wording.ok(),
        arith.ok(),
        runs_wf(*runs),
    ensures
        table@ == runs_table(*wording, *arith, *runs, view_of(filter), now, window),
        table@.wf(),
{
    let shown = shown_runs(runs, filter, now, window, wording);
    let ghost list = wording.all_shown(*runs, view_of(filter), now, window);
    let ghost goal = runs_table(*wording, *arith, *runs, view_of(filter), now, window);
    proof {
        wording.lemma_shown(*runs, view_of(filter), now, window, runs.names().len());
    }
    let mut rows: Vec<Vec<Cell>> = Vec::new();
    let mut k: usize = 0;
    while k < shown.len()
        invariant
            k <= shown@.len(),
            arith.ok(),
            runs_wf(*runs),
            places(shown@) == list,
            ascending(list, runs.names().len()),
            goal == runs_table(*wording, *arith, *runs, view_of(filter), now, window),
            list == wording.all_shown(*runs, view_of(filter), now, window),
            rows@.len() == k,
            forall|j: int| 0 <= j < k ==> row_model(#[trigger] rows@[j]@) == goal.rows[j],
        decreases shown@.len() - k,
    {
        assert(list[k as int] == shown@[k as int]);
        let at: usize = shown[k];
        let run = runs.value_at(at);
        let row = arith.run_row(runs.name_at(at), run, status_text(run, now, window), true);
        rows.push(cells_of_row(&row));
        k += 1;
    }
    assert(places(shown@).len() == shown@.len());
    let table = Table { columns: name_run_columns(), rows };
    assert(table@.rows =~= goal.rows);
    table
}

/// A finished merge.
pub open spec fn merged<C: Fn(Moments, Moments) -> Moments>(
    combine: C,
    segments: Seq<SegmentSummary>,
) -> Moments
    decreases segments.len(),
{
    if segments.len() == 0 {
        Moments::start()
    } else {
        choose|next: Moments|
            merge_step(
                combine,
                merged(combine, segments.drop_last()),
                segments.last().moments,
                next,
            )
    }
}

/// Moments can always be combined, and in one way.
pub open spec fn combines<C: Fn(Moments, Moments) -> Moments>(combine: C) -> bool {
    &&& forall|a: Moments, b: Moments| #[trigger] call_requires(combine, (a, b))
    &&& forall|a: Moments, b: Moments, x: Moments, y: Moments| #[trigger]
        call_ensures(combine, (a, b), x) && #[trigger] call_ensures(combine, (a, b), y) ==> x == y
}

/// Merging comes to one end.
proof fn lemma_merged<C: Fn(Moments, Moments) -> Moments>(
    combine: C,
    segments: Seq<SegmentSummary>,
    steps: Seq<Moments>,
)
    requires
        combines(combine),
        merges(combine, segments, steps),
    ensures
        steps.last() == merged(combine, segments),
    decreases segments.len(),
{
    if segments.len() > 0 {
        let n = segments.len() as int;
        let front = segments.drop_last();
        assert forall|i: int| 0 <= i < front.len() implies merge_step(
            combine,
            steps.drop_last()[i],
            (#[trigger] front[i]).moments,
            steps.drop_last()[i + 1],
        ) by {
            assert(front[i] == segments[i]);
        }
        lemma_merged(combine, front, steps.drop_last());
        assert(steps.drop_last().last() == steps[n - 1]);
        assert(segments[n - 1] == segments.last());
        assert(merge_step(combine, steps[n - 1], segments[n - 1].moments, steps[n]));
        assert(merge_step(
            combine,
            merged(combine, front),
            segments.last().moments,
            merged(combine, segments),
        ));
    }
}

/// The word for a series class.
pub open spec fn class_word(class: SeriesClass) -> Seq<char> {
    match class {
        SeriesClass::Scalar => "scalar"@,
        SeriesClass::Histogram => "histogram"@,
        SeriesClass::Image => "image"@,
        SeriesClass::Text => "text"@,
        _ => "?"@,
    }
}

/// The word for a series class.
pub fn class_text(class: SeriesClass) -> (text: &'static str)
    ensures
        text@ == class_word(class),
{
    match class {
        SeriesClass::Scalar => "scalar",
        SeriesClass::Histogram => "histogram",
        SeriesClass::Image => "image",
        SeriesClass::Text => "text",
        _ => "?",
    }
}

/// A number where there is one.
pub open spec fn number_cell(bits: Option<u64>) -> CellModel {
    match bits {
        Some(bits) => CellModel::Float(bits),
        None => CellModel::Empty,
    }
}

/// A whole number where there is one.
pub open spec fn whole_cell(n: Option<i64>) -> CellModel {
    match n {
        Some(n) => CellModel::Int(n),
        None => CellModel::Empty,
    }
}

/// The columns of a run's summary.
pub open spec fn summary_columns() -> Seq<Seq<char>> {
    seq![
        "tag"@,
        "class"@,
        "count"@,
        "min"@,
        "max"@,
        "mean"@,
        "last"@,
        "step"@,
        "segments"@,
    ]
}

/// The row of a series in a run's summary: exact accumulators, and a last
/// value only where it is a number.
pub open spec fn summary_row<C: Fn(Moments, Moments) -> Moments>(
    combine: C,
    tag: Seq<char>,
    series: Series,
) -> Seq<CellModel> {
    let segments = series.summary.segments@;
    let last = last_point(segments);
    let moments = merged(combine, segments);
    seq![
        CellModel::Text(tag),
        CellModel::Text(class_word(series.class)),
        CellModel::Int(capped(total_count(segments)) as i64),
        number_cell(total_min(segments)),
        number_cell(total_max(segments)),
        number_cell(
            if moments.count > 0 {
                Some(moments.mean)
            } else {
                None
            },
        ),
        if last is Some && !crate::double::nan(last->0.value) {
            CellModel::Float(last->0.value)
        } else {
            CellModel::Empty
        },
        whole_cell(
            match last {
                Some(point) => Some(point.step),
                None => None,
            },
        ),
        CellModel::Int(segments.len() as i64),
    ]
}

/// A cell of a number where there is one.
fn cell_of_number(bits: Option<u64>) -> (cell: Cell)
    ensures
        cell@ == number_cell(bits),
{
    match bits {
        Some(bits) => Cell::Float(bits),
        None => Cell::Empty,
    }
}

fn summarize_series<C: Fn(Moments, Moments) -> Moments>(
    tag: &String,
    series: &Series,
    combine: &C,
) -> (cells: Vec<Cell>)
    requires
        combines(*combine),
    ensures
        row_model(cells@) == summary_row(*combine, tag@, *series),
{
    let summary = &series.summary;
    let last = summary.last();
    let moments = summary.moments(combine);
    proof {
        let steps = choose|steps: Seq<Moments>| #[trigger]
            merges(*combine, summary.segments@, steps) && moments == steps.last();
        lemma_merged(*combine, summary.segments@, steps);
    }
    let last_cell = match last {
        Some(point) => if is_nan(point.value) {
            Cell::Empty
        } else {
            Cell::Float(point.value)
        },
        None => Cell::Empty,
    };
    let step_cell = match last {
        Some(point) => Cell::Int(point.step),
        None => Cell::Empty,
    };
    let cells = vec![
        Cell::Text(tag.clone()),
        Cell::Text(class_text(series.class).to_owned()),
        Cell::Int(summary.count_capped() as i64),
        cell_of_number(summary.min()),
        cell_of_number(summary.max()),
        cell_of_number(moments.mean()),
        last_cell,
        step_cell,
        Cell::Int(summary.segments.len() as i64),
    ];
    assert(row_model(cells@) =~= summary_row(*combine, tag@, *series));
    cells
}

/// The summary of a run.
pub open spec fn summary_table<C: Fn(Moments, Moments) -> Moments>(combine: C, run: Run) -> TableModel {
    TableModel {
        columns: summary_columns(),
        rows: Seq::new(
            run.series.names().len(),
            |i: int| summary_row(combine, run.series.names()[i], run.series.values()[i]),
        ),
    }
}

/// Makes the summary of a run.
pub fn summarize<C: Fn(Moments, Moments) -> Moments>(run: &Run, combine: &C) -> (table: Table)
    requires
        combines(*combine),
        run.wf(),
    ensures
        table@ == summary_table(*combine, *run),
        table@.wf(),
{
    let ghost goal = summary_table(*combine, *run);
    let mut rows: Vec<Vec<Cell>> = Vec::new();
    let mut i: usize = 0;
    while i < run.series.len()
        invariant
            i <= run.series.names().len(),
            combines(*combine),
            run.wf(),
            goal == summary_table(*combine, *run),
            rows@.len() == i,
            forall|j: int| 0 <= j < i ==> row_model(#[trigger] rows@[j]@) == goal.rows[j],
        decreases run.series.names().len() - i,
    {
        rows.push(summarize_series(run.series.name_at(i), run.series.value_at(i), combine));
        i += 1;
    }
    let columns = vec![
        "tag".to_owned(),
        "class".to_owned(),
        "count".to_owned(),
        "min".to_owned(),
        "max".to_owned(),
        "mean".to_owned(),
        "last".to_owned(),
        "step".to_owned(),
        "segments".to_owned(),
    ];
    let table = Table { columns, rows };
    assert(table@.columns =~= summary_columns());
    assert(table@.rows =~= goal.rows);
    table
}

impl<F: Fn(&str) -> Option<u64>, P: Fn(u64) -> String> Wording<F, P> {
    /// A hyperparameter as text.
    pub open spec fn hparam_word(self, value: HparamModel) -> Seq<char> {
        match value {
            HparamModel::Number(bits) => self.written(bits),
            HparamModel::Text(text) => text,
            HparamModel::Truth(truth) => truth_text(truth),
        }
    }

    /// A hyperparameter as text.
    pub fn hparam_text(&self, value: &HparamValue) -> (text: String)
        requires
            self.ok(),
        ensures
            text@ == self.hparam_word(value@),
    {
        match value {
            HparamValue::F64(bits) => self.write(*bits),
            HparamValue::String(text) => text.clone(),
            HparamValue::Bool(truth) => text_of_truth(*truth),
        }
    }

    /// The hyperparameters of a run, each with its value.
    pub open spec fn hparam_pairs(self, run: Run) -> Seq<Seq<char>> {
        Seq::new(
            run.hparams.names().len(),
            |i: int| run.hparams.names()[i] + "="@ + self.hparam_word(run.hparams.values()[i]@),
        )
    }

    /// What is printed above a run's summary: its hyperparameters, where it
    /// has some and the format is for reading.
    pub open spec fn summary_head(self, run: Run, format: Format) -> Seq<char> {
        if run.hparams.names().len() > 0 && format == Format::Text {
            "hparams: "@ + with_between(self.hparam_pairs(run), "  "@) + "\n"@
        } else {
            Seq::empty()
        }
    }

    /// Writes what is printed above a run's summary.
    pub fn write_summary_head(&self, run: &Run, format: Format) -> (text: String)
        requires
            self.ok(),
            run.wf(),
        ensures
            text@ == self.summary_head(*run, format),
    {
        if run.hparams.is_empty() || format != Format::Text {
            return String::new();
        }
        let mut pairs: Vec<String> = Vec::new();
        let mut i: usize = 0;
        let ghost goal = self.hparam_pairs(*run);
        while i < run.hparams.len()
            invariant
                i <= run.hparams.names().len(),
                self.ok(),
                run.wf(),
                goal == self.hparam_pairs(*run),
                texts(pairs@) =~= goal.take(i as int),
            decreases run.hparams.names().len() - i,
        {
            let mut pair = run.hparams.name_at(i).clone();
            push_text(&mut pair, "=");
            push_text(&mut pair, &self.hparam_text(run.hparams.value_at(i)));
            let ghost before = pairs@;
            let ghost last = pair@;
            pairs.push(pair);
            assert(texts(pairs@) =~= texts(before).push(last));
            assert(goal.take(i + 1) =~= goal.take(i as int).push(goal[i as int]));
            i += 1;
        }
        assert(goal.take(goal.len() as int) =~= goal);
        let mut text = "hparams: ".to_owned();
        push_text(&mut text, &join_texts(&pairs, "  "));
        push_text(&mut text, "\n");
        text
    }
}

/// The sentence for a run that is not there: it names those that are.
pub open spec fn unknown_run(wanted: Seq<char>, logdir: Seq<char>, names: Seq<Seq<char>>) -> Seq<char> {
    "no run `"@ + wanted + "` in "@ + logdir + " (runs: "@ + with_between(names, ", "@) + ")"@
}

/// Copies the names of a map.
pub fn list_names<V>(map: &NameMap<V>) -> (names: Vec<String>)
    ensures
        texts(names@) == map.names(),
{
    let mut names: Vec<String> = Vec::new();
    let mut i: usize = 0;
    while i < map.len()
        invariant
            i <= map.names().len(),
            texts(names@) =~= map.names().take(i as int),
        decreases map.names().len() - i,
    {
        let ghost before = names@;
        names.push(map.name_at(i).clone());
        assert(texts(names@) =~= texts(before).push(map.names()[i as int]));
        i += 1;
    }
    assert(map.names().take(map.names().len() as int) =~= map.names());
    names
}

/// Writes the sentence for a run that is not there.
pub fn refuse_run(wanted: &str, logdir: &str, runs: &NameMap<Run>) -> (sentence: String)
    ensures
        sentence@ == unknown_run(wanted@, logdir@, runs.names()),
{
    let mut sentence = "no run `".to_owned();
    push_text(&mut sentence, wanted);
    push_text(&mut sentence, "` in ");
    push_text(&mut sentence, logdir);
    push_text(&mut sentence, " (runs: ");
    push_text(&mut sentence, &join_texts(&list_names(runs), ", "));
    push_text(&mut sentence, ")");
    sentence
}

/// The hyperparameters of some runs.
pub open spec fn keys_among(runs: NameMap<Run>, shown: Seq<int>) -> Set<Seq<char>> {
    Set::new(
        |key: Seq<char>|
            exists|k: int|
                0 <= k < shown.len() && (#[trigger] runs.values()[shown[k]]).hparams.has(key),
    )
}

/// Whether a run has a series of a class under a tag.
pub open spec fn has_class(run: Run, tag: Seq<char>, class: SeriesClass) -> bool {
    run.series.has(tag) && run.series.at(tag).class == class
}

/// The scalar tags of some runs.
pub open spec fn tags_among(runs: NameMap<Run>, shown: Seq<int>, class: SeriesClass) -> Set<Seq<char>> {
    Set::new(
        |tag: Seq<char>|
            exists|k: int|
                0 <= k < shown.len() && has_class(
                    #[trigger] runs.values()[shown[k]],
                    tag,
                    class,
                ),
    )
}

/// Puts a name into a set of names.
pub fn note_name(set: &mut NameMap<()>, name: &String)
    requires
        old(set).wf(),
    ensures
        final(set).wf(),
        forall|n: Seq<char>| #[trigger]
            final(set).has(n) <==> old(set).has(n) || n == name@,
{
    let ghost before = *set;
    set.insert(name.clone(), ());
    assert forall|n: Seq<char>| #[trigger] set.has(n) <==> before.has(n) || n == name@ by {
        assert(set.map().dom().contains(n) <==> before.map().insert(name@, ()).dom().contains(n));
    }
}

/// The names of a set that was filled from a description of it.
pub proof fn lemma_names_sorted(set: NameMap<()>, wanted: Set<Seq<char>>)
    requires
        set.wf(),
        forall|n: Seq<char>| #[trigger] set.has(n) <==> wanted.contains(n),
    ensures
        set.names() == sorted(wanted),
{
    assert forall|name: Seq<char>| wanted.contains(name) <==> #[trigger] set.names().contains(
        name,
    ) by {
        assert(set.has(name) <==> wanted.contains(name));
        if set.names().contains(name) {
            let i = choose|i: int| 0 <= i < set.names().len() && set.names()[i] == name;
            assert(set.names()[i] == name);
        }
        if set.has(name) {
            assert(set.names()[set.index_of(name)] == name);
        }
    }
    assert(in_order(set.names()) && lists(set.names(), wanted));
    crate::names::lemma_one_order(set.names(), sorted(wanted), wanted);
}

fn note_keys(set: &mut NameMap<()>, run: &Run)
    requires
        old(set).wf(),
        run.wf(),
    ensures
        final(set).wf(),
        forall|n: Seq<char>| #[trigger]
            final(set).has(n) <==> old(set).has(n) || run.hparams.has(n),
{
    let ghost before = *set;
    let mut i: usize = 0;
    while i < run.hparams.len()
        invariant
            i <= run.hparams.names().len(),
            run.wf(),
            set.wf(),
            forall|n: Seq<char>| #[trigger]
                set.has(n) <==> before.has(n) || exists|j: int|
                    0 <= j < i && #[trigger] run.hparams.names()[j] == n,
        decreases run.hparams.names().len() - i,
    {
        note_name(set, run.hparams.name_at(i));
        i += 1;
    }
}

/// Whether two classes are one.
fn same_class(a: SeriesClass, b: SeriesClass) -> (same: bool)
    ensures
        same == (a == b),
{
    a == b
}

/// Puts the tags of a class of a run into a set of names.
pub fn note_tags(set: &mut NameMap<()>, run: &Run, class: SeriesClass)
    requires
        old(set).wf(),
        run.wf(),
    ensures
        final(set).wf(),
        forall|n: Seq<char>| #[trigger]
            final(set).has(n) <==> old(set).has(n) || has_class(*run, n, class),
{
    let ghost before = *set;
    let mut i: usize = 0;
    while i < run.series.len()
        invariant
            i <= run.series.names().len(),
            run.wf(),
            set.wf(),
            forall|n: Seq<char>| #[trigger]
                set.has(n) <==> before.has(n) || exists|j: int|
                    0 <= j < i && #[trigger] run.series.names()[j] == n
                        && run.series.values()[j].class == class,
        decreases run.series.names().len() - i,
    {
        if same_class(run.series.value_at(i).class, class) {
            note_name(set, run.series.name_at(i));
        }
        i += 1;
    }
    assert forall|n: Seq<char>| #[trigger] set.has(n) <==> before.has(n) || has_class(
        *run,
        n,
        class,
    ) by {
        if run.series.has(n) {
            let j = run.series.index_of(n);
            assert(run.series.names()[j] == n);
        }
        if exists|j: int|
            0 <= j < run.series.names().len() && #[trigger] run.series.names()[j] == n
                && run.series.values()[j].class == class {
            let j = choose|j: int|
                0 <= j < run.series.names().len() && #[trigger] run.series.names()[j] == n
                    && run.series.values()[j].class == class;
            run.series.lemma_index(j);
        }
    }
}

/// Finds the hyperparameters of some runs.
pub fn find_keys(runs: &NameMap<Run>, shown: &Vec<usize>) -> (set: NameMap<()>)
    requires
        runs_wf(*runs),
        forall|k: int| 0 <= k < shown@.len() ==> #[trigger] shown@[k] < runs.names().len(),
    ensures
        set.wf(),
        set.names() == sorted(keys_among(*runs, places(shown@))),
{
    let ghost list = places(shown@);
    let mut set: NameMap<()> = NameMap::new();
    let mut k: usize = 0;
    while k < shown.len()
        invariant
            k <= shown@.len(),
            runs_wf(*runs),
            list == places(shown@),
            forall|j: int| 0 <= j < shown@.len() ==> #[trigger] shown@[j] < runs.names().len(),
            set.wf(),
            forall|n: Seq<char>| #[trigger]
                set.has(n) <==> exists|j: int|
                    0 <= j < k && (#[trigger] runs.values()[list[j]]).hparams.has(n),
        decreases shown@.len() - k,
    {
        assert(list[k as int] == shown@[k as int]);
        note_keys(&mut set, runs.value_at(shown[k]));
        k += 1;
    }
    proof {
        lemma_names_sorted(set, keys_among(*runs, list));
    }
    set
}

/// Finds the tags of a class of some runs.
pub fn find_tags(runs: &NameMap<Run>, shown: &Vec<usize>, class: SeriesClass) -> (set: NameMap<()>)
    requires
        runs_wf(*runs),
        forall|k: int| 0 <= k < shown@.len() ==> #[trigger] shown@[k] < runs.names().len(),
    ensures
        set.wf(),
        set.names() == sorted(tags_among(*runs, places(shown@), class)),
{
    let ghost list = places(shown@);
    let mut set: NameMap<()> = NameMap::new();
    let mut k: usize = 0;
    while k < shown.len()
        invariant
            k <= shown@.len(),
            runs_wf(*runs),
            list == places(shown@),
            forall|j: int| 0 <= j < shown@.len() ==> #[trigger] shown@[j] < runs.names().len(),
            set.wf(),
            forall|n: Seq<char>| #[trigger]
                set.has(n) <==> exists|j: int|
                    0 <= j < k && has_class(#[trigger] runs.values()[list[j]], n, class),
        decreases shown@.len() - k,
    {
        assert(list[k as int] == shown@[k as int]);
        note_tags(&mut set, runs.value_at(shown[k]), class);
        k += 1;
    }
    proof {
        lemma_names_sorted(set, tags_among(*runs, list, class));
    }
    set
}

/// The cell of a hyperparameter, empty where the run has none of that name.
pub open spec fn key_cell(run: Run, key: Seq<char>) -> CellModel {
    if run.hparams.has(key) {
        match run.hparams.at(key)@ {
            HparamModel::Number(bits) => CellModel::Float(bits),
            HparamModel::Text(text) => CellModel::Text(text),
            HparamModel::Truth(truth) => CellModel::Text(truth_text(truth)),
        }
    } else {
        CellModel::Empty
    }
}

/// The cell of the last value of a series, empty where the run has none.
pub open spec fn tag_cell(run: Run, tag: Seq<char>) -> CellModel {
    if run.series.has(tag) {
        match last_point(run.series.at(tag).summary.segments@) {
            Some(point) => CellModel::Float(point.value),
            None => CellModel::Empty,
        }
    } else {
        CellModel::Empty
    }
}

/// The row of a run: its name, its hyperparameters, and the last values of
/// its series.
pub open spec fn flat_row(name: Seq<char>, run: Run, keys: Seq<Seq<char>>, tags: Seq<Seq<char>>) -> Seq<
    CellModel,
> {
    seq![CellModel::Text(name)] + keys.map_values(|key: Seq<char>| key_cell(run, key))
        + tags.map_values(|tag: Seq<char>| tag_cell(run, tag))
}

/// The flat table of some runs: every hyperparameter and every scalar tag
/// that one of them has is a column.
pub open spec fn flat_table(runs: NameMap<Run>, shown: Seq<int>) -> TableModel {
    let keys = sorted(keys_among(runs, shown));
    let tags = sorted(tags_among(runs, shown, SeriesClass::Scalar));
    TableModel {
        columns: seq!["run"@] + keys + tags,
        rows: shown.map_values(
            |at: int| flat_row(runs.names()[at], runs.values()[at], keys, tags),
        ),
    }
}

fn cell_of_key(run: &Run, key: &str) -> (cell: Cell)
    requires
        run.wf(),
    ensures
        cell@ == key_cell(*run, key@),
{
    match run.hparams.get(key) {
        Some(HparamValue::F64(bits)) => Cell::Float(*bits),
        Some(HparamValue::String(text)) => Cell::Text(text.clone()),
        Some(HparamValue::Bool(truth)) => Cell::Text(text_of_truth(*truth)),
        None => Cell::Empty,
    }
}

fn cell_of_tag(run: &Run, tag: &str) -> (cell: Cell)
    requires
        run.wf(),
    ensures
        cell@ == tag_cell(*run, tag@),
{
    match run.series.get(tag) {
        Some(series) => match series.summary.last() {
            Some(point) => Cell::Float(point.value),
            None => Cell::Empty,
        },
        None => Cell::Empty,
    }
}

fn make_flat_row(name: &String, run: &Run, keys: &NameMap<()>, tags: &NameMap<()>) -> (row: Vec<Cell>)
    requires
        run.wf(),
    ensures
        row_model(row@) == flat_row(name@, *run, keys.names(), tags.names()),
{
    let ghost goal = flat_row(name@, *run, keys.names(), tags.names());
    let mut row: Vec<Cell> = Vec::new();
    row.push(Cell::Text(name.clone()));
    let mut i: usize = 0;
    while i < keys.len()
        invariant
            i <= keys.names().len(),
            run.wf(),
            goal == flat_row(name@, *run, keys.names(), tags.names()),
            row_model(row@) =~= goal.take(i + 1),
        decreases keys.names().len() - i,
    {
        let ghost before = row@;
        let cell = cell_of_key(run, keys.name_at(i));
        row.push(cell);
        assert(row_model(row@) =~= row_model(before).push(cell@));
        assert(goal.take(i + 2) =~= goal.take(i + 1).push(goal[i + 1]));
        i += 1;
    }
    let mut j: usize = 0;
    while j < tags.len()
        invariant
            j <= tags.names().len(),
            i == keys.names().len(),
            run.wf(),
            goal == flat_row(name@, *run, keys.names(), tags.names()),
            row_model(row@) =~= goal.take(i + 1 + j),
        decreases tags.names().len() - j,
    {
        let ghost before = row@;
        let cell = cell_of_tag(run, tags.name_at(j));
        row.push(cell);
        assert(row_model(row@) =~= row_model(before).push(cell@));
        assert(goal.take(i + 2 + j) =~= goal.take(i + 1 + j).push(goal[i + 1 + j]));
        j += 1;
    }
    assert(goal.take(goal.len() as int) =~= goal);
    row
}

/// Makes the flat table of some runs.
pub fn flatten(runs: &NameMap<Run>, shown: &Vec<usize>) -> (table: Table)
    requires
        runs_wf(*runs),
        forall|k: int| 0 <= k < shown@.len() ==> #[trigger] shown@[k] < runs.names().len(),
    ensures
        table@ == flat_table(*runs, places(shown@)),
        table@.wf(),
{
    let ghost list = places(shown@);
    let ghost goal = flat_table(*runs, list);
    let keys = find_keys(runs, shown);
    let tags = find_tags(runs, shown, SeriesClass::Scalar);
    let mut columns: Vec<String> = Vec::new();
    columns.push("run".to_owned());
    let mut key_names = list_names(&keys);
    let mut tag_names = list_names(&tags);
    let ghost k0 = key_names@;
    let ghost t0 = tag_names@;
    columns.append(&mut key_names);
    columns.append(&mut tag_names);
    assert(texts(columns@) =~= seq!["run"@] + texts(k0) + texts(t0));
    let mut rows: Vec<Vec<Cell>> = Vec::new();
    let mut k: usize = 0;
    while k < shown.len()
        invariant
            k <= shown@.len(),
            runs_wf(*runs),
            list == places(shown@),
            goal == flat_table(*runs, list),
            keys.names() == sorted(keys_among(*runs, list)),
            tags.names() == sorted(tags_among(*runs, list, SeriesClass::Scalar)),
            forall|j: int| 0 <= j < shown@.len() ==> #[trigger] shown@[j] < runs.names().len(),
            rows@.len() == k,
            forall|j: int| 0 <= j < k ==> row_model(#[trigger] rows@[j]@) == goal.rows[j],
        decreases shown@.len() - k,
    {
        assert(list[k as int] == shown@[k as int]);
        let at: usize = shown[k];
        rows.push(make_flat_row(runs.name_at(at), runs.value_at(at), &keys, &tags));
        k += 1;
    }
    let table = Table { columns, rows };
    assert(table@.rows =~= goal.rows);
    table
}

/// The flat table of the runs that a filter lets through.
pub fn export_runs<F: Fn(&str) -> Option<u64>, P: Fn(u64) -> String>(
    runs: &NameMap<Run>,
    filter: Option<&str>,
    now: Stamp,
    window: Stamp,
    wording: &Wording<F, P>,
) -> (table: Table)
    requires
        wording.ok(),
        runs_wf(*runs),
    ensures
        table@ == flat_table(*runs, wording.all_shown(*runs, view_of(filter), now, window)),
        table@.wf(),
{
    let shown = shown_runs(runs, filter, now, window, wording);
    proof {
        wording.lemma_shown(*runs, view_of(filter), now, window, runs.names().len());
        let list = places(shown@);
        assert forall|k: int| 0 <= k < shown@.len() implies #[trigger] shown@[k]
            < runs.names().len() by {
            assert(list[k] == shown@[k]);
        }
    }
    flatten(runs, &shown)
}

} // verus!
