//! What is printed and exported: a line for each point, the names of files
//! that no path separator splits, sentences that name what there is, and JSON
//! and aligned text with a line per row.
use vstd::prelude::*;

use crate::arith::{Arith, Operation};
use crate::caption::{help_words, hint_words, keeping, tag_list};
use crate::caption_laws::lemma_stands_within;
use crate::discover::within;
use crate::errors::{checksum_words, decode_words, event_words, record_words};
use crate::export::dashed;
use crate::listing::{row_cells, runs_table, status_word, summary_row, summary_table, unknown_run};
use crate::names::NameMap;
use crate::numeric::{Moments, Wording};
use crate::project::ProjectModel;
use crate::reader::ReadEventError;
use crate::record::{ChecksumError, ReadRecordError};
use crate::run::{status_of, Run, Stamp};
use crate::screen;
use crate::series::{HistogramsModel, PointsModel};
use crate::table::{json_text, numeric_column, with_between, CellModel, Format, TableModel};
use crate::text::{decimal_text, integer_text};
use crate::wire::DecodeError;

verus! {

/// A name for a file has a dash for every path separator, and is otherwise the
/// same.
pub proof fn law_file_names_hold_no_separator(name: Seq<char>, at: int)
    requires
        0 <= at < name.len(),
    ensures
        dashed(name).len() == name.len(),
        name[at] == '/' || name[at] == '\\' ==> dashed(name)[at] == '-',
        name[at] != '/' && name[at] != '\\' ==> dashed(name)[at] == name[at],
        !dashed(name).contains('/') && !dashed(name).contains('\\'),
{
    if dashed(name).contains('/') {
        let i = choose|i: int| 0 <= i < dashed(name).len() && dashed(name)[i] == '/';
        assert(dashed(name)[i] == '/');
    }
    if dashed(name).contains('\\') {
        let i = choose|i: int| 0 <= i < dashed(name).len() && dashed(name)[i] == '\\';
        assert(dashed(name)[i] == '\\');
    }
}

impl<F: Fn(&str) -> Option<u64>, P: Fn(u64) -> String> Wording<F, P> {
    /// An exported point is its run, its tag, its step, its wall time and its
    /// value; the lines of a series are those of its points, in order.
    pub proof fn law_exported_points(
        self,
        run: Seq<char>,
        tag: Seq<char>,
        points: PointsModel,
        n: nat,
    )
        requires
            n < points.steps.len(),
        ensures
            self.point_line(run, tag, points.steps[n as int], points.walls[n as int], points.values[n as int]) == run
                + ","@ + tag + ","@ + integer_text(points.steps[n as int] as int) + ","@
                + self.written(points.walls[n as int]) + ","@ + self.written(
                points.values[n as int],
            ) + "\n"@,
            self.point_lines(run, tag, points, n + 1) == self.point_lines(run, tag, points, n)
                + self.point_line(
                run,
                tag,
                points.steps[n as int],
                points.walls[n as int],
                points.values[n as int],
            ),
            self.point_lines(run, tag, points, 0).len() == 0,
    {
    }

    /// A tag is exported run by run: every point of each series that is held.
    pub proof fn law_exported_tags(
        self,
        project: ProjectModel,
        scope: Seq<Seq<char>>,
        run: Seq<char>,
        tag: Seq<char>,
    )
        ensures
            project.points.dom().contains((run, tag)) ==> self.tag_lines(
                project,
                scope.push(run),
                tag,
            ) == self.tag_lines(project, scope, tag) + self.point_lines(
                run,
                tag,
                project.points[(run, tag)].0,
                project.points[(run, tag)].0.steps.len(),
            ),
            !project.points.dom().contains((run, tag)) ==> self.tag_lines(
                project,
                scope.push(run),
                tag,
            ) == self.tag_lines(project, scope, tag),
            self.tag_lines(project, Seq::empty(), tag).len() == 0,
    {
        assert(scope.push(run).drop_last() =~= scope);
    }

    /// An exported bucket is its run, its tag, its step, its wall time, its
    /// edges and its count; every bucket of every snapshot has a line.
    pub proof fn law_exported_buckets(
        self,
        run: Seq<char>,
        tag: Seq<char>,
        series: HistogramsModel,
        n: nat,
        k: nat,
    )
        requires
            n < series.snapshots.len(),
            k < series.snapshots[n as int].buckets.len(),
        ensures
            ({
                let snapshot = series.snapshots[n as int];
                let bucket = snapshot.buckets[k as int];
                &&& self.bucket_line(run, tag, snapshot, bucket) == run + ","@ + tag + ","@
                    + integer_text(snapshot.step as int) + ","@ + self.written(snapshot.wall)
                    + ","@ + self.written(bucket.0) + ","@ + self.written(bucket.1) + ","@
                    + self.written(bucket.2) + "\n"@
                &&& self.bucket_lines(run, tag, snapshot, k + 1) == self.bucket_lines(
                    run,
                    tag,
                    snapshot,
                    k,
                ) + self.bucket_line(run, tag, snapshot, bucket)
                &&& self.snapshot_lines(run, tag, series, n + 1) == self.snapshot_lines(
                    run,
                    tag,
                    series,
                    n,
                ) + self.bucket_lines(run, tag, snapshot, snapshot.buckets.len())
                &&& self.bucket_lines(run, tag, snapshot, 0).len() == 0
                &&& self.snapshot_lines(run, tag, series, 0).len() == 0
            }),
    {
    }

    /// The hyperparameters of a run are told above its summary, each as a key
    /// and its value — in the format for reading, and where it has some.
    pub proof fn law_hparams_are_told(self, run: Run, format: Format, at: int)
        requires
            0 <= at < run.hparams.names().len(),
        ensures
            self.hparam_pairs(run).len() == run.hparams.names().len(),
            self.hparam_pairs(run)[at] == run.hparams.names()[at] + "="@ + self.hparam_word(
                run.hparams.values()[at]@,
            ),
            self.summary_head(run, Format::Text) == "hparams: "@ + with_between(
                self.hparam_pairs(run),
                "  "@,
            ) + "\n"@,
            format != Format::Text ==> self.summary_head(run, format).len() == 0,
    {
    }

    /// A JSON table is a list of objects, one per row, each with a name for
    /// every cell.
    pub proof fn law_json_rows(
        self,
        columns: Seq<Seq<char>>,
        a: CellModel,
        b: CellModel,
        row: Seq<CellModel>,
    )
        requires
            columns.len() == 2,
        ensures
            self.json_row(columns, seq![a, b]) == "  {"@ + (json_text(columns[0]) + ": "@
                + self.json_cell(a) + ", "@ + (json_text(columns[1]) + ": "@ + self.json_cell(b)))
                + "}"@,
            self.json_table(TableModel { columns, rows: Seq::empty() }) == "[\n"@ + Seq::<
                char,
            >::empty() + "]\n"@,
            self.json_table(TableModel { columns, rows: seq![row] }) == "[\n"@ + self.json_row(
                columns,
                row,
            ).push('\n') + "]\n"@,
    {
        reveal_with_fuel(with_between, 3);
        let cells = seq![a, b];
        let entries = Seq::new(cells.len(), |i: int| self.json_entry(columns[i], cells[i]));
        assert(entries.drop_last() =~= seq![self.json_entry(columns[0], a)]);
        assert(entries =~= seq![
            self.json_entry(columns[0], a),
            self.json_entry(columns[1], b),
        ]);
        let none = Seq::<Seq<CellModel>>::empty();
        let one = seq![row];
        let line = |row: Seq<CellModel>| self.json_row(columns, row);
        assert(none.map_values(line) =~= Seq::<Seq<char>>::empty());
        assert(one.map_values(line) =~= seq![self.json_row(columns, row)]);
    }

    /// A row that is not there is named in a sentence that lists the runs.
    pub proof fn law_unknown_runs_are_refused(
        wanted: Seq<char>,
        logdir: Seq<char>,
        a: Seq<char>,
        b: Seq<char>,
    )
        ensures
            unknown_run(wanted, logdir, seq![a, b]) == "no run `"@ + wanted + "` in "@ + logdir
                + " (runs: "@ + (a + ", "@ + b) + ")"@,
    {
        reveal_with_fuel(with_between, 3);
        assert(seq![a, b].drop_last() =~= seq![a]);
    }
}

/// A column of numbers stands right: one with a number in it, and nothing but
/// numbers and gaps.
pub proof fn law_columns_of_numbers(rows: Seq<Seq<CellModel>>, column: int, at: int)
    requires
        0 <= at < rows.len(),
    ensures
        rows[at][column] is Text ==> !numeric_column(rows, column),
        (forall|i: int| 0 <= i < rows.len() ==> (#[trigger] rows[i])[column] is Empty)
            ==> !numeric_column(rows, column),
        (rows[at][column] is Int || rows[at][column] is Float) && (forall|i: int|
            0 <= i < rows.len() ==> (#[trigger] rows[i])[column] !is Text) ==> numeric_column(
            rows,
            column,
        ),
{
    if forall|i: int| 0 <= i < rows.len() ==> (#[trigger] rows[i])[column] !is Text {
        assert forall|i: int| 0 <= i < rows.len() implies (#[trigger] rows[i])[column].is_numeric()
            || rows[i][column] is Empty by {
            assert(rows[i][column] !is Text);
        }
    }
}

/// The runs table has a row for each run that is shown, in order; a summary
/// has a row for each series.
pub proof fn law_tables_have_their_rows<
    F: Fn(&str) -> Option<u64>,
    P: Fn(u64) -> String,
    O: Fn(Operation, u64, u64) -> u64,
    I: Fn(i64) -> u64,
    C: Fn(Moments, Moments) -> Moments,
>(
    wording: Wording<F, P>,
    arith: Arith<O, I>,
    runs: NameMap<Run>,
    filter: Option<Seq<char>>,
    now: Stamp,
    window: Stamp,
    combine: C,
    run: Run,
    at: int,
    k: int,
)
    requires
        0 <= at < wording.all_shown(runs, filter, now, window).len(),
        0 <= k < run.series.names().len(),
    ensures
        ({
            let shown = wording.all_shown(runs, filter, now, window);
            let table = runs_table(wording, arith, runs, filter, now, window);
            let one = runs.values()[shown[at]];
            &&& table.rows.len() == shown.len()
            &&& table.rows[at] == row_cells(
                arith.row(
                    runs.names()[shown[at]],
                    one,
                    status_word(status_of(one@, now, window)),
                    true,
                ),
            )
        }),
        summary_table(combine, run).rows.len() == run.series.names().len(),
        summary_table(combine, run).rows[k] == summary_row(
            combine,
            run.series.names()[k],
            run.series.values()[k],
        ),
{
}

/// Every error says what is wrong.
pub proof fn law_errors_say_what_is_wrong(
    wire: u8,
    offset: u64,
    want: crate::crc::MaskedCrc,
    got: crate::crc::MaskedCrc,
    error: DecodeError,
)
    ensures
        decode_words(DecodeError::Truncated) == "message truncated mid-field"@,
        decode_words(DecodeError::VarintTooLong) == "varint longer than ten bytes"@,
        decode_words(DecodeError::UnsupportedWireType(wire)) == "unsupported wire type "@
            + decimal_text(wire as nat),
        decode_words(DecodeError::InvalidFieldNumber) == "field number zero is invalid"@,
        record_words(ReadRecordError::Truncated) == "record truncated (stream ended mid-record)"@,
        event_words(ReadEventError::Truncated) == "event truncated (stream ended mid-record)"@,
        event_words(ReadEventError::BadLengthCrc { offset, want, got })
            == "framing dead at offset "@ + decimal_text(offset as nat) + ": bad length CRC"@,
        event_words(ReadEventError::Malformed { offset, error })
            == "undecodable record at offset "@ + decimal_text(offset as nat) + ": "@
            + decode_words(error),
        event_words(ReadEventError::Corrupt { offset, error: ChecksumError { want, got } })
            == "corrupt record at offset "@ + decimal_text(offset as nat) + ": "@ + checksum_words(
            ChecksumError { want, got },
        ),
{
}

/// A working set is told by how many runs it keeps, and how to leave it.
pub proof fn law_working_sets_are_told(set: NameMap<()>)
    ensures
        keeping(None).len() == 0,
        keeping(Some(set)) == " · keeping "@ + decimal_text(set.names().len()) + " (U resets)"@,
{
}

/// Every screen hints at the help, and the help names every key.
pub proof fn law_every_screen_hints_at_the_help(view: screen::View)
    ensures
        hint_words(view).last() == ("?"@, "help"@),
        help_words()[0] == ("q"@, "quit"@),
        help_words()[2] == ("Tab · 1-5"@, "views: runs, scalars, compare, hparams, dists"@),
        help_words()[7] == ("p · r"@, "pause polling · refresh now"@),
{
}

/// A tag that matches nothing is named, and with it every scalar tag that was
/// found, as far as they fit.
pub proof fn law_unmatched_tags_are_told(tags: Seq<Seq<char>>, n: nat, at: int)
    requires
        0 <= at < n <= tags.len(),
    ensures
        within(tag_list(tags, n), "\n  "@ + tags[at]),
        tag_list(tags, 0).len() == 0,
    decreases n,
{
    let before = tag_list(tags, (n - 1) as nat);
    let none = Seq::<char>::empty();
    let line = "\n  "@ + tags[n - 1];
    let whole = tag_list(tags, n);
    assert(whole =~= before + line + none);
    if at == n - 1 {
        lemma_stands_within(before, line, none);
    } else {
        law_unmatched_tags_are_told(tags, (n - 1) as nat, at);
        let part = "\n  "@ + tags[at];
        let i = choose|i: int|
            0 <= i <= before.len() - part.len() && #[trigger] before.subrange(i, i + part.len())
                == part;
        assert(whole.subrange(i, i + part.len()) =~= before.subrange(i, i + part.len()));
    }
}

} // verus!
