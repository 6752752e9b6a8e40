//! What the interface exports: each screen as CSV, under a name of its own.
use vstd::prelude::*;

use crate::arith::{Arith, Operation};
use crate::chart::held;
use crate::event::Bucket;
use crate::listing::{
    cells_of_row, flat_table, name_run_columns, row_cells, run_columns, RowModel,
};
use crate::names::NameMap;
use crate::numeric::Wording;
use crate::project::{Project, ProjectModel};
use crate::rows::{entries_model, places_of, rows_of, table_entries, Entry};
use crate::run::{Run, Stamp};
use crate::screen;
use crate::series::{HistogramSeries, HistogramsModel, Points, PointsModel, SnapshotModel};
use crate::table::{row_model, Cell, Format, Table, TableModel};
use crate::text::{chars_of, integer_text, push_integer, push_text, texts};
use crate::viewer::{active_window, App, UiModel};

verus! {

/// A name without path separators.
pub open spec fn dashed(name: Seq<char>) -> Seq<char> {
    name.map_values(
        |c: char|
            if c == '/' || c == '\\' {
                '-'
            } else {
                c
            },
    )
}

fn dash(name: &str) -> (text: String)
    ensures
        text@ == dashed(name@),
{
    let chars = chars_of(name);
    let mut text = String::new();
    let mut i: usize = 0;
    assert(text@ =~= dashed(name@).take(0));
    while i < chars.len()
        invariant
            i <= chars@.len(),
            chars@ == name@,
            text@ == dashed(name@).take(i as int),
        decreases chars@.len() - i,
    {
        let c = chars[i];
        text.push(if c == '/' || c == '\\' {
            '-'
        } else {
            c
        });
        assert(text@ =~= dashed(name@).take(i + 1));
        i += 1;
    }
    assert(text@ =~= dashed(name@));
    text
}

impl<F: Fn(&str) -> Option<u64>, P: Fn(u64) -> String> Wording<F, P> {
    /// The line of a point.
    pub open spec fn point_line(
        self,
        run: Seq<char>,
        tag: Seq<char>,
        step: i64,
        wall: u64,
        value: u64,
    ) -> Seq<char> {
        run + ","@ + tag + ","@ + integer_text(step as int) + ","@ + self.written(wall) + ","@
            + self.written(value) + "\n"@
    }

    /// The lines of the first `n` points of a series.
    pub open spec fn point_lines(self, run: Seq<char>, tag: Seq<char>, points: PointsModel, n: nat) -> Seq<
        char,
    >
        decreases n,
    {
        if n == 0 {
            Seq::empty()
        } else {
            self.point_lines(run, tag, points, (n - 1) as nat) + self.point_line(
                run,
                tag,
                points.steps[n - 1],
                points.walls[n - 1],
                points.values[n - 1],
            )
        }
    }

    /// The lines of a tag across some runs: those whose series are held.
    pub open spec fn tag_lines(self, project: ProjectModel, scope: Seq<Seq<char>>, tag: Seq<char>) -> Seq<
        char,
    >
        decreases scope.len(),
    {
        if scope.len() == 0 {
            Seq::empty()
        } else {
            let before = self.tag_lines(project, scope.drop_last(), tag);
            match held(project, scope.last(), tag) {
                Some(points) => before + self.point_lines(
                    scope.last(),
                    tag,
                    points,
                    points.steps.len(),
                ),
                None => before,
            }
        }
    }

    fn push_points(&self, out: &mut String, run: &str, tag: &str, points: &Points)
        requires
            self.ok(),
            points.wf(),
        ensures
            final(out)@ == old(out)@ + self.point_lines(run@, tag@, points@, points@.steps.len()),
    {
        let ghost start = out@;
        let mut i: usize = 0;
        assert(out@ =~= start + Seq::<char>::empty());
        while i < points.len()
            invariant
                i <= points@.steps.len(),
                self.ok(),
                points.wf(),
                out@ == start + self.point_lines(run@, tag@, points@, i as nat),
            decreases points@.steps.len() - i,
        {
            let ghost before = out@;
            push_text(out, run);
            push_text(out, ",");
            push_text(out, tag);
            push_text(out, ",");
            push_integer(out, points.steps[i]);
            push_text(out, ",");
            push_text(out, &self.write(points.walls[i]));
            push_text(out, ",");
            push_text(out, &self.write(points.values[i]));
            push_text(out, "\n");
            assert(out@ =~= before + self.point_line(
                run@,
                tag@,
                points@.steps[i as int],
                points@.walls[i as int],
                points@.values[i as int],
            ));
            assert(out@ =~= start + self.point_lines(run@, tag@, points@, (i + 1) as nat));
            i += 1;
        }
    }

    fn write_tag(&self, project: &Project, scope: &Vec<String>, tag: &str) -> (out: String)
        requires
            self.ok(),
            project.wf(),
        ensures
            out@ == "run,tag,step,wall,value\n"@ + self.tag_lines(project@, texts(scope@), tag@),
    {
        let mut out = "run,tag,step,wall,value\n".to_owned();
        let ghost head = out@;
        let ghost all = texts(scope@);
        let mut i: usize = 0;
        assert(all.take(0) =~= Seq::<Seq<char>>::empty());
        assert(out@ =~= head + Seq::<char>::empty());
        while i < scope.len()
            invariant
                i <= scope@.len(),
                self.ok(),
                project.wf(),
                all == texts(scope@),
                out@ == head + self.tag_lines(project@, all.take(i as int), tag@),
            decreases scope@.len() - i,
        {
            assert(all.take(i + 1).drop_last() =~= all.take(i as int));
            assert(all[i as int] == scope@[i as int]@);
            if let Some(points) = project.points(&scope[i], tag) {
                self.push_points(&mut out, &scope[i], tag, points);
                assert(out@ =~= head + self.tag_lines(project@, all.take(i + 1), tag@));
            }
            i += 1;
        }
        assert(all.take(all.len() as int) =~= all);
        out
    }

    /// The line of a bucket of a snapshot.
    pub open spec fn bucket_line(
        self,
        run: Seq<char>,
        tag: Seq<char>,
        snapshot: SnapshotModel,
        bucket: Bucket,
    ) -> Seq<char> {
        run + ","@ + tag + ","@ + integer_text(snapshot.step as int) + ","@ + self.written(
            snapshot.wall,
        ) + ","@ + self.written(bucket.0) + ","@ + self.written(bucket.1) + ","@ + self.written(
            bucket.2,
        ) + "\n"@
    }

    /// The lines of the first `n` buckets of a snapshot.
    pub open spec fn bucket_lines(self, run: Seq<char>, tag: Seq<char>, snapshot: SnapshotModel, n: nat) -> Seq<
        char,
    >
        decreases n,
    {
        if n == 0 {
            Seq::empty()
        } else {
            self.bucket_lines(run, tag, snapshot, (n - 1) as nat) + self.bucket_line(
                run,
                tag,
                snapshot,
                snapshot.buckets[n - 1],
            )
        }
    }

    /// The lines of the first `n` snapshots of a series.
    pub open spec fn snapshot_lines(
        self,
        run: Seq<char>,
        tag: Seq<char>,
        series: HistogramsModel,
        n: nat,
    ) -> Seq<char>
        decreases n,
    {
        if n == 0 {
            Seq::empty()
        } else {
            let snapshot = series.snapshots[n - 1];
            self.snapshot_lines(run, tag, series, (n - 1) as nat) + self.bucket_lines(
                run,
                tag,
                snapshot,
                snapshot.buckets.len(),
            )
        }
    }

    fn push_buckets(
        &self,
        out: &mut String,
        run: &str,
        tag: &str,
        snapshot: &crate::series::HistogramSnapshot,
    )
        requires
            self.ok(),
        ensures
            final(out)@ == old(out)@ + self.bucket_lines(
                run@,
                tag@,
                snapshot@,
                snapshot@.buckets.len(),
            ),
    {
        let ghost start = out@;
        let mut i: usize = 0;
        assert(out@ =~= start + Seq::<char>::empty());
        while i < snapshot.buckets.len()
            invariant
                i <= snapshot.buckets@.len(),
                self.ok(),
                out@ == start + self.bucket_lines(run@, tag@, snapshot@, i as nat),
            decreases snapshot.buckets@.len() - i,
        {
            let ghost before = out@;
            let bucket = snapshot.buckets[i];
            push_text(out, run);
            push_text(out, ",");
            push_text(out, tag);
            push_text(out, ",");
            push_integer(out, snapshot.step);
            push_text(out, ",");
            push_text(out, &self.write(snapshot.wall));
            push_text(out, ",");
            push_text(out, &self.write(bucket.0));
            push_text(out, ",");
            push_text(out, &self.write(bucket.1));
            push_text(out, ",");
            push_text(out, &self.write(bucket.2));
            push_text(out, "\n");
            assert(out@ =~= before + self.bucket_line(run@, tag@, snapshot@, bucket));
            assert(out@ =~= start + self.bucket_lines(run@, tag@, snapshot@, (i + 1) as nat));
            i += 1;
        }
    }

    fn write_histograms(&self, run: &str, tag: &str, series: &HistogramSeries) -> (out: String)
        requires
            self.ok(),
        ensures
            out@ == "run,tag,step,wall,left,right,count\n"@ + self.snapshot_lines(
                run@,
                tag@,
                series@,
                series@.snapshots.len(),
            ),
    {
        let mut out = "run,tag,step,wall,left,right,count\n".to_owned();
        let ghost head = out@;
        let mut i: usize = 0;
        assert(out@ =~= head + Seq::<char>::empty());
        while i < series.snapshots.len()
            invariant
                i <= series.snapshots@.len(),
                self.ok(),
                out@ == head + self.snapshot_lines(run@, tag@, series@, i as nat),
            decreases series.snapshots@.len() - i,
        {
            assert(series@.snapshots[i as int] == series.snapshots@[i as int]@);
            self.push_buckets(&mut out, run, tag, &series.snapshots[i]);
            assert(out@ =~= head + self.snapshot_lines(run@, tag@, series@, (i + 1) as nat));
            i += 1;
        }
        out
    }
}

/// A file to write.
pub struct Exported {
    /// Its name.
    pub path: String,
    /// What it holds.
    pub text: String,
}

/// What an export came to, taken as what it holds.
pub open spec fn export_model(result: Result<Exported, String>) -> Result<
    (Seq<char>, Seq<char>),
    Seq<char>,
> {
    match result {
        Ok(file) => Ok((file.path@, file.text@)),
        Err(sentence) => Err(sentence@),
    }
}

/// The runs table as it is on the screen.
pub open spec fn screen_table(rows: Seq<RowModel>) -> TableModel {
    TableModel {
        columns: run_columns(),
        rows: rows.map_values(|row: RowModel| row_cells(row)),
    }
}

/// What a screen exports: a file's name and text, or why there is none.
pub open spec fn exported<
    F: Fn(&str) -> Option<u64>,
    P: Fn(u64) -> String,
    O: Fn(Operation, u64, u64) -> u64,
    I: Fn(i64) -> u64,
>(
    wording: Wording<F, P>,
    arith: Arith<O, I>,
    project: ProjectModel,
    runs: NameMap<Run>,
    ui: UiModel,
    now: Stamp,
    window: Stamp,
) -> Result<(Seq<char>, Seq<char>), Seq<char>> {
    let entries = table_entries(wording, arith, runs, ui, now, window);
    match ui.view {
        screen::View::Runs => Ok(
            (
                "vertov-runs.csv"@,
                wording.rendered(screen_table(rows_of(entries)), Format::Csv),
            ),
        ),
        screen::View::Hparams => Ok(
            (
                "vertov-hparams.csv"@,
                wording.rendered(flat_table(runs, places_of(entries)), Format::Csv),
            ),
        ),
        screen::View::Scalars | screen::View::Compare => match wording.charted_tag(
            runs,
            ui,
            now,
            window,
        ) {
            None => Err("no tag to export"@),
            Some(tag) => Ok(
                (
                    "vertov-"@ + dashed(tag) + ".csv"@,
                    "run,tag,step,wall,value\n"@ + wording.tag_lines(
                        project,
                        wording.drawn(runs, ui, now, window),
                        tag,
                    ),
                ),
            ),
        },
        screen::View::Distributions => match wording.distribution(runs, ui, now, window) {
            None => Err("no histogram series to export"@),
            Some((run, tag)) => if project.histograms.dom().contains((run, tag)) {
                let series = project.histograms[(run, tag)].0;
                Ok(
                    (
                        "vertov-"@ + dashed(tag) + "-hist.csv"@,
                        "run,tag,step,wall,left,right,count\n"@ + wording.snapshot_lines(
                            run,
                            tag,
                            series,
                            series.snapshots.len(),
                        ),
                    ),
                )
            } else {
                Err("series not materialized yet"@)
            },
        },
    }
}

/// The runs table of some entries.
fn table_of(list: &Vec<Entry>) -> (table: Table)
    ensures
        table@ == screen_table(rows_of(entries_model(list@))),
        table@.wf(),
{
    let ghost goal = screen_table(rows_of(entries_model(list@)));
    let mut rows: Vec<Vec<Cell>> = Vec::new();
    let mut i: usize = 0;
    while i < list.len()
        invariant
            i <= list@.len(),
            goal == screen_table(rows_of(entries_model(list@))),
            rows@.len() == i,
            forall|j: int| 0 <= j < i ==> row_model(#[trigger] rows@[j]@) == goal.rows[j],
        decreases list@.len() - i,
    {
        rows.push(cells_of_row(&list[i].row));
        i += 1;
    }
    let table = Table { columns: name_run_columns(), rows };
    assert(table@.rows =~= goal.rows);
    table
}

fn file_name(tag: &str, back: &str) -> (path: String)
    ensures
        path@ == "vertov-"@ + dashed(tag@) + back@,
{
    let mut path = "vertov-".to_owned();
    push_text(&mut path, &dash(tag));
    push_text(&mut path, back);
    path
}

impl App {
    /// The runs table as it is on the screen, for printing.
    pub fn screen_table<
        F: Fn(&str) -> Option<u64>,
        P: Fn(u64) -> String,
        O: Fn(Operation, u64, u64) -> u64,
        I: Fn(i64) -> u64,
    >(&self, now: Stamp, wording: &Wording<F, P>, arith: &Arith<O, I>) -> (table: Table)
        requires
            self.wf(),
            wording.ok(),
            arith.ok(),
        ensures
            table@ == screen_table(
                rows_of(
                    table_entries(
                        *wording,
                        *arith,
                        self.project.catalog(),
                        self.ui(),
                        now,
                        active_window(self.interval),
                    ),
                ),
            ),
            table@.wf(),
    {
        table_of(&self.run_rows(now, wording, arith))
    }

    /// What the screen exports, for writing next to where the viewer was
    /// started — never into the logdir.
    pub fn export<
        F: Fn(&str) -> Option<u64>,
        P: Fn(u64) -> String,
        O: Fn(Operation, u64, u64) -> u64,
        I: Fn(i64) -> u64,
    >(&self, now: Stamp, wording: &Wording<F, P>, arith: &Arith<O, I>) -> (result: Result<
        Exported,
        String,
    >)
        requires
            self.wf(),
            wording.ok(),
            arith.ok(),
        ensures
            export_model(result) == exported(
                *wording,
                *arith,
                self.project@,
                self.project.catalog(),
                self.ui(),
                now,
                active_window(self.interval),
            ),
    {
        match self.view {
            screen::View::Runs => {
                let table = self.screen_table(now, wording, arith);
                Ok(
                    Exported {
                        path: "vertov-runs.csv".to_owned(),
                        text: table.render(Format::Csv, wording),
                    },
                )
            },
            screen::View::Hparams => {
                let table = self.flat_rows(now, wording, arith);
                Ok(
                    Exported {
                        path: "vertov-hparams.csv".to_owned(),
                        text: table.render(Format::Csv, wording),
                    },
                )
            },
            screen::View::Scalars | screen::View::Compare => {
                match self.current_tag(now, wording) {
                    None => Err("no tag to export".to_owned()),
                    Some(tag) => {
                        let scope = self.scoped_runs(now, wording);
                        Ok(
                            Exported {
                                path: file_name(&tag, ".csv"),
                                text: wording.write_tag(&self.project, &scope, &tag),
                            },
                        )
                    },
                }
            },
            screen::View::Distributions => {
                match self.distribution_target(now, wording) {
                    None => Err("no histogram series to export".to_owned()),
                    Some(target) => match self.project.histogram_series(&target.run, &target.tag) {
                        None => Err("series not materialized yet".to_owned()),
                        Some(series) => Ok(
                            Exported {
                                path: file_name(&target.tag, "-hist.csv"),
                                text: wording.write_histograms(&target.run, &target.tag, series),
                            },
                        ),
                    },
                }
            },
        }
    }

    /// Tells in the notice what became of an export: where it went, or why
    /// it failed.
    pub fn note_export(&mut self, result: Result<String, String>)
        requires
            old(self).wf(),
        ensures
            final(self).wf(),
            final(self).project == old(self).project,
            final(self).interval == old(self).interval,
            final(self).ui() == (UiModel {
                message: Some(
                    match result {
                        Ok(path) => "exported "@ + path@,
                        Err(sentence) => "export failed: "@ + sentence@,
                    },
                ),
                export_due: false,
                ..old(self).ui()
            }),
    {
        let mut message = match &result {
            Ok(_) => "exported ".to_owned(),
            Err(_) => "export failed: ".to_owned(),
        };
        match &result {
            Ok(path) => push_text(&mut message, path),
            Err(sentence) => push_text(&mut message, sentence),
        }
        self.message = Some(message);
        self.export_due = false;
    }
}

} // verus!
