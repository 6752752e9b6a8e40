//! A run, of whatever backend, stays in step with its files over every reload
//! pass, whatever the pass does with others.
use vstd::prelude::*;

use crate::backends::{
    offset_of, shrank, tsv_tag, DvcliveModel, MlflowModel, TextModel, WandbStateModel,
};
use crate::discover::joined;
use crate::drain::{complete, law_torn_line_stays_unread, LogModel};
use crate::dvclive::TsvSchema;
use crate::event::{PayloadModel, ValueModel};
use crate::event_runs::{
    framed, gained, gains_in_order, known_snapshots, lemma_gained_series, lemma_gains_strung,
    lemma_known_snapshots_grow, lemma_order_front, lemma_strung_among, points_of_file,
    snapshots_of_file, strung, strung_among, took_snapshots,
};
use crate::frontier::{grown, lines_are_text, tsv_read_up};
use crate::materialize::{events_points, events_snapshots};
use crate::names::{in_order, lemma_in_order_distinct, lemma_sorted, sorted};
use crate::naming::law_fresh_name_is_free;
use crate::numeric::{Moments, Numeric};
use crate::project::{
    contents_of, dvclive_paths, lost, metric_path, mlflow_paths, tail_of, tainted, tsv_path,
    wandb_paths, DiskModel, DvcliveRootModel, MlflowRootModel, ProjectModel, SourceModel, Stat,
    TailModel, WandbRootModel,
};
use crate::project_laws::{lemma_took_nothing, segments_of, took};
use crate::record::{frame, Frame};
use crate::run::{marks_hparams, Backend, Intake};
use crate::series::{PointStamp, SnapshotModel};
use crate::shelf::Key;
use crate::text::{lines_of, text_of};

verus! {

/// A run stays of its backend, and nothing is taken into a series of another.
pub open spec fn apart(before: Intake, after: Intake, name: Seq<char>) -> bool {
    &&& after.run.backend == before.run.backend
    &&& forall|key: Key|
        key.0 != name ==> (#[trigger] after.points.dom().contains(key)
            == before.points.dom().contains(key)) && (before.points.dom().contains(key)
            ==> after.points[key] == before.points[key])
    &&& forall|key: Key|
        key.0 != name ==> (#[trigger] after.histograms.dom().contains(key)
            == before.histograms.dom().contains(key)) && (before.histograms.dom().contains(key)
            ==> after.histograms[key] == before.histograms[key])
}

/// Two steps that leave other runs alone leave them alone together.
proof fn lemma_apart_both(a: Intake, b: Intake, c: Intake, name: Seq<char>)
    requires
        apart(a, b, name),
        apart(b, c, name),
    ensures
        apart(a, c, name),
{
    assert forall|key: Key| key.0 != name implies (#[trigger] c.points.dom().contains(key)
        == a.points.dom().contains(key)) && (a.points.dom().contains(key) ==> c.points[key]
        == a.points[key]) by {
        assert(c.points.dom().contains(key) == b.points.dom().contains(key));
        assert(b.points.dom().contains(key) == a.points.dom().contains(key));
    }
    assert forall|key: Key| key.0 != name implies (#[trigger] c.histograms.dom().contains(key)
        == a.histograms.dom().contains(key)) && (a.histograms.dom().contains(key)
        ==> c.histograms[key] == a.histograms[key]) by {
        assert(c.histograms.dom().contains(key) == b.histograms.dom().contains(key));
        assert(b.histograms.dom().contains(key) == a.histograms.dom().contains(key));
    }
}

impl<
    F: Fn(&str) -> Option<u64>,
    G: Fn(u64) -> u64,
    H: Fn(Moments, u64) -> Moments,
> Numeric<F, G, H> {
    proof fn lemma_scalar_apart(
        self,
        intake: Intake,
        name: Seq<char>,
        tag: Seq<char>,
        point: PointStamp,
    )
        ensures
            apart(intake, self.take_scalar(intake, name, tag, point), name),
    {
    }

    proof fn lemma_rows_apart(
        self,
        intake: Intake,
        name: Seq<char>,
        tag: Seq<char>,
        schema: TsvSchema,
        lines: Seq<Seq<char>>,
    )
        ensures
            apart(intake, self.take_rows(intake, name, tag, schema, lines), name),
        decreases lines.len(),
    {
        if lines.len() > 0 {
            let between = self.take_rows(intake, name, tag, schema, lines.drop_last());
            let after = self.take_rows(intake, name, tag, schema, lines);
            self.lemma_rows_apart(intake, name, tag, schema, lines.drop_last());
            if let Some(row) = self.row(schema, lines.last()) {
                let point = PointStamp { step: row.step, wall: row.wall, value: row.value };
                self.lemma_scalar_apart(between, name, tag, point);
            }
            lemma_apart_both(intake, between, after, name);
        }
    }

    proof fn lemma_metrics_apart(
        self,
        intake: Intake,
        name: Seq<char>,
        tag: Seq<char>,
        lines: Seq<Seq<char>>,
    )
        ensures
            apart(intake, self.take_metrics(intake, name, tag, lines), name),
        decreases lines.len(),
    {
        if lines.len() > 0 {
            self.lemma_metrics_apart(intake, name, tag, lines.drop_last());
        }
    }

    proof fn lemma_history_apart(
        self,
        intake: Intake,
        name: Seq<char>,
        step: i64,
        wall: u64,
        values: Seq<(Seq<char>, u64)>,
    )
        ensures
            apart(intake, self.take_history(intake, name, step, wall, values), name),
        decreases values.len(),
    {
        if values.len() > 0 {
            self.lemma_history_apart(intake, name, step, wall, values.drop_last());
        }
    }

    proof fn lemma_values_apart(
        self,
        intake: Intake,
        name: Seq<char>,
        step: i64,
        wall: u64,
        values: Seq<ValueModel>,
    )
        ensures
            apart(intake, self.take_values(intake, name, step, wall, values), name),
        decreases values.len(),
    {
        if values.len() > 0 {
            let between = self.take_values(intake, name, step, wall, values.drop_last());
            let after = self.take_values(intake, name, step, wall, values);
            self.lemma_values_apart(intake, name, step, wall, values.drop_last());
            assert(apart(between, after, name));
            lemma_apart_both(intake, between, after, name);
        }
    }

    proof fn lemma_payloads_apart(self, intake: Intake, name: Seq<char>, records: Seq<Seq<u8>>)
        ensures
            apart(intake, self.take_payloads(intake, name, records), name),
        decreases records.len(),
    {
        if records.len() > 0 {
            let front = records.drop_last();
            self.lemma_payloads_apart(intake, name, front);
            let between = self.take_payloads(intake, name, front);
            if let Some(crate::wandb_record::WandbModel::History { step, wall, values })
                = self.record(records.last()) {
                self.lemma_history_apart(between, name, step, wall, values);
            }
            let after = self.take_payloads(intake, name, records);
            assert(apart(between, after, name));
            lemma_apart_both(intake, between, after, name);
        }
    }

    proof fn lemma_frames_apart(self, intake: Intake, name: Seq<char>, bytes: Seq<u8>)
        ensures
            apart(intake, self.take_frames(intake, name, bytes).0, name),
        decreases bytes.len(),
    {
        if let Frame::Whole { data, data_crc, size } = frame(bytes) {
            if 0 < size <= bytes.len() {
                let next = self.take_record(intake, name, data);
                if let Ok(event) = crate::event::event_of(data) {
                    let walled = Intake { run: intake.run.walled(event.wall_time), ..intake };
                    if let PayloadModel::Summary(values) = event.payload {
                        self.lemma_values_apart(walled, name, event.step, event.wall_time, values);
                    }
                }
                self.lemma_frames_apart(next, name, bytes.skip(size as int));
                lemma_apart_both(
                    intake,
                    next,
                    self.take_frames(intake, name, bytes).0,
                    name,
                );
            }
        }
    }

    /// Draining an event file leaves other runs alone.
    pub proof fn lemma_log_apart(self, intake: Intake, log: LogModel, tail: Seq<u8>, failed: bool)
        ensures
            apart(intake, self.drain_log(intake, log, tail, failed).0, log.run),
            self.drain_log(intake, log, tail, failed).1.run == log.run,
    {
        self.lemma_frames_apart(intake, log.run, log.pending + tail);
    }

    proof fn lemma_tsvs_apart(self, intake: Intake, state: DvcliveModel, files: Seq<TextModel>)
        ensures
            apart(intake, self.drain_tsvs(intake, state, files).0, state.run),
            self.drain_tsvs(intake, state, files).1.run == state.run,
        decreases files.len(),
    {
        if files.len() > 0 {
            self.lemma_tsvs_apart(intake, state, files.drop_last());
            let (before, at) = self.drain_tsvs(intake, state, files.drop_last());
            let file = files.last();
            if let (Some(tag), Some(tail)) = (tsv_tag(file.relative), file.tail) {
                let seen = before.written(file.mtime);
                let lines = lines_of(text_of(tail.take(complete(tail) as int)));
                let path = file.path;
                if offset_of(at.offsets, path) == 0 {
                    if let Some(schema) = crate::backends::first_schema(lines) {
                        self.lemma_rows_apart(seen, at.run, tag, schema, lines.skip(1));
                    }
                } else {
                    self.lemma_rows_apart(seen, at.run, tag, at.schemas[path], lines);
                }
            }
            let after = self.drain_tsvs(intake, state, files).0;
            assert(apart(before, after, state.run));
            lemma_apart_both(intake, before, after, state.run);
        }
    }

    proof fn lemma_metric_files_apart(
        self,
        intake: Intake,
        state: MlflowModel,
        files: Seq<TextModel>,
    )
        ensures
            apart(intake, self.drain_metrics(intake, state, files).0, state.run),
            self.drain_metrics(intake, state, files).1.run == state.run,
        decreases files.len(),
    {
        if files.len() > 0 {
            self.lemma_metric_files_apart(intake, state, files.drop_last());
            let (before, at) = self.drain_metrics(intake, state, files.drop_last());
            let file = files.last();
            if let Some(tail) = file.tail {
                let seen = before.written(file.mtime);
                let lines = lines_of(text_of(tail.take(complete(tail) as int)));
                self.lemma_metrics_apart(seen, at.run, file.relative, lines);
                lemma_apart_both(
                    before,
                    seen,
                    self.take_metrics(seen, at.run, file.relative, lines),
                    state.run,
                );
            }
            let after = self.drain_metrics(intake, state, files).0;
            assert(apart(before, after, state.run));
            lemma_apart_both(intake, before, after, state.run);
        }
    }

    proof fn lemma_params_apart(
        self,
        intake: Intake,
        state: MlflowModel,
        files: Seq<crate::backends::ParamFileModel>,
    )
        ensures
            ({
                let (after, next) = self.take_params(intake, state, files);
                &&& after.points == intake.points
                &&& after.histograms == intake.histograms
                &&& after.run.backend == intake.run.backend
                &&& after.run.series == intake.run.series
                &&& next.run == state.run
                &&& next.offsets == state.offsets
            }),
        decreases files.len(),
    {
        if files.len() > 0 {
            self.lemma_params_apart(intake, state, files.drop_last());
        }
    }

    /// Draining a dvclive root leaves other runs alone.
    pub proof fn lemma_dvclive_apart(
        self,
        intake: Intake,
        state: DvcliveModel,
        root: DvcliveRootModel,
    )
        ensures
            ({
                let (after, next) = self.drain_dvclive(intake, state, root.document, root.files);
                apart(intake, after, state.run) && next.run == state.run
            }),
    {
        let (taken, noted) = self.take_document(intake, state, root.document);
        if shrank(state.offsets, root.files) {
            let empty = DvcliveModel { offsets: Map::empty(), schemas: Map::empty(), ..noted };
            self.lemma_tsvs_apart(taken.reset(state.run), empty, root.files);
            lemma_apart_both(
                intake,
                taken.reset(state.run),
                self.drain_tsvs(taken.reset(state.run), empty, root.files).0,
                state.run,
            );
        } else {
            self.lemma_tsvs_apart(taken, noted, root.files);
            lemma_apart_both(
                intake,
                taken,
                self.drain_tsvs(taken, noted, root.files).0,
                state.run,
            );
        }
    }

    /// Draining an MLflow run leaves other runs alone.
    pub proof fn lemma_mlflow_apart(self, intake: Intake, state: MlflowModel, root: MlflowRootModel)
        ensures
            ({
                let (after, next) = self.drain_mlflow(intake, state, root.params, root.files);
                apart(intake, after, state.run) && next.run == state.run
            }),
    {
        self.lemma_params_apart(intake, state, root.params);
        let (taken, noted) = self.take_params(intake, state, root.params);
        if shrank(state.offsets, root.files) {
            let empty = MlflowModel { offsets: Map::empty(), ..noted };
            self.lemma_metric_files_apart(taken.reset(state.run), empty, root.files);
            lemma_apart_both(
                intake,
                taken.reset(state.run),
                self.drain_metrics(taken.reset(state.run), empty, root.files).0,
                state.run,
            );
        } else {
            self.lemma_metric_files_apart(taken, noted, root.files);
            lemma_apart_both(
                intake,
                taken,
                self.drain_metrics(taken, noted, root.files).0,
                state.run,
            );
        }
    }

    /// Draining a wandb log leaves other runs alone.
    pub proof fn lemma_wandb_apart(
        self,
        intake: Intake,
        state: WandbStateModel,
        root: WandbRootModel,
    )
        ensures
            ({
                let (after, next) = self.drain_wandb(intake, state, root.file);
                apart(intake, after, state.run) && next.run == state.run
            }),
    {
        if let Some(log) = root.file {
            if !state.dead {
                let seen = intake.written(log.mtime);
                let fresh = log.len < state.offset;
                let now = if fresh {
                    seen.reset(state.run)
                } else {
                    seen
                };
                let offset: u64 = if fresh {
                    0
                } else {
                    state.offset
                };
                assert(apart(intake, now, state.run));
                if offset > 0 {
                    let at = offset as int;
                    let records = crate::wandb::scan(log.tail, at, None, at).0;
                    self.lemma_payloads_apart(now, state.run, records);
                    let after = self.take_payloads(now, state.run, records);
                    lemma_apart_both(intake, now, after, state.run);
                } else if log.tail.len() >= 7 {
                    let records = crate::wandb::scan(log.tail.skip(7), 7, None, 7).0;
                    self.lemma_payloads_apart(now, state.run, records);
                    let after = self.take_payloads(now, state.run, records);
                    lemma_apart_both(intake, now, after, state.run);
                }
            }
        }
    }
}

/// What files hold, by path.
pub type Contents = Map<Seq<char>, Seq<u8>>;

/// Where the files of a run are.
pub enum Home {
    /// Event files, in the order of their paths. Those that are not under
    /// reading yet are among them.
    Events(Seq<Seq<char>>),
    /// A dvclive root.
    Dvclive(Seq<char>),
    /// An MLflow run.
    Mlflow(Seq<char>),
    /// A wandb log.
    Wandb(Seq<char>),
}

/// An event file belongs to a home.
pub open spec fn is_of(home: Home, path: Seq<char>) -> bool {
    home matches Home::Events(paths) && paths.contains(path)
}

/// Whether a run has its home there.
pub open spec fn is_home(project: ProjectModel, run: Seq<char>, home: Home) -> bool {
    match home {
        Home::Events(paths) => {
            &&& in_order(paths)
            &&& forall|path: Seq<char>| #[trigger]
                project.files.dom().contains(path) && paths.contains(path)
                    ==> project.files[path].run == run
            &&& forall|path: Seq<char>| #[trigger]
                project.cached.dom().contains(path) ==> !paths.contains(path)
        },
        Home::Dvclive(root) => project.dvclive.dom().contains(root) && project.dvclive[root].run
            == run,
        Home::Mlflow(root) => project.mlflow.dom().contains(root) && project.mlflow[root].run
            == run,
        Home::Wandb(path) => project.wandb.dom().contains(path) && project.wandb[path].run == run,
    }
}

/// What is taken into another run leaves what is held of a run.
proof fn lemma_apart_held(
    before: ProjectModel,
    after: ProjectModel,
    name: Seq<char>,
    run: Seq<char>,
)
    requires
        name != run,
        apart(before.intake(name), after.intake(name), name),
    ensures
        same_held(run, before, after),
{
    assert forall|key: Key| key.0 == run implies (#[trigger] after.points.dom().contains(key)
        == before.points.dom().contains(key)) && (before.points.dom().contains(key)
        ==> after.points[key] == before.points[key]) by {
        assert(after.intake(name).points.dom().contains(key)
            == before.intake(name).points.dom().contains(key));
    }
    assert forall|key: Key| key.0 == run implies (#[trigger] after.histograms.dom().contains(key)
        == before.histograms.dom().contains(key)) && (before.histograms.dom().contains(key)
        ==> after.histograms[key] == before.histograms[key]) by {
        assert(after.intake(name).histograms.dom().contains(key)
            == before.intake(name).histograms.dom().contains(key));
    }
}

/// The backend that a home is of.
pub open spec fn backend_of(home: Home) -> Backend {
    match home {
        Home::Events(_) => Backend::Tfevents,
        Home::Dvclive(_) => Backend::Dvclive,
        Home::Mlflow(_) => Backend::Mlflow,
        Home::Wandb(_) => Backend::Wandb,
    }
}

/// The file that a series of a home comes from, where it is one.
pub open spec fn file_of(home: Home, tag: Seq<char>) -> Seq<char> {
    match home {
        Home::Events(paths) => Seq::empty(),
        Home::Dvclive(root) => tsv_path(root, tag),
        Home::Mlflow(root) => metric_path(root, tag),
        Home::Wandb(path) => path,
    }
}

/// What the file of a series holds, where it comes from one.
pub open spec fn held(home: Home, tag: Seq<char>, contents: Contents) -> Seq<u8> {
    contents_of(contents, file_of(home, tag))
}

/// Files hold what they held, and more.
pub open spec fn files_grown(paths: Seq<Seq<char>>, contents: Contents, later: Contents) -> bool {
    forall|i: int|
        0 <= i < paths.len() ==> grown(
            contents_of(contents, #[trigger] paths[i]),
            contents_of(later, paths[i]),
        )
}

/// The files of a home hold what they held, and more.
pub open spec fn home_grown(
    home: Home,
    tag: Seq<char>,
    contents: Contents,
    later: Contents,
) -> bool {
    match home {
        Home::Events(paths) => files_grown(paths, contents, later),
        _ => grown(held(home, tag, contents), held(home, tag, later)),
    }
}

/// A project knows finitely many things.
pub open spec fn is_finite(project: ProjectModel) -> bool {
    &&& project.runs.dom().finite()
    &&& project.files.dom().finite()
    &&& project.dvclive.dom().finite()
    &&& project.mlflow.dom().finite()
    &&& project.wandb.dom().finite()
    &&& project.cached.dom().finite()
}

/// A run has no other files than those of its home, and none that are still
/// to be read on from the cache.
pub open spec fn no_other_home(project: ProjectModel, run: Seq<char>, home: Home) -> bool {
    &&& forall|path: Seq<char>| #[trigger]
        project.files.dom().contains(path) && !is_of(home, path) ==> project.files[path].run != run
    &&& forall|path: Seq<char>| #[trigger]
        project.dvclive.dom().contains(path) && home != Home::Dvclive(path)
            ==> project.dvclive[path].run != run
    &&& forall|path: Seq<char>| #[trigger]
        project.mlflow.dom().contains(path) && home != Home::Mlflow(path)
            ==> project.mlflow[path].run != run
    &&& forall|path: Seq<char>| #[trigger]
        project.wandb.dom().contains(path) && home != Home::Wandb(path)
            ==> project.wandb[path].run != run
    &&& forall|path: Seq<char>| #[trigger]
        project.cached.dom().contains(path) ==> project.cached[path].run != run
}

/// A run lives in its home, and nowhere else.
pub open spec fn lives_in(project: ProjectModel, run: Seq<char>, home: Home) -> bool {
    &&& is_finite(project)
    &&& project.runs.dom().contains(run)
    &&& project.runs[run].backend == backend_of(home)
    &&& is_home(project, run, home)
    &&& no_other_home(project, run, home)
}

/// Two projects have the same of a home.
pub open spec fn same_home(home: Home, a: ProjectModel, b: ProjectModel) -> bool {
    match home {
        Home::Events(paths) => forall|path: Seq<char>|
            paths.contains(path) ==> (#[trigger] b.files.dom().contains(path)
                == a.files.dom().contains(path)) && (a.files.dom().contains(path)
                ==> b.files[path] == a.files[path]),
        Home::Dvclive(root) => a.dvclive[root] == b.dvclive[root],
        Home::Mlflow(root) => a.mlflow[root] == b.mlflow[root],
        Home::Wandb(path) => a.wandb[path] == b.wandb[path],
    }
}

/// Two projects hold the same of a run.
pub open spec fn same_held(run: Seq<char>, a: ProjectModel, b: ProjectModel) -> bool {
    &&& forall|key: Key|
        key.0 == run ==> (#[trigger] b.points.dom().contains(key) == a.points.dom().contains(key))
            && (a.points.dom().contains(key) ==> b.points[key] == a.points[key])
    &&& forall|key: Key|
        key.0 == run ==> (#[trigger] b.histograms.dom().contains(key)
            == a.histograms.dom().contains(key)) && (a.histograms.dom().contains(key)
            ==> b.histograms[key] == a.histograms[key])
}

/// A step beside a run: it still lives in its home, and nothing of its series
/// changed.
pub open spec fn beside(run: Seq<char>, home: Home, a: ProjectModel, b: ProjectModel) -> bool {
    &&& lives_in(b, run, home)
    &&& b.runs[run].series == a.runs[run].series
    &&& same_held(run, a, b)
    &&& same_home(home, a, b)
}

/// An event file was read as far as it goes; one that is not under reading
/// held nothing that was read.
pub open spec fn framed_at(project: ProjectModel, path: Seq<char>, contents: Contents) -> bool {
    if project.files.dom().contains(path) {
        framed(project.files[path], contents_of(contents, path))
    } else {
        contents_of(contents, path).len() == 0
    }
}

/// Event files were read as far as they go.
pub open spec fn all_framed(
    project: ProjectModel,
    paths: Seq<Seq<char>>,
    contents: Contents,
) -> bool {
    forall|i: int| 0 <= i < paths.len() ==> framed_at(project, #[trigger] paths[i], contents)
}

/// Two steps beside a run are beside it together.
proof fn lemma_beside_both(
    run: Seq<char>,
    home: Home,
    a: ProjectModel,
    b: ProjectModel,
    c: ProjectModel,
)
    requires
        beside(run, home, a, b),
        beside(run, home, b, c),
    ensures
        beside(run, home, a, c),
{
    assert(same_held(run, a, c)) by {
        assert forall|key: Key| key.0 == run implies (#[trigger] c.points.dom().contains(key)
            == a.points.dom().contains(key)) && (a.points.dom().contains(key) ==> c.points[key]
            == a.points[key]) by {
            assert(c.points.dom().contains(key) == b.points.dom().contains(key));
            assert(b.points.dom().contains(key) == a.points.dom().contains(key));
        }
        assert forall|key: Key| key.0 == run implies (#[trigger] c.histograms.dom().contains(key)
            == a.histograms.dom().contains(key)) && (a.histograms.dom().contains(key)
            ==> c.histograms[key] == a.histograms[key]) by {
            assert(c.histograms.dom().contains(key) == b.histograms.dom().contains(key));
            assert(b.histograms.dom().contains(key) == a.histograms.dom().contains(key));
        }
    }
    if let Home::Events(paths) = home {
        assert forall|path: Seq<char>| paths.contains(path) implies (
        #[trigger] c.files.dom().contains(path) == a.files.dom().contains(path)) && (
        a.files.dom().contains(path) ==> c.files[path] == a.files[path]) by {
            assert(c.files.dom().contains(path) == b.files.dom().contains(path));
            assert(b.files.dom().contains(path) == a.files.dom().contains(path));
        }
    }
}

impl<
    F: Fn(&str) -> Option<u64>,
    G: Fn(u64) -> u64,
    H: Fn(Moments, u64) -> Moments,
> Numeric<F, G, H> {
    /// What is known of a series of a run is what its files say, all of what
    /// is whole of them; `contents` is what they held when they were read last.
    /// The hparams plugin's markers are no series.
    pub open spec fn stands_at(
        self,
        project: ProjectModel,
        run: Seq<char>,
        tag: Seq<char>,
        home: Home,
        contents: Contents,
    ) -> bool {
        let intake = project.intake(run);
        let content = held(home, tag, contents);
        match home {
            Home::Events(paths) => {
                &&& all_framed(project, paths, contents)
                &&& self.events_known(intake, (run, tag), paths, contents)
            },
            Home::Dvclive(root) => {
                let state = project.dvclive[root];
                let path = tsv_path(root, tag);
                &&& self.tsv_in_step(intake, state, path, tag, content)
                &&& tsv_read_up(state, path, content)
                &&& lines_are_text(content)
                &&& content.len() <= u64::MAX
            },
            Home::Mlflow(root) => {
                let state = project.mlflow[root];
                let path = metric_path(root, tag);
                &&& self.metric_in_step(intake, state, path, tag, content)
                &&& offset_of(state.offsets, path) == complete(content)
            },
            Home::Wandb(path) => self.log_in_step(intake, project.wandb[path], tag, content),
        }
    }

    /// What is known of a series are the points and the snapshots of event
    /// files, one file behind the other.
    pub open spec fn events_known(
        self,
        intake: Intake,
        key: Key,
        paths: Seq<Seq<char>>,
        contents: Contents,
    ) -> bool {
        if marks_hparams(key.1) {
            &&& !intake.run.series.dom().contains(key.1)
            &&& !intake.points.dom().contains(key)
            &&& !intake.histograms.dom().contains(key)
        } else {
            &&& self.known(intake, key, strung(paths, points_of_file(contents, key.1)))
            &&& known_snapshots(intake, key, strung(paths, snapshots_of_file(contents, key.1)))
        }
    }

    /// A run lives in its home, and a series of it is in step with its files.
    pub open spec fn settled(
        self,
        project: ProjectModel,
        run: Seq<char>,
        tag: Seq<char>,
        home: Home,
        contents: Contents,
    ) -> bool {
        lives_in(project, run, home) && self.stands_at(project, run, tag, home, contents)
    }

    /// The points of a series that files hold: those of their whole records,
    /// or of their whole lines, one file behind the other.
    pub open spec fn observed_in(self, home: Home, tag: Seq<char>, contents: Contents) -> Seq<
        PointStamp,
    > {
        let content = held(home, tag, contents);
        match home {
            Home::Events(paths) => if marks_hparams(tag) {
                Seq::empty()
            } else {
                strung(paths, points_of_file(contents, tag))
            },
            Home::Dvclive(_) => self.tsv_points(text_of(content.take(complete(content) as int))),
            Home::Mlflow(_) => self.metric_points(
                lines_of(text_of(content.take(complete(content) as int))),
            ),
            Home::Wandb(_) => self.log_observed(content, tag),
        }
    }

    /// Of a settled series exactly the points that its files hold were
    /// observed: they are what its summary is of, and what is held of it.
    pub proof fn law_settled_series_is_observed(
        self,
        project: ProjectModel,
        run: Seq<char>,
        tag: Seq<char>,
        home: Home,
        contents: Contents,
    )
        requires
            self.settled(project, run, tag, home, contents),
        ensures
            self.known(project.intake(run), (run, tag), self.observed_in(home, tag, contents)),
    {
        let intake = project.intake(run);
        let content = held(home, tag, contents);
        match home {
            Home::Events(paths) => {},
            Home::Dvclive(root) => {
                self.lemma_tsv_observed(
                    intake,
                    project.dvclive[root],
                    tsv_path(root, tag),
                    tag,
                    content,
                );
            },
            Home::Mlflow(root) => {},
            Home::Wandb(path) => {
                self.lemma_log_observed(intake, project.wandb[path], tag, content);
            },
        }
    }

    /// A step beside a run leaves its series settled.
    pub proof fn lemma_beside_settled(
        self,
        a: ProjectModel,
        b: ProjectModel,
        run: Seq<char>,
        tag: Seq<char>,
        home: Home,
        contents: Contents,
    )
        requires
            self.settled(a, run, tag, home, contents),
            beside(run, home, a, b),
        ensures
            self.settled(b, run, tag, home, contents),
    {
        let key = (run, tag);
        assert(b.histograms.dom().contains(key) == a.histograms.dom().contains(key));
        if let Home::Events(paths) = home {
            assert forall|i: int| 0 <= i < paths.len() implies framed_at(
                b,
                #[trigger] paths[i],
                contents,
            ) by {
                assert(paths.contains(paths[i]));
                assert(framed_at(a, paths[i], contents));
                assert(b.files.dom().contains(paths[i]) == a.files.dom().contains(paths[i]));
            }
        }
        assert(b.points.dom().contains(key) == a.points.dom().contains(key));
        assert(segments_of(b.runs[run], tag) == segments_of(a.runs[run], tag));
    }
}

proof fn lemma_without_cached_beside(
    project: ProjectModel,
    run: Seq<char>,
    home: Home,
    runs: Seq<Seq<char>>,
)
    requires
        lives_in(project, run, home),
        !runs.contains(run),
    ensures
        beside(run, home, project, project.without_cached_runs(runs)),
    decreases runs.len(),
{
    if runs.len() > 0 {
        let front = runs.drop_last();
        assert(!front.contains(run)) by {
            if front.contains(run) {
                let i = choose|i: int| 0 <= i < front.len() && front[i] == run;
                assert(runs[i] == run);
            }
        }
        assert(runs[runs.len() - 1] != run);
        lemma_without_cached_beside(project, run, home, front);
        let before = project.without_cached_runs(front);
        let after = project.without_cached_runs(runs);
        assert(after.cached.dom().subset_of(before.cached.dom()));
        vstd::set_lib::lemma_set_subset_finite(before.cached.dom(), after.cached.dom());
    }
}

proof fn lemma_tainted_others(
    project: ProjectModel,
    run: Seq<char>,
    sources: Seq<SourceModel>,
    paths: Seq<Seq<char>>,
)
    requires
        forall|i: int|
            0 <= i < paths.len() ==> project.cached[#[trigger] paths[i]].run != run,
    ensures
        !tainted(project.cached, sources, paths).contains(run),
    decreases paths.len(),
{
    if paths.len() > 0 {
        let front = paths.drop_last();
        assert forall|i: int| 0 <= i < front.len() implies project.cached[#[trigger] front[i]].run
            != run by {
            assert(front[i] == paths[i]);
        }
        lemma_tainted_others(project, run, sources, front);
        assert(paths[paths.len() - 1] == paths.last());
        let before = tainted(project.cached, sources, front);
        let all = tainted(project.cached, sources, paths);
        if all.contains(run) {
            let i = choose|i: int| 0 <= i < all.len() && all[i] == run;
            if i < before.len() {
                assert(before[i] == run);
            }
        }
    }
}

proof fn lemma_validated_beside(
    project: ProjectModel,
    run: Seq<char>,
    home: Home,
    sources: Seq<SourceModel>,
)
    requires
        lives_in(project, run, home),
    ensures
        beside(run, home, project, project.validated(sources)),
{
    let paths = sorted(project.cached.dom());
    lemma_sorted(project.cached.dom());
    assert forall|i: int| 0 <= i < paths.len() implies project.cached[#[trigger] paths[i]].run
        != run by {
        assert(paths.contains(paths[i]));
        assert(project.cached.dom().contains(paths[i]));
    }
    lemma_tainted_others(project, run, sources, paths);
    lemma_without_cached_beside(
        project,
        run,
        home,
        tainted(project.cached, sources, paths),
    );
}

/// The event files that the walk found under a run are those of its home.
pub open spec fn found_only(sources: Seq<SourceModel>, run: Seq<char>, home: Home) -> bool {
    forall|i: int|
        0 <= i < sources.len() ==> ((#[trigger] sources[i]).run == run <==> is_of(
            home,
            sources[i].path,
        ))
}

/// A file is found, and can be opened.
pub open spec fn is_openable(sources: Seq<SourceModel>, path: Seq<char>) -> bool {
    exists|i: int| 0 <= i < sources.len() && (#[trigger] sources[i]).path == path
        && sources[i].opened
}

/// What is openable among sources is openable among the first of them, or is
/// the last.
pub proof fn lemma_openable(sources: Seq<SourceModel>, path: Seq<char>)
    requires
        sources.len() > 0,
    ensures
        is_openable(sources, path) == (is_openable(sources.drop_last(), path) || (
        sources.last().path == path && sources.last().opened)),
{
    let front = sources.drop_last();
    let source = sources.last();
    assert(sources[sources.len() - 1] == source);
    if is_openable(sources, path) && !(source.path == path && source.opened) {
        let i = choose|i: int|
            0 <= i < sources.len() && (#[trigger] sources[i]).path == path && sources[i].opened;
        assert(front[i] == sources[i]);
    }
    if is_openable(front, path) {
        let i = choose|i: int|
            0 <= i < front.len() && (#[trigger] front[i]).path == path && front[i].opened;
        assert(sources[i] == front[i]);
    }
}

/// Opening a file of another run leaves a run alone.
pub proof fn lemma_opened_beside(
    project: ProjectModel,
    run: Seq<char>,
    home: Home,
    source: SourceModel,
)
    requires
        lives_in(project, run, home),
        source.run != run,
        !is_of(home, source.path),
    ensures
        beside(run, home, project, project.opened(source)),
{
    let after = project.opened(source);
    if source.opened && !project.files.dom().contains(source.path) {
        assert(after.files.dom() =~= project.files.dom().insert(source.path));
        assert(after.cached.dom() =~= project.cached.dom().remove(source.path));
    }
}

proof fn lemma_stamped_beside(
    project: ProjectModel,
    run: Seq<char>,
    home: Home,
    paths: Seq<Seq<char>>,
    tails: Map<Seq<char>, TailModel>,
)
    requires
        lives_in(project, run, home),
    ensures
        beside(run, home, project, project.all_stamped(paths, tails)),
        project.all_stamped(paths, tails).files == project.files,
    decreases paths.len(),
{
    if paths.len() > 0 {
        lemma_stamped_beside(project, run, home, paths.drop_last(), tails);
        let before = project.all_stamped(paths.drop_last(), tails);
        let after = project.all_stamped(paths, tails);
        let name = before.files[paths.last()].run;
        if before.runs.dom().contains(name) {
            assert(before.runs.dom().insert(name) =~= before.runs.dom());
        }
        assert(after.runs.dom() =~= before.runs.dom());
    }
}

proof fn lemma_vanished_others(
    project: ProjectModel,
    run: Seq<char>,
    paths: Seq<Seq<char>>,
    tails: Map<Seq<char>, TailModel>,
)
    requires
        forall|i: int|
            0 <= i < paths.len() && project.files[#[trigger] paths[i]].run == run ==> tail_of(
                tails,
                paths[i],
            ).stat != Stat::Gone,
    ensures
        !project.vanished(paths, tails).contains(run),
    decreases paths.len(),
{
    if paths.len() > 0 {
        let front = paths.drop_last();
        assert forall|i: int|
            0 <= i < front.len() && project.files[#[trigger] front[i]].run == run implies tail_of(
            tails,
            front[i],
        ).stat != Stat::Gone by {
            assert(front[i] == paths[i]);
        }
        lemma_vanished_others(project, run, front, tails);
        assert(paths[paths.len() - 1] == paths.last());
        let before = project.vanished(front, tails);
        let all = project.vanished(paths, tails);
        if all.contains(run) {
            let i = choose|i: int| 0 <= i < all.len() && all[i] == run;
            if i < before.len() {
                assert(before[i] == run);
            }
        }
    }
}

proof fn lemma_without_runs_beside(
    project: ProjectModel,
    run: Seq<char>,
    home: Home,
    runs: Seq<Seq<char>>,
)
    requires
        lives_in(project, run, home),
        !runs.contains(run),
    ensures
        beside(run, home, project, project.without_runs(runs)),
    decreases runs.len(),
{
    if runs.len() > 0 {
        let front = runs.drop_last();
        assert(!front.contains(run)) by {
            if front.contains(run) {
                let i = choose|i: int| 0 <= i < front.len() && front[i] == run;
                assert(runs[i] == run);
            }
        }
        assert(runs[runs.len() - 1] != run);
        lemma_without_runs_beside(project, run, home, front);
        let before = project.without_runs(front);
        let after = project.without_runs(runs);
        assert(after.files.dom().subset_of(before.files.dom()));
        vstd::set_lib::lemma_set_subset_finite(before.files.dom(), after.files.dom());
        assert(beside(run, home, before, after)) by {
            if let Home::Events(paths) = home {
                assert forall|path: Seq<char>| paths.contains(path) implies (
                #[trigger] after.files.dom().contains(path) == before.files.dom().contains(path))
                    && (before.files.dom().contains(path) ==> after.files[path]
                    == before.files[path]) by {}
            }
        }
        lemma_beside_both(run, home, project, before, after);
    }
}

/// No event file has vanished.
pub open spec fn all_there(paths: Seq<Seq<char>>, tails: Map<Seq<char>, TailModel>) -> bool {
    forall|i: int|
        0 <= i < paths.len() ==> tail_of(tails, #[trigger] paths[i]).stat != Stat::Gone
}

/// Sweeping leaves a run alone whose files are there.
pub proof fn lemma_swept_beside(
    project: ProjectModel,
    run: Seq<char>,
    home: Home,
    tails: Map<Seq<char>, TailModel>,
)
    requires
        lives_in(project, run, home),
        home matches Home::Events(paths) ==> all_there(paths, tails),
    ensures
        beside(run, home, project, project.swept(tails)),
{
    let paths = sorted(project.files.dom());
    lemma_sorted(project.files.dom());
    assert forall|i: int|
        0 <= i < paths.len() && project.files[#[trigger] paths[i]].run == run implies tail_of(
        tails,
        paths[i],
    ).stat != Stat::Gone by {
        assert(paths.contains(paths[i]));
        assert(project.files.dom().contains(paths[i]));
        assert(is_of(home, paths[i]));
        if let Home::Events(own) = home {
            let k = choose|k: int| 0 <= k < own.len() && own[k] == paths[i];
            assert(tail_of(tails, own[k]).stat != Stat::Gone);
        }
    }
    lemma_vanished_others(project, run, paths, tails);
    lemma_stamped_beside(project, run, home, paths, tails);
    lemma_without_runs_beside(
        project.all_stamped(paths, tails),
        run,
        home,
        project.vanished(paths, tails),
    );
}

impl<
    F: Fn(&str) -> Option<u64>,
    G: Fn(u64) -> u64,
    H: Fn(Moments, u64) -> Moments,
> Numeric<F, G, H> {
    #[verifier::spinoff_prover]
    proof fn lemma_drain_file_beside(
        self,
        project: ProjectModel,
        run: Seq<char>,
        home: Home,
        path: Seq<char>,
        tails: Map<Seq<char>, TailModel>,
    )
        requires
            lives_in(project, run, home),
            project.files.dom().contains(path),
            !is_of(home, path),
        ensures
            beside(run, home, project, self.drain_file(project, path, tails)),
            self.drain_file(project, path, tails).files.dom() == project.files.dom(),
    {
        let log = project.files[path];
        let after = self.drain_file(project, path, tails);
        if project.runs.dom().contains(log.run) {
            let tail = tail_of(tails, path);
            let intake = project.intake(log.run);
            self.lemma_log_apart(intake, log, tail.bytes, tail.failed);
            assert(after.files.dom() =~= project.files.dom());
            assert(after.runs.dom() =~= project.runs.dom());
            lemma_apart_held(project, after, log.run, run);
        }
    }

    /// Draining the files of a project leaves a run alone that none of them is
    /// of.
    proof fn lemma_drain_files_beside(
        self,
        project: ProjectModel,
        run: Seq<char>,
        home: Home,
        paths: Seq<Seq<char>>,
        tails: Map<Seq<char>, TailModel>,
    )
        requires
            lives_in(project, run, home),
            !(home is Events),
            forall|i: int|
                0 <= i < paths.len() ==> project.files.dom().contains(#[trigger] paths[i]),
        ensures
            beside(run, home, project, self.drain_files(project, paths, tails)),
            self.drain_files(project, paths, tails).files.dom() == project.files.dom(),
        decreases paths.len(),
    {
        if paths.len() > 0 {
            let front = paths.drop_last();
            let last = paths.last();
            assert(paths[paths.len() - 1] == last);
            assert forall|i: int| 0 <= i < front.len() implies project.files.dom().contains(
                #[trigger] front[i],
            ) by {
                assert(front[i] == paths[i]);
            }
            self.lemma_drain_files_beside(project, run, home, front, tails);
            let before = self.drain_files(project, front, tails);
            self.lemma_drain_file_beside(before, run, home, last, tails);
            lemma_beside_both(run, home, project, before, self.drain_file(before, last, tails));
        }
    }

    /// Draining a file of a run takes in what it gained.
    #[verifier::spinoff_prover]
    proof fn lemma_drain_own_file(
        self,
        project: ProjectModel,
        run: Seq<char>,
        tag: Seq<char>,
        paths: Seq<Seq<char>>,
        path: Seq<char>,
        content: Seq<u8>,
        now: Seq<u8>,
        tails: Map<Seq<char>, TailModel>,
    )
        requires
            lives_in(project, run, Home::Events(paths)),
            project.files.dom().contains(path),
            paths.contains(path),
            framed(project.files[path], content),
            grown(content, now),
            file_read(project.files[path], tails, path, now),
        ensures
            ({
                let key = (run, tag);
                let log = project.files[path];
                let after = self.drain_file(project, path, tails);
                &&& lives_in(after, run, Home::Events(paths))
                &&& after.files.dom() == project.files.dom()
                &&& framed(after.files[path], now)
                &&& forall|other: Seq<char>|
                    other != path && project.files.dom().contains(other)
                        ==> #[trigger] after.files[other] == project.files[other]
                &&& if marks_hparams(tag) {
                    crate::event_runs::no_more_of(project.intake(run), after.intake(run), key)
                } else {
                    &&& took(
                        self,
                        project.intake(run),
                        after.intake(run),
                        key,
                        events_points(gained(log, now), tag),
                    )
                    &&& took_snapshots(
                        project.intake(run),
                        after.intake(run),
                        key,
                        events_snapshots(gained(log, now), tag),
                    )
                }
            }),
    {
        let log = project.files[path];
        let tail = tail_of(tails, path);
        let intake = project.intake(run);
        let after = self.drain_file(project, path, tails);
        assert(log.run == run);
        assert(after.files.dom() =~= project.files.dom());
        assert(after.runs.dom() =~= project.runs.dom());
        self.lemma_log_apart(intake, log, tail.bytes, tail.failed);
        self.law_event_file_growth_is_taken_in(
            intake,
            log,
            tail.bytes,
            tail.failed,
            tag,
            content,
            now,
        );
        let (taken, next) = self.drain_log(intake, log, tail.bytes, tail.failed);
        assert(after.files[path] == next);
        assert(after.intake(run) == taken);
        assert(no_other_home(after, run, Home::Events(paths)));
    }

    /// The points that files have gained since they were read last.
    pub open spec fn points_gained(
        self,
        project: ProjectModel,
        later: Contents,
        tag: Seq<char>,
    ) -> spec_fn(Seq<char>) -> Seq<PointStamp> {
        |path: Seq<char>|
            if project.files.dom().contains(path) {
                events_points(gained(project.files[path], contents_of(later, path)), tag)
            } else {
                Seq::empty()
            }
    }

    /// The snapshots that files have gained since they were read last.
    pub open spec fn snapshots_gained(
        self,
        project: ProjectModel,
        later: Contents,
        tag: Seq<char>,
    ) -> spec_fn(Seq<char>) -> Seq<SnapshotModel> {
        |path: Seq<char>|
            if project.files.dom().contains(path) {
                events_snapshots(gained(project.files[path], contents_of(later, path)), tag)
            } else {
                Seq::empty()
            }
    }

    /// Where a run stands with some of its files drained.
    spec fn partly_drained(
        self,
        project: ProjectModel,
        after: ProjectModel,
        run: Seq<char>,
        tag: Seq<char>,
        paths: Seq<Seq<char>>,
        contents: Contents,
        later: Contents,
        done: Seq<Seq<char>>,
    ) -> bool {
        let key = (run, tag);
        let intake = after.intake(run);
        &&& lives_in(after, run, Home::Events(paths))
        &&& after.files.dom() == project.files.dom()
        &&& forall|path: Seq<char>|
            paths.contains(path) && #[trigger] after.files.dom().contains(path)
                ==> if done.contains(path) {
                framed(after.files[path], contents_of(later, path))
            } else {
                after.files[path] == project.files[path]
            }
        &&& if marks_hparams(tag) {
            self.events_known(intake, key, paths, contents)
        } else {
            &&& self.known(
                intake,
                key,
                strung(paths, points_of_file(contents, tag)) + strung_among(
                    done,
                    paths,
                    self.points_gained(project, later, tag),
                ),
            )
            &&& known_snapshots(
                intake,
                key,
                strung(paths, snapshots_of_file(contents, tag)) + strung_among(
                    done,
                    paths,
                    self.snapshots_gained(project, later, tag),
                ),
            )
        }
    }

    /// Draining files takes in what those of a run have gained, in the order
    /// of their paths.
    proof fn lemma_drain_files(
        self,
        project: ProjectModel,
        run: Seq<char>,
        tag: Seq<char>,
        paths: Seq<Seq<char>>,
        contents: Contents,
        later: Contents,
        done: Seq<Seq<char>>,
        tails: Map<Seq<char>, TailModel>,
    )
        requires
            self.settled(project, run, tag, Home::Events(paths), contents),
            home_grown(Home::Events(paths), tag, contents, later),
            files_read(project, paths, tails, later),
            in_order(done),
            forall|i: int|
                0 <= i < done.len() ==> project.files.dom().contains(#[trigger] done[i]),
        ensures
            self.partly_drained(
                project,
                self.drain_files(project, done, tails),
                run,
                tag,
                paths,
                contents,
                later,
                done,
            ),
        decreases done.len(),
    {
        let home = Home::Events(paths);
        let had = strung(paths, points_of_file(contents, tag));
        let had_snapshots = strung(paths, snapshots_of_file(contents, tag));
        if done.len() == 0 {
            assert(had + Seq::<PointStamp>::empty() =~= had);
            assert(had_snapshots + Seq::<SnapshotModel>::empty() =~= had_snapshots);
        } else {
            let front = done.drop_last();
            let last = done.last();
            assert(done[done.len() - 1] == last);
            lemma_order_front(done);
            assert forall|i: int| 0 <= i < front.len() implies project.files.dom().contains(
                #[trigger] front[i],
            ) by {
                assert(front[i] == done[i]);
            }
            self.lemma_drain_files(project, run, tag, paths, contents, later, front, tails);
            let before = self.drain_files(project, front, tails);
            assert(!front.contains(last));
            if paths.contains(last) {
                self.lemma_drain_step(
                    project,
                    before,
                    run,
                    tag,
                    paths,
                    contents,
                    later,
                    done,
                    tails,
                );
            } else {
                self.lemma_drain_file_beside(before, run, home, last, tails);
                self.lemma_beside_step(
                    project,
                    before,
                    self.drain_file(before, last, tails),
                    run,
                    tag,
                    paths,
                    contents,
                    later,
                    done,
                );
            }
        }
    }

    /// Another run's file is drained.
    #[verifier::spinoff_prover]
    proof fn lemma_beside_step(
        self,
        project: ProjectModel,
        before: ProjectModel,
        after: ProjectModel,
        run: Seq<char>,
        tag: Seq<char>,
        paths: Seq<Seq<char>>,
        contents: Contents,
        later: Contents,
        done: Seq<Seq<char>>,
    )
        requires
            done.len() > 0,
            in_order(done),
            !paths.contains(done.last()),
            self.partly_drained(
                project,
                before,
                run,
                tag,
                paths,
                contents,
                later,
                done.drop_last(),
            ),
            beside(run, Home::Events(paths), before, after),
            after.files.dom() == before.files.dom(),
        ensures
            self.partly_drained(project, after, run, tag, paths, contents, later, done),
    {
        let key = (run, tag);
        let last = done.last();
        lemma_order_front(done);
        lemma_beside_known(self, before, after, run, Home::Events(paths));
        assert forall|path: Seq<char>|
            paths.contains(path) && #[trigger] after.files.dom().contains(path) implies (
        if done.contains(path) {
            framed(after.files[path], contents_of(later, path))
        } else {
            after.files[path] == project.files[path]
        }) by {
            assert(before.files.dom().contains(path));
            assert(path != last);
            assert(done.contains(path) == done.drop_last().contains(path));
        }
        assert(after.points.dom().contains(key) == before.points.dom().contains(key));
        assert(after.histograms.dom().contains(key) == before.histograms.dom().contains(key));
    }

    /// A file of the run is drained.
    #[verifier::spinoff_prover]
    proof fn lemma_drain_step(
        self,
        project: ProjectModel,
        before: ProjectModel,
        run: Seq<char>,
        tag: Seq<char>,
        paths: Seq<Seq<char>>,
        contents: Contents,
        later: Contents,
        done: Seq<Seq<char>>,
        tails: Map<Seq<char>, TailModel>,
    )
        requires
            all_framed(project, paths, contents),
            home_grown(Home::Events(paths), tag, contents, later),
            files_read(project, paths, tails, later),
            done.len() > 0,
            in_order(done),
            paths.contains(done.last()),
            project.files.dom().contains(done.last()),
            self.partly_drained(
                project,
                before,
                run,
                tag,
                paths,
                contents,
                later,
                done.drop_last(),
            ),
        ensures
            self.partly_drained(
                project,
                self.drain_file(before, done.last(), tails),
                run,
                tag,
                paths,
                contents,
                later,
                done,
            ),
    {
        let key = (run, tag);
        let front = done.drop_last();
        let last = done.last();
        let after = self.drain_file(before, last, tails);
        let had = strung(paths, points_of_file(contents, tag));
        let had_snapshots = strung(paths, snapshots_of_file(contents, tag));
        let gain = self.points_gained(project, later, tag);
        let gain_snapshots = self.snapshots_gained(project, later, tag);
        let so_far = strung_among(front, paths, gain);
        let so_far_snapshots = strung_among(front, paths, gain_snapshots);
        lemma_order_front(done);
        let k = choose|k: int| 0 <= k < paths.len() && paths[k] == last;
        assert(framed_at(project, paths[k], contents));
        assert(grown(contents_of(contents, paths[k]), contents_of(later, paths[k])));
        assert(file_read(
            project.files[paths[k]],
            tails,
            paths[k],
            contents_of(later, paths[k]),
        ));
        assert(before.files.dom().contains(last));
        assert(before.files[last] == project.files[last]);
        self.lemma_drain_own_file(
            before,
            run,
            tag,
            paths,
            last,
            contents_of(contents, last),
            contents_of(later, last),
            tails,
        );
        if !marks_hparams(tag) {
            let more = gain(last);
            let more_snapshots = gain_snapshots(last);
            self.lemma_known_grows(before.intake(run), after.intake(run), key, had + so_far, more);
            lemma_known_snapshots_grow(
                before.intake(run),
                after.intake(run),
                key,
                had_snapshots + so_far_snapshots,
                more_snapshots,
            );
            assert(had + so_far + more =~= had + (so_far + more));
            assert(had_snapshots + so_far_snapshots + more_snapshots =~= had_snapshots + (
            so_far_snapshots + more_snapshots));
        }
        assert forall|path: Seq<char>|
            paths.contains(path) && #[trigger] after.files.dom().contains(path) implies (
        if done.contains(path) {
            framed(after.files[path], contents_of(later, path))
        } else {
            after.files[path] == project.files[path]
        }) by {
            assert(before.files.dom().contains(path));
            assert(done.contains(path) == (front.contains(path) || path == last));
            if path != last {
                assert(after.files[path] == before.files[path]);
            }
        }
    }

    /// The files of a run are opened in step with nothing, and what was opened
    /// before stays as it was.
    proof fn lemma_all_opened(
        self,
        project: ProjectModel,
        run: Seq<char>,
        tag: Seq<char>,
        home: Home,
        contents: Contents,
        sources: Seq<SourceModel>,
    )
        requires
            self.settled(project, run, tag, home, contents),
            found_only(sources, run, home),
        ensures
            ({
                let after = project.all_opened(sources);
                &&& self.settled(after, run, tag, home, contents)
                &&& !(home is Events) ==> same_home(home, project, after)
                &&& forall|path: Seq<char>|
                    is_of(home, path) ==> (#[trigger] after.files.dom().contains(path)
                        == (project.files.dom().contains(path) || is_openable(sources, path))) && (
                    after.files.dom().contains(path) ==> after.files[path] == log_of(
                        project,
                        run,
                        path,
                    ))
            }),
        decreases sources.len(),
    {
        if sources.len() > 0 {
            let front = sources.drop_last();
            let source = sources.last();
            assert(sources[sources.len() - 1] == source);
            assert(found_only(front, run, home)) by {
                assert forall|i: int| 0 <= i < front.len() implies ((#[trigger] front[i]).run
                    == run <==> is_of(home, front[i].path)) by {
                    assert(front[i] == sources[i]);
                }
            }
            self.lemma_all_opened(project, run, tag, home, contents, front);
            let before = project.all_opened(front);
            let after = before.opened(source);
            assert forall|path: Seq<char>| is_openable(sources, path) == (is_openable(front, path)
                || (source.path == path && source.opened)) by {
                lemma_openable(sources, path);
            }
            if source.run == run {
                self.lemma_own_opened(before, run, tag, home, contents, source);
            } else {
                lemma_opened_beside(before, run, home, source);
                self.lemma_beside_settled(before, after, run, tag, home, contents);
            }
            assert forall|path: Seq<char>| is_of(home, path) implies (
            #[trigger] after.files.dom().contains(path) == (project.files.dom().contains(path)
                || is_openable(sources, path))) && (after.files.dom().contains(path)
                ==> after.files[path] == log_of(project, run, path)) by {
                assert(before.files.dom().contains(path) == (project.files.dom().contains(path)
                    || is_openable(front, path)));
            }
        } else {
            assert forall|path: Seq<char>| !is_openable(sources, path) by {}
        }
    }

    /// A file of a run is opened in step with nothing.
    #[verifier::spinoff_prover]
    pub proof fn lemma_own_opened(
        self,
        project: ProjectModel,
        run: Seq<char>,
        tag: Seq<char>,
        home: Home,
        contents: Contents,
        source: SourceModel,
    )
        requires
            self.settled(project, run, tag, home, contents),
            source.run == run,
            is_of(home, source.path),
        ensures
            self.settled(project.opened(source), run, tag, home, contents),
    {
        let after = project.opened(source);
        if source.opened && !project.files.dom().contains(source.path) {
            let paths = home->Events_0;
            assert(after.files.dom() =~= project.files.dom().insert(source.path));
            assert(after.cached.dom() =~= project.cached.dom().remove(source.path));
            assert(after.runs =~= project.runs);
            assert(!project.cached.dom().contains(source.path));
            assert forall|i: int| 0 <= i < paths.len() implies framed_at(
                after,
                #[trigger] paths[i],
                contents,
            ) by {
                assert(framed_at(project, paths[i], contents));
                if paths[i] == source.path {
                    crate::event_runs::lemma_framed_start(run, contents_of(contents, paths[i]));
                }
            }
            assert(after.intake(run).points == project.intake(run).points);
        }
    }

    /// Draining and sweeping the opened files of a run brings it in step with
    /// what they hold.
    pub proof fn lemma_files_drained(
        self,
        opened: ProjectModel,
        run: Seq<char>,
        tag: Seq<char>,
        paths: Seq<Seq<char>>,
        contents: Contents,
        later: Contents,
        tails: Map<Seq<char>, TailModel>,
    )
        requires
            self.settled(opened, run, tag, Home::Events(paths), contents),
            home_grown(Home::Events(paths), tag, contents, later),
            files_read(opened, paths, tails, later),
            all_there(paths, tails),
            written_in_order(paths, tag, contents, later),
        ensures
            self.settled(
                self.drain_files(opened, sorted(opened.files.dom()), tails).swept(tails),
                run,
                tag,
                Home::Events(paths),
                later,
            ),
    {
        let home = Home::Events(paths);
        let key = (run, tag);
        let all = sorted(opened.files.dom());
        lemma_sorted(opened.files.dom());
        assert forall|i: int| 0 <= i < all.len() implies opened.files.dom().contains(
            #[trigger] all[i],
        ) by {
            assert(all.contains(all[i]));
        }
        self.lemma_drain_files(opened, run, tag, paths, contents, later, all, tails);
        let drained = self.drain_files(opened, all, tails);
        assert(all_framed(drained, paths, later)) by {
            assert forall|i: int| 0 <= i < paths.len() implies framed_at(
                drained,
                #[trigger] paths[i],
                later,
            ) by {
                assert(paths.contains(paths[i]));
                assert(drained.files.dom().contains(paths[i]) == opened.files.dom().contains(
                    paths[i],
                ));
                assert(opened.files.dom().contains(paths[i]) == all.contains(paths[i]));
            }
        }
        if !marks_hparams(tag) {
            let gain = self.points_gained(opened, later, tag);
            let gain_snapshots = self.snapshots_gained(opened, later, tag);
            assert forall|i: int| 0 <= i < paths.len() implies {
                let path = #[trigger] paths[i];
                &&& !all.contains(path) ==> gain(path).len() == 0 && gain_snapshots(path).len()
                    == 0
                &&& points_of_file(later, tag)(path) == points_of_file(contents, tag)(path) + gain(
                    path,
                )
                &&& snapshots_of_file(later, tag)(path) == snapshots_of_file(contents, tag)(path)
                    + gain_snapshots(path)
            } by {
                let path = paths[i];
                assert(framed_at(opened, path, contents));
                assert(opened.files.dom().contains(path) == all.contains(path));
                if opened.files.dom().contains(path) {
                    lemma_gained_series(
                        opened.files[path],
                        contents_of(contents, path),
                        contents_of(later, path),
                        tag,
                    );
                } else {
                    assert(contents_of(later, path) =~= contents_of(contents, path));
                    assert(points_of_file(contents, tag)(path) + Seq::<PointStamp>::empty()
                        =~= points_of_file(contents, tag)(path));
                    assert(snapshots_of_file(contents, tag)(path) + Seq::<SnapshotModel>::empty()
                        =~= snapshots_of_file(contents, tag)(path));
                }
            }
            lemma_strung_among(all, paths, gain);
            lemma_strung_among(all, paths, gain_snapshots);
            lemma_gains_strung(
                paths,
                points_of_file(contents, tag),
                gain,
                points_of_file(later, tag),
            );
            lemma_gains_strung(
                paths,
                snapshots_of_file(contents, tag),
                gain_snapshots,
                snapshots_of_file(later, tag),
            );
        }
        assert(self.settled(drained, run, tag, home, later));
        lemma_swept_beside(drained, run, home, tails);
        self.lemma_beside_settled(drained, drained.swept(tails), run, tag, home, later);
    }

    /// The event files of a pass keep a series settled.
    pub proof fn lemma_pass_events(
        self,
        project: ProjectModel,
        run: Seq<char>,
        tag: Seq<char>,
        home: Home,
        contents: Contents,
        later: Contents,
        disk: DiskModel,
    )
        requires
            self.settled(project, run, tag, home, contents),
            found_only(disk.events, run, home),
            home matches Home::Events(paths) ==> {
                &&& home_grown(home, tag, contents, later)
                &&& events_read(project, disk, run, paths, later)
                &&& written_in_order(paths, tag, contents, later)
            },
        ensures
            self.settled(
                self.pass_events(project, disk),
                run,
                tag,
                home,
                if home is Events {
                    later
                } else {
                    contents
                },
            ),
            !(home is Events) ==> same_home(home, project, self.pass_events(project, disk)),
    {
        lemma_validated_beside(project, run, home, disk.events);
        let valid = project.validated(disk.events);
        lemma_valid_files(project, disk.events);
        self.lemma_beside_settled(project, valid, run, tag, home, contents);
        self.lemma_all_opened(valid, run, tag, home, contents, disk.events);
        let opened = valid.all_opened(disk.events);
        if let Home::Events(paths) = home {
            assert(files_read(opened, paths, disk.tails, later)) by {
                assert forall|i: int| 0 <= i < paths.len() implies {
                    let path = #[trigger] paths[i];
                    if opened.files.dom().contains(path) {
                        file_read(opened.files[path], disk.tails, path, contents_of(later, path))
                    } else {
                        contents_of(later, path).len() == 0
                    }
                } by {
                    let path = paths[i];
                    assert(paths.contains(path));
                    assert(is_of(home, path));
                    assert(opened.files.dom().contains(path) == (valid.files.dom().contains(path)
                        || is_openable(disk.events, path)));
                    assert(log_of(valid, run, path) == log_of(project, run, path));
                }
            }
            self.lemma_files_drained(opened, run, tag, paths, contents, later, disk.tails);
        } else {
            let all = sorted(opened.files.dom());
            lemma_sorted(opened.files.dom());
            assert forall|i: int| 0 <= i < all.len() implies opened.files.dom().contains(
                #[trigger] all[i],
            ) by {
                assert(all.contains(all[i]));
            }
            self.lemma_drain_files_beside(opened, run, home, all, disk.tails);
            let drained = self.drain_files(opened, all, disk.tails);
            lemma_swept_beside(drained, run, home, disk.tails);
            let swept = drained.swept(disk.tails);
            self.lemma_beside_settled(opened, drained, run, tag, home, contents);
            self.lemma_beside_settled(drained, swept, run, tag, home, contents);
        }
    }
}

/// What is known of the series of a run is known beside it.
proof fn lemma_beside_known<
    F: Fn(&str) -> Option<u64>,
    G: Fn(u64) -> u64,
    H: Fn(Moments, u64) -> Moments,
>(
    numeric: Numeric<F, G, H>,
    a: ProjectModel,
    b: ProjectModel,
    run: Seq<char>,
    home: Home,
)
    requires
        beside(run, home, a, b),
    ensures
        forall|tag: Seq<char>, points: Seq<PointStamp>|
            numeric.known(a.intake(run), (run, tag), points) ==> #[trigger] numeric.known(
                b.intake(run),
                (run, tag),
                points,
            ),
        forall|tag: Seq<char>, snapshots: Seq<SnapshotModel>|
            known_snapshots(a.intake(run), (run, tag), snapshots) ==> #[trigger] known_snapshots(
                b.intake(run),
                (run, tag),
                snapshots,
            ),
{
    assert forall|tag: Seq<char>, points: Seq<PointStamp>|
        numeric.known(a.intake(run), (run, tag), points) implies #[trigger] numeric.known(
        b.intake(run),
        (run, tag),
        points,
    ) by {
        assert(b.points.dom().contains((run, tag)) == a.points.dom().contains((run, tag)));
        assert(segments_of(b.runs[run], tag) == segments_of(a.runs[run], tag));
    }
    assert forall|tag: Seq<char>, snapshots: Seq<SnapshotModel>|
        known_snapshots(a.intake(run), (run, tag), snapshots) implies #[trigger] known_snapshots(
        b.intake(run),
        (run, tag),
        snapshots,
    ) by {
        assert(b.histograms.dom().contains((run, tag)) == a.histograms.dom().contains((run, tag)));
    }
}

/// The state that a file is read on from; a new one is read from the start.
pub open spec fn log_of(project: ProjectModel, run: Seq<char>, path: Seq<char>) -> LogModel {
    if project.files.dom().contains(path) {
        project.files[path]
    } else {
        LogModel::start(run, 0)
    }
}

proof fn lemma_valid_files(project: ProjectModel, sources: Seq<SourceModel>)
    ensures
        project.validated(sources).files == project.files,
{
    lemma_uncached_files(
        project,
        tainted(project.cached, sources, sorted(project.cached.dom())),
    );
}

proof fn lemma_uncached_files(project: ProjectModel, runs: Seq<Seq<char>>)
    ensures
        project.without_cached_runs(runs).files == project.files,
    decreases runs.len(),
{
    if runs.len() > 0 {
        lemma_uncached_files(project, runs.drop_last());
    }
}

/// The files of a run were read on to what they hold; those that are not under
/// reading hold nothing.
pub open spec fn files_read(
    project: ProjectModel,
    paths: Seq<Seq<char>>,
    tails: Map<Seq<char>, TailModel>,
    later: Contents,
) -> bool {
    forall|i: int|
        0 <= i < paths.len() ==> {
            let path = #[trigger] paths[i];
            if project.files.dom().contains(path) {
                file_read(project.files[path], tails, path, contents_of(later, path))
            } else {
                contents_of(later, path).len() == 0
            }
        }
}

/// A pass finds the event files of a run that are under reading, opens the
/// new ones that can be opened, and reads all of them on to what they hold.
pub open spec fn events_read(
    project: ProjectModel,
    disk: DiskModel,
    run: Seq<char>,
    paths: Seq<Seq<char>>,
    later: Contents,
) -> bool {
    &&& all_there(paths, disk.tails)
    &&& forall|i: int|
        0 <= i < paths.len() ==> {
            let path = #[trigger] paths[i];
            if project.files.dom().contains(path) || is_openable(disk.events, path) {
                file_read(log_of(project, run, path), disk.tails, path, contents_of(later, path))
            } else {
                contents_of(later, path).len() == 0
            }
        }
}

/// No event file gains anything of a series once a later one has something of
/// it: a restart writes a file with a greater name, and leaves the ones before
/// it alone.
pub open spec fn written_in_order(
    paths: Seq<Seq<char>>,
    tag: Seq<char>,
    contents: Contents,
    later: Contents,
) -> bool {
    &&& gains_in_order(paths, points_of_file(contents, tag), points_of_file(later, tag))
    &&& gains_in_order(paths, snapshots_of_file(contents, tag), snapshots_of_file(later, tag))
}

/// An event file was read on from where it was left to its end; a dead one is
/// not read.
pub open spec fn file_read(
    log: LogModel,
    tails: Map<Seq<char>, TailModel>,
    path: Seq<char>,
    now: Seq<u8>,
) -> bool {
    log.dead || {
        let tail = tail_of(tails, path);
        log.fits(tail.bytes) && tail.bytes == now.skip(log.consumed()) && !tail.failed
    }
}

pub proof fn lemma_lost(wanted: Seq<Seq<char>>, paths: Seq<Seq<char>>)
    requires
        in_order(paths),
    ensures
        lost(wanted, paths).no_duplicates(),
        forall|i: int|
            0 <= i < lost(wanted, paths).len() ==> paths.contains(
                #[trigger] lost(wanted, paths)[i],
            ) && !wanted.contains(lost(wanted, paths)[i]),
    decreases paths.len(),
{
    if paths.len() > 0 {
        let front = paths.drop_last();
        assert forall|i: int, j: int| 0 <= i < j < front.len() implies crate::text::text_before(
            #[trigger] front[i],
            #[trigger] front[j],
        ) by {
            assert(front[i] == paths[i] && front[j] == paths[j]);
        }
        lemma_lost(wanted, front);
        let before = lost(wanted, front);
        let all = lost(wanted, paths);
        let last = paths.last();
        assert(paths[paths.len() - 1] == last);
        assert forall|i: int| 0 <= i < all.len() implies paths.contains(#[trigger] all[i])
            && !wanted.contains(all[i]) by {
            if i < before.len() {
                assert(before[i] == all[i]);
                let k = choose|k: int| 0 <= k < front.len() && front[k] == before[i];
                assert(paths[k] == all[i]);
            }
        }
        assert forall|i: int, j: int|
            0 <= i < all.len() && 0 <= j < all.len() && i != j implies all[i] != all[j] by {
            if i < before.len() && j < before.len() {
                assert(before[i] != before[j]);
            } else {
                let k = if i < before.len() {
                    i
                } else {
                    j
                };
                assert(front.contains(before[k]));
                let at = choose|at: int| 0 <= at < front.len() && front[at] == before[k];
                assert(paths[at] == before[k]);
                if before[k] == last {
                    lemma_in_order_distinct(paths, at, paths.len() - 1);
                }
            }
        }
    }
}

/// The text files below a directory, each found once.
pub open spec fn listed(files: Seq<TextModel>, dir: Seq<char>) -> bool {
    &&& forall|i: int|
        0 <= i < files.len() ==> (#[trigger] files[i]).path == joined(dir, files[i].relative)
    &&& forall|i: int, j: int|
        0 <= i < j < files.len() ==> (#[trigger] files[i]).relative != (
        #[trigger] files[j]).relative
}

/// A text file is among those that were found.
pub open spec fn text_found(files: Seq<TextModel>, relative: Seq<char>) -> bool {
    exists|i: int| 0 <= i < files.len() && (#[trigger] files[i]).relative == relative
}

/// A text file was read on from an offset to its end; one that was not found
/// holds nothing.
pub open spec fn text_read(
    files: Seq<TextModel>,
    relative: Seq<char>,
    offset: u64,
    now: Seq<u8>,
) -> bool {
    &&& lines_are_text(now)
    &&& now.len() <= u64::MAX
    &&& text_found(files, relative) || now.len() == 0
    &&& forall|i: int|
        0 <= i < files.len() && (#[trigger] files[i]).relative == relative ==> files[i].tail
            == Some(now.skip(offset as int))
}

/// The files of a dvclive root were read on.
pub open spec fn dvclive_root_read(
    state: DvcliveModel,
    root: DvcliveRootModel,
    tag: Seq<char>,
    now: Seq<u8>,
) -> bool {
    let dir = joined(joined(root.path, "plots"@), "metrics"@);
    &&& listed(root.files, dir)
    &&& !shrank(state.offsets, root.files)
    &&& text_read(
        root.files,
        tag + ".tsv"@,
        offset_of(state.offsets, tsv_path(root.path, tag)),
        now,
    )
}

/// The files of an MLflow run were read on.
pub open spec fn mlflow_root_read(
    state: MlflowModel,
    root: MlflowRootModel,
    tag: Seq<char>,
    now: Seq<u8>,
) -> bool {
    &&& listed(root.files, joined(root.path, "metrics"@))
    &&& !shrank(state.offsets, root.files)
    &&& text_read(
        root.files,
        tag,
        offset_of(state.offsets, metric_path(root.path, tag)),
        now,
    )
}

/// A wandb log was read on.
pub open spec fn wandb_root_read(
    state: WandbStateModel,
    root: WandbRootModel,
    tag: Seq<char>,
    now: Seq<u8>,
) -> bool {
    &&& now.len() <= u64::MAX
    &&& root.file matches Some(file) && file.len >= state.offset && file.tail == now.skip(
        state.offset as int,
    )
}

/// A file that is not the last one found was found before it.
proof fn lemma_found_before(files: Seq<TextModel>, relative: Seq<char>)
    requires
        files.len() > 0,
        files.last().relative != relative,
    ensures
        text_found(files, relative) == text_found(files.drop_last(), relative),
{
    let front = files.drop_last();
    if text_found(files, relative) {
        let i = choose|i: int| 0 <= i < files.len() && (#[trigger] files[i]).relative == relative;
        assert(front[i].relative == relative);
    }
    if text_found(front, relative) {
        let i = choose|i: int| 0 <= i < front.len() && (#[trigger] front[i]).relative == relative;
        assert(files[i].relative == relative);
    }
}

/// Two names below a directory are one where the paths are.
proof fn lemma_joined(dir: Seq<char>, a: Seq<char>, b: Seq<char>)
    requires
        joined(dir, a) == joined(dir, b),
    ensures
        a == b,
{
    let n: int = if dir.len() == 0 {
        0
    } else if dir.last() == '/' {
        dir.len() as int
    } else {
        (dir.len() + 1) as int
    };
    assert(joined(dir, a).skip(n) =~= a);
    assert(joined(dir, b).skip(n) =~= b);
}

/// The TSV of a tag is the one file of that name.
proof fn lemma_tsv_name(relative: Seq<char>, tag: Seq<char>)
    ensures
        tsv_tag(relative) == Some(tag) <==> relative == tag + ".tsv"@,
{
    reveal_strlit(".tsv");
    if tsv_tag(relative) == Some(tag) {
        assert(relative =~= tag + ".tsv"@);
    }
    if relative == tag + ".tsv"@ {
        assert(relative.skip(relative.len() - 4) =~= ".tsv"@);
        assert(relative.take(relative.len() - 4) =~= tag);
    }
}

impl<
    F: Fn(&str) -> Option<u64>,
    G: Fn(u64) -> u64,
    H: Fn(Moments, u64) -> Moments,
> Numeric<F, G, H> {
    /// What is in step with what a file held is in step with what it holds.
    proof fn lemma_tsv_grown(
        self,
        intake: Intake,
        state: DvcliveModel,
        path: Seq<char>,
        tag: Seq<char>,
        content: Seq<u8>,
        now: Seq<u8>,
    )
        requires
            self.tsv_in_step(intake, state, path, tag, content),
            grown(content, now),
        ensures
            self.tsv_in_step(intake, state, path, tag, now),
    {
        let offset = offset_of(state.offsets, path) as int;
        lemma_same_front(content, now, offset);
    }

    proof fn lemma_metric_grown(
        self,
        intake: Intake,
        state: MlflowModel,
        path: Seq<char>,
        tag: Seq<char>,
        content: Seq<u8>,
        now: Seq<u8>,
    )
        requires
            self.metric_in_step(intake, state, path, tag, content),
            grown(content, now),
        ensures
            self.metric_in_step(intake, state, path, tag, now),
    {
        let offset = offset_of(state.offsets, path) as int;
        lemma_same_front(content, now, offset);
    }

    /// Draining the TSVs of a root keeps a series of it in step.
    proof fn lemma_drain_tsvs_own(
        self,
        intake: Intake,
        state: DvcliveModel,
        files: Seq<TextModel>,
        dir: Seq<char>,
        tag: Seq<char>,
        now: Seq<u8>,
    )
        requires
            listed(files, dir),
            self.tsv_in_step(intake, state, joined(dir, tag + ".tsv"@), tag, now),
            lines_are_text(now),
            now.len() <= u64::MAX,
            forall|i: int|
                0 <= i < files.len() && (#[trigger] files[i]).relative == tag + ".tsv"@
                    ==> files[i].tail == Some(
                    now.skip(offset_of(state.offsets, joined(dir, tag + ".tsv"@)) as int),
                ),
        ensures
            ({
                let path = joined(dir, tag + ".tsv"@);
                let (after, next) = self.drain_tsvs(intake, state, files);
                &&& self.tsv_in_step(after, next, path, tag, now)
                &&& if text_found(files, tag + ".tsv"@) {
                    tsv_read_up(next, path, now)
                } else {
                    offset_of(next.offsets, path) == offset_of(state.offsets, path)
                }
            }),
        decreases files.len(),
    {
        let name = tag + ".tsv"@;
        let path = joined(dir, name);
        if files.len() > 0 {
            let front = files.drop_last();
            let file = files.last();
            assert(files[files.len() - 1] == file);
            assert forall|i: int| 0 <= i < front.len() implies #[trigger] front[i] == files[i] by {
            }
            assert(listed(front, dir)) by {
                assert forall|i: int| 0 <= i < front.len() implies (#[trigger] front[i]).path
                    == joined(dir, front[i].relative) by {
                    assert(front[i] == files[i]);
                }
                assert forall|i: int, j: int| 0 <= i < j < front.len() implies (
                #[trigger] front[i]).relative != (#[trigger] front[j]).relative by {
                    assert(front[i] == files[i] && front[j] == files[j]);
                }
            }
            self.lemma_drain_tsvs_own(intake, state, front, dir, tag, now);
            let (before, at) = self.drain_tsvs(intake, state, front);
            self.lemma_tsvs_apart(intake, state, front);
            lemma_tsv_name(file.relative, tag);
            if file.relative == name {
                assert(!text_found(front, name)) by {
                    if text_found(front, name) {
                        let i = choose|i: int|
                            0 <= i < front.len() && (#[trigger] front[i]).relative == name;
                        assert(front[i] == files[i]);
                    }
                }
                assert(now.take(now.len() as int) =~= now);
                self.law_tsv_stays_in_step(before, at, file, tag, now, now);
            } else {
                lemma_found_before(files, name);
                assert(file.path != path) by {
                    if file.path == path {
                        lemma_joined(dir, file.relative, name);
                    }
                }
                self.lemma_other_tsv(before, at, file, path, tag, now);
            }
        }
    }

    proof fn lemma_other_tsv(
        self,
        intake: Intake,
        state: DvcliveModel,
        file: TextModel,
        path: Seq<char>,
        tag: Seq<char>,
        now: Seq<u8>,
    )
        requires
            self.tsv_in_step(intake, state, path, tag, now),
            file.path != path,
            tsv_tag(file.relative) != Some(tag),
        ensures
            ({
                let (after, next) = self.drain_tsv(intake, state, file);
                &&& self.tsv_in_step(after, next, path, tag, now)
                &&& offset_of(next.offsets, path) == offset_of(state.offsets, path)
                &&& next.schemas.dom().contains(path) == state.schemas.dom().contains(path)
            }),
    {
        let key = (state.run, tag);
        let points = self.tsv_points(
            text_of(now.take(offset_of(state.offsets, path) as int)),
        );
        assert(points + Seq::<PointStamp>::empty() =~= points);
        if let (Some(other), Some(tail)) = (tsv_tag(file.relative), file.tail) {
            let seen = intake.written(file.mtime);
            lemma_took_nothing(self, intake, seen, key);
            self.lemma_known_grows(intake, seen, key, points, Seq::empty());
            let lines = lines_of(text_of(tail.take(complete(tail) as int)));
            let (after, next) = self.drain_tsv(intake, state, file);
            if complete(tail) > 0 {
                if offset_of(state.offsets, file.path) == 0 {
                    if let Some(schema) = crate::backends::first_schema(lines) {
                        self.lemma_take_rows(seen, key, other, schema, lines.skip(1));
                        self.lemma_known_grows(seen, after, key, points, Seq::empty());
                    }
                } else if state.schemas.dom().contains(file.path) {
                    self.lemma_take_rows(seen, key, other, state.schemas[file.path], lines);
                    self.lemma_known_grows(seen, after, key, points, Seq::empty());
                }
            }
        }
    }

    /// Draining the metric files of a run keeps a series of it in step.
    proof fn lemma_drain_metrics_own(
        self,
        intake: Intake,
        state: MlflowModel,
        files: Seq<TextModel>,
        dir: Seq<char>,
        tag: Seq<char>,
        now: Seq<u8>,
    )
        requires
            listed(files, dir),
            self.metric_in_step(intake, state, joined(dir, tag), tag, now),
            lines_are_text(now),
            now.len() <= u64::MAX,
            forall|i: int|
                0 <= i < files.len() && (#[trigger] files[i]).relative == tag ==> files[i].tail
                    == Some(now.skip(offset_of(state.offsets, joined(dir, tag)) as int)),
        ensures
            ({
                let path = joined(dir, tag);
                let (after, next) = self.drain_metrics(intake, state, files);
                &&& self.metric_in_step(after, next, path, tag, now)
                &&& offset_of(next.offsets, path) == if text_found(files, tag) {
                    complete(now) as u64
                } else {
                    offset_of(state.offsets, path)
                }
            }),
        decreases files.len(),
    {
        let path = joined(dir, tag);
        if files.len() > 0 {
            let front = files.drop_last();
            let file = files.last();
            assert(files[files.len() - 1] == file);
            assert forall|i: int| 0 <= i < front.len() implies #[trigger] front[i] == files[i] by {
            }
            assert(listed(front, dir)) by {
                assert forall|i: int| 0 <= i < front.len() implies (#[trigger] front[i]).path
                    == joined(dir, front[i].relative) by {
                    assert(front[i] == files[i]);
                }
                assert forall|i: int, j: int| 0 <= i < j < front.len() implies (
                #[trigger] front[i]).relative != (#[trigger] front[j]).relative by {
                    assert(front[i] == files[i] && front[j] == files[j]);
                }
            }
            self.lemma_drain_metrics_own(intake, state, front, dir, tag, now);
            let (before, at) = self.drain_metrics(intake, state, front);
            self.lemma_metric_files_apart(intake, state, front);
            if file.relative == tag {
                assert(!text_found(front, tag)) by {
                    if text_found(front, tag) {
                        let i = choose|i: int|
                            0 <= i < front.len() && (#[trigger] front[i]).relative == tag;
                        assert(front[i] == files[i]);
                    }
                }
                assert(now.take(now.len() as int) =~= now);
                self.law_metric_stays_in_step(before, at, file, now, now);
            } else {
                lemma_found_before(files, tag);
                assert(file.path != path) by {
                    if file.path == path {
                        lemma_joined(dir, file.relative, tag);
                    }
                }
                self.lemma_other_metric(before, at, file, path, tag, now);
            }
        }
    }

    proof fn lemma_other_metric(
        self,
        intake: Intake,
        state: MlflowModel,
        file: TextModel,
        path: Seq<char>,
        tag: Seq<char>,
        now: Seq<u8>,
    )
        requires
            self.metric_in_step(intake, state, path, tag, now),
            file.path != path,
            file.relative != tag,
        ensures
            ({
                let (after, next) = self.drain_metric(intake, state, file);
                &&& self.metric_in_step(after, next, path, tag, now)
                &&& offset_of(next.offsets, path) == offset_of(state.offsets, path)
            }),
    {
        let key = (state.run, tag);
        let points = self.metric_points(
            lines_of(text_of(now.take(offset_of(state.offsets, path) as int))),
        );
        assert(points + Seq::<PointStamp>::empty() =~= points);
        if let Some(tail) = file.tail {
            let seen = intake.written(file.mtime);
            lemma_took_nothing(self, intake, seen, key);
            self.lemma_known_grows(intake, seen, key, points, Seq::empty());
            let lines = lines_of(text_of(tail.take(complete(tail) as int)));
            let (after, next) = self.drain_metric(intake, state, file);
            if complete(tail) > 0 {
                self.lemma_take_metrics(seen, key, file.relative, lines);
                self.lemma_known_grows(seen, after, key, points, Seq::empty());
            }
        }
    }

    pub proof fn lemma_sync_own_dvclive(
        self,
        project: ProjectModel,
        run: Seq<char>,
        tag: Seq<char>,
        root: DvcliveRootModel,
        contents: Contents,
        later: Contents,
    )
        requires
            self.settled(project, run, tag, Home::Dvclive(root.path), contents),
            dvclive_root_read(
                project.dvclive[root.path],
                root,
                tag,
                held(Home::Dvclive(root.path), tag, later),
            ),
            home_grown(Home::Dvclive(root.path), tag, contents, later),
        ensures
            self.settled(
                self.sync_dvclive(project, root),
                run,
                tag,
                Home::Dvclive(root.path),
                later,
            ),
    {
        let content = held(Home::Dvclive(root.path), tag, contents);
        let now = held(Home::Dvclive(root.path), tag, later);
        let home = Home::Dvclive(root.path);
        let state = project.dvclive[root.path];
        let intake = project.intake(run);
        let dir = joined(joined(root.path, "plots"@), "metrics"@);
        let path = tsv_path(root.path, tag);
        let (taken, noted) = self.take_document(intake, state, root.document);
        let points = self.tsv_points(text_of(content.take(offset_of(state.offsets, path) as int)));
        lemma_took_nothing(self, intake, taken, (run, tag));
        self.lemma_known_grows(intake, taken, (run, tag), points, Seq::empty());
        assert(points + Seq::<PointStamp>::empty() =~= points);
        self.lemma_tsv_grown(taken, noted, path, tag, content, now);
        self.lemma_drain_tsvs_own(taken, noted, root.files, dir, tag, now);
        law_torn_line_stays_unread(now);
        self.lemma_dvclive_apart(intake, state, root);
        let after = self.sync_dvclive(project, root);
        assert(after.dvclive.dom() =~= project.dvclive.dom());
        assert(after.runs.dom() =~= project.runs.dom());
    }

    pub proof fn lemma_sync_own_mlflow(
        self,
        project: ProjectModel,
        run: Seq<char>,
        tag: Seq<char>,
        root: MlflowRootModel,
        contents: Contents,
        later: Contents,
    )
        requires
            self.settled(project, run, tag, Home::Mlflow(root.path), contents),
            mlflow_root_read(
                project.mlflow[root.path],
                root,
                tag,
                held(Home::Mlflow(root.path), tag, later),
            ),
            home_grown(Home::Mlflow(root.path), tag, contents, later),
        ensures
            self.settled(
                self.sync_mlflow(project, root),
                run,
                tag,
                Home::Mlflow(root.path),
                later,
            ),
    {
        let content = held(Home::Mlflow(root.path), tag, contents);
        let now = held(Home::Mlflow(root.path), tag, later);
        let state = project.mlflow[root.path];
        let intake = project.intake(run);
        let dir = joined(root.path, "metrics"@);
        let path = metric_path(root.path, tag);
        let (taken, noted) = self.take_params(intake, state, root.params);
        self.lemma_params_apart(intake, state, root.params);
        let points = self.metric_points(
            lines_of(text_of(content.take(offset_of(state.offsets, path) as int))),
        );
        lemma_took_nothing(self, intake, taken, (run, tag));
        self.lemma_known_grows(intake, taken, (run, tag), points, Seq::empty());
        assert(points + Seq::<PointStamp>::empty() =~= points);
        self.lemma_metric_grown(taken, noted, path, tag, content, now);
        self.lemma_drain_metrics_own(taken, noted, root.files, dir, tag, now);
        law_torn_line_stays_unread(now);
        self.lemma_mlflow_apart(intake, state, root);
        let after = self.sync_mlflow(project, root);
        assert(after.mlflow.dom() =~= project.mlflow.dom());
        assert(after.runs.dom() =~= project.runs.dom());
    }

    pub proof fn lemma_sync_own_wandb(
        self,
        project: ProjectModel,
        run: Seq<char>,
        tag: Seq<char>,
        root: WandbRootModel,
        contents: Contents,
        later: Contents,
    )
        requires
            self.settled(project, run, tag, Home::Wandb(root.path), contents),
            wandb_root_read(
                project.wandb[root.path],
                root,
                tag,
                held(Home::Wandb(root.path), tag, later),
            ),
            home_grown(Home::Wandb(root.path), tag, contents, later),
        ensures
            self.settled(
                self.sync_wandb(project, root),
                run,
                tag,
                Home::Wandb(root.path),
                later,
            ),
    {
        let content = held(Home::Wandb(root.path), tag, contents);
        let now = held(Home::Wandb(root.path), tag, later);
        let state = project.wandb[root.path];
        let intake = project.intake(run);
        if let Some(file) = root.file {
            self.law_log_stays_in_step(intake, state, file, tag, content, now);
        }
        self.lemma_wandb_apart(intake, state, root);
        let after = self.sync_wandb(project, root);
        assert(after.wandb.dom() =~= project.wandb.dom());
        assert(after.runs.dom() =~= project.runs.dom());
    }
}

/// What a file held is the front of what it holds.
pub proof fn lemma_same_front(content: Seq<u8>, now: Seq<u8>, n: int)
    requires
        grown(content, now),
        0 <= n <= content.len(),
    ensures
        now.take(n) == content.take(n),
        n > 0 ==> now[n - 1] == content[n - 1],
{
    assert(content.take(n) =~= now.take(content.len() as int).take(n));
    assert(now.take(n) =~= content.take(n));
    if n > 0 {
        assert(now[n - 1] == now.take(content.len() as int)[n - 1]);
    }
}

proof fn lemma_without_dvclive_beside(
    project: ProjectModel,
    run: Seq<char>,
    home: Home,
    path: Seq<char>,
)
    requires
        lives_in(project, run, home),
        project.dvclive.dom().contains(path),
        home != Home::Dvclive(path),
    ensures
        beside(run, home, project, project.without_dvclive(path)),
{
    let after = project.without_dvclive(path);
    assert(after.dvclive.dom() =~= project.dvclive.dom().remove(path));
}

proof fn lemma_without_all_dvclive_beside(
    project: ProjectModel,
    run: Seq<char>,
    home: Home,
    paths: Seq<Seq<char>>,
)
    requires
        lives_in(project, run, home),
        paths.no_duplicates(),
        forall|i: int|
            0 <= i < paths.len() ==> project.dvclive.dom().contains(#[trigger] paths[i]) && home
                != Home::Dvclive(paths[i]),
    ensures
        beside(run, home, project, project.without_all_dvclive(paths)),
        forall|path: Seq<char>|
            project.dvclive.dom().contains(path) && !paths.contains(path)
                ==> #[trigger] project.without_all_dvclive(paths).dvclive.dom().contains(path),
    decreases paths.len(),
{
    if paths.len() > 0 {
        let front = paths.drop_last();
        let last = paths.last();
        assert(paths[paths.len() - 1] == last);
        assert forall|i: int| 0 <= i < front.len() implies project.dvclive.dom().contains(
            #[trigger] front[i],
        ) && home != Home::Dvclive(front[i]) by {
            assert(front[i] == paths[i]);
        }
        lemma_without_all_dvclive_beside(project, run, home, front);
        let before = project.without_all_dvclive(front);
        assert(!front.contains(last)) by {
            if front.contains(last) {
                let i = choose|i: int| 0 <= i < front.len() && front[i] == last;
                assert(paths[i] == last);
            }
        }
        assert(before.dvclive.dom().contains(last));
        lemma_without_dvclive_beside(before, run, home, last);
        assert forall|path: Seq<char>|
            project.dvclive.dom().contains(path) && !paths.contains(path) implies
            #[trigger] project.without_all_dvclive(paths).dvclive.dom().contains(path) by {
            assert(!front.contains(path)) by {
                if front.contains(path) {
                    let i = choose|i: int| 0 <= i < front.len() && front[i] == path;
                    assert(paths[i] == path);
                }
            }
            assert(before.dvclive.dom().contains(path));
        }
    }
}

proof fn lemma_with_dvclive_beside(
    project: ProjectModel,
    run: Seq<char>,
    home: Home,
    root: DvcliveRootModel,
)
    requires
        lives_in(project, run, home),
    ensures
        beside(run, home, project, project.with_dvclive(root)),
        project.with_dvclive(root).dvclive.dom().contains(root.path),
        home == Home::Dvclive(root.path) ==> project.with_dvclive(root) == project,
{
    if !project.dvclive.dom().contains(root.path) {
        law_fresh_name_is_free(project.runs.dom(), root.name);
        let after = project.with_dvclive(root);
        assert(after.dvclive.dom() =~= project.dvclive.dom().insert(root.path));
    }
}

impl<
    F: Fn(&str) -> Option<u64>,
    G: Fn(u64) -> u64,
    H: Fn(Moments, u64) -> Moments,
> Numeric<F, G, H> {
    /// Draining another root leaves a run alone.
    #[verifier::spinoff_prover]
    pub proof fn lemma_sync_dvclive_beside(
        self,
        project: ProjectModel,
        run: Seq<char>,
        home: Home,
        root: DvcliveRootModel,
    )
        requires
            lives_in(project, run, home),
            home != Home::Dvclive(root.path),
        ensures
            beside(run, home, project, self.sync_dvclive(project, root)),
    {
        lemma_with_dvclive_beside(project, run, home, root);
        let named = project.with_dvclive(root);
        let state = named.dvclive[root.path];
        assert(named.dvclive.dom().contains(root.path));
        assert(state.run != run);
        if named.runs.dom().contains(state.run) {
            let intake = named.intake(state.run);
            let (taken, next) = self.drain_dvclive(intake, state, root.document, root.files);
            self.lemma_dvclive_apart(intake, state, root);
            let after = self.sync_dvclive(project, root);
            assert(after.dvclive.dom() =~= named.dvclive.dom());
            assert(after.runs.dom() =~= named.runs.dom());
            assert(after.runs[run] == named.runs[run]);
            assert(no_other_home(after, run, home)) by {
                assert forall|path: Seq<char>| #[trigger]
                    after.dvclive.dom().contains(path) && home != Home::Dvclive(path) implies
                    after.dvclive[path].run != run by {
                    assert(named.dvclive.dom().contains(path));
                }
            }
            lemma_apart_held(named, after, state.run, run);
            assert(same_home(home, named, after));
            assert(lives_in(after, run, home));
            assert(beside(run, home, named, after));
            lemma_beside_both(run, home, project, named, after);
        }
    }

    proof fn lemma_sync_all_dvclive(
        self,
        project: ProjectModel,
        run: Seq<char>,
        tag: Seq<char>,
        home: Home,
        contents: Contents,
        later: Contents,
        roots: Seq<DvcliveRootModel>,
    )
        requires
            self.settled(project, run, tag, home, contents),
            home matches Home::Dvclive(path) ==> dvclive_read(
                project.dvclive[path],
                roots,
                path,
                tag,
                held(home, tag, later),
            )
                && home_grown(home, tag, contents, later),
        ensures
            ({
                let after = self.sync_all_dvclive(project, roots);
                match home {
                    Home::Dvclive(path) => if dvclive_paths(roots).contains(path) {
                        self.settled(after, run, tag, home, later)
                    } else {
                        self.settled(after, run, tag, home, contents) && after.dvclive[path]
                            == project.dvclive[path]
                    },
                    _ => self.settled(after, run, tag, home, contents) && same_home(
                        home,
                        project,
                        after,
                    ),
                }
            }),
        decreases roots.len(),
    {
        if roots.len() > 0 {
            let front = roots.drop_last();
            let last = roots.last();
            assert(roots[roots.len() - 1] == last);
            assert(dvclive_paths(roots).drop_last() =~= dvclive_paths(front));
            assert forall|path: Seq<char>| dvclive_paths(roots).contains(path) <==> dvclive_paths(
                front,
            ).contains(path) || path == last.path by {
                if dvclive_paths(front).contains(path) {
                    let i = choose|i: int| 0 <= i < front.len() && dvclive_paths(front)[i] == path;
                    assert(dvclive_paths(roots)[i] == path);
                }
                if path == last.path {
                    assert(dvclive_paths(roots)[roots.len() - 1] == path);
                }
                if dvclive_paths(roots).contains(path) && path != last.path {
                    let i = choose|i: int| 0 <= i < roots.len() && dvclive_paths(roots)[i] == path;
                    assert(dvclive_paths(front)[i] == path);
                }
            }
            if let Home::Dvclive(path) = home {
                assert(dvclive_read(
                    project.dvclive[path],
                    front,
                    path,
                    tag,
                    held(home, tag, later),
                )) by {
                    assert forall|i: int, j: int|
                        0 <= i < j < front.len() && (#[trigger] front[i]).path == path implies (
                    #[trigger] front[j]).path != path by {
                        assert(front[i] == roots[i] && front[j] == roots[j]);
                    }
                    assert forall|i: int|
                        0 <= i < front.len() && (#[trigger] front[i]).path == path implies
                        dvclive_root_read(
                            project.dvclive[path],
                            front[i],
                            tag,
                            held(home, tag, later),
                        ) by {
                        assert(front[i] == roots[i]);
                    }
                }
            }
            self.lemma_sync_all_dvclive(project, run, tag, home, contents, later, front);
            let before = self.sync_all_dvclive(project, front);
            if home == Home::Dvclive(last.path) {
                assert(!dvclive_paths(front).contains(last.path)) by {
                    if dvclive_paths(front).contains(last.path) {
                        let i = choose|i: int|
                            0 <= i < front.len() && dvclive_paths(front)[i] == last.path;
                        assert(roots[i].path == last.path);
                    }
                }
                lemma_with_dvclive_beside(before, run, home, last);
                self.lemma_sync_own_dvclive(before, run, tag, last, contents, later);
            } else {
                self.lemma_sync_dvclive_beside(before, run, home, last);
                let had = match home {
                    Home::Dvclive(path) => if dvclive_paths(front).contains(path) {
                        later
                    } else {
                        contents
                    },
                    _ => contents,
                };
                self.lemma_beside_settled(
                    before,
                    self.sync_dvclive(before, last),
                    run,
                    tag,
                    home,
                    had,
                );
            }
        }
    }

    /// The dvclive roots of a pass keep a series settled.
    pub proof fn lemma_pass_dvclive(
        self,
        project: ProjectModel,
        run: Seq<char>,
        tag: Seq<char>,
        home: Home,
        contents: Contents,
        later: Contents,
        roots: Seq<DvcliveRootModel>,
    )
        requires
            self.settled(project, run, tag, home, contents),
            home matches Home::Dvclive(path) ==> dvclive_read(
                project.dvclive[path],
                roots,
                path,
                tag,
                held(home, tag, later),
            )
                && dvclive_paths(roots).contains(path) && home_grown(home, tag, contents, later),
        ensures
            self.settled(
                self.pass_dvclive(project, roots),
                run,
                tag,
                home,
                if home is Dvclive {
                    later
                } else {
                    contents
                },
            ),
            !(home is Dvclive) ==> same_home(home, project, self.pass_dvclive(project, roots)),
    {
        let paths = sorted(project.dvclive.dom());
        lemma_sorted(project.dvclive.dom());
        let gone = lost(dvclive_paths(roots), paths);
        lemma_lost(dvclive_paths(roots), paths);
        assert forall|i: int| 0 <= i < gone.len() implies project.dvclive.dom().contains(
            #[trigger] gone[i],
        ) && home != Home::Dvclive(gone[i]) by {
            assert(paths.contains(gone[i]));
        }
        lemma_without_all_dvclive_beside(project, run, home, gone);
        let left = project.without_all_dvclive(gone);
        self.lemma_beside_settled(project, left, run, tag, home, contents);
        self.lemma_sync_all_dvclive(left, run, tag, home, contents, later, roots);
    }
}

/// A root is found once, and its files were read on.
pub open spec fn dvclive_read(
    state: DvcliveModel,
    roots: Seq<DvcliveRootModel>,
    path: Seq<char>,
    tag: Seq<char>,
    now: Seq<u8>,
) -> bool {
    &&& forall|i: int, j: int|
        0 <= i < j < roots.len() && (#[trigger] roots[i]).path == path ==> (
        #[trigger] roots[j]).path != path
    &&& forall|i: int|
        0 <= i < roots.len() && (#[trigger] roots[i]).path == path ==> dvclive_root_read(
            state,
            roots[i],
            tag,
            now,
        )
}

proof fn lemma_without_mlflow_beside(
    project: ProjectModel,
    run: Seq<char>,
    home: Home,
    path: Seq<char>,
)
    requires
        lives_in(project, run, home),
        project.mlflow.dom().contains(path),
        home != Home::Mlflow(path),
    ensures
        beside(run, home, project, project.without_mlflow(path)),
{
    let after = project.without_mlflow(path);
    assert(after.mlflow.dom() =~= project.mlflow.dom().remove(path));
}

proof fn lemma_without_all_mlflow_beside(
    project: ProjectModel,
    run: Seq<char>,
    home: Home,
    paths: Seq<Seq<char>>,
)
    requires
        lives_in(project, run, home),
        paths.no_duplicates(),
        forall|i: int|
            0 <= i < paths.len() ==> project.mlflow.dom().contains(#[trigger] paths[i]) && home
                != Home::Mlflow(paths[i]),
    ensures
        beside(run, home, project, project.without_all_mlflow(paths)),
        forall|path: Seq<char>|
            project.mlflow.dom().contains(path) && !paths.contains(path)
                ==> #[trigger] project.without_all_mlflow(paths).mlflow.dom().contains(path),
    decreases paths.len(),
{
    if paths.len() > 0 {
        let front = paths.drop_last();
        let last = paths.last();
        assert(paths[paths.len() - 1] == last);
        assert forall|i: int| 0 <= i < front.len() implies project.mlflow.dom().contains(
            #[trigger] front[i],
        ) && home != Home::Mlflow(front[i]) by {
            assert(front[i] == paths[i]);
        }
        lemma_without_all_mlflow_beside(project, run, home, front);
        let before = project.without_all_mlflow(front);
        assert(!front.contains(last)) by {
            if front.contains(last) {
                let i = choose|i: int| 0 <= i < front.len() && front[i] == last;
                assert(paths[i] == last);
            }
        }
        assert(before.mlflow.dom().contains(last));
        lemma_without_mlflow_beside(before, run, home, last);
        assert forall|path: Seq<char>|
            project.mlflow.dom().contains(path) && !paths.contains(path) implies
            #[trigger] project.without_all_mlflow(paths).mlflow.dom().contains(path) by {
            assert(!front.contains(path)) by {
                if front.contains(path) {
                    let i = choose|i: int| 0 <= i < front.len() && front[i] == path;
                    assert(paths[i] == path);
                }
            }
            assert(before.mlflow.dom().contains(path));
        }
    }
}

proof fn lemma_with_mlflow_beside(
    project: ProjectModel,
    run: Seq<char>,
    home: Home,
    root: MlflowRootModel,
)
    requires
        lives_in(project, run, home),
    ensures
        beside(run, home, project, project.with_mlflow(root)),
        project.with_mlflow(root).mlflow.dom().contains(root.path),
        home == Home::Mlflow(root.path) ==> project.with_mlflow(root) == project,
{
    if !project.mlflow.dom().contains(root.path) {
        law_fresh_name_is_free(project.runs.dom(), root.name);
        let after = project.with_mlflow(root);
        assert(after.mlflow.dom() =~= project.mlflow.dom().insert(root.path));
    }
}

impl<
    F: Fn(&str) -> Option<u64>,
    G: Fn(u64) -> u64,
    H: Fn(Moments, u64) -> Moments,
> Numeric<F, G, H> {
    /// Draining another root leaves a run alone.
    #[verifier::spinoff_prover]
    pub proof fn lemma_sync_mlflow_beside(
        self,
        project: ProjectModel,
        run: Seq<char>,
        home: Home,
        root: MlflowRootModel,
    )
        requires
            lives_in(project, run, home),
            home != Home::Mlflow(root.path),
        ensures
            beside(run, home, project, self.sync_mlflow(project, root)),
    {
        lemma_with_mlflow_beside(project, run, home, root);
        let named = project.with_mlflow(root);
        let state = named.mlflow[root.path];
        assert(named.mlflow.dom().contains(root.path));
        assert(state.run != run);
        if named.runs.dom().contains(state.run) {
            let intake = named.intake(state.run);
            let (taken, next) = self.drain_mlflow(intake, state, root.params, root.files);
            self.lemma_mlflow_apart(intake, state, root);
            let after = self.sync_mlflow(project, root);
            assert(after.mlflow.dom() =~= named.mlflow.dom());
            assert(after.runs.dom() =~= named.runs.dom());
            assert(after.runs[run] == named.runs[run]);
            assert(no_other_home(after, run, home)) by {
                assert forall|path: Seq<char>| #[trigger]
                    after.mlflow.dom().contains(path) && home != Home::Mlflow(path) implies
                    after.mlflow[path].run != run by {
                    assert(named.mlflow.dom().contains(path));
                }
            }
            lemma_apart_held(named, after, state.run, run);
            assert(same_home(home, named, after));
            assert(lives_in(after, run, home));
            assert(beside(run, home, named, after));
            lemma_beside_both(run, home, project, named, after);
        }
    }

    proof fn lemma_sync_all_mlflow(
        self,
        project: ProjectModel,
        run: Seq<char>,
        tag: Seq<char>,
        home: Home,
        contents: Contents,
        later: Contents,
        roots: Seq<MlflowRootModel>,
    )
        requires
            self.settled(project, run, tag, home, contents),
            home matches Home::Mlflow(path) ==> mlflow_read(
                project.mlflow[path],
                roots,
                path,
                tag,
                held(home, tag, later),
            )
                && home_grown(home, tag, contents, later),
        ensures
            ({
                let after = self.sync_all_mlflow(project, roots);
                match home {
                    Home::Mlflow(path) => if mlflow_paths(roots).contains(path) {
                        self.settled(after, run, tag, home, later)
                    } else {
                        self.settled(after, run, tag, home, contents) && after.mlflow[path]
                            == project.mlflow[path]
                    },
                    _ => self.settled(after, run, tag, home, contents) && same_home(
                        home,
                        project,
                        after,
                    ),
                }
            }),
        decreases roots.len(),
    {
        if roots.len() > 0 {
            let front = roots.drop_last();
            let last = roots.last();
            assert(roots[roots.len() - 1] == last);
            assert(mlflow_paths(roots).drop_last() =~= mlflow_paths(front));
            assert forall|path: Seq<char>| mlflow_paths(roots).contains(path) <==> mlflow_paths(
                front,
            ).contains(path) || path == last.path by {
                if mlflow_paths(front).contains(path) {
                    let i = choose|i: int| 0 <= i < front.len() && mlflow_paths(front)[i] == path;
                    assert(mlflow_paths(roots)[i] == path);
                }
                if path == last.path {
                    assert(mlflow_paths(roots)[roots.len() - 1] == path);
                }
                if mlflow_paths(roots).contains(path) && path != last.path {
                    let i = choose|i: int| 0 <= i < roots.len() && mlflow_paths(roots)[i] == path;
                    assert(mlflow_paths(front)[i] == path);
                }
            }
            if let Home::Mlflow(path) = home {
                assert(mlflow_read(
                    project.mlflow[path],
                    front,
                    path,
                    tag,
                    held(home, tag, later),
                )) by {
                    assert forall|i: int, j: int|
                        0 <= i < j < front.len() && (#[trigger] front[i]).path == path implies (
                    #[trigger] front[j]).path != path by {
                        assert(front[i] == roots[i] && front[j] == roots[j]);
                    }
                    assert forall|i: int|
                        0 <= i < front.len() && (#[trigger] front[i]).path == path implies
                        mlflow_root_read(
                            project.mlflow[path],
                            front[i],
                            tag,
                            held(home, tag, later),
                        ) by {
                        assert(front[i] == roots[i]);
                    }
                }
            }
            self.lemma_sync_all_mlflow(project, run, tag, home, contents, later, front);
            let before = self.sync_all_mlflow(project, front);
            if home == Home::Mlflow(last.path) {
                assert(!mlflow_paths(front).contains(last.path)) by {
                    if mlflow_paths(front).contains(last.path) {
                        let i = choose|i: int|
                            0 <= i < front.len() && mlflow_paths(front)[i] == last.path;
                        assert(roots[i].path == last.path);
                    }
                }
                lemma_with_mlflow_beside(before, run, home, last);
                self.lemma_sync_own_mlflow(before, run, tag, last, contents, later);
            } else {
                self.lemma_sync_mlflow_beside(before, run, home, last);
                let had = match home {
                    Home::Mlflow(path) => if mlflow_paths(front).contains(path) {
                        later
                    } else {
                        contents
                    },
                    _ => contents,
                };
                self.lemma_beside_settled(
                    before,
                    self.sync_mlflow(before, last),
                    run,
                    tag,
                    home,
                    had,
                );
            }
        }
    }

    /// The MLflow runs of a pass keep a series settled.
    pub proof fn lemma_pass_mlflow(
        self,
        project: ProjectModel,
        run: Seq<char>,
        tag: Seq<char>,
        home: Home,
        contents: Contents,
        later: Contents,
        roots: Seq<MlflowRootModel>,
    )
        requires
            self.settled(project, run, tag, home, contents),
            home matches Home::Mlflow(path) ==> mlflow_read(
                project.mlflow[path],
                roots,
                path,
                tag,
                held(home, tag, later),
            )
                && mlflow_paths(roots).contains(path) && home_grown(home, tag, contents, later),
        ensures
            self.settled(
                self.pass_mlflow(project, roots),
                run,
                tag,
                home,
                if home is Mlflow {
                    later
                } else {
                    contents
                },
            ),
            !(home is Mlflow) ==> same_home(home, project, self.pass_mlflow(project, roots)),
    {
        let paths = sorted(project.mlflow.dom());
        lemma_sorted(project.mlflow.dom());
        let gone = lost(mlflow_paths(roots), paths);
        lemma_lost(mlflow_paths(roots), paths);
        assert forall|i: int| 0 <= i < gone.len() implies project.mlflow.dom().contains(
            #[trigger] gone[i],
        ) && home != Home::Mlflow(gone[i]) by {
            assert(paths.contains(gone[i]));
        }
        lemma_without_all_mlflow_beside(project, run, home, gone);
        let left = project.without_all_mlflow(gone);
        self.lemma_beside_settled(project, left, run, tag, home, contents);
        self.lemma_sync_all_mlflow(left, run, tag, home, contents, later, roots);
    }
}

/// A root is found once, and its files were read on.
pub open spec fn mlflow_read(
    state: MlflowModel,
    roots: Seq<MlflowRootModel>,
    path: Seq<char>,
    tag: Seq<char>,
    now: Seq<u8>,
) -> bool {
    &&& forall|i: int, j: int|
        0 <= i < j < roots.len() && (#[trigger] roots[i]).path == path ==> (
        #[trigger] roots[j]).path != path
    &&& forall|i: int|
        0 <= i < roots.len() && (#[trigger] roots[i]).path == path ==> mlflow_root_read(
            state,
            roots[i],
            tag,
            now,
        )
}

proof fn lemma_without_wandb_beside(
    project: ProjectModel,
    run: Seq<char>,
    home: Home,
    path: Seq<char>,
)
    requires
        lives_in(project, run, home),
        project.wandb.dom().contains(path),
        home != Home::Wandb(path),
    ensures
        beside(run, home, project, project.without_wandb(path)),
{
    let after = project.without_wandb(path);
    assert(after.wandb.dom() =~= project.wandb.dom().remove(path));
}

proof fn lemma_without_all_wandb_beside(
    project: ProjectModel,
    run: Seq<char>,
    home: Home,
    paths: Seq<Seq<char>>,
)
    requires
        lives_in(project, run, home),
        paths.no_duplicates(),
        forall|i: int|
            0 <= i < paths.len() ==> project.wandb.dom().contains(#[trigger] paths[i]) && home
                != Home::Wandb(paths[i]),
    ensures
        beside(run, home, project, project.without_all_wandb(paths)),
        forall|path: Seq<char>|
            project.wandb.dom().contains(path) && !paths.contains(path)
                ==> #[trigger] project.without_all_wandb(paths).wandb.dom().contains(path),
    decreases paths.len(),
{
    if paths.len() > 0 {
        let front = paths.drop_last();
        let last = paths.last();
        assert(paths[paths.len() - 1] == last);
        assert forall|i: int| 0 <= i < front.len() implies project.wandb.dom().contains(
            #[trigger] front[i],
        ) && home != Home::Wandb(front[i]) by {
            assert(front[i] == paths[i]);
        }
        lemma_without_all_wandb_beside(project, run, home, front);
        let before = project.without_all_wandb(front);
        assert(!front.contains(last)) by {
            if front.contains(last) {
                let i = choose|i: int| 0 <= i < front.len() && front[i] == last;
                assert(paths[i] == last);
            }
        }
        assert(before.wandb.dom().contains(last));
        lemma_without_wandb_beside(before, run, home, last);
        assert forall|path: Seq<char>|
            project.wandb.dom().contains(path) && !paths.contains(path) implies
            #[trigger] project.without_all_wandb(paths).wandb.dom().contains(path) by {
            assert(!front.contains(path)) by {
                if front.contains(path) {
                    let i = choose|i: int| 0 <= i < front.len() && front[i] == path;
                    assert(paths[i] == path);
                }
            }
            assert(before.wandb.dom().contains(path));
        }
    }
}

proof fn lemma_with_wandb_beside(
    project: ProjectModel,
    run: Seq<char>,
    home: Home,
    root: WandbRootModel,
)
    requires
        lives_in(project, run, home),
    ensures
        beside(run, home, project, project.with_wandb(root)),
        project.with_wandb(root).wandb.dom().contains(root.path),
        home == Home::Wandb(root.path) ==> project.with_wandb(root) == project,
{
    if !project.wandb.dom().contains(root.path) {
        law_fresh_name_is_free(project.runs.dom(), root.name);
        let after = project.with_wandb(root);
        assert(after.wandb.dom() =~= project.wandb.dom().insert(root.path));
    }
}

impl<
    F: Fn(&str) -> Option<u64>,
    G: Fn(u64) -> u64,
    H: Fn(Moments, u64) -> Moments,
> Numeric<F, G, H> {
    /// Draining another root leaves a run alone.
    #[verifier::spinoff_prover]
    pub proof fn lemma_sync_wandb_beside(
        self,
        project: ProjectModel,
        run: Seq<char>,
        home: Home,
        root: WandbRootModel,
    )
        requires
            lives_in(project, run, home),
            home != Home::Wandb(root.path),
        ensures
            beside(run, home, project, self.sync_wandb(project, root)),
    {
        lemma_with_wandb_beside(project, run, home, root);
        let named = project.with_wandb(root);
        let state = named.wandb[root.path];
        assert(named.wandb.dom().contains(root.path));
        assert(state.run != run);
        if named.runs.dom().contains(state.run) {
            let intake = named.intake(state.run);
            let (taken, next) = self.drain_wandb(intake, state, root.file);
            self.lemma_wandb_apart(intake, state, root);
            let after = self.sync_wandb(project, root);
            assert(after.wandb.dom() =~= named.wandb.dom());
            assert(after.runs.dom() =~= named.runs.dom());
            assert(after.runs[run] == named.runs[run]);
            assert(no_other_home(after, run, home)) by {
                assert forall|path: Seq<char>| #[trigger]
                    after.wandb.dom().contains(path) && home != Home::Wandb(path) implies
                    after.wandb[path].run != run by {
                    assert(named.wandb.dom().contains(path));
                }
            }
            lemma_apart_held(named, after, state.run, run);
            assert(same_home(home, named, after));
            assert(lives_in(after, run, home));
            assert(beside(run, home, named, after));
            lemma_beside_both(run, home, project, named, after);
        }
    }

    proof fn lemma_sync_all_wandb(
        self,
        project: ProjectModel,
        run: Seq<char>,
        tag: Seq<char>,
        home: Home,
        contents: Contents,
        later: Contents,
        roots: Seq<WandbRootModel>,
    )
        requires
            self.settled(project, run, tag, home, contents),
            home matches Home::Wandb(path) ==> wandb_read(
                project.wandb[path],
                roots,
                path,
                tag,
                held(home, tag, later),
            )
                && home_grown(home, tag, contents, later),
        ensures
            ({
                let after = self.sync_all_wandb(project, roots);
                match home {
                    Home::Wandb(path) => if wandb_paths(roots).contains(path) {
                        self.settled(after, run, tag, home, later)
                    } else {
                        self.settled(after, run, tag, home, contents) && after.wandb[path]
                            == project.wandb[path]
                    },
                    _ => self.settled(after, run, tag, home, contents) && same_home(
                        home,
                        project,
                        after,
                    ),
                }
            }),
        decreases roots.len(),
    {
        if roots.len() > 0 {
            let front = roots.drop_last();
            let last = roots.last();
            assert(roots[roots.len() - 1] == last);
            assert(wandb_paths(roots).drop_last() =~= wandb_paths(front));
            assert forall|path: Seq<char>| wandb_paths(roots).contains(path) <==> wandb_paths(
                front,
            ).contains(path) || path == last.path by {
                if wandb_paths(front).contains(path) {
                    let i = choose|i: int| 0 <= i < front.len() && wandb_paths(front)[i] == path;
                    assert(wandb_paths(roots)[i] == path);
                }
                if path == last.path {
                    assert(wandb_paths(roots)[roots.len() - 1] == path);
                }
                if wandb_paths(roots).contains(path) && path != last.path {
                    let i = choose|i: int| 0 <= i < roots.len() && wandb_paths(roots)[i] == path;
                    assert(wandb_paths(front)[i] == path);
                }
            }
            if let Home::Wandb(path) = home {
                assert(wandb_read(
                    project.wandb[path],
                    front,
                    path,
                    tag,
                    held(home, tag, later),
                )) by {
                    assert forall|i: int, j: int|
                        0 <= i < j < front.len() && (#[trigger] front[i]).path == path implies (
                    #[trigger] front[j]).path != path by {
                        assert(front[i] == roots[i] && front[j] == roots[j]);
                    }
                    assert forall|i: int|
                        0 <= i < front.len() && (#[trigger] front[i]).path == path implies
                        wandb_root_read(
                            project.wandb[path],
                            front[i],
                            tag,
                            held(home, tag, later),
                        ) by {
                        assert(front[i] == roots[i]);
                    }
                }
            }
            self.lemma_sync_all_wandb(project, run, tag, home, contents, later, front);
            let before = self.sync_all_wandb(project, front);
            if home == Home::Wandb(last.path) {
                assert(!wandb_paths(front).contains(last.path)) by {
                    if wandb_paths(front).contains(last.path) {
                        let i = choose|i: int|
                            0 <= i < front.len() && wandb_paths(front)[i] == last.path;
                        assert(roots[i].path == last.path);
                    }
                }
                lemma_with_wandb_beside(before, run, home, last);
                self.lemma_sync_own_wandb(before, run, tag, last, contents, later);
            } else {
                self.lemma_sync_wandb_beside(before, run, home, last);
                let had = match home {
                    Home::Wandb(path) => if wandb_paths(front).contains(path) {
                        later
                    } else {
                        contents
                    },
                    _ => contents,
                };
                self.lemma_beside_settled(
                    before,
                    self.sync_wandb(before, last),
                    run,
                    tag,
                    home,
                    had,
                );
            }
        }
    }

    /// The wandb logs of a pass keep a series settled.
    pub proof fn lemma_pass_wandb(
        self,
        project: ProjectModel,
        run: Seq<char>,
        tag: Seq<char>,
        home: Home,
        contents: Contents,
        later: Contents,
        roots: Seq<WandbRootModel>,
    )
        requires
            self.settled(project, run, tag, home, contents),
            home matches Home::Wandb(path) ==> wandb_read(
                project.wandb[path],
                roots,
                path,
                tag,
                held(home, tag, later),
            )
                && wandb_paths(roots).contains(path) && home_grown(home, tag, contents, later),
        ensures
            self.settled(
                self.pass_wandb(project, roots),
                run,
                tag,
                home,
                if home is Wandb {
                    later
                } else {
                    contents
                },
            ),
            !(home is Wandb) ==> same_home(home, project, self.pass_wandb(project, roots)),
    {
        let paths = sorted(project.wandb.dom());
        lemma_sorted(project.wandb.dom());
        let gone = lost(wandb_paths(roots), paths);
        lemma_lost(wandb_paths(roots), paths);
        assert forall|i: int| 0 <= i < gone.len() implies project.wandb.dom().contains(
            #[trigger] gone[i],
        ) && home != Home::Wandb(gone[i]) by {
            assert(paths.contains(gone[i]));
        }
        lemma_without_all_wandb_beside(project, run, home, gone);
        let left = project.without_all_wandb(gone);
        self.lemma_beside_settled(project, left, run, tag, home, contents);
        self.lemma_sync_all_wandb(left, run, tag, home, contents, later, roots);
    }
}

/// A root is found once, and its files were read on.
pub open spec fn wandb_read(
    state: WandbStateModel,
    roots: Seq<WandbRootModel>,
    path: Seq<char>,
    tag: Seq<char>,
    now: Seq<u8>,
) -> bool {
    &&& forall|i: int, j: int|
        0 <= i < j < roots.len() && (#[trigger] roots[i]).path == path ==> (
        #[trigger] roots[j]).path != path
    &&& forall|i: int|
        0 <= i < roots.len() && (#[trigger] roots[i]).path == path ==> wandb_root_read(
            state,
            roots[i],
            tag,
            now,
        )
}

} // verus!
