//! The catalog and its reload loop: scan the root, drain what the files have
//! grown by, keep every summary current.
//!
//! The file offset is the resume state, so a live tick is an incremental
//! read, not a re-parse. Materialization is a transient full re-read of one
//! series up to the reload loop's committed frontier (never past it, so a
//! later refresh can append incrementally without duplicating points),
//! bounded by an LRU cap.
//!
//! The disk is read by the caller. A pass asks where each file is to be read
//! on from, reads what is there, and hands it in as a [`Disk`].
use vstd::prelude::*;

use crate::backends::{
    known_offset, offset_of, option_document, shrank, option_log, param_models, text_models, DocumentModel, DvcliveModel,
    DvcliveState, LogFile, LogFileModel, MlflowModel, MlflowState, ParamFile, ParamFileModel,
    ParamsDocument, TextFile, TextModel, WandbState, WandbStateModel,
};
use crate::cache::{CachedFile, CachedModel, CachedProject};
use crate::drain::{advanced, EventLog, LogModel};
use crate::discover::{join, joined};
use crate::materialize::{
    events_of, events_points, events_snapshots, lemma_pushed_concat, lemma_pushed_onto_start,
    lemma_snapshots_concat, points_of_events, snapshots_of_events, snapshots_onto, upto,
};
use crate::names::{sorted, NameMap};
use crate::naming::{fresh_name, unique_run_name};
use crate::numeric::{Moments, Numeric};
use crate::run::{
    histograms_shelf, points_shelf, Backend, HeldHistograms, HeldPoints, Intake, RefreshReport,
    Run, RunModel, Sink, Stamp,
};
use crate::series::{
    count_up, counted, HistogramSeries, HistogramsModel, PointStamp, Points, PointsModel,
    SeriesClass, SnapshotModel,
};
use crate::shelf::{shelved, Key, Shelf};
use crate::text::{lines_of, push_text, same_text, text_of};
use crate::warm::{put_run, runs_wf};

verus! {

/// What is known of a file on disk.
#[derive(Clone, Copy, PartialEq, Eq, Structural, Debug)]
pub enum Stat {
    /// It is there.
    Known {
        /// Its length.
        len: u64,
        /// When it was last modified, where that is known.
        mtime: Option<Stamp>,
    },
    /// It is not there.
    Gone,
    /// It could not be asked.
    Unknown,
}

/// An event file that the walk found.
pub struct EventSource {
    /// The name of its run.
    pub run: String,
    /// Where it is.
    pub path: String,
    /// The directory it is in.
    pub dir: String,
    /// What is known of it.
    pub stat: Stat,
    /// Whether it can be opened; it may have vanished since it was found.
    pub opened: bool,
}

/// What an [`EventSource`] holds.
#[verifier::ext_equal]
pub struct SourceModel {
    pub run: Seq<char>,
    pub path: Seq<char>,
    pub dir: Seq<char>,
    pub stat: Stat,
    pub opened: bool,
}

impl View for EventSource {
    type V = SourceModel;

    open spec fn view(&self) -> SourceModel {
        SourceModel {
            run: self.run@,
            path: self.path@,
            dir: self.dir@,
            stat: self.stat,
            opened: self.opened,
        }
    }
}

/// What a list of event files holds.
pub open spec fn source_models(sources: Seq<EventSource>) -> Seq<SourceModel> {
    sources.map_values(|source: EventSource| source@)
}

/// What an event file has grown by.
pub struct EventTail {
    /// The bytes behind what was read of it.
    pub bytes: Vec<u8>,
    /// Whether reading ended in an error.
    pub failed: bool,
    /// What is known of the file behind the read.
    pub stat: Stat,
}

/// What an [`EventTail`] holds.
#[verifier::ext_equal]
pub struct TailModel {
    pub bytes: Seq<u8>,
    pub failed: bool,
    pub stat: Stat,
}

impl View for EventTail {
    type V = TailModel;

    open spec fn view(&self) -> TailModel {
        TailModel { bytes: self.bytes@, failed: self.failed, stat: self.stat }
    }
}

/// A dvclive root that the walk found.
pub struct DvcliveRoot {
    /// The name its run asks for.
    pub name: String,
    /// Where it is.
    pub path: String,
    /// The directory it is in.
    pub dir: String,
    /// Its params document, where there is one.
    pub document: Option<ParamsDocument>,
    /// Its metrics files.
    pub files: Vec<TextFile>,
}

/// What a [`DvcliveRoot`] holds.
#[verifier::ext_equal]
pub struct DvcliveRootModel {
    pub name: Seq<char>,
    pub path: Seq<char>,
    pub dir: Seq<char>,
    pub document: Option<DocumentModel>,
    pub files: Seq<TextModel>,
}

impl View for DvcliveRoot {
    type V = DvcliveRootModel;

    open spec fn view(&self) -> DvcliveRootModel {
        DvcliveRootModel {
            name: self.name@,
            path: self.path@,
            dir: self.dir@,
            document: option_document(self.document),
            files: text_models(self.files@),
        }
    }
}

/// An MLflow run directory that the walk found.
pub struct MlflowRoot {
    /// The name its run asks for.
    pub name: String,
    /// Where it is.
    pub path: String,
    /// Its param files.
    pub params: Vec<ParamFile>,
    /// Its metric files.
    pub files: Vec<TextFile>,
}

/// What an [`MlflowRoot`] holds.
#[verifier::ext_equal]
pub struct MlflowRootModel {
    pub name: Seq<char>,
    pub path: Seq<char>,
    pub params: Seq<ParamFileModel>,
    pub files: Seq<TextModel>,
}

impl View for MlflowRoot {
    type V = MlflowRootModel;

    open spec fn view(&self) -> MlflowRootModel {
        MlflowRootModel {
            name: self.name@,
            path: self.path@,
            params: param_models(self.params@),
            files: text_models(self.files@),
        }
    }
}

/// A wandb log that the walk found.
pub struct WandbRoot {
    /// The name its run asks for.
    pub name: String,
    /// Where it is.
    pub path: String,
    /// The directory it is in.
    pub dir: String,
    /// What is there; `None` where it has vanished since.
    pub file: Option<LogFile>,
}

/// What a [`WandbRoot`] holds.
#[verifier::ext_equal]
pub struct WandbRootModel {
    pub name: Seq<char>,
    pub path: Seq<char>,
    pub dir: Seq<char>,
    pub file: Option<LogFileModel>,
}

impl View for WandbRoot {
    type V = WandbRootModel;

    open spec fn view(&self) -> WandbRootModel {
        WandbRootModel {
            name: self.name@,
            path: self.path@,
            dir: self.dir@,
            file: option_log(self.file),
        }
    }
}

/// What one pass finds on disk.
pub struct Disk {
    /// The event files, as found.
    pub events: Vec<EventSource>,
    /// What each event file under reading has grown by.
    pub tails: NameMap<EventTail>,
    /// The dvclive roots, in path order.
    pub dvclive: Vec<DvcliveRoot>,
    /// The MLflow run directories, in path order.
    pub mlflow: Vec<MlflowRoot>,
    /// The wandb logs, in path order.
    pub wandb: Vec<WandbRoot>,
}

/// What a [`Disk`] holds.
#[verifier::ext_equal]
pub struct DiskModel {
    pub events: Seq<SourceModel>,
    pub tails: Map<Seq<char>, TailModel>,
    pub dvclive: Seq<DvcliveRootModel>,
    pub mlflow: Seq<MlflowRootModel>,
    pub wandb: Seq<WandbRootModel>,
}

impl View for Disk {
    type V = DiskModel;

    open spec fn view(&self) -> DiskModel {
        DiskModel {
            events: source_models(self.events@),
            tails: self.tails.model(),
            dvclive: self.dvclive@.map_values(|root: DvcliveRoot| root@),
            mlflow: self.mlflow@.map_values(|root: MlflowRoot| root@),
            wandb: self.wandb@.map_values(|root: WandbRoot| root@),
        }
    }
}

/// A scanned root: runs, series, summaries, resume states, and the
/// materialization table.
pub struct Project {
    root: String,
    runs: NameMap<Run>,
    dropped_records: u64,
    dead_files: u64,
    files: NameMap<EventLog>,
    dvclive: NameMap<DvcliveState>,
    mlflow: NameMap<MlflowState>,
    wandb: NameMap<WandbState>,
    sink: Sink,
    clock: u64,
    cached: NameMap<CachedFile>,
}

/// What a [`Project`] holds.
#[verifier::ext_equal]
pub struct ProjectModel {
    pub root: Seq<char>,
    pub runs: Map<Seq<char>, RunModel>,
    pub dropped_records: u64,
    pub dead_files: u64,
    /// The event files under reading, by path.
    pub files: Map<Seq<char>, LogModel>,
    /// The dvclive roots under reading, by path.
    pub dvclive: Map<Seq<char>, DvcliveModel>,
    /// The MLflow runs under reading, by path.
    pub mlflow: Map<Seq<char>, MlflowModel>,
    /// The wandb logs under reading, by path.
    pub wandb: Map<Seq<char>, WandbStateModel>,
    pub points: HeldPoints,
    pub histograms: HeldHistograms,
    /// What the current pass did so far.
    pub report: RefreshReport,
    pub clock: u64,
    /// Resume state loaded from the summary cache, consumed as files open.
    pub cached: Map<Seq<char>, CachedModel>,
}

impl View for Project {
    type V = ProjectModel;

    closed spec fn view(&self) -> ProjectModel {
        ProjectModel {
            root: self.root@,
            runs: self.runs.model(),
            dropped_records: self.dropped_records,
            dead_files: self.dead_files,
            files: self.files.model(),
            dvclive: self.dvclive.model(),
            mlflow: self.mlflow.model(),
            wandb: self.wandb.model(),
            points: self.sink.points.model(),
            histograms: self.sink.histograms.model(),
            report: self.sink.report,
            clock: self.clock,
            cached: self.cached.model(),
        }
    }
}

impl ProjectModel {
    /// A project of which nothing was read yet.
    pub open spec fn start(root: Seq<char>) -> ProjectModel {
        ProjectModel {
            root,
            runs: Map::empty(),
            dropped_records: 0,
            dead_files: 0,
            files: Map::empty(),
            dvclive: Map::empty(),
            mlflow: Map::empty(),
            wandb: Map::empty(),
            points: Map::empty(),
            histograms: Map::empty(),
            report: RefreshReport::start(),
            clock: 0,
            cached: Map::empty(),
        }
    }

    /// What a run is read into.
    pub open spec fn intake(self, run: Seq<char>) -> Intake {
        Intake {
            run: self.runs[run],
            points: self.points,
            histograms: self.histograms,
            report: self.report,
        }
    }

    /// With what was read into a run.
    pub open spec fn with_intake(self, run: Seq<char>, intake: Intake) -> ProjectModel {
        ProjectModel {
            runs: self.runs.insert(run, intake.run),
            points: intake.points,
            histograms: intake.histograms,
            report: intake.report,
            ..self
        }
    }

    /// With a run of that name, made where there is none.
    pub open spec fn with_run(
        self,
        name: Seq<char>,
        backend: Backend,
        dir: Seq<char>,
    ) -> ProjectModel {
        if self.runs.dom().contains(name) {
            self
        } else {
            ProjectModel {
                runs: self.runs.insert(name, RunModel::start(backend, dir)),
                ..self
            }
        }
    }
}

/// A file is still what the cache says it was, or has grown since.
pub open spec fn intact(cached: CachedModel, stat: Stat) -> bool {
    match stat {
        Stat::Known { len, mtime } => len > cached.size || (len == cached.size && mtime == Some(
            cached.mtime,
        )),
        _ => false,
    }
}

/// A cached file was found, intact.
pub open spec fn found_intact(
    path: Seq<char>,
    cached: CachedModel,
    sources: Seq<SourceModel>,
) -> bool {
    exists|i: int|
        0 <= i < sources.len() && (#[trigger] sources[i]).path == path && intact(
            cached,
            sources[i].stat,
        )
}

/// The runs of the cached files that vanished, shrank, or changed without
/// growing.
pub open spec fn tainted(
    cached: Map<Seq<char>, CachedModel>,
    sources: Seq<SourceModel>,
    paths: Seq<Seq<char>>,
) -> Seq<Seq<char>>
    decreases paths.len(),
{
    if paths.len() == 0 {
        Seq::empty()
    } else {
        let before = tainted(cached, sources, paths.drop_last());
        let path = paths.last();
        if found_intact(path, cached[path], sources) {
            before
        } else {
            before.push(cached[path].run)
        }
    }
}

/// Cached files without those of a run.
pub open spec fn without_cached(cached: Map<Seq<char>, CachedModel>, run: Seq<char>) -> Map<
    Seq<char>,
    CachedModel,
> {
    cached.restrict(Set::new(|path: Seq<char>| cached[path].run != run))
}

impl ProjectModel {
    /// Without the cached state of runs.
    pub open spec fn without_cached_runs(self, runs: Seq<Seq<char>>) -> ProjectModel
        decreases runs.len(),
    {
        if runs.len() == 0 {
            self
        } else {
            let before = self.without_cached_runs(runs.drop_last());
            ProjectModel {
                runs: before.runs.remove(runs.last()),
                cached: without_cached(before.cached, runs.last()),
                ..before
            }
        }
    }

    /// With the cache held against what is on disk: a cached file that
    /// vanished, shrank, or changed without growing invalidates its whole run
    /// — its summaries came from bytes that can no longer be trusted. A grown
    /// file is the normal live case and resumes from its offset.
    pub open spec fn validated(self, sources: Seq<SourceModel>) -> ProjectModel {
        self.without_cached_runs(tainted(self.cached, sources, sorted(self.cached.dom())))
    }

    /// With an event file opened, unless it is under reading already or
    /// cannot be opened.
    pub open spec fn opened(self, source: SourceModel) -> ProjectModel {
        if self.files.dom().contains(source.path) || !source.opened {
            self
        } else {
            let offset = if self.cached.dom().contains(source.path) {
                self.cached[source.path].offset
            } else {
                0
            };
            let named = self.with_run(source.run, Backend::Tfevents, source.dir);
            ProjectModel {
                cached: self.cached.remove(source.path),
                files: self.files.insert(source.path, LogModel::start(source.run, offset)),
                report: self.report.opened(),
                ..named
            }
        }
    }

    /// With event files opened, one behind the other.
    pub open spec fn all_opened(self, sources: Seq<SourceModel>) -> ProjectModel
        decreases sources.len(),
    {
        if sources.len() == 0 {
            self
        } else {
            self.all_opened(sources.drop_last()).opened(sources.last())
        }
    }
}

/// Every log is sound.
pub open spec fn logs_wf(logs: NameMap<EventLog>) -> bool {
    &&& logs.wf()
    &&& forall|i: int| 0 <= i < logs.values().len() ==> (#[trigger] logs.values()[i]).wf()
}

/// Every dvclive state is sound.
pub open spec fn dvclive_wf(states: NameMap<DvcliveState>) -> bool {
    &&& states.wf()
    &&& forall|i: int| 0 <= i < states.values().len() ==> (#[trigger] states.values()[i]).wf()
}

/// Every MLflow state is sound.
pub open spec fn mlflow_wf(states: NameMap<MlflowState>) -> bool {
    &&& states.wf()
    &&& forall|i: int| 0 <= i < states.values().len() ==> (#[trigger] states.values()[i]).wf()
}

/// What holds of every value of a map holds of every value behind an
/// insertion of one of which it holds.
proof fn lemma_every_insert<V>(
    after: NameMap<V>,
    before: NameMap<V>,
    name: Seq<char>,
    at: int,
    value: V,
    sound: spec_fn(V) -> bool,
)
    requires
        before.wf(),
        forall|i: int| 0 <= i < before.values().len() ==> sound(#[trigger] before.values()[i]),
        sound(value),
        after.wf(),
        before.has(name) ==> at == before.index_of(name) && after.values()
            == before.values().update(at, value),
        !before.has(name) ==> 0 <= at <= before.values().len() && after.values()
            == before.values().insert(at, value),
    ensures
        forall|i: int| 0 <= i < after.values().len() ==> sound(#[trigger] after.values()[i]),
{
    if before.has(name) {
        before.lemma_index(before.index_of(name));
    }
    assert forall|i: int| 0 <= i < after.values().len() implies sound(
        #[trigger] after.values()[i],
    ) by {
        if before.has(name) {
            if i != at {
                assert(after.values()[i] == before.values()[i]);
            }
        } else if i < at {
            assert(after.values()[i] == before.values()[i]);
        } else if i > at {
            assert(after.values()[i] == before.values()[i - 1]);
        }
    }
}

/// What holds of every value of a map holds of every value behind a removal.
proof fn lemma_every_remove<V>(after: Seq<V>, before: Seq<V>, at: int, sound: spec_fn(V) -> bool)
    requires
        forall|i: int| 0 <= i < before.len() ==> sound(#[trigger] before[i]),
        0 <= at < before.len(),
        after == before.remove(at),
    ensures
        forall|i: int| 0 <= i < after.len() ==> sound(#[trigger] after[i]),
{
    assert forall|i: int| 0 <= i < after.len() implies sound(#[trigger] after[i]) by {
        if i < at {
            assert(after[i] == before[i]);
        } else {
            assert(after[i] == before[i + 1]);
        }
    }
}

/// Takes a run out of a map of runs.
fn remove_run(runs: &mut NameMap<Run>, name: &str)
    requires
        runs_wf(*old(runs)),
    ensures
        runs_wf(*final(runs)),
        final(runs).model() == old(runs).model().remove(name@),
{
    let ghost before = *runs;
    match runs.find(name) {
        Some(at) => {
            let _ = runs.remove_at(at);
            proof {
                runs.lemma_model_remove_at(before, at as int);
                lemma_every_remove(
                    runs.values(),
                    before.values(),
                    at as int,
                    |run: Run| run.wf(),
                );
            }
        },
        None => {
            proof {
                before.lemma_model_has(name@);
                assert(runs.model() =~= before.model().remove(name@));
            }
        },
    }
}

/// Takes the cached files of a run out.
fn remove_cached(cached: &mut NameMap<CachedFile>, run: &str)
    requires
        old(cached).wf(),
    ensures
        final(cached).wf(),
        final(cached).model() == without_cached(old(cached).model(), run@),
{
    let ghost start = cached.model();
    let mut i: usize = cached.len();
    proof {
        assert(without_cached(cached.model(), run@) =~= without_cached(start, run@));
    }
    while i > 0
        invariant
            i <= cached.names().len(),
            cached.wf(),
            start == old(cached).model(),
            without_cached(cached.model(), run@) == without_cached(start, run@),
            forall|k: int|
                i <= k < cached.names().len() ==> (#[trigger] cached.values()[k]).run@ != run@,
        decreases i,
    {
        i = i - 1;
        let ghost before = *cached;
        if same_text(&cached.value_at(i).run, run) {
            let _ = cached.remove_at(i);
            proof {
                cached.lemma_model_remove_at(before, i as int);
                before.lemma_model_index(i as int);
                assert(without_cached(cached.model(), run@) =~= without_cached(
                    before.model(),
                    run@,
                ));
                assert forall|k: int| i <= k < cached.names().len() implies (
                #[trigger] cached.values()[k]).run@ != run@ by {
                    assert(cached.values()[k] == before.values()[k + 1]);
                }
            }
        }
    }
    proof {
        assert forall|path: Seq<char>| cached.model().dom().contains(path) implies
        cached.model()[path].run != run@ by {
            cached.lemma_model_has(path);
            let k = cached.index_of(path);
            cached.lemma_index(k);
            assert(cached.values()[k].run@ != run@);
        }
        assert(cached.model() =~= without_cached(cached.model(), run@));
    }
}

/// Whether a cached file was found, intact.
fn is_found_intact(path: &str, cached: &CachedFile, sources: &Vec<EventSource>) -> (result: bool)
    ensures
        result == found_intact(path@, cached@, source_models(sources@)),
{
    let ghost models = source_models(sources@);
    let mut i: usize = 0;
    while i < sources.len()
        invariant
            i <= sources@.len(),
            models == source_models(sources@),
            forall|k: int|
                0 <= k < i ==> !((#[trigger] models[k]).path == path@ && intact(
                    cached@,
                    models[k].stat,
                )),
        decreases sources@.len() - i,
    {
        assert(models[i as int] == sources@[i as int]@);
        if same_text(&sources[i].path, path) {
            if let Stat::Known { len, mtime } = sources[i].stat {
                if len > cached.size || (len == cached.size && mtime == Some(cached.mtime)) {
                    return true;
                }
            }
        }
        i += 1;
    }
    false
}

/// The runs of the cached files that can no longer be trusted.
fn tainted_runs(cached: &NameMap<CachedFile>, sources: &Vec<EventSource>) -> (runs: Vec<String>)
    requires
        cached.wf(),
    ensures
        crate::text::texts(runs@) == tainted(
            cached.model(),
            source_models(sources@),
            sorted(cached.model().dom()),
        ),
{
    let ghost paths = cached.names();
    let ghost models = source_models(sources@);
    proof {
        cached.lemma_model_names();
        assert(paths.take(0) =~= Seq::<Seq<char>>::empty());
    }
    let mut runs: Vec<String> = Vec::new();
    assert(crate::text::texts(runs@) =~= Seq::<Seq<char>>::empty());
    let mut i: usize = 0;
    while i < cached.len()
        invariant
            i <= cached.names().len(),
            cached.wf(),
            paths == cached.names(),
            models == source_models(sources@),
            crate::text::texts(runs@) == tainted(cached.model(), models, paths.take(i as int)),
        decreases cached.names().len() - i,
    {
        proof {
            cached.lemma_model_index(i as int);
            assert(paths.take(i + 1).drop_last() =~= paths.take(i as int));
            assert(paths.take(i + 1).last() == paths[i as int]);
        }
        let file = cached.value_at(i);
        if !is_found_intact(cached.name_at(i), file, sources) {
            let ghost before = crate::text::texts(runs@);
            runs.push(file.run.clone());
            assert(crate::text::texts(runs@) =~= before.push(file.run@));
        }
        i += 1;
    }
    assert(paths.take(i as int) =~= paths);
    runs
}

impl Project {
    /// The project's maps are in order, and what they hold is sound.
    pub closed spec fn wf(self) -> bool {
        &&& runs_wf(self.runs)
        &&& logs_wf(self.files)
        &&& dvclive_wf(self.dvclive)
        &&& mlflow_wf(self.mlflow)
        &&& self.wandb.wf()
        &&& self.cached.wf()
        &&& self.sink.wf()
    }

    /// The catalog as it is kept.
    pub closed spec fn catalog(self) -> NameMap<Run> {
        self.runs
    }

    /// The catalog is what the project's model says, and sound.
    pub proof fn law_catalog_is_the_model(self)
        ensures
            self.catalog().model() == self@.runs,
            self.wf() ==> runs_wf(self.catalog()),
    {
    }

    /// The catalog, by run name.
    pub fn runs(&self) -> (runs: &NameMap<Run>)
        ensures
            *runs == self.catalog(),
            runs.model() == self@.runs,
            self.wf() ==> runs_wf(*runs),
    {
        &self.runs
    }

    /// Cumulative records lost to corruption or undecodable bytes.
    pub fn dropped_records(&self) -> (count: u64)
        ensures
            count == self@.dropped_records,
    {
        self.dropped_records
    }

    /// Cumulative files whose framing died; their valid prefix is retained.
    pub fn dead_files(&self) -> (count: u64)
        ensures
            count == self@.dead_files,
    {
        self.dead_files
    }

    /// A project over `root`. The root may not exist yet — a trainer that
    /// has not started is a normal state, and refreshes simply find nothing.
    pub fn new(root: String) -> (project: Project)
        ensures
            project.wf(),
            project@ == ProjectModel::start(root@),
    {
        let project = Project {
            root,
            runs: NameMap::new(),
            dropped_records: 0,
            dead_files: 0,
            files: NameMap::new(),
            dvclive: NameMap::new(),
            mlflow: NameMap::new(),
            wandb: NameMap::new(),
            sink: Sink::new(),
            clock: 0,
            cached: NameMap::new(),
        };
        assert(project@ =~= ProjectModel::start(project.root@));
        project
    }

    /// The scanned root.
    pub fn root(&self) -> (root: &String)
        ensures
            root@ == self@.root,
    {
        &self.root
    }

    /// Takes a loaded summary cache in. Only before the first refresh that
    /// finds a file: summaries install immediately, and files unchanged since
    /// the save are not re-read — grown files resume from their cached
    /// offsets. Returns whether the cache was taken.
    pub fn load_cache(&mut self, cached: Option<CachedProject>) -> (loaded: bool)
        requires
            old(self).wf(),
            cached matches Some(c) ==> runs_wf(c.runs) && c.files.wf(),
        ensures
            final(self).wf(),
            loaded == (old(self)@.files.dom() == Set::<Seq<char>>::empty() && cached is Some),
            loaded ==> final(self)@ == (ProjectModel {
                runs: cached->0.runs.model(),
                cached: cached->0.files.model(),
                ..old(self)@
            }),
            !loaded ==> final(self)@ == old(self)@,
    {
        proof {
            if self.files.names().len() > 0 {
                self.files.lemma_model_index(0);
                assert(self@.files.dom().contains(self.files.names()[0]));
            } else {
                assert forall|path: Seq<char>| !self@.files.dom().contains(path) by {
                    self.files.lemma_model_has(path);
                }
                assert(self@.files.dom() =~= Set::<Seq<char>>::empty());
            }
        }
        if !self.files.is_empty() {
            return false;
        }
        match cached {
            Some(cached) => {
                self.runs = cached.runs;
                self.cached = cached.files;
                true
            },
            None => false,
        }
    }

    /// Holds the cache against what is on disk.
    fn validate(&mut self, sources: &Vec<EventSource>)
        requires
            old(self).wf(),
        ensures
            final(self).wf(),
            final(self)@ == old(self)@.validated(source_models(sources@)),
    {
        let runs = tainted_runs(&self.cached, sources);
        let ghost all = crate::text::texts(runs@);
        let ghost start = self@;
        let mut i: usize = 0;
        assert(all.take(0) =~= Seq::<Seq<char>>::empty());
        while i < runs.len()
            invariant
                i <= runs@.len(),
                all == crate::text::texts(runs@),
                self.wf(),
                self@ == start.without_cached_runs(all.take(i as int)),
            decreases runs@.len() - i,
        {
            proof {
                assert(all.take(i + 1).drop_last() =~= all.take(i as int));
                assert(all.take(i + 1).last() == runs@[i as int]@);
            }
            remove_run(&mut self.runs, &runs[i]);
            remove_cached(&mut self.cached, &runs[i]);
            i += 1;
        }
        assert(all.take(i as int) =~= all);
    }

    /// A run of that name, made where there is none.
    fn ensure_run(&mut self, name: &str, backend: Backend, dir: &str)
        requires
            old(self).wf(),
        ensures
            final(self).wf(),
            final(self)@ == old(self)@.with_run(name@, backend, dir@),
    {
        proof {
            self.runs.lemma_model_has(name@);
        }
        if !self.runs.contains(name) {
            put_run(&mut self.runs, name.to_owned(), Run::new(backend, dir.to_owned()));
        }
    }

    /// Opens an event file, unless it is under reading already or cannot be
    /// opened.
    fn open(&mut self, source: &EventSource)
        requires
            old(self).wf(),
        ensures
            final(self).wf(),
            final(self)@ == old(self)@.opened(source@),
    {
        proof {
            self.files.lemma_model_has(source.path@);
            self.cached.lemma_model_has(source.path@);
        }
        if self.files.contains(&source.path) || !source.opened {
            return ;
        }
        let ghost before = *self;
        let offset: u64 = match self.cached.remove(&source.path) {
            Some(cached) => cached.offset,
            None => 0,
        };
        proof {
            self.cached.lemma_model_remove(before.cached, source.path@);
        }
        self.ensure_run(&source.run, Backend::Tfevents, &source.dir);
        let ghost named = *self;
        let log = EventLog::new(source.run.clone(), offset);
        let at: usize = self.files.insert(source.path.clone(), log);
        proof {
            self.files.lemma_model_insert(named.files, source.path@, log);
            lemma_every_insert(
                self.files,
                named.files,
                source.path@,
                at as int,
                log,
                |log: EventLog| log.wf(),
            );
        }
        self.sink.report.count_opened();
    }
}

/// The log of a run's file as it will be when it is opened, or as it is.
pub open spec fn resume_offset(project: ProjectModel, path: Seq<char>) -> u64 {
    if project.files.dom().contains(path) {
        advanced(project.files[path].committed, project.files[path].pending.len())
    } else if project.cached.dom().contains(path) {
        project.cached[path].offset
    } else {
        0
    }
}

/// Whether a text is in a list.
pub fn has_text(list: &Vec<String>, text: &str) -> (result: bool)
    ensures
        result == crate::text::texts(list@).contains(text@),
{
    let ghost all = crate::text::texts(list@);
    let mut i: usize = 0;
    while i < list.len()
        invariant
            i <= list@.len(),
            all == crate::text::texts(list@),
            forall|k: int| 0 <= k < i ==> #[trigger] all[k] != text@,
        decreases list@.len() - i,
    {
        assert(all[i as int] == list@[i as int]@);
        if same_text(&list[i], text) {
            return true;
        }
        i += 1;
    }
    false
}

impl Project {
    /// Where an event file is to be read on from in the next pass, given what
    /// the walk found.
    pub fn event_offset(&self, sources: &Vec<EventSource>, path: &str) -> (offset: u64)
        requires
            self.wf(),
        ensures
            offset == resume_offset(self@.validated(source_models(sources@)), path@),
    {
        let runs = tainted_runs(&self.cached, sources);
        let ghost all = crate::text::texts(runs@);
        proof {
            lemma_files_stay(self@, all);
            lemma_cached_left(self@, all, path@);
            self.files.lemma_model_has(path@);
            self.cached.lemma_model_has(path@);
        }
        if let Some(log) = self.files.get(path) {
            assert(log.wf()) by {
                self.files.lemma_index(self.files.index_of(path@));
            }
            return log.consumed();
        }
        match self.cached.get(path) {
            Some(cached) => if has_text(&runs, &cached.run) {
                0
            } else {
                cached.offset
            },
            None => 0,
        }
    }
}

proof fn lemma_files_stay(project: ProjectModel, runs: Seq<Seq<char>>)
    ensures
        project.without_cached_runs(runs).files == project.files,
    decreases runs.len(),
{
    if runs.len() > 0 {
        lemma_files_stay(project, runs.drop_last());
    }
}

/// What is left of the cached files: those of runs that were not dropped.
proof fn lemma_cached_left(project: ProjectModel, runs: Seq<Seq<char>>, path: Seq<char>)
    ensures
        ({
            let left = project.without_cached_runs(runs).cached;
            &&& left.dom().contains(path) <==> project.cached.dom().contains(path)
                && !runs.contains(project.cached[path].run)
            &&& left.dom().contains(path) ==> left[path] == project.cached[path]
        }),
    decreases runs.len(),
{
    if runs.len() > 0 {
        let front = runs.drop_last();
        lemma_cached_left(project, front, path);
        let run = project.cached[path].run;
        assert(runs.contains(run) <==> front.contains(run) || runs.last() == run) by {
            if runs.contains(run) {
                let k = choose|k: int| 0 <= k < runs.len() && runs[k] == run;
                if k < front.len() {
                    assert(front[k] == run);
                }
            }
            if front.contains(run) {
                let k = choose|k: int| 0 <= k < front.len() && front[k] == run;
                assert(runs[k] == run);
            }
            if runs.last() == run {
                assert(runs[runs.len() - 1] == run);
            }
        }
    }
}

/// What a file under reading has grown by; nothing where nothing is said of
/// it.
pub open spec fn tail_of(tails: Map<Seq<char>, TailModel>, path: Seq<char>) -> TailModel {
    if tails.dom().contains(path) {
        tails[path]
    } else {
        TailModel { bytes: Seq::empty(), failed: false, stat: Stat::Unknown }
    }
}

impl<
    F: Fn(&str) -> Option<u64>,
    G: Fn(u64) -> u64,
    H: Fn(Moments, u64) -> Moments,
> Numeric<F, G, H> {
    /// One event file drained into its run. A file whose run is gone is left
    /// alone.
    pub open spec fn drain_file(
        self,
        project: ProjectModel,
        path: Seq<char>,
        tails: Map<Seq<char>, TailModel>,
    ) -> ProjectModel {
        let log = project.files[path];
        if project.runs.dom().contains(log.run) {
            let tail = tail_of(tails, path);
            let (intake, next) = self.drain_log(
                project.intake(log.run),
                log,
                tail.bytes,
                tail.failed,
            );
            ProjectModel {
                files: project.files.insert(path, next),
                ..project.with_intake(log.run, intake)
            }
        } else {
            project
        }
    }

    /// Event files drained, one behind the other.
    pub open spec fn drain_files(
        self,
        project: ProjectModel,
        paths: Seq<Seq<char>>,
        tails: Map<Seq<char>, TailModel>,
    ) -> ProjectModel
        decreases paths.len(),
    {
        if paths.len() == 0 {
            project
        } else {
            self.drain_file(
                self.drain_files(project, paths.drop_last(), tails),
                paths.last(),
                tails,
            )
        }
    }
}

impl ProjectModel {
    /// With the modification time of a file noted in its run.
    pub open spec fn stamped(self, path: Seq<char>, stat: Stat) -> ProjectModel {
        let run = self.files[path].run;
        match stat {
            Stat::Known { mtime: Some(mtime), .. } => if self.runs.dom().contains(run) {
                ProjectModel {
                    runs: self.runs.insert(run, self.runs[run].written(mtime)),
                    ..self
                }
            } else {
                self
            },
            _ => self,
        }
    }

    /// With the modification times of files noted, one behind the other.
    pub open spec fn all_stamped(
        self,
        paths: Seq<Seq<char>>,
        tails: Map<Seq<char>, TailModel>,
    ) -> ProjectModel
        decreases paths.len(),
    {
        if paths.len() == 0 {
            self
        } else {
            self.all_stamped(paths.drop_last(), tails).stamped(
                paths.last(),
                tail_of(tails, paths.last()).stat,
            )
        }
    }

    /// The runs of the files that vanished.
    pub open spec fn vanished(
        self,
        paths: Seq<Seq<char>>,
        tails: Map<Seq<char>, TailModel>,
    ) -> Seq<Seq<char>>
        decreases paths.len(),
    {
        if paths.len() == 0 {
            Seq::empty()
        } else {
            let before = self.vanished(paths.drop_last(), tails);
            if tail_of(tails, paths.last()).stat == Stat::Gone {
                before.push(self.files[paths.last()].run)
            } else {
                before
            }
        }
    }

    /// Without a run, what is held of it, and its event files.
    pub open spec fn without_run(self, run: Seq<char>) -> ProjectModel {
        ProjectModel {
            runs: self.runs.remove(run),
            points: crate::shelf::without_run(self.points, run),
            histograms: crate::shelf::without_run(self.histograms, run),
            files: without_logs(self.files, run),
            ..self
        }
    }

    /// Without runs, one behind the other.
    pub open spec fn without_runs(self, runs: Seq<Seq<char>>) -> ProjectModel
        decreases runs.len(),
    {
        if runs.len() == 0 {
            self
        } else {
            self.without_runs(runs.drop_last()).without_run(runs.last())
        }
    }

    /// With modification times noted, and without the runs of vanished
    /// files. A vanished file taints its whole run: the sibling files are
    /// read to mid-file offsets, so the only honest recovery is to drop the
    /// run's state and let the next pass rebuild it from what is on disk.
    pub open spec fn swept(self, tails: Map<Seq<char>, TailModel>) -> ProjectModel {
        let paths = sorted(self.files.dom());
        self.all_stamped(paths, tails).without_runs(self.vanished(paths, tails))
    }
}

/// Event files without those of a run.
pub open spec fn without_logs(files: Map<Seq<char>, LogModel>, run: Seq<char>) -> Map<
    Seq<char>,
    LogModel,
> {
    files.restrict(Set::new(|path: Seq<char>| files[path].run != run))
}

/// Takes the event files of a run out.
fn remove_logs(files: &mut NameMap<EventLog>, run: &str)
    requires
        logs_wf(*old(files)),
    ensures
        logs_wf(*final(files)),
        final(files).model() == without_logs(old(files).model(), run@),
{
    let ghost start = files.model();
    let mut i: usize = files.len();
    proof {
        assert(without_logs(files.model(), run@) =~= without_logs(start, run@));
    }
    while i > 0
        invariant
            i <= files.names().len(),
            logs_wf(*files),
            start == old(files).model(),
            without_logs(files.model(), run@) == without_logs(start, run@),
            forall|k: int|
                i <= k < files.names().len() ==> (#[trigger] files.values()[k])@.run != run@,
        decreases i,
    {
        i = i - 1;
        let ghost before = *files;
        if same_text(files.value_at(i).run_name(), run) {
            let _ = files.remove_at(i);
            proof {
                files.lemma_model_remove_at(before, i as int);
                lemma_every_remove(
                    files.values(),
                    before.values(),
                    i as int,
                    |log: EventLog| log.wf(),
                );
                before.lemma_model_index(i as int);
                assert(without_logs(files.model(), run@) =~= without_logs(before.model(), run@));
                assert forall|k: int| i <= k < files.names().len() implies (
                #[trigger] files.values()[k])@.run != run@ by {
                    assert(files.values()[k] == before.values()[k + 1]);
                }
            }
        }
    }
    proof {
        assert forall|path: Seq<char>| files.model().dom().contains(path) implies
        files.model()[path].run != run@ by {
            files.lemma_model_has(path);
            let k = files.index_of(path);
            files.lemma_index(k);
            assert(files.values()[k]@.run != run@);
        }
        assert(files.model() =~= without_logs(files.model(), run@));
    }
}

impl Project {
    /// The event files under reading, by path.
    pub fn event_paths(&self) -> (paths: Vec<String>)
        requires
            self.wf(),
        ensures
            crate::text::texts(paths@) == sorted(self@.files.dom()),
    {
        let mut paths: Vec<String> = Vec::new();
        let mut i: usize = 0;
        proof {
            self.files.lemma_model_names();
        }
        while i < self.files.len()
            invariant
                i <= self.files.names().len(),
                paths@.len() == i,
                forall|k: int| 0 <= k < i ==> (#[trigger] paths@[k])@ == self.files.names()[k],
            decreases self.files.names().len() - i,
        {
            paths.push(self.files.name_at(i).clone());
            i += 1;
        }
        assert(crate::text::texts(paths@) =~= self.files.names());
        paths
    }

    /// Drains the event file at an index into its run.
    fn drain_file_at<
        F: Fn(&str) -> Option<u64>,
        G: Fn(u64) -> u64,
        H: Fn(Moments, u64) -> Moments,
    >(&mut self, i: usize, tails: &NameMap<EventTail>, numeric: &Numeric<F, G, H>)
        requires
            old(self).wf(),
            i < old(self).files.names().len(),
            tails.wf(),
            numeric.ok(),
        ensures
            final(self).wf(),
            final(self).files.names() == old(self).files.names(),
            final(self)@ == numeric.drain_file(
                old(self)@,
                old(self).files.names()[i as int],
                tails.model(),
            ),
    {
        let ghost before = *self;
        let ghost path = self.files.names()[i as int];
        let ghost log_before = self.files.values()[i as int];
        proof {
            self.files.lemma_model_index(i as int);
            self.runs.lemma_model_has(log_before@.run);
            tails.lemma_model_has(path);
        }
        let found = self.runs.find(self.files.value_at(i).run_name());
        if let Some(at) = found {
            proof {
                assert(self.runs.values()[at as int].wf());
                assert(self.files.values()[i as int].wf());
            }
            let ghost run_before = self.runs.values()[at as int];
            let tail = tails.get(self.files.name_at(i));
            let log = self.files.value_at_mut(i);
            let run = self.runs.value_at_mut(at);
            match tail {
                Some(tail) => {
                    log.drain(run, &mut self.sink, &tail.bytes, tail.failed, numeric);
                },
                None => {
                    let nothing: Vec<u8> = Vec::new();
                    assert(nothing@ =~= Seq::<u8>::empty());
                    log.drain(run, &mut self.sink, &nothing, false, numeric);
                },
            }
            proof {
                self.files.lemma_model_update(before.files, i as int);
                self.runs.lemma_model_update(before.runs, at as int);
                assert(before.sink.with(run_before) == before@.intake(log_before@.run));
                assert(self@ =~= numeric.drain_file(before@, path, tails.model()));
            }
        }
    }

    /// Drains every event file, in path order: files within a run drain in
    /// filename order, matching tfevents' timestamped naming.
    fn drain_event_files<
        F: Fn(&str) -> Option<u64>,
        G: Fn(u64) -> u64,
        H: Fn(Moments, u64) -> Moments,
    >(&mut self, tails: &NameMap<EventTail>, numeric: &Numeric<F, G, H>)
        requires
            old(self).wf(),
            tails.wf(),
            numeric.ok(),
        ensures
            final(self).wf(),
            final(self)@ == numeric.drain_files(
                old(self)@,
                sorted(old(self)@.files.dom()),
                tails.model(),
            ),
    {
        let ghost start = self@;
        let ghost paths = self.files.names();
        proof {
            self.files.lemma_model_names();
            assert(paths.take(0) =~= Seq::<Seq<char>>::empty());
        }
        let mut i: usize = 0;
        while i < self.files.len()
            invariant
                i <= self.files.names().len(),
                self.wf(),
                tails.wf(),
                numeric.ok(),
                paths == self.files.names(),
                self@ == numeric.drain_files(start, paths.take(i as int), tails.model()),
            decreases self.files.names().len() - i,
        {
            proof {
                assert(paths.take(i + 1).drop_last() =~= paths.take(i as int));
                assert(paths.take(i + 1).last() == paths[i as int]);
            }
            self.drain_file_at(i, tails, numeric);
            i += 1;
        }
        assert(paths.take(i as int) =~= paths);
    }

    /// Notes the modification time of the file at an index in its run.
    fn stamp_at(&mut self, i: usize, stat: Stat)
        requires
            old(self).wf(),
            i < old(self).files.names().len(),
        ensures
            final(self).wf(),
            final(self).files == old(self).files,
            final(self)@ == old(self)@.stamped(old(self).files.names()[i as int], stat),
    {
        let ghost before = *self;
        proof {
            self.files.lemma_model_index(i as int);
            self.runs.lemma_model_has(self.files.values()[i as int]@.run);
        }
        if let Stat::Known { mtime: Some(mtime), .. } = stat {
            let found = self.runs.find(self.files.value_at(i).run_name());
            if let Some(at) = found {
                proof {
                    assert(self.runs.values()[at as int].wf());
                }
                let run = self.runs.value_at_mut(at);
                run.see_write(mtime);
                proof {
                    self.runs.lemma_model_update(before.runs, at as int);
                }
            }
        }
    }

    /// Takes a run out, what is held of it, and its event files.
    fn drop_run(&mut self, run: &str)
        requires
            old(self).wf(),
        ensures
            final(self).wf(),
            final(self)@ == old(self)@.without_run(run@),
    {
        let ghost before = *self;
        remove_run(&mut self.runs, run);
        remove_logs(&mut self.files, run);
        self.sink.points.remove_run(run);
        self.sink.histograms.remove_run(run);
        proof {
            crate::run::lemma_still_sound(before.sink.points, self.sink.points);
            crate::run::lemma_histograms_still_sound(
                before.sink.histograms,
                self.sink.histograms,
            );
        }
    }

    /// Notes modification times, and drops the runs of vanished files.
    fn sweep(&mut self, tails: &NameMap<EventTail>)
        requires
            old(self).wf(),
            tails.wf(),
        ensures
            final(self).wf(),
            final(self)@ == old(self)@.swept(tails.model()),
    {
        let ghost start = self@;
        let ghost paths = self.files.names();
        proof {
            self.files.lemma_model_names();
            assert(paths.take(0) =~= Seq::<Seq<char>>::empty());
        }
        let mut gone: Vec<String> = Vec::new();
        assert(crate::text::texts(gone@) =~= Seq::<Seq<char>>::empty());
        let mut i: usize = 0;
        while i < self.files.len()
            invariant
                i <= self.files.names().len(),
                self.wf(),
                tails.wf(),
                paths == self.files.names(),
                self.files.model() == start.files,
                self@ == start.all_stamped(paths.take(i as int), tails.model()),
                crate::text::texts(gone@) == start.vanished(paths.take(i as int), tails.model()),
            decreases self.files.names().len() - i,
        {
            proof {
                self.files.lemma_model_index(i as int);
                tails.lemma_model_has(paths[i as int]);
                assert(paths.take(i + 1).drop_last() =~= paths.take(i as int));
                assert(paths.take(i + 1).last() == paths[i as int]);
            }
            let stat = match tails.get(self.files.name_at(i)) {
                Some(tail) => tail.stat,
                None => Stat::Unknown,
            };
            if stat == Stat::Gone {
                let ghost before = crate::text::texts(gone@);
                let name = self.files.value_at(i).run_name().clone();
                gone.push(name);
                assert(crate::text::texts(gone@) =~= before.push(name@));
            }
            self.stamp_at(i, stat);
            i += 1;
        }
        assert(paths.take(i as int) =~= paths);
        let ghost stamped = self@;
        let ghost all = crate::text::texts(gone@);
        let mut k: usize = 0;
        assert(all.take(0) =~= Seq::<Seq<char>>::empty());
        while k < gone.len()
            invariant
                k <= gone@.len(),
                self.wf(),
                all == crate::text::texts(gone@),
                self@ == stamped.without_runs(all.take(k as int)),
            decreases gone@.len() - k,
        {
            proof {
                assert(all.take(k + 1).drop_last() =~= all.take(k as int));
                assert(all.take(k + 1).last() == gone@[k as int]@);
            }
            self.drop_run(&gone[k]);
            k += 1;
        }
        assert(all.take(k as int) =~= all);
    }
}

/// The paths that are not wanted.
pub open spec fn lost(wanted: Seq<Seq<char>>, paths: Seq<Seq<char>>) -> Seq<Seq<char>>
    decreases paths.len(),
{
    if paths.len() == 0 {
        Seq::empty()
    } else {
        let before = lost(wanted, paths.drop_last());
        if wanted.contains(paths.last()) {
            before
        } else {
            before.push(paths.last())
        }
    }
}

/// The names of a map that are not wanted.
fn lost_names<V: View>(map: &NameMap<V>, wanted: &Vec<String>) -> (names: Vec<String>)
    requires
        map.wf(),
    ensures
        crate::text::texts(names@) == lost(
            crate::text::texts(wanted@),
            sorted(map.model().dom()),
        ),
        forall|k: int| 0 <= k < names@.len() ==> map.has((#[trigger] names@[k])@),
        forall|j: int, k: int|
            0 <= j < k < names@.len() ==> (#[trigger] names@[j])@ != (#[trigger] names@[k])@,
{
    let ghost paths = map.names();
    let ghost list = crate::text::texts(wanted@);
    proof {
        map.lemma_model_names();
        assert(paths.take(0) =~= Seq::<Seq<char>>::empty());
    }
    let mut names: Vec<String> = Vec::new();
    assert(crate::text::texts(names@) =~= Seq::<Seq<char>>::empty());
    let mut i: usize = 0;
    while i < map.len()
        invariant
            i <= map.names().len(),
            map.wf(),
            paths == map.names(),
            list == crate::text::texts(wanted@),
            crate::text::texts(names@) == lost(list, paths.take(i as int)),
            forall|k: int| 0 <= k < names@.len() ==> map.has((#[trigger] names@[k])@),
            forall|k: int|
                0 <= k < names@.len() ==> exists|x: int|
                    0 <= x < i && #[trigger] paths[x] == (#[trigger] names@[k])@,
            forall|j: int, k: int|
                0 <= j < k < names@.len() ==> (#[trigger] names@[j])@ != (#[trigger] names@[k])@,
        decreases map.names().len() - i,
    {
        proof {
            assert(paths.take(i + 1).drop_last() =~= paths.take(i as int));
            assert(paths.take(i + 1).last() == paths[i as int]);
        }
        let name = map.name_at(i);
        if !has_text(wanted, name) {
            let ghost before = names@;
            names.push(name.clone());
            proof {
                assert(crate::text::texts(names@) =~= crate::text::texts(before).push(name@));
                map.lemma_index(i as int);
                assert forall|j: int, k: int| 0 <= j < k < names@.len() implies (
                #[trigger] names@[j])@ != (#[trigger] names@[k])@ by {
                    if k == before.len() {
                        let x = choose|x: int|
                            0 <= x < i && #[trigger] paths[x] == before[j]@;
                        if paths[x] == name@ {
                            crate::names::lemma_in_order_distinct(paths, x, i as int);
                        }
                    }
                }
                assert forall|k: int| 0 <= k < names@.len() implies exists|x: int|
                    0 <= x < i + 1 && #[trigger] paths[x] == (#[trigger] names@[k])@ by {
                    if k < before.len() {
                        let x = choose|x: int|
                            0 <= x < i && #[trigger] paths[x] == before[k]@;
                        assert(0 <= x < i + 1 && paths[x] == names@[k]@);
                    } else {
                        assert(paths[i as int] == names@[k]@);
                    }
                }
            }
        }
        i += 1;
    }
    assert(paths.take(i as int) =~= paths);
    names
}

/// The paths of dvclive roots.
pub open spec fn dvclive_paths(roots: Seq<DvcliveRootModel>) -> Seq<Seq<char>> {
    roots.map_values(|root: DvcliveRootModel| root.path)
}

impl ProjectModel {
    /// Without a dvclive root, its run, and what is held of it.
    pub open spec fn without_dvclive(self, path: Seq<char>) -> ProjectModel {
        let run = self.dvclive[path].run;
        ProjectModel {
            dvclive: self.dvclive.remove(path),
            runs: self.runs.remove(run),
            points: crate::shelf::without_run(self.points, run),
            ..self
        }
    }

    /// Without dvclive roots, one behind the other.
    pub open spec fn without_all_dvclive(self, paths: Seq<Seq<char>>) -> ProjectModel
        decreases paths.len(),
    {
        if paths.len() == 0 {
            self
        } else {
            self.without_all_dvclive(paths.drop_last()).without_dvclive(paths.last())
        }
    }

    /// With a state for a dvclive root, under a name that no run has yet.
    pub open spec fn with_dvclive(self, root: DvcliveRootModel) -> ProjectModel {
        if self.dvclive.dom().contains(root.path) {
            self
        } else {
            let name = fresh_name(self.runs.dom(), root.name);
            ProjectModel {
                dvclive: self.dvclive.insert(root.path, DvcliveModel::start(name)),
                ..self.with_run(name, Backend::Dvclive, root.dir)
            }
        }
    }
}

impl<
    F: Fn(&str) -> Option<u64>,
    G: Fn(u64) -> u64,
    H: Fn(Moments, u64) -> Moments,
> Numeric<F, G, H> {
    /// One dvclive root, drained into its run. A root whose run is gone is
    /// left alone.
    pub open spec fn sync_dvclive(self, project: ProjectModel, root: DvcliveRootModel) -> ProjectModel {
        let named = project.with_dvclive(root);
        let state = named.dvclive[root.path];
        if named.runs.dom().contains(state.run) {
            let (intake, next) = self.drain_dvclive(
                named.intake(state.run),
                state,
                root.document,
                root.files,
            );
            ProjectModel {
                dvclive: named.dvclive.insert(root.path, next),
                ..named.with_intake(state.run, intake)
            }
        } else {
            named
        }
    }

    /// The dvclive roots, one behind the other.
    pub open spec fn sync_all_dvclive(
        self,
        project: ProjectModel,
        roots: Seq<DvcliveRootModel>,
    ) -> ProjectModel
        decreases roots.len(),
    {
        if roots.len() == 0 {
            project
        } else {
            self.sync_dvclive(self.sync_all_dvclive(project, roots.drop_last()), roots.last())
        }
    }

    /// The dvclive backend in one pass: a vanished root drops its run, and
    /// every other is drained.
    pub open spec fn pass_dvclive(
        self,
        project: ProjectModel,
        roots: Seq<DvcliveRootModel>,
    ) -> ProjectModel {
        let left = project.without_all_dvclive(
            lost(dvclive_paths(roots), sorted(project.dvclive.dom())),
        );
        self.sync_all_dvclive(left, roots)
    }
}

impl Project {
    /// Takes a dvclive root out, its run, and what is held of it.
    fn drop_dvclive(&mut self, path: &str)
        requires
            old(self).wf(),
            old(self).dvclive.has(path@),
        ensures
            final(self).wf(),
            final(self)@ == old(self)@.without_dvclive(path@),
            final(self).dvclive.map() == old(self).dvclive.map().remove(path@),
    {
        let ghost before = *self;
        proof {
            self.dvclive.lemma_model_has(path@);
        }
        if let Some(at) = self.dvclive.find(path) {
            let state = self.dvclive.remove_at(at);
            proof {
                self.dvclive.lemma_map_after_remove(before.dvclive, at as int);
                self.dvclive.lemma_model_remove_at(before.dvclive, at as int);
                lemma_every_remove(
                    self.dvclive.values(),
                    before.dvclive.values(),
                    at as int,
                    |state: DvcliveState| state.wf(),
                );
            }
            remove_run(&mut self.runs, &state.run);
            self.sink.points.remove_run(&state.run);
            proof {
                crate::run::lemma_still_sound(before.sink.points, self.sink.points);
            }
        }
    }

    /// Drops the dvclive roots that are gone.
    fn drop_lost_dvclive(&mut self, roots: &Vec<DvcliveRoot>)
        requires
            old(self).wf(),
        ensures
            final(self).wf(),
            final(self)@ == old(self)@.without_all_dvclive(
                lost(
                    dvclive_paths(roots@.map_values(|root: DvcliveRoot| root@)),
                    sorted(old(self)@.dvclive.dom()),
                ),
            ),
    {
        let mut wanted: Vec<String> = Vec::new();
        let mut k: usize = 0;
        while k < roots.len()
            invariant
                k <= roots@.len(),
                wanted@.len() == k,
                forall|j: int| 0 <= j < k ==> (#[trigger] wanted@[j])@ == roots@[j].path@,
            decreases roots@.len() - k,
        {
            wanted.push(roots[k].path.clone());
            k += 1;
        }
        assert(crate::text::texts(wanted@) =~= dvclive_paths(
            roots@.map_values(|root: DvcliveRoot| root@),
        ));
        self.keep_dvclive(&wanted);
    }

    /// Takes out the dvclive roots that are not among those found, their runs, and
    /// what is held of them.
    pub fn keep_dvclive(&mut self, found: &Vec<String>)
        requires
            old(self).wf(),
        ensures
            final(self).wf(),
            final(self)@ == old(self)@.without_all_dvclive(
                lost(crate::text::texts(found@), sorted(old(self)@.dvclive.dom())),
            ),
    {
        let names = lost_names(&self.dvclive, found);
        let ghost start = self@;
        let ghost all = crate::text::texts(names@);
        let mut i: usize = 0;
        assert(all.take(0) =~= Seq::<Seq<char>>::empty());
        while i < names.len()
            invariant
                i <= names@.len(),
                all == crate::text::texts(names@),
                self.wf(),
                self@ == start.without_all_dvclive(all.take(i as int)),
                forall|j: int| i <= j < names@.len() ==> self.dvclive.has((#[trigger] names@[j])@),
                forall|j: int, x: int|
                    0 <= j < x < names@.len() ==> (#[trigger] names@[j])@ != (
                    #[trigger] names@[x])@,
            decreases names@.len() - i,
        {
            let ghost before = self.dvclive;
            proof {
                assert(all.take(i + 1).drop_last() =~= all.take(i as int));
                assert(all.take(i + 1).last() == names@[i as int]@);
                assert(self.dvclive.has(names@[i as int]@));
            }
            self.drop_dvclive(&names[i]);
            proof {
                assert forall|j: int| i + 1 <= j < names@.len() implies self.dvclive.has(
                    (#[trigger] names@[j])@,
                ) by {
                    assert(before.has(names@[j]@));
                    assert(names@[i as int]@ != names@[j]@);
                    assert(before.map().dom().contains(names@[j]@));
                    assert(self.dvclive.map().dom().contains(names@[j]@));
                }
            }
            i += 1;
        }
        assert(all.take(i as int) =~= all);
    }

    /// A state for a dvclive root, made where there is none.
    fn ensure_dvclive(&mut self, root: &DvcliveRoot)
        requires
            old(self).wf(),
        ensures
            final(self).wf(),
            final(self)@ == old(self)@.with_dvclive(root@),
    {
        proof {
            self.dvclive.lemma_model_has(root.path@);
        }
        if self.dvclive.contains(&root.path) {
            return ;
        }
        let name = unique_run_name(&self.runs, &root.name);
        self.ensure_run(&name, Backend::Dvclive, &root.dir);
        let ghost named = *self;
        let state = DvcliveState::new(name);
        let at: usize = self.dvclive.insert(root.path.clone(), state);
        proof {
            self.dvclive.lemma_model_insert(named.dvclive, root.path@, state);
            lemma_every_insert(
                self.dvclive,
                named.dvclive,
                root.path@,
                at as int,
                state,
                |state: DvcliveState| state.wf(),
            );
        }
    }

    /// Drains one dvclive root into its run.
    pub fn sync_dvclive<
        F: Fn(&str) -> Option<u64>,
        G: Fn(u64) -> u64,
        H: Fn(Moments, u64) -> Moments,
    >(&mut self, root: &DvcliveRoot, numeric: &Numeric<F, G, H>)
        requires
            old(self).wf(),
            numeric.ok(),
        ensures
            final(self).wf(),
            final(self)@ == numeric.sync_dvclive(old(self)@, root@),
    {
        self.ensure_dvclive(root);
        let ghost named = *self;
        proof {
            self.dvclive.lemma_model_has(root.path@);
        }
        if let Some(at) = self.dvclive.find(&root.path) {
            let ghost state_before = self.dvclive.values()[at as int];
            proof {
                self.runs.lemma_model_has(state_before@.run);
            }
            let found = self.runs.find(&self.dvclive.value_at(at).run);
            if let Some(place) = found {
                proof {
                    assert(self.runs.values()[place as int].wf());
                assert(self.dvclive.values()[at as int].wf());
                }
                let ghost run_before = self.runs.values()[place as int];
                let state = self.dvclive.value_at_mut(at);
                let run = self.runs.value_at_mut(place);
                state.drain(run, &mut self.sink, &root.document, &root.files, numeric);
                proof {
                    self.dvclive.lemma_model_update(named.dvclive, at as int);
                    self.runs.lemma_model_update(named.runs, place as int);
                    assert(named.sink.with(run_before) == named@.intake(state_before@.run));
                    assert(self@ =~= numeric.sync_dvclive(old(self)@, root@));
                }
            }
        }
    }

    /// The dvclive backend in one pass.
    fn pass_dvclive<
        F: Fn(&str) -> Option<u64>,
        G: Fn(u64) -> u64,
        H: Fn(Moments, u64) -> Moments,
    >(&mut self, roots: &Vec<DvcliveRoot>, numeric: &Numeric<F, G, H>)
        requires
            old(self).wf(),
            numeric.ok(),
        ensures
            final(self).wf(),
            final(self)@ == numeric.pass_dvclive(
                old(self)@,
                roots@.map_values(|root: DvcliveRoot| root@),
            ),
    {
        self.drop_lost_dvclive(roots);
        let ghost start = self@;
        let ghost all = roots@.map_values(|root: DvcliveRoot| root@);
        let mut i: usize = 0;
        assert(all.take(0) =~= Seq::<DvcliveRootModel>::empty());
        while i < roots.len()
            invariant
                i <= roots@.len(),
                all == roots@.map_values(|root: DvcliveRoot| root@),
                self.wf(),
                numeric.ok(),
                self@ == numeric.sync_all_dvclive(start, all.take(i as int)),
            decreases roots@.len() - i,
        {
            proof {
                assert(all.take(i + 1).drop_last() =~= all.take(i as int));
                assert(all.take(i + 1).last() == roots@[i as int]@);
            }
            self.sync_dvclive(&roots[i], numeric);
            i += 1;
        }
        assert(all.take(i as int) =~= all);
    }
}

/// The paths of MLflow roots.
pub open spec fn mlflow_paths(roots: Seq<MlflowRootModel>) -> Seq<Seq<char>> {
    roots.map_values(|root: MlflowRootModel| root.path)
}

impl ProjectModel {
    /// Without a MLflow root, its run, and what is held of it.
    pub open spec fn without_mlflow(self, path: Seq<char>) -> ProjectModel {
        let run = self.mlflow[path].run;
        ProjectModel {
            mlflow: self.mlflow.remove(path),
            runs: self.runs.remove(run),
            points: crate::shelf::without_run(self.points, run),
            ..self
        }
    }

    /// Without MLflow roots, one behind the other.
    pub open spec fn without_all_mlflow(self, paths: Seq<Seq<char>>) -> ProjectModel
        decreases paths.len(),
    {
        if paths.len() == 0 {
            self
        } else {
            self.without_all_mlflow(paths.drop_last()).without_mlflow(paths.last())
        }
    }

    /// With a state for a MLflow root, under a name that no run has yet.
    pub open spec fn with_mlflow(self, root: MlflowRootModel) -> ProjectModel {
        if self.mlflow.dom().contains(root.path) {
            self
        } else {
            let name = fresh_name(self.runs.dom(), root.name);
            ProjectModel {
                mlflow: self.mlflow.insert(root.path, MlflowModel::start(name)),
                ..self.with_run(name, Backend::Mlflow, root.path)
            }
        }
    }
}

impl<
    F: Fn(&str) -> Option<u64>,
    G: Fn(u64) -> u64,
    H: Fn(Moments, u64) -> Moments,
> Numeric<F, G, H> {
    /// One MLflow root, drained into its run. A root whose run is gone is
    /// left alone.
    pub open spec fn sync_mlflow(self, project: ProjectModel, root: MlflowRootModel) -> ProjectModel {
        let named = project.with_mlflow(root);
        let state = named.mlflow[root.path];
        if named.runs.dom().contains(state.run) {
            let (intake, next) = self.drain_mlflow(
                named.intake(state.run),
                state,
                root.params,
                root.files,
            );
            ProjectModel {
                mlflow: named.mlflow.insert(root.path, next),
                ..named.with_intake(state.run, intake)
            }
        } else {
            named
        }
    }

    /// The MLflow roots, one behind the other.
    pub open spec fn sync_all_mlflow(
        self,
        project: ProjectModel,
        roots: Seq<MlflowRootModel>,
    ) -> ProjectModel
        decreases roots.len(),
    {
        if roots.len() == 0 {
            project
        } else {
            self.sync_mlflow(self.sync_all_mlflow(project, roots.drop_last()), roots.last())
        }
    }

    /// The MLflow backend in one pass: a vanished root drops its run, and
    /// every other is drained.
    pub open spec fn pass_mlflow(
        self,
        project: ProjectModel,
        roots: Seq<MlflowRootModel>,
    ) -> ProjectModel {
        let left = project.without_all_mlflow(
            lost(mlflow_paths(roots), sorted(project.mlflow.dom())),
        );
        self.sync_all_mlflow(left, roots)
    }
}

impl Project {
    /// Takes a MLflow root out, its run, and what is held of it.
    fn drop_mlflow(&mut self, path: &str)
        requires
            old(self).wf(),
            old(self).mlflow.has(path@),
        ensures
            final(self).wf(),
            final(self)@ == old(self)@.without_mlflow(path@),
            final(self).mlflow.map() == old(self).mlflow.map().remove(path@),
    {
        let ghost before = *self;
        proof {
            self.mlflow.lemma_model_has(path@);
        }
        if let Some(at) = self.mlflow.find(path) {
            let state = self.mlflow.remove_at(at);
            proof {
                self.mlflow.lemma_map_after_remove(before.mlflow, at as int);
                self.mlflow.lemma_model_remove_at(before.mlflow, at as int);
                lemma_every_remove(
                    self.mlflow.values(),
                    before.mlflow.values(),
                    at as int,
                    |state: MlflowState| state.wf(),
                );
            }
            remove_run(&mut self.runs, &state.run);
            self.sink.points.remove_run(&state.run);
            proof {
                crate::run::lemma_still_sound(before.sink.points, self.sink.points);
            }
        }
    }

    /// Drops the MLflow roots that are gone.
    fn drop_lost_mlflow(&mut self, roots: &Vec<MlflowRoot>)
        requires
            old(self).wf(),
        ensures
            final(self).wf(),
            final(self)@ == old(self)@.without_all_mlflow(
                lost(
                    mlflow_paths(roots@.map_values(|root: MlflowRoot| root@)),
                    sorted(old(self)@.mlflow.dom()),
                ),
            ),
    {
        let mut wanted: Vec<String> = Vec::new();
        let mut k: usize = 0;
        while k < roots.len()
            invariant
                k <= roots@.len(),
                wanted@.len() == k,
                forall|j: int| 0 <= j < k ==> (#[trigger] wanted@[j])@ == roots@[j].path@,
            decreases roots@.len() - k,
        {
            wanted.push(roots[k].path.clone());
            k += 1;
        }
        assert(crate::text::texts(wanted@) =~= mlflow_paths(
            roots@.map_values(|root: MlflowRoot| root@),
        ));
        self.keep_mlflow(&wanted);
    }

    /// Takes out the MLflow runs that are not among those found, their runs, and
    /// what is held of them.
    pub fn keep_mlflow(&mut self, found: &Vec<String>)
        requires
            old(self).wf(),
        ensures
            final(self).wf(),
            final(self)@ == old(self)@.without_all_mlflow(
                lost(crate::text::texts(found@), sorted(old(self)@.mlflow.dom())),
            ),
    {
        let names = lost_names(&self.mlflow, found);
        let ghost start = self@;
        let ghost all = crate::text::texts(names@);
        let mut i: usize = 0;
        assert(all.take(0) =~= Seq::<Seq<char>>::empty());
        while i < names.len()
            invariant
                i <= names@.len(),
                all == crate::text::texts(names@),
                self.wf(),
                self@ == start.without_all_mlflow(all.take(i as int)),
                forall|j: int| i <= j < names@.len() ==> self.mlflow.has((#[trigger] names@[j])@),
                forall|j: int, x: int|
                    0 <= j < x < names@.len() ==> (#[trigger] names@[j])@ != (
                    #[trigger] names@[x])@,
            decreases names@.len() - i,
        {
            let ghost before = self.mlflow;
            proof {
                assert(all.take(i + 1).drop_last() =~= all.take(i as int));
                assert(all.take(i + 1).last() == names@[i as int]@);
                assert(self.mlflow.has(names@[i as int]@));
            }
            self.drop_mlflow(&names[i]);
            proof {
                assert forall|j: int| i + 1 <= j < names@.len() implies self.mlflow.has(
                    (#[trigger] names@[j])@,
                ) by {
                    assert(before.has(names@[j]@));
                    assert(names@[i as int]@ != names@[j]@);
                    assert(before.map().dom().contains(names@[j]@));
                    assert(self.mlflow.map().dom().contains(names@[j]@));
                }
            }
            i += 1;
        }
        assert(all.take(i as int) =~= all);
    }

    /// A state for a MLflow root, made where there is none.
    fn ensure_mlflow(&mut self, root: &MlflowRoot)
        requires
            old(self).wf(),
        ensures
            final(self).wf(),
            final(self)@ == old(self)@.with_mlflow(root@),
    {
        proof {
            self.mlflow.lemma_model_has(root.path@);
        }
        if self.mlflow.contains(&root.path) {
            return ;
        }
        let name = unique_run_name(&self.runs, &root.name);
        self.ensure_run(&name, Backend::Mlflow, &root.path);
        let ghost named = *self;
        let state = MlflowState::new(name);
        let at: usize = self.mlflow.insert(root.path.clone(), state);
        proof {
            self.mlflow.lemma_model_insert(named.mlflow, root.path@, state);
            lemma_every_insert(
                self.mlflow,
                named.mlflow,
                root.path@,
                at as int,
                state,
                |state: MlflowState| state.wf(),
            );
        }
    }

    /// Drains one MLflow root into its run.
    pub fn sync_mlflow<
        F: Fn(&str) -> Option<u64>,
        G: Fn(u64) -> u64,
        H: Fn(Moments, u64) -> Moments,
    >(&mut self, root: &MlflowRoot, numeric: &Numeric<F, G, H>)
        requires
            old(self).wf(),
            numeric.ok(),
        ensures
            final(self).wf(),
            final(self)@ == numeric.sync_mlflow(old(self)@, root@),
    {
        self.ensure_mlflow(root);
        let ghost named = *self;
        proof {
            self.mlflow.lemma_model_has(root.path@);
        }
        if let Some(at) = self.mlflow.find(&root.path) {
            let ghost state_before = self.mlflow.values()[at as int];
            proof {
                self.runs.lemma_model_has(state_before@.run);
            }
            let found = self.runs.find(&self.mlflow.value_at(at).run);
            if let Some(place) = found {
                proof {
                    assert(self.runs.values()[place as int].wf());
                assert(self.mlflow.values()[at as int].wf());
                }
                let ghost run_before = self.runs.values()[place as int];
                let state = self.mlflow.value_at_mut(at);
                let run = self.runs.value_at_mut(place);
                state.drain(run, &mut self.sink, &root.params, &root.files, numeric);
                proof {
                    self.mlflow.lemma_model_update(named.mlflow, at as int);
                    self.runs.lemma_model_update(named.runs, place as int);
                    assert(named.sink.with(run_before) == named@.intake(state_before@.run));
                    assert(self@ =~= numeric.sync_mlflow(old(self)@, root@));
                }
            }
        }
    }

    /// The MLflow backend in one pass.
    fn pass_mlflow<
        F: Fn(&str) -> Option<u64>,
        G: Fn(u64) -> u64,
        H: Fn(Moments, u64) -> Moments,
    >(&mut self, roots: &Vec<MlflowRoot>, numeric: &Numeric<F, G, H>)
        requires
            old(self).wf(),
            numeric.ok(),
        ensures
            final(self).wf(),
            final(self)@ == numeric.pass_mlflow(
                old(self)@,
                roots@.map_values(|root: MlflowRoot| root@),
            ),
    {
        self.drop_lost_mlflow(roots);
        let ghost start = self@;
        let ghost all = roots@.map_values(|root: MlflowRoot| root@);
        let mut i: usize = 0;
        assert(all.take(0) =~= Seq::<MlflowRootModel>::empty());
        while i < roots.len()
            invariant
                i <= roots@.len(),
                all == roots@.map_values(|root: MlflowRoot| root@),
                self.wf(),
                numeric.ok(),
                self@ == numeric.sync_all_mlflow(start, all.take(i as int)),
            decreases roots@.len() - i,
        {
            proof {
                assert(all.take(i + 1).drop_last() =~= all.take(i as int));
                assert(all.take(i + 1).last() == roots@[i as int]@);
            }
            self.sync_mlflow(&roots[i], numeric);
            i += 1;
        }
        assert(all.take(i as int) =~= all);
    }
}

/// The paths of wandb roots.
pub open spec fn wandb_paths(roots: Seq<WandbRootModel>) -> Seq<Seq<char>> {
    roots.map_values(|root: WandbRootModel| root.path)
}

impl ProjectModel {
    /// Without a wandb root, its run, and what is held of it.
    pub open spec fn without_wandb(self, path: Seq<char>) -> ProjectModel {
        let run = self.wandb[path].run;
        ProjectModel {
            wandb: self.wandb.remove(path),
            runs: self.runs.remove(run),
            points: crate::shelf::without_run(self.points, run),
            ..self
        }
    }

    /// Without wandb roots, one behind the other.
    pub open spec fn without_all_wandb(self, paths: Seq<Seq<char>>) -> ProjectModel
        decreases paths.len(),
    {
        if paths.len() == 0 {
            self
        } else {
            self.without_all_wandb(paths.drop_last()).without_wandb(paths.last())
        }
    }

    /// With a state for a wandb root, under a name that no run has yet.
    pub open spec fn with_wandb(self, root: WandbRootModel) -> ProjectModel {
        if self.wandb.dom().contains(root.path) {
            self
        } else {
            let name = fresh_name(self.runs.dom(), root.name);
            ProjectModel {
                wandb: self.wandb.insert(root.path, WandbStateModel::start(name)),
                report: self.report.opened(),
                ..self.with_run(name, Backend::Wandb, root.dir)
            }
        }
    }
}

impl<
    F: Fn(&str) -> Option<u64>,
    G: Fn(u64) -> u64,
    H: Fn(Moments, u64) -> Moments,
> Numeric<F, G, H> {
    /// One wandb root, drained into its run. A root whose run is gone is
    /// left alone.
    pub open spec fn sync_wandb(self, project: ProjectModel, root: WandbRootModel) -> ProjectModel {
        let named = project.with_wandb(root);
        let state = named.wandb[root.path];
        if named.runs.dom().contains(state.run) {
            let (intake, next) = self.drain_wandb(
                named.intake(state.run),
                state,
                root.file,
            );
            ProjectModel {
                wandb: named.wandb.insert(root.path, next),
                ..named.with_intake(state.run, intake)
            }
        } else {
            named
        }
    }

    /// The wandb roots, one behind the other.
    pub open spec fn sync_all_wandb(
        self,
        project: ProjectModel,
        roots: Seq<WandbRootModel>,
    ) -> ProjectModel
        decreases roots.len(),
    {
        if roots.len() == 0 {
            project
        } else {
            self.sync_wandb(self.sync_all_wandb(project, roots.drop_last()), roots.last())
        }
    }

    /// The wandb backend in one pass: a vanished root drops its run, and
    /// every other is drained.
    pub open spec fn pass_wandb(
        self,
        project: ProjectModel,
        roots: Seq<WandbRootModel>,
    ) -> ProjectModel {
        let left = project.without_all_wandb(
            lost(wandb_paths(roots), sorted(project.wandb.dom())),
        );
        self.sync_all_wandb(left, roots)
    }
}

impl Project {
    /// Takes a wandb root out, its run, and what is held of it.
    fn drop_wandb(&mut self, path: &str)
        requires
            old(self).wf(),
            old(self).wandb.has(path@),
        ensures
            final(self).wf(),
            final(self)@ == old(self)@.without_wandb(path@),
            final(self).wandb.map() == old(self).wandb.map().remove(path@),
    {
        let ghost before = *self;
        proof {
            self.wandb.lemma_model_has(path@);
        }
        if let Some(at) = self.wandb.find(path) {
            let state = self.wandb.remove_at(at);
            proof {
                self.wandb.lemma_map_after_remove(before.wandb, at as int);
                self.wandb.lemma_model_remove_at(before.wandb, at as int);
            }
            remove_run(&mut self.runs, &state.run);
            self.sink.points.remove_run(&state.run);
            proof {
                crate::run::lemma_still_sound(before.sink.points, self.sink.points);
            }
        }
    }

    /// Drops the wandb roots that are gone.
    fn drop_lost_wandb(&mut self, roots: &Vec<WandbRoot>)
        requires
            old(self).wf(),
        ensures
            final(self).wf(),
            final(self)@ == old(self)@.without_all_wandb(
                lost(
                    wandb_paths(roots@.map_values(|root: WandbRoot| root@)),
                    sorted(old(self)@.wandb.dom()),
                ),
            ),
    {
        let mut wanted: Vec<String> = Vec::new();
        let mut k: usize = 0;
        while k < roots.len()
            invariant
                k <= roots@.len(),
                wanted@.len() == k,
                forall|j: int| 0 <= j < k ==> (#[trigger] wanted@[j])@ == roots@[j].path@,
            decreases roots@.len() - k,
        {
            wanted.push(roots[k].path.clone());
            k += 1;
        }
        assert(crate::text::texts(wanted@) =~= wandb_paths(
            roots@.map_values(|root: WandbRoot| root@),
        ));
        self.keep_wandb(&wanted);
    }

    /// Takes out the wandb logs that are not among those found, their runs, and
    /// what is held of them.
    pub fn keep_wandb(&mut self, found: &Vec<String>)
        requires
            old(self).wf(),
        ensures
            final(self).wf(),
            final(self)@ == old(self)@.without_all_wandb(
                lost(crate::text::texts(found@), sorted(old(self)@.wandb.dom())),
            ),
    {
        let names = lost_names(&self.wandb, found);
        let ghost start = self@;
        let ghost all = crate::text::texts(names@);
        let mut i: usize = 0;
        assert(all.take(0) =~= Seq::<Seq<char>>::empty());
        while i < names.len()
            invariant
                i <= names@.len(),
                all == crate::text::texts(names@),
                self.wf(),
                self@ == start.without_all_wandb(all.take(i as int)),
                forall|j: int| i <= j < names@.len() ==> self.wandb.has((#[trigger] names@[j])@),
                forall|j: int, x: int|
                    0 <= j < x < names@.len() ==> (#[trigger] names@[j])@ != (
                    #[trigger] names@[x])@,
            decreases names@.len() - i,
        {
            let ghost before = self.wandb;
            proof {
                assert(all.take(i + 1).drop_last() =~= all.take(i as int));
                assert(all.take(i + 1).last() == names@[i as int]@);
                assert(self.wandb.has(names@[i as int]@));
            }
            self.drop_wandb(&names[i]);
            proof {
                assert forall|j: int| i + 1 <= j < names@.len() implies self.wandb.has(
                    (#[trigger] names@[j])@,
                ) by {
                    assert(before.has(names@[j]@));
                    assert(names@[i as int]@ != names@[j]@);
                    assert(before.map().dom().contains(names@[j]@));
                    assert(self.wandb.map().dom().contains(names@[j]@));
                }
            }
            i += 1;
        }
        assert(all.take(i as int) =~= all);
    }

    /// A state for a wandb root, made where there is none.
    fn ensure_wandb(&mut self, root: &WandbRoot)
        requires
            old(self).wf(),
        ensures
            final(self).wf(),
            final(self)@ == old(self)@.with_wandb(root@),
    {
        proof {
            self.wandb.lemma_model_has(root.path@);
        }
        if self.wandb.contains(&root.path) {
            return ;
        }
        let name = unique_run_name(&self.runs, &root.name);
        self.ensure_run(&name, Backend::Wandb, &root.dir);
        let ghost named = *self;
        let state = WandbState::new(name);
        let at: usize = self.wandb.insert(root.path.clone(), state);
        proof {
            self.wandb.lemma_model_insert(named.wandb, root.path@, state);
        }
        self.sink.report.count_opened();
    }

    /// Drains one wandb root into its run.
    pub fn sync_wandb<
        F: Fn(&str) -> Option<u64>,
        G: Fn(u64) -> u64,
        H: Fn(Moments, u64) -> Moments,
    >(&mut self, root: &WandbRoot, numeric: &Numeric<F, G, H>)
        requires
            old(self).wf(),
            numeric.ok(),
        ensures
            final(self).wf(),
            final(self)@ == numeric.sync_wandb(old(self)@, root@),
    {
        self.ensure_wandb(root);
        let ghost named = *self;
        proof {
            self.wandb.lemma_model_has(root.path@);
        }
        if let Some(at) = self.wandb.find(&root.path) {
            let ghost state_before = self.wandb.values()[at as int];
            proof {
                self.runs.lemma_model_has(state_before@.run);
            }
            let found = self.runs.find(&self.wandb.value_at(at).run);
            if let Some(place) = found {
                proof {
                    assert(self.runs.values()[place as int].wf());
                }
                let ghost run_before = self.runs.values()[place as int];
                let state = self.wandb.value_at_mut(at);
                let run = self.runs.value_at_mut(place);
                state.drain(run, &mut self.sink, &root.file, numeric);
                proof {
                    self.wandb.lemma_model_update(named.wandb, at as int);
                    self.runs.lemma_model_update(named.runs, place as int);
                    assert(named.sink.with(run_before) == named@.intake(state_before@.run));
                    assert(self@ =~= numeric.sync_wandb(old(self)@, root@));
                }
            }
        }
    }

    /// The wandb backend in one pass.
    fn pass_wandb<
        F: Fn(&str) -> Option<u64>,
        G: Fn(u64) -> u64,
        H: Fn(Moments, u64) -> Moments,
    >(&mut self, roots: &Vec<WandbRoot>, numeric: &Numeric<F, G, H>)
        requires
            old(self).wf(),
            numeric.ok(),
        ensures
            final(self).wf(),
            final(self)@ == numeric.pass_wandb(
                old(self)@,
                roots@.map_values(|root: WandbRoot| root@),
            ),
    {
        self.drop_lost_wandb(roots);
        let ghost start = self@;
        let ghost all = roots@.map_values(|root: WandbRoot| root@);
        let mut i: usize = 0;
        assert(all.take(0) =~= Seq::<WandbRootModel>::empty());
        while i < roots.len()
            invariant
                i <= roots@.len(),
                all == roots@.map_values(|root: WandbRoot| root@),
                self.wf(),
                numeric.ok(),
                self@ == numeric.sync_all_wandb(start, all.take(i as int)),
            decreases roots@.len() - i,
        {
            proof {
                assert(all.take(i + 1).drop_last() =~= all.take(i as int));
                assert(all.take(i + 1).last() == roots@[i as int]@);
            }
            self.sync_wandb(&roots[i], numeric);
            i += 1;
        }
        assert(all.take(i as int) =~= all);
    }
}

/// The sum of two counts, as far as the counter goes.
pub open spec fn summed(a: u64, b: u64) -> u64 {
    if a + b > u64::MAX {
        u64::MAX
    } else {
        (a + b) as u64
    }
}

/// The sum of two counts, as far as the counter goes.
pub fn sum_up(a: u64, b: u64) -> (sum: u64)
    ensures
        sum == summed(a, b),
{
    if a > u64::MAX - b {
        u64::MAX
    } else {
        a + b
    }
}

impl ProjectModel {
    /// With the losses of the pass in the cumulative accounting.
    pub open spec fn accounted(self) -> ProjectModel {
        ProjectModel {
            dropped_records: summed(self.dropped_records, self.report.dropped_records),
            dead_files: summed(self.dead_files, self.report.dead_files),
            ..self
        }
    }
}

impl<
    F: Fn(&str) -> Option<u64>,
    G: Fn(u64) -> u64,
    H: Fn(Moments, u64) -> Moments,
> Numeric<F, G, H> {
    /// The event files in one pass: the cache is held against the disk, new
    /// files are opened, every file is drained, and runs whose files vanished
    /// are dropped.
    pub open spec fn pass_events(self, project: ProjectModel, disk: DiskModel) -> ProjectModel {
        let opened = project.validated(disk.events).all_opened(disk.events);
        self.drain_files(opened, sorted(opened.files.dom()), disk.tails).swept(disk.tails)
    }

    /// One reload pass.
    pub open spec fn refreshed(self, project: ProjectModel, disk: DiskModel) -> ProjectModel {
        let begun = ProjectModel { report: RefreshReport::start(), ..project };
        let events = self.pass_events(begun, disk);
        let dvclive = self.pass_dvclive(events, disk.dvclive);
        let mlflow = self.pass_mlflow(dvclive, disk.mlflow);
        self.pass_wandb(mlflow, disk.wandb).accounted()
    }
}

impl Project {
    /// Opens the event files that the walk found.
    fn open_all(&mut self, sources: &Vec<EventSource>)
        requires
            old(self).wf(),
        ensures
            final(self).wf(),
            final(self)@ == old(self)@.all_opened(source_models(sources@)),
    {
        let ghost start = self@;
        let ghost all = source_models(sources@);
        let mut i: usize = 0;
        assert(all.take(0) =~= Seq::<SourceModel>::empty());
        while i < sources.len()
            invariant
                i <= sources@.len(),
                all == source_models(sources@),
                self.wf(),
                self@ == start.all_opened(all.take(i as int)),
            decreases sources@.len() - i,
        {
            proof {
                assert(all.take(i + 1).drop_last() =~= all.take(i as int));
                assert(all.take(i + 1).last() == sources@[i as int]@);
            }
            self.open(&sources[i]);
            i += 1;
        }
        assert(all.take(i as int) =~= all);
    }

    /// Begins a reload pass: the cache is held against the disk, and the event
    /// files that are new and can be opened are.
    pub fn begin_refresh(&mut self, sources: &Vec<EventSource>)
        requires
            old(self).wf(),
        ensures
            final(self).wf(),
            ({
                let begun = ProjectModel { report: RefreshReport::start(), ..old(self)@ };
                let found = source_models(sources@);
                final(self)@ == begun.validated(found).all_opened(found)
            }),
    {
        self.sink.report = RefreshReport::new();
        self.validate(sources);
        self.open_all(sources);
    }

    /// The event files of a reload pass: every one is drained, and runs whose
    /// files vanished are dropped.
    pub fn drain_events<
        F: Fn(&str) -> Option<u64>,
        G: Fn(u64) -> u64,
        H: Fn(Moments, u64) -> Moments,
    >(&mut self, tails: &NameMap<EventTail>, numeric: &Numeric<F, G, H>)
        requires
            old(self).wf(),
            tails.wf(),
            numeric.ok(),
        ensures
            final(self).wf(),
            final(self)@ == numeric.drain_files(
                old(self)@,
                sorted(old(self)@.files.dom()),
                tails.model(),
            ).swept(tails.model()),
    {
        self.drain_event_files(tails, numeric);
        self.sweep(tails);
    }

    /// Ends a reload pass: what it lost is accounted for.
    pub fn finish_refresh(&mut self) -> (report: RefreshReport)
        requires
            old(self).wf(),
        ensures
            final(self).wf(),
            final(self)@ == old(self)@.accounted(),
            report == final(self)@.report,
    {
        self.dropped_records = sum_up(self.dropped_records, self.sink.report.dropped_records);
        self.dead_files = sum_up(self.dead_files, self.sink.report.dead_files);
        self.sink.report
    }

    /// One reload pass: take in new runs and files, drain what every file has
    /// grown by into summaries (and any materialized series), refresh file
    /// modification times, and drop runs whose files vanished.
    pub fn refresh<
        F: Fn(&str) -> Option<u64>,
        G: Fn(u64) -> u64,
        H: Fn(Moments, u64) -> Moments,
    >(&mut self, disk: &Disk, numeric: &Numeric<F, G, H>) -> (report: RefreshReport)
        requires
            old(self).wf(),
            disk.tails.wf(),
            numeric.ok(),
        ensures
            final(self).wf(),
            final(self)@ == numeric.refreshed(old(self)@, disk@),
            report == final(self)@.report,
    {
        self.begin_refresh(&disk.events);
        self.drain_events(&disk.tails, numeric);
        self.pass_dvclive(&disk.dvclive, numeric);
        self.pass_mlflow(&disk.mlflow, numeric);
        self.pass_wandb(&disk.wandb, numeric);
        self.finish_refresh()
    }
}

/// The first path whose owner is a run.
pub open spec fn holder(
    paths: Seq<Seq<char>>,
    owners: Map<Seq<char>, Seq<char>>,
    run: Seq<char>,
) -> Option<Seq<char>>
    decreases paths.len(),
{
    if paths.len() == 0 {
        None
    } else if owners[paths[0]] == run {
        Some(paths[0])
    } else {
        holder(paths.skip(1), owners, run)
    }
}

/// The runs of dvclive roots.
pub open spec fn owners_dvclive(states: Map<Seq<char>, DvcliveModel>) -> Map<Seq<char>, Seq<char>> {
    states.map_values(|state: DvcliveModel| state.run)
}

/// The runs of mlflow roots.
pub open spec fn owners_mlflow(states: Map<Seq<char>, MlflowModel>) -> Map<Seq<char>, Seq<char>> {
    states.map_values(|state: MlflowModel| state.run)
}

/// The runs of wandb roots.
pub open spec fn owners_wandb(states: Map<Seq<char>, WandbStateModel>) -> Map<Seq<char>, Seq<char>> {
    states.map_values(|state: WandbStateModel| state.run)
}

/// Series materialized concurrently before the least-recently-used is
/// dropped (re-materialization is always possible: the files are the
/// database).
pub const MATERIALIZE_CAP: usize = 64;

/// Histogram series held concurrently — snapshots are bulkier than points,
/// and the distributions view looks at one tag at a time.
pub const HISTOGRAM_CAP: usize = 8;

/// The contents of a file; nothing where it is gone.
pub open spec fn contents_of(contents: Map<Seq<char>, Seq<u8>>, path: Seq<char>) -> Seq<u8> {
    if contents.dom().contains(path) {
        contents[path]
    } else {
        Seq::empty()
    }
}

/// The points of a run's event files under a tag, each file up to its
/// committed offset.
pub open spec fn files_points(
    files: Map<Seq<char>, LogModel>,
    paths: Seq<Seq<char>>,
    run: Seq<char>,
    tag: Seq<char>,
    contents: Map<Seq<char>, Seq<u8>>,
) -> Seq<PointStamp>
    decreases paths.len(),
{
    if paths.len() == 0 {
        Seq::empty()
    } else {
        let before = files_points(files, paths.drop_last(), run, tag, contents);
        let path = paths.last();
        if files[path].run == run {
            before + events_points(
                events_of(upto(contents_of(contents, path), files[path].committed)),
                tag,
            )
        } else {
            before
        }
    }
}

/// The snapshots of a run's event files under a tag, each file up to its
/// committed offset.
pub open spec fn files_snapshots(
    files: Map<Seq<char>, LogModel>,
    paths: Seq<Seq<char>>,
    run: Seq<char>,
    tag: Seq<char>,
    contents: Map<Seq<char>, Seq<u8>>,
) -> Seq<SnapshotModel>
    decreases paths.len(),
{
    if paths.len() == 0 {
        Seq::empty()
    } else {
        let before = files_snapshots(files, paths.drop_last(), run, tag, contents);
        let path = paths.last();
        if files[path].run == run {
            before + events_snapshots(
                events_of(upto(contents_of(contents, path), files[path].committed)),
                tag,
            )
        } else {
            before
        }
    }
}

/// Where a dvclive root keeps the TSV of a tag.
pub open spec fn tsv_path(root: Seq<char>, tag: Seq<char>) -> Seq<char> {
    joined(joined(joined(root, "plots"@), "metrics"@), tag + ".tsv"@)
}

/// Where an MLflow run keeps the metric of a tag.
pub open spec fn metric_path(root: Seq<char>, tag: Seq<char>) -> Seq<char> {
    joined(joined(root, "metrics"@), tag)
}

/// Where a dvclive root keeps the TSV of a tag.
pub fn path_of_tsv(root: &str, tag: &str) -> (path: String)
    ensures
        path@ == tsv_path(root@, tag@),
{
    let mut name = tag.to_owned();
    push_text(&mut name, ".tsv");
    join(&join(&join(root, "plots"), "metrics"), &name)
}

/// Where an MLflow run keeps the metric of a tag.
pub fn path_of_metric(root: &str, tag: &str) -> (path: String)
    ensures
        path@ == metric_path(root@, tag@),
{
    join(&join(root, "metrics"), tag)
}

impl<
    F: Fn(&str) -> Option<u64>,
    G: Fn(u64) -> u64,
    H: Fn(Moments, u64) -> Moments,
> Numeric<F, G, H> {
    /// The points of a series out of the files of its run, up to the
    /// committed frontier; nothing where the run or the series does not
    /// exist, or the series is not scalar.
    pub open spec fn series_points(
        self,
        project: ProjectModel,
        run: Seq<char>,
        tag: Seq<char>,
        contents: Map<Seq<char>, Seq<u8>>,
    ) -> Option<Seq<PointStamp>> {
        if !project.runs.dom().contains(run) || !project.runs[run].series.dom().contains(tag)
            || project.runs[run].series[tag].class != SeriesClass::Scalar {
            None
        } else {
            match project.runs[run].backend {
                Backend::Tfevents => Some(
                    files_points(project.files, sorted(project.files.dom()), run, tag, contents),
                ),
                Backend::Dvclive => match holder(
                    sorted(project.dvclive.dom()),
                    owners_dvclive(project.dvclive),
                    run,
                ) {
                    Some(root) => {
                        let path = tsv_path(root, tag);
                        let frontier = offset_of(project.dvclive[root].offsets, path);
                        Some(
                            self.tsv_points(text_of(upto(contents_of(contents, path), frontier))),
                        )
                    },
                    None => None,
                },
                Backend::Mlflow => match holder(
                    sorted(project.mlflow.dom()),
                    owners_mlflow(project.mlflow),
                    run,
                ) {
                    Some(root) => {
                        let path = metric_path(root, tag);
                        let frontier = offset_of(project.mlflow[root].offsets, path);
                        Some(
                            self.metric_points(
                                lines_of(text_of(upto(contents_of(contents, path), frontier))),
                            ),
                        )
                    },
                    None => None,
                },
                Backend::Wandb => match holder(
                    sorted(project.wandb.dom()),
                    owners_wandb(project.wandb),
                    run,
                ) {
                    Some(path) => Some(
                        self.log_points(
                            upto(contents_of(contents, path), project.wandb[path].offset),
                            tag,
                        ),
                    ),
                    None => None,
                },
            }
        }
    }
}

/// What materializing a scalar series does. One that is held is marked as
/// looked at; one that is not is collected, and held from then on.
pub open spec fn materialized(
    before: ProjectModel,
    after: ProjectModel,
    key: Key,
    collected: Option<Seq<PointStamp>>,
    result: Option<PointsModel>,
) -> bool {
    let clock = counted(before.clock);
    if before.points.dom().contains(key) {
        &&& result == Some(before.points[key].0)
        &&& after == (ProjectModel {
            clock,
            points: before.points.insert(key, (before.points[key].0, clock)),
            ..before
        })
    } else {
        match collected {
            Some(points) => {
                let model = PointsModel::pushed_all(points);
                &&& result == Some(model)
                &&& after == (ProjectModel { clock, points: after.points, ..before })
                &&& shelved(
                    before.points,
                    after.points,
                    key,
                    model,
                    clock,
                    MATERIALIZE_CAP as nat,
                )
            },
            None => result is None && after == (ProjectModel { clock, ..before }),
        }
    }
}

/// The snapshots of a histogram series out of the event files of its run;
/// nothing where the series does not exist or is no histogram.
pub open spec fn series_snapshots(
    project: ProjectModel,
    run: Seq<char>,
    tag: Seq<char>,
    contents: Map<Seq<char>, Seq<u8>>,
) -> Option<Seq<SnapshotModel>> {
    if !project.runs.dom().contains(run) || !project.runs[run].series.dom().contains(tag)
        || project.runs[run].series[tag].class != SeriesClass::Histogram {
        None
    } else {
        Some(files_snapshots(project.files, sorted(project.files.dom()), run, tag, contents))
    }
}

/// What materializing a histogram series does.
pub open spec fn histograms_materialized(
    before: ProjectModel,
    after: ProjectModel,
    key: Key,
    collected: Option<Seq<SnapshotModel>>,
    result: Option<HistogramsModel>,
) -> bool {
    let clock = counted(before.clock);
    if before.histograms.dom().contains(key) {
        &&& result == Some(before.histograms[key].0)
        &&& after == (ProjectModel {
            clock,
            histograms: before.histograms.insert(key, (before.histograms[key].0, clock)),
            ..before
        })
    } else {
        match collected {
            Some(snapshots) => {
                let model = snapshots_onto(HistogramsModel::start(), snapshots);
                &&& result == Some(model)
                &&& after == (ProjectModel { clock, histograms: after.histograms, ..before })
                &&& shelved(
                    before.histograms,
                    after.histograms,
                    key,
                    model,
                    clock,
                    HISTOGRAM_CAP as nat,
                )
            },
            None => result is None && after == (ProjectModel { clock, ..before }),
        }
    }
}

/// The contents of a file; nothing where it is gone.
fn bytes_of<'a>(contents: &'a NameMap<Vec<u8>>, path: &str, nothing: &'a Vec<u8>) -> (bytes: &'a Vec<
    u8,
>)
    requires
        contents.wf(),
        nothing@.len() == 0,
    ensures
        bytes@ == contents_of(contents.model(), path@),
{
    proof {
        contents.lemma_model_has(path@);
    }
    match contents.get(path) {
        Some(bytes) => bytes,
        None => {
            assert(nothing@ =~= Seq::<u8>::empty());
            nothing
        },
    }
}

/// A file to read for a materialization, and up to where.
pub struct Frontier {
    /// Where it is.
    pub path: String,
    /// How much of it was taken in.
    pub offset: u64,
}

impl Project {
    /// The dvclive root of a run.
    fn dvclive_of(&self, run: &str) -> (found: Option<usize>)
        requires
            self.wf(),
        ensures
            match found {
                Some(at) => {
                    &&& at < self.dvclive.names().len()
                    &&& holder(sorted(self@.dvclive.dom()), owners_dvclive(self@.dvclive), run@)
                        == Some(self.dvclive.names()[at as int])
                },
                None => holder(
                    sorted(self@.dvclive.dom()),
                    owners_dvclive(self@.dvclive),
                    run@,
                ) is None,
            },
    {
        let ghost paths = self.dvclive.names();
        let ghost owners = owners_dvclive(self@.dvclive);
        proof {
            self.dvclive.lemma_model_names();
            assert(paths.skip(0) =~= paths);
        }
        let mut i: usize = 0;
        while i < self.dvclive.len()
            invariant
                i <= self.dvclive.names().len(),
                self.wf(),
                paths == self.dvclive.names(),
                owners == owners_dvclive(self@.dvclive),
                holder(paths.skip(i as int), owners, run@) == holder(paths, owners, run@),
                paths == sorted(self@.dvclive.dom()),
            decreases self.dvclive.names().len() - i,
        {
            proof {
                self.dvclive.lemma_model_index(i as int);
                assert(paths.skip(i as int)[0] == paths[i as int]);
                assert(paths.skip(i as int).skip(1) =~= paths.skip(i + 1));
            }
            if same_text(&self.dvclive.value_at(i).run, run) {
                return Some(i);
            }
            i += 1;
        }
        None
    }

    /// The mlflow root of a run.
    fn mlflow_of(&self, run: &str) -> (found: Option<usize>)
        requires
            self.wf(),
        ensures
            match found {
                Some(at) => {
                    &&& at < self.mlflow.names().len()
                    &&& holder(sorted(self@.mlflow.dom()), owners_mlflow(self@.mlflow), run@)
                        == Some(self.mlflow.names()[at as int])
                },
                None => holder(
                    sorted(self@.mlflow.dom()),
                    owners_mlflow(self@.mlflow),
                    run@,
                ) is None,
            },
    {
        let ghost paths = self.mlflow.names();
        let ghost owners = owners_mlflow(self@.mlflow);
        proof {
            self.mlflow.lemma_model_names();
            assert(paths.skip(0) =~= paths);
        }
        let mut i: usize = 0;
        while i < self.mlflow.len()
            invariant
                i <= self.mlflow.names().len(),
                self.wf(),
                paths == self.mlflow.names(),
                owners == owners_mlflow(self@.mlflow),
                holder(paths.skip(i as int), owners, run@) == holder(paths, owners, run@),
                paths == sorted(self@.mlflow.dom()),
            decreases self.mlflow.names().len() - i,
        {
            proof {
                self.mlflow.lemma_model_index(i as int);
                assert(paths.skip(i as int)[0] == paths[i as int]);
                assert(paths.skip(i as int).skip(1) =~= paths.skip(i + 1));
            }
            if same_text(&self.mlflow.value_at(i).run, run) {
                return Some(i);
            }
            i += 1;
        }
        None
    }

    /// The wandb root of a run.
    fn wandb_of(&self, run: &str) -> (found: Option<usize>)
        requires
            self.wf(),
        ensures
            match found {
                Some(at) => {
                    &&& at < self.wandb.names().len()
                    &&& holder(sorted(self@.wandb.dom()), owners_wandb(self@.wandb), run@)
                        == Some(self.wandb.names()[at as int])
                },
                None => holder(
                    sorted(self@.wandb.dom()),
                    owners_wandb(self@.wandb),
                    run@,
                ) is None,
            },
    {
        let ghost paths = self.wandb.names();
        let ghost owners = owners_wandb(self@.wandb);
        proof {
            self.wandb.lemma_model_names();
            assert(paths.skip(0) =~= paths);
        }
        let mut i: usize = 0;
        while i < self.wandb.len()
            invariant
                i <= self.wandb.names().len(),
                self.wf(),
                paths == self.wandb.names(),
                owners == owners_wandb(self@.wandb),
                holder(paths.skip(i as int), owners, run@) == holder(paths, owners, run@),
                paths == sorted(self@.wandb.dom()),
            decreases self.wandb.names().len() - i,
        {
            proof {
                self.wandb.lemma_model_index(i as int);
                assert(paths.skip(i as int)[0] == paths[i as int]);
                assert(paths.skip(i as int).skip(1) =~= paths.skip(i + 1));
            }
            if same_text(&self.wandb.value_at(i).run, run) {
                return Some(i);
            }
            i += 1;
        }
        None
    }

    /// The class of a series, where it exists.
    fn class_of_series(&self, run: &str, tag: &str) -> (class: Option<(Backend, SeriesClass)>)
        requires
            self.wf(),
        ensures
            match class {
                Some((backend, c)) => {
                    &&& self@.runs.dom().contains(run@)
                    &&& self@.runs[run@].series.dom().contains(tag@)
                    &&& backend == self@.runs[run@].backend
                    &&& c == self@.runs[run@].series[tag@].class
                },
                None => !self@.runs.dom().contains(run@)
                    || !self@.runs[run@].series.dom().contains(tag@),
            },
    {
        proof {
            self.runs.lemma_model_has(run@);
        }
        match self.runs.get(run) {
            Some(r) => {
                proof {
                    self.runs.lemma_index(self.runs.index_of(run@));
                    assert(r.wf());
                    r.series.lemma_model_has(tag@);
                }
                match r.series.get(tag) {
                    Some(series) => Some((r.backend, series.class)),
                    None => None,
                }
            },
            None => None,
        }
    }

    /// Collects the points of a run's event files.
    fn collect_event_points(&self, run: &str, tag: &str, contents: &NameMap<Vec<u8>>) -> (points:
        Points)
        requires
            self.wf(),
            contents.wf(),
        ensures
            points.wf(),
            points@ == PointsModel::pushed_all(
                files_points(
                    self@.files,
                    sorted(self@.files.dom()),
                    run@,
                    tag@,
                    contents.model(),
                ),
            ),
    {
        let ghost paths = self.files.names();
        let nothing: Vec<u8> = Vec::new();
        proof {
            self.files.lemma_model_names();
            assert(paths.take(0) =~= Seq::<Seq<char>>::empty());
        }
        let mut points = Points::new();
        let mut i: usize = 0;
        while i < self.files.len()
            invariant
                i <= self.files.names().len(),
                self.wf(),
                contents.wf(),
                nothing@.len() == 0,
                paths == self.files.names(),
                points.wf(),
                points@ == PointsModel::pushed_all(
                    files_points(
                        self@.files,
                        paths.take(i as int),
                        run@,
                        tag@,
                        contents.model(),
                    ),
                ),
            decreases self.files.names().len() - i,
        {
            let ghost before = files_points(
                self@.files,
                paths.take(i as int),
                run@,
                tag@,
                contents.model(),
            );
            proof {
                self.files.lemma_model_index(i as int);
                assert(paths.take(i + 1).drop_last() =~= paths.take(i as int));
                assert(paths.take(i + 1).last() == paths[i as int]);
            }
            let log = self.files.value_at(i);
            if same_text(log.run_name(), run) {
                // Reading past the frontier would double-ingest once the
                // reload loop catches up; stopping exactly at it keeps the
                // two paths consistent.
                let bytes = bytes_of(contents, self.files.name_at(i), &nothing);
                points_of_events(&mut points, bytes, log.committed_offset(), tag);
                proof {
                    let more = events_points(
                        events_of(upto(bytes@, log@.committed)),
                        tag@,
                    );
                    lemma_pushed_onto_start(before);
                    lemma_pushed_concat(PointsModel::start(), before, more);
                    lemma_pushed_onto_start(before + more);
                }
            }
            i += 1;
        }
        assert(paths.take(i as int) =~= paths);
        points
    }

    /// Collects the points of a series out of the files of its run.
    fn collect<
        F: Fn(&str) -> Option<u64>,
        G: Fn(u64) -> u64,
        H: Fn(Moments, u64) -> Moments,
    >(
        &self,
        run: &str,
        tag: &str,
        contents: &NameMap<Vec<u8>>,
        numeric: &Numeric<F, G, H>,
    ) -> (points: Option<Points>)
        requires
            self.wf(),
            contents.wf(),
            numeric.ok(),
        ensures
            match points {
                Some(p) => {
                    &&& numeric.series_points(self@, run@, tag@, contents.model()) matches Some(list)
                    &&& p.wf()
                    &&& p@ == PointsModel::pushed_all(list)
                },
                None => numeric.series_points(self@, run@, tag@, contents.model()) is None,
            },
    {
        let nothing: Vec<u8> = Vec::new();
        let (backend, class) = self.class_of_series(run, tag)?;
        if class != SeriesClass::Scalar {
            return None;
        }
        match backend {
            Backend::Tfevents => Some(self.collect_event_points(run, tag, contents)),
            Backend::Dvclive => {
                let at: usize = self.dvclive_of(run)?;
                let state = self.dvclive.value_at(at);
                proof {
                    self.dvclive.lemma_model_index(at as int);
                    assert(state.wf());
                }
                let path = path_of_tsv(self.dvclive.name_at(at), tag);
                let frontier: u64 = known_offset(&state.offsets, &path);
                Some(numeric.points_of_tsv(bytes_of(contents, &path, &nothing), frontier))
            },
            Backend::Mlflow => {
                let at: usize = self.mlflow_of(run)?;
                let state = self.mlflow.value_at(at);
                proof {
                    self.mlflow.lemma_model_index(at as int);
                    assert(state.wf());
                }
                let path = path_of_metric(self.mlflow.name_at(at), tag);
                let frontier: u64 = known_offset(&state.offsets, &path);
                Some(numeric.points_of_metrics(bytes_of(contents, &path, &nothing), frontier))
            },
            Backend::Wandb => {
                let at: usize = self.wandb_of(run)?;
                let state = self.wandb.value_at(at);
                proof {
                    self.wandb.lemma_model_index(at as int);
                }
                let bytes = bytes_of(contents, self.wandb.name_at(at), &nothing);
                Some(numeric.points_of_log(bytes, state.offset, tag))
            },
        }
    }

    /// Materializes one scalar series: a transient full re-read of the run's
    /// files up to the reload loop's committed frontier, preemption applied.
    /// Returns the points, `None` when the series does not exist or is not
    /// scalar. Subsequent [`refresh`](Self::refresh) passes append to it
    /// incrementally; an LRU cap bounds memory.
    pub fn materialize<
        F: Fn(&str) -> Option<u64>,
        G: Fn(u64) -> u64,
        H: Fn(Moments, u64) -> Moments,
    >(
        &mut self,
        run_name: &str,
        tag: &str,
        contents: &NameMap<Vec<u8>>,
        numeric: &Numeric<F, G, H>,
    ) -> (points: Option<&Points>)
        requires
            old(self).wf(),
            contents.wf(),
            numeric.ok(),
        ensures
            final(self).wf(),
            materialized(
                old(self)@,
                final(self)@,
                (run_name@, tag@),
                numeric.series_points(old(self)@, run_name@, tag@, contents.model()),
                option_points(points),
            ),
    {
        let ghost start = *self;
        let ghost key = (run_name@, tag@);
        self.clock = count_up(self.clock);
        let clock: u64 = self.clock;
        assert(numeric.series_points(self@, run_name@, tag@, contents.model())
            == numeric.series_points(start@, run_name@, tag@, contents.model()));
        let found = self.sink.points.find(run_name, tag);
        if let Some(at) = found {
            proof {
                self.sink.points.lemma_index(at as int);
            }
            self.sink.points.touch(at, clock);
            return Some(self.sink.points.item(at));
        }
        match self.collect(run_name, tag, contents, numeric) {
            Some(points) => {
                let ghost shelf = self.sink.points;
                self.sink.points.insert(
                    run_name.to_owned(),
                    tag.to_owned(),
                    points,
                    clock,
                    MATERIALIZE_CAP,
                );
                proof {
                    lemma_points_shelf_insert(shelf, self.sink.points, points);
                }
                let last: usize = self.sink.points.len() - 1;
                Some(self.sink.points.item(last))
            },
            None => None,
        }
    }

    /// The materialized points of a series, if currently held.
    pub fn points(&self, run_name: &str, tag: &str) -> (points: Option<&Points>)
        requires
            self.wf(),
        ensures
            option_points(points) == (if self@.points.dom().contains((run_name@, tag@)) {
                Some(self@.points[(run_name@, tag@)].0)
            } else {
                None
            }),
            points matches Some(p) ==> p.wf(),
    {
        match self.sink.points.find(run_name, tag) {
            Some(at) => {
                proof {
                    self.sink.points.lemma_index(at as int);
                }
                Some(self.sink.points.item(at))
            },
            None => None,
        }
    }

    /// Collects the snapshots of a run's event files.
    fn collect_event_snapshots(
        &self,
        run: &str,
        tag: &str,
        contents: &NameMap<Vec<u8>>,
    ) -> (series: HistogramSeries)
        requires
            self.wf(),
            contents.wf(),
        ensures
            series.wf(),
            series@ == snapshots_onto(
                HistogramsModel::start(),
                files_snapshots(
                    self@.files,
                    sorted(self@.files.dom()),
                    run@,
                    tag@,
                    contents.model(),
                ),
            ),
    {
        let ghost paths = self.files.names();
        let nothing: Vec<u8> = Vec::new();
        proof {
            self.files.lemma_model_names();
            assert(paths.take(0) =~= Seq::<Seq<char>>::empty());
        }
        let mut series = HistogramSeries::new();
        let mut i: usize = 0;
        while i < self.files.len()
            invariant
                i <= self.files.names().len(),
                self.wf(),
                contents.wf(),
                nothing@.len() == 0,
                paths == self.files.names(),
                series.wf(),
                series@ == snapshots_onto(
                    HistogramsModel::start(),
                    files_snapshots(
                        self@.files,
                        paths.take(i as int),
                        run@,
                        tag@,
                        contents.model(),
                    ),
                ),
            decreases self.files.names().len() - i,
        {
            let ghost before = files_snapshots(
                self@.files,
                paths.take(i as int),
                run@,
                tag@,
                contents.model(),
            );
            proof {
                self.files.lemma_model_index(i as int);
                assert(paths.take(i + 1).drop_last() =~= paths.take(i as int));
                assert(paths.take(i + 1).last() == paths[i as int]);
            }
            let log = self.files.value_at(i);
            if same_text(log.run_name(), run) {
                let bytes = bytes_of(contents, self.files.name_at(i), &nothing);
                snapshots_of_events(&mut series, bytes, log.committed_offset(), tag);
                proof {
                    let more = events_snapshots(
                        events_of(upto(bytes@, log@.committed)),
                        tag@,
                    );
                    lemma_snapshots_concat(HistogramsModel::start(), before, more);
                }
            }
            i += 1;
        }
        assert(paths.take(i as int) =~= paths);
        series
    }

    /// Materializes one histogram series — the same transient full re-read up
    /// to the committed frontier as [`materialize`](Self::materialize),
    /// collecting normalized bucket snapshots instead of points.
    pub fn materialize_histograms(
        &mut self,
        run_name: &str,
        tag: &str,
        contents: &NameMap<Vec<u8>>,
    ) -> (series: Option<&HistogramSeries>)
        requires
            old(self).wf(),
            contents.wf(),
        ensures
            final(self).wf(),
            histograms_materialized(
                old(self)@,
                final(self)@,
                (run_name@, tag@),
                series_snapshots(old(self)@, run_name@, tag@, contents.model()),
                option_series(series),
            ),
    {
        let ghost start = *self;
        self.clock = count_up(self.clock);
        let clock: u64 = self.clock;
        let found = self.sink.histograms.find(run_name, tag);
        if let Some(at) = found {
            proof {
                self.sink.histograms.lemma_index(at as int);
            }
            self.sink.histograms.touch(at, clock);
            return Some(self.sink.histograms.item(at));
        }
        match self.class_of_series(run_name, tag) {
            Some((_, SeriesClass::Histogram)) => {
                let series = self.collect_event_snapshots(run_name, tag, contents);
                let ghost shelf = self.sink.histograms;
                self.sink.histograms.insert(
                    run_name.to_owned(),
                    tag.to_owned(),
                    series,
                    clock,
                    HISTOGRAM_CAP,
                );
                proof {
                    lemma_histograms_shelf_insert(shelf, self.sink.histograms, series);
                }
                let last: usize = self.sink.histograms.len() - 1;
                Some(self.sink.histograms.item(last))
            },
            _ => None,
        }
    }

    /// The materialized histogram series, if currently held.
    pub fn histogram_series(&self, run_name: &str, tag: &str) -> (series: Option<&HistogramSeries>)
        requires
            self.wf(),
        ensures
            option_series(series) == (if self@.histograms.dom().contains((run_name@, tag@)) {
                Some(self@.histograms[(run_name@, tag@)].0)
            } else {
                None
            }),
    {
        match self.sink.histograms.find(run_name, tag) {
            Some(at) => {
                proof {
                    self.sink.histograms.lemma_index(at as int);
                }
                Some(self.sink.histograms.item(at))
            },
            None => None,
        }
    }
}

/// What optional points hold.
pub open spec fn option_points(points: Option<&Points>) -> Option<PointsModel> {
    match points {
        Some(p) => Some(p@),
        None => None,
    }
}

/// What an optional histogram series holds.
pub open spec fn option_series(series: Option<&HistogramSeries>) -> Option<HistogramsModel> {
    match series {
        Some(s) => Some(s@),
        None => None,
    }
}

/// A sound series put onto a sound shelf.
proof fn lemma_points_shelf_insert(before: Shelf<Points>, after: Shelf<Points>, item: Points)
    requires
        points_shelf(before),
        after.wf(),
        item.wf(),
        after.items().len() > 0,
        after.items().last() == item,
        forall|i: int|
            0 <= i < after.items().len() - 1 ==> before.items().contains(
                #[trigger] after.items()[i],
            ),
    ensures
        points_shelf(after),
{
    assert forall|i: int| 0 <= i < after.items().len() implies (
    #[trigger] after.items()[i]).wf() by {
        if i < after.items().len() - 1 {
            let k = choose|k: int|
                0 <= k < before.items().len() && before.items()[k] == after.items()[i];
            assert(before.items()[k].wf());
        }
    }
}

/// A sound series put onto a sound shelf.
proof fn lemma_histograms_shelf_insert(
    before: Shelf<HistogramSeries>,
    after: Shelf<HistogramSeries>,
    item: HistogramSeries,
)
    requires
        histograms_shelf(before),
        after.wf(),
        item.wf(),
        after.items().len() > 0,
        after.items().last() == item,
        forall|i: int|
            0 <= i < after.items().len() - 1 ==> before.items().contains(
                #[trigger] after.items()[i],
            ),
    ensures
        histograms_shelf(after),
{
    assert forall|i: int| 0 <= i < after.items().len() implies (
    #[trigger] after.items()[i]).wf() by {
        if i < after.items().len() - 1 {
            let k = choose|k: int|
                0 <= k < before.items().len() && before.items()[k] == after.items()[i];
            assert(before.items()[k].wf());
        }
    }
}

/// What a list of files to read holds.
pub open spec fn frontier_models(list: Seq<Frontier>) -> Seq<(Seq<char>, u64)> {
    list.map_values(|frontier: Frontier| (frontier.path@, frontier.offset))
}

/// The event files of a run of which something was taken in.
pub open spec fn event_frontiers(
    files: Map<Seq<char>, LogModel>,
    paths: Seq<Seq<char>>,
    run: Seq<char>,
) -> Seq<(Seq<char>, u64)>
    decreases paths.len(),
{
    if paths.len() == 0 {
        Seq::empty()
    } else {
        let before = event_frontiers(files, paths.drop_last(), run);
        let log = files[paths.last()];
        if log.run == run && log.committed > 0 {
            before.push((paths.last(), log.committed))
        } else {
            before
        }
    }
}

/// The files that a materialization reads, each up to its frontier.
pub open spec fn frontiers_of(project: ProjectModel, run: Seq<char>, tag: Seq<char>) -> Seq<
    (Seq<char>, u64),
> {
    if !project.runs.dom().contains(run) {
        Seq::empty()
    } else {
        match project.runs[run].backend {
            Backend::Tfevents => event_frontiers(
                project.files,
                sorted(project.files.dom()),
                run,
            ),
            Backend::Dvclive => match holder(
                sorted(project.dvclive.dom()),
                owners_dvclive(project.dvclive),
                run,
            ) {
                Some(root) => {
                    let path = tsv_path(root, tag);
                    seq![(path, offset_of(project.dvclive[root].offsets, path))]
                },
                None => Seq::empty(),
            },
            Backend::Mlflow => match holder(
                sorted(project.mlflow.dom()),
                owners_mlflow(project.mlflow),
                run,
            ) {
                Some(root) => {
                    let path = metric_path(root, tag);
                    seq![(path, offset_of(project.mlflow[root].offsets, path))]
                },
                None => Seq::empty(),
            },
            Backend::Wandb => match holder(
                sorted(project.wandb.dom()),
                owners_wandb(project.wandb),
                run,
            ) {
                Some(path) => seq![(path, project.wandb[path].offset)],
                None => Seq::empty(),
            },
        }
    }
}

/// A live event file: where it is, its run, and how far it is read.
pub struct LiveFile {
    /// Where it is.
    pub path: String,
    /// The name of its run.
    pub run: String,
    /// The committed offset.
    pub offset: u64,
}

/// What a list of live files holds.
pub open spec fn live_models(list: Seq<LiveFile>) -> Seq<(Seq<char>, Seq<char>, u64)> {
    list.map_values(|file: LiveFile| (file.path@, file.run@, file.offset))
}

/// Whether a run has a dead event file.
pub open spec fn has_dead_file(files: Map<Seq<char>, LogModel>, run: Seq<char>) -> bool {
    exists|path: Seq<char>| #[trigger]
        files.dom().contains(path) && files[path].run == run && files[path].dead
}

/// The event files of the runs without a dead one.
pub open spec fn live_files(files: Map<Seq<char>, LogModel>, paths: Seq<Seq<char>>) -> Seq<
    (Seq<char>, Seq<char>, u64),
>
    decreases paths.len(),
{
    if paths.len() == 0 {
        Seq::empty()
    } else {
        let before = live_files(files, paths.drop_last());
        let log = files[paths.last()];
        if has_dead_file(files, log.run) {
            before
        } else {
            before.push((paths.last(), log.run, log.committed))
        }
    }
}

impl Project {
    /// The files that materializing a series reads, each up to its frontier.
    pub fn frontiers(&self, run_name: &str, tag: &str) -> (list: Vec<Frontier>)
        requires
            self.wf(),
        ensures
            frontier_models(list@) == frontiers_of(self@, run_name@, tag@),
    {
        let mut list: Vec<Frontier> = Vec::new();
        assert(frontier_models(list@) =~= Seq::<(Seq<char>, u64)>::empty());
        proof {
            self.runs.lemma_model_has(run_name@);
        }
        let backend = match self.runs.get(run_name) {
            Some(run) => run.backend,
            None => return list,
        };
        match backend {
            Backend::Tfevents => {
                let ghost paths = self.files.names();
                proof {
                    self.files.lemma_model_names();
                    assert(paths.take(0) =~= Seq::<Seq<char>>::empty());
                }
                let mut i: usize = 0;
                while i < self.files.len()
                    invariant
                        i <= self.files.names().len(),
                        self.wf(),
                        paths == self.files.names(),
                        frontier_models(list@) == event_frontiers(
                            self@.files,
                            paths.take(i as int),
                            run_name@,
                        ),
                    decreases self.files.names().len() - i,
                {
                    proof {
                        self.files.lemma_model_index(i as int);
                        assert(paths.take(i + 1).drop_last() =~= paths.take(i as int));
                        assert(paths.take(i + 1).last() == paths[i as int]);
                    }
                    let log = self.files.value_at(i);
                    let offset: u64 = log.committed_offset();
                    if same_text(log.run_name(), run_name) && offset > 0 {
                        let ghost before = frontier_models(list@);
                        let path = self.files.name_at(i).clone();
                        list.push(Frontier { path, offset });
                        assert(frontier_models(list@) =~= before.push((path@, offset)));
                    }
                    i += 1;
                }
                assert(paths.take(i as int) =~= paths);
            },
            Backend::Dvclive => {
                if let Some(at) = self.dvclive_of(run_name) {
                    let state = self.dvclive.value_at(at);
                    proof {
                        self.dvclive.lemma_model_index(at as int);
                        assert(state.wf());
                    }
                    let path = path_of_tsv(self.dvclive.name_at(at), tag);
                    let offset: u64 = known_offset(&state.offsets, &path);
                    list.push(Frontier { path, offset });
                    assert(frontier_models(list@) =~= seq![(path@, offset)]);
                }
            },
            Backend::Mlflow => {
                if let Some(at) = self.mlflow_of(run_name) {
                    let state = self.mlflow.value_at(at);
                    proof {
                        self.mlflow.lemma_model_index(at as int);
                        assert(state.wf());
                    }
                    let path = path_of_metric(self.mlflow.name_at(at), tag);
                    let offset: u64 = known_offset(&state.offsets, &path);
                    list.push(Frontier { path, offset });
                    assert(frontier_models(list@) =~= seq![(path@, offset)]);
                }
            },
            Backend::Wandb => {
                if let Some(at) = self.wandb_of(run_name) {
                    proof {
                        self.wandb.lemma_model_index(at as int);
                    }
                    let offset: u64 = self.wandb.value_at(at).offset;
                    let path = self.wandb.name_at(at).clone();
                    list.push(Frontier { path, offset });
                    assert(frontier_models(list@) =~= seq![(path@, offset)]);
                }
            },
        }
        list
    }

    /// Whether a run has a dead event file.
    fn run_has_dead_file(&self, run: &str) -> (result: bool)
        requires
            self.wf(),
        ensures
            result == has_dead_file(self@.files, run@),
    {
        let mut i: usize = 0;
        while i < self.files.len()
            invariant
                i <= self.files.names().len(),
                self.wf(),
                forall|k: int|
                    0 <= k < i ==> !((#[trigger] self.files.values()[k])@.run == run@
                        && self.files.values()[k]@.dead),
            decreases self.files.names().len() - i,
        {
            let log = self.files.value_at(i);
            if log.is_dead() && same_text(log.run_name(), run) {
                proof {
                    self.files.lemma_model_index(i as int);
                    assert(self@.files.dom().contains(self.files.names()[i as int]));
                }
                return true;
            }
            i += 1;
        }
        proof {
            if has_dead_file(self@.files, run@) {
                let path = choose|path: Seq<char>| #[trigger]
                    self@.files.dom().contains(path) && self@.files[path].run == run@
                        && self@.files[path].dead;
                self.files.lemma_model_has(path);
                let k = self.files.index_of(path);
                self.files.lemma_index(k);
                assert(self.files.values()[k]@.run == run@);
            }
        }
        false
    }

    /// The event files to cache: those of runs without a dead one, so that
    /// damage is re-detected (and re-reported) next session.
    pub fn save_cache(&self) -> (list: Vec<LiveFile>)
        requires
            self.wf(),
        ensures
            live_models(list@) == live_files(self@.files, sorted(self@.files.dom())),
    {
        let mut list: Vec<LiveFile> = Vec::new();
        let ghost paths = self.files.names();
        proof {
            self.files.lemma_model_names();
            assert(paths.take(0) =~= Seq::<Seq<char>>::empty());
            assert(live_models(list@) =~= Seq::<(Seq<char>, Seq<char>, u64)>::empty());
        }
        let mut i: usize = 0;
        while i < self.files.len()
            invariant
                i <= self.files.names().len(),
                self.wf(),
                paths == self.files.names(),
                live_models(list@) == live_files(self@.files, paths.take(i as int)),
            decreases self.files.names().len() - i,
        {
            proof {
                self.files.lemma_model_index(i as int);
                assert(paths.take(i + 1).drop_last() =~= paths.take(i as int));
                assert(paths.take(i + 1).last() == paths[i as int]);
            }
            let log = self.files.value_at(i);
            if !self.run_has_dead_file(log.run_name()) {
                let ghost before = live_models(list@);
                let path = self.files.name_at(i).clone();
                let run = log.run_name().clone();
                let offset: u64 = log.committed_offset();
                list.push(LiveFile { path, run, offset });
                assert(live_models(list@) =~= before.push((path@, run@, offset)));
            }
            i += 1;
        }
        assert(paths.take(i as int) =~= paths);
        list
    }

    /// Where a file of a dvclive root is to be read on from in the next pass,
    /// as the root's files stand.
    pub fn dvclive_offset(&self, root: &str, files: &Vec<TextFile>, path: &str) -> (offset: u64)
        requires
            self.wf(),
        ensures
            offset == (if self@.dvclive.dom().contains(root@) && !shrank(
                self@.dvclive[root@].offsets,
                text_models(files@),
            ) {
                offset_of(self@.dvclive[root@].offsets, path@)
            } else {
                0
            }),
    {
        proof {
            self.dvclive.lemma_model_has(root@);
        }
        match self.dvclive.find(root) {
            Some(at) => {
                let state = self.dvclive.value_at(at);
                assert(state.wf());
                state.offset(files, path)
            },
            None => 0,
        }
    }

    /// Where a metric file of an MLflow run is to be read on from in the next
    /// pass, as the run's files stand.
    pub fn mlflow_offset(&self, root: &str, files: &Vec<TextFile>, path: &str) -> (offset: u64)
        requires
            self.wf(),
        ensures
            offset == (if self@.mlflow.dom().contains(root@) && !shrank(
                self@.mlflow[root@].offsets,
                text_models(files@),
            ) {
                offset_of(self@.mlflow[root@].offsets, path@)
            } else {
                0
            }),
    {
        proof {
            self.mlflow.lemma_model_has(root@);
        }
        match self.mlflow.find(root) {
            Some(at) => {
                let state = self.mlflow.value_at(at);
                assert(state.wf());
                state.offset(files, path)
            },
            None => 0,
        }
    }

    /// Where a wandb log is to be read on from in the next pass, given its
    /// length.
    pub fn wandb_offset(&self, path: &str, len: u64) -> (offset: u64)
        requires
            self.wf(),
        ensures
            offset == (if self@.wandb.dom().contains(path@) && len
                >= self@.wandb[path@].offset {
                self@.wandb[path@].offset
            } else {
                0
            }),
    {
        proof {
            self.wandb.lemma_model_has(path@);
        }
        match self.wandb.find(path) {
            Some(at) => self.wandb.value_at(at).offset_for(len),
            None => 0,
        }
    }
}

} // verus!
