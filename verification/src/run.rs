//! One run of the catalog: its series, its hyperparameters and what its
//! files say about its state.
use vstd::prelude::*;

use crate::double::{equal, is_equal};
use crate::event::{
    DataType, DatumModel, Event, EventModel, EventPayload, PayloadModel, SummaryPayload, SummaryValue,
    ValueModel,
};
use crate::hparams::{plugin_data_of, session_start_hparams, HparamModel, HparamValue};
use crate::names::NameMap;
use crate::numeric::{Moments, Numeric};
use crate::params::{ParamModel, ParamValue};
use crate::series::{
    count_up, counted, lower, lower_of, preempts, upper, upper_of, HistogramSeries,
    HistogramSnapshot, HistogramsModel, PointStamp, Points, PointsModel, Series, SeriesClass,
    SeriesModel, SeriesSummary, SnapshotModel,
};
use crate::shelf::{Key, Shelf};
use crate::text::{chars_of, same_text};
use crate::wandb_record::NAN;

verus! {

/// How a run is currently judged, from file-modification recency — the only
/// signal tfevents offers. Display it with that provenance: "active" means
/// "its files changed recently", nothing stronger.
#[derive(Clone, Copy, PartialEq, Eq, Structural, Debug)]
pub enum RunStatus {
    /// A file of this run changed within the window.
    Active,
    /// Nothing changed within the window.
    Idle,
    /// The backend recorded a clean exit (wandb's exit record) — stronger
    /// provenance than modification recency.
    Finished,
    /// No modification time is available.
    Unknown,
}

/// Which format a run's data comes from. The catalog above this line is
/// backend-blind: every backend normalizes into the same series, summaries,
/// and preemption semantics.
#[derive(Clone, Copy, PartialEq, Eq, Structural, Debug)]
#[non_exhaustive]
pub enum Backend {
    /// TensorBoard event files.
    Tfevents,
    /// dvclive: tailable TSVs under `dvclive/plots/metrics/`.
    Dvclive,
    /// The MLflow file store: `mlruns/<exp>/<run>/metrics/*`.
    Mlflow,
    /// wandb offline: `offline-run-*/run-*.wandb` transaction logs.
    Wandb,
}

/// The label of a backend.
pub open spec fn backend_label(backend: Backend) -> Seq<char> {
    match backend {
        Backend::Tfevents => "tfevents"@,
        Backend::Dvclive => "dvclive"@,
        Backend::Mlflow => "mlflow"@,
        Backend::Wandb => "wandb"@,
    }
}

impl Backend {
    /// The lowercase label shown in tables.
    pub fn label(self) -> (label: &'static str)
        ensures
            label@ == backend_label(self),
    {
        match self {
            Backend::Tfevents => "tfevents",
            Backend::Dvclive => "dvclive",
            Backend::Mlflow => "mlflow",
            Backend::Wandb => "wandb",
        }
    }
}

/// A point in time or a span of it: whole seconds and nanoseconds.
#[derive(Clone, Copy, PartialEq, Eq, Structural, Debug)]
pub struct Stamp {
    /// Whole seconds.
    pub secs: u64,
    /// Nanoseconds on top.
    pub nanos: u32,
}

impl Stamp {
    /// The nanoseconds in all.
    pub open spec fn total(self) -> int {
        self.secs * 1_000_000_000 + self.nanos
    }

    /// The nanoseconds in all.
    pub fn nanoseconds(&self) -> (total: u128)
        ensures
            total == self.total(),
    {
        self.secs as u128 * 1_000_000_000 + self.nanos as u128
    }
}

/// The later of a known time and another.
pub open spec fn later(known: Option<Stamp>, other: Stamp) -> Stamp {
    match known {
        Some(k) => if other.total() > k.total() {
            other
        } else {
            k
        },
        None => other,
    }
}

/// The later of a known time and another.
pub fn later_of(known: Option<Stamp>, other: Stamp) -> (stamp: Stamp)
    ensures
        stamp == later(known, other),
{
    match known {
        Some(k) => if other.nanoseconds() > k.nanoseconds() {
            other
        } else {
            k
        },
        None => other,
    }
}

/// One run, named by its path relative to the scanned root (`.` for the
/// root itself) or, for MLflow, by its recorded run name.
pub struct Run {
    /// Where the run's data comes from.
    pub backend: Backend,
    /// The run directory.
    pub dir: String,
    /// Typed hyperparameters from the hparams plugin, when logged.
    pub hparams: NameMap<HparamValue>,
    /// Every series of the run, by tag — summaries always current.
    pub series: NameMap<Series>,
    /// Earliest event wall time seen, the bits of a double.
    pub first_wall: Option<u64>,
    /// Latest event wall time seen, the bits of a double.
    pub last_wall: Option<u64>,
    /// Latest file modification time, from the most recent refresh.
    pub last_write: Option<Stamp>,
    /// A backend-recorded clean exit (wandb); `None` when the backend has
    /// no such signal — status then falls back to modification recency.
    pub finished: Option<bool>,
    /// Total step preemptions observed across the run's series.
    pub preemptions: u64,
}

/// What a [`Run`] holds.
#[verifier::ext_equal]
pub struct RunModel {
    pub backend: Backend,
    pub dir: Seq<char>,
    pub hparams: Map<Seq<char>, HparamModel>,
    pub series: Map<Seq<char>, SeriesModel>,
    pub first_wall: Option<u64>,
    pub last_wall: Option<u64>,
    pub last_write: Option<Stamp>,
    pub finished: Option<bool>,
    pub preemptions: u64,
}

impl View for Run {
    type V = RunModel;

    open spec fn view(&self) -> RunModel {
        RunModel {
            backend: self.backend,
            dir: self.dir@,
            hparams: self.hparams.model(),
            series: self.series.model(),
            first_wall: self.first_wall,
            last_wall: self.last_wall,
            last_write: self.last_write,
            finished: self.finished,
            preemptions: self.preemptions,
        }
    }
}

impl RunModel {
    /// A run before anything was read of it.
    pub open spec fn start(backend: Backend, dir: Seq<char>) -> RunModel {
        RunModel {
            backend,
            dir,
            hparams: Map::empty(),
            series: Map::empty(),
            first_wall: None,
            last_wall: None,
            last_write: None,
            finished: None,
            preemptions: 0,
        }
    }

    /// The run with a wall time seen; zero is no time.
    pub open spec fn walled(self, wall: u64) -> RunModel {
        if equal(wall, 0) {
            self
        } else {
            RunModel {
                first_wall: Some(
                    match self.first_wall {
                        Some(w) => lower(w, wall),
                        None => wall,
                    },
                ),
                last_wall: Some(
                    match self.last_wall {
                        Some(w) => upper(w, wall),
                        None => wall,
                    },
                ),
                ..self
            }
        }
    }

    /// The run with a modification time seen.
    pub open spec fn written(self, mtime: Stamp) -> RunModel {
        RunModel { last_write: Some(later(self.last_write, mtime)), ..self }
    }

    /// A run whose files shrank or were replaced: nothing read is kept but
    /// its hyperparameters and its state.
    pub open spec fn reset(self) -> RunModel {
        RunModel {
            series: Map::empty(),
            preemptions: 0,
            first_wall: None,
            last_wall: None,
            ..self
        }
    }
}

/// Whether a text ends with another.
pub open spec fn ends_with(text: Seq<char>, suffix: Seq<char>) -> bool {
    text.len() >= suffix.len() && text.skip(text.len() - suffix.len()) == suffix
}

/// Whether a text ends with another.
pub fn text_ends_with(text: &str, suffix: &str) -> (result: bool)
    ensures
        result == ends_with(text@, suffix@),
{
    let a = chars_of(text);
    let b = chars_of(suffix);
    if a.len() < b.len() {
        return false;
    }
    let from: usize = a.len() - b.len();
    let mut i: usize = 0;
    while i < b.len()
        invariant
            i <= b@.len(),
            from + b.len() == a.len(),
            a@ == text@,
            b@ == suffix@,
            forall|k: int| 0 <= k < i ==> a@[from + k] == b@[k],
        decreases b@.len() - i,
    {
        if a[from + i] != b[i] {
            assert(text@.skip(from as int)[i as int] != suffix@[i as int]);
            return false;
        }
        i += 1;
    }
    assert(text@.skip(from as int) =~= suffix@);
    true
}

/// The one name that ends with a suffix stands at `at`.
pub open spec fn only_suffix(names: Seq<Seq<char>>, suffix: Seq<char>, at: int) -> bool {
    &&& 0 <= at < names.len()
    &&& ends_with(names[at], suffix)
    &&& forall|i: int|
        0 <= i < names.len() && i != at ==> !ends_with(#[trigger] names[i], suffix)
}

/// The place that a wanted name resolves to: by exact name first, then by
/// unique `/`-suffix.
pub open spec fn resolves(names: Seq<Seq<char>>, wanted: Seq<char>, found: Option<usize>) -> bool {
    let exact = exists|i: int| 0 <= i < names.len() && #[trigger] names[i] == wanted;
    let suffix = seq!['/'] + wanted;
    match found {
        Some(at) => if exact {
            at < names.len() && names[at as int] == wanted
        } else {
            only_suffix(names, suffix, at as int)
        },
        None => !exact && forall|at: int| !only_suffix(names, suffix, at),
    }
}

/// Resolves a wanted name among the names of a map: by exact name first,
/// then by unique `/`-suffix.
pub fn resolve_name<V>(map: &NameMap<V>, wanted: &str) -> (found: Option<usize>)
    requires
        map.wf(),
    ensures
        resolves(map.names(), wanted@, found),
{
    if let Some(i) = map.find(wanted) {
        return Some(i);
    }
    assert(!map.has(wanted@));
    let mut suffix = "/".to_owned();
    crate::text::push_text(&mut suffix, wanted);
    proof {
        reveal_strlit("/");
        assert(suffix@ =~= seq!['/'] + wanted@);
    }
    let mut found: Option<usize> = None;
    let mut i: usize = 0;
    while i < map.len()
        invariant
            i <= map.names().len(),
            suffix@ == seq!['/'] + wanted@,
            !map.has(wanted@),
            match found {
                Some(at) => at < i && ends_with(map.names()[at as int], suffix@) && forall|k: int|
                    0 <= k < i && k != at ==> !ends_with(#[trigger] map.names()[k], suffix@),
                None => forall|k: int|
                    0 <= k < i ==> !ends_with(#[trigger] map.names()[k], suffix@),
            },
        decreases map.names().len() - i,
    {
        if text_ends_with(map.name_at(i), &suffix) {
            if let Some(at) = found {
                proof {
                    assert forall|x: int| !only_suffix(map.names(), suffix@, x) by {
                        if only_suffix(map.names(), suffix@, x) {
                            if x != at {
                                assert(!ends_with(map.names()[at as int], suffix@));
                            } else {
                                assert(!ends_with(map.names()[i as int], suffix@));
                            }
                        }
                    }
                }
                return None;
            }
            found = Some(i);
        }
        i += 1;
    }
    found
}

/// The conventional names of a token counter, in the order they are tried.
pub open spec fn token_conventions() -> Seq<Seq<char>> {
    seq![
        "tokens"@,
        "consumed_tokens"@,
        "total_tokens"@,
        "num_tokens"@,
        "tokens_seen"@,
    ]
}

/// The tag that the first resolving name of a list resolves to.
pub open spec fn first_resolving(
    names: Seq<Seq<char>>,
    wanted: Seq<Seq<char>>,
    found: Option<Seq<char>>,
) -> bool {
    match found {
        Some(tag) => exists|k: int, at: usize|
            {
                &&& 0 <= k < wanted.len()
                &&& #[trigger] resolves(names, wanted[k], Some(at))
                &&& names[at as int] == tag
                &&& forall|j: int| 0 <= j < k ==> resolves(names, #[trigger] wanted[j], None)
            },
        None => forall|j: int|
            0 <= j < wanted.len() ==> resolves(names, #[trigger] wanted[j], None),
    }
}

impl Run {
    /// The run's maps are in order.
    pub open spec fn wf(self) -> bool {
        &&& self.hparams.wf()
        &&& self.series.wf()
    }

    /// A run before anything was read of it.
    pub fn new(backend: Backend, dir: String) -> (run: Run)
        ensures
            run.wf(),
            run@ == RunModel::start(backend, dir@),
    {
        let run = Run {
            backend,
            dir,
            hparams: NameMap::new(),
            series: NameMap::new(),
            first_wall: None,
            last_wall: None,
            last_write: None,
            finished: None,
            preemptions: 0,
        };
        assert(run@.hparams =~= Map::<Seq<char>, HparamModel>::empty());
        assert(run@.series =~= Map::<Seq<char>, SeriesModel>::empty());
        run
    }

    /// The series counting consumed tokens, for a tokens x axis. An
    /// `explicit` tag wins (resolved exactly, then as a unique
    /// `/`-suffix); otherwise the conventional names are tried in order.
    /// LR schedules and anneal points are defined in tokens — this is what
    /// lets plots be too.
    pub fn token_counter(&self, explicit: Option<&str>) -> (tag: Option<String>)
        requires
            self.wf(),
        ensures
            match explicit {
                Some(wanted) => first_resolving(
                    self.series.names(),
                    seq![wanted@],
                    crate::mlflow::option_text(tag),
                ),
                None => first_resolving(
                    self.series.names(),
                    token_conventions(),
                    crate::mlflow::option_text(tag),
                ),
            },
    {
        if let Some(wanted) = explicit {
            let ghost list = seq![wanted@];
            return match resolve_name(&self.series, wanted) {
                Some(at) => {
                    let tag = self.series.name_at(at).clone();
                    assert(resolves(self.series.names(), list[0], Some(at)));
                    Some(tag)
                },
                None => {
                    assert(list[0] == wanted@);
                    None
                },
            };
        }
        let ghost list = token_conventions();
        let conventions: [&str; 5] = [
            "tokens",
            "consumed_tokens",
            "total_tokens",
            "num_tokens",
            "tokens_seen",
        ];
        assert(forall|k: int| 0 <= k < 5 ==> conventions@[k]@ == #[trigger] list[k]);
        let mut i: usize = 0;
        while i < 5
            invariant
                i <= 5,
                self.wf(),
                explicit is None,
                list == token_conventions(),
                forall|k: int| 0 <= k < 5 ==> conventions@[k]@ == #[trigger] list[k],
                forall|k: int|
                    0 <= k < i ==> resolves(self.series.names(), #[trigger] list[k], None),
            decreases 5 - i,
        {
            if let Some(at) = resolve_name(&self.series, conventions[i]) {
                let tag = self.series.name_at(at).clone();
                assert(resolves(self.series.names(), list[i as int], Some(at)));
                return Some(tag);
            }
            assert(resolves(self.series.names(), list[i as int], None));
            i += 1;
        }
        None
    }

    /// Status: a backend-recorded clean exit wins; otherwise modification
    /// recency — `Active` if a file changed within `window` of `now`.
    pub fn status(&self, now: Stamp, window: Stamp) -> (status: RunStatus)
        ensures
            status == status_of(self@, now, window),
    {
        if let Some(true) = self.finished {
            return RunStatus::Finished;
        }
        match self.last_write {
            Some(last) => {
                let n: u128 = now.nanoseconds();
                let l: u128 = last.nanoseconds();
                if n > l && n - l > window.nanoseconds() {
                    RunStatus::Idle
                } else {
                    RunStatus::Active
                }
            },
            None => RunStatus::Unknown,
        }
    }
}

/// The status of a run at a time.
pub open spec fn status_of(run: RunModel, now: Stamp, window: Stamp) -> RunStatus {
    if run.finished == Some(true) {
        RunStatus::Finished
    } else {
        match run.last_write {
            Some(last) => if now.total() - last.total() > window.total() {
                RunStatus::Idle
            } else {
                RunStatus::Active
            },
            None => RunStatus::Unknown,
        }
    }
}

/// What one refresh pass did.
#[derive(Clone, Copy, PartialEq, Eq, Structural, Debug)]
pub struct RefreshReport {
    /// Newly discovered files opened this pass.
    pub new_files: u64,
    /// Points observed across all series.
    pub new_points: u64,
    /// Step preemptions (restart boundaries) recorded.
    pub preemptions: u64,
    /// Records lost to corruption or undecodable bytes.
    pub dropped_records: u64,
    /// Files that died this pass (bad framing or I/O error).
    pub dead_files: u64,
}

impl RefreshReport {
    /// A report of nothing.
    pub open spec fn start() -> RefreshReport {
        RefreshReport {
            new_files: 0,
            new_points: 0,
            preemptions: 0,
            dropped_records: 0,
            dead_files: 0,
        }
    }

    /// The report with a point more.
    pub open spec fn point(self, preempted: bool) -> RefreshReport {
        RefreshReport {
            new_points: counted(self.new_points),
            preemptions: if preempted {
                counted(self.preemptions)
            } else {
                self.preemptions
            },
            ..self
        }
    }

    /// The report with a lost record more.
    pub open spec fn dropped(self) -> RefreshReport {
        RefreshReport { dropped_records: counted(self.dropped_records), ..self }
    }

    /// The report with a new file more.
    pub open spec fn opened(self) -> RefreshReport {
        RefreshReport { new_files: counted(self.new_files), ..self }
    }

    /// The report with a dead file more.
    pub open spec fn died(self) -> RefreshReport {
        RefreshReport { dead_files: counted(self.dead_files), ..self }
    }

    /// A report of nothing.
    pub fn new() -> (report: RefreshReport)
        ensures
            report == RefreshReport::start(),
    {
        RefreshReport {
            new_files: 0,
            new_points: 0,
            preemptions: 0,
            dropped_records: 0,
            dead_files: 0,
        }
    }

    /// Counts a point.
    pub fn count_point(&mut self, preempted: bool)
        ensures
            *final(self) == old(self).point(preempted),
    {
        self.new_points = count_up(self.new_points);
        if preempted {
            self.preemptions = count_up(self.preemptions);
        }
    }

    /// Counts a lost record.
    pub fn count_dropped(&mut self)
        ensures
            *final(self) == old(self).dropped(),
    {
        self.dropped_records = count_up(self.dropped_records);
    }

    /// Counts a new file.
    pub fn count_opened(&mut self)
        ensures
            *final(self) == old(self).opened(),
    {
        self.new_files = count_up(self.new_files);
    }

    /// Counts a dead file.
    pub fn count_died(&mut self)
        ensures
            *final(self) == old(self).died(),
    {
        self.dead_files = count_up(self.dead_files);
    }
}

/// What points are held, by run and tag.
pub type HeldPoints = Map<Key, (PointsModel, u64)>;

/// What histograms are held, by run and tag.
pub type HeldHistograms = Map<Key, (HistogramsModel, u64)>;

/// The held points with one more of a series, where it is held.
pub open spec fn points_with(held: HeldPoints, key: Key, point: PointStamp) -> HeldPoints {
    if held.dom().contains(key) {
        held.insert(key, (held[key].0.pushed(point), held[key].1))
    } else {
        held
    }
}

/// The held histograms with one more snapshot of a series, where it is held.
pub open spec fn histograms_with(
    held: HeldHistograms,
    key: Key,
    snapshot: SnapshotModel,
) -> HeldHistograms {
    if held.dom().contains(key) {
        held.insert(key, (held[key].0.pushed(snapshot), held[key].1))
    } else {
        held
    }
}

/// Every series on the shelf is sound.
pub open spec fn points_shelf(shelf: Shelf<Points>) -> bool {
    &&& shelf.wf()
    &&& forall|i: int| 0 <= i < shelf.items().len() ==> (#[trigger] shelf.items()[i]).wf()
}

/// Every series on the shelf is sound.
pub open spec fn histograms_shelf(shelf: Shelf<HistogramSeries>) -> bool {
    &&& shelf.wf()
    &&& forall|i: int| 0 <= i < shelf.items().len() ==> (#[trigger] shelf.items()[i]).wf()
}

/// Appends a point to a series, where it is held.
pub fn push_held_point(shelf: &mut Shelf<Points>, run: &str, tag: &str, point: PointStamp)
    requires
        points_shelf(*old(shelf)),
    ensures
        points_shelf(*final(shelf)),
        final(shelf).model() == points_with(old(shelf).model(), (run@, tag@), point),
{
    let ghost before = *shelf;
    if let Some(i) = shelf.find(run, tag) {
        proof {
            before.lemma_index(i as int);
        }
        let item = shelf.item_mut(i);
        item.push(point);
        proof {
            shelf.lemma_model_update(before, i as int);
        }
    }
}

/// Appends a snapshot to a series, where it is held.
pub fn push_held_histogram(
    shelf: &mut Shelf<HistogramSeries>,
    run: &str,
    tag: &str,
    snapshot: HistogramSnapshot,
)
    requires
        histograms_shelf(*old(shelf)),
    ensures
        histograms_shelf(*final(shelf)),
        final(shelf).model() == histograms_with(old(shelf).model(), (run@, tag@), snapshot@),
{
    let ghost before = *shelf;
    if let Some(i) = shelf.find(run, tag) {
        proof {
            before.lemma_index(i as int);
        }
        let item = shelf.item_mut(i);
        item.push(snapshot);
        proof {
            shelf.lemma_model_update(before, i as int);
        }
    }
}

/// What a run is read into: the run itself, the series of it that are held,
/// and the report.
#[verifier::ext_equal]
pub struct Intake {
    pub run: RunModel,
    pub points: HeldPoints,
    pub histograms: HeldHistograms,
    pub report: RefreshReport,
}

/// What runs are read into beside themselves: the series that are held, and
/// the report of the pass.
pub struct Sink {
    /// The scalar series that are held.
    pub points: Shelf<Points>,
    /// The histogram series that are held.
    pub histograms: Shelf<HistogramSeries>,
    /// What this pass did so far.
    pub report: RefreshReport,
}

impl Sink {
    /// The held series are sound.
    pub open spec fn wf(self) -> bool {
        &&& points_shelf(self.points)
        &&& histograms_shelf(self.histograms)
    }

    /// What a run and the sink hold together.
    pub open spec fn with(self, run: Run) -> Intake {
        Intake {
            run: run@,
            points: self.points.model(),
            histograms: self.histograms.model(),
            report: self.report,
        }
    }

    /// Nothing held, nothing done.
    pub fn new() -> (sink: Sink)
        ensures
            sink.wf(),
            sink.points.model() == Map::<Key, (PointsModel, u64)>::empty(),
            sink.histograms.model() == Map::<Key, (HistogramsModel, u64)>::empty(),
            sink.report == RefreshReport::start(),
    {
        let sink = Sink {
            points: Shelf::new(),
            histograms: Shelf::new(),
            report: RefreshReport::new(),
        };
        assert(sink.points.model() =~= Map::<Key, (PointsModel, u64)>::empty());
        assert(sink.histograms.model() =~= Map::<Key, (HistogramsModel, u64)>::empty());
        sink
    }
}

/// The class that a plugin stands for.
pub open spec fn plugin_class(plugin: Seq<char>) -> Option<SeriesClass> {
    if plugin == "scalars"@ {
        Some(SeriesClass::Scalar)
    } else if plugin == "histograms"@ {
        Some(SeriesClass::Histogram)
    } else if plugin == "images"@ {
        Some(SeriesClass::Image)
    } else if plugin == "text"@ {
        Some(SeriesClass::Text)
    } else {
        None
    }
}

/// The class that a payload shows.
pub open spec fn payload_class(value: ValueModel) -> SeriesClass {
    if value.scalar() is Some {
        SeriesClass::Scalar
    } else {
        match value.payload {
            DatumModel::Histogram(_) => SeriesClass::Histogram,
            DatumModel::Image(_) => SeriesClass::Image,
            DatumModel::Tensor(tensor) => if tensor.dtype == DataType::String {
                SeriesClass::Text
            } else if tensor.shape.len() == 2 {
                SeriesClass::Histogram
            } else {
                SeriesClass::Unknown
            },
            _ => SeriesClass::Unknown,
        }
    }
}

/// The class of a value: what its plugin says, else what its payload shows.
pub open spec fn class_of(value: ValueModel) -> SeriesClass {
    match value.metadata {
        Some(metadata) => match plugin_class(metadata.plugin_name) {
            Some(class) => class,
            None => payload_class(value),
        },
        None => payload_class(value),
    }
}

/// The class that a plugin stands for.
fn class_of_plugin(plugin: &str) -> (class: Option<SeriesClass>)
    ensures
        class == plugin_class(plugin@),
{
    if same_text(plugin, "scalars") {
        Some(SeriesClass::Scalar)
    } else if same_text(plugin, "histograms") {
        Some(SeriesClass::Histogram)
    } else if same_text(plugin, "images") {
        Some(SeriesClass::Image)
    } else if same_text(plugin, "text") {
        Some(SeriesClass::Text)
    } else {
        None
    }
}

/// The class of a value: what its plugin says, else what its payload shows.
pub fn classify(value: &SummaryValue) -> (class: SeriesClass)
    ensures
        class == class_of(value@),
{
    if let Some(metadata) = &value.metadata {
        if let Some(class) = class_of_plugin(&metadata.plugin_name) {
            return class;
        }
    }
    if value.scalar().is_some() {
        return SeriesClass::Scalar;
    }
    match &value.payload {
        SummaryPayload::Histogram(_) => SeriesClass::Histogram,
        SummaryPayload::Image(_) => SeriesClass::Image,
        SummaryPayload::Tensor(tensor) => {
            if tensor.strings().is_some() {
                SeriesClass::Text
            } else if tensor.shape.len() == 2 {
                SeriesClass::Histogram
            } else {
                SeriesClass::Unknown
            }
        },
        _ => SeriesClass::Unknown,
    }
}

/// The plugin of a value, unless it is nameless.
pub open spec fn plugin_of(value: ValueModel) -> Option<Seq<char>> {
    match value.metadata {
        Some(metadata) => if metadata.plugin_name.len() > 0 {
            Some(metadata.plugin_name)
        } else {
            None
        },
        None => None,
    }
}

/// The hyperparameter of a typed parameter.
pub open spec fn hparam_of_param(param: ParamModel) -> HparamModel {
    match param {
        ParamModel::Number(bits) => HparamModel::Number(bits),
        ParamModel::Truth(truth) => HparamModel::Truth(truth),
        ParamModel::Text(text) => HparamModel::Text(text),
    }
}

/// Takes a typed parameter as a hyperparameter.
pub fn convert_param(value: ParamValue) -> (hparam: HparamValue)
    ensures
        hparam@ == hparam_of_param(value@),
{
    match value {
        ParamValue::Number(bits) => HparamValue::F64(bits),
        ParamValue::Bool(truth) => HparamValue::Bool(truth),
        ParamValue::Text(text) => HparamValue::String(text),
    }
}

/// A series of scalars before its first point.
pub open spec fn scalar_series() -> SeriesModel {
    SeriesModel { class: SeriesClass::Scalar, plugin: None, segments: Seq::empty() }
}

impl<
    F: Fn(&str) -> Option<u64>,
    G: Fn(u64) -> u64,
    H: Fn(Moments, u64) -> Moments,
> Numeric<F, G, H> {
    /// A run with one point more in a series.
    pub open spec fn with_point(
        self,
        run: RunModel,
        tag: Seq<char>,
        series: SeriesModel,
        point: PointStamp,
    ) -> RunModel {
        RunModel {
            series: run.series.insert(
                tag,
                SeriesModel { segments: self.observed(series.segments, point), ..series },
            ),
            preemptions: if preempts(series.segments, point) {
                counted(run.preemptions)
            } else {
                run.preemptions
            },
            ..run
        }
    }

    /// One scalar point from a text backend: wall times, summary, preemption
    /// accounting, and the held series — the path tfevents scalars take too.
    pub open spec fn take_scalar(
        self,
        intake: Intake,
        name: Seq<char>,
        tag: Seq<char>,
        point: PointStamp,
    ) -> Intake {
        let run = intake.run.walled(point.wall);
        let series = if run.series.dom().contains(tag) {
            run.series[tag]
        } else {
            scalar_series()
        };
        Intake {
            run: self.with_point(run, tag, series, point),
            points: points_with(intake.points, (name, tag), point),
            report: intake.report.point(preempts(series.segments, point)),
            ..intake
        }
    }

    /// One summary value of an event. Hparams markers carry run-level data in
    /// their metadata and are no series; every other value is a point of the
    /// series under its tag, whose class the first classifiable value fixes.
    pub open spec fn take_value(
        self,
        intake: Intake,
        name: Seq<char>,
        step: i64,
        wall: u64,
        value: ValueModel,
    ) -> Intake {
        if marks_hparams(value.tag) {
            if value.starts_session() {
                match plugin_data_of(value.metadata->0.plugin_content) {
                    Ok(hparams) => Intake {
                        run: RunModel {
                            hparams: intake.run.hparams.union_prefer_right(hparams),
                            ..intake.run
                        },
                        ..intake
                    },
                    Err(_) => intake,
                }
            } else {
                intake
            }
        } else {
            let known = if intake.run.series.dom().contains(value.tag) {
                intake.run.series[value.tag]
            } else {
                SeriesModel {
                    class: SeriesClass::Unknown,
                    plugin: plugin_of(value),
                    segments: Seq::empty(),
                }
            };
            let series = if known.class == SeriesClass::Unknown {
                SeriesModel { class: class_of(value), ..known }
            } else {
                known
            };
            let point = PointStamp {
                step,
                wall,
                value: match value.scalar() {
                    Some(bits) => bits,
                    None => NAN,
                },
            };
            let key = (name, value.tag);
            Intake {
                run: self.with_point(intake.run, value.tag, series, point),
                points: if series.class == SeriesClass::Scalar {
                    points_with(intake.points, key, point)
                } else {
                    intake.points
                },
                histograms: match value.histogram_buckets() {
                    Some(buckets) => if series.class == SeriesClass::Histogram {
                        histograms_with(
                            intake.histograms,
                            key,
                            SnapshotModel { step, wall, buckets },
                        )
                    } else {
                        intake.histograms
                    },
                    None => intake.histograms,
                },
                report: intake.report.point(preempts(series.segments, point)),
            }
        }
    }

    /// The values of an event, one behind the other.
    pub open spec fn take_values(
        self,
        intake: Intake,
        name: Seq<char>,
        step: i64,
        wall: u64,
        values: Seq<ValueModel>,
    ) -> Intake
        decreases values.len(),
    {
        if values.len() == 0 {
            intake
        } else {
            self.take_value(
                self.take_values(intake, name, step, wall, values.drop_last()),
                name,
                step,
                wall,
                values.last(),
            )
        }
    }

    /// One event: its wall time, then the values of its summary.
    pub open spec fn take_event(self, intake: Intake, name: Seq<char>, event: EventModel) -> Intake {
        let walled = Intake { run: intake.run.walled(event.wall_time), ..intake };
        match event.payload {
            PayloadModel::Summary(values) => self.take_values(
                walled,
                name,
                event.step,
                event.wall_time,
                values,
            ),
            _ => walled,
        }
    }
}

/// Whether a tag is one of the hparams plugin's markers.
pub open spec fn marks_hparams(tag: Seq<char>) -> bool {
    tag.len() >= 10 && tag.take(10) == "_hparams_/"@
}

/// Whether a tag is one of the hparams plugin's markers.
pub fn is_hparams_marker(tag: &str) -> (result: bool)
    ensures
        result == marks_hparams(tag@),
{
    proof {
        reveal_strlit("_hparams_/");
    }
    let chars = chars_of(tag);
    if chars.len() < 10 {
        return false;
    }
    let front = crate::text::text_between(&chars, 0, 10);
    assert(front@ =~= tag@.take(10));
    same_text(&front, "_hparams_/")
}

impl Run {
    /// Takes a wall time in; zero is no time.
    pub fn see_wall(&mut self, wall: u64)
        requires
            old(self).wf(),
        ensures
            final(self).wf(),
            final(self)@ == old(self)@.walled(wall),
            final(self).series == old(self).series,
    {
        if !is_equal(wall, 0) {
            self.first_wall = Some(
                match self.first_wall {
                    Some(w) => lower_of(w, wall),
                    None => wall,
                },
            );
            self.last_wall = Some(
                match self.last_wall {
                    Some(w) => upper_of(w, wall),
                    None => wall,
                },
            );
        }
    }

    /// Takes a modification time in.
    pub fn see_write(&mut self, mtime: Stamp)
        requires
            old(self).wf(),
        ensures
            final(self).wf(),
            final(self)@ == old(self)@.written(mtime),
    {
        self.last_write = Some(later_of(self.last_write, mtime));
    }

    /// Takes a point into the series at an index.
    fn observe_at<F: Fn(&str) -> Option<u64>, G: Fn(u64) -> u64, H: Fn(Moments, u64) -> Moments>(
        &mut self,
        at: usize,
        class: SeriesClass,
        point: PointStamp,
        numeric: &Numeric<F, G, H>,
    ) -> (preempted: bool)
        requires
            old(self).wf(),
            at < old(self).series.names().len(),
            numeric.ok(),
        ensures
            final(self).wf(),
            ({
                let tag = old(self).series.names()[at as int];
                let series = SeriesModel {
                    class,
                    ..old(self).series.values()[at as int]@
                };
                &&& final(self)@ == numeric.with_point(old(self)@, tag, series, point)
                &&& preempted == preempts(series.segments, point)
            }),
    {
        let ghost before = self.series;
        let ghost model = self@;
        let entry = self.series.value_at_mut(at);
        entry.class = class;
        let preempted = entry.summary.observe(point, numeric);
        proof {
            self.series.lemma_model_update(before, at as int);
        }
        if preempted {
            self.preemptions = count_up(self.preemptions);
        }
        preempted
    }
}

impl Intake {
    /// What is left where a run's files shrank or were replaced.
    pub open spec fn reset(self, name: Seq<char>) -> Intake {
        Intake {
            run: self.run.reset(),
            points: crate::shelf::without_run(self.points, name),
            ..self
        }
    }

    /// With a modification time of a file of the run, where it is known.
    pub open spec fn written(self, mtime: Option<Stamp>) -> Intake {
        match mtime {
            Some(m) => Intake { run: self.run.written(m), ..self },
            None => self,
        }
    }

    /// With a lost record.
    pub open spec fn dropped(self) -> Intake {
        Intake { report: self.report.dropped(), ..self }
    }

    /// With a dead file.
    pub open spec fn died(self) -> Intake {
        Intake { report: self.report.died(), ..self }
    }
}

/// Resets a run whose backing files shrank or were replaced: the honest
/// recovery is a full re-read this same pass.
pub fn reset_run(run: &mut Run, sink: &mut Sink, run_name: &str)
    requires
        old(run).wf(),
        old(sink).wf(),
    ensures
        final(run).wf(),
        final(sink).wf(),
        final(sink).with(*final(run)) == old(sink).with(*old(run)).reset(run_name@),
{
    run.series = NameMap::new();
    run.preemptions = 0;
    run.first_wall = None;
    run.last_wall = None;
    let ghost before = sink.points;
    sink.points.remove_run(run_name);
    proof {
        assert(run@.series =~= Map::<Seq<char>, SeriesModel>::empty());
        lemma_still_sound(before, sink.points);
    }
}

/// What is left of a sound shelf is sound.
pub proof fn lemma_still_sound(before: Shelf<Points>, after: Shelf<Points>)
    requires
        points_shelf(before),
        after.wf(),
        forall|i: int|
            0 <= i < after.items().len() ==> before.items().contains(#[trigger] after.items()[i]),
    ensures
        points_shelf(after),
{
    assert forall|i: int| 0 <= i < after.items().len() implies (
    #[trigger] after.items()[i]).wf() by {
        assert(before.items().contains(after.items()[i]));
        let k = choose|k: int|
            0 <= k < before.items().len() && before.items()[k] == after.items()[i];
        assert(before.items()[k].wf());
    }
}

/// What is left of a sound shelf is sound.
pub proof fn lemma_histograms_still_sound(
    before: Shelf<HistogramSeries>,
    after: Shelf<HistogramSeries>,
)
    requires
        histograms_shelf(before),
        after.wf(),
        forall|i: int|
            0 <= i < after.items().len() ==> before.items().contains(#[trigger] after.items()[i]),
    ensures
        histograms_shelf(after),
{
    assert forall|i: int| 0 <= i < after.items().len() implies (
    #[trigger] after.items()[i]).wf() by {
        assert(before.items().contains(after.items()[i]));
        let k = choose|k: int|
            0 <= k < before.items().len() && before.items()[k] == after.items()[i];
        assert(before.items()[k].wf());
    }
}

/// Observes one scalar point from a text backend: summary, walls,
/// preemption accounting, and the materialized append — the same path
/// tfevents scalars take.
pub fn observe_scalar<
    F: Fn(&str) -> Option<u64>,
    G: Fn(u64) -> u64,
    H: Fn(Moments, u64) -> Moments,
>(
    run: &mut Run,
    sink: &mut Sink,
    run_name: &str,
    tag: &str,
    point: PointStamp,
    numeric: &Numeric<F, G, H>,
)
    requires
        old(run).wf(),
        old(sink).wf(),
        numeric.ok(),
    ensures
        final(run).wf(),
        final(sink).wf(),
        final(sink).with(*final(run)) == numeric.take_scalar(
            old(sink).with(*old(run)),
            run_name@,
            tag@,
            point,
        ),
{
    run.see_wall(point.wall);
    let ghost walled = run@;
    let at: usize = match run.series.find(tag) {
        Some(at) => {
            proof {
                run.series.lemma_model_index(at as int);
            }
            at
        },
        None => {
            let ghost before = run.series;
            let fresh = Series {
                class: SeriesClass::Scalar,
                plugin: None,
                summary: SeriesSummary::new(),
            };
            proof {
                before.lemma_model_has(tag@);
                assert(fresh@ == scalar_series());
            }
            let at = run.series.insert(tag.to_owned(), fresh);
            proof {
                run.series.lemma_model_insert(before, tag@, fresh);
                run.series.lemma_model_index(at as int);
            }
            at
        },
    };
    let ghost series = run.series.values()[at as int]@;
    let class = run.series.value_at(at).class;
    let preempted = run.observe_at(at, class, point, numeric);
    sink.report.count_point(preempted);
    push_held_point(&mut sink.points, run_name, tag, point);
    assert(run@.series =~= numeric.with_point(walled, tag@, series, point).series);
}

/// Takes hyperparameters in: a later value wins.
pub fn extend_hparams(hparams: &mut NameMap<HparamValue>, more: &NameMap<HparamValue>)
    requires
        old(hparams).wf(),
        more.wf(),
    ensures
        final(hparams).wf(),
        final(hparams).model() == old(hparams).model().union_prefer_right(more.model()),
{
    let ghost start = hparams.model();
    let mut i: usize = 0;
    while i < more.len()
        invariant
            i <= more.names().len(),
            more.wf(),
            hparams.wf(),
            forall|name: Seq<char>| #[trigger]
                hparams.model().dom().contains(name) <==> start.dom().contains(name) || exists|
                    k: int,
                |
                    0 <= k < i && #[trigger] more.names()[k] == name,
            forall|k: int|
                0 <= k < i ==> hparams.model()[#[trigger] more.names()[k]] == more.values()[k]@,
            forall|name: Seq<char>|
                start.dom().contains(name) && (forall|k: int|
                    0 <= k < i ==> #[trigger] more.names()[k] != name) ==> #[trigger]
                hparams.model()[name] == start[name],
        decreases more.names().len() - i,
    {
        let ghost before = *hparams;
        let value = more.value_at(i).copy();
        let name = more.name_at(i).clone();
        hparams.insert(name, value);
        proof {
            hparams.lemma_model_insert(before, name@, value);
            assert forall|k: int| 0 <= k < i + 1 implies hparams.model()[#[trigger] more.names()[k]]
                == more.values()[k]@ by {
                if k < i && more.names()[k] == name@ {
                    crate::names::lemma_in_order_distinct(more.names(), k, i as int);
                }
            }
            assert forall|other: Seq<char>| #[trigger]
                hparams.model().dom().contains(other) <==> start.dom().contains(other) || exists|
                    k: int,
                |
                    0 <= k < i + 1 && #[trigger] more.names()[k] == other by {
                if other == name@ {
                    assert(more.names()[i as int] == other);
                } else if before.model().dom().contains(other) && !start.dom().contains(other) {
                    let k = choose|k: int| 0 <= k < i && #[trigger] more.names()[k] == other;
                    assert(0 <= k < i + 1 && more.names()[k] == other);
                }
            }
            assert forall|other: Seq<char>|
                start.dom().contains(other) && (forall|k: int|
                    0 <= k < i + 1 ==> #[trigger] more.names()[k] != other) implies #[trigger]
            hparams.model()[other] == start[other] by {
                assert(more.names()[i as int] != other);
                assert(before.model()[other] == start[other]);
            }
        }
        i += 1;
    }
    proof {
        let expected = start.union_prefer_right(more.model());
        assert forall|name: Seq<char>| hparams.model().dom().contains(name)
            == expected.dom().contains(name) by {
            more.lemma_model_has(name);
        }
        assert forall|name: Seq<char>| hparams.model().dom().contains(name) implies
        hparams.model()[name] == expected[name] by {
            more.lemma_model_has(name);
            if more.has(name) {
                more.lemma_index(more.index_of(name));
            }
        }
        assert(hparams.model() =~= expected);
    }
}

/// The series a value belongs to, made where it is new.
fn series_entry(run: &mut Run, value: &SummaryValue) -> (at: usize)
    requires
        old(run).wf(),
    ensures
        final(run).wf(),
        at < final(run).series.names().len(),
        final(run).series.names()[at as int] == value@.tag,
        final(run)@ == (RunModel { series: final(run)@.series, ..old(run)@ }),
        ({
            let series = final(run).series.values()[at as int]@;
            &&& final(run)@.series == old(run)@.series.insert(value@.tag, series)
            &&& series == (if old(run)@.series.dom().contains(value@.tag) {
                old(run)@.series[value@.tag]
            } else {
                SeriesModel {
                    class: SeriesClass::Unknown,
                    plugin: plugin_of(value@),
                    segments: Seq::empty(),
                }
            })
        }),
{
    let ghost before = run.series;
    proof {
        before.lemma_model_has(value@.tag);
    }
    match run.series.find(&value.tag) {
        Some(at) => {
            assert(run@.series =~= before.model().insert(
                value@.tag,
                run.series.values()[at as int]@,
            ));
            at
        },
        None => {
            let plugin = match &value.metadata {
                Some(metadata) => if metadata.plugin_name.as_str().is_empty() {
                    None
                } else {
                    Some(metadata.plugin_name.clone())
                },
                None => None,
            };
            let fresh = Series {
                class: SeriesClass::Unknown,
                plugin,
                summary: SeriesSummary::new(),
            };
            let at: usize = run.series.insert(value.tag.clone(), fresh);
            proof {
                run.series.lemma_model_insert(before, value@.tag, fresh);
            }
            at
        },
    }
}

/// Takes one summary value of an event in.
fn ingest_value<
    F: Fn(&str) -> Option<u64>,
    G: Fn(u64) -> u64,
    H: Fn(Moments, u64) -> Moments,
>(
    run: &mut Run,
    sink: &mut Sink,
    run_name: &str,
    step: i64,
    wall: u64,
    value: &SummaryValue,
    numeric: &Numeric<F, G, H>,
)
    requires
        old(run).wf(),
        old(sink).wf(),
        numeric.ok(),
    ensures
        final(run).wf(),
        final(sink).wf(),
        final(sink).with(*final(run)) == numeric.take_value(
            old(sink).with(*old(run)),
            run_name@,
            step,
            wall,
            value@,
        ),
{
    // Hparams markers carry run-level data in metadata, not a series.
    if is_hparams_marker(&value.tag) {
        if let Some(Ok(hparams)) = session_start_hparams(value) {
            extend_hparams(&mut run.hparams, &hparams);
        }
        return ;
    }
    let ghost start = run@;
    let at: usize = series_entry(run, value);
    let ghost entered = run@;
    let ghost known = run.series.values()[at as int]@;
    let mut class = run.series.value_at(at).class;
    if let SeriesClass::Unknown = class {
        class = classify(value);
    }
    let point = PointStamp {
        step,
        wall,
        value: match value.scalar() {
            Some(bits) => bits,
            None => NAN,
        },
    };
    let preempted = run.observe_at(at, class, point, numeric);
    sink.report.count_point(preempted);
    proof {
        let series = SeriesModel { class, ..known };
        assert(run@ =~= numeric.with_point(start, value@.tag, series, point));
    }
    match class {
        SeriesClass::Scalar => {
            push_held_point(&mut sink.points, run_name, &value.tag, point);
        },
        SeriesClass::Histogram => {
            if let Some(buckets) = value.histogram_buckets() {
                push_held_histogram(
                    &mut sink.histograms,
                    run_name,
                    &value.tag,
                    HistogramSnapshot { step, wall, buckets },
                );
            }
        },
        _ => {},
    }
}

/// Takes one event in: its wall time, then every value of its summary.
pub fn ingest<
    F: Fn(&str) -> Option<u64>,
    G: Fn(u64) -> u64,
    H: Fn(Moments, u64) -> Moments,
>(
    run: &mut Run,
    sink: &mut Sink,
    run_name: &str,
    event: &Event,
    numeric: &Numeric<F, G, H>,
)
    requires
        old(run).wf(),
        old(sink).wf(),
        numeric.ok(),
    ensures
        final(run).wf(),
        final(sink).wf(),
        final(sink).with(*final(run)) == numeric.take_event(
            old(sink).with(*old(run)),
            run_name@,
            event@,
        ),
{
    run.see_wall(event.wall_time);
    let values = match &event.payload {
        EventPayload::Summary(values) => values,
        _ => return ,
    };
    let ghost start = sink.with(*run);
    let ghost models = event@.payload->Summary_0;
    let mut i: usize = 0;
    assert(models.take(0) =~= Seq::<ValueModel>::empty());
    while i < values.len()
        invariant
            i <= values@.len(),
            models.len() == values@.len(),
            forall|k: int| 0 <= k < values@.len() ==> #[trigger] models[k] == values@[k]@,
            run.wf(),
            sink.wf(),
            numeric.ok(),
            sink.with(*run) == numeric.take_values(
                start,
                run_name@,
                event.step,
                event.wall_time,
                models.take(i as int),
            ),
        decreases values@.len() - i,
    {
        ingest_value(run, sink, run_name, event.step, event.wall_time, &values[i], numeric);
        proof {
            let upto = models.take(i + 1);
            assert(upto.drop_last() =~= models.take(i as int));
            assert(upto.last() == values@[i as int]@);
        }
        i += 1;
    }
    assert(models.take(i as int) =~= models);
}

} // verus!
