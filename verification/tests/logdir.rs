use std::collections::{BTreeMap, BTreeSet};

use vertov::arith::{Arith, Operation};
use vertov::backends::{LogFile, ParamFile, ParamsDocument, TextFile};
use vertov::caption::{no_match_message, title};
use vertov::chart::{ChartData, ChartOptions, ChartPlan, DistData, Wanted, XAxis};
use vertov::discover::{Entry, EntryKind, FileWalk, Found, Walk};
use vertov::hparams::HparamValue;
use vertov::listing::{export_runs, list_runs, refuse_run, summarize};
use vertov::names::NameMap;
use vertov::numeric::{Moments, Numeric, Wording};
use vertov::panel::{Area, Painter};
use vertov::project::{
    Disk, DvcliveRoot, EventSource, EventTail, MlflowRoot, Project, Stat, WandbRoot,
};
use vertov::rows::HparamCell;
use vertov::run::{Backend, RefreshReport, Run, RunStatus, Stamp};
use vertov::screen::View;
use vertov::series::{HistogramSeries, Points, SeriesClass, SeriesSummary};
use vertov::table::Format;
use vertov::tui::{Action, Key, Press};
use vertov::viewer::App;
use vertov::wandb_writer::{append_record, config_record, exit_record, history_record, wandb_file};
use vertov::warm::{load, save, SavedFile};
use vertov::watch::Watcher;
use vertov::watch_walk::WatchWalk;
use vertov::writer::{events_file, field_bytes, histogram_event, scalar_event, write_record};

fn number(text: &str) -> Option<u64> {
    text.parse::<f64>().ok().map(f64::to_bits)
}

fn seconds(millis: u64) -> u64 {
    (f64::from_bits(millis) / 1000.0).to_bits()
}

fn accumulate(moments: Moments, value: u64) -> Moments {
    let value = f64::from_bits(value);
    let count = moments.count + 1;
    let delta = value - f64::from_bits(moments.mean);
    let mean = f64::from_bits(moments.mean) + delta / count as f64;
    let m2 = f64::from_bits(moments.m2) + delta * (value - mean);
    Moments { count, mean: mean.to_bits(), m2: m2.to_bits() }
}

fn combine(left: Moments, right: Moments) -> Moments {
    let total = left.count + right.count;
    let delta = f64::from_bits(right.mean) - f64::from_bits(left.mean);
    let mean = f64::from_bits(left.mean) + delta * right.count as f64 / total as f64;
    let m2 = f64::from_bits(left.m2)
        + f64::from_bits(right.m2)
        + delta * delta * (left.count as f64 * right.count as f64) / total as f64;
    Moments { count: total, mean: mean.to_bits(), m2: m2.to_bits() }
}

fn show(value: u64) -> String {
    f64::from_bits(value).to_string()
}

fn operate(operation: Operation, a: u64, b: u64) -> u64 {
    let (a, b) = (f64::from_bits(a), f64::from_bits(b));
    let out = match operation {
        Operation::Plus => a + b,
        Operation::Minus => a - b,
        Operation::Times => a * b,
        Operation::Divide => a / b,
    };
    out.to_bits()
}

fn whole(n: i64) -> u64 {
    (n as f64).to_bits()
}

fn refreshed(project: &mut Project, disk: &Disk) -> RefreshReport {
    project.refresh(disk, &Numeric { number, seconds, accumulate })
}

/// A logdir in memory: the files by path, each with when it was written.
struct Logdir {
    root: String,
    files: BTreeMap<String, (Vec<u8>, Stamp)>,
    clock: u64,
}

/// The time at which the tests are looking.
const NOW: Stamp = Stamp { secs: 2_000_000_000, nanos: 0 };

const MINUTE: Stamp = Stamp { secs: 60, nanos: 0 };

impl Logdir {
    fn new() -> Logdir {
        Logdir { root: "/logs".to_owned(), files: BTreeMap::new(), clock: NOW.secs - 30 }
    }

    fn path(&self, relative: &str) -> String {
        format!("{}/{relative}", self.root)
    }

    fn write(&mut self, relative: &str, bytes: impl AsRef<[u8]>) {
        self.clock += 1;
        let stamp = Stamp { secs: self.clock, nanos: 0 };
        self.files.insert(self.path(relative), (bytes.as_ref().to_vec(), stamp));
    }

    fn append(&mut self, relative: &str, bytes: impl AsRef<[u8]>) {
        let mut whole = self.files[&self.path(relative)].0.clone();
        whole.extend_from_slice(bytes.as_ref());
        self.write(relative, whole);
    }

    fn remove(&mut self, relative: &str) {
        let front = format!("{}/", self.path(relative));
        self.files.retain(|path, _| !path.starts_with(&front));
    }

    fn bytes(&self, path: &str) -> Option<&Vec<u8>> {
        self.files.get(path).map(|(bytes, _)| bytes)
    }

    fn text(&self, path: &str) -> Option<String> {
        self.bytes(path).and_then(|bytes| String::from_utf8(bytes.clone()).ok())
    }

    fn is_dir(&self, path: &str) -> bool {
        let front = format!("{path}/");
        self.files.keys().any(|file| file.starts_with(&front))
    }

    fn list(&self, dir: &str) -> Vec<Entry> {
        let front = format!("{dir}/");
        let names: BTreeSet<&str> = self
            .files
            .keys()
            .filter_map(|path| path.strip_prefix(&front))
            .map(|rest| rest.split('/').next().unwrap())
            .collect();
        names
            .into_iter()
            .map(|name| {
                let path = format!("{front}{name}");
                let is_dir = self.is_dir(&path);
                Entry {
                    name: name.to_owned(),
                    kind: if is_dir { EntryKind::Directory } else { EntryKind::File },
                    marked: is_dir
                        && (self.files.contains_key(&format!("{path}/metrics.json"))
                            || self.is_dir(&format!("{path}/plots"))),
                    text: if !is_dir && Walk::wants_text(name) {
                        self.text(&path)
                    } else {
                        None
                    },
                }
            })
            .collect()
    }

    fn stat(&self, path: &str) -> Stat {
        match self.files.get(path) {
            Some((bytes, mtime)) => {
                Stat::Known { len: bytes.len() as u64, mtime: Some(*mtime) }
            }
            None => Stat::Gone,
        }
    }

    fn tail(&self, path: &str, offset: u64) -> Option<Vec<u8>> {
        let bytes = self.bytes(path)?;
        Some(bytes.get(offset as usize..).unwrap_or(&[]).to_vec())
    }

    fn walk_files(&self, base: &str) -> Vec<Found> {
        let mut walk = FileWalk::new(base);
        while let Some((dir, depth)) = walk.next() {
            walk.visit(&dir, depth, &self.list(&dir));
        }
        walk.finish()
    }

    fn text_files(&self, base: &str) -> Vec<TextFile> {
        self.walk_files(base)
            .into_iter()
            .map(|found| {
                let (bytes, mtime) = &self.files[&found.path];
                TextFile {
                    relative: found.name,
                    len: bytes.len() as u64,
                    mtime: Some(*mtime),
                    tail: None,
                    path: found.path,
                }
            })
            .collect()
    }

    /// What one pass of the project finds.
    fn disk(&self, project: &Project) -> Disk {
        let mut walk = Walk::new(&self.root);
        while let Some((dir, depth)) = walk.next() {
            walk.visit(&dir, depth, &self.list(&dir));
        }
        let found = walk.finish();
        let parent = |path: &str| path.rsplit_once('/').unwrap().0.to_owned();

        let events: Vec<EventSource> = found
            .tfevents
            .into_iter()
            .map(|found| EventSource {
                run: found.name,
                dir: parent(&found.path),
                stat: self.stat(&found.path),
                opened: true,
                path: found.path,
            })
            .collect();
        let mut tails = NameMap::new();
        let mut paths = project.event_paths();
        paths.extend(events.iter().map(|source| source.path.clone()));
        for path in paths {
            let offset = project.event_offset(&events, &path);
            let tail = EventTail {
                bytes: self.tail(&path, offset).unwrap_or_default(),
                failed: false,
                stat: self.stat(&path),
            };
            tails.insert(path, tail);
        }

        let dvclive = found
            .dvclive
            .into_iter()
            .map(|root| {
                let params = format!("{}/params.yaml", root.path);
                let document = self.files.get(&params).map(|(_, mtime)| ParamsDocument {
                    mtime: Some(*mtime),
                    text: self.text(&params),
                });
                let mut files = self.text_files(&format!("{}/plots/metrics", root.path));
                for at in 0..files.len() {
                    let offset = project.dvclive_offset(&root.path, &files, &files[at].path);
                    files[at].tail = self.tail(&files[at].path, offset);
                }
                DvcliveRoot {
                    name: root.name,
                    dir: parent(&root.path),
                    path: root.path,
                    document,
                    files,
                }
            })
            .collect();

        let mlflow = found
            .mlflow
            .into_iter()
            .map(|root| {
                let params = self
                    .walk_files(&format!("{}/params", root.path))
                    .into_iter()
                    .map(|found| ParamFile {
                        text: self.text(&found.path),
                        relative: found.name,
                        path: found.path,
                    })
                    .collect();
                let mut files = self.text_files(&format!("{}/metrics", root.path));
                for at in 0..files.len() {
                    let offset = project.mlflow_offset(&root.path, &files, &files[at].path);
                    files[at].tail = self.tail(&files[at].path, offset);
                }
                MlflowRoot { name: root.name, path: root.path, params, files }
            })
            .collect();

        let wandb = found
            .wandb
            .into_iter()
            .map(|root| {
                let (bytes, mtime) = &self.files[&root.path];
                let len = bytes.len() as u64;
                let offset = project.wandb_offset(&root.path, len);
                WandbRoot {
                    name: root.name,
                    dir: parent(&root.path),
                    file: Some(LogFile {
                        len,
                        mtime: Some(*mtime),
                        tail: self.tail(&root.path, offset).unwrap(),
                    }),
                    path: root.path,
                }
            })
            .collect();

        Disk { events, tails, dvclive, mlflow, wandb }
    }

    fn project(&self) -> Project {
        let mut project = Project::new(self.root.clone());
        self.refresh(&mut project);
        project
    }

    fn refresh(&self, project: &mut Project) -> RefreshReport {
        let disk = self.disk(project);
        refreshed(project, &disk)
    }

    fn contents(&self, project: &Project, run: &str, tag: &str) -> NameMap<Vec<u8>> {
        let mut contents = NameMap::new();
        for frontier in project.frontiers(run, tag) {
            if let Some(bytes) = self.bytes(&frontier.path) {
                contents.insert(frontier.path, bytes.clone());
            }
        }
        contents
    }

    fn materialize<'p>(&self, project: &'p mut Project, run: &str, tag: &str) -> Option<&'p Points> {
        let contents = self.contents(project, run, tag);
        project.materialize(run, tag, &contents, &Numeric { number, seconds, accumulate })
    }

    fn materialize_histograms<'p>(
        &self,
        project: &'p mut Project,
        run: &str,
        tag: &str,
    ) -> Option<&'p HistogramSeries> {
        let contents = self.contents(project, run, tag);
        project.materialize_histograms(run, tag, &contents)
    }

    fn materialize_all(&self, project: &mut Project, wanted: &[Wanted]) {
        for series in wanted {
            self.materialize(project, &series.run, &series.tag);
        }
    }

    /// The summary cache of the project, as bytes.
    fn cache(&self, project: &Project) -> Vec<u8> {
        let files: Vec<SavedFile> = project
            .save_cache()
            .into_iter()
            .map(|file| {
                let (bytes, mtime) = &self.files[&file.path];
                SavedFile {
                    size: bytes.len() as u64,
                    mtime: *mtime,
                    path: file.path,
                    run: file.run,
                    offset: file.offset,
                }
            })
            .collect();
        save(project.runs(), &files)
    }
}

fn wall(step: i64) -> u64 {
    (1.7e9 + step as f64).to_bits()
}

fn scalar(step: i64, tag: &str, value: f32) -> Vec<u8> {
    scalar_event(wall(step), step, tag, value.to_bits())
}

fn names<V>(map: &NameMap<V>) -> Vec<&str> {
    (0..map.len()).map(|at| map.name_at(at).as_str()).collect()
}

fn run<'p>(project: &'p Project, name: &str) -> &'p Run {
    project.runs().get(name).unwrap()
}

fn summary<'p>(project: &'p Project, name: &str, tag: &str) -> &'p SeriesSummary {
    &run(project, name).series.get(tag).unwrap().summary
}

fn doubles(bits: &[u64]) -> Vec<f64> {
    bits.iter().map(|&bits| f64::from_bits(bits)).collect()
}

fn double(bits: Option<u64>) -> Option<f64> {
    bits.map(f64::from_bits)
}

#[test]
fn discovery_and_summaries() {
    let mut logdir = Logdir::new();
    for (name, scale) in [("a", 1.0f32), ("b/nested", 10.0)] {
        let events: Vec<Vec<u8>> = (0..50)
            .map(|step| scalar(step, "train/loss", step as f32 * scale))
            .collect();
        logdir.write(
            &format!("{name}/events.out.tfevents.1000.host"),
            events_file(&events),
        );
    }

    let mut project = Project::new(logdir.root.clone());
    let report = logdir.refresh(&mut project);
    assert_eq!(report.new_files, 2);
    assert_eq!(report.new_points, 100);
    assert_eq!(report.preemptions, 0);

    assert_eq!(names(project.runs()), vec!["a", "b/nested"]);
    let series = run(&project, "a").series.get("train/loss").unwrap();
    assert_eq!(series.class, SeriesClass::Scalar);
    let summary_a = &series.summary;
    assert_eq!(summary_a.count(), 50);
    assert_eq!(double(summary_a.min()), Some(0.0));
    assert_eq!(double(summary_a.max()), Some(49.0));
    assert_eq!(summary_a.first().unwrap().step, 0);
    assert_eq!(summary_a.last().unwrap().step, 49);
    let mean = double(summary_a.moments(&combine).mean()).unwrap();
    assert!((mean - 24.5).abs() < 1e-9);
    assert!(!summary_a.preempted());
    assert_eq!(
        double(summary(&project, "b/nested", "train/loss").max()),
        Some(490.0)
    );
    assert_eq!(run(&project, "a").first_wall, Some(wall(0)));
    assert_eq!(run(&project, "a").last_wall, Some(wall(49)));
}

#[test]
fn restart_preemption_across_files() {
    let mut logdir = Logdir::new();
    let first: Vec<Vec<u8>> = (0..=10).map(|step| scalar(step, "loss", step as f32)).collect();
    let second: Vec<Vec<u8>> = (8..=12)
        .map(|step| {
            scalar_event(wall(100 + step), step, "loss", (100.0 + step as f32).to_bits())
        })
        .collect();
    logdir.write("run/events.out.tfevents.1000.host", events_file(&first));
    logdir.write("run/events.out.tfevents.2000.host", events_file(&second));

    let mut project = Project::new(logdir.root.clone());
    let report = logdir.refresh(&mut project);
    assert_eq!(report.preemptions, 1);
    assert_eq!(run(&project, "run").preemptions, 1);

    let loss = summary(&project, "run", "loss");
    assert_eq!(loss.segments.len(), 2);
    assert_eq!(loss.segments[0].preempted_at, Some(8));
    assert!(loss.preempted());
    assert_eq!(f64::from_bits(loss.last().unwrap().value), 112.0);

    let points = logdir.materialize(&mut project, "run", "loss").unwrap();
    assert_eq!(points.steps, (0..=12).collect::<Vec<i64>>());
    assert_eq!(f64::from_bits(points.values[7]), 7.0);
    assert_eq!(f64::from_bits(points.values[8]), 108.0);
    assert_eq!(points.boundaries, vec![8]);
    assert_eq!(points.ghosts.len(), 1);
    assert_eq!(points.ghosts[0].at, 8);
    assert_eq!(points.ghosts[0].steps, vec![8, 9, 10]);
    assert_eq!(doubles(&points.ghosts[0].values), vec![8.0, 9.0, 10.0]);
}

#[test]
fn restarted_runs_are_observed_over_all_their_files() {
    let mut logdir = Logdir::new();
    let files: Vec<String> =
        (1..=3).map(|at| format!("run/events.out.tfevents.{at}000.host")).collect();
    logdir.write(&files[0], events_file(&[scalar(0, "loss", 1.0), scalar(1, "loss", 2.0)]));
    let mut early = logdir.project();
    let mut late = logdir.project();
    logdir.materialize(&mut early, "run", "loss").unwrap();

    // Greater paths come, and the last one grows.
    logdir.write(&files[1], events_file(&[scalar(2, "loss", 3.0)]));
    logdir.refresh(&mut early);
    let mut growth = Vec::new();
    write_record(&mut growth, &scalar(3, "loss", 4.0));
    logdir.append(&files[1], &growth);
    logdir.write(&files[2], events_file(&[scalar(2, "loss", 5.0)]));
    logdir.refresh(&mut early);
    logdir.refresh(&mut late);

    for project in [&mut early, &mut late, &mut logdir.project()] {
        assert_eq!(summary(project, "run", "loss").count(), 5);
        assert_eq!(summary(project, "run", "loss").segments.len(), 2);
        let points = logdir.materialize(project, "run", "loss").unwrap();
        assert_eq!(points.steps, vec![0, 1, 2]);
        assert_eq!(doubles(&points.values), vec![1.0, 2.0, 5.0]);
        assert_eq!(points.boundaries, vec![2]);
        assert_eq!(doubles(&points.ghosts[0].values), vec![3.0, 4.0]);
    }
}

#[test]
fn histograms_are_what_was_observed_over_all_files() {
    let mut logdir = Logdir::new();
    let at = |step: i64| {
        histogram(step, "params/w", wall(step), &[(-1.0, 0.0, 3.0 + step as f64), (0.0, 1.0, 5.0)])
    };
    let first = "run/events.out.tfevents.1000.host";
    logdir.write(first, events_file(&[at(0)]));
    let mut early = logdir.project();
    let mut late = logdir.project();
    logdir.materialize_histograms(&mut early, "run", "params/w").unwrap();
    logdir.write("run/events.out.tfevents.2000.host", events_file(&[at(1), at(2)]));
    for project in [&mut early, &mut late] {
        logdir.refresh(project);
    }
    // Written behind the refresh, and so not there yet.
    let mut growth = Vec::new();
    write_record(&mut growth, &at(3));
    logdir.append("run/events.out.tfevents.2000.host", &growth);
    for project in [&mut early, &mut late] {
        let series = logdir.materialize_histograms(project, "run", "params/w").unwrap();
        let steps: Vec<i64> = series.snapshots.iter().map(|snapshot| snapshot.step).collect();
        assert_eq!(steps, vec![0, 1, 2]);
    }
    for project in [&mut early, &mut late] {
        logdir.refresh(project);
        let series = project.histogram_series("run", "params/w").unwrap();
        let steps: Vec<i64> = series.snapshots.iter().map(|snapshot| snapshot.step).collect();
        assert_eq!(steps, vec![0, 1, 2, 3]);
    }
    assert!(logdir.materialize_histograms(&mut early, "run", "nope").is_none());
}

#[test]
fn a_pass_in_stages_keeps_what_came_before_an_error() {
    let mut logdir = Logdir::new();
    logdir.write("run/events.out.tfevents.1000.host", events_file(&[scalar(0, "loss", 1.0)]));
    logdir.write("exp/dvclive/plots/metrics/acc.tsv", "step\tacc\n0\t0.5\n");
    logdir.write("exp/dvclive/plots/metrics/loss.tsv", "step\tloss\n0\t4.0\n");
    let numeric = Numeric { number, seconds, accumulate };

    let mut staged = Project::new(logdir.root.clone());
    let mut disk = logdir.disk(&staged);
    staged.begin_refresh(&disk.events);
    assert_eq!(names(staged.runs()), vec!["run"]);
    staged.drain_events(&disk.tails, &numeric);
    assert_eq!(summary(&staged, "run", "loss").count(), 1);
    // The second text file cannot be read, and the pass ends there.
    disk.dvclive[0].files[1].tail = None;
    staged.keep_dvclive(&vec![disk.dvclive[0].path.clone()]);
    staged.sync_dvclive(&disk.dvclive[0], &numeric);
    assert_eq!(summary(&staged, "exp", "acc").count(), 1);
    assert!(run(&staged, "exp").series.get("loss").is_none());

    // The next one takes in the rest, once.
    let report = logdir.refresh(&mut staged);
    assert_eq!(report.new_points, 1);
    let whole = logdir.project();
    for (name, tag) in [("run", "loss"), ("exp", "acc"), ("exp", "loss")] {
        assert_eq!(summary(&staged, name, tag).count(), summary(&whole, name, tag).count());
    }

    let disk = logdir.disk(&staged);
    staged.begin_refresh(&disk.events);
    staged.drain_events(&disk.tails, &numeric);
    staged.keep_dvclive(&vec![]);
    staged.keep_mlflow(&vec![]);
    staged.keep_wandb(&vec![]);
    assert_eq!(names(staged.runs()), vec!["run"]);
    assert_eq!(staged.finish_refresh().new_points, 0);
}

#[test]
fn records_before_a_read_error_are_taken_in() {
    let mut logdir = Logdir::new();
    let file = "run/events.out.tfevents.1000.host";
    logdir.write(file, events_file(&[scalar(0, "loss", 1.0), scalar(1, "loss", 2.0)]));
    let mut project = Project::new(logdir.root.clone());
    let mut disk = logdir.disk(&project);
    let stat = logdir.stat(&logdir.path(file));
    let mut bytes = logdir.tail(&logdir.path(file), 0).unwrap();
    bytes.truncate(bytes.len() - 3);
    disk.tails.insert(logdir.path(file), EventTail { bytes, failed: true, stat });
    let report = refreshed(&mut project, &disk);
    assert_eq!((report.new_points, report.dead_files), (1, 1));
    assert_eq!(project.dead_files(), 1);
    assert_eq!(summary(&project, "run", "loss").count(), 1);
}

#[test]
fn live_growth_appends_without_duplicates() {
    let mut logdir = Logdir::new();
    let file = "run/events.out.tfevents.1000.host";
    logdir.write(file, events_file(&[scalar(0, "loss", 1.0)]));

    let mut project = logdir.project();
    let points = logdir.materialize(&mut project, "run", "loss").unwrap();
    assert_eq!(points.steps, vec![0]);

    let mut growth = Vec::new();
    write_record(&mut growth, &scalar(1, "loss", 2.0));
    let mut torn = Vec::new();
    write_record(&mut torn, &scalar(2, "loss", 3.0));
    growth.extend_from_slice(&torn[..torn.len() - 5]);
    logdir.append(file, &growth);

    let report = logdir.refresh(&mut project);
    assert_eq!(report.new_points, 1);
    assert_eq!(project.points("run", "loss").unwrap().steps, vec![0, 1]);

    logdir.append(file, &torn[torn.len() - 5..]);
    let report = logdir.refresh(&mut project);
    assert_eq!(report.new_points, 1);
    let points = project.points("run", "loss").unwrap();
    assert_eq!(points.steps, vec![0, 1, 2]);
    assert_eq!(doubles(&points.values), vec![1.0, 2.0, 3.0]);
    assert_eq!(summary(&project, "run", "loss").count(), 3);
}

/// Grows a file in two polls, split in the middle of a record or line, and
/// compares a series materialized before with one materialized behind.
fn same_points_whenever_materialized(
    file: &str,
    start: Vec<u8>,
    growth: Vec<u8>,
    run: &str,
    steps: &[i64],
) {
    for cut in [0, 1, growth.len() / 2, growth.len() - 1, growth.len()] {
        let mut logdir = Logdir::new();
        logdir.write(file, &start);
        let mut early = logdir.project();
        let mut late = logdir.project();
        let first = logdir.materialize(&mut early, run, "loss").unwrap().steps.clone();
        assert_eq!(first, vec![steps[0]]);

        // What is written behind a refresh is not there yet.
        logdir.append(file, &growth[..cut]);
        let mut between = logdir.project();
        logdir.append(file, &growth[cut..]);
        let seen = logdir.materialize(&mut between, run, "loss").unwrap().steps.len() as u64;
        assert_eq!(seen, summary(&between, run, "loss").count());

        for project in [&mut early, &mut late, &mut between] {
            logdir.refresh(project);
            let points = logdir.materialize(project, run, "loss").unwrap();
            assert_eq!(points.steps, steps);
            assert_eq!(summary(project, run, "loss").count(), steps.len() as u64);
        }
        let held = early.points(run, "loss").unwrap().values.clone();
        assert_eq!(held, late.points(run, "loss").unwrap().values);
    }
}

#[test]
fn materialized_is_what_was_observed() {
    let mut growth = Vec::new();
    write_record(&mut growth, &scalar(1, "loss", 2.0));
    write_record(&mut growth, &scalar(2, "loss", 3.0));
    same_points_whenever_materialized(
        "run/events.out.tfevents.1000.host",
        events_file(&[scalar(0, "loss", 1.0)]),
        growth,
        "run",
        &[0, 1, 2],
    );
    same_points_whenever_materialized(
        "run/dvclive/plots/metrics/loss.tsv",
        b"step\tloss\n0\t4.0\n".to_vec(),
        b"1\t2.0\n2\t1.5\n".to_vec(),
        "run",
        &[0, 1, 2],
    );
    let mut log = wandb_file(&[history(0, 1.7e9, &[("loss", "4.0")])]);
    let start = log.clone();
    append_record(&mut log, &history(1, 1.7e9, &[("loss", "3.0"), ("acc", "0.5")]));
    append_record(&mut log, &history(2, 1.7e9, &[("loss", "2.0")]));
    same_points_whenever_materialized(
        "offline-run-1-x/run-x.wandb",
        start.clone(),
        log[start.len()..].to_vec(),
        "offline-run-1-x",
        &[0, 1, 2],
    );
}

#[test]
fn materialized_metric_files_are_what_was_observed() {
    let mut logdir = Logdir::new();
    let metric = "mlruns/0/a1b2/metrics/loss";
    logdir.write("mlruns/0/a1b2/meta.yaml", "run_id: a1b2\nrun_name: owl\n");
    logdir.write(metric, "1700000000000 4.0 0\n17000000");
    let mut early = logdir.project();
    let mut late = logdir.project();
    logdir.materialize(&mut early, "owl", "loss").unwrap();
    logdir.append(metric, "10000 2.0 1\n1700000020000 1.0 2");
    logdir.refresh(&mut early);
    logdir.refresh(&mut late);
    logdir.append(metric, "\n");
    assert_eq!(early.points("owl", "loss").unwrap().steps, vec![0, 1]);
    assert_eq!(logdir.materialize(&mut late, "owl", "loss").unwrap().steps, vec![0, 1]);
    assert_eq!(summary(&late, "owl", "loss").count(), 2);
    assert!(logdir.materialize(&mut late, "owl", "acc").is_none());
    assert!(logdir.materialize(&mut late, "nobody", "loss").is_none());
}

#[test]
fn materialize_respects_the_frontier() {
    let mut logdir = Logdir::new();
    let file = "run/events.out.tfevents.1000.host";
    logdir.write(file, events_file(&[scalar(0, "loss", 1.0)]));
    let mut project = logdir.project();

    let mut growth = Vec::new();
    write_record(&mut growth, &scalar(1, "loss", 2.0));
    logdir.append(file, &growth);

    let points = logdir.materialize(&mut project, "run", "loss").unwrap();
    assert_eq!(points.steps, vec![0]);

    logdir.refresh(&mut project);
    let points = project.points("run", "loss").unwrap();
    assert_eq!(points.steps, vec![0, 1]);
    assert_eq!(doubles(&points.values), vec![1.0, 2.0]);
}

#[test]
fn nan_values_are_gaps_not_lies() {
    let mut logdir = Logdir::new();
    logdir.write(
        "run/events.out.tfevents.1000.host",
        events_file(&[
            scalar(0, "loss", 4.0),
            scalar(1, "loss", f32::NAN),
            scalar(2, "loss", 2.0),
        ]),
    );
    let mut project = logdir.project();
    let loss = summary(&project, "run", "loss");
    assert_eq!(loss.count(), 3);
    assert_eq!(loss.segments[0].non_finite, 1);
    assert_eq!(double(loss.min()), Some(2.0));
    assert_eq!(loss.moments(&combine).count(), 2);
    let points = logdir.materialize(&mut project, "run", "loss").unwrap();
    assert!(f64::from_bits(points.values[1]).is_nan());
}

fn histogram(step: i64, tag: &str, wall: u64, buckets: &[(f64, f64, f64)]) -> Vec<u8> {
    let total: f64 = buckets.iter().map(|bucket| bucket.2).sum();
    histogram_event(wall, step, tag, &bucket_bits(buckets), total.to_bits())
}

fn bucket_bits(buckets: &[(f64, f64, f64)]) -> Vec<(u64, u64, u64)> {
    buckets
        .iter()
        .map(|(left, right, count)| (left.to_bits(), right.to_bits(), count.to_bits()))
        .collect()
}

#[test]
fn histogram_series_materialize_and_tail() {
    let mut logdir = Logdir::new();
    let file = "run/events.out.tfevents.1000.host";
    let buckets = |scale: f64| vec![(-scale, 0.0, 3.0), (0.0, scale, 5.0)];
    logdir.write(
        file,
        events_file(&[
            histogram(0, "params/w", wall(0), &buckets(1.0)),
            histogram(1, "params/w", wall(1), &buckets(2.0)),
        ]),
    );

    let mut project = logdir.project();
    assert_eq!(
        run(&project, "run").series.get("params/w").unwrap().class,
        SeriesClass::Histogram
    );

    let series = logdir.materialize_histograms(&mut project, "run", "params/w").unwrap();
    assert_eq!(series.snapshots.len(), 2);
    assert_eq!(series.snapshots[0].buckets, bucket_bits(&buckets(1.0)));
    assert_eq!(series.snapshots[1].buckets, bucket_bits(&buckets(2.0)));

    let mut growth = Vec::new();
    write_record(&mut growth, &histogram(2, "params/w", wall(2), &buckets(3.0)));
    write_record(&mut growth, &histogram(1, "params/w", wall(3), &buckets(9.0)));
    logdir.append(file, &growth);
    logdir.refresh(&mut project);

    let series = project.histogram_series("run", "params/w").unwrap();
    let steps: Vec<i64> = series.snapshots.iter().map(|snapshot| snapshot.step).collect();
    assert_eq!(steps, vec![0, 1]);
    assert_eq!(series.snapshots[1].buckets, bucket_bits(&buckets(9.0)));
    assert_eq!(series.boundaries, vec![1]);
    assert_eq!(run(&project, "run").preemptions, 1);
}

#[test]
fn vanished_run_is_dropped() {
    let mut logdir = Logdir::new();
    let file = events_file(&[scalar(0, "loss", 1.0)]);
    logdir.write("gone/events.out.tfevents.1000.host", &file);
    logdir.write("stays/events.out.tfevents.1000.host", &file);
    let mut project = logdir.project();
    assert_eq!(project.runs().len(), 2);

    logdir.remove("gone");
    logdir.refresh(&mut project);
    assert_eq!(names(project.runs()), vec!["stays"]);
}

#[test]
fn missing_root_is_a_state_not_an_error() {
    let mut logdir = Logdir::new();
    let mut project = Project::new(logdir.root.clone());
    let report = logdir.refresh(&mut project);
    assert_eq!(report.new_files, 0);
    assert!(project.runs().is_empty());

    logdir.write(
        "run/events.out.tfevents.1000.host",
        events_file(&[scalar(0, "loss", 1.0)]),
    );
    let report = logdir.refresh(&mut project);
    assert_eq!(report.new_files, 1);
    assert_eq!(project.runs().len(), 1);
}

#[test]
fn status_from_mtime_recency() {
    let mut logdir = Logdir::new();
    logdir.write(
        "run/events.out.tfevents.1000.host",
        events_file(&[scalar(0, "loss", 1.0)]),
    );
    let project = logdir.project();
    let run = run(&project, "run");
    assert_eq!(run.status(NOW, MINUTE), RunStatus::Active);
    let later = Stamp { secs: NOW.secs + 600, nanos: 0 };
    assert_eq!(run.status(later, MINUTE), RunStatus::Idle);
}

#[test]
fn dvclive_run_end_to_end() {
    let mut logdir = Logdir::new();
    logdir.write(
        "exp1/dvclive/params.yaml",
        "lr: 0.001\noptimizer: adam\nmodel:\n  layers: 4\n",
    );
    logdir.write(
        "exp1/dvclive/plots/metrics/train/loss.tsv",
        "timestamp\tstep\tloss\n1700000000000\t0\t4.0\n1700000010000\t1\t2.0\n",
    );
    logdir.write(
        "exp1/dvclive/plots/metrics/acc.tsv",
        "step\tacc\n0\t0.5\n1\t0.75\n",
    );

    let mut project = Project::new(logdir.root.clone());
    let report = logdir.refresh(&mut project);
    assert_eq!(report.new_points, 4);

    let exp = run(&project, "exp1");
    assert_eq!(exp.backend, Backend::Dvclive);
    assert_eq!(*exp.hparams.get("lr").unwrap(), HparamValue::F64(0.001f64.to_bits()));
    assert_eq!(
        *exp.hparams.get("model.layers").unwrap(),
        HparamValue::F64(4.0f64.to_bits())
    );
    assert_eq!(exp.series.get("train/loss").unwrap().class, SeriesClass::Scalar);
    let loss = summary(&project, "exp1", "train/loss");
    assert_eq!(loss.count(), 2);
    assert_eq!(double(loss.min()), Some(2.0));
    assert_eq!(double(exp.first_wall), Some(1.7e9));
    let acc = summary(&project, "exp1", "acc");
    assert_eq!(f64::from_bits(acc.last().unwrap().value), 0.75);

    let points = logdir.materialize(&mut project, "exp1", "train/loss").unwrap();
    assert_eq!(points.steps, vec![0, 1]);
    assert_eq!(doubles(&points.values), vec![4.0, 2.0]);
    assert_eq!(doubles(&points.walls), vec![1.7e9, 1.7e9 + 10.0]);
}

#[test]
fn dvclive_tails_with_torn_lines() {
    let mut logdir = Logdir::new();
    let tsv = "run/dvclive/plots/metrics/loss.tsv";
    logdir.write(tsv, "step\tloss\n0\t4.0\n");

    let mut project = logdir.project();
    logdir.materialize(&mut project, "run", "loss").unwrap();

    logdir.append(tsv, "1\t2.0\n2\t1.");
    let report = logdir.refresh(&mut project);
    assert_eq!(report.new_points, 1);
    assert_eq!(project.points("run", "loss").unwrap().steps, vec![0, 1]);

    logdir.append(tsv, "5\n");
    let report = logdir.refresh(&mut project);
    assert_eq!(report.new_points, 1);
    let points = project.points("run", "loss").unwrap();
    assert_eq!(points.steps, vec![0, 1, 2]);
    assert_eq!(doubles(&points.values), vec![4.0, 2.0, 1.5]);
    assert_eq!(summary(&project, "run", "loss").count(), 3);
}

#[test]
fn dvclive_shrunk_file_resets_honestly() {
    let mut logdir = Logdir::new();
    let tsv = "run/dvclive/plots/metrics/loss.tsv";
    logdir.write(tsv, "step\tloss\n0\t4.0\n1\t3.0\n2\t2.0\n");
    let mut project = logdir.project();
    assert_eq!(summary(&project, "run", "loss").count(), 3);

    logdir.write(tsv, "step\tloss\n0\t9.0\n");
    logdir.refresh(&mut project);
    let loss = summary(&project, "run", "loss");
    assert_eq!(loss.count(), 1);
    assert_eq!(f64::from_bits(loss.last().unwrap().value), 9.0);
}

#[test]
fn mlflow_run_end_to_end() {
    let mut logdir = Logdir::new();
    logdir.write(
        "mlruns/0/a1b2/meta.yaml",
        "run_id: a1b2\nrun_name: brave-owl-7\nstatus: FINISHED\n",
    );
    logdir.write(
        "mlruns/0/a1b2/metrics/loss",
        "1700000000000 4.0 0\n1700000010000 2.0 1\n",
    );
    logdir.write("mlruns/0/a1b2/params/lr", "0.01");
    logdir.write("mlruns/0/a1b2/params/optimizer", "sgd");
    logdir.write("mlruns/0/meta.yaml", "experiment_id: 0\nname: Default\n");

    let mut project = Project::new(logdir.root.clone());
    let report = logdir.refresh(&mut project);
    assert_eq!(report.new_points, 2);
    assert_eq!(project.runs().len(), 1);

    let owl = run(&project, "brave-owl-7");
    assert_eq!(owl.backend, Backend::Mlflow);
    assert_eq!(*owl.hparams.get("lr").unwrap(), HparamValue::F64(0.01f64.to_bits()));
    assert_eq!(
        *owl.hparams.get("optimizer").unwrap(),
        HparamValue::String("sgd".into())
    );
    assert_eq!(summary(&project, "brave-owl-7", "loss").count(), 2);

    let points = logdir.materialize(&mut project, "brave-owl-7", "loss").unwrap();
    assert_eq!(points.steps, vec![0, 1]);
    assert_eq!(doubles(&points.values), vec![4.0, 2.0]);

    logdir.append("mlruns/0/a1b2/metrics/loss", "1700000020000 1.0 2\n");
    let report = logdir.refresh(&mut project);
    assert_eq!(report.new_points, 1);
    assert_eq!(
        doubles(&project.points("brave-owl-7", "loss").unwrap().values),
        vec![4.0, 2.0, 1.0]
    );
}

#[test]
fn mixed_root_carries_all_backends() {
    let mut logdir = Logdir::new();
    logdir.write(
        "tf-run/events.out.tfevents.1000.host",
        events_file(&[scalar(0, "loss", 1.0)]),
    );
    logdir.write("dvc-run/dvclive/plots/metrics/loss.tsv", "step\tloss\n0\t2.0\n");
    logdir.write("mlruns/0/x/meta.yaml", "run_id: x\nrun_name: ml-run\n");
    logdir.write("mlruns/0/x/metrics/loss", "1700000000000 3.0 0\n");

    let mut project = logdir.project();
    let runs = project.runs();
    let backends: Vec<(&str, Backend)> = (0..runs.len())
        .map(|at| (runs.name_at(at).as_str(), runs.value_at(at).backend))
        .collect();
    assert_eq!(
        backends,
        vec![
            ("dvc-run", Backend::Dvclive),
            ("ml-run", Backend::Mlflow),
            ("tf-run", Backend::Tfevents),
        ]
    );
    for run in ["dvc-run", "ml-run", "tf-run"] {
        assert_eq!(
            logdir.materialize(&mut project, run, "loss").unwrap().len(),
            1,
            "{run}"
        );
    }
}

fn history(step: i64, wall: f64, values: &[(&str, &str)]) -> Vec<u8> {
    history_record(step, wall.to_bits(), &wall.to_string(), values)
}

#[test]
fn wandb_run_end_to_end() {
    let mut logdir = Logdir::new();
    let name = "offline-run-20260826_120000-abc123";
    let log = "offline-run-20260826_120000-abc123/run-abc123.wandb";
    let mut file = wandb_file(&[
        config_record(&[("lr", "{\"value\": 0.001}"), ("optimizer", "\"adam\"")]),
        history(0, 1.7e9, &[("loss", "4.0"), ("acc", "0.5")]),
        history(1, 1.7e9 + 10.0, &[("loss", "NaN"), ("acc", "0.75")]),
    ]);
    logdir.write(log, &file);

    let mut project = Project::new(logdir.root.clone());
    let report = logdir.refresh(&mut project);
    assert_eq!(report.new_points, 4);
    let offline = run(&project, name);
    assert_eq!(offline.backend, Backend::Wandb);
    assert_eq!(
        *offline.hparams.get("lr").unwrap(),
        HparamValue::F64(0.001f64.to_bits())
    );
    assert_eq!(
        *offline.hparams.get("optimizer").unwrap(),
        HparamValue::String("adam".into())
    );
    assert_eq!(offline.finished, None);
    assert_eq!(summary(&project, name, "loss").count(), 2);
    assert_eq!(summary(&project, name, "loss").segments[0].non_finite, 1);
    assert_eq!(double(offline.first_wall), Some(1.7e9));

    let points = logdir.materialize(&mut project, name, "loss").unwrap();
    assert_eq!(points.steps, vec![0, 1]);
    assert_eq!(f64::from_bits(points.values[0]), 4.0);
    assert!(f64::from_bits(points.values[1]).is_nan());

    append_record(&mut file, &history(2, 1.7e9 + 20.0, &[("loss", "2.0"), ("acc", "0.9")]));
    append_record(&mut file, &exit_record());
    logdir.write(log, &file);
    let report = logdir.refresh(&mut project);
    assert_eq!(report.new_points, 2);
    assert_eq!(project.points(name, "loss").unwrap().steps, vec![0, 1, 2]);
    let offline = run(&project, name);
    assert_eq!(offline.finished, Some(true));
    assert_eq!(offline.status(NOW, MINUTE), RunStatus::Finished);
}

#[test]
fn wandb_newer_version_is_a_dead_file() {
    let mut logdir = Logdir::new();
    let mut file = wandb_file(&[]);
    file[6] = 9;
    logdir.write("offline-run-1-x/run-x.wandb", &file);

    let mut project = Project::new(logdir.root.clone());
    let report = logdir.refresh(&mut project);
    assert_eq!(report.dead_files, 1);
    assert_eq!(project.dead_files(), 1);
    assert!(run(&project, "offline-run-1-x").series.is_empty());
    let report = logdir.refresh(&mut project);
    assert_eq!(report.dead_files, 0);
    assert_eq!(project.dead_files(), 1);
}

#[test]
fn vanished_dvclive_run_is_dropped() {
    let mut logdir = Logdir::new();
    logdir.write("run/dvclive/plots/metrics/loss.tsv", "step\tloss\n0\t1.0\n");
    let mut project = logdir.project();
    assert_eq!(project.runs().len(), 1);
    logdir.remove("run");
    logdir.refresh(&mut project);
    assert!(project.runs().is_empty());
}

#[test]
fn second_root_of_a_name_gets_its_own() {
    let mut logdir = Logdir::new();
    for id in ["a", "b"] {
        logdir.write(
            &format!("mlruns/0/{id}/meta.yaml"),
            format!("run_id: {id}\nrun_name: twin\n"),
        );
    }
    let project = logdir.project();
    assert_eq!(names(project.runs()), vec!["twin", "twin~2"]);
}

#[test]
fn corrupt_records_are_counted_once() {
    let mut logdir = Logdir::new();
    let mut file = events_file(&[scalar(0, "loss", 1.0)]);
    let damaged = file.len();
    write_record(&mut file, &scalar(1, "loss", 2.0));
    file[damaged + 12] ^= 0x80;
    write_record(&mut file, &scalar(2, "loss", 3.0));
    logdir.write("run/events.out.tfevents.1000.host", &file);

    let mut project = Project::new(logdir.root.clone());
    let report = logdir.refresh(&mut project);
    assert_eq!((report.new_points, report.dropped_records), (2, 1));
    let report = logdir.refresh(&mut project);
    assert_eq!((report.new_points, report.dropped_records), (0, 0));
    assert_eq!(project.dropped_records(), 1);
}

fn write_run(logdir: &mut Logdir, run: &str, steps: std::ops::Range<i64>) {
    let events: Vec<Vec<u8>> = steps.map(|step| scalar(step, "loss", step as f32)).collect();
    logdir.write(
        &format!("{run}/events.out.tfevents.1000.host"),
        events_file(&events),
    );
}

#[test]
fn warm_start_is_a_metadata_walk() {
    let mut logdir = Logdir::new();
    write_run(&mut logdir, "a", 0..50);
    write_run(&mut logdir, "b", 0..30);
    let cache = logdir.cache(&logdir.project());

    let mut warm = Project::new(logdir.root.clone());
    assert!(warm.load_cache(load(&cache)));
    let report = logdir.refresh(&mut warm);
    assert_eq!(report.new_points, 0);
    assert_eq!(summary(&warm, "a", "loss").count(), 50);
    assert_eq!(summary(&warm, "b", "loss").count(), 30);
    assert_eq!(double(summary(&warm, "a", "loss").max()), Some(49.0));
    assert_eq!(run(&warm, "a").first_wall, Some(wall(0)));

    let points = logdir.materialize(&mut warm, "a", "loss").unwrap();
    assert_eq!(points.len(), 50);
    assert_eq!(f64::from_bits(points.values[49]), 49.0);
}

#[test]
fn grown_file_resumes_from_cached_offset() {
    let mut logdir = Logdir::new();
    write_run(&mut logdir, "run", 0..10);
    let cache = logdir.cache(&logdir.project());

    let mut growth = Vec::new();
    for step in 10..15 {
        write_record(&mut growth, &scalar(step, "loss", step as f32));
    }
    logdir.append("run/events.out.tfevents.1000.host", &growth);

    let mut warm = Project::new(logdir.root.clone());
    assert!(warm.load_cache(load(&cache)));
    let report = logdir.refresh(&mut warm);
    assert_eq!(report.new_points, 5);
    let loss = summary(&warm, "run", "loss");
    assert_eq!(loss.count(), 15);
    assert_eq!(loss.last().unwrap().step, 14);
    assert!(!loss.preempted());
}

#[test]
fn shrunk_file_invalidates_the_run() {
    let mut logdir = Logdir::new();
    write_run(&mut logdir, "run", 0..20);
    let cache = logdir.cache(&logdir.project());

    write_run(&mut logdir, "run", 0..5);

    let mut warm = Project::new(logdir.root.clone());
    assert!(warm.load_cache(load(&cache)));
    let report = logdir.refresh(&mut warm);
    assert_eq!(report.new_points, 5);
    assert_eq!(summary(&warm, "run", "loss").count(), 5);
    assert_eq!(double(summary(&warm, "run", "loss").max()), Some(4.0));
}

#[test]
fn torn_cache_is_a_cold_start() {
    let mut logdir = Logdir::new();
    write_run(&mut logdir, "run", 0..10);
    let cache = logdir.cache(&logdir.project());

    let mut warm = Project::new(logdir.root.clone());
    assert!(!warm.load_cache(load(&cache[..cache.len() / 2])));
    let report = logdir.refresh(&mut warm);
    assert_eq!(report.new_points, 10);
    assert_eq!(summary(&warm, "run", "loss").count(), 10);
}

#[test]
fn cache_preserves_segments_and_hparams() {
    let mut logdir = Logdir::new();
    let first: Vec<Vec<u8>> = (0..=10).map(|step| scalar(step, "loss", step as f32)).collect();
    let second: Vec<Vec<u8>> =
        (8..=12).map(|step| scalar(step, "loss", 100.0 + step as f32)).collect();
    logdir.write("run/events.out.tfevents.1000.host", events_file(&first));
    logdir.write("run/events.out.tfevents.2000.host", events_file(&second));
    let cache = logdir.cache(&logdir.project());

    let mut warm = Project::new(logdir.root.clone());
    assert!(warm.load_cache(load(&cache)));
    logdir.refresh(&mut warm);
    let loss = summary(&warm, "run", "loss");
    assert_eq!(loss.segments.len(), 2);
    assert_eq!(loss.segments[0].preempted_at, Some(8));
    assert!(loss.preempted());
    assert_eq!(run(&warm, "run").preemptions, 1);
}

#[test]
fn cache_of_another_form_is_refused() {
    let mut logdir = Logdir::new();
    write_run(&mut logdir, "run", 0..10);
    let mut cache = logdir.cache(&logdir.project());
    assert!(load(&cache).is_some());
    cache.push(0);
    assert!(load(&cache).is_none());
    assert!(load(b"").is_none());
    assert!(load(b"nothing of the kind").is_none());
}

/// Ten seconds a step.
fn slow_wall(step: i64) -> u64 {
    (1.7e9 + step as f64 * 10.0).to_bits()
}

/// Two runs, two tags each, deterministic values; `sgd` has a restart.
fn standard_logdir() -> Logdir {
    let mut logdir = Logdir::new();
    let adam: Vec<Vec<u8>> = (0..10)
        .flat_map(|step| {
            [
                scalar_event(
                    slow_wall(step),
                    step,
                    "train/loss",
                    (8.0 / (step + 1) as f32).to_bits(),
                ),
                scalar_event(slow_wall(step), step, "train/acc", (0.1 * step as f32).to_bits()),
            ]
        })
        .collect();
    logdir.write("adam/events.out.tfevents.1000.host", events_file(&adam));

    let sgd_first: Vec<Vec<u8>> = (0..6)
        .map(|step| {
            scalar_event(slow_wall(step), step, "train/loss", (9.0 - step as f32).to_bits())
        })
        .collect();
    let sgd_second: Vec<Vec<u8>> = (4..8)
        .map(|step| {
            scalar_event(slow_wall(10 + step), step, "train/loss", (6.5 - step as f32).to_bits())
        })
        .collect();
    logdir.write("sgd/events.out.tfevents.1000.host", events_file(&sgd_first));
    logdir.write("sgd/events.out.tfevents.2000.host", events_file(&sgd_second));
    logdir
}

fn ls(logdir: &Logdir, filter: Option<&str>, format: Format) -> String {
    let wording = Wording { number, show };
    list_runs(
        logdir.project().runs(),
        filter,
        NOW,
        MINUTE,
        &wording,
        &Arith { operate, whole },
    )
    .render(format, &wording)
}

#[test]
fn ls_text_golden() {
    assert_eq!(
        ls(&standard_logdir(), None, Format::Text),
        "run   status  series  points  restarts  step  duration\n\
         adam  active       2      20         0     9  90s\n\
         sgd   active       1      10         1     7  2m50s\n"
    );
}

#[test]
fn ls_json_golden() {
    assert_eq!(
        ls(&standard_logdir(), None, Format::Json),
        "[\n  {\"run\": \"adam\", \"status\": \"active\", \"series\": 2, \"points\": 20, \"restarts\": 0, \"step\": 9, \"duration\": \"90s\"},\n  {\"run\": \"sgd\", \"status\": \"active\", \"series\": 1, \"points\": 10, \"restarts\": 1, \"step\": 7, \"duration\": \"2m50s\"}\n]\n"
    );
}

#[test]
fn summary_text_golden() {
    let project = standard_logdir().project();
    let wording = Wording { number, show };
    let sgd = run(&project, "sgd");
    let mut stdout = wording.write_summary_head(sgd, Format::Text);
    stdout.push_str(&summarize(sgd, &combine).render(Format::Text, &wording));
    assert_eq!(
        stdout,
        "tag         class   count   min  max  mean  last  step  segments\n\
         train/loss  scalar     10  -0.5    9   4.3  -0.5     7         2\n"
    );
}

#[test]
fn export_csv_golden() {
    let project = standard_logdir().project();
    let wording = Wording { number, show };
    assert_eq!(
        export_runs(project.runs(), None, NOW, MINUTE, &wording).render(Format::Csv, &wording),
        "run,train/acc,train/loss\n\
         adam,0.9000000357627869,0.800000011920929\n\
         sgd,,-0.5\n"
    );
}

fn options(x_axis: XAxis) -> ChartOptions {
    ChartOptions {
        x_axis,
        smooth: None,
        runs_filter: None,
        log_y: false,
        show_ghosts: true,
        tokens_tag: None,
    }
}

/// The chart of a tag filter, and its title.
fn chart_of(logdir: &Logdir, tag: &str, options: &ChartOptions) -> (ChartData, String) {
    let mut project = logdir.project();
    let plan =
        ChartPlan::new(project.runs(), tag, options, NOW, MINUTE, &Wording { number, show });
    let wanted = plan.wanted(project.runs(), options);
    logdir.materialize_all(&mut project, &wanted);
    let chart = ChartData::collect(&project, &plan, options, &Arith { operate, whole });
    let line = title(tag, &chart, project.dropped_records(), project.dead_files(), None);
    (chart, line)
}

#[test]
fn show_chart_golden() {
    let (chart, line) = chart_of(&standard_logdir(), "train/loss", &options(XAxis::Step));
    assert!(line.contains("train/loss · 2 runs"), "title: {line}");
    let labels: Vec<&str> = chart.series.iter().map(|series| series.label.as_str()).collect();
    assert_eq!(labels, vec!["adam train/loss", "sgd train/loss"]);
    // The restart of sgd is where the resumed writer begins.
    assert_eq!(doubles(&chart.boundaries), vec![4.0]);
    assert_eq!(doubles(&chart.series[1].line.xs), (0..8).map(f64::from).collect::<Vec<f64>>());
    assert_eq!(
        doubles(&chart.series[1].line.ys),
        vec![9.0, 8.0, 7.0, 6.0, 2.5, 1.5, 0.5, -0.5]
    );
    assert_eq!(doubles(&chart.series[1].ghosts[0].xs), vec![4.0, 5.0]);
    assert_eq!(doubles(&chart.series[1].ghosts[0].ys), vec![5.0, 4.0]);
}

#[test]
fn tokens_axis_maps_and_reports_gaps() {
    let mut logdir = Logdir::new();
    let mut metered: Vec<Vec<u8>> = (0..10)
        .map(|step| {
            scalar_event(slow_wall(step), step, "loss", (5.0 - 0.5 * step as f32).to_bits())
        })
        .collect();
    for step in [0, 2, 4, 6] {
        metered.push(scalar_event(
            slow_wall(step),
            step,
            "tokens",
            (step as f32 * 1024.0).to_bits(),
        ));
    }
    logdir.write("metered/events.out.tfevents.1000.host", events_file(&metered));
    let plain: Vec<Vec<u8>> = (0..5)
        .map(|step| scalar_event(slow_wall(step), step, "loss", 1.0f32.to_bits()))
        .collect();
    logdir.write("plain/events.out.tfevents.1000.host", events_file(&plain));

    let (chart, line) = chart_of(&logdir, "loss", &options(XAxis::Tokens));
    assert!(line.contains("1 runs lack a token counter"), "{line}");
    assert!(line.contains("3 pts outside counter"), "{line}");
    assert_eq!(chart.series.len(), 1);
    assert_eq!(chart.series[0].label, "metered loss");
    assert_eq!(
        doubles(&chart.series[0].line.xs),
        vec![0.0, 1024.0, 2048.0, 3072.0, 4096.0, 5120.0, 6144.0]
    );
}

#[test]
fn a_chart_counts_the_runs_it_draws() {
    let mut logdir = Logdir::new();
    for run in ["a", "b"] {
        let events: Vec<Vec<u8>> = (0..3)
            .map(|step| scalar_event(slow_wall(step), step, "loss", 1.0f32.to_bits()))
            .collect();
        logdir.write(&format!("{run}/events.out.tfevents.1000.host"), events_file(&events));
    }
    let (chart, line) = chart_of(&logdir, "loss", &options(XAxis::Tokens));
    assert_eq!((chart.series.len(), chart.run_count, chart.runs_without_counter), (0, 0, 2));
    assert!(!line.contains("2 runs ·") && !line.ends_with("2 runs"), "{line}");

    // A counter that covers none of the points draws nothing either.
    let late = vec![scalar_event(slow_wall(9), 9, "tokens", 1024.0f32.to_bits())];
    let mut record = Vec::new();
    write_record(&mut record, &late[0]);
    logdir.append("a/events.out.tfevents.1000.host", &record);
    let mut project = logdir.project();
    logdir.materialize(&mut project, "a", "loss").unwrap();
    logdir.materialize(&mut project, "a", "tokens").unwrap();
    let runs = vec!["a".to_owned()];
    let arith = Arith { operate, whole };
    let chart = ChartData::for_tag(&project, &runs, "loss", &options(XAxis::Tokens), &arith);
    assert_eq!((chart.run_count, chart.tokens_dropped), (0, 3));
    let chart = ChartData::for_tag(&project, &runs, "loss", &options(XAxis::Step), &arith);
    assert_eq!(chart.run_count, 1);
}

#[test]
fn wall_axes_differ_in_their_start() {
    let logdir = standard_logdir();
    let (wall_chart, _) = chart_of(&logdir, "train/acc", &options(XAxis::Wall));
    assert!(wall_chart.time_x);
    assert_eq!(f64::from_bits(wall_chart.series[0].line.xs[1]), 1.7e9 + 10.0);
    let (relative, _) = chart_of(&logdir, "train/acc", &options(XAxis::Relative));
    assert_eq!(f64::from_bits(relative.series[0].line.xs[1]), 10.0);
}

#[test]
fn missing_tag_lists_alternatives() {
    let logdir = standard_logdir();
    let (chart, _) = chart_of(&logdir, "nope", &options(XAxis::Step));
    assert!(chart.is_empty());
    let stderr = no_match_message("nope", &logdir.root, logdir.project().runs());
    assert!(stderr.contains("no scalar tag matching `nope`"));
    assert!(stderr.contains("train/acc"));
    assert!(stderr.contains("train/loss"));
}

#[test]
fn summary_unknown_run_fails_with_suggestions() {
    let logdir = standard_logdir();
    let project = logdir.project();
    assert!(project.runs().get("nadam").is_none());
    let stderr = refuse_run("nadam", &logdir.root, project.runs());
    assert!(stderr.contains("no run `nadam`"));
    assert!(stderr.contains("adam"));
}

#[test]
fn runs_filter_limits_every_table() {
    assert_eq!(
        ls(&standard_logdir(), Some("sgd"), Format::Csv),
        "run,status,series,points,restarts,step,duration\nsgd,active,1,10,1,7,2m50s\n"
    );
}

#[test]
fn watcher_takes_growth_once() {
    let mut logdir = Logdir::new();
    let file = "run/events.out.tfevents.1000.host";
    logdir.write(file, events_file(&[scalar(0, "loss", 4.0), scalar(0, "acc", 0.5)]));
    let path = logdir.path(file);
    let arith = Arith { operate, whole };
    let mut watcher = Watcher::new(logdir.root.clone(), "loss".to_owned());
    let found = vec![Found { name: "run".to_owned(), path: path.clone() }];
    let tails = |logdir: &Logdir, watcher: &Watcher| {
        let mut tails = NameMap::new();
        let bytes = logdir.tail(&path, watcher.offset(&path)).unwrap();
        tails.insert(path.clone(), EventTail { bytes, failed: false, stat: logdir.stat(&path) });
        tails
    };

    watcher.poll(&found, &tails(&logdir, &watcher), &arith);
    assert_eq!(watcher.haul.appended, 1);
    assert_eq!(names(&watcher.haul.seen_tags), vec!["acc", "loss"]);

    let mut growth = Vec::new();
    write_record(&mut growth, &scalar(1, "loss", 2.0));
    logdir.append(file, &growth);
    watcher.poll(&found, &tails(&logdir, &watcher), &arith);
    assert_eq!(watcher.haul.appended, 1);
    let series = watcher.haul.runs.get("run").unwrap().series.get("loss").unwrap();
    assert_eq!(doubles(&series.steps), vec![0.0, 1.0]);
    assert_eq!(doubles(&series.values), vec![4.0, 2.0]);
}

#[test]
fn watched_files_may_be_split_anywhere() {
    let file = events_file(&[scalar(0, "loss", 4.0), scalar(1, "acc", 0.5), scalar(2, "loss", 1.0)]);
    let arith = Arith { operate, whole };
    let found = vec![Found { name: "run".to_owned(), path: "logs/run/e".to_owned() }];
    let stat = Stat::Known { len: file.len() as u64, mtime: None };
    for cut in [0, 1, 20, file.len() / 2, file.len() - 1, file.len()] {
        let mut watcher = Watcher::new("logs".to_owned(), "loss".to_owned());
        let mut appended = 0;
        for piece in [&file[..cut], &file[cut..]] {
            let mut tails = NameMap::new();
            let tail = EventTail { bytes: piece.to_vec(), failed: false, stat };
            tails.insert("logs/run/e".to_owned(), tail);
            appended += watcher.poll(&found, &tails, &arith);
        }
        assert_eq!(appended, 2);
        assert_eq!(watcher.offset("logs/run/e"), file.len() as u64);
        assert_eq!(names(&watcher.haul.seen_tags), vec!["acc", "loss"]);
        let series = &watcher.haul.runs.get("run").unwrap().series;
        assert_eq!(names(series), vec!["loss"]);
        assert_eq!(doubles(&series.get("loss").unwrap().values), vec![4.0, 1.0]);
    }
}

#[test]
fn watched_logdirs_are_walked_for_event_files_alone() {
    let entry = |name: &str, kind: EntryKind, marked: bool| Entry {
        name: name.to_owned(),
        kind,
        marked,
        text: None,
    };
    let file = "events.out.tfevents.1.host";
    let mut walk = WatchWalk::new("logs");
    let mut listed = Vec::new();
    while let Some((dir, depth)) = walk.next() {
        let entries = match dir.as_str() {
            "logs" => vec![
                entry(file, EntryKind::File, false),
                entry(".hidden", EntryKind::Directory, false),
                entry("run-x.wandb", EntryKind::File, false),
                entry("b", EntryKind::Directory, false),
                entry("a", EntryKind::DirectoryLink, false),
                entry("dvclive", EntryKind::Directory, true),
            ],
            _ => vec![entry("notes.txt", EntryKind::File, false), entry(file, EntryKind::File, false)],
        };
        walk.visit(&dir, depth, &entries);
        listed.push(dir);
    }
    assert_eq!(listed, vec!["logs", "logs/dvclive", "logs/a", "logs/b"]);
    let found: Vec<(String, String)> =
        walk.finish().into_iter().map(|found| (found.name, found.path)).collect();
    let expected: Vec<(String, String)> = [".", "a", "b", "dvclive"]
        .iter()
        .map(|name| {
            let dir = if *name == "." { "logs".to_owned() } else { format!("logs/{name}") };
            (name.to_string(), format!("{dir}/{file}"))
        })
        .collect();
    assert_eq!(found, expected);

    let mut deep = WatchWalk::new("logs");
    deep.next();
    deep.visit("logs", 32, &vec![entry("below", EntryKind::Directory, false)]);
    assert!(deep.next().is_none());
    deep.visit("logs", 31, &vec![entry("below", EntryKind::Directory, false)]);
    assert_eq!(deep.next(), Some(("logs/below".to_owned(), 32)));
}

fn lr_event(value: f64) -> Vec<u8> {
    let mut number = vec![0x11];
    number.extend_from_slice(&value.to_le_bytes());
    let mut entry = Vec::new();
    field_bytes(1, b"lr", &mut entry);
    field_bytes(2, &number, &mut entry);
    let mut info = Vec::new();
    field_bytes(1, &entry, &mut info);
    let mut plugin_data = Vec::new();
    field_bytes(3, &info, &mut plugin_data);
    let mut inner = Vec::new();
    field_bytes(1, b"hparams", &mut inner);
    field_bytes(2, &plugin_data, &mut inner);
    let mut metadata = Vec::new();
    field_bytes(1, &inner, &mut metadata);
    let mut summary_value = Vec::new();
    field_bytes(1, b"_hparams_/session_start_info", &mut summary_value);
    field_bytes(9, &metadata, &mut summary_value);
    let mut summary = Vec::new();
    field_bytes(1, &summary_value, &mut summary);
    let mut event = Vec::new();
    field_bytes(5, &summary, &mut event);
    event
}

fn viewer_logdir() -> Logdir {
    let mut logdir = Logdir::new();
    let mut adam: Vec<Vec<u8>> = (0..10)
        .flat_map(|step| {
            [
                scalar_event(
                    slow_wall(step),
                    step,
                    "train/loss",
                    (8.0 / (step + 1) as f32).to_bits(),
                ),
                scalar_event(slow_wall(step), step, "train/acc", (0.1 * step as f32).to_bits()),
            ]
        })
        .collect();
    for step in 0..3 {
        adam.push(histogram(
            step,
            "params/w",
            slow_wall(step),
            &[(-1.0, 0.0, 3.0 + step as f64), (0.0, 1.0, 5.0)],
        ));
    }
    logdir.write("adam/events.out.tfevents.1000.host", events_file(&adam));
    let sgd: Vec<Vec<u8>> = (0..8)
        .map(|step| {
            scalar_event(slow_wall(step), step, "train/loss", (9.0 - step as f32).to_bits())
        })
        .collect();
    logdir.write("sgd/events.out.tfevents.1000.host", events_file(&sgd));
    logdir
}

const FIVE_SECONDS: Stamp = Stamp { secs: 5, nanos: 0 };

fn test_app() -> (App, Logdir) {
    let logdir = viewer_logdir();
    (App::new(logdir.project(), FIVE_SECONDS, ""), logdir)
}

fn press(app: &mut App, key: Key) -> Action {
    app.update(
        Press::plain(key),
        NOW,
        &Wording { number, show },
        &Arith { operate, whole },
    )
}

fn ensure_materialized(app: &mut App, logdir: &Logdir) {
    let wording = Wording { number, show };
    for wanted in app.wanted_scalars(NOW, &wording) {
        logdir.materialize(&mut app.project, &wanted.run, &wanted.tag);
    }
    if app.view == View::Distributions {
        if let Some(target) = app.distribution_target(NOW, &wording) {
            logdir.materialize_histograms(&mut app.project, &target.run, &target.tag);
        }
    }
}

fn scoped(app: &App) -> Vec<String> {
    app.scoped_runs(NOW, &Wording { number, show })
}

fn row_names(app: &App) -> Vec<String> {
    app.row_names(NOW, &Wording { number, show }, &Arith { operate, whole })
}

fn window(app: &App) -> Option<(f64, f64)> {
    app.scalars.x_window.map(|(from, to)| (f64::from_bits(from), f64::from_bits(to)))
}

#[test]
fn runs_view_snapshot() {
    let (mut app, _) = test_app();
    app.runs.cursor = Some("adam".to_owned());
    app.runs.selected.insert("sgd".to_owned(), ());
    let panel = app.runs_panel(70, NOW, &Wording { number, show }, &Arith { operate, whole });
    let headings: Vec<String> = panel
        .headings
        .iter()
        .map(|heading| format!("{}{}", heading.label, heading.arrow.unwrap_or("")))
        .collect();
    assert_eq!(headings, ["run▲", "status", "series", "points", "restarts", "step"]);
    let rows: Vec<(bool, String, String, Vec<String>)> = panel
        .rows
        .into_iter()
        .map(|row| (row.selected, row.name, format!("{} {}", row.dot, row.status), row.cells))
        .collect();
    let texts = |cells: [&str; 4]| cells.iter().map(|cell| cell.to_string()).collect();
    assert_eq!(
        rows,
        vec![
            (false, "adam".to_owned(), "● active".to_owned(), texts(["3", "23", "0", "9"])),
            (true, "sgd".to_owned(), "● active".to_owned(), texts(["1", "8", "0", "7"])),
        ]
    );
    assert_eq!(panel.cursor, Some(0));
}

#[test]
fn wide_runs_tables_have_more_columns() {
    let (app, _) = test_app();
    let at = |width: u16| {
        let panel = app.runs_panel(width, NOW, &Wording { number, show }, &Arith { operate, whole });
        let headings: Vec<(&str, Option<u16>)> =
            panel.headings.iter().map(|heading| (heading.label, heading.width)).collect();
        (headings, panel.rows[0].cells.clone())
    };
    let (narrow, cells) = at(69);
    assert_eq!(narrow.len(), 5);
    assert_eq!(cells.len(), 3);
    let (headings, cells) = at(99);
    assert_eq!(headings.last(), Some(&("duration", Some(8))));
    assert_eq!(cells.len(), 5);
    let (headings, cells) = at(100);
    assert_eq!(headings.last(), Some(&("trend", Some(12))));
    assert_eq!(headings.len(), 8);
    assert_eq!(cells.len(), 6);
    assert_eq!(cells[5], "");
}

#[test]
fn scalars_view_lists_tags_and_draws_chart() {
    let (mut app, logdir) = test_app();
    app.view = View::Scalars;
    app.scalars.cursor = Some("train/loss".to_owned());
    ensure_materialized(&mut app, &logdir);
    let wording = Wording { number, show };
    let arith = Arith { operate, whole };
    assert_eq!(app.visible_tags(NOW, &wording), vec!["train/acc", "train/loss"]);
    let chart = app.scalars_chart(NOW, &wording, &arith).unwrap();
    let line = wording.chart_title("train/loss", &app.scalars, &chart, &arith);
    assert!(line.contains("2 runs"), "chart title: {line}");
    let labels: Vec<&str> = chart.series.iter().map(|series| series.label.as_str()).collect();
    assert_eq!(labels, vec!["adam", "sgd"]);
}

#[test]
fn refresh_preserves_cursor_selection_and_filter() {
    let (mut app, mut logdir) = test_app();
    app.runs.cursor = Some("sgd".to_owned());
    app.runs.selected.insert("adam".to_owned(), ());
    app.scalars.filter = "loss".to_owned();

    let more: Vec<Vec<u8>> = (0..3)
        .map(|step| scalar_event(2.0e9f64.to_bits(), step, "train/loss", 1.0f32.to_bits()))
        .collect();
    logdir.write("zeta/events.out.tfevents.1000.host", events_file(&more));
    let disk = logdir.disk(&app.project);
    app.refresh(&disk, &Numeric { number, seconds, accumulate });

    assert_eq!(row_names(&app).len(), 3);
    assert_eq!(app.runs.cursor.as_deref(), Some("sgd"));
    assert!(app.runs.selected.contains("adam"));
    assert_eq!(
        app.visible_tags(NOW, &Wording { number, show }),
        vec!["train/loss".to_owned()]
    );
}

#[test]
fn compare_view_draws_small_multiples() {
    let (mut app, logdir) = test_app();
    app.view = View::Compare;
    ensure_materialized(&mut app, &logdir);
    let (tags, runs) = app.compare_scope(NOW, &Wording { number, show });
    assert_eq!(tags, vec!["train/acc", "train/loss"]);
    assert_eq!(runs, vec!["adam", "sgd"]);
    for (tag, series) in [("train/acc", 1), ("train/loss", 2)] {
        let chart = ChartData::for_tag(
            &app.project,
            &runs,
            tag,
            &options(XAxis::Step),
            &Arith { operate, whole },
        );
        assert_eq!(chart.series.len(), series, "{tag}");
    }
}

#[test]
fn hparams_view_lists_params_and_metrics() {
    let mut logdir = viewer_logdir();
    let mut record = Vec::new();
    write_record(&mut record, &lr_event(0.01));
    logdir.append("adam/events.out.tfevents.1000.host", &record);
    let mut app = App::new(logdir.project(), FIVE_SECONDS, "");
    app.view = View::Hparams;
    let (columns, rows) =
        app.hparam_table(NOW, &Wording { number, show }, &Arith { operate, whole });
    assert_eq!(columns, vec!["run", "lr", "train/acc", "train/loss"]);
    assert_eq!(rows.len(), 2);
    assert_eq!(rows[0][1], HparamCell::Number(0.01f64.to_bits()));
    assert_eq!(rows[1][1], HparamCell::Empty);
    assert_eq!(rows[0][0], HparamCell::Text("adam".to_owned()));
}

#[test]
fn hparams_panel_marks_rows_and_fits_columns() {
    let mut logdir = viewer_logdir();
    let mut record = Vec::new();
    write_record(&mut record, &lr_event(0.01));
    logdir.append("adam/events.out.tfevents.1000.host", &record);
    let mut app = App::new(logdir.project(), FIVE_SECONDS, "");
    app.view = View::Hparams;
    app.runs.cursor = Some("sgd".to_owned());
    app.runs.selected.insert("adam".to_owned(), ());
    let panel = app.hparams_panel(NOW, &Wording { number, show }, &Arith { operate, whole });
    assert_eq!(panel.columns, vec!["run", "lr", "train/acc", "train/loss"]);
    assert_eq!(panel.widths, vec![None, Some(8), Some(9), Some(10)]);
    assert_eq!(panel.rows.len(), 2);
    assert_eq!(panel.rows[0][..2], ["▸adam".to_owned(), "0.01".to_owned()]);
    assert_eq!(panel.rows[1][..2], [" sgd".to_owned(), String::new()]);
    assert_eq!(panel.cursor, Some(1));
}

#[test]
fn distributions_view_draws_ridgeline() {
    let (mut app, logdir) = test_app();
    app.view = View::Distributions;
    ensure_materialized(&mut app, &logdir);
    let wording = Wording { number, show };
    assert_eq!(app.histogram_tags(NOW, &wording), vec!["params/w"]);
    let target = app.distribution_target(NOW, &wording).unwrap();
    assert_eq!((target.run.as_str(), target.tag.as_str()), ("adam", "params/w"));
    let series = app.project.histogram_series(&target.run, &target.tag).unwrap();
    let ridge = DistData::build(series, 12, &Arith { operate, whole }).unwrap();
    let line = vertov::caption::ridge_title(
        &target.tag,
        &target.run,
        ridge.step_range,
        ridge.drawn,
        ridge.total,
    );
    assert!(line.contains("steps 0–2"), "title: {line}");
    assert!(line.contains("adam"), "run in title: {line}");
    assert_eq!((ridge.rows.len(), ridge.drawn, ridge.total), (3, 3, 3));
}

#[test]
fn enter_replaces_a_selection_the_cursor_left() {
    let (mut app, _) = test_app();
    app.runs.cursor = Some("adam".to_owned());
    press(&mut app, Key::Enter);
    assert_eq!(scoped(&app), vec!["adam"]);
    assert_eq!(app.view, View::Scalars);
    press(&mut app, Key::Esc);
    app.runs.cursor = Some("sgd".to_owned());
    press(&mut app, Key::Enter);
    assert_eq!(scoped(&app), vec!["sgd"]);
}

#[test]
fn escape_clears_selection_then_filter_then_leaves_scalars() {
    let (mut app, _) = test_app();
    app.runs.selected.insert("adam".to_owned(), ());
    app.runs.filter = "ad".to_owned();
    press(&mut app, Key::Esc);
    assert!(app.runs.selected.is_empty());
    assert_eq!(app.runs.filter, "ad");
    press(&mut app, Key::Esc);
    assert!(app.runs.filter.is_empty());

    app.view = View::Scalars;
    app.scalars.filter = "loss".to_owned();
    press(&mut app, Key::Esc);
    assert!(app.scalars.filter.is_empty());
    assert_eq!(app.view, View::Scalars);
    press(&mut app, Key::Esc);
    assert_eq!(app.view, View::Runs);
}

#[test]
fn smoothing_snaps_to_exact_zero() {
    let (mut app, _) = test_app();
    app.view = View::Scalars;
    for _ in 0..3 {
        press(&mut app, Key::Char('S'));
    }
    let smooth = app.chart_options(&Arith { operate, whole }).smooth;
    assert!((double(smooth).unwrap() - 0.3).abs() < 1e-12);
    for _ in 0..3 {
        press(&mut app, Key::Char('s'));
    }
    assert_eq!(app.scalars.smooth, 0, "must be exactly zero");
    assert_eq!(app.chart_options(&Arith { operate, whole }).smooth, None);
}

#[test]
fn alt_modified_chars_do_not_enter_filters() {
    let (mut app, _) = test_app();
    press(&mut app, Key::Char('/'));
    assert!(app.runs.editing_filter);
    app.update(
        Press { key: Key::Char('g'), control: false, alt: true },
        NOW,
        &Wording { number, show },
        &Arith { operate, whole },
    );
    assert_eq!(app.runs.filter, "", "Esc+g over ssh must not type a g");
    press(&mut app, Key::Char('g'));
    assert_eq!(app.runs.filter, "g");
}

#[test]
fn empty_hint_names_the_narrowing_state() {
    let (mut app, _) = test_app();
    assert_eq!(app.empty_hint(), "no matching series");
    app.runs.filter = "zzz".to_owned();
    app.working_set = Some(NameMap::new());
    let hint = app.empty_hint();
    assert!(hint.contains("runs filter"), "{hint}");
    assert!(hint.contains("working set"), "{hint}");
}

#[test]
fn crosshair_steps_points_and_reads_exact_values() {
    let (mut app, logdir) = test_app();
    app.view = View::Scalars;
    app.scalars.cursor = Some("train/loss".to_owned());
    ensure_materialized(&mut app, &logdir);

    press(&mut app, Key::Right);
    assert_eq!(double(app.scalars.crosshair), Some(9.0));
    press(&mut app, Key::Left);
    press(&mut app, Key::Left);
    assert_eq!(double(app.scalars.crosshair), Some(7.0));

    let wording = Wording { number, show };
    let arith = Arith { operate, whole };
    let chart = app.scalars_chart(NOW, &wording, &arith).unwrap();
    let readings = chart.values_at(7.0f64.to_bits(), &arith);
    assert_eq!(readings.len(), 2);
    assert_eq!(f64::from_bits(readings[0].value), 1.0, "adam: 8/(7+1)");
    assert_eq!(f64::from_bits(readings[1].value), 2.0, "sgd: 9-7");
    let line = wording.chart_title("train/loss", &app.scalars, &chart, &arith);
    assert!(line.contains("@7"), "{line}");
}

#[test]
fn zoom_pan_and_reset() {
    let (mut app, logdir) = test_app();
    app.view = View::Scalars;
    app.scalars.cursor = Some("train/loss".to_owned());
    ensure_materialized(&mut app, &logdir);

    press(&mut app, Key::Char('+'));
    let (from, to) = window(&app).unwrap();
    assert!((to - from - 6.0).abs() < 1e-9, "width 9/1.5, got {from}..{to}");
    for _ in 0..10 {
        press(&mut app, Key::Char(']'));
    }
    let (from, to) = window(&app).unwrap();
    assert_eq!(to, 9.0);
    assert!((from - 3.0).abs() < 1e-9);
    press(&mut app, Key::Char('-'));
    press(&mut app, Key::Char('-'));
    assert_eq!(app.scalars.x_window, None);

    press(&mut app, Key::Char('+'));
    assert!(app.scalars.x_window.is_some());
    press(&mut app, Key::Char('x'));
    assert_eq!(app.scalars.x_window, None);
    assert_eq!(app.scalars.crosshair, None);
}

#[test]
fn crosshair_walks_the_window_along() {
    let (mut app, logdir) = test_app();
    app.view = View::Scalars;
    app.scalars.cursor = Some("train/loss".to_owned());
    ensure_materialized(&mut app, &logdir);
    press(&mut app, Key::Right);
    press(&mut app, Key::Char('+'));
    press(&mut app, Key::Char('+'));
    let (from, _) = window(&app).unwrap();
    assert!(from > 0.0);
    for _ in 0..9 {
        press(&mut app, Key::Left);
    }
    assert_eq!(double(app.scalars.crosshair), Some(0.0));
    let (from, _) = window(&app).unwrap();
    assert_eq!(from, 0.0);
}

#[test]
fn keep_and_exclude_refine_the_working_set() {
    let (mut app, _) = test_app();
    app.runs.cursor = Some("sgd".to_owned());
    press(&mut app, Key::Char('K'));
    assert_eq!(row_names(&app), vec!["sgd"]);
    assert_eq!(scoped(&app), vec!["sgd"]);
    press(&mut app, Key::Char('U'));
    assert_eq!(row_names(&app).len(), 2);
    press(&mut app, Key::Char('X'));
    assert_eq!(row_names(&app), vec!["adam"]);
}

#[test]
fn help_overlay_renders() {
    let (mut app, _) = test_app();
    press(&mut app, Key::Char('?'));
    assert!(app.help);
    let lines: Vec<String> = vertov::caption::help_keys()
        .iter()
        .map(|hint| format!("{} {}", hint.key, hint.what))
        .collect();
    assert!(lines.join("\n").contains("views: runs, scalars"));
    // Any key closes it, and does nothing else.
    assert_eq!(press(&mut app, Key::Char('q')), Action::Continue);
    assert!(!app.help);
    assert_eq!(press(&mut app, Key::Char('q')), Action::Quit);
}

#[test]
fn export_writes_the_screen() {
    let (mut app, _) = test_app();
    let wording = Wording { number, show };
    let arith = Arith { operate, whole };
    app.view = View::Hparams;
    press(&mut app, Key::Char('e'));
    assert!(app.export_due);
    let exported = app.export(NOW, &wording, &arith).ok().unwrap();
    assert!(exported.path.ends_with(".csv"), "{}", exported.path);
    assert!(exported.text.starts_with("run,"), "{}", exported.text);
    app.note_export(Ok(exported.path.clone()));
    assert!(app.message.as_deref().unwrap().contains(&exported.path));
}

#[test]
fn still_frames_paint_no_image_twice() {
    let area = Area { x: 28, y: 1, width: 40, height: 10 };
    let mut painter = Painter::new();
    painter.lay_out(vec![area]);
    assert!(painter.draw(true).emit);
    painter.lay_out(vec![area]);
    assert!(!painter.draw(true).emit);
    painter.stir();
    assert!(painter.draw(true).emit);
}

#[test]
fn exports_are_refused_with_a_reason() {
    let wording = Wording { number, show };
    let arith = Arith { operate, whole };
    let refusal = |app: &App| app.export(NOW, &wording, &arith).err().unwrap();

    let mut empty = App::new(Logdir::new().project(), FIVE_SECONDS, "");
    empty.view = View::Scalars;
    assert_eq!(refusal(&empty), "no tag to export");
    empty.view = View::Distributions;
    assert_eq!(refusal(&empty), "no histogram series to export");

    let (mut app, logdir) = test_app();
    app.view = View::Distributions;
    assert_eq!(refusal(&app), "series not materialized yet");
    ensure_materialized(&mut app, &logdir);
    let exported = app.export(NOW, &wording, &arith).ok().unwrap();
    assert_eq!(exported.path, "vertov-params-w-hist.csv");
    assert!(exported.text.starts_with("run,tag,step,wall,left,right,count\nadam,params/w,0,"));

    app.note_export(Err("no room".to_owned()));
    assert_eq!(app.message.as_deref(), Some("export failed: no room"));
}

#[test]
fn scalars_export_every_point() {
    let (mut app, logdir) = test_app();
    app.view = View::Scalars;
    app.scalars.cursor = Some("train/loss".to_owned());
    ensure_materialized(&mut app, &logdir);
    let exported = app
        .export(NOW, &Wording { number, show }, &Arith { operate, whole })
        .ok()
        .unwrap();
    assert_eq!(exported.path, "vertov-train-loss.csv");
    assert_eq!(exported.text.lines().count(), 1 + 10 + 8);
    assert!(exported.text.contains("adam,train/loss,1,1700000010,4\n"), "{}", exported.text);
}

#[test]
fn split_polls_come_to_one() {
    let whole = "step\tloss\n0\t4.0\n1\t2.0\n2\t1.0\n";
    let tsv = "run/dvclive/plots/metrics/loss.tsv";
    let mut once = Logdir::new();
    once.write(tsv, whole);
    let expected = once.project();
    for cut in 0..whole.len() {
        let mut logdir = Logdir::new();
        logdir.write(tsv, &whole[..cut]);
        let mut project = logdir.project();
        logdir.append(tsv, &whole[cut..]);
        logdir.refresh(&mut project);
        assert_eq!(
            *summary(&project, "run", "loss"),
            *summary(&expected, "run", "loss"),
            "cut at {cut}"
        );
    }
}

#[test]
fn warm_starts_come_to_what_cold_ones_do() {
    let mut whole = events_file(&[scalar(0, "loss", 4.0)]);
    for step in [1, 2, 1, 2] {
        write_record(&mut whole, &scalar(step, "loss", step as f32));
    }
    let file = "run/events.out.tfevents.1000.host";
    for cut in 0..whole.len() {
        let mut logdir = Logdir::new();
        logdir.write(file, &whole[..cut]);
        let cache = logdir.cache(&logdir.project());
        logdir.append(file, &whole[cut..]);

        let mut warm = Project::new(logdir.root.clone());
        assert!(warm.load_cache(load(&cache)));
        logdir.refresh(&mut warm);
        let cold = logdir.project();
        assert_eq!(
            *summary(&warm, "run", "loss"),
            *summary(&cold, "run", "loss"),
            "cut at {cut}"
        );
        assert_eq!(run(&warm, "run").preemptions, 1);
    }
}
