//! What a reload pass does to the catalog: runs whose files changed under the
//! cache or vanished are dropped, all others stay, losses add up, and what is
//! held makes room for what is looked at.
use vstd::prelude::*;

use crate::arith::{Arith, Operation};
use crate::backends::{LogFileModel, WandbStateModel};
use crate::discover::{joined, path_before, path_key, within, FoundModel};
use crate::drain::LogModel;
use crate::event::{event_of, EventModel, ValueModel};
use crate::materialize::upto;
use crate::names::{lemma_sorted, sorted};
use crate::naming::law_fresh_name_is_free;
use crate::numeric::{Moments, Numeric};
use crate::project::{
    event_frontiers, found_intact, has_dead_file, holder, intact, live_files, lost, metric_path,
    resume_offset, tail_of, tainted, tsv_path, DvcliveRootModel,
    MlflowRootModel, ProjectModel, SourceModel, Stat, TailModel, WandbRootModel,
};
use crate::run::{Backend, Intake, Stamp};
use crate::shelf::{older, oldest_of, shelved, without_run, Key};
use crate::text::{lemma_text_order, text_before};
use crate::cache::CachedModel;
use crate::wandb::header_error;
use crate::watch::{with_scalar, Catch, Watched};
use crate::watch_walk::listed_before;
use crate::wire::DecodeError;

verus! {

/// What is watched is listed by the names of the runs and, within a run, by
/// the paths; of two that differ in either, one is listed first.
pub proof fn law_watched_files_are_in_order(a: FoundModel, b: FoundModel)
    ensures
        text_before(a.name, b.name) ==> listed_before(a, b) && !listed_before(b, a),
        a.name == b.name ==> listed_before(a, b) == path_before(a.path, b.path),
        a.name != b.name ==> listed_before(a, b) != listed_before(b, a),
        !listed_before(a, a),
{
    lemma_text_order(a.name, b.name);
    lemma_text_order(a.name, a.name);
    lemma_text_order(path_key(a.path), path_key(a.path));
}

/// A cached file is intact where it has grown, or kept its length and its
/// modification time; a shorter one, one that changed without growing, and one
/// that is gone are not.
pub proof fn law_intact_files(cached: CachedModel, len: u64, mtime: Option<Stamp>)
    ensures
        len > cached.size ==> intact(cached, Stat::Known { len, mtime }),
        len < cached.size ==> !intact(cached, Stat::Known { len, mtime }),
        len == cached.size ==> (intact(cached, Stat::Known { len, mtime }) <==> mtime == Some(
            cached.mtime,
        )),
        !intact(cached, Stat::Gone),
        !intact(cached, Stat::Unknown),
{
}

proof fn lemma_tainted(
    cached: Map<Seq<char>, CachedModel>,
    sources: Seq<SourceModel>,
    paths: Seq<Seq<char>>,
    run: Seq<char>,
)
    ensures
        tainted(cached, sources, paths).contains(run) <==> exists|i: int|
            0 <= i < paths.len() && cached[#[trigger] paths[i]].run == run && !found_intact(
                paths[i],
                cached[paths[i]],
                sources,
            ),
    decreases paths.len(),
{
    let runs = tainted(cached, sources, paths);
    if paths.len() > 0 {
        let init = paths.drop_last();
        let before = tainted(cached, sources, init);
        lemma_tainted(cached, sources, init, run);
        let n = paths.len() - 1;
        let path = paths.last();
        assert(paths[n] == path);
        if before.contains(run) {
            let k = choose|k: int| 0 <= k < before.len() && before[k] == run;
            assert(runs[k] == run);
            let i = choose|i: int|
                0 <= i < init.len() && cached[#[trigger] init[i]].run == run && !found_intact(
                    init[i],
                    cached[init[i]],
                    sources,
                );
            assert(paths[i] == init[i]);
        }
        if !found_intact(path, cached[path], sources) {
            assert(runs[before.len() as int] == cached[path].run);
        }
        if runs.contains(run) && !before.contains(run) {
            let k = choose|k: int| 0 <= k < runs.len() && runs[k] == run;
            if k < before.len() {
                assert(before[k] == run);
            }
        }
        if exists|i: int|
            0 <= i < paths.len() && cached[#[trigger] paths[i]].run == run && !found_intact(
                paths[i],
                cached[paths[i]],
                sources,
            ) {
            let i = choose|i: int|
                0 <= i < paths.len() && cached[#[trigger] paths[i]].run == run && !found_intact(
                    paths[i],
                    cached[paths[i]],
                    sources,
                );
            if i < n {
                assert(init[i] == paths[i]);
            }
        }
    }
}

proof fn lemma_without_cached(project: ProjectModel, runs: Seq<Seq<char>>, run: Seq<char>)
    ensures
        ({
            let after = project.without_cached_runs(runs);
            &&& runs.contains(run) ==> !after.runs.dom().contains(run)
            &&& !runs.contains(run) ==> (after.runs.dom().contains(run)
                == project.runs.dom().contains(run)) && after.runs[run] == project.runs[run]
            &&& forall|path: Seq<char>| #[trigger]
                after.cached.dom().contains(path) <==> project.cached.dom().contains(path)
                    && !runs.contains(project.cached[path].run)
            &&& forall|path: Seq<char>| #[trigger]
                after.cached.dom().contains(path) ==> after.cached[path] == project.cached[path]
            &&& after.files == project.files && after.points == project.points
        }),
    decreases runs.len(),
{
    let after = project.without_cached_runs(runs);
    if runs.len() > 0 {
        let init = runs.drop_last();
        lemma_without_cached(project, init, run);
        let last = runs.last();
        assert(runs[runs.len() - 1] == last);
        assert forall|name: Seq<char>| runs.contains(name) == (init.contains(name) || name
            == last) by {
            if init.contains(name) {
                let k = choose|k: int| 0 <= k < init.len() && init[k] == name;
                assert(runs[k] == name);
            }
            if runs.contains(name) && name != last {
                let k = choose|k: int| 0 <= k < runs.len() && runs[k] == name;
                assert(init[k] == name);
            }
        }
        assert forall|path: Seq<char>| #[trigger]
            after.cached.dom().contains(path) <==> project.cached.dom().contains(path)
                && !runs.contains(project.cached[path].run) by {
            let before = project.without_cached_runs(init);
            assert(before.cached.dom().contains(path) <==> project.cached.dom().contains(path)
                && !init.contains(project.cached[path].run));
        }
    }
}

/// A cached file that vanished, shrank or changed without growing drops its
/// whole run from the catalog and the cache; a run all of whose cached files
/// are intact stays as it is.
pub proof fn law_changed_files_drop_their_run(
    project: ProjectModel,
    sources: Seq<SourceModel>,
    path: Seq<char>,
    run: Seq<char>,
)
    requires
        project.cached.dom().finite(),
    ensures
        ({
            let after = project.validated(sources);
            &&& project.cached.dom().contains(path) && project.cached[path].run == run
                && !found_intact(path, project.cached[path], sources)
                ==> !after.runs.dom().contains(run) && !after.cached.dom().contains(path)
            &&& (forall|other: Seq<char>| #[trigger]
                project.cached.dom().contains(other) && project.cached[other].run == run
                    ==> found_intact(other, project.cached[other], sources))
                ==> after.runs.dom().contains(run) == project.runs.dom().contains(run)
                && after.runs[run] == project.runs[run]
        }),
{
    let paths = sorted(project.cached.dom());
    lemma_sorted(project.cached.dom());
    let runs = tainted(project.cached, sources, paths);
    lemma_tainted(project.cached, sources, paths, run);
    lemma_without_cached(project, runs, run);
    if project.cached.dom().contains(path) && project.cached[path].run == run && !found_intact(
        path,
        project.cached[path],
        sources,
    ) {
        assert(paths.contains(path));
        let i = choose|i: int| 0 <= i < paths.len() && paths[i] == path;
        assert(paths[i] == path);
        assert(runs.contains(run));
    }
    if forall|other: Seq<char>| #[trigger]
        project.cached.dom().contains(other) && project.cached[other].run == run
            ==> found_intact(other, project.cached[other], sources) {
        if runs.contains(run) {
            let i = choose|i: int|
                0 <= i < paths.len() && project.cached[#[trigger] paths[i]].run == run
                    && !found_intact(paths[i], project.cached[paths[i]], sources);
            assert(paths.contains(paths[i]));
            assert(project.cached.dom().contains(paths[i]));
        }
    }
}

/// A new event file is read from where the cache left it, or from the start;
/// its run is in the catalog, and the file is counted. One that is under
/// reading, or that cannot be opened, changes nothing.
pub proof fn law_event_files_are_opened(project: ProjectModel, source: SourceModel)
    requires
        project.report.new_files < u64::MAX,
    ensures
        ({
            let after = project.opened(source);
            let known = project.files.dom().contains(source.path);
            &&& known || !source.opened ==> after == project
            &&& !known && source.opened ==> {
                &&& after.files.dom().contains(source.path)
                &&& after.files[source.path].run == source.run
                &&& after.files[source.path].pending.len() == 0
                &&& !after.files[source.path].dead
                &&& project.cached.dom().contains(source.path)
                    ==> after.files[source.path].committed == project.cached[source.path].offset
                &&& !project.cached.dom().contains(source.path)
                    ==> after.files[source.path].committed == 0
                &&& !after.cached.dom().contains(source.path)
                &&& after.runs.dom().contains(source.run)
                &&& after.report.new_files == project.report.new_files + 1
            }
        }),
{
}

/// A run that is new in the catalog knows nothing yet; one that is there
/// stays.
pub proof fn law_runs_are_made_once(
    project: ProjectModel,
    name: Seq<char>,
    backend: Backend,
    dir: Seq<char>,
    other: Seq<char>,
)
    requires
        other != name,
    ensures
        ({
            let after = project.with_run(name, backend, dir);
            &&& after.runs.dom().contains(name)
            &&& project.runs.dom().contains(name) ==> after == project
            &&& !project.runs.dom().contains(name) ==> after.runs[name].backend == backend
                && after.runs[name].dir == dir && after.runs[name].series.dom().len() == 0
            &&& after.runs.dom().contains(other) == project.runs.dom().contains(other)
            &&& after.runs[other] == project.runs[other]
        }),
{
}

/// Where a file is read on: behind what was read, taken in or pending; behind
/// what the cache took in; else at the start.
pub proof fn law_files_are_read_on(project: ProjectModel, path: Seq<char>)
    ensures
        ({
            let at = resume_offset(project, path);
            let log = project.files[path];
            &&& project.files.dom().contains(path) && log.committed + log.pending.len() <= u64::MAX
                ==> at == log.committed + log.pending.len()
            &&& !project.files.dom().contains(path) && project.cached.dom().contains(path) ==> at
                == project.cached[path].offset
            &&& !project.files.dom().contains(path) && !project.cached.dom().contains(path) ==> at
                == 0
        }),
{
}

/// The modification time of a file is noted in its run, where it is later.
pub proof fn law_writes_are_noted(project: ProjectModel, path: Seq<char>, len: u64, mtime: Stamp)
    requires
        project.runs.dom().contains(project.files[path].run),
    ensures
        ({
            let run = project.files[path].run;
            let after = project.stamped(path, Stat::Known { len, mtime: Some(mtime) });
            &&& after.runs.dom().contains(run)
            &&& after.runs[run].last_write matches Some(last) && last.total() >= mtime.total()
            &&& after.runs[run].series == project.runs[run].series
            &&& project.stamped(path, Stat::Gone) == project
            &&& project.stamped(path, Stat::Known { len, mtime: None }) == project
        }),
{
}

proof fn lemma_without_runs(project: ProjectModel, runs: Seq<Seq<char>>, run: Seq<char>, key: Key)
    requires
        key.0 == run,
    ensures
        ({
            let after = project.without_runs(runs);
            &&& runs.contains(run) ==> !after.runs.dom().contains(run)
                && !after.points.dom().contains(key) && !after.histograms.dom().contains(key)
                && forall|path: Seq<char>| #[trigger]
                after.files.dom().contains(path) ==> after.files[path].run != run
            &&& !runs.contains(run) ==> (after.runs.dom().contains(run)
                == project.runs.dom().contains(run)) && after.runs[run] == project.runs[run] && (
            after.points.dom().contains(key) == project.points.dom().contains(key)) && (
            project.points.dom().contains(key) ==> after.points[key] == project.points[key])
            &&& forall|path: Seq<char>| #[trigger]
                after.files.dom().contains(path) ==> project.files.dom().contains(path)
                    && after.files[path] == project.files[path]
        }),
    decreases runs.len(),
{
    if runs.len() > 0 {
        let init = runs.drop_last();
        lemma_without_runs(project, init, run, key);
        let last = runs.last();
        assert(runs[runs.len() - 1] == last);
        if init.contains(run) {
            let k = choose|k: int| 0 <= k < init.len() && init[k] == run;
            assert(runs[k] == run);
        }
        if runs.contains(run) && run != last {
            let k = choose|k: int| 0 <= k < runs.len() && runs[k] == run;
            assert(init[k] == run);
        }
    }
}

proof fn lemma_vanished(
    project: ProjectModel,
    paths: Seq<Seq<char>>,
    tails: Map<Seq<char>, TailModel>,
    run: Seq<char>,
)
    ensures
        project.vanished(paths, tails).contains(run) <==> exists|i: int|
            0 <= i < paths.len() && project.files[#[trigger] paths[i]].run == run && tail_of(
                tails,
                paths[i],
            ).stat == Stat::Gone,
    decreases paths.len(),
{
    let runs = project.vanished(paths, tails);
    if paths.len() > 0 {
        let init = paths.drop_last();
        let before = project.vanished(init, tails);
        lemma_vanished(project, init, tails, run);
        let n = paths.len() - 1;
        assert(paths[n] == paths.last());
        if before.contains(run) {
            let k = choose|k: int| 0 <= k < before.len() && before[k] == run;
            assert(runs[k] == run);
            let i = choose|i: int|
                0 <= i < init.len() && project.files[#[trigger] init[i]].run == run && tail_of(
                    tails,
                    init[i],
                ).stat == Stat::Gone;
            assert(paths[i] == init[i]);
        }
        if tail_of(tails, paths.last()).stat == Stat::Gone {
            assert(runs[before.len() as int] == project.files[paths.last()].run);
        }
        if runs.contains(run) && !before.contains(run) {
            let k = choose|k: int| 0 <= k < runs.len() && runs[k] == run;
            if k < before.len() {
                assert(before[k] == run);
            }
        }
        if exists|i: int|
            0 <= i < paths.len() && project.files[#[trigger] paths[i]].run == run && tail_of(
                tails,
                paths[i],
            ).stat == Stat::Gone {
            let i = choose|i: int|
                0 <= i < paths.len() && project.files[#[trigger] paths[i]].run == run && tail_of(
                    tails,
                    paths[i],
                ).stat == Stat::Gone;
            if i < n {
                assert(init[i] == paths[i]);
            }
        }
    }
}

proof fn lemma_stamped(
    project: ProjectModel,
    paths: Seq<Seq<char>>,
    tails: Map<Seq<char>, TailModel>,
    run: Seq<char>,
)
    ensures
        ({
            let after = project.all_stamped(paths, tails);
            &&& after.files == project.files && after.points == project.points && after.histograms
                == project.histograms
            &&& after.runs.dom().contains(run) == project.runs.dom().contains(run)
            &&& after.runs[run].series == project.runs[run].series
            &&& after.runs[run].hparams == project.runs[run].hparams
        }),
    decreases paths.len(),
{
    if paths.len() > 0 {
        lemma_stamped(project, paths.drop_last(), tails, run);
    }
}

/// A vanished event file drops its whole run: the run, what is held of it, and
/// its other files. A run none of whose files vanished keeps its series and
/// what is held of them.
pub proof fn law_vanished_files_drop_their_run(
    project: ProjectModel,
    tails: Map<Seq<char>, TailModel>,
    path: Seq<char>,
    run: Seq<char>,
    key: Key,
)
    requires
        project.files.dom().finite(),
        key.0 == run,
    ensures
        ({
            let after = project.swept(tails);
            &&& project.files.dom().contains(path) && project.files[path].run == run && tail_of(
                tails,
                path,
            ).stat == Stat::Gone ==> !after.runs.dom().contains(run)
                && !after.points.dom().contains(key) && !after.histograms.dom().contains(key)
                && forall|other: Seq<char>| #[trigger]
                after.files.dom().contains(other) ==> after.files[other].run != run
            &&& (forall|other: Seq<char>| #[trigger]
                project.files.dom().contains(other) && project.files[other].run == run ==> tail_of(
                    tails,
                    other,
                ).stat != Stat::Gone) ==> (after.runs.dom().contains(run)
                == project.runs.dom().contains(run)) && after.runs[run].series
                == project.runs[run].series && (after.points.dom().contains(key)
                == project.points.dom().contains(key)) && (project.points.dom().contains(key)
                ==> after.points[key] == project.points[key])
        }),
{
    let paths = sorted(project.files.dom());
    lemma_sorted(project.files.dom());
    let stamped = project.all_stamped(paths, tails);
    lemma_stamped(project, paths, tails, run);
    lemma_vanished(project, paths, tails, run);
    let runs = project.vanished(paths, tails);
    lemma_without_runs(stamped, runs, run, key);
    if project.files.dom().contains(path) && project.files[path].run == run && tail_of(
        tails,
        path,
    ).stat == Stat::Gone {
        assert(paths.contains(path));
        let i = choose|i: int| 0 <= i < paths.len() && paths[i] == path;
        assert(paths[i] == path);
        assert(runs.contains(run));
    }
    if forall|other: Seq<char>| #[trigger]
        project.files.dom().contains(other) && project.files[other].run == run ==> tail_of(
            tails,
            other,
        ).stat != Stat::Gone {
        if runs.contains(run) {
            let i = choose|i: int|
                0 <= i < paths.len() && project.files[#[trigger] paths[i]].run == run && tail_of(
                    tails,
                    paths[i],
                ).stat == Stat::Gone;
            assert(paths.contains(paths[i]));
            assert(project.files.dom().contains(paths[i]));
        }
    }
}

/// The losses of a pass are added to those before; nothing else changes.
pub proof fn law_losses_add_up(project: ProjectModel)
    requires
        project.dropped_records + project.report.dropped_records <= u64::MAX,
        project.dead_files + project.report.dead_files <= u64::MAX,
    ensures
        project.accounted() == (ProjectModel {
            dropped_records: (project.dropped_records + project.report.dropped_records) as u64,
            dead_files: (project.dead_files + project.report.dead_files) as u64,
            ..project
        }),
{
}

/// A path is lost where it was known and is not wanted any more.
pub proof fn law_lost_paths(wanted: Seq<Seq<char>>, paths: Seq<Seq<char>>, path: Seq<char>)
    ensures
        lost(wanted, paths).contains(path) <==> paths.contains(path) && !wanted.contains(path),
    decreases paths.len(),
{
    let list = lost(wanted, paths);
    if paths.len() > 0 {
        let init = paths.drop_last();
        let before = lost(wanted, init);
        law_lost_paths(wanted, init, path);
        assert(paths[paths.len() - 1] == paths.last());
        if init.contains(path) {
            let k = choose|k: int| 0 <= k < init.len() && init[k] == path;
            assert(paths[k] == path);
        }
        if paths.contains(path) && path != paths.last() {
            let k = choose|k: int| 0 <= k < paths.len() && paths[k] == path;
            assert(init[k] == path);
        }
        if before.contains(path) {
            let k = choose|k: int| 0 <= k < before.len() && before[k] == path;
            assert(list[k] == path);
        }
        if !wanted.contains(paths.last()) {
            assert(list[before.len() as int] == paths.last());
        }
        if list.contains(path) && !before.contains(path) {
            let k = choose|k: int| 0 <= k < list.len() && list[k] == path;
            if k < before.len() {
                assert(before[k] == path);
            }
        }
    }
}

/// A root that is gone takes its run and what is held of it along, and leaves
/// the other runs.
pub proof fn law_gone_roots_take_their_run(
    project: ProjectModel,
    path: Seq<char>,
    other: Seq<char>,
    key: Key,
)
    ensures
        ({
            let run = project.dvclive[path].run;
            let after = project.without_dvclive(path);
            &&& !after.dvclive.dom().contains(path) && !after.runs.dom().contains(run)
            &&& key.0 == run ==> !after.points.dom().contains(key)
            &&& key.0 != run && project.points.dom().contains(key) ==> after.points.dom().contains(
                key,
            ) && after.points[key] == project.points[key]
            &&& other != run && project.runs.dom().contains(other) ==> after.runs.dom().contains(
                other,
            ) && after.runs[other] == project.runs[other]
        }),
        ({
            let run = project.mlflow[path].run;
            let after = project.without_mlflow(path);
            &&& !after.mlflow.dom().contains(path) && !after.runs.dom().contains(run)
            &&& key.0 == run ==> !after.points.dom().contains(key)
            &&& key.0 != run && project.points.dom().contains(key) ==> after.points.dom().contains(
                key,
            ) && after.points[key] == project.points[key]
            &&& other != run && project.runs.dom().contains(other) ==> after.runs.dom().contains(
                other,
            ) && after.runs[other] == project.runs[other]
        }),
        ({
            let run = project.wandb[path].run;
            let after = project.without_wandb(path);
            &&& !after.wandb.dom().contains(path) && !after.runs.dom().contains(run)
            &&& key.0 == run ==> !after.points.dom().contains(key)
            &&& key.0 != run && project.points.dom().contains(key) ==> after.points.dom().contains(
                key,
            ) && after.points[key] == project.points[key]
            &&& other != run && project.runs.dom().contains(other) ==> after.runs.dom().contains(
                other,
            ) && after.runs[other] == project.runs[other]
        }),
{
}

/// The holder of a run is the first path that owns it.
pub proof fn law_holder_is_the_first_owner(
    paths: Seq<Seq<char>>,
    owners: Map<Seq<char>, Seq<char>>,
    run: Seq<char>,
    at: int,
)
    requires
        0 <= at < paths.len(),
        owners[paths[at]] == run,
        forall|i: int| 0 <= i < at ==> owners[#[trigger] paths[i]] != run,
    ensures
        holder(paths, owners, run) == Some(paths[at]),
    decreases paths.len(),
{
    if at > 0 {
        assert(owners[paths[0]] != run);
        let rest = paths.skip(1);
        assert forall|i: int| 0 <= i < at - 1 implies owners[#[trigger] rest[i]] != run by {
            assert(rest[i] == paths[i + 1]);
        }
        law_holder_is_the_first_owner(rest, owners, run, at - 1);
    }
}

/// Of two series that are held, the one that was looked at longer ago makes
/// room first.
pub proof fn law_older_series_make_room(a: Key, x: u64, b: Key, y: u64)
    ensures
        x < y ==> older(a, x, b, y) && !older(b, y, a, x),
        x == y && text_before(a.0, b.0) ==> older(a, x, b, y),
        x == y && a.0 == b.0 && text_before(a.1, b.1) ==> older(a, x, b, y),
{
}

/// A series that is looked at is held from then on. Where there is no room, one
/// other goes, and none was looked at longer ago; where there is room, none
/// goes.
pub proof fn law_looked_at_longest_ago_goes<A>(
    before: Map<Key, (A, u64)>,
    after: Map<Key, (A, u64)>,
    key: Key,
    item: A,
    clock: u64,
    cap: nat,
    one: Key,
    other: Key,
)
    requires
        shelved(before, after, key, item, clock, cap),
        before.dom().contains(one),
        before.dom().contains(other),
        one != key,
        other != key,
        one != other,
    ensures
        after.dom().contains(key) && after[key] == (item, clock),
        before.dom().len() < cap ==> after.dom().contains(one) && after[one] == before[one],
        !after.dom().contains(one) ==> after.dom().contains(other) && after[other]
            == before[other] && before[one].1 <= before[other].1,
{
    if before.dom().len() >= cap {
        let gone = choose|gone: Key| #[trigger]
            oldest_of(before, gone) && after == before.remove(gone).insert(key, (item, clock));
        if !after.dom().contains(one) {
            assert(gone == one);
            assert(before.dom().contains(other) && other != gone);
        }
    }
}

/// What is held of a run goes with it, and nothing else does.
pub proof fn law_shelf_without_a_run<A>(model: Map<Key, A>, run: Seq<char>, key: Key)
    ensures
        key.0 == run ==> !without_run(model, run).dom().contains(key),
        key.0 != run ==> (without_run(model, run).dom().contains(key) == model.dom().contains(key))
            && (model.dom().contains(key) ==> without_run(model, run)[key] == model[key]),
{
}

/// A file is saved for a warm start exactly where its run has no dead file, up
/// to what was taken in of it.
pub proof fn law_live_files_are_saved(
    files: Map<Seq<char>, LogModel>,
    paths: Seq<Seq<char>>,
    path: Seq<char>,
)
    ensures
        live_files(files, paths).contains((path, files[path].run, files[path].committed))
            <==> paths.contains(path) && !has_dead_file(files, files[path].run),
    decreases paths.len(),
{
    let entry = (path, files[path].run, files[path].committed);
    let list = live_files(files, paths);
    if paths.len() > 0 {
        let init = paths.drop_last();
        let before = live_files(files, init);
        law_live_files_are_saved(files, init, path);
        let last = paths.last();
        assert(paths[paths.len() - 1] == last);
        if init.contains(path) {
            let k = choose|k: int| 0 <= k < init.len() && init[k] == path;
            assert(paths[k] == path);
        }
        if paths.contains(path) && path != last {
            let k = choose|k: int| 0 <= k < paths.len() && paths[k] == path;
            assert(init[k] == path);
        }
        if before.contains(entry) {
            let k = choose|k: int| 0 <= k < before.len() && before[k] == entry;
            assert(list[k] == entry);
        }
        if !has_dead_file(files, files[last].run) {
            assert(list[before.len() as int] == (last, files[last].run, files[last].committed));
        }
        if list.contains(entry) && !before.contains(entry) {
            let k = choose|k: int| 0 <= k < list.len() && list[k] == entry;
            if k < before.len() {
                assert(before[k] == entry);
            }
        }
    }
}

/// A file of a run is read again up to what was taken in of it, where
/// something was.
pub proof fn law_event_frontiers(
    files: Map<Seq<char>, LogModel>,
    paths: Seq<Seq<char>>,
    run: Seq<char>,
    path: Seq<char>,
)
    ensures
        event_frontiers(files, paths, run).contains((path, files[path].committed))
            <==> paths.contains(path) && files[path].run == run && files[path].committed > 0,
    decreases paths.len(),
{
    let entry = (path, files[path].committed);
    let list = event_frontiers(files, paths, run);
    if paths.len() > 0 {
        let init = paths.drop_last();
        let before = event_frontiers(files, init, run);
        law_event_frontiers(files, init, run, path);
        let last = paths.last();
        assert(paths[paths.len() - 1] == last);
        if init.contains(path) {
            let k = choose|k: int| 0 <= k < init.len() && init[k] == path;
            assert(paths[k] == path);
        }
        if paths.contains(path) && path != last {
            let k = choose|k: int| 0 <= k < paths.len() && paths[k] == path;
            assert(init[k] == path);
        }
        if before.contains(entry) {
            let k = choose|k: int| 0 <= k < before.len() && before[k] == entry;
            assert(list[k] == entry);
        }
        if files[last].run == run && files[last].committed > 0 {
            assert(list[before.len() as int] == (last, files[last].committed));
        }
        if list.contains(entry) && !before.contains(entry) {
            let k = choose|k: int| 0 <= k < list.len() && list[k] == entry;
            if k < before.len() {
                assert(before[k] == entry);
            }
        }
    }
}

/// A name below a directory stands behind a slash.
proof fn lemma_below(dir: Seq<char>, name: Seq<char>)
    requires
        dir.len() > 0,
        dir.last() != '/',
    ensures
        joined(dir, name) == dir + seq!['/'] + name,
{
    assert(dir.push('/') =~= dir + seq!['/']);
}

/// Where the trackers keep the series of a tag: a dvclive root in a table under
/// `plots/metrics`, an MLflow run in a file under `metrics`.
pub proof fn law_series_have_their_files(root: Seq<char>, tag: Seq<char>)
    requires
        root.len() > 0,
        root.last() != '/',
    ensures
        tsv_path(root, tag) == root + seq!['/'] + "plots"@ + seq!['/'] + "metrics"@ + seq!['/'] + (
        tag + ".tsv"@),
        metric_path(root, tag) == root + seq!['/'] + "metrics"@ + seq!['/'] + tag,
{
    reveal_strlit("plots");
    reveal_strlit("metrics");
    assert("plots"@.last() == 's' && "metrics"@.last() == 's');
    lemma_below(root, "plots"@);
    let a = joined(root, "plots"@);
    assert(a.last() == 's');
    lemma_below(a, "metrics"@);
    let b = joined(a, "metrics"@);
    assert(b.last() == 's');
    lemma_below(b, tag + ".tsv"@);
    lemma_below(root, "metrics"@);
    let c = joined(root, "metrics"@);
    assert(c.last() == 's');
    lemma_below(c, tag);
}

/// The front of bytes up to a frontier: no byte behind it, and every one
/// before.
pub proof fn law_frontiers_bound_what_is_read(bytes: Seq<u8>, frontier: u64)
    ensures
        upto(bytes, frontier).len() <= frontier,
        upto(bytes, frontier).len() <= bytes.len(),
        upto(bytes, frontier) == bytes.take(upto(bytes, frontier).len() as int),
        frontier >= bytes.len() ==> upto(bytes, frontier) == bytes,
        frontier < bytes.len() ==> upto(bytes, frontier).len() == frontier,
{
    assert(bytes.take(bytes.len() as int) =~= bytes);
}

/// A watched point is the last of its series; every other series stays.
pub proof fn law_watched_points_are_kept(
    runs: Watched,
    run: Seq<char>,
    tag: Seq<char>,
    step: u64,
    value: u64,
    other: Seq<char>,
)
    requires
        other != tag,
    ensures
        ({
            let after = with_scalar(runs, run, tag, step, value);
            let series = after[run][tag];
            &&& after.dom().contains(run) && after[run].dom().contains(tag)
            &&& series.steps.last() == step && series.values.last() == value
            &&& runs.dom().contains(run) && runs[run].dom().contains(tag) ==> series.steps
                == runs[run][tag].steps.push(step) && series.values == runs[run][tag].values.push(
                value,
            )
            &&& !(runs.dom().contains(run) && runs[run].dom().contains(tag)) ==> series.steps.len()
                == 1 && series.values.len() == 1
            &&& runs.dom().contains(run) ==> (after[run].dom().contains(other)
                == runs[run].dom().contains(other)) && after[run][other] == runs[run][other]
            &&& other != run ==> (after.dom().contains(other) == runs.dom().contains(other))
                && after[other] == runs[other]
        }),
{
}

/// A root that is new gets a run of its own, under its name or one near it
/// that no run has, and is read from the start; a root that is known stays.
pub proof fn law_new_roots_get_a_run(
    project: ProjectModel,
    dvclive: DvcliveRootModel,
    mlflow: MlflowRootModel,
    wandb: WandbRootModel,
    other: Seq<char>,
)
    requires
        project.runs.dom().finite(),
    ensures
        ({
            let after = project.with_dvclive(dvclive);
            let state = after.dvclive[dvclive.path];
            &&& project.dvclive.dom().contains(dvclive.path) ==> after == project
            &&& !project.dvclive.dom().contains(dvclive.path) ==> {
                &&& after.dvclive.dom().contains(dvclive.path)
                &&& !project.runs.dom().contains(state.run) && after.runs.dom().contains(state.run)
                &&& !project.runs.dom().contains(dvclive.name) ==> state.run == dvclive.name
                &&& after.runs[state.run].backend == Backend::Dvclive && after.runs[state.run].dir
                    == dvclive.dir
                &&& state.offsets.dom().len() == 0 && state.params_mtime is None
                &&& after.report == project.report
            }
            &&& project.runs.dom().contains(other) ==> after.runs.dom().contains(other)
                && after.runs[other] == project.runs[other]
        }),
        ({
            let after = project.with_mlflow(mlflow);
            let state = after.mlflow[mlflow.path];
            &&& project.mlflow.dom().contains(mlflow.path) ==> after == project
            &&& !project.mlflow.dom().contains(mlflow.path) ==> {
                &&& after.mlflow.dom().contains(mlflow.path)
                &&& !project.runs.dom().contains(state.run) && after.runs.dom().contains(state.run)
                &&& !project.runs.dom().contains(mlflow.name) ==> state.run == mlflow.name
                &&& after.runs[state.run].backend == Backend::Mlflow && after.runs[state.run].dir
                    == mlflow.path
                &&& state.offsets.dom().len() == 0 && state.params_seen.dom().len() == 0
                &&& after.report == project.report
            }
            &&& project.runs.dom().contains(other) ==> after.runs.dom().contains(other)
                && after.runs[other] == project.runs[other]
        }),
        ({
            let after = project.with_wandb(wandb);
            let state = after.wandb[wandb.path];
            &&& project.wandb.dom().contains(wandb.path) ==> after == project
            &&& !project.wandb.dom().contains(wandb.path) ==> {
                &&& after.wandb.dom().contains(wandb.path)
                &&& !project.runs.dom().contains(state.run) && after.runs.dom().contains(state.run)
                &&& !project.runs.dom().contains(wandb.name) ==> state.run == wandb.name
                &&& after.runs[state.run].backend == Backend::Wandb && after.runs[state.run].dir
                    == wandb.dir
                &&& state.offset == 0 && !state.dead
                &&& project.report.new_files < u64::MAX ==> after.report.new_files
                    == project.report.new_files + 1
            }
            &&& project.runs.dom().contains(other) ==> after.runs.dom().contains(other)
                && after.runs[other] == project.runs[other]
        }),
{
    law_fresh_name_is_free(project.runs.dom(), dvclive.name);
    law_fresh_name_is_free(project.runs.dom(), mlflow.name);
    law_fresh_name_is_free(project.runs.dom(), wandb.name);
}

impl<
    F: Fn(&str) -> Option<u64>,
    G: Fn(u64) -> u64,
    H: Fn(Moments, u64) -> Moments,
> Numeric<F, G, H> {
    /// Draining a file or a root changes its own run, and no other; a file
    /// whose run is gone is left alone.
    pub proof fn law_draining_keeps_to_its_run(
        self,
        project: ProjectModel,
        path: Seq<char>,
        tails: Map<Seq<char>, TailModel>,
        other: Seq<char>,
    )
        requires
            other != project.files[path].run,
        ensures
            ({
                let after = self.drain_file(project, path, tails);
                &&& after.runs.dom().contains(other) == project.runs.dom().contains(other)
                &&& after.runs[other] == project.runs[other]
                &&& !project.runs.dom().contains(project.files[path].run) ==> after == project
                &&& after.cached == project.cached && after.dvclive == project.dvclive
                    && after.mlflow == project.mlflow && after.wandb == project.wandb
            }),
    {
    }

    /// A run log that was rewritten shorter is read from its start, into a run
    /// without series; a dead one is not read; one of another form dies, and
    /// is counted.
    pub proof fn law_run_logs_are_read_on(
        self,
        intake: Intake,
        state: WandbStateModel,
        log: LogFileModel,
    )
        ensures
            state.dead ==> self.drain_wandb(intake, state, Some(log)) == (intake, state),
            self.drain_wandb(intake, state, None) == (intake, state),
            !state.dead && log.len >= state.offset && state.offset > 0 ==> self.drain_wandb(
                intake,
                state,
                Some(log),
            ) == self.take_log(intake.written(log.mtime), state, state.offset, log.tail),
            !state.dead && log.len < state.offset && log.tail.len() < 7 ==> self.drain_wandb(
                intake,
                state,
                Some(log),
            ) == (
                intake.written(log.mtime).reset(state.run),
                (WandbStateModel { offset: 0, ..state }),
            ),
            !state.dead && state.offset == 0 && log.tail.len() >= 7 && header_error(
                log.tail.take(7),
            ) is Some ==> self.drain_wandb(intake, state, Some(log)) == (
                intake.written(log.mtime).died(),
                (WandbStateModel { dead: true, ..state }),
            ),
            !state.dead && state.offset == 0 && log.tail.len() >= 7 && header_error(
                log.tail.take(7),
            ) is None ==> self.drain_wandb(intake, state, Some(log)) == self.take_log(
                intake.written(log.mtime),
                state,
                7,
                log.tail.skip(7),
            ),
    {
    }

    /// An event's wall time is seen by its run whatever it holds; a record
    /// that does not decode is counted as lost, and changes nothing else.
    pub proof fn law_events_are_seen(
        self,
        intake: Intake,
        name: Seq<char>,
        event: EventModel,
        data: Seq<u8>,
    )
        ensures
            event.payload !is Summary ==> self.take_event(intake, name, event) == (Intake {
                run: intake.run.walled(event.wall_time),
                ..intake
            }),
            event_of(data) is Err ==> self.take_record(intake, name, data) == intake.dropped(),
            event_of(data) == Ok::<EventModel, DecodeError>(event) ==> self.take_record(
                intake,
                name,
                data,
            ) == self.take_event(intake, name, event),
            intake.dropped().run == intake.run && intake.dropped().points == intake.points,
            intake.report.dropped_records < u64::MAX ==> intake.dropped().report.dropped_records
                == intake.report.dropped_records + 1,
    {
    }
}

impl<O: Fn(Operation, u64, u64) -> u64, I: Fn(i64) -> u64> Arith<O, I> {
    /// A watched scalar is among the tags seen; where its tag holds the filter
    /// it is the last point of its series, and counted. What is no scalar is
    /// passed over.
    pub proof fn law_watched_values(
        self,
        catch: Catch,
        run: Seq<char>,
        filter: Seq<char>,
        step: i64,
        value: ValueModel,
    )
        requires
            catch.appended < u64::MAX,
        ensures
            ({
                let after = self.watch_value(catch, run, filter, step, value);
                &&& value.scalar() is None ==> after == catch
                &&& value.scalar() matches Some(bits) ==> {
                    &&& after.seen.contains(value.tag)
                    &&& after.dropped == catch.dropped && after.dead == catch.dead
                    &&& !within(value.tag, filter) ==> after.runs == catch.runs && after.appended
                        == catch.appended
                    &&& within(value.tag, filter) ==> after.appended == catch.appended + 1
                        && after.runs == with_scalar(
                        catch.runs,
                        run,
                        value.tag,
                        self.number(step),
                        bits,
                    )
                }
            }),
    {
    }
}

} // verus!
