//! The first pass over a run: it is opened and drained in one, and is in step
//! with its files from then on.
use vstd::prelude::*;

use crate::backends::{DvcliveModel, MlflowModel, WandbStateModel};
use crate::drain::LogModel;
use crate::event_runs::{
    lemma_framed_start, lemma_nothing_in, lemma_strung_nothing, points_of_file, snapshots_of_file,
    strung,
};
use crate::frontier::grown;
use crate::frontier_laws::{
    all_there, beside, dvclive_read, file_read, files_grown, files_read, found_only, framed_at,
    held, is_finite, is_home, is_of, is_openable, lemma_lost, lemma_openable, lemma_opened_beside,
    lives_in, mlflow_read, wandb_read, Contents, Home,
};
use crate::materialize_laws::{has_scalar, law_only_the_last_file_grows};
use crate::names::{in_order, lemma_sorted, sorted};
use crate::naming::law_fresh_name_is_free;
use crate::numeric::{Moments, Numeric};
use crate::project::{
    contents_of, dvclive_paths, lost, materialized, mlflow_paths, tail_of, tainted, wandb_paths,
    DiskModel, DvcliveRootModel, MlflowRootModel, ProjectModel, SourceModel, TailModel,
    WandbRootModel,
};
use crate::project_laws::segments_of;
use crate::run::{marks_hparams, RefreshReport};
use crate::series::PointsModel;
use crate::shelf::Key;

verus! {

/// A project has nothing of a run: not the run, no file of it, and nothing
/// held.
pub open spec fn nothing_of(project: ProjectModel, run: Seq<char>) -> bool {
    &&& !project.runs.dom().contains(run)
    &&& forall|path: Seq<char>| #[trigger]
        project.files.dom().contains(path) ==> project.files[path].run != run
    &&& forall|path: Seq<char>| #[trigger]
        project.dvclive.dom().contains(path) ==> project.dvclive[path].run != run
    &&& forall|path: Seq<char>| #[trigger]
        project.mlflow.dom().contains(path) ==> project.mlflow[path].run != run
    &&& forall|path: Seq<char>| #[trigger]
        project.wandb.dom().contains(path) ==> project.wandb[path].run != run
    &&& forall|path: Seq<char>| #[trigger]
        project.cached.dom().contains(path) ==> project.cached[path].run != run
    &&& forall|key: Key| key.0 == run ==> !#[trigger] project.points.dom().contains(key)
    &&& forall|key: Key| key.0 == run ==> !#[trigger] project.histograms.dom().contains(key)
}

/// Event files that are not under reading yet.
pub open spec fn all_new(project: ProjectModel, paths: Seq<Seq<char>>) -> bool {
    forall|i: int|
        0 <= i < paths.len() ==> !project.files.dom().contains(#[trigger] paths[i])
            && !project.cached.dom().contains(paths[i])
}

/// A home that is not under reading yet.
pub open spec fn is_new(project: ProjectModel, home: Home) -> bool {
    match home {
        Home::Events(paths) => all_new(project, paths),
        Home::Dvclive(root) => !project.dvclive.dom().contains(root),
        Home::Mlflow(root) => !project.mlflow.dom().contains(root),
        Home::Wandb(path) => !project.wandb.dom().contains(path),
    }
}

/// A pass finds a new home, and reads its files from the start to what they
/// hold. Of event files one at least can be opened.
pub open spec fn read_from_start(
    disk: DiskModel,
    run: Seq<char>,
    tag: Seq<char>,
    home: Home,
    later: Contents,
) -> bool {
    let now = held(home, tag, later);
    &&& found_only(disk.events, run, home)
    &&& match home {
        Home::Events(paths) => {
            &&& in_order(paths)
            &&& any_openable(disk.events, paths)
            &&& all_there(paths, disk.tails)
            &&& forall|i: int|
                0 <= i < paths.len() ==> {
                    let path = #[trigger] paths[i];
                    if is_openable(disk.events, path) {
                        file_read(
                            LogModel::start(run, 0),
                            disk.tails,
                            path,
                            contents_of(later, path),
                        )
                    } else {
                        contents_of(later, path).len() == 0
                    }
                }
        },
        Home::Dvclive(root) => dvclive_read(
            DvcliveModel::start(run),
            disk.dvclive,
            root,
            tag,
            now,
        ) && dvclive_paths(disk.dvclive).contains(root),
        Home::Mlflow(root) => mlflow_read(MlflowModel::start(run), disk.mlflow, root, tag, now)
            && mlflow_paths(disk.mlflow).contains(root),
        Home::Wandb(path) => wandb_read(WandbStateModel::start(run), disk.wandb, path, tag, now)
            && wandb_paths(disk.wandb).contains(path),
    }
}

/// One of the paths can be opened.
pub open spec fn any_openable(sources: Seq<SourceModel>, paths: Seq<Seq<char>>) -> bool {
    exists|i: int| 0 <= i < paths.len() && is_openable(sources, #[trigger] paths[i])
}

proof fn lemma_nothing_cached(project: ProjectModel, run: Seq<char>, runs: Seq<Seq<char>>)
    requires
        is_finite(project),
        nothing_of(project, run),
    ensures
        ({
            let after = project.without_cached_runs(runs);
            &&& is_finite(after)
            &&& nothing_of(after, run)
            &&& after.cached.dom().subset_of(project.cached.dom())
            &&& after.files == project.files
            &&& after.dvclive == project.dvclive
            &&& after.mlflow == project.mlflow
            &&& after.wandb == project.wandb
        }),
    decreases runs.len(),
{
    if runs.len() > 0 {
        lemma_nothing_cached(project, run, runs.drop_last());
        let before = project.without_cached_runs(runs.drop_last());
        let after = project.without_cached_runs(runs);
        assert(after.cached.dom().subset_of(before.cached.dom()));
        vstd::set_lib::lemma_set_subset_finite(before.cached.dom(), after.cached.dom());
    }
}

/// Opening files of other runs opens nothing of a run.
proof fn lemma_nothing_opened(project: ProjectModel, run: Seq<char>, sources: Seq<SourceModel>)
    requires
        is_finite(project),
        nothing_of(project, run),
        forall|i: int| 0 <= i < sources.len() ==> (#[trigger] sources[i]).run != run,
    ensures
        ({
            let after = project.all_opened(sources);
            &&& is_finite(after)
            &&& nothing_of(after, run)
            &&& after.dvclive == project.dvclive
            &&& after.mlflow == project.mlflow
            &&& after.wandb == project.wandb
        }),
    decreases sources.len(),
{
    if sources.len() > 0 {
        let front = sources.drop_last();
        assert forall|i: int| 0 <= i < front.len() implies (#[trigger] front[i]).run != run by {
            assert(front[i] == sources[i]);
        }
        lemma_nothing_opened(project, run, front);
        let before = project.all_opened(front);
        let source = sources.last();
        assert(sources[sources.len() - 1] == source);
        let after = before.opened(source);
        if source.opened && !before.files.dom().contains(source.path) {
            assert(after.files.dom() =~= before.files.dom().insert(source.path));
            assert(after.cached.dom() =~= before.cached.dom().remove(source.path));
        }
    }
}

proof fn lemma_nothing_swept(
    project: ProjectModel,
    run: Seq<char>,
    tails: Map<Seq<char>, TailModel>,
)
    requires
        is_finite(project),
        nothing_of(project, run),
    ensures
        ({
            let after = project.swept(tails);
            &&& is_finite(after)
            &&& nothing_of(after, run)
            &&& after.dvclive == project.dvclive
            &&& after.mlflow == project.mlflow
            &&& after.wandb == project.wandb
        }),
{
    let paths = sorted(project.files.dom());
    lemma_nothing_stamped(project, run, paths, tails);
    lemma_nothing_removed(
        project.all_stamped(paths, tails),
        run,
        project.vanished(paths, tails),
    );
}

proof fn lemma_nothing_stamped(
    project: ProjectModel,
    run: Seq<char>,
    paths: Seq<Seq<char>>,
    tails: Map<Seq<char>, TailModel>,
)
    requires
        is_finite(project),
        nothing_of(project, run),
    ensures
        ({
            let after = project.all_stamped(paths, tails);
            &&& after == (ProjectModel { runs: after.runs, ..project })
            &&& after.runs.dom() == project.runs.dom()
        }),
    decreases paths.len(),
{
    if paths.len() > 0 {
        lemma_nothing_stamped(project, run, paths.drop_last(), tails);
        let after = project.all_stamped(paths, tails);
        assert(after.runs.dom() =~= project.runs.dom());
    }
}

proof fn lemma_nothing_removed(project: ProjectModel, run: Seq<char>, runs: Seq<Seq<char>>)
    requires
        is_finite(project),
        nothing_of(project, run),
    ensures
        ({
            let after = project.without_runs(runs);
            &&& is_finite(after)
            &&& nothing_of(after, run)
            &&& after.dvclive == project.dvclive
            &&& after.mlflow == project.mlflow
            &&& after.wandb == project.wandb
        }),
    decreases runs.len(),
{
    if runs.len() > 0 {
        lemma_nothing_removed(project, run, runs.drop_last());
        let before = project.without_runs(runs.drop_last());
        let after = project.without_runs(runs);
        assert(after.files.dom().subset_of(before.files.dom()));
        vstd::set_lib::lemma_set_subset_finite(before.files.dom(), after.files.dom());
    }
}

impl<
    F: Fn(&str) -> Option<u64>,
    G: Fn(u64) -> u64,
    H: Fn(Moments, u64) -> Moments,
> Numeric<F, G, H> {
    proof fn lemma_nothing_drained(
        self,
        project: ProjectModel,
        run: Seq<char>,
        paths: Seq<Seq<char>>,
        tails: Map<Seq<char>, TailModel>,
    )
        requires
            is_finite(project),
            nothing_of(project, run),
            forall|i: int|
                0 <= i < paths.len() ==> project.files.dom().contains(#[trigger] paths[i]),
        ensures
            ({
                let after = self.drain_files(project, paths, tails);
                &&& is_finite(after)
                &&& nothing_of(after, run)
                &&& after.files.dom() == project.files.dom()
                &&& after.dvclive == project.dvclive
                &&& after.mlflow == project.mlflow
                &&& after.wandb == project.wandb
            }),
        decreases paths.len(),
    {
        if paths.len() > 0 {
            let front = paths.drop_last();
            assert forall|i: int| 0 <= i < front.len() implies project.files.dom().contains(
                #[trigger] front[i],
            ) by {
                assert(front[i] == paths[i]);
            }
            self.lemma_nothing_drained(project, run, front, tails);
            let before = self.drain_files(project, front, tails);
            let path = paths.last();
            assert(paths[paths.len() - 1] == path);
            let log = before.files[path];
            let after = self.drain_file(before, path, tails);
            if before.runs.dom().contains(log.run) {
                let tail = tail_of(tails, path);
                self.lemma_log_apart(before.intake(log.run), log, tail.bytes, tail.failed);
                assert(after.files.dom() =~= before.files.dom());
                assert(after.runs.dom() =~= before.runs.dom());
            }
        }
    }

    /// The event files of a pass bring nothing of a run that has none.
    proof fn lemma_nothing_pass_events(
        self,
        project: ProjectModel,
        run: Seq<char>,
        disk: DiskModel,
    )
        requires
            is_finite(project),
            nothing_of(project, run),
            forall|i: int| 0 <= i < disk.events.len() ==> (#[trigger] disk.events[i]).run != run,
        ensures
            ({
                let after = self.pass_events(project, disk);
                &&& is_finite(after)
                &&& nothing_of(after, run)
                &&& after.dvclive == project.dvclive
                &&& after.mlflow == project.mlflow
                &&& after.wandb == project.wandb
            }),
    {
        lemma_nothing_cached(
            project,
            run,
            tainted(project.cached, disk.events, sorted(project.cached.dom())),
        );
        let valid = project.validated(disk.events);
        lemma_nothing_opened(valid, run, disk.events);
        let opened = valid.all_opened(disk.events);
        let paths = sorted(opened.files.dom());
        lemma_sorted(opened.files.dom());
        assert forall|i: int| 0 <= i < paths.len() implies opened.files.dom().contains(
            #[trigger] paths[i],
        ) by {
            assert(paths.contains(paths[i]));
        }
        self.lemma_nothing_drained(opened, run, paths, disk.tails);
        lemma_nothing_swept(self.drain_files(opened, paths, disk.tails), run, disk.tails);
    }

    /// The first event file of a run is opened in step with nothing.
    #[verifier::spinoff_prover]
    proof fn lemma_first_opened(
        self,
        project: ProjectModel,
        run: Seq<char>,
        tag: Seq<char>,
        paths: Seq<Seq<char>>,
        source: SourceModel,
    )
        requires
            is_finite(project),
            nothing_of(project, run),
            all_new(project, paths),
            in_order(paths),
            source.run == run,
            source.opened,
            paths.contains(source.path),
        ensures
            ({
                let after = project.opened(source);
                &&& self.settled(after, run, tag, Home::Events(paths), Map::empty())
                &&& after.files.dom() == project.files.dom().insert(source.path)
                &&& after.files[source.path] == LogModel::start(run, 0)
            }),
    {
        let home = Home::Events(paths);
        let nothing = Map::<Seq<char>, Seq<u8>>::empty();
        let after = project.opened(source);
        let key = (run, tag);
        let k = choose|k: int| 0 <= k < paths.len() && paths[k] == source.path;
        assert(!project.files.dom().contains(paths[k]));
        assert(after.files.dom() =~= project.files.dom().insert(source.path));
        assert(after.cached.dom() =~= project.cached.dom().remove(source.path));
        assert forall|path: Seq<char>| #[trigger]
            after.files.dom().contains(path) && paths.contains(path) implies after.files[path].run
            == run by {
            let i = choose|i: int| 0 <= i < paths.len() && paths[i] == path;
            assert(!project.files.dom().contains(paths[i]));
        }
        assert forall|path: Seq<char>| #[trigger]
            after.cached.dom().contains(path) implies !paths.contains(path) by {
            if paths.contains(path) {
                let i = choose|i: int| 0 <= i < paths.len() && paths[i] == path;
                assert(!project.cached.dom().contains(paths[i]));
            }
        }
        assert(lives_in(after, run, home));
        assert forall|i: int| 0 <= i < paths.len() implies framed_at(
            after,
            #[trigger] paths[i],
            nothing,
        ) by {
            lemma_framed_start(run, contents_of(nothing, paths[i]));
        }
        assert(!after.points.dom().contains(key));
        assert(!after.histograms.dom().contains(key));
        if !marks_hparams(tag) {
            assert forall|i: int| 0 <= i < paths.len() implies points_of_file(nothing, tag)(
                #[trigger] paths[i],
            ).len() == 0 && snapshots_of_file(nothing, tag)(paths[i]).len() == 0 by {
                lemma_nothing_in(nothing, tag, paths[i]);
            }
            lemma_strung_nothing(paths, points_of_file(nothing, tag));
            lemma_strung_nothing(paths, snapshots_of_file(nothing, tag));
        }
    }

    /// The new event files of a run are opened in step with nothing.
    proof fn lemma_new_files_opened(
        self,
        project: ProjectModel,
        run: Seq<char>,
        tag: Seq<char>,
        paths: Seq<Seq<char>>,
        sources: Seq<SourceModel>,
    )
        requires
            is_finite(project),
            nothing_of(project, run),
            all_new(project, paths),
            in_order(paths),
            found_only(sources, run, Home::Events(paths)),
        ensures
            ({
                let after = project.all_opened(sources);
                &&& if any_openable(sources, paths) {
                    self.settled(after, run, tag, Home::Events(paths), Map::empty())
                } else {
                    &&& is_finite(after)
                    &&& nothing_of(after, run)
                    &&& all_new(after, paths)
                }
                &&& forall|path: Seq<char>|
                    paths.contains(path) ==> (#[trigger] after.files.dom().contains(path)
                        == is_openable(sources, path)) && (after.files.dom().contains(path)
                        ==> after.files[path] == LogModel::start(run, 0))
            }),
        decreases sources.len(),
    {
        let home = Home::Events(paths);
        let nothing = Map::<Seq<char>, Seq<u8>>::empty();
        if sources.len() == 0 {
            assert forall|path: Seq<char>| paths.contains(path) implies !(
            #[trigger] project.files.dom().contains(path)) by {
                let i = choose|i: int| 0 <= i < paths.len() && paths[i] == path;
                assert(!project.files.dom().contains(paths[i]));
            }
            assert forall|path: Seq<char>| !is_openable(sources, path) by {}
        } else {
            let front = sources.drop_last();
            let source = sources.last();
            assert(sources[sources.len() - 1] == source);
            assert(found_only(front, run, home)) by {
                assert forall|i: int| 0 <= i < front.len() implies ((#[trigger] front[i]).run
                    == run <==> is_of(home, front[i].path)) by {
                    assert(front[i] == sources[i]);
                }
            }
            assert(source.run == run <==> is_of(home, source.path));
            assert forall|path: Seq<char>| is_openable(sources, path) == (is_openable(front, path)
                || (source.path == path && source.opened)) by {
                lemma_openable(sources, path);
            }
            self.lemma_new_files_opened(project, run, tag, paths, front);
            let before = project.all_opened(front);
            let after = before.opened(source);
            if any_openable(front, paths) {
                let i = choose|i: int|
                    0 <= i < paths.len() && is_openable(front, #[trigger] paths[i]);
                assert(is_openable(sources, paths[i]));
                if source.run == run {
                    self.lemma_own_opened(before, run, tag, home, nothing, source);
                } else {
                    lemma_opened_beside(before, run, home, source);
                    self.lemma_beside_settled(before, after, run, tag, home, nothing);
                }
            } else if source.run == run && source.opened {
                let i = choose|i: int| 0 <= i < paths.len() && paths[i] == source.path;
                assert(is_openable(sources, paths[i]));
                self.lemma_first_opened(before, run, tag, paths, source);
            } else {
                lemma_nothing_opened_one(before, run, paths, source);
                if any_openable(sources, paths) {
                    let i = choose|i: int|
                        0 <= i < paths.len() && is_openable(sources, #[trigger] paths[i]);
                    assert(is_openable(front, paths[i]));
                }
            }
            assert forall|path: Seq<char>| paths.contains(path) implies (
            #[trigger] after.files.dom().contains(path) == is_openable(sources, path)) && (
            after.files.dom().contains(path) ==> after.files[path] == LogModel::start(
                run,
                0,
            )) by {
                assert(before.files.dom().contains(path) == is_openable(front, path));
            }
        }
    }

    /// The first pass over event files.
    proof fn lemma_first_pass_events(
        self,
        project: ProjectModel,
        run: Seq<char>,
        tag: Seq<char>,
        paths: Seq<Seq<char>>,
        later: Contents,
        disk: DiskModel,
    )
        requires
            is_finite(project),
            nothing_of(project, run),
            all_new(project, paths),
            read_from_start(disk, run, tag, Home::Events(paths), later),
        ensures
            self.settled(self.pass_events(project, disk), run, tag, Home::Events(paths), later),
    {
        let nothing = Map::<Seq<char>, Seq<u8>>::empty();
        lemma_nothing_cached(
            project,
            run,
            tainted(project.cached, disk.events, sorted(project.cached.dom())),
        );
        let valid = project.validated(disk.events);
        assert(all_new(valid, paths)) by {
            assert forall|i: int| 0 <= i < paths.len() implies !valid.files.dom().contains(
                #[trigger] paths[i],
            ) && !valid.cached.dom().contains(paths[i]) by {
                assert(!project.files.dom().contains(paths[i]));
            }
        }
        self.lemma_new_files_opened(valid, run, tag, paths, disk.events);
        let opened = valid.all_opened(disk.events);
        assert(files_read(opened, paths, disk.tails, later)) by {
            assert forall|i: int| 0 <= i < paths.len() implies {
                let path = #[trigger] paths[i];
                if opened.files.dom().contains(path) {
                    file_read(opened.files[path], disk.tails, path, contents_of(later, path))
                } else {
                    contents_of(later, path).len() == 0
                }
            } by {
                assert(paths.contains(paths[i]));
                assert(opened.files.dom().contains(paths[i]) == is_openable(
                    disk.events,
                    paths[i],
                ));
            }
        }
        assert(files_grown(paths, nothing, later)) by {
            assert forall|i: int| 0 <= i < paths.len() implies grown(
                contents_of(nothing, #[trigger] paths[i]),
                contents_of(later, paths[i]),
            ) by {
                assert(contents_of(later, paths[i]).take(0) =~= Seq::<u8>::empty());
            }
        }
        law_only_the_last_file_grows(paths, tag, nothing, later, -1);
        self.lemma_files_drained(opened, run, tag, paths, nothing, later, disk.tails);
    }
}

/// Opening another run's file, or none, opens nothing of a run.
proof fn lemma_nothing_opened_one(
    project: ProjectModel,
    run: Seq<char>,
    paths: Seq<Seq<char>>,
    source: SourceModel,
)
    requires
        is_finite(project),
        nothing_of(project, run),
        all_new(project, paths),
        !source.opened || (source.run != run && !paths.contains(source.path)),
    ensures
        ({
            let after = project.opened(source);
            &&& is_finite(after)
            &&& nothing_of(after, run)
            &&& all_new(after, paths)
        }),
{
    let after = project.opened(source);
    if source.opened && !project.files.dom().contains(source.path) {
        assert(after.files.dom() =~= project.files.dom().insert(source.path));
        assert(after.cached.dom() =~= project.cached.dom().remove(source.path));
        assert forall|i: int| 0 <= i < paths.len() implies !after.files.dom().contains(
            #[trigger] paths[i],
        ) && !after.cached.dom().contains(paths[i]) by {
            assert(paths.contains(paths[i]));
            assert(!project.files.dom().contains(paths[i]));
        }
    }
}

/// Whether a name is still free is open: either a run has it, or nothing has.
pub open spec fn undecided(project: ProjectModel, run: Seq<char>) -> bool {
    is_finite(project) && (project.runs.dom().contains(run) || nothing_of(project, run))
}

/// The paths that are gone are different ones, and known.
proof fn lemma_gone(known: Set<Seq<char>>, found: Seq<Seq<char>>)
    requires
        known.finite(),
    ensures
        lost(found, sorted(known)).no_duplicates(),
        forall|i: int|
            0 <= i < lost(found, sorted(known)).len() ==> known.contains(
                #[trigger] lost(found, sorted(known))[i],
            ),
{
    let paths = sorted(known);
    lemma_sorted(known);
    lemma_lost(found, paths);
    let gone = lost(found, paths);
    assert forall|i: int| 0 <= i < gone.len() implies known.contains(#[trigger] gone[i]) by {
        assert(paths.contains(gone[i]));
    }
}

/// No dvclive root is of a run.
pub open spec fn dvclive_free(project: ProjectModel, run: Seq<char>) -> bool {
    forall|path: Seq<char>| #[trigger]
        project.dvclive.dom().contains(path) ==> project.dvclive[path].run != run
}

proof fn lemma_removed_dvclive(
    project: ProjectModel,
    run: Seq<char>,
    paths: Seq<Seq<char>>,
)
    requires
        undecided(project, run),
        dvclive_free(project, run),
        paths.no_duplicates(),
        forall|i: int| 0 <= i < paths.len() ==> project.dvclive.dom().contains(#[trigger] paths[i]),
    ensures
        ({
            let after = project.without_all_dvclive(paths);
            &&& undecided(after, run)
            &&& dvclive_free(after, run)
            &&& after.dvclive.dom().subset_of(project.dvclive.dom())
            &&& after.files == project.files
            &&& after.mlflow == project.mlflow
            &&& after.wandb == project.wandb
            &&& forall|path: Seq<char>|
                project.dvclive.dom().contains(path) && !paths.contains(path)
                    ==> #[trigger] after.dvclive.dom().contains(path)
        }),
    decreases paths.len(),
{
    if paths.len() > 0 {
        let front = paths.drop_last();
        let last = paths.last();
        assert(paths[paths.len() - 1] == last);
        assert forall|i: int| 0 <= i < front.len() implies project.dvclive.dom().contains(
            #[trigger] front[i],
        ) by {
            assert(front[i] == paths[i]);
        }
        lemma_removed_dvclive(project, run, front);
        let before = project.without_all_dvclive(front);
        assert(!front.contains(last)) by {
            if front.contains(last) {
                let i = choose|i: int| 0 <= i < front.len() && front[i] == last;
                assert(paths[i] == last);
            }
        }
        assert(before.dvclive.dom().contains(last));
        let after = project.without_all_dvclive(paths);
        assert(after.dvclive.dom() =~= before.dvclive.dom().remove(last));
        assert forall|path: Seq<char>|
            project.dvclive.dom().contains(path) && !paths.contains(path) implies
            #[trigger] after.dvclive.dom().contains(path) by {
            assert(!front.contains(path)) by {
                if front.contains(path) {
                    let i = choose|i: int| 0 <= i < front.len() && front[i] == path;
                    assert(paths[i] == path);
                }
            }
            assert(before.dvclive.dom().contains(path));
        }
    }
}

impl<
    F: Fn(&str) -> Option<u64>,
    G: Fn(u64) -> u64,
    H: Fn(Moments, u64) -> Moments,
> Numeric<F, G, H> {
    proof fn lemma_undecided_dvclive(
        self,
        project: ProjectModel,
        run: Seq<char>,
        root: DvcliveRootModel,
    )
        requires
            undecided(project, run),
        ensures
            ({
                let after = self.sync_dvclive(project, root);
                &&& undecided(after, run)
                &&& after.dvclive.dom() == project.dvclive.dom().insert(root.path)
                &&& after.dvclive[root.path].run
                    == project.with_dvclive(root).dvclive[root.path].run
                &&& forall|path: Seq<char>|
                    path != root.path && project.dvclive.dom().contains(path)
                        ==> #[trigger] after.dvclive[path] == project.dvclive[path]
                &&& after.files == project.files
                &&& after.mlflow == project.mlflow
                &&& after.wandb == project.wandb
            }),
    {
        let named = project.with_dvclive(root);
        let state = named.dvclive[root.path];
        let after = self.sync_dvclive(project, root);
        law_fresh_name_is_free(project.runs.dom(), root.name);
        assert(named.dvclive.dom() =~= project.dvclive.dom().insert(root.path));
        assert(undecided(named, run));
        if named.runs.dom().contains(state.run) {
            self.lemma_dvclive_apart(named.intake(state.run), state, root);
            assert(after.dvclive.dom() =~= named.dvclive.dom());
            assert(after.runs.dom() =~= named.runs.dom());
            if !named.runs.dom().contains(run) {
                assert(nothing_of(named, run));
                assert(nothing_of(after, run));
            }
        }
    }

    proof fn lemma_undecided_all_dvclive(
        self,
        project: ProjectModel,
        run: Seq<char>,
        roots: Seq<DvcliveRootModel>,
    )
        requires
            undecided(project, run),
        ensures
            ({
                let after = self.sync_all_dvclive(project, roots);
                &&& undecided(after, run)
                &&& after.files == project.files
                &&& after.mlflow == project.mlflow
                &&& after.wandb == project.wandb
                &&& forall|path: Seq<char>| #[trigger]
                    after.dvclive.dom().contains(path) ==> project.dvclive.dom().contains(path)
                        || dvclive_paths(roots).contains(path)
            }),
        decreases roots.len(),
    {
        if roots.len() > 0 {
            let front = roots.drop_last();
            self.lemma_undecided_all_dvclive(project, run, front);
            let before = self.sync_all_dvclive(project, front);
            self.lemma_undecided_dvclive(before, run, roots.last());
            let after = self.sync_all_dvclive(project, roots);
            assert forall|path: Seq<char>| #[trigger] after.dvclive.dom().contains(path) implies
                project.dvclive.dom().contains(path) || dvclive_paths(roots).contains(path) by {
                if path == roots.last().path {
                    assert(dvclive_paths(roots)[roots.len() - 1] == path);
                } else {
                    assert(before.dvclive.dom().contains(path));
                    if dvclive_paths(front).contains(path) {
                        let i = choose|i: int|
                            0 <= i < front.len() && dvclive_paths(front)[i] == path;
                        assert(dvclive_paths(roots)[i] == path);
                    }
                }
            }
        }
    }

    /// The dvclive roots of a pass leave it open whether a name is free.
    proof fn lemma_undecided_pass_dvclive(
        self,
        project: ProjectModel,
        run: Seq<char>,
        roots: Seq<DvcliveRootModel>,
    )
        requires
            undecided(project, run),
            dvclive_free(project, run),
        ensures
            ({
                let after = self.pass_dvclive(project, roots);
                &&& undecided(after, run)
                &&& after.files == project.files
                &&& after.mlflow == project.mlflow
                &&& after.wandb == project.wandb
            }),
    {
        let gone = lost(dvclive_paths(roots), sorted(project.dvclive.dom()));
        lemma_gone(project.dvclive.dom(), dvclive_paths(roots));
        lemma_removed_dvclive(project, run, gone);
        self.lemma_undecided_all_dvclive(project.without_all_dvclive(gone), run, roots);
    }

    proof fn lemma_first_all_dvclive(
        self,
        project: ProjectModel,
        run: Seq<char>,
        tag: Seq<char>,
        path: Seq<char>,
        later: Contents,
        roots: Seq<DvcliveRootModel>,
    )
        requires
            undecided(project, run),
            !project.dvclive.dom().contains(path),
            dvclive_read(
                DvcliveModel::start(run),
                roots,
                path,
                tag,
                held(Home::Dvclive(path), tag, later),
            ),
        ensures
            ({
                let after = self.sync_all_dvclive(project, roots);
                &&& undecided(after, run)
                &&& if dvclive_paths(roots).contains(path) {
                    &&& after.dvclive.dom().contains(path)
                    &&& after.dvclive[path].run == run ==> self.settled(
                        after,
                        run,
                        tag,
                        Home::Dvclive(path),
                        later,
                    )
                } else {
                    !after.dvclive.dom().contains(path)
                }
            }),
        decreases roots.len(),
    {
        let home = Home::Dvclive(path);
        self.lemma_undecided_all_dvclive(project, run, roots);
        if roots.len() > 0 {
            let front = roots.drop_last();
            let last = roots.last();
            assert(roots[roots.len() - 1] == last);
            assert(dvclive_read(
                DvcliveModel::start(run),
                front,
                path,
                tag,
                held(Home::Dvclive(path), tag, later),
            )) by {
                assert forall|i: int, j: int|
                    0 <= i < j < front.len() && (#[trigger] front[i]).path == path implies (
                #[trigger] front[j]).path != path by {
                    assert(front[i] == roots[i] && front[j] == roots[j]);
                }
                assert forall|i: int|
                    0 <= i < front.len() && (#[trigger] front[i]).path == path implies
                    crate::frontier_laws::dvclive_root_read(
                    DvcliveModel::start(run),
                    front[i],
                    tag,
                    held(home, tag, later),
                ) by {
                    assert(front[i] == roots[i]);
                }
            }
            assert(dvclive_paths(roots).contains(path) == (dvclive_paths(front).contains(path)
                || last.path == path)) by {
                if dvclive_paths(front).contains(path) {
                    let i = choose|i: int| 0 <= i < front.len() && dvclive_paths(front)[i] == path;
                    assert(dvclive_paths(roots)[i] == path);
                }
                if last.path == path {
                    assert(dvclive_paths(roots)[roots.len() - 1] == path);
                }
                if dvclive_paths(roots).contains(path) && last.path != path {
                    let i = choose|i: int| 0 <= i < roots.len() && dvclive_paths(roots)[i] == path;
                    assert(dvclive_paths(front)[i] == path);
                }
            }
            self.lemma_first_all_dvclive(project, run, tag, path, later, front);
            let before = self.sync_all_dvclive(project, front);
            let after = self.sync_all_dvclive(project, roots);
            self.lemma_undecided_dvclive(before, run, last);
            if last.path == path {
                assert(!dvclive_paths(front).contains(path)) by {
                    if dvclive_paths(front).contains(path) {
                        let i = choose|i: int|
                            0 <= i < front.len() && dvclive_paths(front)[i] == path;
                        assert(roots[i].path == path);
                    }
                }
                let named = before.with_dvclive(last);
                law_fresh_name_is_free(before.runs.dom(), last.name);
                if named.dvclive[path].run == run {
                    assert(nothing_of(before, run));
                    assert(named.dvclive.dom() =~= before.dvclive.dom().insert(path));
                    assert(lives_in(named, run, home));
                    self.lemma_dvclive_start(named, run, tag, path);
                    assert(named.with_dvclive(last) == named);
                    assert(held(home, tag, later).take(0) =~= Seq::<u8>::empty());
                    self.lemma_sync_own_dvclive(named, run, tag, last, Map::empty(), later);
                    assert(self.sync_dvclive(named, last) == after);
                }
            } else if dvclive_paths(front).contains(path) {
                assert(after.dvclive[path] == before.dvclive[path]);
                if before.dvclive[path].run == run {
                    self.lemma_sync_dvclive_beside(before, run, home, last);
                    self.lemma_beside_settled(before, after, run, tag, home, later);
                }
            }
        }
    }

    proof fn lemma_dvclive_start(
        self,
        project: ProjectModel,
        run: Seq<char>,
        tag: Seq<char>,
        path: Seq<char>,
    )
        requires
            lives_in(project, run, Home::Dvclive(path)),
            project.dvclive[path] == DvcliveModel::start(run),
            !project.runs[run].series.dom().contains(tag),
            !project.points.dom().contains((run, tag)),
        ensures
            self.settled(project, run, tag, Home::Dvclive(path), Map::empty()),
    {
        let nothing = Seq::<u8>::empty();
        assert(nothing.take(0) =~= nothing);
        assert(crate::text::text_of(nothing) =~= Seq::<char>::empty());
        assert(crate::text::lines_of(crate::text::text_of(nothing)) =~= Seq::<Seq<char>>::empty());
        assert(vstd::utf8::valid_utf8(nothing));
    }

    /// The first pass over a new dvclive root: if its run gets a name, it is in step
    /// under it.
    proof fn lemma_first_pass_dvclive(
        self,
        project: ProjectModel,
        run: Seq<char>,
        tag: Seq<char>,
        path: Seq<char>,
        later: Contents,
        roots: Seq<DvcliveRootModel>,
    )
        requires
            undecided(project, run),
            dvclive_free(project, run),
            !project.dvclive.dom().contains(path),
            dvclive_read(
                DvcliveModel::start(run),
                roots,
                path,
                tag,
                held(Home::Dvclive(path), tag, later),
            ),
            dvclive_paths(roots).contains(path),
        ensures
            ({
                let after = self.pass_dvclive(project, roots);
                &&& undecided(after, run)
                &&& after.dvclive.dom().contains(path)
                &&& after.dvclive[path].run == run ==> self.settled(
                    after,
                    run,
                    tag,
                    Home::Dvclive(path),
                    later,
                )
                &&& after.mlflow == project.mlflow
                &&& after.wandb == project.wandb
            }),
    {
        let gone = lost(dvclive_paths(roots), sorted(project.dvclive.dom()));
        lemma_gone(project.dvclive.dom(), dvclive_paths(roots));
        lemma_removed_dvclive(project, run, gone);
        let left = project.without_all_dvclive(gone);
        self.lemma_undecided_all_dvclive(left, run, roots);
        self.lemma_first_all_dvclive(left, run, tag, path, later, roots);
    }
}

/// No MLflow run is of a run.
pub open spec fn mlflow_free(project: ProjectModel, run: Seq<char>) -> bool {
    forall|path: Seq<char>| #[trigger]
        project.mlflow.dom().contains(path) ==> project.mlflow[path].run != run
}

proof fn lemma_removed_mlflow(
    project: ProjectModel,
    run: Seq<char>,
    paths: Seq<Seq<char>>,
)
    requires
        undecided(project, run),
        mlflow_free(project, run),
        paths.no_duplicates(),
        forall|i: int| 0 <= i < paths.len() ==> project.mlflow.dom().contains(#[trigger] paths[i]),
    ensures
        ({
            let after = project.without_all_mlflow(paths);
            &&& undecided(after, run)
            &&& mlflow_free(after, run)
            &&& after.mlflow.dom().subset_of(project.mlflow.dom())
            &&& after.files == project.files
            &&& after.dvclive == project.dvclive
            &&& after.wandb == project.wandb
            &&& forall|path: Seq<char>|
                project.mlflow.dom().contains(path) && !paths.contains(path)
                    ==> #[trigger] after.mlflow.dom().contains(path)
        }),
    decreases paths.len(),
{
    if paths.len() > 0 {
        let front = paths.drop_last();
        let last = paths.last();
        assert(paths[paths.len() - 1] == last);
        assert forall|i: int| 0 <= i < front.len() implies project.mlflow.dom().contains(
            #[trigger] front[i],
        ) by {
            assert(front[i] == paths[i]);
        }
        lemma_removed_mlflow(project, run, front);
        let before = project.without_all_mlflow(front);
        assert(!front.contains(last)) by {
            if front.contains(last) {
                let i = choose|i: int| 0 <= i < front.len() && front[i] == last;
                assert(paths[i] == last);
            }
        }
        assert(before.mlflow.dom().contains(last));
        let after = project.without_all_mlflow(paths);
        assert(after.mlflow.dom() =~= before.mlflow.dom().remove(last));
        assert forall|path: Seq<char>|
            project.mlflow.dom().contains(path) && !paths.contains(path) implies
            #[trigger] after.mlflow.dom().contains(path) by {
            assert(!front.contains(path)) by {
                if front.contains(path) {
                    let i = choose|i: int| 0 <= i < front.len() && front[i] == path;
                    assert(paths[i] == path);
                }
            }
            assert(before.mlflow.dom().contains(path));
        }
    }
}

impl<
    F: Fn(&str) -> Option<u64>,
    G: Fn(u64) -> u64,
    H: Fn(Moments, u64) -> Moments,
> Numeric<F, G, H> {
    proof fn lemma_undecided_mlflow(
        self,
        project: ProjectModel,
        run: Seq<char>,
        root: MlflowRootModel,
    )
        requires
            undecided(project, run),
        ensures
            ({
                let after = self.sync_mlflow(project, root);
                &&& undecided(after, run)
                &&& after.mlflow.dom() == project.mlflow.dom().insert(root.path)
                &&& after.mlflow[root.path].run
                    == project.with_mlflow(root).mlflow[root.path].run
                &&& forall|path: Seq<char>|
                    path != root.path && project.mlflow.dom().contains(path)
                        ==> #[trigger] after.mlflow[path] == project.mlflow[path]
                &&& after.files == project.files
                &&& after.dvclive == project.dvclive
                &&& after.wandb == project.wandb
            }),
    {
        let named = project.with_mlflow(root);
        let state = named.mlflow[root.path];
        let after = self.sync_mlflow(project, root);
        law_fresh_name_is_free(project.runs.dom(), root.name);
        assert(named.mlflow.dom() =~= project.mlflow.dom().insert(root.path));
        assert(undecided(named, run));
        if named.runs.dom().contains(state.run) {
            self.lemma_mlflow_apart(named.intake(state.run), state, root);
            assert(after.mlflow.dom() =~= named.mlflow.dom());
            assert(after.runs.dom() =~= named.runs.dom());
            if !named.runs.dom().contains(run) {
                assert(nothing_of(named, run));
                assert(nothing_of(after, run));
            }
        }
    }

    proof fn lemma_undecided_all_mlflow(
        self,
        project: ProjectModel,
        run: Seq<char>,
        roots: Seq<MlflowRootModel>,
    )
        requires
            undecided(project, run),
        ensures
            ({
                let after = self.sync_all_mlflow(project, roots);
                &&& undecided(after, run)
                &&& after.files == project.files
                &&& after.dvclive == project.dvclive
                &&& after.wandb == project.wandb
                &&& forall|path: Seq<char>| #[trigger]
                    after.mlflow.dom().contains(path) ==> project.mlflow.dom().contains(path)
                        || mlflow_paths(roots).contains(path)
            }),
        decreases roots.len(),
    {
        if roots.len() > 0 {
            let front = roots.drop_last();
            self.lemma_undecided_all_mlflow(project, run, front);
            let before = self.sync_all_mlflow(project, front);
            self.lemma_undecided_mlflow(before, run, roots.last());
            let after = self.sync_all_mlflow(project, roots);
            assert forall|path: Seq<char>| #[trigger] after.mlflow.dom().contains(path) implies
                project.mlflow.dom().contains(path) || mlflow_paths(roots).contains(path) by {
                if path == roots.last().path {
                    assert(mlflow_paths(roots)[roots.len() - 1] == path);
                } else {
                    assert(before.mlflow.dom().contains(path));
                    if mlflow_paths(front).contains(path) {
                        let i = choose|i: int|
                            0 <= i < front.len() && mlflow_paths(front)[i] == path;
                        assert(mlflow_paths(roots)[i] == path);
                    }
                }
            }
        }
    }

    /// The MLflow runs of a pass leave it open whether a name is free.
    proof fn lemma_undecided_pass_mlflow(
        self,
        project: ProjectModel,
        run: Seq<char>,
        roots: Seq<MlflowRootModel>,
    )
        requires
            undecided(project, run),
            mlflow_free(project, run),
        ensures
            ({
                let after = self.pass_mlflow(project, roots);
                &&& undecided(after, run)
                &&& after.files == project.files
                &&& after.dvclive == project.dvclive
                &&& after.wandb == project.wandb
            }),
    {
        let gone = lost(mlflow_paths(roots), sorted(project.mlflow.dom()));
        lemma_gone(project.mlflow.dom(), mlflow_paths(roots));
        lemma_removed_mlflow(project, run, gone);
        self.lemma_undecided_all_mlflow(project.without_all_mlflow(gone), run, roots);
    }

    proof fn lemma_first_all_mlflow(
        self,
        project: ProjectModel,
        run: Seq<char>,
        tag: Seq<char>,
        path: Seq<char>,
        later: Contents,
        roots: Seq<MlflowRootModel>,
    )
        requires
            undecided(project, run),
            !project.mlflow.dom().contains(path),
            mlflow_read(
                MlflowModel::start(run),
                roots,
                path,
                tag,
                held(Home::Mlflow(path), tag, later),
            ),
        ensures
            ({
                let after = self.sync_all_mlflow(project, roots);
                &&& undecided(after, run)
                &&& if mlflow_paths(roots).contains(path) {
                    &&& after.mlflow.dom().contains(path)
                    &&& after.mlflow[path].run == run ==> self.settled(
                        after,
                        run,
                        tag,
                        Home::Mlflow(path),
                        later,
                    )
                } else {
                    !after.mlflow.dom().contains(path)
                }
            }),
        decreases roots.len(),
    {
        let home = Home::Mlflow(path);
        self.lemma_undecided_all_mlflow(project, run, roots);
        if roots.len() > 0 {
            let front = roots.drop_last();
            let last = roots.last();
            assert(roots[roots.len() - 1] == last);
            assert(mlflow_read(
                MlflowModel::start(run),
                front,
                path,
                tag,
                held(Home::Mlflow(path), tag, later),
            )) by {
                assert forall|i: int, j: int|
                    0 <= i < j < front.len() && (#[trigger] front[i]).path == path implies (
                #[trigger] front[j]).path != path by {
                    assert(front[i] == roots[i] && front[j] == roots[j]);
                }
                assert forall|i: int|
                    0 <= i < front.len() && (#[trigger] front[i]).path == path implies
                    crate::frontier_laws::mlflow_root_read(
                    MlflowModel::start(run),
                    front[i],
                    tag,
                    held(home, tag, later),
                ) by {
                    assert(front[i] == roots[i]);
                }
            }
            assert(mlflow_paths(roots).contains(path) == (mlflow_paths(front).contains(path)
                || last.path == path)) by {
                if mlflow_paths(front).contains(path) {
                    let i = choose|i: int| 0 <= i < front.len() && mlflow_paths(front)[i] == path;
                    assert(mlflow_paths(roots)[i] == path);
                }
                if last.path == path {
                    assert(mlflow_paths(roots)[roots.len() - 1] == path);
                }
                if mlflow_paths(roots).contains(path) && last.path != path {
                    let i = choose|i: int| 0 <= i < roots.len() && mlflow_paths(roots)[i] == path;
                    assert(mlflow_paths(front)[i] == path);
                }
            }
            self.lemma_first_all_mlflow(project, run, tag, path, later, front);
            let before = self.sync_all_mlflow(project, front);
            let after = self.sync_all_mlflow(project, roots);
            self.lemma_undecided_mlflow(before, run, last);
            if last.path == path {
                assert(!mlflow_paths(front).contains(path)) by {
                    if mlflow_paths(front).contains(path) {
                        let i = choose|i: int|
                            0 <= i < front.len() && mlflow_paths(front)[i] == path;
                        assert(roots[i].path == path);
                    }
                }
                let named = before.with_mlflow(last);
                law_fresh_name_is_free(before.runs.dom(), last.name);
                if named.mlflow[path].run == run {
                    assert(nothing_of(before, run));
                    assert(named.mlflow.dom() =~= before.mlflow.dom().insert(path));
                    assert(lives_in(named, run, home));
                    self.lemma_mlflow_start(named, run, tag, path);
                    assert(named.with_mlflow(last) == named);
                    assert(held(home, tag, later).take(0) =~= Seq::<u8>::empty());
                    self.lemma_sync_own_mlflow(named, run, tag, last, Map::empty(), later);
                    assert(self.sync_mlflow(named, last) == after);
                }
            } else if mlflow_paths(front).contains(path) {
                assert(after.mlflow[path] == before.mlflow[path]);
                if before.mlflow[path].run == run {
                    self.lemma_sync_mlflow_beside(before, run, home, last);
                    self.lemma_beside_settled(before, after, run, tag, home, later);
                }
            }
        }
    }

    proof fn lemma_mlflow_start(
        self,
        project: ProjectModel,
        run: Seq<char>,
        tag: Seq<char>,
        path: Seq<char>,
    )
        requires
            lives_in(project, run, Home::Mlflow(path)),
            project.mlflow[path] == MlflowModel::start(run),
            !project.runs[run].series.dom().contains(tag),
            !project.points.dom().contains((run, tag)),
        ensures
            self.settled(project, run, tag, Home::Mlflow(path), Map::empty()),
    {
        let nothing = Seq::<u8>::empty();
        assert(nothing.take(0) =~= nothing);
        assert(crate::text::text_of(nothing) =~= Seq::<char>::empty());
        assert(crate::text::lines_of(crate::text::text_of(nothing)) =~= Seq::<Seq<char>>::empty());
    }

    /// The first pass over a new MLflow run: if its run gets a name, it is in step
    /// under it.
    proof fn lemma_first_pass_mlflow(
        self,
        project: ProjectModel,
        run: Seq<char>,
        tag: Seq<char>,
        path: Seq<char>,
        later: Contents,
        roots: Seq<MlflowRootModel>,
    )
        requires
            undecided(project, run),
            mlflow_free(project, run),
            !project.mlflow.dom().contains(path),
            mlflow_read(
                MlflowModel::start(run),
                roots,
                path,
                tag,
                held(Home::Mlflow(path), tag, later),
            ),
            mlflow_paths(roots).contains(path),
        ensures
            ({
                let after = self.pass_mlflow(project, roots);
                &&& undecided(after, run)
                &&& after.mlflow.dom().contains(path)
                &&& after.mlflow[path].run == run ==> self.settled(
                    after,
                    run,
                    tag,
                    Home::Mlflow(path),
                    later,
                )
                &&& after.dvclive == project.dvclive
                &&& after.wandb == project.wandb
            }),
    {
        let gone = lost(mlflow_paths(roots), sorted(project.mlflow.dom()));
        lemma_gone(project.mlflow.dom(), mlflow_paths(roots));
        lemma_removed_mlflow(project, run, gone);
        let left = project.without_all_mlflow(gone);
        self.lemma_undecided_all_mlflow(left, run, roots);
        self.lemma_first_all_mlflow(left, run, tag, path, later, roots);
    }
}

/// No wandb log is of a run.
pub open spec fn wandb_free(project: ProjectModel, run: Seq<char>) -> bool {
    forall|path: Seq<char>| #[trigger]
        project.wandb.dom().contains(path) ==> project.wandb[path].run != run
}

proof fn lemma_removed_wandb(
    project: ProjectModel,
    run: Seq<char>,
    paths: Seq<Seq<char>>,
)
    requires
        undecided(project, run),
        wandb_free(project, run),
        paths.no_duplicates(),
        forall|i: int| 0 <= i < paths.len() ==> project.wandb.dom().contains(#[trigger] paths[i]),
    ensures
        ({
            let after = project.without_all_wandb(paths);
            &&& undecided(after, run)
            &&& wandb_free(after, run)
            &&& after.wandb.dom().subset_of(project.wandb.dom())
            &&& after.files == project.files
            &&& after.dvclive == project.dvclive
            &&& after.mlflow == project.mlflow
            &&& forall|path: Seq<char>|
                project.wandb.dom().contains(path) && !paths.contains(path)
                    ==> #[trigger] after.wandb.dom().contains(path)
        }),
    decreases paths.len(),
{
    if paths.len() > 0 {
        let front = paths.drop_last();
        let last = paths.last();
        assert(paths[paths.len() - 1] == last);
        assert forall|i: int| 0 <= i < front.len() implies project.wandb.dom().contains(
            #[trigger] front[i],
        ) by {
            assert(front[i] == paths[i]);
        }
        lemma_removed_wandb(project, run, front);
        let before = project.without_all_wandb(front);
        assert(!front.contains(last)) by {
            if front.contains(last) {
                let i = choose|i: int| 0 <= i < front.len() && front[i] == last;
                assert(paths[i] == last);
            }
        }
        assert(before.wandb.dom().contains(last));
        let after = project.without_all_wandb(paths);
        assert(after.wandb.dom() =~= before.wandb.dom().remove(last));
        assert forall|path: Seq<char>|
            project.wandb.dom().contains(path) && !paths.contains(path) implies
            #[trigger] after.wandb.dom().contains(path) by {
            assert(!front.contains(path)) by {
                if front.contains(path) {
                    let i = choose|i: int| 0 <= i < front.len() && front[i] == path;
                    assert(paths[i] == path);
                }
            }
            assert(before.wandb.dom().contains(path));
        }
    }
}

impl<
    F: Fn(&str) -> Option<u64>,
    G: Fn(u64) -> u64,
    H: Fn(Moments, u64) -> Moments,
> Numeric<F, G, H> {
    proof fn lemma_undecided_wandb(
        self,
        project: ProjectModel,
        run: Seq<char>,
        root: WandbRootModel,
    )
        requires
            undecided(project, run),
        ensures
            ({
                let after = self.sync_wandb(project, root);
                &&& undecided(after, run)
                &&& after.wandb.dom() == project.wandb.dom().insert(root.path)
                &&& after.wandb[root.path].run
                    == project.with_wandb(root).wandb[root.path].run
                &&& forall|path: Seq<char>|
                    path != root.path && project.wandb.dom().contains(path)
                        ==> #[trigger] after.wandb[path] == project.wandb[path]
                &&& after.files == project.files
                &&& after.dvclive == project.dvclive
                &&& after.mlflow == project.mlflow
            }),
    {
        let named = project.with_wandb(root);
        let state = named.wandb[root.path];
        let after = self.sync_wandb(project, root);
        law_fresh_name_is_free(project.runs.dom(), root.name);
        assert(named.wandb.dom() =~= project.wandb.dom().insert(root.path));
        assert(undecided(named, run));
        if named.runs.dom().contains(state.run) {
            self.lemma_wandb_apart(named.intake(state.run), state, root);
            assert(after.wandb.dom() =~= named.wandb.dom());
            assert(after.runs.dom() =~= named.runs.dom());
            if !named.runs.dom().contains(run) {
                assert(nothing_of(named, run));
                assert(nothing_of(after, run));
            }
        }
    }

    proof fn lemma_undecided_all_wandb(
        self,
        project: ProjectModel,
        run: Seq<char>,
        roots: Seq<WandbRootModel>,
    )
        requires
            undecided(project, run),
        ensures
            ({
                let after = self.sync_all_wandb(project, roots);
                &&& undecided(after, run)
                &&& after.files == project.files
                &&& after.dvclive == project.dvclive
                &&& after.mlflow == project.mlflow
                &&& forall|path: Seq<char>| #[trigger]
                    after.wandb.dom().contains(path) ==> project.wandb.dom().contains(path)
                        || wandb_paths(roots).contains(path)
            }),
        decreases roots.len(),
    {
        if roots.len() > 0 {
            let front = roots.drop_last();
            self.lemma_undecided_all_wandb(project, run, front);
            let before = self.sync_all_wandb(project, front);
            self.lemma_undecided_wandb(before, run, roots.last());
            let after = self.sync_all_wandb(project, roots);
            assert forall|path: Seq<char>| #[trigger] after.wandb.dom().contains(path) implies
                project.wandb.dom().contains(path) || wandb_paths(roots).contains(path) by {
                if path == roots.last().path {
                    assert(wandb_paths(roots)[roots.len() - 1] == path);
                } else {
                    assert(before.wandb.dom().contains(path));
                    if wandb_paths(front).contains(path) {
                        let i = choose|i: int|
                            0 <= i < front.len() && wandb_paths(front)[i] == path;
                        assert(wandb_paths(roots)[i] == path);
                    }
                }
            }
        }
    }

    /// The wandb logs of a pass leave it open whether a name is free.
    proof fn lemma_undecided_pass_wandb(
        self,
        project: ProjectModel,
        run: Seq<char>,
        roots: Seq<WandbRootModel>,
    )
        requires
            undecided(project, run),
            wandb_free(project, run),
        ensures
            ({
                let after = self.pass_wandb(project, roots);
                &&& undecided(after, run)
                &&& after.files == project.files
                &&& after.dvclive == project.dvclive
                &&& after.mlflow == project.mlflow
            }),
    {
        let gone = lost(wandb_paths(roots), sorted(project.wandb.dom()));
        lemma_gone(project.wandb.dom(), wandb_paths(roots));
        lemma_removed_wandb(project, run, gone);
        self.lemma_undecided_all_wandb(project.without_all_wandb(gone), run, roots);
    }

    proof fn lemma_first_all_wandb(
        self,
        project: ProjectModel,
        run: Seq<char>,
        tag: Seq<char>,
        path: Seq<char>,
        later: Contents,
        roots: Seq<WandbRootModel>,
    )
        requires
            undecided(project, run),
            !project.wandb.dom().contains(path),
            wandb_read(
                WandbStateModel::start(run),
                roots,
                path,
                tag,
                held(Home::Wandb(path), tag, later),
            ),
        ensures
            ({
                let after = self.sync_all_wandb(project, roots);
                &&& undecided(after, run)
                &&& if wandb_paths(roots).contains(path) {
                    &&& after.wandb.dom().contains(path)
                    &&& after.wandb[path].run == run ==> self.settled(
                        after,
                        run,
                        tag,
                        Home::Wandb(path),
                        later,
                    )
                } else {
                    !after.wandb.dom().contains(path)
                }
            }),
        decreases roots.len(),
    {
        let home = Home::Wandb(path);
        self.lemma_undecided_all_wandb(project, run, roots);
        if roots.len() > 0 {
            let front = roots.drop_last();
            let last = roots.last();
            assert(roots[roots.len() - 1] == last);
            assert(wandb_read(
                WandbStateModel::start(run),
                front,
                path,
                tag,
                held(Home::Wandb(path), tag, later),
            )) by {
                assert forall|i: int, j: int|
                    0 <= i < j < front.len() && (#[trigger] front[i]).path == path implies (
                #[trigger] front[j]).path != path by {
                    assert(front[i] == roots[i] && front[j] == roots[j]);
                }
                assert forall|i: int|
                    0 <= i < front.len() && (#[trigger] front[i]).path == path implies
                    crate::frontier_laws::wandb_root_read(
                    WandbStateModel::start(run),
                    front[i],
                    tag,
                    held(home, tag, later),
                ) by {
                    assert(front[i] == roots[i]);
                }
            }
            assert(wandb_paths(roots).contains(path) == (wandb_paths(front).contains(path)
                || last.path == path)) by {
                if wandb_paths(front).contains(path) {
                    let i = choose|i: int| 0 <= i < front.len() && wandb_paths(front)[i] == path;
                    assert(wandb_paths(roots)[i] == path);
                }
                if last.path == path {
                    assert(wandb_paths(roots)[roots.len() - 1] == path);
                }
                if wandb_paths(roots).contains(path) && last.path != path {
                    let i = choose|i: int| 0 <= i < roots.len() && wandb_paths(roots)[i] == path;
                    assert(wandb_paths(front)[i] == path);
                }
            }
            self.lemma_first_all_wandb(project, run, tag, path, later, front);
            let before = self.sync_all_wandb(project, front);
            let after = self.sync_all_wandb(project, roots);
            self.lemma_undecided_wandb(before, run, last);
            if last.path == path {
                assert(!wandb_paths(front).contains(path)) by {
                    if wandb_paths(front).contains(path) {
                        let i = choose|i: int|
                            0 <= i < front.len() && wandb_paths(front)[i] == path;
                        assert(roots[i].path == path);
                    }
                }
                let named = before.with_wandb(last);
                law_fresh_name_is_free(before.runs.dom(), last.name);
                if named.wandb[path].run == run {
                    assert(nothing_of(before, run));
                    assert(named.wandb.dom() =~= before.wandb.dom().insert(path));
                    assert(lives_in(named, run, home));
                    self.lemma_wandb_start(named, run, tag, path);
                    assert(named.with_wandb(last) == named);
                    assert(held(home, tag, later).take(0) =~= Seq::<u8>::empty());
                    self.lemma_sync_own_wandb(named, run, tag, last, Map::empty(), later);
                    assert(self.sync_wandb(named, last) == after);
                }
            } else if wandb_paths(front).contains(path) {
                assert(after.wandb[path] == before.wandb[path]);
                if before.wandb[path].run == run {
                    self.lemma_sync_wandb_beside(before, run, home, last);
                    self.lemma_beside_settled(before, after, run, tag, home, later);
                }
            }
        }
    }

    proof fn lemma_wandb_start(
        self,
        project: ProjectModel,
        run: Seq<char>,
        tag: Seq<char>,
        path: Seq<char>,
    )
        requires
            lives_in(project, run, Home::Wandb(path)),
            project.wandb[path] == WandbStateModel::start(run),
            !project.runs[run].series.dom().contains(tag),
            !project.points.dom().contains((run, tag)),
        ensures
            self.settled(project, run, tag, Home::Wandb(path), Map::empty()),
    {
        let nothing = Seq::<u8>::empty();
        assert(nothing.take(0) =~= nothing);
    }

    /// The first pass over a new wandb log: if its run gets a name, it is in step
    /// under it.
    proof fn lemma_first_pass_wandb(
        self,
        project: ProjectModel,
        run: Seq<char>,
        tag: Seq<char>,
        path: Seq<char>,
        later: Contents,
        roots: Seq<WandbRootModel>,
    )
        requires
            undecided(project, run),
            wandb_free(project, run),
            !project.wandb.dom().contains(path),
            wandb_read(
                WandbStateModel::start(run),
                roots,
                path,
                tag,
                held(Home::Wandb(path), tag, later),
            ),
            wandb_paths(roots).contains(path),
        ensures
            ({
                let after = self.pass_wandb(project, roots);
                &&& undecided(after, run)
                &&& after.wandb.dom().contains(path)
                &&& after.wandb[path].run == run ==> self.settled(
                    after,
                    run,
                    tag,
                    Home::Wandb(path),
                    later,
                )
                &&& after.dvclive == project.dvclive
                &&& after.mlflow == project.mlflow
            }),
    {
        let gone = lost(wandb_paths(roots), sorted(project.wandb.dom()));
        lemma_gone(project.wandb.dom(), wandb_paths(roots));
        lemma_removed_wandb(project, run, gone);
        let left = project.without_all_wandb(gone);
        self.lemma_undecided_all_wandb(left, run, roots);
        self.lemma_first_all_wandb(left, run, tag, path, later, roots);
    }
}

impl<
    F: Fn(&str) -> Option<u64>,
    G: Fn(u64) -> u64,
    H: Fn(Moments, u64) -> Moments,
> Numeric<F, G, H> {
    /// The first pass over a run opens it and takes in all that its files
    /// hold: a home that was not under reading, read from its start, has its
    /// series in step, under the name that its run got.
    pub proof fn law_first_refresh_settles(
        self,
        project: ProjectModel,
        disk: DiskModel,
        run: Seq<char>,
        tag: Seq<char>,
        home: Home,
        later: Contents,
    )
        requires
            is_finite(project),
            nothing_of(project, run),
            is_new(project, home),
            read_from_start(disk, run, tag, home, later),
        ensures
            is_home(self.refreshed(project, disk), run, home) ==> self.settled(
                self.refreshed(project, disk),
                run,
                tag,
                home,
                later,
            ),
            home is Events ==> is_home(self.refreshed(project, disk), run, home),
    {
        let begun = ProjectModel { report: RefreshReport::start(), ..project };
        let events = self.pass_events(begun, disk);
        let dvclive = self.pass_dvclive(events, disk.dvclive);
        let mlflow = self.pass_mlflow(dvclive, disk.mlflow);
        let wandb = self.pass_wandb(mlflow, disk.wandb);
        let after = wandb.accounted();
        match home {
            Home::Events(paths) => {
                self.lemma_first_pass_events(begun, run, tag, paths, later, disk);
                self.lemma_pass_dvclive(events, run, tag, home, later, later, disk.dvclive);
                self.lemma_pass_mlflow(dvclive, run, tag, home, later, later, disk.mlflow);
                self.lemma_pass_wandb(mlflow, run, tag, home, later, later, disk.wandb);
                assert(beside(run, home, wandb, after));
                self.lemma_beside_settled(wandb, after, run, tag, home, later);
            },
            Home::Dvclive(root) => {
                self.lemma_nothing_pass_events(begun, run, disk);
                self.lemma_first_pass_dvclive(events, run, tag, root, later, disk.dvclive);
                self.lemma_undecided_pass_mlflow(dvclive, run, disk.mlflow);
                self.lemma_undecided_pass_wandb(mlflow, run, disk.wandb);
                if dvclive.dvclive[root].run == run {
                    self.lemma_pass_mlflow(dvclive, run, tag, home, later, later, disk.mlflow);
                    self.lemma_pass_wandb(mlflow, run, tag, home, later, later, disk.wandb);
                    assert(beside(run, home, wandb, after));
                    self.lemma_beside_settled(wandb, after, run, tag, home, later);
                }
            },
            Home::Mlflow(root) => {
                self.lemma_nothing_pass_events(begun, run, disk);
                self.lemma_undecided_pass_dvclive(events, run, disk.dvclive);
                self.lemma_first_pass_mlflow(dvclive, run, tag, root, later, disk.mlflow);
                self.lemma_undecided_pass_wandb(mlflow, run, disk.wandb);
                if mlflow.mlflow[root].run == run {
                    self.lemma_pass_wandb(mlflow, run, tag, home, later, later, disk.wandb);
                    assert(beside(run, home, wandb, after));
                    self.lemma_beside_settled(wandb, after, run, tag, home, later);
                }
            },
            Home::Wandb(path) => {
                self.lemma_nothing_pass_events(begun, run, disk);
                self.lemma_undecided_pass_dvclive(events, run, disk.dvclive);
                self.lemma_undecided_pass_mlflow(dvclive, run, disk.mlflow);
                self.lemma_first_pass_wandb(mlflow, run, tag, path, later, disk.wandb);
                if wandb.wandb[path].run == run {
                    assert(beside(run, home, wandb, after));
                    self.lemma_beside_settled(wandb, after, run, tag, home, later);
                }
            },
        }
    }

    /// A run of several event files, as restarts leave it, comes to the points
    /// of all of them, one file behind the other: after the first pass they are
    /// what its summary observed, and what is materialized of it.
    pub proof fn law_first_refresh_observes_every_file(
        self,
        project: ProjectModel,
        disk: DiskModel,
        run: Seq<char>,
        tag: Seq<char>,
        paths: Seq<Seq<char>>,
        later: Contents,
        after: ProjectModel,
        read: Contents,
        result: Option<PointsModel>,
    )
        requires
            is_finite(project),
            nothing_of(project, run),
            all_new(project, paths),
            read_from_start(disk, run, tag, Home::Events(paths), later),
            !marks_hparams(tag),
            files_grown(paths, later, read),
            materialized(
                self.refreshed(project, disk),
                after,
                (run, tag),
                self.series_points(self.refreshed(project, disk), run, tag, read),
                result,
            ),
        ensures
            ({
                let all = strung(paths, points_of_file(later, tag));
                let passed = self.refreshed(project, disk);
                &&& segments_of(passed.runs[run], tag) == self.observed_all(all)
                &&& result == if has_scalar(passed, (run, tag)) {
                    Some(PointsModel::pushed_all(all))
                } else {
                    None
                }
            }),
    {
        let home = Home::Events(paths);
        let passed = self.refreshed(project, disk);
        self.law_first_refresh_settles(project, disk, run, tag, home, later);
        self.law_settled_series_is_observed(passed, run, tag, home, later);
        self.law_materialized_is_what_was_observed(
            passed,
            after,
            run,
            tag,
            home,
            later,
            read,
            result,
        );
    }
}

} // verus!
