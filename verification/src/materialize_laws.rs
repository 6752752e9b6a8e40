//! Materializing and refreshing go together: what is materialized of a series
//! is what the refreshes observed of it, no more and no less, whenever it is
//! asked for, and over however many event files it is spread.
use vstd::prelude::*;

use crate::drain::LogModel;
use crate::event_runs::{
    framed, lemma_framed, lemma_nothing_in, lemma_strung_among, lemma_wider, points_of_file,
    snapshots_of_file, strung, strung_among,
};
use crate::frontier::grown;
use crate::frontier_laws::{
    all_framed, beside, dvclive_read, events_read, files_grown, found_only, framed_at, held,
    home_grown, is_of, lemma_same_front, lives_in, log_of, mlflow_read, no_other_home, same_home,
    wandb_read, written_in_order, Contents, Home,
};
use crate::materialize::{events_of, snapshots_onto, upto};
use crate::names::{in_order, lemma_sorted, sorted};
use crate::numeric::{Moments, Numeric};
use crate::project::{
    contents_of, dvclive_paths, files_points, files_snapshots, histograms_materialized, holder,
    materialized, metric_path, mlflow_paths, owners_dvclive, owners_mlflow, owners_wandb,
    series_snapshots, tsv_path, wandb_paths, DiskModel, ProjectModel,
};
use crate::run::{marks_hparams, RefreshReport};
use crate::series::{HistogramsModel, PointStamp, PointsModel, SeriesClass, SnapshotModel};
use crate::shelf::Key;

verus! {

/// A pass finds the home of a run again, and reads its files on to what they
/// hold now.
pub open spec fn read_on(
    project: ProjectModel,
    disk: DiskModel,
    run: Seq<char>,
    tag: Seq<char>,
    home: Home,
    later: Contents,
) -> bool {
    let now = held(home, tag, later);
    &&& found_only(disk.events, run, home)
    &&& match home {
        Home::Events(paths) => events_read(project, disk, run, paths, later),
        Home::Dvclive(root) => dvclive_read(
            project.dvclive[root],
            disk.dvclive,
            root,
            tag,
            now,
        ) && dvclive_paths(disk.dvclive).contains(root),
        Home::Mlflow(root) => mlflow_read(project.mlflow[root], disk.mlflow, root, tag, now)
            && mlflow_paths(disk.mlflow).contains(root),
        Home::Wandb(path) => wandb_read(project.wandb[path], disk.wandb, path, tag, now)
            && wandb_paths(disk.wandb).contains(path),
    }
}

/// The files of a home hold what they held, and more; of several event files
/// none gains anything of the series once a later one has something of it.
pub open spec fn grown_in_order(
    home: Home,
    tag: Seq<char>,
    contents: Contents,
    later: Contents,
) -> bool {
    &&& home_grown(home, tag, contents, later)
    &&& home matches Home::Events(paths) ==> written_in_order(paths, tag, contents, later)
}

/// Event files grow in order where those before one are left alone, and those
/// behind it held nothing: only the last file that was read grew, or only
/// files with greater names came.
pub proof fn law_only_the_last_file_grows(
    paths: Seq<Seq<char>>,
    tag: Seq<char>,
    contents: Contents,
    later: Contents,
    last: int,
)
    requires
        home_grown(Home::Events(paths), tag, contents, later),
        forall|i: int|
            0 <= i < paths.len() && i < last ==> contents_of(later, #[trigger] paths[i])
                == contents_of(contents, paths[i]),
        forall|i: int|
            0 <= i < paths.len() && last < i ==> contents_of(contents, #[trigger] paths[i]).len()
                == 0,
    ensures
        grown_in_order(Home::Events(paths), tag, contents, later),
{
    assert forall|i: int, j: int| 0 <= i < j < paths.len() implies points_of_file(later, tag)(
        #[trigger] paths[i],
    ) == points_of_file(contents, tag)(paths[i]) || points_of_file(contents, tag)(
        #[trigger] paths[j],
    ).len() == 0 by {
        if i >= last {
            lemma_nothing_in(contents, tag, paths[j]);
        }
    }
    assert forall|i: int, j: int| 0 <= i < j < paths.len() implies snapshots_of_file(later, tag)(
        #[trigger] paths[i],
    ) == snapshots_of_file(contents, tag)(paths[i]) || snapshots_of_file(contents, tag)(
        #[trigger] paths[j],
    ).len() == 0 by {
        if i >= last {
            lemma_nothing_in(contents, tag, paths[j]);
        }
    }
}

/// A project has a scalar series.
pub open spec fn has_scalar(project: ProjectModel, key: Key) -> bool {
    &&& project.runs.dom().contains(key.0)
    &&& project.runs[key.0].series.dom().contains(key.1)
    &&& project.runs[key.0].series[key.1].class == SeriesClass::Scalar
}

/// A project has a histogram series.
pub open spec fn has_histogram(project: ProjectModel, key: Key) -> bool {
    &&& project.runs.dom().contains(key.0)
    &&& project.runs[key.0].series.dom().contains(key.1)
    &&& project.runs[key.0].series[key.1].class == SeriesClass::Histogram
}

/// The snapshots of a histogram series that event files hold, one file behind
/// the other.
pub open spec fn observed_snapshots(
    paths: Seq<Seq<char>>,
    tag: Seq<char>,
    contents: Contents,
) -> Seq<SnapshotModel> {
    if marks_hparams(tag) {
        Seq::empty()
    } else {
        strung(paths, snapshots_of_file(contents, tag))
    }
}

/// The one path of a run is its holder.
proof fn lemma_holder(
    paths: Seq<Seq<char>>,
    owners: Map<Seq<char>, Seq<char>>,
    run: Seq<char>,
    path: Seq<char>,
)
    requires
        paths.contains(path),
        forall|i: int|
            0 <= i < paths.len() ==> (owners[#[trigger] paths[i]]
            == run <==> paths[i] == path),
    ensures
        holder(paths, owners, run) == Some(path),
    decreases paths.len(),
{
    if owners[paths[0]] != run {
        let rest = paths.skip(1);
        let k = choose|k: int| 0 <= k < paths.len() && paths[k] == path;
        assert(rest[k - 1] == path);
        assert forall|i: int|
            0 <= i < rest.len() implies (owners[#[trigger] rest[i]]
            == run <==> rest[i] == path) by {
            assert(rest[i] == paths[i + 1]);
        }
        lemma_holder(rest, owners, run, path);
    }
}

/// What a file holds up to where it was read is what it held.
proof fn lemma_read_front(log: LogModel, content: Seq<u8>, now: Seq<u8>)
    requires
        framed(log, content),
        grown(content, now),
    ensures
        events_of(upto(now, log.committed)) == events_of(content),
{
    lemma_same_front(content, now, log.committed as int);
    assert(upto(now, log.committed) =~= content.take(log.committed as int));
    lemma_framed(log, content);
}

/// What is collected of a run's event files are the points of those that were
/// read.
proof fn lemma_files_points(
    project: ProjectModel,
    all: Seq<Seq<char>>,
    run: Seq<char>,
    tag: Seq<char>,
    paths: Seq<Seq<char>>,
    contents: Contents,
    read: Contents,
)
    requires
        all_framed(project, paths, contents),
        home_grown(Home::Events(paths), tag, contents, read),
        forall|i: int|
            0 <= i < all.len() ==> project.files.dom().contains(#[trigger] all[i]) && (
            project.files[all[i]].run == run <==> paths.contains(all[i])),
    ensures
        files_points(project.files, all, run, tag, read) == strung_among(
            all,
            paths,
            points_of_file(contents, tag),
        ),
        files_snapshots(project.files, all, run, tag, read) == strung_among(
            all,
            paths,
            snapshots_of_file(contents, tag),
        ),
    decreases all.len(),
{
    if all.len() > 0 {
        let front = all.drop_last();
        let last = all.last();
        assert(all[all.len() - 1] == last);
        assert forall|i: int| 0 <= i < front.len() implies project.files.dom().contains(
            #[trigger] front[i],
        ) && (project.files[front[i]].run == run <==> paths.contains(front[i])) by {
            assert(front[i] == all[i]);
        }
        lemma_files_points(project, front, run, tag, paths, contents, read);
        if paths.contains(last) {
            let k = choose|k: int| 0 <= k < paths.len() && paths[k] == last;
            assert(framed_at(project, paths[k], contents));
            assert(files_grown(paths, contents, read));
            assert(grown(contents_of(contents, paths[k]), contents_of(read, paths[k])));
            lemma_read_front(
                project.files[last],
                contents_of(contents, last),
                contents_of(read, last),
            );
        }
    }
}

/// What is collected of a run's event files is what was observed in them.
proof fn lemma_events_collected(
    project: ProjectModel,
    run: Seq<char>,
    tag: Seq<char>,
    paths: Seq<Seq<char>>,
    contents: Contents,
    read: Contents,
)
    requires
        lives_in(project, run, Home::Events(paths)),
        all_framed(project, paths, contents),
        home_grown(Home::Events(paths), tag, contents, read),
    ensures
        files_points(project.files, sorted(project.files.dom()), run, tag, read) == strung(
            paths,
            points_of_file(contents, tag),
        ),
        files_snapshots(project.files, sorted(project.files.dom()), run, tag, read) == strung(
            paths,
            snapshots_of_file(contents, tag),
        ),
{
    let all = sorted(project.files.dom());
    lemma_sorted(project.files.dom());
    assert forall|i: int| 0 <= i < all.len() implies project.files.dom().contains(
        #[trigger] all[i],
    ) && (project.files[all[i]].run == run <==> paths.contains(all[i])) by {
        assert(all.contains(all[i]));
        assert(project.files.dom().contains(all[i]));
        assert(is_of(Home::Events(paths), all[i]) == paths.contains(all[i]));
    }
    lemma_files_points(project, all, run, tag, paths, contents, read);
    assert forall|i: int| 0 <= i < paths.len() && !all.contains(#[trigger] paths[i]) implies
        points_of_file(contents, tag)(paths[i]).len() == 0 && snapshots_of_file(contents, tag)(
        paths[i],
    ).len() == 0 by {
        assert(framed_at(project, paths[i], contents));
        assert(!project.files.dom().contains(paths[i]));
        lemma_nothing_in(contents, tag, paths[i]);
    }
    lemma_strung_among(all, paths, points_of_file(contents, tag));
    lemma_strung_among(all, paths, snapshots_of_file(contents, tag));
}

impl<
    F: Fn(&str) -> Option<u64>,
    G: Fn(u64) -> u64,
    H: Fn(Moments, u64) -> Moments,
> Numeric<F, G, H> {
    /// A reload pass observes what files have grown by, once: a series that was
    /// in step with its files is in step with what they hold now.
    pub proof fn law_refresh_stays_settled(
        self,
        project: ProjectModel,
        disk: DiskModel,
        run: Seq<char>,
        tag: Seq<char>,
        home: Home,
        contents: Contents,
        later: Contents,
    )
        requires
            self.settled(project, run, tag, home, contents),
            read_on(project, disk, run, tag, home, later),
            grown_in_order(home, tag, contents, later),
        ensures
            self.settled(self.refreshed(project, disk), run, tag, home, later),
    {
        let begun = ProjectModel { report: RefreshReport::start(), ..project };
        assert(beside(run, home, project, begun)) by {
            if let Home::Events(paths) = home {
                assert(same_home(home, project, begun));
            }
        }
        self.lemma_beside_settled(project, begun, run, tag, home, contents);
        let events = self.pass_events(begun, disk);
        let first = if home is Events {
            later
        } else {
            contents
        };
        assert(self.settled(events, run, tag, home, first)) by {
            if let Home::Events(paths) = home {
                assert(events_read(begun, disk, run, paths, later)) by {
                    assert forall|i: int| 0 <= i < paths.len() implies log_of(
                        begun,
                        run,
                        #[trigger] paths[i],
                    ) == log_of(project, run, paths[i]) by {}
                }
            }
            self.lemma_pass_events(begun, run, tag, home, contents, later, disk);
        }
        assert(!(home is Events) ==> same_home(home, project, events)) by {
            if !(home is Events) {
                self.lemma_pass_events(begun, run, tag, home, contents, later, disk);
            }
        }
        self.lemma_texts_stay_settled(events, disk, run, tag, home, first, later);
    }

    /// The text files and logs of a pass, behind its event files.
    #[verifier::spinoff_prover]
    proof fn lemma_texts_stay_settled(
        self,
        events: ProjectModel,
        disk: DiskModel,
        run: Seq<char>,
        tag: Seq<char>,
        home: Home,
        contents: Contents,
        later: Contents,
    )
        requires
            self.settled(events, run, tag, home, contents),
            home is Events ==> contents == later,
            !(home is Events) ==> read_on(events, disk, run, tag, home, later) && home_grown(
                home,
                tag,
                contents,
                later,
            ),
        ensures
            self.settled(
                self.pass_wandb(
                    self.pass_mlflow(self.pass_dvclive(events, disk.dvclive), disk.mlflow),
                    disk.wandb,
                ).accounted(),
                run,
                tag,
                home,
                later,
            ),
    {
        self.lemma_pass_dvclive(events, run, tag, home, contents, later, disk.dvclive);
        let dvclive = self.pass_dvclive(events, disk.dvclive);
        let seen = if home is Dvclive {
            later
        } else {
            contents
        };
        self.lemma_pass_mlflow(dvclive, run, tag, home, seen, later, disk.mlflow);
        let mlflow = self.pass_mlflow(dvclive, disk.mlflow);
        let seen = if home is Mlflow {
            later
        } else {
            seen
        };
        self.lemma_pass_wandb(mlflow, run, tag, home, seen, later, disk.wandb);
        let wandb = self.pass_wandb(mlflow, disk.wandb);
        assert(beside(run, home, wandb, wandb.accounted()));
        self.lemma_beside_settled(wandb, wandb.accounted(), run, tag, home, later);
    }

    /// The points that are collected of a settled series are those that were
    /// observed, however far its files have grown since.
    proof fn lemma_collected(
        self,
        project: ProjectModel,
        run: Seq<char>,
        tag: Seq<char>,
        home: Home,
        contents: Contents,
        read: Contents,
    )
        requires
            self.settled(project, run, tag, home, contents),
            home_grown(home, tag, contents, read),
            has_scalar(project, (run, tag)),
        ensures
            self.series_points(project, run, tag, read) == Some(
                self.observed_in(home, tag, contents),
            ),
    {
        let content = held(home, tag, contents);
        let now = held(home, tag, read);
        self.law_settled_series_is_observed(project, run, tag, home, contents);
        let intake = project.intake(run);
        match home {
            Home::Events(paths) => {
                lemma_events_collected(project, run, tag, paths, contents, read);
            },
            Home::Dvclive(root) => {
                let state = project.dvclive[root];
                let offset = crate::backends::offset_of(state.offsets, tsv_path(root, tag));
                let owners = owners_dvclive(project.dvclive);
                let paths = sorted(project.dvclive.dom());
                lemma_sorted(project.dvclive.dom());
                assert forall|i: int|
                    0 <= i < paths.len() implies (owners[#[trigger] paths[i]]
                    == run <==> paths[i] == root) by {
                    assert(paths.contains(paths[i]));
                    assert(project.dvclive.dom().contains(paths[i]));
                }
                assert(paths.contains(root));
                lemma_holder(paths, owners, run, root);
                lemma_same_front(content, now, offset as int);
                assert(upto(now, offset) =~= content.take(offset as int));
                self.lemma_tsv_observed(intake, state, tsv_path(root, tag), tag, content);
            },
            Home::Mlflow(root) => {
                let state = project.mlflow[root];
                let offset = crate::backends::offset_of(state.offsets, metric_path(root, tag));
                let owners = owners_mlflow(project.mlflow);
                let paths = sorted(project.mlflow.dom());
                lemma_sorted(project.mlflow.dom());
                assert forall|i: int|
                    0 <= i < paths.len() implies (owners[#[trigger] paths[i]]
                    == run <==> paths[i] == root) by {
                    assert(paths.contains(paths[i]));
                    assert(project.mlflow.dom().contains(paths[i]));
                }
                assert(paths.contains(root));
                lemma_holder(paths, owners, run, root);
                lemma_same_front(content, now, offset as int);
                assert(upto(now, offset) =~= content.take(offset as int));
            },
            Home::Wandb(path) => {
                let state = project.wandb[path];
                let owners = owners_wandb(project.wandb);
                let paths = sorted(project.wandb.dom());
                lemma_sorted(project.wandb.dom());
                assert forall|i: int|
                    0 <= i < paths.len() implies (owners[#[trigger] paths[i]]
                    == run <==> paths[i] == path) by {
                    assert(paths.contains(paths[i]));
                    assert(project.wandb.dom().contains(paths[i]));
                }
                assert(paths.contains(path));
                lemma_holder(paths, owners, run, path);
                lemma_same_front(content, now, state.offset as int);
                assert(upto(now, state.offset) =~= content.take(state.offset as int));
                self.lemma_log_observed(intake, state, tag, content);
            },
        }
    }

    /// What is materialized is what was observed: there is a result exactly
    /// where the series is known and scalar, and it is made of the points that
    /// the refreshes observed, in order, whatever was written since. The
    /// series stays in step, and is held from then on.
    pub proof fn law_materialized_is_what_was_observed(
        self,
        project: ProjectModel,
        after: ProjectModel,
        run: Seq<char>,
        tag: Seq<char>,
        home: Home,
        contents: Contents,
        read: Contents,
        result: Option<PointsModel>,
    )
        requires
            self.settled(project, run, tag, home, contents),
            home_grown(home, tag, contents, read),
            materialized(
                project,
                after,
                (run, tag),
                self.series_points(project, run, tag, read),
                result,
            ),
        ensures
            result == if has_scalar(project, (run, tag)) {
                Some(PointsModel::pushed_all(self.observed_in(home, tag, contents)))
            } else {
                None
            },
            result is Some ==> after.points.dom().contains((run, tag)),
            self.settled(after, run, tag, home, contents),
    {
        let key = (run, tag);
        self.law_settled_series_is_observed(project, run, tag, home, contents);
        if has_scalar(project, key) {
            self.lemma_collected(project, run, tag, home, contents, read);
        }
        self.lemma_held_settled(project, after, run, tag, home, contents);
    }

    /// There is nothing to materialize of a series that is not known, or not
    /// scalar.
    pub proof fn law_unknown_series_has_no_points(
        self,
        project: ProjectModel,
        after: ProjectModel,
        key: Key,
        read: Contents,
        result: Option<PointsModel>,
    )
        requires
            !project.points.dom().contains(key),
            !has_scalar(project, key),
            materialized(
                project,
                after,
                key,
                self.series_points(project, key.0, key.1, read),
                result,
            ),
        ensures
            result is None,
            after == (ProjectModel { clock: after.clock, ..project }),
    {
    }

    /// Materializing another series leaves this one in step.
    pub proof fn law_other_series_stay_settled(
        self,
        project: ProjectModel,
        after: ProjectModel,
        run: Seq<char>,
        tag: Seq<char>,
        home: Home,
        contents: Contents,
        other: Key,
        collected: Option<Seq<PointStamp>>,
        result: Option<PointsModel>,
    )
        requires
            self.settled(project, run, tag, home, contents),
            other != (run, tag),
            materialized(project, after, other, collected, result),
        ensures
            self.settled(after, run, tag, home, contents),
    {
        self.law_settled_series_is_observed(project, run, tag, home, contents);
        self.lemma_held_settled(project, after, run, tag, home, contents);
    }

    /// A project with other things held has a series in step, where what it
    /// holds of it are the observed points and snapshots.
    proof fn lemma_held_settled(
        self,
        project: ProjectModel,
        after: ProjectModel,
        run: Seq<char>,
        tag: Seq<char>,
        home: Home,
        contents: Contents,
    )
        requires
            self.settled(project, run, tag, home, contents),
            after == (ProjectModel {
                clock: after.clock,
                points: after.points,
                histograms: after.histograms,
                ..project
            }),
            after.points.dom().contains((run, tag)) ==> has_scalar(project, (run, tag))
                && after.points[(run, tag)].0 == PointsModel::pushed_all(
                self.observed_in(home, tag, contents),
            ),
            home matches Home::Events(paths) ==> (after.histograms.dom().contains((run, tag))
                ==> has_histogram(project, (run, tag)) && after.histograms[(run, tag)].0
                == snapshots_onto(
                HistogramsModel::start(),
                observed_snapshots(paths, tag, contents),
            )),
        ensures
            self.settled(after, run, tag, home, contents),
    {
        self.law_settled_series_is_observed(project, run, tag, home, contents);
        let before = project.intake(run);
        let content = held(home, tag, contents);
        match home {
            Home::Events(paths) => {
                assert forall|i: int| 0 <= i < paths.len() implies framed_at(
                    after,
                    #[trigger] paths[i],
                    contents,
                ) by {
                    assert(framed_at(project, paths[i], contents));
                }
            },
            Home::Dvclive(root) => {
                self.lemma_tsv_observed(
                    before,
                    project.dvclive[root],
                    tsv_path(root, tag),
                    tag,
                    content,
                );
            },
            Home::Mlflow(root) => {},
            Home::Wandb(path) => {
                self.lemma_log_observed(before, project.wandb[path], tag, content);
            },
        }
        assert(lives_in(after, run, home));
    }

    /// What is materialized of a histogram series is what was observed: there
    /// is a result exactly where the series is known and a histogram, and it is
    /// made of the snapshots that the refreshes observed, in order, whatever was
    /// written since. The series stays in step, and is held from then on.
    pub proof fn law_histograms_are_what_was_observed(
        self,
        project: ProjectModel,
        after: ProjectModel,
        run: Seq<char>,
        tag: Seq<char>,
        paths: Seq<Seq<char>>,
        contents: Contents,
        read: Contents,
        result: Option<HistogramsModel>,
    )
        requires
            self.settled(project, run, tag, Home::Events(paths), contents),
            home_grown(Home::Events(paths), tag, contents, read),
            histograms_materialized(
                project,
                after,
                (run, tag),
                series_snapshots(project, run, tag, read),
                result,
            ),
        ensures
            result == if has_histogram(project, (run, tag)) {
                Some(
                    snapshots_onto(
                        HistogramsModel::start(),
                        observed_snapshots(paths, tag, contents),
                    ),
                )
            } else {
                None
            },
            result is Some ==> after.histograms.dom().contains((run, tag)),
            self.settled(after, run, tag, Home::Events(paths), contents),
    {
        let home = Home::Events(paths);
        self.law_settled_series_is_observed(project, run, tag, home, contents);
        lemma_events_collected(project, run, tag, paths, contents, read);
        self.lemma_held_settled(project, after, run, tag, home, contents);
    }

    /// Materializing another histogram series leaves this one in step.
    pub proof fn law_other_histograms_stay_settled(
        self,
        project: ProjectModel,
        after: ProjectModel,
        run: Seq<char>,
        tag: Seq<char>,
        home: Home,
        contents: Contents,
        other: Key,
        collected: Option<Seq<SnapshotModel>>,
        result: Option<HistogramsModel>,
    )
        requires
            self.settled(project, run, tag, home, contents),
            other != (run, tag),
            histograms_materialized(project, after, other, collected, result),
        ensures
            self.settled(after, run, tag, home, contents),
    {
        self.law_settled_series_is_observed(project, run, tag, home, contents);
        self.lemma_held_settled(project, after, run, tag, home, contents);
    }

    /// It does not matter when a histogram series is materialized: before a
    /// refresh and asked for behind it, or behind the refresh, it has the same
    /// snapshots.
    pub proof fn law_histograms_before_or_after(
        self,
        project: ProjectModel,
        early: ProjectModel,
        disk: DiskModel,
        run: Seq<char>,
        tag: Seq<char>,
        paths: Seq<Seq<char>>,
        contents: Contents,
        later: Contents,
        read: Contents,
        first: Option<HistogramsModel>,
    )
        requires
            self.settled(project, run, tag, Home::Events(paths), contents),
            read_on(project, disk, run, tag, Home::Events(paths), later),
            grown_in_order(Home::Events(paths), tag, contents, later),
            home_grown(Home::Events(paths), tag, contents, read),
            histograms_materialized(
                project,
                early,
                (run, tag),
                series_snapshots(project, run, tag, read),
                first,
            ),
        ensures
            ({
                let key = (run, tag);
                let with = self.refreshed(early, disk);
                let without = self.refreshed(project, disk);
                let series = snapshots_onto(
                    HistogramsModel::start(),
                    observed_snapshots(paths, tag, later),
                );
                &&& with.histograms.dom().contains(key) ==> with.histograms[key].0 == series
                &&& without.histograms.dom().contains(key) ==> without.histograms[key].0 == series
                &&& forall|
                    between: ProjectModel,
                    late: ProjectModel,
                    ahead: Contents,
                    result: Option<HistogramsModel>,
                |
                    (between == with || between == without) && home_grown(
                        Home::Events(paths),
                        tag,
                        later,
                        ahead,
                    ) && #[trigger] histograms_materialized(
                        between,
                        late,
                        key,
                        series_snapshots(between, run, tag, ahead),
                        result,
                    ) ==> result == if has_histogram(between, key) {
                        Some(series)
                    } else {
                        None
                    }
            }),
    {
        let home = Home::Events(paths);
        let key = (run, tag);
        self.law_histograms_are_what_was_observed(
            project,
            early,
            run,
            tag,
            paths,
            contents,
            read,
            first,
        );
        let with = self.refreshed(early, disk);
        let without = self.refreshed(project, disk);
        let series = snapshots_onto(
            HistogramsModel::start(),
            observed_snapshots(paths, tag, later),
        );
        self.law_refresh_stays_settled(project, disk, run, tag, home, contents, later);
        self.law_refresh_stays_settled(early, disk, run, tag, home, contents, later);
        assert forall|
            between: ProjectModel,
            late: ProjectModel,
            ahead: Contents,
            result: Option<HistogramsModel>,
        |
            (between == with || between == without) && home_grown(
                home,
                tag,
                later,
                ahead,
            ) && #[trigger] histograms_materialized(
                between,
                late,
                key,
                series_snapshots(between, run, tag, ahead),
                result,
            ) implies result == if has_histogram(between, key) {
            Some(series)
        } else {
            None
        } by {
            self.law_histograms_are_what_was_observed(
                between,
                late,
                run,
                tag,
                paths,
                later,
                ahead,
                result,
            );
        }
    }

    /// A run takes in new event files: in step over its files it is in step over
    /// more of them too, as long as those are not under reading yet.
    pub proof fn law_home_takes_in_new_files(
        self,
        project: ProjectModel,
        run: Seq<char>,
        tag: Seq<char>,
        paths: Seq<Seq<char>>,
        wider: Seq<Seq<char>>,
        contents: Contents,
    )
        requires
            self.settled(project, run, tag, Home::Events(paths), contents),
            in_order(wider),
            forall|i: int| 0 <= i < paths.len() ==> wider.contains(#[trigger] paths[i]),
            forall|i: int|
                0 <= i < wider.len() && !paths.contains(#[trigger] wider[i]) ==> {
                    &&& !project.files.dom().contains(wider[i])
                    &&& !project.cached.dom().contains(wider[i])
                    &&& contents_of(contents, wider[i]).len() == 0
                },
        ensures
            self.settled(project, run, tag, Home::Events(wider), contents),
    {
        let home = Home::Events(wider);
        assert forall|path: Seq<char>| #[trigger]
            project.files.dom().contains(path) && wider.contains(path) implies
            project.files[path].run == run by {
            let i = choose|i: int| 0 <= i < wider.len() && wider[i] == path;
            assert(paths.contains(wider[i]));
        }
        assert forall|path: Seq<char>| #[trigger]
            project.cached.dom().contains(path) implies !wider.contains(path) by {
            if wider.contains(path) {
                let i = choose|i: int| 0 <= i < wider.len() && wider[i] == path;
                assert(paths.contains(wider[i]));
            }
        }
        assert forall|path: Seq<char>| #[trigger]
            project.files.dom().contains(path) && !is_of(home, path) implies
            project.files[path].run != run by {
            if paths.contains(path) {
                let i = choose|i: int| 0 <= i < paths.len() && paths[i] == path;
                assert(wider.contains(paths[i]));
            }
            assert(!is_of(Home::Events(paths), path));
        }
        assert(no_other_home(project, run, home));
        assert forall|i: int| 0 <= i < wider.len() implies framed_at(
            project,
            #[trigger] wider[i],
            contents,
        ) by {
            if paths.contains(wider[i]) {
                let k = choose|k: int| 0 <= k < paths.len() && paths[k] == wider[i];
                assert(framed_at(project, paths[k], contents));
            }
        }
        if !marks_hparams(tag) {
            assert forall|i: int| 0 <= i < wider.len() && !paths.contains(#[trigger] wider[i])
                implies points_of_file(contents, tag)(wider[i]).len() == 0 && snapshots_of_file(
                contents,
                tag,
            )(wider[i]).len() == 0 by {
                lemma_nothing_in(contents, tag, wider[i]);
            }
            lemma_wider(wider, paths, points_of_file(contents, tag));
            lemma_wider(wider, paths, snapshots_of_file(contents, tag));
        }
    }

    /// It does not matter when a series is materialized: materialized before
    /// a refresh and asked for behind it, or materialized behind the refresh,
    /// it has the same points.
    pub proof fn law_materialize_before_or_after(
        self,
        project: ProjectModel,
        early: ProjectModel,
        disk: DiskModel,
        run: Seq<char>,
        tag: Seq<char>,
        home: Home,
        contents: Contents,
        later: Contents,
        read: Contents,
        first: Option<PointsModel>,
    )
        requires
            self.settled(project, run, tag, home, contents),
            read_on(project, disk, run, tag, home, later),
            grown_in_order(home, tag, contents, later),
            home_grown(home, tag, contents, read),
            materialized(
                project,
                early,
                (run, tag),
                self.series_points(project, run, tag, read),
                first,
            ),
        ensures
            ({
                let key = (run, tag);
                let with = self.refreshed(early, disk);
                let without = self.refreshed(project, disk);
                let points = PointsModel::pushed_all(self.observed_in(home, tag, later));
                &&& with.points.dom().contains(key) ==> with.points[key].0 == points
                &&& without.points.dom().contains(key) ==> without.points[key].0 == points
                &&& forall|
                    between: ProjectModel,
                    late: ProjectModel,
                    ahead: Contents,
                    result: Option<PointsModel>,
                |
                    (between == with || between == without) && home_grown(
                        home,
                        tag,
                        later,
                        ahead,
                    ) && #[trigger] materialized(
                        between,
                        late,
                        key,
                        self.series_points(between, run, tag, ahead),
                        result,
                    ) ==> result == if has_scalar(between, key) {
                        Some(points)
                    } else {
                        None
                    }
            }),
    {
        self.law_materialized_is_what_was_observed(
            project,
            early,
            run,
            tag,
            home,
            contents,
            read,
            first,
        );
        let with = self.refreshed(early, disk);
        let without = self.refreshed(project, disk);
        let key = (run, tag);
        let points = PointsModel::pushed_all(self.observed_in(home, tag, later));
        self.law_refresh_stays_settled(project, disk, run, tag, home, contents, later);
        self.law_refresh_stays_settled(early, disk, run, tag, home, contents, later);
        self.law_settled_series_is_observed(with, run, tag, home, later);
        self.law_settled_series_is_observed(without, run, tag, home, later);
        assert forall|
            between: ProjectModel,
            late: ProjectModel,
            ahead: Contents,
            result: Option<PointsModel>,
        |
            (between == with || between == without) && home_grown(
                home,
                tag,
                later,
                ahead,
            ) && #[trigger] materialized(
                between,
                late,
                key,
                self.series_points(between, run, tag, ahead),
                result,
            ) implies result == if has_scalar(between, key) {
            Some(points)
        } else {
            None
        } by {
            self.law_materialized_is_what_was_observed(
                between,
                late,
                run,
                tag,
                home,
                later,
                ahead,
                result,
            );
        }
    }
}

} // verus!
