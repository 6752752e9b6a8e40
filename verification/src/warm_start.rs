//! The summary cache changes nothing: a project that starts from it comes to
//! the catalog that the project which saved it would have come to.
use vstd::prelude::*;

use crate::backend_laws::{law_cache_keeps_the_history, same_history};
use crate::cache::CachedModel;
use crate::drain::LogModel;
use crate::names::{in_order, lemma_in_order_distinct, lemma_sorted, sorted, NameMap};
use crate::numeric::{Moments, Numeric};
use crate::project::{
    found_intact, tail_of, tainted, DiskModel, ProjectModel, SourceModel, TailModel,
};
use crate::run::{Run, RunModel};
use crate::warm::{
    cached_of, entries_of, entry_of, files_of, files_under, runs_of, runs_wf, saved, with_files,
    FileEntry, RunEntry,
};

verus! {

/// Two catalogs with the same runs, each with the same history.
pub open spec fn same_catalog(a: ProjectModel, b: ProjectModel) -> bool {
    &&& a.runs.dom() == b.runs.dom()
    &&& forall|run: Seq<char>| #[trigger]
        b.runs.dom().contains(run) ==> same_history(a.runs[run], b.runs[run])
}

/// `warm` starts from what `cold` saved: nothing is open, every file of
/// `cold` is cached with how far it was read, and none of them is dead.
pub open spec fn starts_from(warm: ProjectModel, cold: ProjectModel) -> bool {
    &&& same_catalog(warm, cold)
    &&& warm.files == Map::<Seq<char>, LogModel>::empty()
    &&& warm.cached.dom() == cold.files.dom()
    &&& cold.cached.dom() == Set::<Seq<char>>::empty()
    &&& cold.files.dom().finite()
    &&& forall|path: Seq<char>| #[trigger]
        cold.files.dom().contains(path) ==> {
            &&& !cold.files[path].dead
            &&& warm.cached[path].run == cold.files[path].run
            &&& warm.cached[path].offset == cold.files[path].committed
            &&& cold.runs.dom().contains(cold.files[path].run)
        }
}

/// The walk finds every file of `cold` again, under the same run, and it has
/// only grown since the cache was saved.
pub open spec fn only_grown(
    warm: ProjectModel,
    cold: ProjectModel,
    sources: Seq<SourceModel>,
) -> bool {
    &&& forall|path: Seq<char>| #[trigger]
        cold.files.dom().contains(path) ==> found_intact(path, warm.cached[path], sources)
            && is_opened(sources, path)
    &&& forall|i: int|
        0 <= i < sources.len() && cold.files.dom().contains((#[trigger] sources[i]).path)
            ==> sources[i].run == cold.files[sources[i].path].run
}

/// A file can be opened.
pub open spec fn is_opened(sources: Seq<SourceModel>, path: Seq<char>) -> bool {
    exists|i: int| 0 <= i < sources.len() && (#[trigger] sources[i]).path == path
        && sources[i].opened
}

/// What was read of a file and not taken in.
pub open spec fn left_of(files: Map<Seq<char>, LogModel>, path: Seq<char>) -> Seq<u8> {
    if files.dom().contains(path) {
        files[path].pending
    } else {
        Seq::empty()
    }
}

/// Both read the same bytes: one on from where it stopped reading, the other
/// on from what was committed.
pub open spec fn same_growth(
    cold: ProjectModel,
    warm_tails: Map<Seq<char>, TailModel>,
    cold_tails: Map<Seq<char>, TailModel>,
) -> bool {
    &&& forall|path: Seq<char>|
        {
            let w = #[trigger] tail_of(warm_tails, path);
            let c = tail_of(cold_tails, path);
            w.bytes == left_of(cold.files, path) + c.bytes && w.failed == c.failed && w.stat
                == c.stat
        }
    &&& forall|path: Seq<char>| #[trigger]
        cold.files.dom().contains(path) ==> cold.files[path].fits(
            tail_of(cold_tails, path).bytes,
        )
}

proof fn lemma_untainted(
    warm: ProjectModel,
    sources: Seq<SourceModel>,
    paths: Seq<Seq<char>>,
)
    requires
        forall|i: int|
            0 <= i < paths.len() ==> found_intact(
                #[trigger] paths[i],
                warm.cached[paths[i]],
                sources,
            ),
    ensures
        tainted(warm.cached, sources, paths) == Seq::<Seq<char>>::empty(),
    decreases paths.len(),
{
    if paths.len() > 0 {
        let front = paths.drop_last();
        assert forall|i: int| 0 <= i < front.len() implies found_intact(
            #[trigger] front[i],
            warm.cached[front[i]],
            sources,
        ) by {
            assert(front[i] == paths[i]);
        }
        lemma_untainted(warm, sources, front);
        assert(found_intact(paths[paths.len() - 1], warm.cached[paths.last()], sources));
    }
}

/// Where the two stand with some files opened.
spec fn opening(
    w: ProjectModel,
    c: ProjectModel,
    warm: ProjectModel,
    cold: ProjectModel,
    sources: Seq<SourceModel>,
) -> bool {
    &&& same_catalog(w, c)
    &&& c.files.dom().finite()
    &&& c.cached.dom() == Set::<Seq<char>>::empty()
    &&& forall|path: Seq<char>| #[trigger]
        c.files.dom().contains(path) ==> {
            &&& !c.files[path].dead
            &&& c.runs.dom().contains(c.files[path].run)
            &&& cold.files.dom().contains(path) ==> c.files[path] == cold.files[path]
            &&& !cold.files.dom().contains(path) ==> c.files[path].pending.len() == 0
                && w.files.dom().contains(path)
        }
    &&& forall|path: Seq<char>| #[trigger]
        w.files.dom().contains(path) ==> c.files.dom().contains(path) && w.files[path]
            == LogModel::start(c.files[path].run, c.files[path].committed)
    &&& forall|path: Seq<char>| #[trigger]
        cold.files.dom().contains(path) ==> c.files.dom().contains(path)
    &&& forall|path: Seq<char>|
        (#[trigger] w.cached.dom().contains(path) <==> cold.files.dom().contains(path)
            && !w.files.dom().contains(path))
    &&& forall|path: Seq<char>| #[trigger]
        w.cached.dom().contains(path) ==> w.cached[path] == warm.cached[path]
    &&& forall|i: int|
        0 <= i < sources.len() && (#[trigger] sources[i]).opened ==> w.files.dom().contains(
            sources[i].path,
        )
}

proof fn lemma_one_opened(
    w: ProjectModel,
    c: ProjectModel,
    warm: ProjectModel,
    cold: ProjectModel,
    sources: Seq<SourceModel>,
    source: SourceModel,
)
    requires
        starts_from(warm, cold),
        opening(w, c, warm, cold, sources),
        cold.files.dom().contains(source.path) ==> source.run == cold.files[source.path].run,
    ensures
        opening(w.opened(source), c.opened(source), warm, cold, sources.push(source)),
{
    let path = source.path;
    let w2 = w.opened(source);
    let c2 = c.opened(source);
    let all = sources.push(source);
    if source.opened && !w.files.dom().contains(path) {
        if c.files.dom().contains(path) {
            assert(cold.files.dom().contains(path));
            assert(w.cached.dom().contains(path));
            assert(w.runs.dom().contains(source.run));
        } else {
            assert(!cold.files.dom().contains(path));
            assert(!w.cached.dom().contains(path));
            assert(c2.cached.dom() =~= Set::<Seq<char>>::empty());
            assert(w.runs.dom().contains(source.run) == c.runs.dom().contains(source.run));
            assert(w2.runs.dom() =~= c2.runs.dom());
        }
    }
    assert forall|i: int| 0 <= i < all.len() && (#[trigger] all[i]).opened implies w2.files.dom().contains(
        all[i].path,
    ) by {
        if i < sources.len() {
            assert(all[i] == sources[i]);
        }
    }
}

proof fn lemma_all_opened(warm: ProjectModel, cold: ProjectModel, sources: Seq<SourceModel>)
    requires
        starts_from(warm, cold),
        forall|i: int|
            0 <= i < sources.len() && cold.files.dom().contains((#[trigger] sources[i]).path)
                ==> sources[i].run == cold.files[sources[i].path].run,
    ensures
        opening(warm.all_opened(sources), cold.all_opened(sources), warm, cold, sources),
    decreases sources.len(),
{
    if sources.len() > 0 {
        let front = sources.drop_last();
        assert forall|i: int|
            0 <= i < front.len() && cold.files.dom().contains((#[trigger] front[i]).path) implies
            front[i].run == cold.files[front[i].path].run by {
            assert(front[i] == sources[i]);
        }
        lemma_all_opened(warm, cold, front);
        assert(sources[sources.len() - 1] == sources.last());
        lemma_one_opened(
            warm.all_opened(front),
            cold.all_opened(front),
            warm,
            cold,
            front,
            sources.last(),
        );
        assert(front.push(sources.last()) =~= sources);
    }
}

/// Where the two stand with some files drained.
spec fn draining(
    w: ProjectModel,
    c: ProjectModel,
    opened_w: ProjectModel,
    opened_c: ProjectModel,
    done: Seq<Seq<char>>,
) -> bool {
    &&& same_catalog(w, c)
    &&& c.runs.dom() == opened_c.runs.dom()
    &&& w.files.dom() == opened_w.files.dom()
    &&& c.files.dom() == opened_c.files.dom()
    &&& forall|path: Seq<char>| #[trigger]
        c.files.dom().contains(path) ==> if done.contains(path) {
            w.files[path] == c.files[path]
        } else {
            w.files[path] == opened_w.files[path] && c.files[path] == opened_c.files[path]
        }
}

/// Where the two stand with every file opened.
spec fn all_open(w: ProjectModel, c: ProjectModel, cold: ProjectModel) -> bool {
    &&& same_catalog(w, c)
    &&& w.files.dom() == c.files.dom()
    &&& forall|path: Seq<char>| #[trigger]
        c.files.dom().contains(path) ==> {
            &&& !c.files[path].dead
            &&& c.runs.dom().contains(c.files[path].run)
            &&& cold.files.dom().contains(path) ==> c.files[path] == cold.files[path]
            &&& !cold.files.dom().contains(path) ==> c.files[path].pending.len() == 0
            &&& w.files[path] == LogModel::start(c.files[path].run, c.files[path].committed)
        }
}

impl<
    F: Fn(&str) -> Option<u64>,
    G: Fn(u64) -> u64,
    H: Fn(Moments, u64) -> Moments,
> Numeric<F, G, H> {
    proof fn lemma_one_drained(
        self,
        w: ProjectModel,
        c: ProjectModel,
        opened_w: ProjectModel,
        opened_c: ProjectModel,
        cold: ProjectModel,
        done: Seq<Seq<char>>,
        path: Seq<char>,
        warm_tails: Map<Seq<char>, TailModel>,
        cold_tails: Map<Seq<char>, TailModel>,
    )
        requires
            all_open(opened_w, opened_c, cold),
            draining(w, c, opened_w, opened_c, done),
            same_growth(cold, warm_tails, cold_tails),
            opened_c.files.dom().contains(path),
            !done.contains(path),
        ensures
            draining(
                self.drain_file(w, path, warm_tails),
                self.drain_file(c, path, cold_tails),
                opened_w,
                opened_c,
                done.push(path),
            ),
    {
        let log = c.files[path];
        assert(c.files.dom().contains(path));
        assert(log == opened_c.files[path]);
        assert(opened_c.runs.dom().contains(log.run));
        assert(c.runs.dom().contains(log.run));
        let wt = tail_of(warm_tails, path);
        let ct = tail_of(cold_tails, path);
        assert(wt.bytes == log.pending + ct.bytes) by {
            if !cold.files.dom().contains(path) {
                assert(log.pending =~= Seq::<u8>::empty());
            }
        }
        self.law_warm_start_continues(
            w.intake(log.run),
            c.intake(log.run),
            log,
            ct.bytes,
            ct.failed,
        );
        let w2 = self.drain_file(w, path, warm_tails);
        let c2 = self.drain_file(c, path, cold_tails);
        assert(w2.runs.dom() =~= c2.runs.dom());
        assert(c2.runs.dom() =~= opened_c.runs.dom());
        assert(w2.files.dom() =~= opened_w.files.dom());
        assert(c2.files.dom() =~= opened_c.files.dom());
        let more = done.push(path);
        assert(more[done.len() as int] == path);
        assert forall|p: Seq<char>| #[trigger] c2.files.dom().contains(p) implies if more.contains(
            p,
        ) {
            w2.files[p] == c2.files[p]
        } else {
            w2.files[p] == opened_w.files[p] && c2.files[p] == opened_c.files[p]
        } by {
            assert(c.files.dom().contains(p));
            if p != path {
                if done.contains(p) {
                    let i = choose|i: int| 0 <= i < done.len() && done[i] == p;
                    assert(more[i] == p);
                } else if more.contains(p) {
                    let i = choose|i: int| 0 <= i < more.len() && more[i] == p;
                    assert(done[i] == p);
                }
            }
        }
    }

    proof fn lemma_all_drained(
        self,
        opened_w: ProjectModel,
        opened_c: ProjectModel,
        cold: ProjectModel,
        paths: Seq<Seq<char>>,
        warm_tails: Map<Seq<char>, TailModel>,
        cold_tails: Map<Seq<char>, TailModel>,
    )
        requires
            all_open(opened_w, opened_c, cold),
            same_growth(cold, warm_tails, cold_tails),
            in_order(paths),
            forall|i: int|
                0 <= i < paths.len() ==> opened_c.files.dom().contains(#[trigger] paths[i]),
        ensures
            draining(
                self.drain_files(opened_w, paths, warm_tails),
                self.drain_files(opened_c, paths, cold_tails),
                opened_w,
                opened_c,
                paths,
            ),
        decreases paths.len(),
    {
        if paths.len() > 0 {
            let front = paths.drop_last();
            let path = paths.last();
            assert forall|i: int, j: int| 0 <= i < j < front.len() implies
                crate::text::text_before(front[i], front[j]) by {
                assert(crate::text::text_before(paths[i], paths[j]));
            }
            assert forall|i: int| 0 <= i < front.len() implies opened_c.files.dom().contains(
                #[trigger] front[i],
            ) by {
                assert(front[i] == paths[i]);
            }
            self.lemma_all_drained(opened_w, opened_c, cold, front, warm_tails, cold_tails);
            if front.contains(path) {
                let i = choose|i: int| 0 <= i < front.len() && front[i] == path;
                lemma_in_order_distinct(paths, i, paths.len() - 1);
            }
            assert(paths[paths.len() - 1] == path);
            self.lemma_one_drained(
                self.drain_files(opened_w, front, warm_tails),
                self.drain_files(opened_c, front, cold_tails),
                opened_w,
                opened_c,
                cold,
                front,
                path,
                warm_tails,
                cold_tails,
            );
            assert(front.push(path) =~= paths);
        }
    }
}

proof fn lemma_all_stamped(
    w: ProjectModel,
    c: ProjectModel,
    paths: Seq<Seq<char>>,
    warm_tails: Map<Seq<char>, TailModel>,
    cold_tails: Map<Seq<char>, TailModel>,
)
    requires
        same_catalog(w, c),
        w.files == c.files,
        forall|path: Seq<char>|
            (#[trigger] tail_of(warm_tails, path)).stat == tail_of(cold_tails, path).stat,
    ensures
        same_catalog(w.all_stamped(paths, warm_tails), c.all_stamped(paths, cold_tails)),
        w.all_stamped(paths, warm_tails).files == w.files,
        c.all_stamped(paths, cold_tails).files == c.files,
        w.vanished(paths, warm_tails) == c.vanished(paths, cold_tails),
    decreases paths.len(),
{
    if paths.len() > 0 {
        let front = paths.drop_last();
        lemma_all_stamped(w, c, front, warm_tails, cold_tails);
        assert(tail_of(warm_tails, paths.last()).stat == tail_of(cold_tails, paths.last()).stat);
        let a = w.all_stamped(paths, warm_tails);
        let b = c.all_stamped(paths, cold_tails);
        assert(a.runs.dom() =~= b.runs.dom());
    }
}

proof fn lemma_without_runs(w: ProjectModel, c: ProjectModel, runs: Seq<Seq<char>>)
    requires
        same_catalog(w, c),
        w.files == c.files,
    ensures
        same_catalog(w.without_runs(runs), c.without_runs(runs)),
        w.without_runs(runs).files == c.without_runs(runs).files,
    decreases runs.len(),
{
    if runs.len() > 0 {
        lemma_without_runs(w, c, runs.drop_last());
        assert(w.without_runs(runs).runs.dom() =~= c.without_runs(runs).runs.dom());
    }
}

impl<
    F: Fn(&str) -> Option<u64>,
    G: Fn(u64) -> u64,
    H: Fn(Moments, u64) -> Moments,
> Numeric<F, G, H> {
    /// The cache changes nothing. A project that starts from the cache and
    /// one that stayed open, in a pass over the same event files, which have
    /// only grown since: both come to the same runs with the same history,
    /// and to the same places in the same files.
    pub proof fn law_cache_changes_nothing(
        self,
        warm: ProjectModel,
        cold: ProjectModel,
        warm_disk: DiskModel,
        cold_disk: DiskModel,
    )
        requires
            starts_from(warm, cold),
            warm_disk.events == cold_disk.events,
            only_grown(warm, cold, cold_disk.events),
            same_growth(cold, warm_disk.tails, cold_disk.tails),
        ensures
            same_catalog(self.pass_events(warm, warm_disk), self.pass_events(cold, cold_disk)),
            self.pass_events(warm, warm_disk).files == self.pass_events(cold, cold_disk).files,
    {
        let sources = cold_disk.events;
        let cached = sorted(warm.cached.dom());
        lemma_sorted(warm.cached.dom());
        assert forall|i: int| 0 <= i < cached.len() implies found_intact(
            #[trigger] cached[i],
            warm.cached[cached[i]],
            sources,
        ) by {
            assert(cached.contains(cached[i]));
            assert(cold.files.dom().contains(cached[i]));
        }
        lemma_untainted(warm, sources, cached);
        assert(warm.validated(sources) == warm);
        let none = sorted(cold.cached.dom());
        lemma_sorted(cold.cached.dom());
        if none.len() > 0 {
            assert(none.contains(none[0]));
        }
        assert(cold.validated(sources) == cold);
        lemma_all_opened(warm, cold, sources);
        let w = warm.all_opened(sources);
        let c = cold.all_opened(sources);
        assert forall|path: Seq<char>| w.files.dom().contains(path) == c.files.dom().contains(
            path,
        ) by {
            if c.files.dom().contains(path) && cold.files.dom().contains(path) {
                let i = choose|i: int|
                    0 <= i < sources.len() && (#[trigger] sources[i]).path == path
                        && sources[i].opened;
                assert(w.files.dom().contains(sources[i].path));
            }
        }
        assert(w.files.dom() =~= c.files.dom());
        assert(all_open(w, c, cold));
        let paths = sorted(c.files.dom());
        lemma_sorted(c.files.dom());
        assert forall|i: int| 0 <= i < paths.len() implies c.files.dom().contains(
            #[trigger] paths[i],
        ) by {
            assert(paths.contains(paths[i]));
        }
        self.lemma_all_drained(w, c, cold, paths, warm_disk.tails, cold_disk.tails);
        let dw = self.drain_files(w, paths, warm_disk.tails);
        let dc = self.drain_files(c, paths, cold_disk.tails);
        assert forall|path: Seq<char>| #[trigger] dc.files.dom().contains(path) implies
            dw.files[path] == dc.files[path] by {
            assert(paths.contains(path));
        }
        assert(dw.files =~= dc.files);
        let swept = sorted(dc.files.dom());
        lemma_all_stamped(dw, dc, swept, warm_disk.tails, cold_disk.tails);
        lemma_without_runs(
            dw.all_stamped(swept, warm_disk.tails),
            dc.all_stamped(swept, cold_disk.tails),
            dc.vanished(swept, cold_disk.tails),
        );
    }
}

/// No two entries are of one file.
pub open spec fn once_each(files: Seq<(Seq<char>, FileEntry)>) -> bool {
    forall|i: int, j: int|
        0 <= i < j < files.len() ==> (#[trigger] files[i]).1.path != (#[trigger] files[j]).1.path
}

/// A path is none of those of the files of a run.
spec fn apart(files: Seq<FileEntry>, path: Seq<char>) -> bool {
    forall|i: int| 0 <= i < files.len() ==> (#[trigger] files[i]).path != path
}

/// No two files of a run have one path.
spec fn apart_each(files: Seq<FileEntry>) -> bool {
    forall|i: int, j: int|
        0 <= i < j < files.len() ==> (#[trigger] files[i]).path != (#[trigger] files[j]).path
}

/// The files under a run are those listed with it.
proof fn lemma_files_under(files: Seq<(Seq<char>, FileEntry)>, run: Seq<char>)
    requires
        once_each(files),
    ensures
        forall|k: int|
            0 <= k < files_under(files, run).len() ==> files.contains(
                (run, #[trigger] files_under(files, run)[k]),
            ),
        forall|i: int|
            0 <= i < files.len() && (#[trigger] files[i]).0 == run ==> files_under(
                files,
                run,
            ).contains(files[i].1),
        apart_each(files_under(files, run)),
    decreases files.len(),
{
    if files.len() > 0 {
        let front = files.drop_last();
        let own = files_under(front, run);
        let all = files_under(files, run);
        assert forall|i: int, j: int| 0 <= i < j < front.len() implies (#[trigger] front[i]).1.path
            != (#[trigger] front[j]).1.path by {
            assert(front[i] == files[i] && front[j] == files[j]);
        }
        lemma_files_under(front, run);
        let last = files.len() - 1;
        assert forall|k: int| 0 <= k < all.len() implies files.contains(
            (run, #[trigger] all[k]),
        ) by {
            if k < own.len() {
                let i = choose|i: int| 0 <= i < front.len() && front[i] == (run, own[k]);
                assert(files[i] == (run, own[k]));
            } else {
                assert(files[last] == (run, all[k]));
            }
        }
        assert forall|i: int| 0 <= i < files.len() && (#[trigger] files[i]).0 == run implies
            all.contains(files[i].1) by {
            if i < last {
                assert(front[i] == files[i]);
                let k = choose|k: int| 0 <= k < own.len() && own[k] == files[i].1;
                assert(all[k] == files[i].1);
            } else {
                assert(all[own.len() as int] == files[i].1);
            }
        }
        assert forall|i: int, j: int| 0 <= i < j < all.len() implies (#[trigger] all[i]).path != (
        #[trigger] all[j]).path by {
            if j < own.len() {
                assert(own[i].path != own[j].path);
            } else {
                let k = choose|k: int| 0 <= k < front.len() && front[k] == (run, own[i]);
                assert(files[k].1.path != files[last].1.path);
            }
        }
    }
}

/// Taking in the files of a run sets those and leaves the others.
proof fn lemma_with_files(
    files: Map<Seq<char>, CachedModel>,
    run: Seq<char>,
    more: Seq<FileEntry>,
)
    requires
        apart_each(more),
    ensures
        forall|k: int|
            0 <= k < more.len() ==> with_files(files, run, more).dom().contains(
                (#[trigger] more[k]).path,
            ) && with_files(files, run, more)[more[k].path] == cached_of(run, more[k]),
        forall|path: Seq<char>| #[trigger]
            with_files(files, run, more).dom().contains(path) && apart(more, path)
                ==> files.dom().contains(path),
        forall|path: Seq<char>| #[trigger]
            files.dom().contains(path) ==> with_files(files, run, more).dom().contains(path) && (
            apart(more, path) ==> with_files(files, run, more)[path] == files[path]),
    decreases more.len(),
{
    if more.len() > 0 {
        let front = more.drop_last();
        let last = more.len() - 1;
        assert forall|i: int, j: int| 0 <= i < j < front.len() implies (#[trigger] front[i]).path
            != (#[trigger] front[j]).path by {
            assert(front[i] == more[i] && front[j] == more[j]);
        }
        lemma_with_files(files, run, front);
        let all = with_files(files, run, more);
        assert forall|k: int| 0 <= k < more.len() implies all.dom().contains(
            (#[trigger] more[k]).path,
        ) && all[more[k].path] == cached_of(run, more[k]) by {
            if k < last {
                assert(front[k] == more[k]);
                assert(more[k].path != more[last].path);
            }
        }
        assert forall|path: Seq<char>| #[trigger] all.dom().contains(path) && apart(
            more,
            path,
        ) implies files.dom().contains(path) by {
            assert(more[last].path != path);
            lemma_apart_front(more, path);
            assert(with_files(files, run, front).dom().contains(path));
        }
        assert forall|path: Seq<char>| #[trigger] files.dom().contains(path) implies
            all.dom().contains(path) && (apart(more, path) ==> all[path] == files[path]) by {
            if apart(more, path) {
                assert(more[last].path != path);
                lemma_apart_front(more, path);
            }
        }
    }
}

proof fn lemma_apart_front(files: Seq<FileEntry>, path: Seq<char>)
    requires
        files.len() > 0,
        apart(files, path),
    ensures
        apart(files.drop_last(), path),
{
    assert forall|i: int| 0 <= i < files.drop_last().len() implies (
    #[trigger] files.drop_last()[i]).path != path by {
        assert(files.drop_last()[i] == files[i]);
    }
}

/// What the first runs of a project save of its files.
spec fn files_saved(
    saved_files: Map<Seq<char>, CachedModel>,
    runs: NameMap<Run>,
    files: Seq<(Seq<char>, FileEntry)>,
    n: nat,
) -> bool {
    &&& forall|i: int, j: int|
        0 <= i < files.len() && 0 <= j < n && (#[trigger] files[i]).0 == #[trigger] runs.names()[j]
            ==> saved_files.dom().contains(files[i].1.path) && saved_files[files[i].1.path]
            == cached_of(files[i].0, files[i].1)
    &&& forall|path: Seq<char>| #[trigger]
        saved_files.dom().contains(path) ==> exists|i: int, j: int|
            0 <= i < files.len() && 0 <= j < n && (#[trigger] files[i]).1.path == path
                && files[i].0 == #[trigger] runs.names()[j]
}

proof fn lemma_files_saved(runs: NameMap<Run>, files: Seq<(Seq<char>, FileEntry)>, n: nat)
    requires
        runs.wf(),
        n <= runs.names().len(),
        once_each(files),
    ensures
        files_saved(files_of(entries_of(runs, files, n)), runs, files, n),
    decreases n,
{
    if n > 0 {
        let m = (n - 1) as nat;
        lemma_files_saved(runs, files, m);
        let name = runs.names()[n - 1];
        let own = files_under(files, name);
        lemma_files_under(files, name);
        let before = files_of(entries_of(runs, files, m));
        let entry = entry_of(name, runs.values()[n - 1], own);
        let all = files_of(entries_of(runs, files, n));
        if own.len() > 0 {
            assert(entries_of(runs, files, m).push(entry).drop_last() =~= entries_of(
                runs,
                files,
                m,
            ));
            assert(all == with_files(before, name, own));
        } else {
            assert(all == with_files(before, name, own));
        }
        lemma_with_files(before, name, own);
        assert forall|i: int, j: int|
            0 <= i < files.len() && 0 <= j < n && (#[trigger] files[i]).0
                == #[trigger] runs.names()[j] implies all.dom().contains(files[i].1.path)
            && all[files[i].1.path] == cached_of(files[i].0, files[i].1) by {
            if files[i].0 == name {
                let k = choose|k: int| 0 <= k < own.len() && own[k] == files[i].1;
                assert(own[k].path == files[i].1.path);
            } else {
                assert(j < m);
                assert(apart(own, files[i].1.path)) by {
                    assert forall|k: int| 0 <= k < own.len() implies (#[trigger] own[k]).path
                        != files[i].1.path by {
                        let h = choose|h: int| 0 <= h < files.len() && files[h] == (name, own[k]);
                        if h < i {
                            assert(files[h].1.path != files[i].1.path);
                        } else if i < h {
                            assert(files[i].1.path != files[h].1.path);
                        }
                    }
                }
                assert(before.dom().contains(files[i].1.path));
            }
        }
        assert forall|path: Seq<char>| #[trigger] all.dom().contains(path) implies exists|
            i: int,
            j: int,
        |
            0 <= i < files.len() && 0 <= j < n && (#[trigger] files[i]).1.path == path
                && files[i].0 == #[trigger] runs.names()[j] by {
            if apart(own, path) {
                assert(before.dom().contains(path));
                let (i, j) = choose|i: int, j: int|
                    0 <= i < files.len() && 0 <= j < m && (#[trigger] files[i]).1.path == path
                        && files[i].0 == #[trigger] runs.names()[j];
                assert(files[i].1.path == path && files[i].0 == runs.names()[j]);
            } else {
                let k = choose|k: int| 0 <= k < own.len() && (#[trigger] own[k]).path == path;
                let h = choose|h: int| 0 <= h < files.len() && files[h] == (name, own[k]);
                assert(files[h].1.path == path && files[h].0 == runs.names()[n - 1]);
            }
        }
    }
}

/// What the first runs of a project save of themselves.
spec fn runs_saved(
    saved_runs: Map<Seq<char>, RunModel>,
    runs: NameMap<Run>,
    files: Seq<(Seq<char>, FileEntry)>,
    n: nat,
) -> bool {
    &&& forall|j: int|
        0 <= j < n && files_under(files, #[trigger] runs.names()[j]).len() > 0
            ==> saved_runs.dom().contains(runs.names()[j]) && saved_runs[runs.names()[j]]
            == entry_of(
            runs.names()[j],
            runs.values()[j],
            files_under(files, runs.names()[j]),
        ).run()
    &&& forall|name: Seq<char>| #[trigger]
        saved_runs.dom().contains(name) ==> exists|j: int|
            0 <= j < n && #[trigger] runs.names()[j] == name
}

proof fn lemma_runs_saved(runs: NameMap<Run>, files: Seq<(Seq<char>, FileEntry)>, n: nat)
    requires
        runs.wf(),
        n <= runs.names().len(),
    ensures
        runs_saved(runs_of(entries_of(runs, files, n)), runs, files, n),
    decreases n,
{
    let listed = |entry: RunEntry| (entry.name, entry.run());
    if n == 0 {
        assert(entries_of(runs, files, n).map_values(listed) =~= Seq::<
            (Seq<char>, RunModel),
        >::empty());
    } else {
        let m = (n - 1) as nat;
        lemma_runs_saved(runs, files, m);
        let name = runs.names()[n - 1];
        let own = files_under(files, name);
        let front = entries_of(runs, files, m);
        let before = runs_of(front);
        let all = runs_of(entries_of(runs, files, n));
        let entry = entry_of(name, runs.values()[n - 1], own);
        if own.len() > 0 {
            let pairs = front.push(entry).map_values(listed);
            assert(pairs.drop_last() =~= front.map_values(listed));
            assert(pairs.last() == (name, entry.run()));
            assert(all == before.insert(name, entry.run()));
        }
        assert forall|j: int|
            0 <= j < n && files_under(files, #[trigger] runs.names()[j]).len() > 0 implies
            all.dom().contains(runs.names()[j]) && all[runs.names()[j]] == entry_of(
            runs.names()[j],
            runs.values()[j],
            files_under(files, runs.names()[j]),
        ).run() by {
            if j < m && runs.names()[j] == name {
                lemma_in_order_distinct(runs.names(), j, n - 1);
            }
        }
        assert forall|other: Seq<char>| #[trigger] all.dom().contains(other) implies exists|j: int|
            0 <= j < n && #[trigger] runs.names()[j] == other by {
            if other == name {
                assert(runs.names()[n - 1] == other);
            } else {
                assert(before.dom().contains(other));
                let j = choose|j: int| 0 <= j < m && #[trigger] runs.names()[j] == other;
                assert(runs.names()[j] == other);
            }
        }
    }
}

/// The files that a project saves are its own: each once, with its run and
/// with how far it was read, and none is dead.
pub open spec fn saves(cold: ProjectModel, files: Seq<(Seq<char>, FileEntry)>) -> bool {
    &&& once_each(files)
    &&& forall|i: int|
        0 <= i < files.len() ==> {
            let path = (#[trigger] files[i]).1.path;
            &&& cold.files.dom().contains(path)
            &&& !cold.files[path].dead
            &&& cold.files[path].run == files[i].0
            &&& cold.files[path].committed == files[i].1.offset
            &&& cold.runs.dom().contains(files[i].0)
        }
    &&& forall|path: Seq<char>| #[trigger]
        cold.files.dom().contains(path) ==> exists|i: int|
            0 <= i < files.len() && (#[trigger] files[i]).1.path == path
    &&& forall|run: Seq<char>| #[trigger]
        cold.runs.dom().contains(run) ==> exists|i: int|
            0 <= i < files.len() && (#[trigger] files[i]).0 == run
}

/// A project that loads what another saved starts from it.
pub proof fn law_saved_project_starts_warm(
    runs: NameMap<Run>,
    files: Seq<(Seq<char>, FileEntry)>,
    cold: ProjectModel,
)
    requires
        runs_wf(runs),
        cold.runs == runs.model(),
        cold.files.dom().finite(),
        cold.cached.dom() == Set::<Seq<char>>::empty(),
        saves(cold, files),
    ensures
        starts_from(
            (ProjectModel {
                runs: runs_of(saved(runs, files)),
                cached: files_of(saved(runs, files)),
                ..ProjectModel::start(cold.root)
            }),
            cold,
        ),
{
    let n = runs.names().len();
    lemma_files_saved(runs, files, n);
    lemma_runs_saved(runs, files, n);
    let warm = ProjectModel {
        runs: runs_of(saved(runs, files)),
        cached: files_of(saved(runs, files)),
        ..ProjectModel::start(cold.root)
    };
    assert forall|run: Seq<char>| #[trigger] cold.runs.dom().contains(run) implies
        warm.runs.dom().contains(run) && same_history(warm.runs[run], cold.runs[run]) by {
        runs.lemma_model_has(run);
        let j = runs.index_of(run);
        runs.lemma_model_index(j);
        let i = choose|i: int| 0 <= i < files.len() && (#[trigger] files[i]).0 == run;
        lemma_files_under(files, run);
        assert(files_under(files, run).contains(files[i].1));
        assert(runs.names()[j] == run);
        law_cache_keeps_the_history(run, runs.values()[j], files_under(files, run));
    }
    assert forall|run: Seq<char>| warm.runs.dom().contains(run) implies cold.runs.dom().contains(
        run,
    ) by {
        let j = choose|j: int| 0 <= j < n && #[trigger] runs.names()[j] == run;
        runs.lemma_model_index(j);
    }
    assert(warm.runs.dom() =~= cold.runs.dom());
    assert forall|path: Seq<char>| #[trigger] cold.files.dom().contains(path) implies
        warm.cached.dom().contains(path) && warm.cached[path].run == cold.files[path].run
        && warm.cached[path].offset == cold.files[path].committed by {
        let i = choose|i: int| 0 <= i < files.len() && (#[trigger] files[i]).1.path == path;
        runs.lemma_model_has(files[i].0);
        let j = runs.index_of(files[i].0);
        assert(runs.names()[j] == files[i].0);
    }
    assert forall|path: Seq<char>| warm.cached.dom().contains(path) implies
        cold.files.dom().contains(path) by {
        let (i, j) = choose|i: int, j: int|
            0 <= i < files.len() && 0 <= j < n && (#[trigger] files[i]).1.path == path
                && files[i].0 == #[trigger] runs.names()[j];
        assert(cold.files.dom().contains(files[i].1.path));
    }
    assert(warm.cached.dom() =~= cold.files.dom());
    assert forall|path: Seq<char>| #[trigger] cold.files.dom().contains(path) implies
        !cold.files[path].dead && cold.runs.dom().contains(cold.files[path].run) by {
        let i = choose|i: int| 0 <= i < files.len() && (#[trigger] files[i]).1.path == path;
    }
}

} // verus!
