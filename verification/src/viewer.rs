//! The terminal interface over a project: which runs and tags are in scope,
//! the rows of the runs table, what a keypress does, and what is exported.
use vstd::prelude::*;

use crate::chart::{Wanted, XAxis};
use crate::listing::{
    ascending, has_class, lemma_names_sorted, list_names, note_name, places, shown_runs, view_of,
};
use crate::mlflow::option_text;
use crate::names::{sorted, NameMap};
use crate::numeric::{Moments, Numeric, Wording};
use crate::project::{Disk, Project};
use crate::run::{RefreshReport, Run, Stamp};
use crate::screen;
use crate::series::SeriesClass;
use crate::text::texts;
use crate::tui::{
    cursor_or_first, entry, find_place, fuzzy, fuzzy_match, lemma_no_members, lemma_place_of,
    members, DistributionsModel, DistributionsView, RunsModel, RunsSort, RunsView, ScalarsModel,
    ScalarsView,
};
use crate::warm::runs_wf;

verus! {

/// The interface: a project and the state of its screens.
pub struct App {
    /// The project.
    pub project: Project,
    /// The screen.
    pub view: screen::View,
    /// The runs table.
    pub runs: RunsView,
    /// The scalars view.
    pub scalars: ScalarsView,
    /// The distributions view.
    pub distributions: DistributionsView,
    /// A progressively refined working set of runs; `None` means every run.
    /// Applied before the filter bar everywhere.
    pub working_set: Option<NameMap<()>>,
    /// Whether polling is paused.
    pub paused: bool,
    /// Whether the help is showing.
    pub help: bool,
    /// The time between two polls.
    pub interval: Stamp,
    /// Transient one-line notice, cleared on keypress.
    pub message: Option<String>,
    /// Whether a refresh is due now.
    pub force_refresh: bool,
    /// Whether an export of the screen is due.
    pub export_due: bool,
}

/// What the state of the screens holds.
#[verifier::ext_equal]
pub struct UiModel {
    pub view: screen::View,
    pub runs: RunsModel,
    pub scalars: ScalarsModel,
    pub distributions: DistributionsModel,
    pub working_set: Option<Set<Seq<char>>>,
    pub paused: bool,
    pub help: bool,
    pub message: Option<Seq<char>>,
    pub force_refresh: bool,
    pub export_due: bool,
}

/// The names of an optional set of names.
pub open spec fn option_members(set: Option<NameMap<()>>) -> Option<Set<Seq<char>>> {
    match set {
        Some(s) => Some(members(s)),
        None => None,
    }
}

impl App {
    /// The project and the sets of names are sound.
    pub open spec fn wf(self) -> bool {
        &&& self.project.wf()
        &&& self.runs.wf()
        &&& self.working_set matches Some(s) ==> s.wf()
    }

    /// The state of the screens.
    pub open spec fn ui(self) -> UiModel {
        UiModel {
            view: self.view,
            runs: self.runs@,
            scalars: self.scalars@,
            distributions: self.distributions@,
            working_set: option_members(self.working_set),
            paused: self.paused,
            help: self.help,
            message: option_text(self.message),
            force_refresh: self.force_refresh,
            export_due: self.export_due,
        }
    }
}

/// The state of the screens at the start.
pub open spec fn ui_start(tag_filter: Seq<char>) -> UiModel {
    UiModel {
        view: screen::View::Runs,
        runs: RunsModel {
            cursor: None,
            selected: Set::empty(),
            filter: Seq::empty(),
            editing_filter: false,
            sort: RunsSort::Name,
            descending: false,
        },
        scalars: ScalarsModel {
            cursor: None,
            filter: tag_filter,
            editing_filter: false,
            smooth: 0,
            x_axis: XAxis::Step,
            log_y: false,
            show_ghosts: false,
            crosshair: None,
            x_window: None,
        },
        distributions: DistributionsModel {
            cursor: None,
            filter: Seq::empty(),
            editing_filter: false,
        },
        working_set: None,
        paused: false,
        help: false,
        message: None,
        force_refresh: false,
        export_due: false,
    }
}

impl App {
    /// The interface at the start.
    pub fn new(project: Project, interval: Stamp, tag_filter: &str) -> (app: App)
        requires
            project.wf(),
        ensures
            app.wf(),
            app.ui() == ui_start(tag_filter@),
            app.project == project,
            app.interval == interval,
    {
        let app = App {
            project,
            view: screen::View::Runs,
            runs: RunsView::new(),
            scalars: ScalarsView::new(tag_filter.to_owned()),
            distributions: DistributionsView::new(),
            working_set: None,
            paused: false,
            help: false,
            interval,
            message: None,
            force_refresh: false,
            export_due: false,
        };
        app
    }

    /// Lands with the cursor on the first run, not in a cursorless limbo.
    pub fn land(&mut self)
        requires
            old(self).wf(),
        ensures
            final(self).wf(),
            final(self).project == old(self).project,
            final(self).interval == old(self).interval,
            final(self).ui() == (UiModel {
                runs: RunsModel {
                    cursor: entry(old(self).project.catalog().names(), 0),
                    ..old(self).ui().runs
                },
                ..old(self).ui()
            }),
    {
        let runs = self.project.runs();
        self.runs.cursor = if runs.len() > 0 {
            Some(runs.name_at(0).clone())
        } else {
            None
        };
    }

    /// Takes a refresh in. It changes nothing of the screens: cursors,
    /// selection, sort, filters, smoothing and axes all stay.
    pub fn refresh<F: Fn(&str) -> Option<u64>, G: Fn(u64) -> u64, H: Fn(Moments, u64) -> Moments>(
        &mut self,
        disk: &Disk,
        numeric: &Numeric<F, G, H>,
    ) -> (report: RefreshReport)
        requires
            old(self).wf(),
            numeric.ok(),
            disk.tails.wf(),
        ensures
            final(self).wf(),
            final(self).ui() == (UiModel { force_refresh: false, ..old(self).ui() }),
            final(self).interval == old(self).interval,
            final(self).project@ == numeric.refreshed(old(self).project@, disk@),
            report == final(self).project@.report,
    {
        let report = self.project.refresh(disk, numeric);
        self.force_refresh = false;
        report
    }
}

/// Twice a time, as far as it can be told.
pub open spec fn doubled(time: Stamp) -> Stamp {
    if time.secs >= 0x7FFF_FFFF_FFFF_FFFF {
        Stamp { secs: u64::MAX, nanos: 0 }
    } else if time.nanos >= 500_000_000 {
        Stamp {
            secs: (2 * time.secs + 1) as u64,
            nanos: if time.nanos >= 1_000_000_000 {
                999_999_999
            } else {
                (2 * time.nanos - 1_000_000_000) as u32
            },
        }
    } else {
        Stamp { secs: (2 * time.secs) as u64, nanos: (2 * time.nanos) as u32 }
    }
}

/// Doubles a time.
pub fn double_time(time: Stamp) -> (twice: Stamp)
    ensures
        twice == doubled(time),
{
    if time.secs >= 0x7FFF_FFFF_FFFF_FFFF {
        Stamp { secs: u64::MAX, nanos: 0 }
    } else if time.nanos >= 500_000_000 {
        let nanos: u32 = if time.nanos >= 1_000_000_000 {
            999_999_999
        } else {
            time.nanos - (1_000_000_000 - time.nanos)
        };
        Stamp { secs: 2 * time.secs + 1, nanos }
    } else {
        Stamp { secs: 2 * time.secs, nanos: 2 * time.nanos }
    }
}

/// How recent a write keeps a run active: a minute, or two polls where that
/// is longer.
pub open spec fn active_window(interval: Stamp) -> Stamp {
    if doubled(interval).total() > (Stamp { secs: 60, nanos: 0 }).total() {
        doubled(interval)
    } else {
        Stamp { secs: 60, nanos: 0 }
    }
}

/// Finds how recent a write keeps a run active.
pub fn find_window(interval: Stamp) -> (window: Stamp)
    ensures
        window == active_window(interval),
{
    let twice = double_time(interval);
    let minute = Stamp { secs: 60, nanos: 0 };
    if twice.nanoseconds() > minute.nanoseconds() {
        twice
    } else {
        minute
    }
}

/// Whether a working set admits a run.
pub open spec fn admits(set: Option<Set<Seq<char>>>, name: Seq<char>) -> bool {
    match set {
        Some(s) => s.contains(name),
        None => true,
    }
}

/// The places of a list whose names a working set admits.
pub open spec fn admitted(names: Seq<Seq<char>>, list: Seq<int>, set: Option<Set<Seq<char>>>) -> Seq<int>
    decreases list.len(),
{
    if list.len() == 0 {
        Seq::empty()
    } else {
        let before = admitted(names, list.drop_last(), set);
        if admits(set, names[list.last()]) {
            before.push(list.last())
        } else {
            before
        }
    }
}

/// A filter text as a filter: an empty one lets everything through.
pub open spec fn as_filter(text: Seq<char>) -> Option<Seq<char>> {
    if text.len() == 0 {
        None
    } else {
        Some(text)
    }
}

impl<F: Fn(&str) -> Option<u64>, P: Fn(u64) -> String> Wording<F, P> {
    /// Where the runs stand that pass the working set and the runs filter.
    pub open spec fn in_scope(self, runs: NameMap<Run>, ui: UiModel, now: Stamp, window: Stamp) -> Seq<int> {
        admitted(
            runs.names(),
            self.all_shown(runs, as_filter(ui.runs.filter), now, window),
            ui.working_set,
        )
    }

    /// The runs that the chart views draw: the selection where there is one,
    /// else every run in scope.
    pub open spec fn drawn(self, runs: NameMap<Run>, ui: UiModel, now: Stamp, window: Stamp) -> Seq<
        Seq<char>,
    > {
        if ui.runs.selected != Set::<Seq<char>>::empty() {
            sorted(
                Set::new(
                    |name: Seq<char>|
                        ui.runs.selected.contains(name) && admits(ui.working_set, name),
                ),
            )
        } else {
            self.in_scope(runs, ui, now, window).map_values(|at: int| runs.names()[at])
        }
    }
}

/// The tags of a class that one of some runs has and a filter finds.
pub open spec fn found_tags(
    runs: NameMap<Run>,
    scope: Seq<Seq<char>>,
    class: SeriesClass,
    filter: Seq<char>,
) -> Set<Seq<char>> {
    Set::new(
        |tag: Seq<char>|
            fuzzy(tag, filter) && exists|k: int|
                0 <= k < scope.len() && runs.has(#[trigger] scope[k]) && has_class(
                    runs.at(scope[k]),
                    tag,
                    class,
                ),
    )
}

impl App {
    /// Whether the working set admits a run.
    fn in_working_set(&self, name: &str) -> (admitted: bool)
        requires
            self.wf(),
        ensures
            admitted == admits(self.ui().working_set, name@),
    {
        match &self.working_set {
            Some(set) => {
                proof {
                    lemma_no_members(*set);
                }
                set.contains(name)
            },
            None => true,
        }
    }

    /// Finds the runs that pass the working set and the runs filter.
    pub fn scope<F: Fn(&str) -> Option<u64>, P: Fn(u64) -> String>(
        &self,
        now: Stamp,
        wording: &Wording<F, P>,
    ) -> (list: Vec<usize>)
        requires
            self.wf(),
            wording.ok(),
        ensures
            places(list@) == wording.in_scope(
                self.project.catalog(),
                self.ui(),
                now,
                active_window(self.interval),
            ),
            forall|k: int|
                0 <= k < list@.len() ==> #[trigger] list@[k] < self.project.catalog().names().len(),
    {
        let window = find_window(self.interval);
        let runs = self.project.runs();
        let filter: Option<&str> = if self.runs.filter.as_str().is_empty() {
            None
        } else {
            Some(self.runs.filter.as_str())
        };
        assert(view_of(filter) == as_filter(self.ui().runs.filter));
        let shown = shown_runs(runs, filter, now, window, wording);
        let ghost all = places(shown@);
        let ghost set = self.ui().working_set;
        let mut list: Vec<usize> = Vec::new();
        let mut k: usize = 0;
        proof {
            wording.lemma_shown(*runs, view_of(filter), now, window, runs.names().len());
        }
        assert(all.take(0) =~= Seq::<int>::empty());
        assert(places(list@) =~= Seq::<int>::empty());
        while k < shown.len()
            invariant
                k <= shown@.len(),
                self.wf(),
                runs_wf(*runs),
                all == places(shown@),
                set == self.ui().working_set,
                ascending(all, runs.names().len()),
                places(list@) == admitted(runs.names(), all.take(k as int), set),
                forall|j: int| 0 <= j < list@.len() ==> #[trigger] list@[j] < runs.names().len(),
            decreases shown@.len() - k,
        {
            assert(all.take(k + 1).drop_last() =~= all.take(k as int));
            assert(all[k as int] == shown@[k as int]);
            let at: usize = shown[k];
            if self.in_working_set(runs.name_at(at)) {
                let ghost before = list@;
                list.push(at);
                assert(places(list@) =~= places(before).push(at as int));
            }
            k += 1;
        }
        assert(all.take(all.len() as int) =~= all);
        list
    }

    fn picked(&self) -> (list: Vec<String>)
        requires
            self.wf(),
        ensures
            texts(list@) == sorted(
                Set::new(
                    |name: Seq<char>|
                        self.ui().runs.selected.contains(name) && admits(
                            self.ui().working_set,
                            name,
                        ),
                ),
            ),
    {
        let selected = &self.runs.selected;
        let mut set: NameMap<()> = NameMap::new();
        let mut i: usize = 0;
        while i < selected.len()
            invariant
                i <= selected.names().len(),
                *selected == self.runs.selected,
                self.wf(),
                set.wf(),
                forall|n: Seq<char>| #[trigger]
                    set.has(n) <==> admits(self.ui().working_set, n) && exists|j: int|
                        0 <= j < i && #[trigger] selected.names()[j] == n,
            decreases selected.names().len() - i,
        {
            if self.in_working_set(selected.name_at(i)) {
                note_name(&mut set, selected.name_at(i));
            }
            i += 1;
        }
        proof {
            lemma_no_members(*selected);
            let wanted = Set::new(
                |name: Seq<char>|
                    self.ui().runs.selected.contains(name) && admits(self.ui().working_set, name),
            );
            assert forall|n: Seq<char>| #[trigger] set.has(n) <==> wanted.contains(n) by {
                assert(members(*selected).contains(n) <==> selected.has(n));
            }
            lemma_names_sorted(set, wanted);
        }
        list_names(&set)
    }

    /// The runs that the chart views draw: the selection where there is one,
    /// else every run passing the working set and the runs filter.
    pub fn scoped_runs<F: Fn(&str) -> Option<u64>, P: Fn(u64) -> String>(
        &self,
        now: Stamp,
        wording: &Wording<F, P>,
    ) -> (list: Vec<String>)
        requires
            self.wf(),
            wording.ok(),
        ensures
            texts(list@) == wording.drawn(
                self.project.catalog(),
                self.ui(),
                now,
                active_window(self.interval),
            ),
    {
        proof {
            lemma_no_members(self.runs.selected);
        }
        if !self.runs.selected.is_empty() {
            return self.picked();
        }
        let places_in = self.scope(now, wording);
        let runs = self.project.runs();
        let ghost goal = places(places_in@).map_values(|at: int| runs.names()[at]);
        let mut list: Vec<String> = Vec::new();
        let mut k: usize = 0;
        assert(texts(list@) =~= goal.take(0));
        while k < places_in.len()
            invariant
                k <= places_in@.len(),
                goal == places(places_in@).map_values(|at: int| runs.names()[at]),
                forall|j: int| 0 <= j < places_in@.len() ==> #[trigger] places_in@[j] < runs.names().len(),
                texts(list@) == goal.take(k as int),
            decreases places_in@.len() - k,
        {
            let ghost before = list@;
            list.push(runs.name_at(places_in[k]).clone());
            assert(texts(list@) =~= texts(before).push(goal[k as int]));
            assert(goal.take(k + 1) =~= goal.take(k as int).push(goal[k as int]));
            k += 1;
        }
        assert(goal.take(goal.len() as int) =~= goal);
        list
    }
}

fn note_found(set: &mut NameMap<()>, run: &Run, class: SeriesClass, filter: &str)
    requires
        old(set).wf(),
        run.wf(),
    ensures
        final(set).wf(),
        forall|n: Seq<char>| #[trigger]
            final(set).has(n) <==> old(set).has(n) || fuzzy(n, filter@) && has_class(*run, n, class),
{
    let ghost before = *set;
    let mut i: usize = 0;
    while i < run.series.len()
        invariant
            i <= run.series.names().len(),
            run.wf(),
            set.wf(),
            forall|n: Seq<char>| #[trigger]
                set.has(n) <==> before.has(n) || fuzzy(n, filter@) && exists|j: int|
                    0 <= j < i && #[trigger] run.series.names()[j] == n
                        && run.series.values()[j].class == class,
        decreases run.series.names().len() - i,
    {
        let fits = run.series.value_at(i).class == class;
        if fits && fuzzy_match(run.series.name_at(i), filter) {
            note_name(set, run.series.name_at(i));
        }
        i += 1;
    }
    assert forall|n: Seq<char>| #[trigger] set.has(n) <==> before.has(n) || fuzzy(n, filter@)
        && has_class(*run, n, class) by {
        if run.series.has(n) {
            let j = run.series.index_of(n);
            assert(run.series.names()[j] == n);
        }
        if exists|j: int|
            0 <= j < run.series.names().len() && #[trigger] run.series.names()[j] == n
                && run.series.values()[j].class == class {
            let j = choose|j: int|
                0 <= j < run.series.names().len() && #[trigger] run.series.names()[j] == n
                    && run.series.values()[j].class == class;
            run.series.lemma_index(j);
        }
    }
}

/// Finds the tags of a class that one of some runs has and a filter finds.
pub fn gather_tags(runs: &NameMap<Run>, scope: &Vec<String>, class: SeriesClass, filter: &str) -> (tags: Vec<
    String,
>)
    requires
        runs_wf(*runs),
    ensures
        texts(tags@) == sorted(found_tags(*runs, texts(scope@), class, filter@)),
{
    let ghost all = texts(scope@);
    let mut set: NameMap<()> = NameMap::new();
    let mut k: usize = 0;
    while k < scope.len()
        invariant
            k <= scope@.len(),
            runs_wf(*runs),
            all == texts(scope@),
            set.wf(),
            forall|n: Seq<char>| #[trigger]
                set.has(n) <==> fuzzy(n, filter@) && exists|j: int|
                    0 <= j < k && runs.has(#[trigger] all[j]) && has_class(
                        runs.at(all[j]),
                        n,
                        class,
                    ),
        decreases scope@.len() - k,
    {
        assert(all[k as int] == scope@[k as int]@);
        if let Some(run) = runs.get(&scope[k]) {
            proof {
                runs.lemma_index(runs.index_of(all[k as int]));
                assert(run.wf());
            }
            note_found(&mut set, run, class, filter);
        }
        k += 1;
    }
    proof {
        lemma_names_sorted(set, found_tags(*runs, all, class, filter@));
    }
    list_names(&set)
}

impl<F: Fn(&str) -> Option<u64>, P: Fn(u64) -> String> Wording<F, P> {
    /// The scalar tags in scope.
    pub open spec fn scalar_tags(self, runs: NameMap<Run>, ui: UiModel, now: Stamp, window: Stamp) -> Seq<
        Seq<char>,
    > {
        sorted(
            found_tags(
                runs,
                self.drawn(runs, ui, now, window),
                SeriesClass::Scalar,
                ui.scalars.filter,
            ),
        )
    }

    /// The histogram tags in scope.
    pub open spec fn histogram_list(self, runs: NameMap<Run>, ui: UiModel, now: Stamp, window: Stamp) -> Seq<
        Seq<char>,
    > {
        sorted(
            found_tags(
                runs,
                self.drawn(runs, ui, now, window),
                SeriesClass::Histogram,
                ui.distributions.filter,
            ),
        )
    }

    /// The tag that the chart draws: the cursor where it is in scope, else
    /// the first tag that is.
    pub open spec fn charted_tag(self, runs: NameMap<Run>, ui: UiModel, now: Stamp, window: Stamp) -> Option<
        Seq<char>,
    > {
        cursor_or_first(ui.scalars.cursor, self.scalar_tags(runs, ui, now, window))
    }
}

/// The first run of a list that has a series under a tag.
pub open spec fn first_with(runs: NameMap<Run>, scope: Seq<Seq<char>>, tag: Seq<char>) -> Option<Seq<char>>
    decreases scope.len(),
{
    if scope.len() == 0 {
        None
    } else {
        match first_with(runs, scope.drop_last(), tag) {
            Some(name) => Some(name),
            None => if has_tag(runs, scope.last(), tag) {
                Some(scope.last())
            } else {
                None
            },
        }
    }
}

/// Whether a run has a series under a tag.
pub open spec fn has_tag(runs: NameMap<Run>, run: Seq<char>, tag: Seq<char>) -> bool {
    runs.has(run) && runs.at(run).series.has(tag)
}

fn run_has_tag(runs: &NameMap<Run>, run: &str, tag: &str) -> (result: bool)
    requires
        runs_wf(*runs),
    ensures
        result == has_tag(*runs, run@, tag@),
{
    match runs.get(run) {
        Some(found) => {
            proof {
                runs.lemma_index(runs.index_of(run@));
                assert(found.wf());
            }
            found.series.contains(tag)
        },
        None => false,
    }
}

fn find_first_with(runs: &NameMap<Run>, scope: &Vec<String>, tag: &str) -> (name: Option<String>)
    requires
        runs_wf(*runs),
    ensures
        option_text(name) == first_with(*runs, texts(scope@), tag@),
{
    let ghost all = texts(scope@);
    let mut found: Option<String> = None;
    let mut i: usize = 0;
    assert(all.take(0) =~= Seq::<Seq<char>>::empty());
    while i < scope.len()
        invariant
            i <= scope@.len(),
            runs_wf(*runs),
            all == texts(scope@),
            option_text(found) == first_with(*runs, all.take(i as int), tag@),
        decreases scope@.len() - i,
    {
        assert(all.take(i + 1).drop_last() =~= all.take(i as int));
        assert(all[i as int] == scope@[i as int]@);
        if found.is_none() && run_has_tag(runs, &scope[i], tag) {
            found = Some(scope[i].clone());
        }
        i += 1;
    }
    assert(all.take(all.len() as int) =~= all);
    found
}

impl<F: Fn(&str) -> Option<u64>, P: Fn(u64) -> String> Wording<F, P> {
    /// The run and tag that the distributions view shows: the cursor tag
    /// where it is in scope, else the first; in the cursor run where that is
    /// in scope and has the tag, else in the first run that does.
    pub open spec fn distribution(self, runs: NameMap<Run>, ui: UiModel, now: Stamp, window: Stamp) -> Option<
        (Seq<char>, Seq<char>),
    > {
        let scope = self.drawn(runs, ui, now, window);
        match cursor_or_first(ui.distributions.cursor, self.histogram_list(runs, ui, now, window)) {
            None => None,
            Some(tag) => {
                let run = match ui.runs.cursor {
                    Some(name) => if scope.contains(name) && has_tag(runs, name, tag) {
                        Some(name)
                    } else {
                        first_with(runs, scope, tag)
                    },
                    None => first_with(runs, scope, tag),
                };
                match run {
                    Some(name) => Some((name, tag)),
                    None => None,
                }
            },
        }
    }
}

fn pick_cursor(cursor: &Option<String>, list: &Vec<String>) -> (name: Option<String>)
    ensures
        option_text(name) == cursor_or_first(option_text(*cursor), texts(list@)),
{
    if let Some(name) = cursor {
        if find_place(list, name).is_some() {
            return Some(name.clone());
        }
    }
    if list.len() > 0 {
        Some(list[0].clone())
    } else {
        None
    }
}

impl App {
    /// The scalar tags in scope, found by the filter.
    pub fn visible_tags<F: Fn(&str) -> Option<u64>, P: Fn(u64) -> String>(
        &self,
        now: Stamp,
        wording: &Wording<F, P>,
    ) -> (tags: Vec<String>)
        requires
            self.wf(),
            wording.ok(),
        ensures
            texts(tags@) == wording.scalar_tags(
                self.project.catalog(),
                self.ui(),
                now,
                active_window(self.interval),
            ),
    {
        let scope = self.scoped_runs(now, wording);
        gather_tags(self.project.runs(), &scope, SeriesClass::Scalar, &self.scalars.filter)
    }

    /// The histogram tags in scope, found by the filter.
    pub fn histogram_tags<F: Fn(&str) -> Option<u64>, P: Fn(u64) -> String>(
        &self,
        now: Stamp,
        wording: &Wording<F, P>,
    ) -> (tags: Vec<String>)
        requires
            self.wf(),
            wording.ok(),
        ensures
            texts(tags@) == wording.histogram_list(
                self.project.catalog(),
                self.ui(),
                now,
                active_window(self.interval),
            ),
    {
        let scope = self.scoped_runs(now, wording);
        gather_tags(self.project.runs(), &scope, SeriesClass::Histogram, &self.distributions.filter)
    }

    /// The tag that the chart draws.
    pub fn current_tag<F: Fn(&str) -> Option<u64>, P: Fn(u64) -> String>(
        &self,
        now: Stamp,
        wording: &Wording<F, P>,
    ) -> (tag: Option<String>)
        requires
            self.wf(),
            wording.ok(),
        ensures
            option_text(tag) == wording.charted_tag(
                self.project.catalog(),
                self.ui(),
                now,
                active_window(self.interval),
            ),
    {
        let tags = self.visible_tags(now, wording);
        pick_cursor(&self.scalars.cursor, &tags)
    }

    /// The run and tag that the distributions view shows.
    pub fn distribution_target<F: Fn(&str) -> Option<u64>, P: Fn(u64) -> String>(
        &self,
        now: Stamp,
        wording: &Wording<F, P>,
    ) -> (target: Option<Wanted>)
        requires
            self.wf(),
            wording.ok(),
        ensures
            (match target {
                Some(wanted) => Some(wanted@),
                None => None,
            }) == wording.distribution(
                self.project.catalog(),
                self.ui(),
                now,
                active_window(self.interval),
            ),
    {
        let tags = self.histogram_tags(now, wording);
        let tag = match pick_cursor(&self.distributions.cursor, &tags) {
            Some(tag) => tag,
            None => {
                return None;
            },
        };
        let scope = self.scoped_runs(now, wording);
        let runs = self.project.runs();
        if let Some(name) = &self.runs.cursor {
            proof {
                lemma_place_of(texts(scope@), name@);
            }
            if find_place(&scope, name).is_some() && run_has_tag(runs, name, &tag) {
                return Some(Wanted { run: name.clone(), tag });
            }
        }
        match find_first_with(runs, &scope, &tag) {
            Some(run) => Some(Wanted { run, tag }),
            None => None,
        }
    }
}

/// The most panels of the compare grid.
pub const COMPARE_TAGS: usize = 12;

/// The most runs that a panel of the compare grid overlays.
pub const COMPARE_RUNS: usize = 4;

/// The first entries of a list.
pub open spec fn at_most(list: Seq<Seq<char>>, n: int) -> Seq<Seq<char>> {
    if list.len() > n {
        list.take(n)
    } else {
        list
    }
}

fn shorten(list: &mut Vec<String>, n: usize)
    ensures
        texts(final(list)@) == at_most(texts(old(list)@), n as int),
{
    if list.len() > n {
        let ghost before = list@;
        list.truncate(n);
        assert(texts(list@) =~= texts(before).take(n as int));
    }
}

impl App {
    /// The tags that the compare grid panels, and the runs that each panel
    /// overlays: capped so that the whole grid stays inside the
    /// materialization budget.
    pub fn compare_scope<F: Fn(&str) -> Option<u64>, P: Fn(u64) -> String>(
        &self,
        now: Stamp,
        wording: &Wording<F, P>,
    ) -> (scope: (Vec<String>, Vec<String>))
        requires
            self.wf(),
            wording.ok(),
        ensures
            texts(scope.0@) == at_most(
                wording.scalar_tags(
                    self.project.catalog(),
                    self.ui(),
                    now,
                    active_window(self.interval),
                ),
                COMPARE_TAGS as int,
            ),
            texts(scope.1@) == at_most(
                wording.drawn(
                    self.project.catalog(),
                    self.ui(),
                    now,
                    active_window(self.interval),
                ),
                COMPARE_RUNS as int,
            ),
    {
        let mut tags = self.visible_tags(now, wording);
        shorten(&mut tags, COMPARE_TAGS);
        let mut runs = self.scoped_runs(now, wording);
        shorten(&mut runs, COMPARE_RUNS);
        (tags, runs)
    }
}

/// The compare grid stays inside the materialization budget, also where
/// every run's token counter is held beside its series.
pub proof fn law_compare_fits_the_budget()
    ensures
        COMPARE_TAGS * COMPARE_RUNS + COMPARE_RUNS <= crate::project::MATERIALIZE_CAP,
{
}

} // verus!
