//! What a keypress does to the interface, and what has to be materialized
//! before a screen is drawn.
use vstd::prelude::*;

use crate::arith::{Arith, Operation};
use crate::chart::{
    counter_in, extent, find_counter, wanted_model, ChartData, ChartModel, ChartOptions,
    OptionsModel, Wanted, XAxis,
};
use crate::listing::{list_names, RowModel};
use crate::mlflow::option_text;
use crate::names::NameMap;
use crate::numeric::Wording;
use crate::project::ProjectModel;
use crate::rows::{rows_of, table_entries};
use crate::run::{Run, RunModel, Stamp};
use crate::screen;
use crate::text::texts;
use crate::tui::{
    distributions_pressed, edit, edited, lemma_no_members, members, runs_pressed, Action,
    DistributionsModel, Key, Press, RunsModel, ScalarsModel,
};
use crate::viewer::{active_window, admits, at_most, App, UiModel, COMPARE_RUNS, COMPARE_TAGS};
use crate::warm::runs_wf;

verus! {

impl<O: Fn(Operation, u64, u64) -> u64, I: Fn(i64) -> u64> Arith<O, I> {
    /// The chart options of the state of the scalars view.
    pub open spec fn options_of(self, state: ScalarsModel) -> OptionsModel {
        OptionsModel {
            x_axis: state.x_axis,
            smooth: if state.smooth > 0 {
                Some(self.quotient(self.number(state.smooth as i64), self.number(10)))
            } else {
                None
            },
            runs_filter: None,
            log_y: state.log_y,
            show_ghosts: state.show_ghosts,
            tokens_tag: None,
        }
    }
}

/// The chart of the scalars view, where there is a tag to draw.
pub open spec fn chart_of<
    F: Fn(&str) -> Option<u64>,
    P: Fn(u64) -> String,
    O: Fn(Operation, u64, u64) -> u64,
    I: Fn(i64) -> u64,
>(
    wording: Wording<F, P>,
    arith: Arith<O, I>,
    project: ProjectModel,
    runs: NameMap<Run>,
    ui: UiModel,
    now: Stamp,
    window: Stamp,
) -> Option<ChartModel> {
    match wording.charted_tag(runs, ui, now, window) {
        Some(tag) => Some(
            arith.tagged(
                project,
                wording.drawn(runs, ui, now, window),
                tag,
                arith.options_of(ui.scalars),
            ),
        ),
        None => None,
    }
}

impl App {
    /// The chart options of the scalars view.
    pub fn chart_options<O: Fn(Operation, u64, u64) -> u64, I: Fn(i64) -> u64>(
        &self,
        arith: &Arith<O, I>,
    ) -> (options: ChartOptions)
        requires
            arith.ok(),
        ensures
            options@ == arith.options_of(self.ui().scalars),
    {
        ChartOptions {
            x_axis: self.scalars.x_axis,
            smooth: if self.scalars.smooth > 0 {
                Some(
                    arith.over(
                        arith.from_whole(self.scalars.smooth as i64),
                        arith.from_whole(10),
                    ),
                )
            } else {
                None
            },
            runs_filter: None,
            log_y: self.scalars.log_y,
            show_ghosts: self.scalars.show_ghosts,
            tokens_tag: None,
        }
    }

    /// The chart of the scalars view, where there is a tag to draw.
    pub fn scalars_chart<
        F: Fn(&str) -> Option<u64>,
        P: Fn(u64) -> String,
        O: Fn(Operation, u64, u64) -> u64,
        I: Fn(i64) -> u64,
    >(&self, now: Stamp, wording: &Wording<F, P>, arith: &Arith<O, I>) -> (chart: Option<ChartData>)
        requires
            self.wf(),
            wording.ok(),
            arith.ok(),
        ensures
            option_chart(chart) == chart_of(
                *wording,
                *arith,
                self.project@,
                self.project.catalog(),
                self.ui(),
                now,
                active_window(self.interval),
            ),
            chart matches Some(c) ==> c.wf(),
    {
        match self.current_tag(now, wording) {
            Some(tag) => {
                let scope = self.scoped_runs(now, wording);
                Some(
                    ChartData::for_tag(
                        &self.project,
                        &scope,
                        &tag,
                        &self.chart_options(arith),
                        arith,
                    ),
                )
            },
            None => None,
        }
    }
}

/// What an optional chart holds.
pub open spec fn option_chart(chart: Option<ChartData>) -> Option<ChartModel> {
    match chart {
        Some(c) => Some(c@),
        None => None,
    }
}

/// What a keypress is weighed against: the names of the runs table, the tags
/// in scope, the catalog, and the chart's first series and x range.
pub struct Surroundings {
    pub rows: Seq<Seq<char>>,
    pub tags: Seq<Seq<char>>,
    pub histograms: Seq<Seq<char>>,
    pub catalog: Seq<Seq<char>>,
    pub xs: Seq<u64>,
    pub range: Option<(u64, u64)>,
}

/// The positions of a chart's first series.
pub open spec fn first_xs(chart: Option<ChartModel>) -> Seq<u64> {
    match chart {
        Some(c) => if c.series.len() > 0 {
            c.series[0].line.xs
        } else {
            Seq::empty()
        },
        None => Seq::empty(),
    }
}

/// The x range of a chart.
pub open spec fn chart_range(chart: Option<ChartModel>) -> Option<(u64, u64)> {
    match chart {
        Some(c) => extent(c.series),
        None => None,
    }
}

/// The surroundings of the interface.
pub open spec fn surroundings<
    F: Fn(&str) -> Option<u64>,
    P: Fn(u64) -> String,
    O: Fn(Operation, u64, u64) -> u64,
    I: Fn(i64) -> u64,
>(
    wording: Wording<F, P>,
    arith: Arith<O, I>,
    project: ProjectModel,
    runs: NameMap<Run>,
    ui: UiModel,
    now: Stamp,
    window: Stamp,
) -> Surroundings {
    let chart = chart_of(wording, arith, project, runs, ui, now, window);
    Surroundings {
        rows: rows_of(table_entries(wording, arith, runs, ui, now, window)).map_values(
            |row: RowModel| row.name,
        ),
        tags: wording.scalar_tags(runs, ui, now, window),
        histograms: wording.histogram_list(runs, ui, now, window),
        catalog: runs.names(),
        xs: first_xs(chart),
        range: chart_range(chart),
    }
}

impl UiModel {
    /// Whether the filter of the screen is under edit.
    pub open spec fn editing(self) -> bool {
        match self.view {
            screen::View::Runs | screen::View::Hparams => self.runs.editing_filter,
            screen::View::Scalars | screen::View::Compare => self.scalars.editing_filter,
            screen::View::Distributions => self.distributions.editing_filter,
        }
    }

    /// The filter of the screen.
    pub open spec fn filter(self) -> Seq<char> {
        match self.view {
            screen::View::Runs | screen::View::Hparams => self.runs.filter,
            screen::View::Scalars | screen::View::Compare => self.scalars.filter,
            screen::View::Distributions => self.distributions.filter,
        }
    }

    /// The state with another filter of the screen, under edit or not.
    pub open spec fn with_filter(self, filter: Seq<char>, editing: bool) -> UiModel {
        match self.view {
            screen::View::Runs | screen::View::Hparams => UiModel {
                runs: RunsModel { filter, editing_filter: editing, ..self.runs },
                ..self
            },
            screen::View::Scalars | screen::View::Compare => UiModel {
                scalars: ScalarsModel { filter, editing_filter: editing, ..self.scalars },
                ..self
            },
            screen::View::Distributions => UiModel {
                distributions: DistributionsModel {
                    filter,
                    editing_filter: editing,
                    ..self.distributions
                },
                ..self
            },
        }
    }

    /// The runs that keeping and excluding speak of: the selection, or the
    /// run under the cursor.
    pub open spec fn meant(self) -> Set<Seq<char>> {
        if self.runs.selected != Set::<Seq<char>>::empty() {
            self.runs.selected
        } else {
            match self.runs.cursor {
                Some(name) => Set::empty().insert(name),
                None => Set::empty(),
            }
        }
    }

    /// The state with another working set, and nothing selected.
    pub open spec fn refined(self, set: Set<Seq<char>>) -> UiModel {
        UiModel {
            working_set: Some(set),
            runs: RunsModel { selected: Set::empty(), ..self.runs },
            ..self
        }
    }

    /// Keeps the runs that are meant as the working set.
    pub open spec fn kept(self) -> UiModel {
        if self.meant() != Set::<Seq<char>>::empty() {
            self.refined(self.meant())
        } else {
            self
        }
    }

    /// Takes the runs that are meant out of the working set.
    pub open spec fn excluded(self, catalog: Seq<Seq<char>>) -> UiModel {
        if self.meant() != Set::<Seq<char>>::empty() {
            self.refined(
                Set::new(
                    |name: Seq<char>|
                        catalog.contains(name) && admits(self.working_set, name)
                            && !self.meant().contains(name),
                ),
            )
        } else {
            self
        }
    }
}

impl<O: Fn(Operation, u64, u64) -> u64, I: Fn(i64) -> u64> Arith<O, I> {
    /// What a key that is for one screen does.
    pub open spec fn on_screen(self, ui: UiModel, key: Key, around: Surroundings) -> UiModel {
        match ui.view {
            screen::View::Runs | screen::View::Hparams => {
                let (runs, view) = runs_pressed(ui.runs, key, around.rows, ui.view);
                UiModel { runs, view, ..ui }
            },
            screen::View::Scalars | screen::View::Compare => {
                let (scalars, view) = self.scalars_pressed(
                    ui.scalars,
                    key,
                    around.tags,
                    around.xs,
                    around.range,
                    ui.view,
                );
                UiModel { scalars, view, ..ui }
            },
            screen::View::Distributions => {
                let (distributions, view) = distributions_pressed(
                    ui.distributions,
                    key,
                    around.histograms,
                    ui.view,
                );
                UiModel { distributions, view, ..ui }
            },
        }
    }

    /// What a keypress makes of the interface. It clears the notice; any key
    /// closes the help; a filter under edit takes everything else.
    pub open spec fn pressed(self, start: UiModel, press: Press, around: Surroundings) -> (
        UiModel,
        Action,
    ) {
        let ui = UiModel { message: None, export_due: false, ..start };
        if ui.help {
            (UiModel { help: false, ..ui }, Action::Continue)
        } else if ui.editing() {
            let (filter, editing) = edited(ui.filter(), press);
            (ui.with_filter(filter, editing), Action::Continue)
        } else {
            match press.key {
                Key::Char('q') => (ui, Action::Quit),
                Key::Char('?') => (UiModel { help: true, ..ui }, Action::Continue),
                Key::Char('p') => (UiModel { paused: !ui.paused, ..ui }, Action::Continue),
                Key::Char('r') => (UiModel { force_refresh: true, ..ui }, Action::Continue),
                Key::Char('e') => (UiModel { export_due: true, ..ui }, Action::Continue),
                Key::Char('/') => (ui.with_filter(ui.filter(), true), Action::Continue),
                Key::Tab => (
                    UiModel { view: screen::view_behind(ui.view), ..ui },
                    Action::Continue,
                ),
                Key::Char('1') => (UiModel { view: screen::View::Runs, ..ui }, Action::Continue),
                Key::Char('2') => (UiModel { view: screen::View::Scalars, ..ui }, Action::Continue),
                Key::Char('3') => (UiModel { view: screen::View::Compare, ..ui }, Action::Continue),
                Key::Char('4') => (UiModel { view: screen::View::Hparams, ..ui }, Action::Continue),
                Key::Char('5') => (
                    UiModel { view: screen::View::Distributions, ..ui },
                    Action::Continue,
                ),
                Key::Char('K') => (ui.kept(), Action::Continue),
                Key::Char('X') => (ui.excluded(around.catalog), Action::Continue),
                Key::Char('U') => (UiModel { working_set: None, ..ui }, Action::Continue),
                key => (self.on_screen(ui, key, around), Action::Continue),
            }
        }
    }

    /// Only a plain `q` outside of a filter and the help leaves.
    pub proof fn law_only_q_quits(self, ui: UiModel, press: Press, around: Surroundings)
        ensures
            self.pressed(ui, press, around).1 == Action::Quit <==> press.key == Key::Char('q')
                && !ui.help && !ui.editing(),
    {
    }

    /// A key typed into a filter changes nothing but that filter and the
    /// notice.
    pub proof fn law_editing_is_contained(self, ui: UiModel, press: Press, around: Surroundings)
        requires
            ui.editing(),
            !ui.help,
        ensures
            ({
                let (after, action) = self.pressed(ui, press, around);
                &&& action == Action::Continue
                &&& after == (UiModel { message: None, export_due: false, ..ui }).with_filter(
                    after.filter(),
                    after.editing(),
                )
            }),
    {
    }

    /// Keeping and then resetting shows every run again, whatever was kept.
    pub proof fn law_reset_undoes_keep(self, ui: UiModel, around: Surroundings, other: Surroundings)
        requires
            !ui.help,
            !ui.editing(),
        ensures
            ({
                let keep = Press { key: Key::Char('K'), control: false, alt: false };
                let reset = Press { key: Key::Char('U'), control: false, alt: false };
                let kept = self.pressed(ui, keep, around).0;
                &&& self.pressed(kept, reset, other).0.working_set is None
                &&& ui.meant() != Set::<Seq<char>>::empty() ==> kept.working_set == Some(ui.meant())
            }),
    {
    }

    /// An excluded run is out of the working set, and no other run of the
    /// catalog leaves it.
    pub proof fn law_exclude_removes_just_those(self, ui: UiModel, around: Surroundings, name: Seq<char>)
        requires
            !ui.help,
            !ui.editing(),
            around.catalog.contains(name),
            ui.meant() != Set::<Seq<char>>::empty(),
        ensures
            ({
                let exclude = Press { key: Key::Char('X'), control: false, alt: false };
                let after = self.pressed(ui, exclude, around).0;
                admits(after.working_set, name) <==> admits(ui.working_set, name)
                    && !ui.meant().contains(name)
            }),
    {
    }
}

/// The names of a set of one, where there is a name.
fn set_of(name: &Option<String>) -> (set: NameMap<()>)
    ensures
        set.wf(),
        members(set) == (match option_text(*name) {
            Some(n) => Set::<Seq<char>>::empty().insert(n),
            None => Set::<Seq<char>>::empty(),
        }),
{
    let mut set: NameMap<()> = NameMap::new();
    if let Some(name) = name {
        set.insert(name.clone(), ());
        assert(members(set) =~= Set::<Seq<char>>::empty().insert(name@));
    } else {
        assert(members(set) =~= Set::<Seq<char>>::empty());
    }
    set
}

impl App {
    fn set_editing(&mut self, editing: bool)
        requires
            old(self).wf(),
        ensures
            final(self).wf(),
            final(self).project == old(self).project,
            final(self).interval == old(self).interval,
            final(self).ui() == old(self).ui().with_filter(old(self).ui().filter(), editing),
    {
        match self.view {
            screen::View::Runs | screen::View::Hparams => {
                self.runs.editing_filter = editing;
            },
            screen::View::Scalars | screen::View::Compare => {
                self.scalars.editing_filter = editing;
            },
            screen::View::Distributions => {
                self.distributions.editing_filter = editing;
            },
        }
    }

    fn edit_filter(&mut self, press: Press)
        requires
            old(self).wf(),
        ensures
            final(self).wf(),
            final(self).project == old(self).project,
            final(self).interval == old(self).interval,
            ({
                let (filter, editing) = edited(old(self).ui().filter(), press);
                final(self).ui() == old(self).ui().with_filter(filter, editing)
            }),
    {
        match self.view {
            screen::View::Runs | screen::View::Hparams => {
                self.runs.editing_filter = edit(&mut self.runs.filter, press);
            },
            screen::View::Scalars | screen::View::Compare => {
                self.scalars.editing_filter = edit(&mut self.scalars.filter, press);
            },
            screen::View::Distributions => {
                self.distributions.editing_filter = edit(&mut self.distributions.filter, press);
            },
        }
    }

    /// Takes out the runs that keeping and excluding speak of.
    fn take_meant(&mut self) -> (set: NameMap<()>)
        requires
            old(self).wf(),
        ensures
            final(self).wf(),
            final(self).project == old(self).project,
            final(self).interval == old(self).interval,
            set.wf(),
            members(set) == old(self).ui().meant(),
            final(self).ui() == (UiModel {
                runs: RunsModel { selected: Set::empty(), ..old(self).ui().runs },
                ..old(self).ui()
            }),
    {
        proof {
            lemma_no_members(self.runs.selected);
        }
        if self.runs.selected.is_empty() {
            let set = set_of(&self.runs.cursor);
            assert(self.ui() =~= (UiModel {
                runs: RunsModel { selected: Set::empty(), ..self.ui().runs },
                ..self.ui()
            }));
            return set;
        }
        let mut set: NameMap<()> = NameMap::new();
        assert(members(set) =~= Set::<Seq<char>>::empty());
        std::mem::swap(&mut set, &mut self.runs.selected);
        set
    }

    /// The working set becomes the selection (or the cursor run).
    fn keep(&mut self)
        requires
            old(self).wf(),
        ensures
            final(self).wf(),
            final(self).project == old(self).project,
            final(self).interval == old(self).interval,
            final(self).ui() == old(self).ui().kept(),
    {
        let ghost before = self.ui();
        let set = self.take_meant();
        proof {
            lemma_no_members(set);
        }
        if !set.is_empty() {
            self.working_set = Some(set);
            assert(self.ui() =~= before.kept());
        } else {
            assert(self.ui() =~= before);
        }
    }

    /// Removes the selection (or the cursor run) from the working set.
    fn exclude(&mut self)
        requires
            old(self).wf(),
        ensures
            final(self).wf(),
            final(self).project == old(self).project,
            final(self).interval == old(self).interval,
            final(self).ui() == old(self).ui().excluded(old(self).project.catalog().names()),
    {
        let ghost before = self.ui();
        let excluded = self.take_meant();
        proof {
            lemma_no_members(excluded);
        }
        if excluded.is_empty() {
            assert(self.ui() =~= before);
            return ;
        }
        let names = list_names(self.project.runs());
        let ghost catalog = self.project.catalog().names();
        let mut left: NameMap<()> = NameMap::new();
        let mut i: usize = 0;
        while i < names.len()
            invariant
                i <= names@.len(),
                self.wf(),
                texts(names@) == catalog,
                excluded.wf(),
                left.wf(),
                before.working_set == self.ui().working_set,
                members(excluded) == before.meant(),
                forall|n: Seq<char>| members(excluded).contains(n) <==> #[trigger] excluded.has(n),
                forall|n: Seq<char>| #[trigger]
                    left.has(n) <==> admits(before.working_set, n) && !before.meant().contains(n)
                        && exists|j: int| 0 <= j < i && #[trigger] catalog[j] == n,
            decreases names@.len() - i,
        {
            assert(catalog[i as int] == names@[i as int]@);
            assert(members(excluded).contains(names@[i as int]@) <==> excluded.has(
                names@[i as int]@,
            ));
            let admitted = match &self.working_set {
                Some(set) => {
                    proof {
                        lemma_no_members(*set);
                    }
                    set.contains(&names[i])
                },
                None => true,
            };
            if admitted && !excluded.contains(&names[i]) {
                crate::listing::note_name(&mut left, &names[i]);
            }
            i += 1;
        }
        proof {
            lemma_no_members(left);
            let wanted = Set::new(
                |name: Seq<char>|
                    catalog.contains(name) && admits(before.working_set, name)
                        && !before.meant().contains(name),
            );
            assert forall|n: Seq<char>| members(left).contains(n) <==> wanted.contains(n) by {
                assert(members(left).contains(n) <==> left.has(n));
                if catalog.contains(n) {
                    let j = choose|j: int| 0 <= j < catalog.len() && catalog[j] == n;
                    assert(catalog[j] == n);
                }
            }
            assert(members(left) =~= wanted);
        }
        self.working_set = Some(left);
        assert(self.ui() =~= before.excluded(catalog));
    }

    /// Applies a key that is for one screen.
    fn update_screen<
        F: Fn(&str) -> Option<u64>,
        P: Fn(u64) -> String,
        O: Fn(Operation, u64, u64) -> u64,
        I: Fn(i64) -> u64,
    >(&mut self, key: Key, now: Stamp, wording: &Wording<F, P>, arith: &Arith<O, I>)
        requires
            old(self).wf(),
            wording.ok(),
            arith.ok(),
        ensures
            final(self).wf(),
            final(self).project == old(self).project,
            final(self).interval == old(self).interval,
            final(self).ui() == arith.on_screen(
                old(self).ui(),
                key,
                surroundings(
                    *wording,
                    *arith,
                    old(self).project@,
                    old(self).project.catalog(),
                    old(self).ui(),
                    now,
                    active_window(old(self).interval),
                ),
            ),
    {
        match self.view {
            screen::View::Runs | screen::View::Hparams => {
                let names = self.row_names(now, wording, arith);
                self.view = self.runs.update(key, &names, self.view);
            },
            screen::View::Scalars | screen::View::Compare => {
                let tags = self.visible_tags(now, wording);
                let chart = self.scalars_chart(now, wording, arith);
                let mut xs: Vec<u64> = Vec::new();
                let mut range: Option<(u64, u64)> = None;
                if let Some(chart) = &chart {
                    range = chart.x_extent();
                    if chart.series.len() > 0 {
                        assert(chart@.series[0] == chart.series@[0]@);
                        xs.extend_from_slice(chart.series[0].line.xs.as_slice());
                        assert(xs@ =~= chart@.series[0].line.xs);
                    }
                }
                self.view = self.scalars.update(key, &tags, &xs, range, self.view, arith);
            },
            screen::View::Distributions => {
                let tags = self.histogram_tags(now, wording);
                self.view = self.distributions.update(key, &tags, self.view);
            },
        }
    }

    /// Applies one keypress.
    pub fn update<
        F: Fn(&str) -> Option<u64>,
        P: Fn(u64) -> String,
        O: Fn(Operation, u64, u64) -> u64,
        I: Fn(i64) -> u64,
    >(&mut self, press: Press, now: Stamp, wording: &Wording<F, P>, arith: &Arith<O, I>) -> (action: Action)
        requires
            old(self).wf(),
            wording.ok(),
            arith.ok(),
        ensures
            final(self).wf(),
            final(self).project == old(self).project,
            final(self).interval == old(self).interval,
            (final(self).ui(), action) == arith.pressed(
                old(self).ui(),
                press,
                surroundings(
                    *wording,
                    *arith,
                    old(self).project@,
                    old(self).project.catalog(),
                    (UiModel { message: None, export_due: false, ..old(self).ui() }),
                    now,
                    active_window(old(self).interval),
                ),
            ),
    {
        self.message = None;
        self.export_due = false;
        if self.help {
            self.help = false;
            return Action::Continue;
        }
        let editing = match self.view {
            screen::View::Runs | screen::View::Hparams => self.runs.editing_filter,
            screen::View::Scalars | screen::View::Compare => self.scalars.editing_filter,
            screen::View::Distributions => self.distributions.editing_filter,
        };
        if editing {
            self.edit_filter(press);
            return Action::Continue;
        }
        match press.key {
            Key::Char('q') => {
                return Action::Quit;
            },
            Key::Char('?') => {
                self.help = true;
            },
            Key::Char('p') => {
                self.paused = !self.paused;
            },
            Key::Char('r') => {
                self.force_refresh = true;
            },
            Key::Char('e') => {
                self.export_due = true;
            },
            Key::Char('/') => {
                self.set_editing(true);
            },
            Key::Tab => {
                self.view = self.view.next();
            },
            Key::Char('1') => {
                self.view = screen::View::Runs;
            },
            Key::Char('2') => {
                self.view = screen::View::Scalars;
            },
            Key::Char('3') => {
                self.view = screen::View::Compare;
            },
            Key::Char('4') => {
                self.view = screen::View::Hparams;
            },
            Key::Char('5') => {
                self.view = screen::View::Distributions;
            },
            Key::Char('K') => {
                self.keep();
            },
            Key::Char('X') => {
                self.exclude();
            },
            Key::Char('U') => {
                self.working_set = None;
            },
            key => {
                self.update_screen(key, now, wording, arith);
            },
        }
        Action::Continue
    }
}

/// The series to materialize for a run and a tag: the series, and behind it
/// the run's token counter where the axis is tokens.
pub open spec fn with_counter(
    runs: Map<Seq<char>, RunModel>,
    run: Seq<char>,
    tag: Seq<char>,
    axis: XAxis,
) -> Seq<(Seq<char>, Seq<char>)> {
    match counter_in(runs, run, None) {
        Some(counter) => if axis == XAxis::Tokens {
            seq![(run, tag), (run, counter)]
        } else {
            seq![(run, tag)]
        },
        None => seq![(run, tag)],
    }
}

/// The series to materialize for a tag across some runs.
pub open spec fn across_runs(
    runs: Map<Seq<char>, RunModel>,
    scope: Seq<Seq<char>>,
    tag: Seq<char>,
    axis: XAxis,
) -> Seq<(Seq<char>, Seq<char>)>
    decreases scope.len(),
{
    if scope.len() == 0 {
        Seq::empty()
    } else {
        across_runs(runs, scope.drop_last(), tag, axis) + with_counter(
            runs,
            scope.last(),
            tag,
            axis,
        )
    }
}

/// The series to materialize for some tags across some runs.
pub open spec fn across_tags(
    runs: Map<Seq<char>, RunModel>,
    scope: Seq<Seq<char>>,
    tags: Seq<Seq<char>>,
    axis: XAxis,
) -> Seq<(Seq<char>, Seq<char>)>
    decreases tags.len(),
{
    if tags.len() == 0 {
        Seq::empty()
    } else {
        across_tags(runs, scope, tags.drop_last(), axis) + across_runs(
            runs,
            scope,
            tags.last(),
            axis,
        )
    }
}

fn want_across(list: &mut Vec<Wanted>, runs: &NameMap<Run>, scope: &Vec<String>, tag: &str, axis: XAxis)
    requires
        runs_wf(*runs),
    ensures
        wanted_model(final(list)@) == wanted_model(old(list)@) + across_runs(
            runs.model(),
            texts(scope@),
            tag@,
            axis,
        ),
{
    let ghost start = wanted_model(list@);
    let ghost all = texts(scope@);
    let mut i: usize = 0;
    assert(all.take(0) =~= Seq::<Seq<char>>::empty());
    assert(wanted_model(list@) =~= start + Seq::<(Seq<char>, Seq<char>)>::empty());
    while i < scope.len()
        invariant
            i <= scope@.len(),
            runs_wf(*runs),
            all == texts(scope@),
            wanted_model(list@) == start + across_runs(runs.model(), all.take(i as int), tag@, axis),
        decreases scope@.len() - i,
    {
        assert(all.take(i + 1).drop_last() =~= all.take(i as int));
        assert(all[i as int] == scope@[i as int]@);
        let ghost before = list@;
        let counter = find_counter(runs, &scope[i], None);
        list.push(Wanted { run: scope[i].clone(), tag: tag.to_owned() });
        if axis == XAxis::Tokens {
            if let Some(counter) = counter {
                list.push(Wanted { run: scope[i].clone(), tag: counter });
            }
        }
        assert(wanted_model(list@) =~= wanted_model(before) + with_counter(
            runs.model(),
            all[i as int],
            tag@,
            axis,
        ));
        assert(wanted_model(list@) =~= start + across_runs(
            runs.model(),
            all.take(i + 1),
            tag@,
            axis,
        ));
        i += 1;
    }
    assert(all.take(all.len() as int) =~= all);
}

/// The scalar series that the screen is about to draw.
pub open spec fn scalars_needed<F: Fn(&str) -> Option<u64>, P: Fn(u64) -> String>(
    wording: Wording<F, P>,
    project: ProjectModel,
    runs: NameMap<Run>,
    ui: UiModel,
    now: Stamp,
    window: Stamp,
) -> Seq<(Seq<char>, Seq<char>)> {
    let axis = ui.scalars.x_axis;
    match ui.view {
        screen::View::Scalars => match wording.charted_tag(runs, ui, now, window) {
            Some(tag) => across_runs(
                project.runs,
                wording.drawn(runs, ui, now, window),
                tag,
                axis,
            ),
            None => Seq::empty(),
        },
        screen::View::Compare => across_tags(
            project.runs,
            at_most(wording.drawn(runs, ui, now, window), COMPARE_RUNS as int),
            at_most(wording.scalar_tags(runs, ui, now, window), COMPARE_TAGS as int),
            axis,
        ),
        _ => Seq::empty(),
    }
}

impl App {
    /// The scalar series to materialize before the screen is drawn.
    pub fn wanted_scalars<F: Fn(&str) -> Option<u64>, P: Fn(u64) -> String>(
        &self,
        now: Stamp,
        wording: &Wording<F, P>,
    ) -> (list: Vec<Wanted>)
        requires
            self.wf(),
            wording.ok(),
        ensures
            wanted_model(list@) == scalars_needed(
                *wording,
                self.project@,
                self.project.catalog(),
                self.ui(),
                now,
                active_window(self.interval),
            ),
    {
        let axis = self.scalars.x_axis;
        let mut list: Vec<Wanted> = Vec::new();
        assert(wanted_model(list@) =~= Seq::<(Seq<char>, Seq<char>)>::empty());
        match self.view {
            screen::View::Scalars => {
                if let Some(tag) = self.current_tag(now, wording) {
                    let scope = self.scoped_runs(now, wording);
                    want_across(&mut list, self.project.runs(), &scope, &tag, axis);
                    assert(wanted_model(list@) =~= across_runs(
                        self.project@.runs,
                        texts(scope@),
                        tag@,
                        axis,
                    ));
                }
            },
            screen::View::Compare => {
                let (tags, runs) = self.compare_scope(now, wording);
                let ghost all = texts(tags@);
                let mut i: usize = 0;
                assert(all.take(0) =~= Seq::<Seq<char>>::empty());
                while i < tags.len()
                    invariant
                        i <= tags@.len(),
                        self.wf(),
                        all == texts(tags@),
                        wanted_model(list@) == across_tags(
                            self.project@.runs,
                            texts(runs@),
                            all.take(i as int),
                            axis,
                        ),
                    decreases tags@.len() - i,
                {
                    assert(all.take(i + 1).drop_last() =~= all.take(i as int));
                    assert(all[i as int] == tags@[i as int]@);
                    want_across(&mut list, self.project.runs(), &runs, &tags[i], axis);
                    i += 1;
                }
                assert(all.take(all.len() as int) =~= all);
            },
            _ => {},
        }
        list
    }
}

} // verus!
