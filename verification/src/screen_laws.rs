//! What the keys of the interface do: cursors move along their lists, picks
//! and switches undo themselves, filters grow and shrink by what is typed, and
//! windows stay inside what there is to see.
use vstd::arithmetic::power2::{lemma2_to64, lemma2_to64_rest};
use vstd::prelude::*;

use crate::arith::{Arith, Operation};
use crate::caption::tab_words;
use crate::chart::{unsigned, XAxis};
use crate::double::below;
use crate::exact::{
    exact_up_to, lemma_measures_bits, lemma_measures_order, lemma_measures_zero, measures,
    signed_units,
};
use crate::screen;
use crate::tui::{
    distributions_pressed, edited, lemma_place_of, moved_down, moved_up, place_of, runs_pressed,
    sort_behind, sort_word, Action, DistributionsModel, Key, Press, RunsModel, RunsSort,
    ScalarsModel, PAN, TWO, ZOOM,
};
use crate::update::Surroundings;
use crate::viewer::UiModel;

verus! {

/// Every entry stands in a list once.
pub open spec fn each_once(list: Seq<Seq<char>>) -> bool {
    forall|i: int, j: int| 0 <= i < j < list.len() ==> list[i] != list[j]
}

proof fn lemma_place_at(list: Seq<Seq<char>>, at: int)
    requires
        each_once(list),
        0 <= at < list.len(),
    ensures
        place_of(list, list[at]) == Some(at),
{
    lemma_place_of(list, list[at]);
    assert(list.contains(list[at]));
    let i = place_of(list, list[at])->0;
    if i < at {
        assert(list[i] != list[at]);
    } else if at < i {
        assert(list[at] != list[i]);
    }
}

/// Down goes to the next entry and up to the one before; the ends hold, and
/// between them up undoes down.
pub proof fn law_cursor_moves_along_the_list(list: Seq<Seq<char>>, at: int)
    requires
        each_once(list),
        0 <= at < list.len(),
    ensures
        at + 1 < list.len() ==> moved_down(Some(list[at]), list) == Some(list[at + 1]),
        at + 1 == list.len() ==> moved_down(Some(list[at]), list) == Some(list[at]),
        at > 0 ==> moved_up(Some(list[at]), list) == Some(list[at - 1]),
        at == 0 ==> moved_up(Some(list[at]), list) == Some(list[at]),
        at + 1 < list.len() ==> moved_up(moved_down(Some(list[at]), list), list) == Some(list[at]),
        at > 0 ==> moved_down(moved_up(Some(list[at]), list), list) == Some(list[at]),
{
    lemma_place_at(list, at);
    if at + 1 < list.len() {
        lemma_place_at(list, at + 1);
    }
    if at > 0 {
        lemma_place_at(list, at - 1);
    }
}

/// A cursor that is not in the list comes to its first entry; an empty list
/// has none to come to.
pub proof fn law_lost_cursor_comes_to_the_front(cursor: Option<Seq<char>>, list: Seq<Seq<char>>)
    requires
        cursor matches Some(name) ==> !list.contains(name),
    ensures
        list.len() > 0 ==> moved_down(cursor, list) == Some(list[0]) && moved_up(cursor, list)
            == Some(list[0]),
        list.len() == 0 ==> moved_down(cursor, list) is None && moved_up(cursor, list) is None,
{
    if let Some(name) = cursor {
        lemma_place_of(list, name);
    }
}

/// A typed character stands at the end of the filter, and backspace takes it
/// away again; enter keeps the filter, escape clears it, and both end the
/// editing; a character with control or alt held is no text.
pub proof fn law_filter_is_what_is_typed(filter: Seq<char>, c: char, control: bool, alt: bool)
    ensures
        ({
            let typed = edited(filter, Press { key: Key::Char(c), control: false, alt: false });
            let back = Press { key: Key::Backspace, control, alt };
            &&& typed == (filter.push(c), true)
            &&& edited(typed.0, back) == (filter, true)
            &&& edited(Seq::empty(), back) == (Seq::<char>::empty(), true)
            &&& edited(filter, Press { key: Key::Enter, control, alt }) == (filter, false)
            &&& edited(filter, Press { key: Key::Esc, control, alt }) == (
                Seq::<char>::empty(),
                false,
            )
            &&& control || alt ==> edited(filter, Press { key: Key::Char(c), control, alt }) == (
                filter,
                true,
            )
            &&& edited(filter, Press { key: Key::Tab, control, alt }) == (filter, true)
        }),
{
    assert(filter.push(c).drop_last() =~= filter);
}

/// In the runs table `j` and the down arrow move down, `k` and the up arrow
/// up, `g` to the first run and `G` to the last.
pub proof fn law_runs_cursor_keys(
    runs: RunsModel,
    names: Seq<Seq<char>>,
    view: screen::View,
    at: int,
)
    requires
        each_once(names),
        0 <= at < names.len(),
        runs.cursor == Some(names[at]),
    ensures
        ({
            let last = names.len() - 1;
            let down = runs_pressed(runs, Key::Char('j'), names, view);
            let up = runs_pressed(runs, Key::Char('k'), names, view);
            &&& down.1 == view && up.1 == view
            &&& down == runs_pressed(runs, Key::Down, names, view)
            &&& up == runs_pressed(runs, Key::Up, names, view)
            &&& down.0 == (RunsModel {
                cursor: Some(
                    names[if at < last {
                        at + 1
                    } else {
                        at
                    }],
                ),
                ..runs
            })
            &&& up.0 == (RunsModel {
                cursor: Some(
                    names[if at > 0 {
                        at - 1
                    } else {
                        at
                    }],
                ),
                ..runs
            })
            &&& runs_pressed(runs, Key::Char('g'), names, view) == (
                (RunsModel { cursor: Some(names[0]), ..runs }),
                view,
            )
            &&& runs_pressed(runs, Key::Char('G'), names, view) == (
                (RunsModel { cursor: Some(names[last]), ..runs }),
                view,
            )
        }),
{
    law_cursor_moves_along_the_list(names, at);
}

/// Space picks the run under the cursor and drops it again; no other pick
/// changes.
pub proof fn law_space_picks_and_drops(
    runs: RunsModel,
    names: Seq<Seq<char>>,
    view: screen::View,
    name: Seq<char>,
    other: Seq<char>,
)
    requires
        runs.cursor == Some(name),
        names.contains(name),
        other != name,
    ensures
        ({
            let (once, same) = runs_pressed(runs, Key::Char(' '), names, view);
            let twice = runs_pressed(once, Key::Char(' '), names, view).0;
            &&& same == view
            &&& once.selected.contains(name) == !runs.selected.contains(name)
            &&& once.selected.contains(other) == runs.selected.contains(other)
            &&& once.cursor == runs.cursor && once.filter == runs.filter
            &&& twice.selected == runs.selected
        }),
{
    lemma_place_of(names, name);
    let once = runs_pressed(runs, Key::Char(' '), names, view).0;
    let twice = runs_pressed(once, Key::Char(' '), names, view).0;
    assert(twice.selected =~= runs.selected);
}

/// Enter opens the scalars of the picked runs where the cursor is on one of
/// them, and of the run under the cursor alone where it is not.
pub proof fn law_enter_opens_the_run(
    runs: RunsModel,
    names: Seq<Seq<char>>,
    view: screen::View,
    name: Seq<char>,
    other: Seq<char>,
)
    requires
        runs.cursor == Some(name),
        names.contains(name),
    ensures
        ({
            let (after, opened) = runs_pressed(runs, Key::Enter, names, view);
            &&& opened == screen::View::Scalars
            &&& after.selected.contains(name)
            &&& runs.selected.contains(name) ==> after.selected == runs.selected
            &&& !runs.selected.contains(name) && other != name ==> !after.selected.contains(other)
        }),
{
    lemma_place_of(names, name);
}

/// Escape in the runs table drops the picks first, then the filter, and then
/// nothing is left to undo.
pub proof fn law_escape_undoes_step_by_step(
    runs: RunsModel,
    names: Seq<Seq<char>>,
    view: screen::View,
)
    ensures
        ({
            let (after, there) = runs_pressed(runs, Key::Esc, names, view);
            let picked = runs.selected != Set::<Seq<char>>::empty();
            &&& picked ==> after == (RunsModel { selected: Set::empty(), ..runs }) && there == view
            &&& !picked && runs.filter.len() > 0 ==> after == (RunsModel {
                filter: Seq::empty(),
                ..runs
            }) && there == view
            &&& !picked && runs.filter.len() == 0 ==> after == runs && there
                == screen::View::Runs
        }),
{
}

/// `S` turns the order round, and once more turns it back; `s` changes the
/// column, all five in turn, and each has its own heading.
pub proof fn law_sorting_keys(
    runs: RunsModel,
    names: Seq<Seq<char>>,
    view: screen::View,
    a: RunsSort,
    b: RunsSort,
)
    ensures
        ({
            let turned = runs_pressed(runs, Key::Char('S'), names, view).0;
            &&& turned.descending == !runs.descending && turned.sort == runs.sort
            &&& runs_pressed(turned, Key::Char('S'), names, view).0 == runs
            &&& runs_pressed(runs, Key::Char('s'), names, view).0 == (RunsModel {
                sort: sort_behind(runs.sort),
                ..runs
            })
        }),
        sort_behind(RunsSort::Name) == RunsSort::Points,
        sort_behind(RunsSort::Points) == RunsSort::Restarts,
        sort_behind(RunsSort::Restarts) == RunsSort::Step,
        sort_behind(RunsSort::Step) == RunsSort::Duration,
        sort_behind(RunsSort::Duration) == RunsSort::Name,
        sort_word(RunsSort::Name) == "run"@,
        sort_word(RunsSort::Points) == "points"@,
        sort_word(RunsSort::Restarts) == "restarts"@,
        sort_word(RunsSort::Step) == "step"@,
        sort_word(RunsSort::Duration) == "duration"@,
{
}

/// In the distributions `j` and `k` move along the tags, and escape drops the
/// filter, then goes back to the runs.
pub proof fn law_distributions_keys(
    state: DistributionsModel,
    tags: Seq<Seq<char>>,
    view: screen::View,
    at: int,
)
    requires
        each_once(tags),
        0 <= at < tags.len(),
        state.cursor == Some(tags[at]),
    ensures
        at + 1 < tags.len() ==> distributions_pressed(state, Key::Char('j'), tags, view) == (
            (DistributionsModel { cursor: Some(tags[at + 1]), ..state }),
            view,
        ),
        at > 0 ==> distributions_pressed(state, Key::Char('k'), tags, view) == (
            (DistributionsModel { cursor: Some(tags[at - 1]), ..state }),
            view,
        ),
        distributions_pressed(state, Key::Char('j'), tags, view) == distributions_pressed(
            state,
            Key::Down,
            tags,
            view,
        ),
        distributions_pressed(state, Key::Char('k'), tags, view) == distributions_pressed(
            state,
            Key::Up,
            tags,
            view,
        ),
        state.filter.len() > 0 ==> distributions_pressed(state, Key::Esc, tags, view) == (
            (DistributionsModel { filter: Seq::empty(), ..state }),
            view,
        ),
        state.filter.len() == 0 ==> distributions_pressed(state, Key::Esc, tags, view) == (
            state,
            screen::View::Runs,
        ),
{
    law_cursor_moves_along_the_list(tags, at);
}

/// A key pressed alone.
pub open spec fn plain(c: char) -> Press {
    Press { key: Key::Char(c), control: false, alt: false }
}

/// Where a stretch of a width starts that is moved into a range.
pub open spec fn placed(start: int, width: int, lo: int, hi: int) -> int {
    if start < lo {
        lo
    } else if start + width > hi {
        hi - width
    } else {
        start
    }
}

/// The doubles that zooming, panning and halving go by: one and a half, a
/// quarter, two.
pub proof fn law_zoom_factors()
    ensures
        measures(ZOOM, 1536),
        measures(PAN, 256),
        measures(TWO, 2048),
{
    lemma2_to64();
    lemma2_to64_rest();
    lemma_measures_bits(ZOOM, 1023, 0x8_0000_0000_0000, 1536);
    lemma_measures_bits(PAN, 1021, 0, 256);
    lemma_measures_bits(TWO, 1024, 0, 2048);
}

impl<O: Fn(Operation, u64, u64) -> u64, I: Fn(i64) -> u64> Arith<O, I> {
    /// The keys of the interface outside of a filter and the help: each digit
    /// turns to the screen whose tab shows it, `?` opens the help, which any
    /// key closes, `p` pauses and goes on, `r` asks for a refresh, `e` for an
    /// export, `/` edits the filter as it stands, `U` shows all runs again.
    pub proof fn law_keys_of_the_interface(
        self,
        ui: UiModel,
        around: Surroundings,
        view: screen::View,
        any: Press,
    )
        requires
            !ui.help,
            !ui.editing(),
        ensures
            ({
                let digit = tab_words(view).0;
                &&& digit.len() == 1
                &&& self.pressed(ui, plain(digit[0]), around).0.view == view
            }),
            self.pressed(ui, plain('1'), around).0.view == screen::View::Runs,
            self.pressed(ui, plain('2'), around).0.view == screen::View::Scalars,
            self.pressed(ui, plain('3'), around).0.view == screen::View::Compare,
            self.pressed(ui, plain('4'), around).0.view == screen::View::Hparams,
            self.pressed(ui, plain('5'), around).0.view == screen::View::Distributions,
            ({
                let helped = self.pressed(ui, plain('?'), around).0;
                let closed = self.pressed(helped, any, around);
                &&& helped.help && helped.view == ui.view
                &&& !closed.0.help && closed.1 == Action::Continue && closed.0.view == ui.view
            }),
            ({
                let once = self.pressed(ui, plain('p'), around).0;
                &&& once.paused == !ui.paused
                &&& self.pressed(once, plain('p'), around).0.paused == ui.paused
            }),
            self.pressed(ui, plain('r'), around).0.force_refresh,
            self.pressed(ui, plain('e'), around).0.export_due,
            !self.pressed(ui, plain('r'), around).0.export_due,
            ({
                let edits = self.pressed(ui, plain('/'), around).0;
                edits.editing() && edits.filter() == ui.filter() && edits.view == ui.view
            }),
            self.pressed(ui, plain('U'), around).0.working_set is None,
            self.pressed(ui, any, around).0.message is None,
    {
        reveal_strlit("1");
        reveal_strlit("2");
        reveal_strlit("3");
        reveal_strlit("4");
        reveal_strlit("5");
    }

    /// The keys that turn to a screen, open the help, pause, refresh and export
    /// leave the lists, their filters and the working set as they are, and
    /// each leaves alone what the others change.
    pub proof fn law_keys_leave_the_rest(self, ui: UiModel, around: Surroundings, key: Key)
        requires
            !ui.help,
            !ui.editing(),
            key == Key::Tab || key == Key::Char('1') || key == Key::Char('2') || key == Key::Char(
                '3',
            ) || key == Key::Char('4') || key == Key::Char('5') || key == Key::Char('?') || key
                == Key::Char('p') || key == Key::Char('r') || key == Key::Char('e') || key
                == Key::Char('q'),
        ensures
            ({
                let after = self.pressed(ui, Press { key, control: false, alt: false }, around).0;
                &&& after.runs == ui.runs && after.scalars == ui.scalars && after.distributions
                    == ui.distributions && after.working_set == ui.working_set
                &&& key != Key::Char('?') ==> !after.help
                &&& key != Key::Char('p') ==> after.paused == ui.paused
                &&& key != Key::Char('r') ==> after.force_refresh == ui.force_refresh
                &&& key != Key::Char('e') ==> !after.export_due
                &&& key == Key::Char('?') || key == Key::Char('p') || key == Key::Char('r') || key
                    == Key::Char('e') || key == Key::Char('q') ==> after.view == ui.view
            }),
    {
    }

    /// `K` keeps the picked runs alone, or the run under the cursor where none
    /// is picked, and `X` takes them out of what was there; the picks are
    /// gone after either, and nothing else has changed. Where no run is meant,
    /// both change nothing.
    pub proof fn law_keys_of_the_working_set(
        self,
        ui: UiModel,
        around: Surroundings,
        name: Seq<char>,
        run: Seq<char>,
    )
        requires
            !ui.help,
            !ui.editing(),
        ensures
            ({
                let kept = self.pressed(ui, plain('K'), around).0;
                let left = self.pressed(ui, plain('X'), around).0;
                let none = ui.runs.selected == Set::<Seq<char>>::empty();
                let meant = if none {
                    ui.runs.cursor == Some(name)
                } else {
                    ui.runs.selected.contains(name)
                };
                &&& meant ==> kept.runs.selected == Set::<Seq<char>>::empty()
                &&& meant ==> kept.working_set is Some && kept.working_set->0.contains(name)
                &&& !none && !ui.runs.selected.contains(run) && meant
                    ==> !kept.working_set->0.contains(run)
                &&& none && meant && run != name ==> !kept.working_set->0.contains(run)
                &&& meant ==> left.runs.selected == Set::<Seq<char>>::empty()
                &&& meant ==> left.working_set is Some && !left.working_set->0.contains(name)
                &&& meant && left.working_set->0.contains(run) ==> around.catalog.contains(run)
                &&& none && ui.runs.cursor is None ==> kept.working_set == ui.working_set
                    && left.working_set == ui.working_set
                &&& kept.runs == RunsModel { selected: kept.runs.selected, ..ui.runs }
                &&& left.runs == RunsModel { selected: left.runs.selected, ..ui.runs }
                &&& kept.view == ui.view && kept.scalars == ui.scalars && kept.distributions
                    == ui.distributions && kept.paused == ui.paused
                &&& left.view == ui.view && left.scalars == ui.scalars && left.distributions
                    == ui.distributions && left.paused == ui.paused
            }),
    {
        assert(ui.runs.selected.contains(name) ==> ui.runs.selected
            != Set::<Seq<char>>::empty());
        assert(Set::<Seq<char>>::empty().insert(name).contains(name));
    }

    /// A key that is for one screen changes that screen's state alone.
    pub proof fn law_screens_keep_to_themselves(self, ui: UiModel, key: Key, around: Surroundings)
        ensures
            ({
                let after = self.on_screen(ui, key, around);
                &&& ui.view == screen::View::Runs || ui.view == screen::View::Hparams
                    ==> after.scalars == ui.scalars && after.distributions == ui.distributions
                &&& ui.view == screen::View::Scalars || ui.view == screen::View::Compare
                    ==> after.runs == ui.runs && after.distributions == ui.distributions
                &&& ui.view == screen::View::Distributions ==> after.runs == ui.runs
                    && after.scalars == ui.scalars
                &&& after.working_set == ui.working_set && after.paused == ui.paused
            }),
    {
    }

    /// The filter of a screen is the one that is edited there; the runs table
    /// and the hyperparameters share one, and so do the two charts.
    pub proof fn law_filters_of_the_screens(ui: UiModel, filter: Seq<char>, editing: bool)
        ensures
            ({
                let after = ui.with_filter(filter, editing);
                &&& after.filter() == filter && after.editing() == editing
                &&& after.view == ui.view
                &&& ui.view == screen::View::Runs || ui.view == screen::View::Hparams
                    ==> after.runs.filter == filter && after.scalars == ui.scalars
                    && after.distributions == ui.distributions
                &&& ui.view == screen::View::Scalars || ui.view == screen::View::Compare
                    ==> after.scalars.filter == filter && after.runs == ui.runs
                    && after.distributions == ui.distributions
                &&& ui.view == screen::View::Distributions ==> after.distributions.filter == filter
                    && after.runs == ui.runs && after.scalars == ui.scalars
            }),
    {
    }

    /// In the scalars view `L` switches the logarithmic axis, `v` the ghosts,
    /// each back again; `S` smooths more and `s` less; `x` changes the axis
    /// and drops window and crosshair; `0` drops the window.
    pub proof fn law_switches_of_the_chart(
        self,
        state: ScalarsModel,
        tags: Seq<Seq<char>>,
        xs: Seq<u64>,
        range: Option<(u64, u64)>,
    )
        requires
            state.smooth <= 9,
        ensures
            ({
                let view = screen::View::Scalars;
                let press = |state: ScalarsModel, c: char|
                    self.scalars_pressed(state, Key::Char(c), tags, xs, range, view).0;
                &&& press(state, 'L').log_y == !state.log_y
                &&& press(press(state, 'L'), 'L') == state
                &&& press(state, 'v').show_ghosts == !state.show_ghosts
                &&& press(press(state, 'v'), 'v') == state
                &&& press(state, 'L').show_ghosts == state.show_ghosts
                &&& state.smooth < 9 ==> press(state, 'S').smooth == state.smooth + 1
                &&& state.smooth == 9 ==> press(state, 'S').smooth == 9
                &&& state.smooth > 0 ==> press(state, 's').smooth == state.smooth - 1
                &&& state.smooth == 0 ==> press(state, 's').smooth == 0
                &&& state.smooth < 9 ==> press(press(state, 'S'), 's') == state
                &&& press(state, 'x').crosshair is None && press(state, 'x').x_window is None
                &&& state.x_axis == XAxis::Step ==> press(state, 'x').x_axis == XAxis::Wall
                &&& state.x_axis == XAxis::Wall ==> press(state, 'x').x_axis == XAxis::Relative
                &&& state.x_axis == XAxis::Relative ==> press(state, 'x').x_axis == XAxis::Tokens
                &&& state.x_axis == XAxis::Tokens ==> press(state, 'x').x_axis == XAxis::Step
                &&& press(state, '0') == (ScalarsModel { x_window: None, ..state })
            }),
    {
    }

    /// In the scalars view the tag cursor moves as the run cursor does, and
    /// escape drops the filter, then goes back to the runs.
    pub proof fn law_scalars_cursor_keys(
        self,
        state: ScalarsModel,
        tags: Seq<Seq<char>>,
        xs: Seq<u64>,
        range: Option<(u64, u64)>,
        view: screen::View,
        at: int,
    )
        requires
            each_once(tags),
            0 <= at < tags.len(),
            state.cursor == Some(tags[at]),
        ensures
            ({
                let press = |key: Key| self.scalars_pressed(state, key, tags, xs, range, view);
                let last = tags.len() - 1;
                &&& at < last ==> press(Key::Char('j')).0.cursor == Some(tags[at + 1])
                &&& at > 0 ==> press(Key::Char('k')).0.cursor == Some(tags[at - 1])
                &&& press(Key::Char('j')) == press(Key::Down)
                &&& press(Key::Char('k')) == press(Key::Up)
                &&& press(Key::Char('g')).0.cursor == Some(tags[0])
                &&& press(Key::Char('G')).0.cursor == Some(tags[last])
                &&& state.filter.len() > 0 ==> press(Key::Esc) == (
                    (ScalarsModel { filter: Seq::empty(), ..state }),
                    view,
                )
                &&& state.filter.len() == 0 ==> press(Key::Esc) == (state, screen::View::Runs)
            }),
    {
        law_cursor_moves_along_the_list(tags, at);
    }

    /// A window moved into a range keeps its width, lies inside, and stays
    /// where it lies inside already.
    pub proof fn law_clamped_windows_lie_inside(
        self,
        from: u64,
        width: u64,
        range: (u64, u64),
        a: int,
        w: int,
        lo: int,
        hi: int,
    )
        requires
            self.exact(),
            measures(from, a),
            measures(width, w),
            measures(range.0, lo),
            measures(range.1, hi),
            0 <= w <= hi - lo,
            exact_up_to(a),
            exact_up_to(a + w),
            exact_up_to(lo),
            exact_up_to(hi),
        ensures
            ({
                let (x, y) = self.clamped(from, width, range);
                let start = placed(a, w, lo, hi);
                &&& measures(x, start)
                &&& measures(y, start + w)
                &&& lo <= start && start + w <= hi
            }),
    {
        lemma_measures_order(from, range.0, a, lo);
        self.lemma_exact_sum(from, width, a, w);
        self.lemma_exact_sum(range.0, width, lo, w);
        self.lemma_exact_difference(range.1, width, hi, w);
        lemma_measures_order(range.1, self.result(Operation::Plus, from, width), hi, a + w);
    }

    /// Zooming in shows two thirds of what was shown, about the crosshair,
    /// which stays in sight, and inside of what there is.
    pub proof fn law_zooming_in_narrows(
        self,
        shown: (u64, u64),
        crosshair: u64,
        whole: (u64, u64),
        a: int,
        b: int,
        c: int,
        lo: int,
        hi: int,
        w: int,
    )
        requires
            self.exact(),
            measures(shown.0, a),
            measures(shown.1, b),
            measures(crosshair, c),
            measures(whole.0, lo),
            measures(whole.1, hi),
            lo <= a < b <= hi,
            lo <= c <= hi,
            3 * w == b - a,
            0x8_0000_0000_0000 >= hi,
            lo >= -0x8_0000_0000_0000,
        ensures
            self.zoomed(Some(shown), Some(crosshair), Some(whole), true) matches Some((x, y)) && ({
                let start = placed(c - w, 2 * w, lo, hi);
                &&& measures(x, start) && measures(y, start + 2 * w)
                &&& lo <= start <= c && c <= start + 2 * w <= hi
            }),
    {
        law_zoom_factors();
        lemma_measures_zero();
        self.lemma_exact_difference(shown.1, shown.0, b, a);
        let before = self.result(Operation::Minus, shown.1, shown.0);
        assert((b - a) * 1024 == (2 * w) * 1536) by (nonlinear_arith)
            requires
                3 * w == b - a,
        ;
        self.lemma_exact_quotient(before, ZOOM, b - a, 1536, 2 * w);
        let width = self.result(Operation::Divide, before, ZOOM);
        lemma_measures_order(0, width, 0, 2 * w);
        self.lemma_exact_quotient(width, TWO, 2 * w, 2048, w);
        let half = self.result(Operation::Divide, width, TWO);
        self.lemma_exact_difference(crosshair, half, c, w);
        let from = self.result(Operation::Minus, crosshair, half);
        self.law_clamped_windows_lie_inside(from, width, whole, c - w, 2 * w, lo, hi);
    }

    /// Without a crosshair zooming in keeps the middle of what was shown.
    pub proof fn law_zooming_in_keeps_the_middle(
        self,
        shown: (u64, u64),
        whole: (u64, u64),
        a: int,
        b: int,
        lo: int,
        hi: int,
        w: int,
        middle: int,
    )
        requires
            self.exact(),
            measures(shown.0, a),
            measures(shown.1, b),
            measures(whole.0, lo),
            measures(whole.1, hi),
            lo <= a < b <= hi,
            3 * w == b - a,
            2 * middle == a + b,
            0x8_0000_0000_0000 >= hi,
            lo >= -0x8_0000_0000_0000,
        ensures
            self.zoomed(Some(shown), None, Some(whole), true) matches Some((x, y)) && measures(
                x,
                middle - w,
            ) && measures(y, middle + w),
    {
        law_zoom_factors();
        lemma_measures_zero();
        self.lemma_exact_difference(shown.1, shown.0, b, a);
        let before = self.result(Operation::Minus, shown.1, shown.0);
        assert((b - a) * 1024 == (2 * w) * 1536) by (nonlinear_arith)
            requires
                3 * w == b - a,
        ;
        self.lemma_exact_quotient(before, ZOOM, b - a, 1536, 2 * w);
        let width = self.result(Operation::Divide, before, ZOOM);
        lemma_measures_order(0, width, 0, 2 * w);
        self.lemma_exact_quotient(width, TWO, 2 * w, 2048, w);
        let half = self.result(Operation::Divide, width, TWO);
        self.lemma_exact_sum(shown.0, shown.1, a, b);
        let both = self.result(Operation::Plus, shown.0, shown.1);
        self.lemma_exact_quotient(both, TWO, a + b, 2048, middle);
        let center = self.result(Operation::Divide, both, TWO);
        self.lemma_exact_difference(center, half, middle, w);
        let from = self.result(Operation::Minus, center, half);
        self.law_clamped_windows_lie_inside(from, width, whole, middle - w, 2 * w, lo, hi);
    }

    /// Zooming out shows half as much again, inside of what there is; where
    /// that is all there is, the window is gone.
    pub proof fn law_zooming_out_widens(
        self,
        shown: (u64, u64),
        crosshair: u64,
        whole: (u64, u64),
        a: int,
        b: int,
        c: int,
        lo: int,
        hi: int,
        w: int,
    )
        requires
            self.exact(),
            measures(shown.0, a),
            measures(shown.1, b),
            measures(crosshair, c),
            measures(whole.0, lo),
            measures(whole.1, hi),
            lo <= a < b <= hi,
            lo <= c <= hi,
            4 * w == b - a,
            0x4_0000_0000_0000 >= hi,
            lo >= -0x4_0000_0000_0000,
        ensures
            6 * w >= hi - lo ==> self.zoomed(Some(shown), Some(crosshair), Some(whole), false)
                is None,
            6 * w < hi - lo ==> (self.zoomed(
                Some(shown),
                Some(crosshair),
                Some(whole),
                false,
            ) matches Some((x, y)) && ({
                let start = placed(c - 3 * w, 6 * w, lo, hi);
                &&& measures(x, start) && measures(y, start + 6 * w)
                &&& lo <= start <= c && c <= start + 6 * w <= hi
            })),
    {
        law_zoom_factors();
        lemma_measures_zero();
        self.lemma_exact_difference(shown.1, shown.0, b, a);
        let before = self.result(Operation::Minus, shown.1, shown.0);
        assert((b - a) * 1536 == (6 * w) * 1024) by (nonlinear_arith)
            requires
                4 * w == b - a,
        ;
        self.lemma_exact_product(before, ZOOM, b - a, 1536, 6 * w);
        let width = self.result(Operation::Times, before, ZOOM);
        lemma_measures_order(0, width, 0, 6 * w);
        self.lemma_exact_difference(whole.1, whole.0, hi, lo);
        lemma_measures_order(
            width,
            self.result(Operation::Minus, whole.1, whole.0),
            6 * w,
            hi - lo,
        );
        if 6 * w < hi - lo {
            self.lemma_exact_quotient(width, TWO, 6 * w, 2048, 3 * w);
            let half = self.result(Operation::Divide, width, TWO);
            self.lemma_exact_difference(crosshair, half, c, 3 * w);
            let from = self.result(Operation::Minus, crosshair, half);
            self.law_clamped_windows_lie_inside(from, width, whole, c - 3 * w, 6 * w, lo, hi);
        }
    }

    /// Panning moves the window by a quarter of its width, to the right or to
    /// the left, and no further than to the end of what there is.
    pub proof fn law_panning_moves_a_quarter(
        self,
        window: (u64, u64),
        whole: (u64, u64),
        a: int,
        lo: int,
        hi: int,
        w: int,
        right: bool,
    )
        requires
            self.exact(),
            measures(window.0, a),
            measures(window.1, a + 4 * w),
            measures(whole.0, lo),
            measures(whole.1, hi),
            0 <= w,
            lo <= a,
            a + 4 * w <= hi,
            0x8_0000_0000_0000 >= hi,
            lo >= -0x8_0000_0000_0000,
        ensures
            self.panned(Some(window), Some(whole), right) matches Some((x, y)) && ({
                let start = if right {
                    if a + 5 * w <= hi {
                        a + w
                    } else {
                        hi - 4 * w
                    }
                } else if a - w >= lo {
                    a - w
                } else {
                    lo
                };
                measures(x, start) && measures(y, start + 4 * w)
            }),
            self.panned(None, Some(whole), right) is None,
    {
        law_zoom_factors();
        self.lemma_exact_difference(window.1, window.0, a + 4 * w, a);
        let width = self.result(Operation::Minus, window.1, window.0);
        assert((4 * w) * 256 == w * 1024) by (nonlinear_arith);
        self.lemma_exact_product(width, PAN, 4 * w, 256, w);
        let step = self.result(Operation::Times, width, PAN);
        if right {
            self.lemma_exact_sum(window.0, step, a, w);
            let from = self.result(Operation::Plus, window.0, step);
            self.law_clamped_windows_lie_inside(from, width, whole, a + w, 4 * w, lo, hi);
        } else {
            self.lemma_exact_difference(window.0, step, a, w);
            let from = self.result(Operation::Minus, window.0, step);
            self.law_clamped_windows_lie_inside(from, width, whole, a - w, 4 * w, lo, hi);
        }
    }

    /// A window follows the crosshair: it stays where the crosshair is inside,
    /// and otherwise has it at its edge; its width stays.
    pub proof fn law_windows_follow_the_crosshair(
        self,
        window: (u64, u64),
        crosshair: u64,
        a: int,
        b: int,
        c: int,
    )
        requires
            self.exact(),
            measures(window.0, a),
            measures(window.1, b),
            measures(crosshair, c),
            a <= b,
            exact_up_to(b - a),
            exact_up_to(c - (b - a)),
            exact_up_to(c + (b - a)),
        ensures
            a <= c <= b ==> self.followed(Some(window), Some(crosshair)) == Some(window),
            c < a ==> (self.followed(Some(window), Some(crosshair)) matches Some((x, y)) && measures(
                x,
                c,
            ) && measures(y, c + (b - a))),
            b < c ==> (self.followed(Some(window), Some(crosshair)) matches Some((x, y)) && measures(
                x,
                c - (b - a),
            ) && measures(y, c)),
            self.followed(Some(window), None) == Some(window),
            self.followed(None, Some(crosshair)) is None,
    {
        self.lemma_exact_difference(window.1, window.0, b, a);
        let width = self.result(Operation::Minus, window.1, window.0);
        lemma_measures_order(crosshair, window.0, c, a);
        lemma_measures_order(window.1, crosshair, b, c);
        self.lemma_exact_sum(crosshair, width, c, b - a);
        self.lemma_exact_difference(crosshair, width, c, b - a);
    }

    /// Of all positions the nearest one is at no greater distance than any.
    pub proof fn law_nearest_is_nearest(self, xs: Seq<u64>, x: u64, n: nat, at: int)
        requires
            0 <= at < n,
        ensures
            0 <= self.nearest(xs, x, n) < n,
            !below(self.distance(xs[at], x), self.distance(xs[self.nearest(xs, x, n)], x)),
        decreases n,
    {
        if n > 1 {
            if at < n - 1 {
                self.law_nearest_is_nearest(xs, x, (n - 1) as nat, at);
            } else {
                self.law_nearest_is_nearest(xs, x, (n - 1) as nat, 0);
            }
        }
    }

    /// A distance is how far two numbers are apart, either way.
    pub proof fn law_distances_are_sizes(self, a: u64, b: u64, x: int, y: int)
        requires
            self.exact(),
            measures(a, x),
            measures(b, y),
            exact_up_to(x - y),
        ensures
            measures(
                self.distance(a, b),
                if x < y {
                    y - x
                } else {
                    x - y
                },
            ),
    {
        self.lemma_exact_difference(a, b, x, y);
        let d = self.result(Operation::Minus, a, b);
        let size = unsigned(d);
        assert(crate::double::magnitude(size) == crate::double::magnitude(d));
        assert(crate::double::units(size) == crate::double::units(d));
        vstd::arithmetic::power2::lemma_pow2_pos(1064);
        let p = vstd::arithmetic::power2::pow2(1064) as int;
        assert(signed_units(d) == (x - y) * p);
        assert((y - x) * p == -((x - y) * p)) by (nonlinear_arith);
        assert((x - y >= 0 ==> (x - y) * p >= 0) && (x - y < 0 ==> (x - y) * p < 0)) by (nonlinear_arith)
            requires
                p > 0,
        ;
    }

    /// The crosshair starts at the newest point, and then goes from the point
    /// nearest to it to the next one, right or left; the ends hold.
    pub proof fn law_crosshair_goes_point_by_point(self, xs: Seq<u64>, x: u64, right: bool)
        requires
            xs.len() > 0,
        ensures
            self.stepped(xs, None, right) == Some(xs[xs.len() - 1]),
            ({
                let at = self.nearest(xs, x, xs.len());
                let to = if right && at < xs.len() - 1 {
                    at + 1
                } else if !right && at > 0 {
                    at - 1
                } else {
                    at
                };
                self.stepped(xs, Some(x), right) == Some(xs[to])
            }),
            self.stepped(Seq::empty(), Some(x), right) == Some(x),
    {
        self.law_nearest_is_nearest(xs, x, xs.len(), 0);
    }

    /// The arrows step the crosshair, `+` and `-` zoom in and out, `[` and `]`
    /// pan left and right — in the scalars view, and nowhere else.
    pub proof fn law_chart_keys(
        self,
        state: ScalarsModel,
        tags: Seq<Seq<char>>,
        xs: Seq<u64>,
        range: Option<(u64, u64)>,
    )
        ensures
            ({
                let press = |key: Key|
                    self.scalars_pressed(state, key, tags, xs, range, screen::View::Scalars).0;
                &&& press(Key::Right).crosshair == self.stepped(xs, state.crosshair, true)
                &&& press(Key::Left).crosshair == self.stepped(xs, state.crosshair, false)
                &&& press(Key::Right).x_window == self.followed(
                    state.x_window,
                    self.stepped(xs, state.crosshair, true),
                )
                &&& press(Key::Char('+')).x_window == self.zoomed(
                    state.x_window,
                    state.crosshair,
                    range,
                    true,
                )
                &&& press(Key::Char('-')).x_window == self.zoomed(
                    state.x_window,
                    state.crosshair,
                    range,
                    false,
                )
                &&& press(Key::Char(']')).x_window == self.panned(state.x_window, range, true)
                &&& press(Key::Char('[')).x_window == self.panned(state.x_window, range, false)
            }),
            ({
                let press = |key: Key|
                    self.scalars_pressed(state, key, tags, xs, range, screen::View::Compare).0;
                &&& press(Key::Right) == state && press(Key::Left) == state
                &&& press(Key::Char('+')) == state && press(Key::Char('-')) == state
                &&& press(Key::Char('[')) == state && press(Key::Char(']')) == state
                &&& press(Key::Char('0')) == state
            }),
    {
    }
}

} // verus!
