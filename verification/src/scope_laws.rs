//! What is in scope on a screen: the runs that pass the working set and the
//! filter, the picked ones among them, and the tags that one of them has.
use vstd::prelude::*;

use crate::arith::{Arith, Operation};
use crate::chart::XAxis;
use crate::exact::{exact_up_to, measures};
use crate::listing::{has_class, RowModel};
use crate::names::NameMap;
use crate::numeric::Wording;
use crate::rows::{ahead, key_less, precedes};
use crate::run::{Run, Stamp};
use crate::screen;
use crate::series::SeriesClass;
use crate::text::text_before;
use crate::tui::{embeds, fuzzy, RunsSort, ScalarsModel};
use crate::viewer::{
    admits, admitted, as_filter, at_most, first_with, found_tags, has_tag, ui_start, UiModel,
};

verus! {

/// A working set admits its members; without one every run is admitted.
pub proof fn law_working_sets_admit(set: Set<Seq<char>>, name: Seq<char>)
    ensures
        admits(None, name),
        admits(Some(set), name) == set.contains(name),
{
}

/// The places that a working set admits, among those of a list.
pub proof fn law_admitted_places(
    names: Seq<Seq<char>>,
    list: Seq<int>,
    set: Option<Set<Seq<char>>>,
    at: int,
)
    ensures
        admitted(names, list, set).contains(at) <==> list.contains(at) && admits(set, names[at]),
    decreases list.len(),
{
    let all = admitted(names, list, set);
    if list.len() > 0 {
        let init = list.drop_last();
        let before = admitted(names, init, set);
        law_admitted_places(names, init, set, at);
        assert(list[list.len() - 1] == list.last());
        if init.contains(at) {
            let k = choose|k: int| 0 <= k < init.len() && init[k] == at;
            assert(list[k] == at);
        }
        if list.contains(at) && at != list.last() {
            let k = choose|k: int| 0 <= k < list.len() && list[k] == at;
            assert(init[k] == at);
        }
        if before.contains(at) {
            let k = choose|k: int| 0 <= k < before.len() && before[k] == at;
            assert(all[k] == at);
        }
        if admits(set, names[list.last()]) {
            assert(all[before.len() as int] == list.last());
        }
        if all.contains(at) && !before.contains(at) {
            let k = choose|k: int| 0 <= k < all.len() && all[k] == at;
            if k < before.len() {
                assert(before[k] == at);
            }
        }
    }
}

impl<F: Fn(&str) -> Option<u64>, P: Fn(u64) -> String> Wording<F, P> {
    /// A run is in scope exactly where the working set admits it and the
    /// filter lets it through; an empty filter lets all through.
    pub proof fn law_runs_in_scope(
        self,
        runs: NameMap<Run>,
        ui: UiModel,
        now: Stamp,
        window: Stamp,
        at: int,
    )
        requires
            0 <= at < runs.names().len(),
        ensures
            self.in_scope(runs, ui, now, window).contains(at) <==> admits(
                ui.working_set,
                runs.names()[at],
            ) && self.passes(
                as_filter(ui.runs.filter),
                runs.names()[at],
                crate::listing::status_word(
                    crate::run::status_of(runs.values()[at]@, now, window),
                ),
                runs.values()[at],
            ),
            as_filter(Seq::empty()) is None,
            ui.runs.filter.len() > 0 ==> as_filter(ui.runs.filter) == Some(ui.runs.filter),
    {
        let shown = self.all_shown(runs, as_filter(ui.runs.filter), now, window);
        law_admitted_places(runs.names(), shown, ui.working_set, at);
        self.law_shown_are_those_that_pass(
            runs,
            as_filter(ui.runs.filter),
            now,
            window,
            runs.names().len(),
            at,
        );
    }

    /// Where nothing is picked, every run in scope is drawn, in order.
    pub proof fn law_without_picks_all_are_drawn(
        self,
        runs: NameMap<Run>,
        ui: UiModel,
        now: Stamp,
        window: Stamp,
        k: int,
    )
        requires
            ui.runs.selected == Set::<Seq<char>>::empty(),
            0 <= k < self.in_scope(runs, ui, now, window).len(),
        ensures
            self.drawn(runs, ui, now, window).len() == self.in_scope(runs, ui, now, window).len(),
            self.drawn(runs, ui, now, window)[k] == runs.names()[self.in_scope(
                runs,
                ui,
                now,
                window,
            )[k]],
    {
    }

    /// Where runs are picked, those that the working set admits are drawn, and
    /// no others.
    pub proof fn law_picked_runs_are_drawn(
        self,
        runs: NameMap<Run>,
        ui: UiModel,
        now: Stamp,
        window: Stamp,
        name: Seq<char>,
    )
        requires
            ui.runs.selected.finite(),
            ui.runs.selected != Set::<Seq<char>>::empty(),
        ensures
            self.drawn(runs, ui, now, window).contains(name) <==> ui.runs.selected.contains(name)
                && admits(ui.working_set, name),
    {
        let wanted = Set::new(
            |name: Seq<char>| ui.runs.selected.contains(name) && admits(ui.working_set, name),
        );
        assert(wanted.subset_of(ui.runs.selected));
        vstd::set_lib::lemma_set_subset_finite(ui.runs.selected, wanted);
        crate::names::lemma_sorted(wanted);
    }
}

/// A tag is found where one of the runs has a series of the class under it and
/// the filter's characters stand in it, in order.
pub proof fn law_found_tags(
    runs: NameMap<Run>,
    scope: Seq<Seq<char>>,
    class: SeriesClass,
    filter: Seq<char>,
    tag: Seq<char>,
    k: int,
)
    ensures
        0 <= k < scope.len() && runs.has(scope[k]) && runs.at(scope[k]).series.has(tag) && runs.at(
            scope[k],
        ).series.at(tag).class == class && fuzzy(tag, filter) ==> found_tags(
            runs,
            scope,
            class,
            filter,
        ).contains(tag),
        !fuzzy(tag, filter) ==> !found_tags(runs, scope, class, filter).contains(tag),
{
    if 0 <= k < scope.len() && runs.has(scope[k]) && runs.at(scope[k]).series.has(tag) && runs.at(
        scope[k],
    ).series.at(tag).class == class && fuzzy(tag, filter) {
        assert(has_class(runs.at(scope[k]), tag, class));
    }
}

/// Everything matches an empty filter and itself; a part matches; and what
/// matches is no longer than the tag.
pub proof fn law_fuzzy_filters(tag: Seq<char>, front: Seq<char>, back: Seq<char>, filter: Seq<char>)
    ensures
        fuzzy(tag, Seq::empty()),
        fuzzy(front + filter + back, filter),
        fuzzy(tag, filter) ==> filter.len() <= tag.len(),
{
    let none = Seq::<int>::empty();
    assert(embeds(tag, Seq::empty(), none));
    let whole = front + filter + back;
    let at = Seq::new(filter.len(), |i: int| front.len() + i);
    assert(embeds(whole, filter, at));
    if fuzzy(tag, filter) {
        let at = choose|at: Seq<int>| embeds(tag, filter, at);
        lemma_places_fit(at, at.len() as int, tag.len() as int);
    }
}

proof fn lemma_places_fit(at: Seq<int>, n: int, len: int)
    requires
        0 <= n <= at.len(),
        len >= 0,
        forall|i: int| 0 <= i < at.len() ==> 0 <= #[trigger] at[i] < len,
        forall|i: int, j: int| 0 <= i < j < at.len() ==> at[i] < at[j],
    ensures
        n <= len,
        n > 0 ==> at[n - 1] >= n - 1,
    decreases n,
{
    if n > 1 {
        lemma_places_fit(at, n - 1, len);
        assert(at[n - 2] < at[n - 1]);
        assert(at[n - 1] < len);
    } else if n == 1 {
        assert(at[0] < len);
    }
}

/// The first of some runs that has a series under a tag.
pub proof fn law_first_run_with_the_tag(
    runs: NameMap<Run>,
    scope: Seq<Seq<char>>,
    tag: Seq<char>,
    at: int,
)
    requires
        0 <= at < scope.len(),
        has_tag(runs, scope[at], tag),
        forall|i: int| 0 <= i < at ==> !has_tag(runs, #[trigger] scope[i], tag),
    ensures
        first_with(runs, scope, tag) == Some(scope[at]),
    decreases scope.len(),
{
    let init = scope.drop_last();
    if at < init.len() {
        assert forall|i: int| 0 <= i < at implies !has_tag(runs, #[trigger] init[i], tag) by {
            assert(init[i] == scope[i]);
        }
        assert(init[at] == scope[at]);
        law_first_run_with_the_tag(runs, init, tag, at);
    } else {
        lemma_none_with(runs, init, tag);
    }
}

proof fn lemma_none_with(runs: NameMap<Run>, scope: Seq<Seq<char>>, tag: Seq<char>)
    requires
        forall|i: int| 0 <= i < scope.len() ==> !has_tag(runs, #[trigger] scope[i], tag),
    ensures
        first_with(runs, scope, tag) is None,
    decreases scope.len(),
{
    if scope.len() > 0 {
        let init = scope.drop_last();
        assert forall|i: int| 0 <= i < init.len() implies !has_tag(
            runs,
            #[trigger] init[i],
            tag,
        ) by {
            assert(init[i] == scope[i]);
        }
        lemma_none_with(runs, init, tag);
        assert(scope[scope.len() - 1] == scope.last());
    }
}

/// The first entries of a list, no more than so many.
pub proof fn law_at_most(list: Seq<Seq<char>>, n: int)
    requires
        n >= 0,
    ensures
        at_most(list, n).len() <= n,
        at_most(list, n) == list.take(at_most(list, n).len() as int),
        at_most(list, n).len() == n || at_most(list, n) == list,
{
    assert(list.take(list.len() as int) =~= list);
}

/// The interface starts on the runs, sorted by name, with nothing picked,
/// narrowed, smoothed or paused, and the tag filter that was asked for.
pub proof fn law_interface_at_the_start(tag_filter: Seq<char>, name: Seq<char>)
    ensures
        ({
            let ui = ui_start(tag_filter);
            &&& ui.view == screen::View::Runs
            &&& ui.runs.sort == RunsSort::Name && !ui.runs.descending
            &&& !ui.runs.selected.contains(name) && ui.runs.filter.len() == 0
            &&& ui.runs.cursor is None && ui.scalars.cursor is None
            &&& ui.scalars.filter == tag_filter && ui.scalars.smooth == 0 && ui.scalars.x_axis
                == XAxis::Step && !ui.scalars.log_y && !ui.scalars.show_ghosts
            &&& ui.scalars.crosshair is None && ui.scalars.x_window is None
            &&& ui.distributions.filter.len() == 0
            &&& ui.working_set is None && !ui.paused && !ui.help && ui.message is None
                && !ui.force_refresh && !ui.export_due
            &&& !ui.runs.editing_filter && !ui.scalars.editing_filter
                && !ui.distributions.editing_filter
        }),
{
}

impl<O: Fn(Operation, u64, u64) -> u64, I: Fn(i64) -> u64> Arith<O, I> {
    /// The chart is drawn as the switches of its view say, smoothed by as many
    /// tenths as were chosen, and not at all at none.
    pub proof fn law_options_follow_the_switches(self, state: ScalarsModel, tenths: int)
        requires
            self.exact(),
            1024 * state.smooth == 10 * tenths,
        ensures
            ({
                let options = self.options_of(state);
                &&& options.x_axis == state.x_axis && options.log_y == state.log_y
                    && options.show_ghosts == state.show_ghosts
                &&& options.runs_filter is None && options.tokens_tag is None
                &&& state.smooth == 0 ==> options.smooth is None
                &&& state.smooth > 0 ==> (options.smooth matches Some(bits) && measures(
                    bits,
                    tenths,
                ))
            }),
    {
        self.lemma_exact_number(state.smooth as i64);
        self.lemma_exact_number(10);
        let a = self.number(state.smooth as i64);
        let b = self.number(10);
        assert((1024 * state.smooth) * 1024 == tenths * 10240) by (nonlinear_arith)
            requires
                1024 * state.smooth == 10 * tenths,
        ;
        assert(exact_up_to(tenths));
        self.lemma_exact_quotient(a, b, 1024 * state.smooth, 10240, tenths);
    }
}

/// The runs table is ordered by its column: names by their text, counts and
/// steps and durations by size, with those that have none before all others;
/// alike ones by name; and the reverse is the reverse.
pub proof fn law_columns_order_the_rows(a: RowModel, b: RowModel, sort: RunsSort)
    ensures
        key_less(a, b, RunsSort::Name) == text_before(a.name, b.name),
        key_less(a, b, RunsSort::Points) == (a.points < b.points),
        key_less(a, b, RunsSort::Restarts) == (a.restarts < b.restarts),
        a.step is None && b.step is Some ==> key_less(a, b, RunsSort::Step) && !key_less(
            b,
            a,
            RunsSort::Step,
        ),
        a.step is Some && b.step is Some ==> key_less(a, b, RunsSort::Step) == (a.step->0
            < b.step->0),
        a.step is None && b.step is None ==> !key_less(a, b, RunsSort::Step),
        a.duration is None && b.duration is Some ==> key_less(a, b, RunsSort::Duration)
            && !key_less(b, a, RunsSort::Duration),
        a.duration is Some && b.duration is Some ==> key_less(a, b, RunsSort::Duration)
            == crate::double::below(a.duration->0, b.duration->0),
        key_less(a, b, sort) ==> ahead(a, b, sort),
        !key_less(a, b, sort) && !key_less(b, a, sort) ==> ahead(a, b, sort) == text_before(
            a.name,
            b.name,
        ),
        precedes(a, b, sort, true) == precedes(b, a, sort, false),
        precedes(a, b, sort, false) == ahead(a, b, sort),
{
}

} // verus!
