//! What a chart is made of: the series that match, run by run, as far as they
//! are held, and what the screens are about to draw.
use vstd::prelude::*;
use vstd::seq_lib::seq_to_set_is_finite;

use crate::arith::{Arith, Operation};
use crate::chart::{
    counter_in, front, held, held_counter, match_label, matching, matching_tags, plan_of, runs_of,
    shared_extent, ChartModel, OptionsModel, PlanModel, XAxis,
};
use crate::double::{below, finite};
use crate::export::exported;
use crate::names::{lemma_in_order_distinct, lemma_sorted, sorted, NameMap};
use crate::numeric::Wording;
use crate::project::ProjectModel;
use crate::run::{Run, RunModel, Stamp};
use crate::screen;
use crate::tui::{cursor_or_first, lemma_place_of};
use crate::update::{across_runs, chart_range, first_xs, scalars_needed, with_counter};
use crate::viewer::{has_tag, UiModel};

verus! {

/// The matches of runs are those of each, one run behind the other.
pub proof fn law_matches_run_by_run(
    runs: NameMap<Run>,
    shown: Seq<int>,
    filter: Seq<char>,
    at: int,
    k: int,
)
    requires
        0 <= k < matching_tags(
            runs.values()[at],
            filter,
            runs.values()[at].series.names().len(),
        ).len(),
    ensures
        ({
            let tags = matching_tags(
                runs.values()[at],
                filter,
                runs.values()[at].series.names().len(),
            );
            let before = matching(runs, shown, filter);
            let after = matching(runs, shown.push(at), filter);
            &&& after.len() == before.len() + tags.len()
            &&& after.take(before.len() as int) == before
            &&& after[before.len() + k] == (runs.names()[at], tags[k])
        }),
        matching(runs, Seq::empty(), filter).len() == 0,
{
    assert(shown.push(at).drop_last() =~= shown);
    let before = matching(runs, shown, filter);
    let after = matching(runs, shown.push(at), filter);
    assert(after.take(before.len() as int) =~= before);
}

/// A plan takes the first sixteen matches, counts those beyond, and knows how
/// many runs they are of.
pub proof fn law_plans_take_the_first_matches(
    all: Seq<(Seq<char>, Seq<char>)>,
    run: Seq<char>,
    k: int,
)
    requires
        all.len() <= usize::MAX,
    ensures
        plan_of(all).matches.len() <= 16,
        plan_of(all).matches == all.take(plan_of(all).matches.len() as int),
        plan_of(all).matches.len() + plan_of(all).cut == all.len(),
        0 <= k < plan_of(all).matches.len() ==> runs_of(plan_of(all).matches).contains(
            plan_of(all).matches[k].0,
        ),
        plan_of(all).matches.len() == 0 ==> !runs_of(plan_of(all).matches).contains(run),
{
    assert(all.take(all.len() as int) =~= all);
}

/// The names of a set in order are as many as the set has.
pub proof fn law_ordered_names_are_counted(set: Set<Seq<char>>)
    requires
        set.finite(),
    ensures
        sorted(set).len() == set.len(),
{
    lemma_sorted(set);
    let names = sorted(set);
    assert forall|i: int, j: int| 0 <= i < j < names.len() implies names[i] != names[j] by {
        if names[i] == names[j] {
            lemma_in_order_distinct(names, i, j);
        }
    }
    names.unique_seq_to_set();
    assert(names.to_set() =~= set);
}

/// A plan knows whether the matches that it takes are of several runs.
pub proof fn law_plans_count_the_runs(all: Seq<(Seq<char>, Seq<char>)>, i: int, j: int)
    ensures
        ({
            let plan = plan_of(all);
            &&& plan.runs_matched <= plan.matches.len()
            &&& plan.runs_matched == 0 <==> plan.matches.len() == 0
            &&& 0 <= i < plan.matches.len() && 0 <= j < plan.matches.len() && plan.matches[i].0
                != plan.matches[j].0 ==> plan.runs_matched > 1
            &&& (forall|k: int|
                0 <= k < plan.matches.len() ==> (#[trigger] plan.matches[k]).0
                    == plan.matches[0].0) ==> plan.runs_matched <= 1
        }),
{
    let plan = plan_of(all);
    let names = plan.matches.map_values(|entry: (Seq<char>, Seq<char>)| entry.0);
    let set = runs_of(plan.matches);
    assert forall|name: Seq<char>| set.contains(name) <==> names.to_set().contains(name) by {
        if set.contains(name) {
            let k = choose|k: int|
                0 <= k < plan.matches.len() && (#[trigger] plan.matches[k]).0 == name;
            assert(names[k] == name);
        }
        if names.contains(name) {
            let k = choose|k: int| 0 <= k < names.len() && names[k] == name;
            assert(plan.matches[k].0 == name);
        }
    }
    assert(set =~= names.to_set());
    seq_to_set_is_finite(names);
    names.lemma_cardinality_of_set();
    law_ordered_names_are_counted(set);
    lemma_sorted(set);
    let list = sorted(set);
    if plan.matches.len() > 0 {
        assert(set.contains(plan.matches[0].0));
        assert(list.contains(plan.matches[0].0));
    }
    if 0 <= i < plan.matches.len() && 0 <= j < plan.matches.len() {
        let (a, b) = (plan.matches[i].0, plan.matches[j].0);
        assert(set.contains(a) && set.contains(b));
        assert(list.contains(a) && list.contains(b));
    }
    if list.len() > 1 {
        assert(list.contains(list[0]) && list.contains(list[1]));
        assert(set.contains(list[0]) && set.contains(list[1]));
        if list[0] == list[1] {
            lemma_in_order_distinct(list, 0, 1);
        }
    }
}

/// Every match that is held draws a series under its label, behind the others;
/// one that is not held draws nothing. On the tokens axis a run without a
/// counter draws nothing, and is counted.
pub proof fn law_matches_draw<O: Fn(Operation, u64, u64) -> u64, I: Fn(i64) -> u64>(
    arith: Arith<O, I>,
    project: ProjectModel,
    matches: Seq<(Seq<char>, Seq<char>)>,
    options: OptionsModel,
    several: bool,
    run: Seq<char>,
    tag: Seq<char>,
)
    ensures
        ({
            let (chart, lacking, drawn) = arith.collected(project, matches, options, several);
            let (next, missing, shown) = arith.collected(
                project,
                matches.push((run, tag)),
                options,
                several,
            );
            let counter = held_counter(project, run, options.tokens_tag);
            &&& options.x_axis == XAxis::Tokens && counter is None ==> next == chart && shown
                == drawn && missing == lacking.insert(run)
            &&& options.x_axis != XAxis::Tokens ==> missing == lacking
            &&& options.x_axis != XAxis::Tokens && !project.points.dom().contains((run, tag))
                ==> next == chart && shown == drawn
            &&& options.x_axis != XAxis::Tokens && project.points.dom().contains((run, tag))
                ==> next == arith.with_series(
                chart,
                project.points[(run, tag)].0,
                None,
                match_label(run, tag, several),
                options,
            )
            &&& options.x_axis == XAxis::Tokens && counter is Some && project.points.dom().contains(
                (run, tag),
            ) ==> next == arith.with_series(
                chart,
                project.points[(run, tag)].0,
                counter,
                match_label(run, tag, several),
                options,
            )
            &&& next.series.len() > chart.series.len() ==> shown == drawn.insert(run)
            &&& next.series.len() == chart.series.len() ==> shown == drawn
        }),
        arith.collected(project, Seq::empty(), options, several).0 == ChartModel::start(options),
{
    assert(matches.push((run, tag)).drop_last() =~= matches);
}

/// The counter of a run is the series that its name resolves to, where it is
/// held.
pub proof fn law_counters_are_held(
    project: ProjectModel,
    run: Seq<char>,
    tokens_tag: Option<Seq<char>>,
    tag: Seq<char>,
)
    ensures
        !project.runs.dom().contains(run) ==> held_counter(project, run, tokens_tag) is None,
        counter_in(project.runs, run, tokens_tag) == Some(tag) ==> held_counter(
            project,
            run,
            tokens_tag,
        ) == held(project, run, tag),
        project.points.dom().contains((run, tag)) ==> held(project, run, tag) == Some(
            project.points[(run, tag)].0,
        ),
        !project.points.dom().contains((run, tag)) ==> held(project, run, tag) is None,
{
}

/// The planned chart tells how many series were cut, how many runs it draws
/// and how many lack a counter.
pub proof fn law_planned_charts_tell<O: Fn(Operation, u64, u64) -> u64, I: Fn(i64) -> u64>(
    arith: Arith<O, I>,
    project: ProjectModel,
    plan: PlanModel,
    options: OptionsModel,
)
    ensures
        ({
            let several = plan.runs_matched > 1;
            let (chart, lacking, drawn) = arith.collected(project, plan.matches, options, several);
            let planned = arith.planned(project, plan, options);
            &&& planned.series == chart.series && planned.boundaries == chart.boundaries
            &&& planned.cut == plan.cut
            &&& planned.run_count == sorted(drawn).len() as usize
            &&& planned.runs_without_counter == sorted(lacking).len() as usize
            &&& planned.tokens_dropped == chart.tokens_dropped
        }),
{
}

/// One tag across runs: each run whose series is held draws it, named by the
/// run where there are several and by the tag where there is one.
pub proof fn law_one_tag_across_runs<O: Fn(Operation, u64, u64) -> u64, I: Fn(i64) -> u64>(
    arith: Arith<O, I>,
    project: ProjectModel,
    runs: Seq<Seq<char>>,
    run: Seq<char>,
    tag: Seq<char>,
    options: OptionsModel,
    several: bool,
)
    ensures
        ({
            let chart = arith.across(project, runs, tag, options, several);
            let next = arith.across(project, runs.push(run), tag, options, several);
            let counter = held_counter(project, run, options.tokens_tag);
            let points = project.points[(run, tag)].0;
            let there = project.points.dom().contains((run, tag)) && points.steps.len() > 0;
            &&& !there ==> next == chart
            &&& there && options.x_axis != XAxis::Tokens ==> next == arith.with_series(
                chart,
                points,
                None,
                if several {
                    run
                } else {
                    tag
                },
                options,
            )
            &&& there && options.x_axis == XAxis::Tokens && counter is Some ==> next
                == arith.with_series(
                chart,
                points,
                counter,
                if several {
                    run
                } else {
                    tag
                },
                options,
            )
            &&& there && options.x_axis == XAxis::Tokens && counter is None
                && chart.runs_without_counter < usize::MAX ==> next.series == chart.series
                && next.runs_without_counter == chart.runs_without_counter + 1
        }),
        ({
            let chart = arith.tagged(project, runs, tag, options);
            let drawn = arith.across(project, front(runs), tag, options, front(runs).len() > 1);
            &&& chart.series == drawn.series
            &&& chart.run_count == drawn.series.len() as usize
            &&& runs.len() <= usize::MAX ==> chart.cut + front(runs).len() == runs.len()
        }),
{
    assert(runs.push(run).drop_last() =~= runs);
}

/// A shared range spans every range that there is, and nothing where there is
/// none.
pub proof fn law_shared_ranges_span(ranges: Seq<Option<(u64, u64)>>, at: int)
    requires
        0 <= at < ranges.len(),
        forall|i: int|
            0 <= i < ranges.len() ==> (#[trigger] ranges[i] matches Some((a, b)) ==> finite(a)
                && finite(b)),
    ensures
        ranges[at] matches Some((a, b)) ==> (shared_extent(ranges) matches Some((from, to))
            && !below(a, from) && !below(to, b)),
        shared_extent(ranges) matches Some((from, to)) ==> finite(from) && finite(to),
    decreases ranges.len(),
{
    let init = ranges.drop_last();
    let n = ranges.len() - 1;
    assert(ranges[n] == ranges.last());
    assert forall|i: int| 0 <= i < init.len() implies (#[trigger] init[i] matches Some((a, b))
        ==> finite(a) && finite(b)) by {
        assert(init[i] == ranges[i]);
    }
    if init.len() > 0 {
        let k = if at < n {
            at
        } else {
            0
        };
        law_shared_ranges_span(init, k);
        assert(init[k] == ranges[k]);
    } else {
        assert(shared_extent(init) is None);
    }
}

/// The cursor's entry where it is in the list, and else the first there is.
pub proof fn law_cursor_or_the_first(cursor: Option<Seq<char>>, list: Seq<Seq<char>>)
    ensures
        cursor matches Some(name) ==> (list.contains(name) ==> cursor_or_first(cursor, list)
            == Some(name)),
        (cursor matches Some(name) ==> !list.contains(name)) && list.len() > 0 ==> cursor_or_first(
            cursor,
            list,
        ) == Some(list[0]),
        list.len() == 0 ==> cursor_or_first(cursor, list) is None,
{
    if let Some(name) = cursor {
        lemma_place_of(list, name);
    }
}

/// The tag that is charted is one of the tags in scope, the cursor's where it
/// is among them; the distribution that is shown is of the cursor's run where
/// that is drawn and has it.
pub proof fn law_charted_tags<F: Fn(&str) -> Option<u64>, P: Fn(u64) -> String>(
    wording: Wording<F, P>,
    runs: NameMap<Run>,
    ui: UiModel,
    now: Stamp,
    window: Stamp,
    name: Seq<char>,
    tag: Seq<char>,
)
    ensures
        ({
            let tags = wording.scalar_tags(runs, ui, now, window);
            &&& tags.contains(tag) && ui.scalars.cursor == Some(tag) ==> wording.charted_tag(
                runs,
                ui,
                now,
                window,
            ) == Some(tag)
            &&& ui.scalars.cursor is None && tags.len() > 0 ==> wording.charted_tag(
                runs,
                ui,
                now,
                window,
            ) == Some(tags[0])
            &&& tags.len() == 0 ==> wording.charted_tag(runs, ui, now, window) is None
        }),
        ({
            let tags = wording.histogram_list(runs, ui, now, window);
            let scope = wording.drawn(runs, ui, now, window);
            &&& tags.contains(tag) && ui.distributions.cursor == Some(tag) && ui.runs.cursor
                == Some(name) && scope.contains(name) && runs.has(name) && runs.at(
                name,
            ).series.has(tag) ==> wording.distribution(runs, ui, now, window) == Some((name, tag))
            &&& tags.len() == 0 ==> wording.distribution(runs, ui, now, window) is None
        }),
{
    let tags = wording.scalar_tags(runs, ui, now, window);
    law_cursor_or_the_first(ui.scalars.cursor, tags);
    law_cursor_or_the_first(ui.distributions.cursor, wording.histogram_list(runs, ui, now, window));
    if runs.has(name) && runs.at(name).series.has(tag) {
        assert(has_tag(runs, name, tag));
    }
}

/// The first series of a chart is what the crosshair steps along, and the
/// range of all of them what the window is held to.
pub proof fn law_crosshairs_step_along_the_first(chart: ChartModel)
    ensures
        chart.series.len() > 0 ==> first_xs(Some(chart)) == chart.series[0].line.xs,
        chart.series.len() == 0 ==> first_xs(Some(chart)).len() == 0,
        first_xs(None).len() == 0,
        chart_range(Some(chart)) == crate::chart::extent(chart.series),
        chart_range(None) is None,
{
}

/// A series is materialized with its run's counter where the axis is tokens,
/// and alone on every other.
pub proof fn law_counters_come_along(
    runs: Map<Seq<char>, RunModel>,
    run: Seq<char>,
    tag: Seq<char>,
    axis: XAxis,
    counter: Seq<char>,
)
    ensures
        with_counter(runs, run, tag, axis).len() > 0,
        with_counter(runs, run, tag, axis)[0] == (run, tag),
        axis != XAxis::Tokens ==> with_counter(runs, run, tag, axis) == seq![(run, tag)],
        axis == XAxis::Tokens && counter_in(runs, run, None) == Some(counter) ==> with_counter(
            runs,
            run,
            tag,
            axis,
        ) == seq![(run, tag), (run, counter)],
        axis == XAxis::Tokens && counter_in(runs, run, None) is None ==> with_counter(
            runs,
            run,
            tag,
            axis,
        ) == seq![(run, tag)],
{
}

/// Every run in scope has its series materialized.
pub proof fn law_series_in_scope_are_materialized(
    runs: Map<Seq<char>, RunModel>,
    scope: Seq<Seq<char>>,
    tag: Seq<char>,
    axis: XAxis,
    at: int,
)
    requires
        0 <= at < scope.len(),
    ensures
        across_runs(runs, scope, tag, axis).contains((scope[at], tag)),
    decreases scope.len(),
{
    let init = scope.drop_last();
    let before = across_runs(runs, init, tag, axis);
    let all = across_runs(runs, scope, tag, axis);
    if at < init.len() {
        law_series_in_scope_are_materialized(runs, init, tag, axis, at);
        let k = choose|k: int| 0 <= k < before.len() && before[k] == (init[at], tag);
        assert(all[k] == (scope[at], tag));
    } else {
        assert(all[before.len() as int] == (scope[at], tag));
    }
}

/// The scalars view needs the charted tag of every drawn run; a screen without
/// a chart needs nothing.
pub proof fn law_screens_need_what_they_draw<F: Fn(&str) -> Option<u64>, P: Fn(u64) -> String>(
    wording: Wording<F, P>,
    project: ProjectModel,
    runs: NameMap<Run>,
    ui: UiModel,
    now: Stamp,
    window: Stamp,
    tag: Seq<char>,
    at: int,
)
    ensures
        ui.view == screen::View::Scalars && wording.charted_tag(runs, ui, now, window) == Some(tag)
            && 0 <= at < wording.drawn(runs, ui, now, window).len() ==> scalars_needed(
            wording,
            project,
            runs,
            ui,
            now,
            window,
        ).contains((wording.drawn(runs, ui, now, window)[at], tag)),
        ui.view == screen::View::Runs || ui.view == screen::View::Hparams || ui.view
            == screen::View::Distributions ==> scalars_needed(
            wording,
            project,
            runs,
            ui,
            now,
            window,
        ).len() == 0,
{
    let scope = wording.drawn(runs, ui, now, window);
    if 0 <= at < scope.len() {
        law_series_in_scope_are_materialized(project.runs, scope, tag, ui.scalars.x_axis, at);
    }
}

/// Each screen exports to a file of its own: the tables under their names, a
/// tag under its own, with a header line in front; where there is nothing to
/// export, a sentence says so.
pub proof fn law_exports_have_their_files<
    F: Fn(&str) -> Option<u64>,
    P: Fn(u64) -> String,
    O: Fn(Operation, u64, u64) -> u64,
    I: Fn(i64) -> u64,
>(
    wording: Wording<F, P>,
    arith: Arith<O, I>,
    project: ProjectModel,
    runs: NameMap<Run>,
    ui: UiModel,
    now: Stamp,
    window: Stamp,
    tag: Seq<char>,
)
    ensures
        ({
            let result = exported(wording, arith, project, runs, ui, now, window);
            let charted = wording.charted_tag(runs, ui, now, window);
            let chart = ui.view == screen::View::Scalars || ui.view == screen::View::Compare;
            &&& ui.view == screen::View::Runs ==> (result matches Ok((path, text)) && path
                == "vertov-runs.csv"@)
            &&& ui.view == screen::View::Hparams ==> (result matches Ok((path, text)) && path
                == "vertov-hparams.csv"@)
            &&& chart && charted is None ==> result == Err::<(Seq<char>, Seq<char>), Seq<char>>(
                "no tag to export"@,
            )
            &&& chart && charted == Some(tag) ==> (result matches Ok((path, text)) && path
                == "vertov-"@ + crate::export::dashed(tag) + ".csv"@ && text
                == "run,tag,step,wall,value\n"@ + wording.tag_lines(
                project,
                wording.drawn(runs, ui, now, window),
                tag,
            ))
            &&& ui.view == screen::View::Distributions && wording.distribution(
                runs,
                ui,
                now,
                window,
            ) is None ==> result == Err::<(Seq<char>, Seq<char>), Seq<char>>(
                "no histogram series to export"@,
            )
        }),
{
}

} // verus!
