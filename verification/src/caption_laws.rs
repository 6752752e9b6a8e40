//! What the interface says: every count that is not zero is told, each word
//! stands for one thing, and panels fit where they are put.
use vstd::prelude::*;

use crate::caption::{
    axis_note, chart_line, compare_words, count_note, empty_words, freshness, freshness_words,
    grid_columns, grid_max_rows, grid_shown, live_word, narrowing, panel_words, quiet_too_long,
    ridge_line, status_glyph, tab_words, Freshness,
};
use crate::chart::{ChartModel, XAxis};
use crate::discover::within;
use crate::listing::RowModel;
use crate::numeric::Wording;
use crate::panel::{
    column_width, panel_row, poll_due, run_cells, run_headings, standard_cell,
};
use crate::run::Stamp;
use crate::screen;
use crate::table::{concatenated, duration_text, CellModel};
use crate::text::{decimal_text, integer_text};
use crate::tui::{RunsModel, RunsSort, ScalarsModel};
use crate::viewer::{active_window, doubled, UiModel};

verus! {

/// What stands between two texts stands in the whole.
pub proof fn lemma_stands_within(front: Seq<char>, part: Seq<char>, back: Seq<char>)
    ensures
        within(front + part + back, part),
{
    let whole = front + part + back;
    let i = front.len() as int;
    assert(whole.subrange(i, i + part.len()) =~= part);
}

/// A part of a part is a part.
proof fn lemma_within_within(whole: Seq<char>, part: Seq<char>, inner: Seq<char>)
    requires
        within(whole, part),
        within(part, inner),
    ensures
        within(whole, inner),
{
    let i = choose|i: int|
        0 <= i <= whole.len() - part.len() && #[trigger] whole.subrange(i, i + part.len()) == part;
    let j = choose|j: int|
        0 <= j <= part.len() - inner.len() && #[trigger] part.subrange(j, j + inner.len())
            == inner;
    assert(whole.subrange(i + j, i + j + inner.len()) =~= part.subrange(j, j + inner.len()));
}

/// A count is told where there is something to count, and only there.
pub proof fn law_counts_are_told(n: int, front: Seq<char>, back: Seq<char>)
    ensures
        n > 0 ==> count_note(n, front, back) == front + decimal_text(n as nat) + back,
        n <= 0 ==> count_note(n, front, back).len() == 0,
{
}

/// Texts behind each other, with one more behind them.
proof fn lemma_one_more(parts: Seq<Seq<char>>, part: Seq<char>)
    ensures
        concatenated(parts.push(part)) == concatenated(parts) + part,
{
    assert(parts.push(part).drop_last() =~= parts);
}

/// Each of the texts behind each other stands in the whole, the first in
/// front.
proof fn lemma_parts_within(parts: Seq<Seq<char>>, at: int)
    requires
        0 <= at < parts.len(),
    ensures
        within(concatenated(parts), parts[at]),
        concatenated(parts).len() >= parts[0].len(),
        concatenated(parts).take(parts[0].len() as int) == parts[0],
    decreases parts.len(),
{
    let init = parts.drop_last();
    let whole = concatenated(parts);
    let none = Seq::<char>::empty();
    if at < init.len() {
        lemma_parts_within(init, at);
        lemma_stands_within(none, concatenated(init), parts.last());
        assert(none + concatenated(init) + parts.last() =~= whole);
        lemma_within_within(whole, concatenated(init), parts[at]);
        assert(whole.take(parts[0].len() as int) =~= concatenated(init).take(
            parts[0].len() as int,
        ));
    } else {
        lemma_stands_within(concatenated(init), parts.last(), none);
        assert(concatenated(init) + parts.last() + none =~= whole);
        if init.len() > 0 {
            lemma_parts_within(init, 0);
            assert(whole.take(parts[0].len() as int) =~= concatenated(init).take(
                parts[0].len() as int,
            ));
        } else {
            assert(concatenated(init) =~= none);
            assert(whole.take(parts[0].len() as int) =~= parts[0]);
        }
    }
}

/// A count that is told stands in the whole.
proof fn lemma_note_within(parts: Seq<Seq<char>>, at: int, n: int, front: Seq<char>, back: Seq<char>)
    requires
        0 <= at < parts.len(),
        parts[at] == count_note(n, front, back),
        n > 0,
    ensures
        within(concatenated(parts), decimal_text(n as nat) + back),
{
    let note = count_note(n, front, back);
    let told = decimal_text(n as nat) + back;
    lemma_parts_within(parts, at);
    assert(note =~= front + told + Seq::<char>::empty());
    lemma_stands_within(front, told, Seq::empty());
    lemma_within_within(concatenated(parts), note, told);
}

/// Texts of which only the first is not empty are that one.
proof fn lemma_only_first(parts: Seq<Seq<char>>)
    requires
        parts.len() > 0,
        forall|i: int| 0 < i < parts.len() ==> (#[trigger] parts[i]).len() == 0,
    ensures
        concatenated(parts) == parts[0],
    decreases parts.len(),
{
    let init = parts.drop_last();
    if init.len() > 0 {
        lemma_only_first(init);
        assert(parts[parts.len() - 1].len() == 0);
        assert(concatenated(parts) =~= parts[0]);
    } else {
        assert(concatenated(init) =~= Seq::<char>::empty());
        assert(concatenated(parts) =~= parts[0]);
    }
}

/// The title of a chart starts with the tag and tells everything that the
/// chart left out: series, runs without a counter, points outside of it,
/// records and files; a chart of one run that left nothing out has the tag for
/// its title.
pub proof fn law_chart_line_tells_every_loss(
    tag: Seq<char>,
    chart: ChartModel,
    dropped: u64,
    dead: u64,
    live: Option<Seq<char>>,
)
    ensures
        ({
            let line = chart_line(tag, chart, dropped, dead, live);
            &&& line.len() >= tag.len() && line.take(tag.len() as int) == tag
            &&& chart.run_count > 1 ==> within(
                line,
                decimal_text(chart.run_count as nat) + " runs"@,
            )
            &&& chart.cut > 0 ==> within(
                line,
                decimal_text(chart.cut as nat) + " series not shown"@,
            )
            &&& chart.runs_without_counter > 0 ==> within(
                line,
                decimal_text(chart.runs_without_counter as nat) + " runs lack a token counter"@,
            )
            &&& chart.tokens_dropped > 0 ==> within(
                line,
                decimal_text(chart.tokens_dropped as nat) + " pts outside counter"@,
            )
            &&& dropped > 0 ==> within(line, decimal_text(dropped as nat) + " records lost"@)
            &&& dead > 0 ==> within(line, decimal_text(dead as nat) + " dead files"@)
            &&& live matches Some(state) ==> within(line, state)
            &&& chart.run_count <= 1 && chart.cut == 0 && chart.runs_without_counter == 0
                && chart.tokens_dropped == 0 && dropped == 0 && dead == 0 && live is None ==> line
                == tag
        }),
{
    let line = chart_line(tag, chart, dropped, dead, live);
    let dot = " · "@;
    let runs = if chart.run_count > 1 {
        chart.run_count as int
    } else {
        0
    };
    let a = count_note(runs, dot, " runs"@);
    let b = count_note(chart.cut as int, " · +"@, " series not shown"@);
    let c = count_note(chart.runs_without_counter as int, dot, " runs lack a token counter"@);
    let d = count_note(chart.tokens_dropped as int, dot, " pts outside counter"@);
    let e = count_note(dropped as int, dot, " records lost"@);
    let f = count_note(dead as int, dot, " dead files"@);
    let g = match live {
        Some(state) => dot + state,
        None => Seq::empty(),
    };
    let p0 = seq![tag];
    let p1 = p0.push(a);
    let p2 = p1.push(b);
    let p3 = p2.push(c);
    let p4 = p3.push(d);
    let p5 = p4.push(e);
    let p6 = p5.push(f);
    let parts = p6.push(g);
    lemma_only_first(p0);
    lemma_one_more(p0, a);
    lemma_one_more(p1, b);
    lemma_one_more(p2, c);
    lemma_one_more(p3, d);
    lemma_one_more(p4, e);
    lemma_one_more(p5, f);
    lemma_one_more(p6, g);
    assert(line == concatenated(parts));
    lemma_parts_within(parts, 0);
    if runs > 0 {
        lemma_note_within(parts, 1, runs, dot, " runs"@);
    }
    if chart.cut > 0 {
        lemma_note_within(parts, 2, chart.cut as int, " · +"@, " series not shown"@);
    }
    if chart.runs_without_counter > 0 {
        lemma_note_within(
            parts,
            3,
            chart.runs_without_counter as int,
            dot,
            " runs lack a token counter"@,
        );
    }
    if chart.tokens_dropped > 0 {
        lemma_note_within(parts, 4, chart.tokens_dropped as int, dot, " pts outside counter"@);
    }
    if dropped > 0 {
        lemma_note_within(parts, 5, dropped as int, dot, " records lost"@);
    }
    if dead > 0 {
        lemma_note_within(parts, 6, dead as int, dot, " dead files"@);
    }
    if let Some(state) = live {
        lemma_parts_within(parts, 7);
        assert(g =~= dot + state + Seq::<char>::empty());
        lemma_stands_within(dot, state, Seq::empty());
        lemma_within_within(line, g, state);
    }
    if chart.run_count <= 1 && chart.cut == 0 && chart.runs_without_counter == 0
        && chart.tokens_dropped == 0 && dropped == 0 && dead == 0 && live is None {
        lemma_only_first(parts);
    }
}

impl<F: Fn(&str) -> Option<u64>, P: Fn(u64) -> String> Wording<F, P> {
    /// The title of the chart on the screen starts with the tag and tells its
    /// switches — smoothing in tenths, the logarithm, the ghosts, the axis, a
    /// zoom — where they are on, and what it left out.
    pub proof fn law_screen_line_tells_the_switches(
        self,
        tag: Seq<char>,
        state: ScalarsModel,
        chart: ChartModel,
        readings: Seq<(Seq<char>, u64, u64)>,
    )
        ensures
            ({
                let line = self.screen_line(tag, state, chart, readings);
                &&& line.len() >= tag.len() && line.take(tag.len() as int) == tag
                &&& chart.run_count > 1 ==> within(
                    line,
                    decimal_text(chart.run_count as nat) + " runs"@,
                )
                &&& chart.cut > 0 ==> within(line, decimal_text(chart.cut as nat) + " not shown"@)
                &&& state.smooth > 0 ==> within(
                    line,
                    " · smooth 0."@ + decimal_text(state.smooth as nat),
                )
                &&& state.log_y ==> within(line, " · log"@)
                &&& state.show_ghosts ==> within(line, " · ghosts"@)
                &&& state.x_axis == XAxis::Wall ==> within(line, " · wall"@)
                &&& state.x_axis == XAxis::Relative ==> within(line, " · relative"@)
                &&& state.x_axis == XAxis::Tokens ==> within(line, " · tokens"@)
                &&& chart.runs_without_counter > 0 ==> within(
                    line,
                    decimal_text(chart.runs_without_counter as nat) + " runs lack a counter"@,
                )
                &&& chart.tokens_dropped > 0 ==> within(
                    line,
                    decimal_text(chart.tokens_dropped as nat) + " pts outside counter"@,
                )
                &&& state.x_window is Some ==> within(line, " · zoom (0 fits)"@)
                &&& state.crosshair is Some ==> within(line, self.crosshair_text(readings))
                &&& chart.run_count <= 1 && chart.cut == 0 && state.smooth == 0 && !state.log_y
                    && !state.show_ghosts && state.x_axis == XAxis::Step
                    && chart.runs_without_counter == 0 && chart.tokens_dropped == 0
                    && state.x_window is None && state.crosshair is None ==> line == tag
            }),
    {
        let line = self.screen_line(tag, state, chart, readings);
        let dot = " · "@;
        let none = Seq::<char>::empty();
        let runs = if chart.run_count > 1 {
            chart.run_count as int
        } else {
            0
        };
        let a = count_note(runs, dot, " runs"@);
        let b = count_note(chart.cut as int, " · +"@, " not shown"@);
        let c = count_note(state.smooth as int, " · smooth 0."@, ""@);
        let d = if state.log_y {
            " · log"@
        } else {
            none
        };
        let e = if state.show_ghosts {
            " · ghosts"@
        } else {
            none
        };
        let f = axis_note(state.x_axis);
        let g = count_note(chart.runs_without_counter as int, dot, " runs lack a counter"@);
        let h = count_note(chart.tokens_dropped as int, dot, " pts outside counter"@);
        let i = if state.x_window is Some {
            " · zoom (0 fits)"@
        } else {
            none
        };
        let j = if state.crosshair is Some {
            self.crosshair_text(readings)
        } else {
            none
        };
        let p0 = seq![tag];
        let p1 = p0.push(a);
        let p2 = p1.push(b);
        let p3 = p2.push(c);
        let p4 = p3.push(d);
        let p5 = p4.push(e);
        let p6 = p5.push(f);
        let p7 = p6.push(g);
        let p8 = p7.push(h);
        let p9 = p8.push(i);
        let parts = p9.push(j);
        lemma_only_first(p0);
        lemma_one_more(p0, a);
        lemma_one_more(p1, b);
        lemma_one_more(p2, c);
        lemma_one_more(p3, d);
        lemma_one_more(p4, e);
        lemma_one_more(p5, f);
        lemma_one_more(p6, g);
        lemma_one_more(p7, h);
        lemma_one_more(p8, i);
        lemma_one_more(p9, j);
        assert(line == concatenated(parts));
        lemma_parts_within(parts, 0);
        lemma_parts_within(parts, 3);
        lemma_parts_within(parts, 4);
        lemma_parts_within(parts, 5);
        lemma_parts_within(parts, 6);
        lemma_parts_within(parts, 9);
        lemma_parts_within(parts, 10);
        if runs > 0 {
            lemma_note_within(parts, 1, runs, dot, " runs"@);
        }
        if chart.cut > 0 {
            lemma_note_within(parts, 2, chart.cut as int, " · +"@, " not shown"@);
        }
        if state.smooth > 0 {
            reveal_strlit("");
            assert(c =~= " · smooth 0."@ + decimal_text(state.smooth as nat));
        }
        if chart.runs_without_counter > 0 {
            lemma_note_within(
                parts,
                7,
                chart.runs_without_counter as int,
                dot,
                " runs lack a counter"@,
            );
        }
        if chart.tokens_dropped > 0 {
            lemma_note_within(parts, 8, chart.tokens_dropped as int, dot, " pts outside counter"@);
        }
        if chart.run_count <= 1 && chart.cut == 0 && state.smooth == 0 && !state.log_y
            && !state.show_ghosts && state.x_axis == XAxis::Step && chart.runs_without_counter
            == 0 && chart.tokens_dropped == 0 && state.x_window is None
            && state.crosshair is None {
            lemma_only_first(parts);
        }
    }

    /// A crosshair over one series reads its position and its value; over
    /// several, each of the first three with its label, and how many more
    /// there are.
    pub proof fn law_crosshair_reads(
        self,
        label: Seq<char>,
        x: u64,
        value: u64,
        other: Seq<char>,
        second: u64,
    )
        ensures
            self.crosshair_text(Seq::empty()).len() == 0,
            self.crosshair_text(seq![(label, x, value)]) == " ┊ @"@ + self.significant_text(x, 6)
                + " = "@ + self.significant_text(value, 6),
            self.crosshair_text(seq![(label, x, value), (other, x, second)]) == " ┊ @"@
                + self.significant_text(x, 6) + "  "@ + label + " "@ + self.significant_text(
                value,
                6,
            ) + "  "@ + other + " "@ + self.significant_text(second, 6),
    {
        reveal_with_fuel(Wording::readings_text, 3);
        reveal_strlit("");
        let one = seq![(label, x, value)];
        let two = seq![(label, x, value), (other, x, second)];
        assert(self.crosshair_text(one) =~= " ┊ @"@ + self.significant_text(x, 6) + " = "@
            + self.significant_text(value, 6));
        assert(self.crosshair_text(two) =~= " ┊ @"@ + self.significant_text(x, 6) + "  "@ + label
            + " "@ + self.significant_text(value, 6) + "  "@ + other + " "@
            + self.significant_text(second, 6));
    }

    /// A cell of the flat table on the screen is its text, a number cut to six
    /// significant digits; a mark before its name says which run is picked.
    pub proof fn law_flat_cells_on_the_screen(
        self,
        row: Seq<CellModel>,
        selected: bool,
        at: int,
        bits: u64,
        text: Seq<char>,
    )
        requires
            0 <= at < row.len(),
        ensures
            self.cell_words(CellModel::Float(bits)) == self.significant_text(bits, 6),
            self.cell_words(CellModel::Text(text)) == text,
            self.cell_words(CellModel::Empty).len() == 0,
            ({
                let words = self.row_words(row, selected);
                &&& words.len() == row.len()
                &&& at > 0 ==> words[at] == self.cell_words(row[at])
                &&& selected ==> words[0] == "▸"@ + self.cell_words(row[0])
                &&& !selected ==> words[0] == " "@ + self.cell_words(row[0])
            }),
    {
    }
}

/// Every axis but the usual one is told, each by its own word.
pub proof fn law_axes_are_told()
    ensures
        axis_note(XAxis::Step).len() == 0,
        axis_note(XAxis::Wall) == " · wall"@,
        axis_note(XAxis::Relative) == " · relative"@,
        axis_note(XAxis::Tokens) == " · tokens"@,
{
}

/// A chart waits where it has no data, is stale where nothing came for more
/// than two polls, and is live otherwise; so is the interface, unless it is
/// paused.
pub proof fn law_staleness_is_told(quiet: Stamp, interval: Stamp, waiting: bool, paused: bool)
    requires
        interval.secs < 0x7FFF_FFFF_FFFF_FFFF,
        interval.nanos < 1_000_000_000,
        quiet.nanos < 1_000_000_000,
    ensures
        ({
            let old = quiet.secs * 1_000_000_000 + quiet.nanos > 2 * (interval.secs * 1_000_000_000
                + interval.nanos);
            &&& quiet_too_long(quiet, interval) == old
            &&& waiting ==> live_word(waiting, quiet, interval) == "waiting for data"@
            &&& !waiting && old ==> live_word(waiting, quiet, interval) == "stale "@ + decimal_text(
                quiet.secs as nat,
            ) + "s"@
            &&& !waiting && !old ==> live_word(waiting, quiet, interval) == "live"@
            &&& freshness(paused, quiet, interval) == (if paused {
                Freshness::Paused
            } else if old {
                Freshness::Stale
            } else {
                Freshness::Live
            })
            &&& freshness_words(Freshness::Paused, quiet) == "‖ paused"@
            &&& freshness_words(Freshness::Stale, quiet) == "○ stale "@ + decimal_text(
                quiet.secs as nat,
            ) + "s"@
            &&& freshness_words(Freshness::Live, quiet) == "● live"@
        }),
{
}

/// A run stays active for two polls, and for a minute at least.
pub proof fn law_active_window_is_two_polls(interval: Stamp)
    requires
        interval.secs < 0x7FFF_FFFF_FFFF_FFFF,
        interval.nanos < 1_000_000_000,
    ensures
        doubled(interval).total() == 2 * interval.total(),
        active_window(interval).total() >= 60_000_000_000,
        active_window(interval).total() >= 2 * interval.total(),
        active_window(interval).total() == 60_000_000_000 || active_window(interval).total() == 2
            * interval.total(),
{
}

/// A poll is due where it was asked for, and otherwise once the interval has
/// passed, unless the interface is paused.
pub proof fn law_polls_are_due(since: Stamp, interval: Stamp, paused: bool)
    ensures
        poll_due(true, paused, since, interval),
        !poll_due(false, true, since, interval),
        poll_due(false, false, since, interval) == (since.secs * 1_000_000_000 + since.nanos
            >= interval.secs * 1_000_000_000 + interval.nanos),
{
}

/// The title of a panel is its name, with its filter behind it where it has
/// one or one is under edit, and a bar behind that under edit.
pub proof fn law_panel_titles(name: Seq<char>, filter: Seq<char>)
    requires
        filter.len() > 0,
    ensures
        panel_words(name, Seq::empty(), false) == name,
        panel_words(name, filter, false) == name + " · /"@ + filter,
        panel_words(name, filter, true) == name + " · /"@ + filter + "▏"@,
        panel_words(name, Seq::empty(), true) == name + " · /"@ + Seq::<char>::empty() + "▏"@,
{
}

/// An empty screen names what narrows the scope: the filter, the working set,
/// the selection — each where it does, and nothing else.
pub proof fn law_empty_screens_say_why(ui: UiModel)
    ensures
        narrowing(ui).contains("the runs filter"@) == (ui.runs.filter.len() > 0),
        narrowing(ui).contains("the working set (U resets)"@) == (ui.working_set is Some),
        narrowing(ui).contains("the selection (Esc in runs clears)"@) == (ui.runs.selected
            != Set::<Seq<char>>::empty()),
        ui.runs.filter.len() == 0 && ui.working_set is None && ui.runs.selected
            == Set::<Seq<char>>::empty() ==> empty_words(ui) == "no matching series"@,
{
    reveal_strlit("the runs filter");
    reveal_strlit("the working set (U resets)");
    reveal_strlit("the selection (Esc in runs clears)");
    let a = "the runs filter"@;
    let b = "the working set (U resets)"@;
    let c = "the selection (Esc in runs clears)"@;
    assert(a.len() == 15 && b.len() == 26 && c.len() == 34);
    let list = narrowing(ui);
    if ui.runs.filter.len() > 0 {
        assert(list[0] == a);
    }
    if ui.working_set is Some {
        let at: int = if ui.runs.filter.len() > 0 {
            1
        } else {
            0
        };
        assert(list[at] == b);
    }
    if ui.runs.selected != Set::<Seq<char>>::empty() {
        assert(list.last() == c);
    }
}

/// The tabs are numbered as they stand, and named.
pub proof fn law_tabs_are_named()
    ensures
        tab_words(screen::View::Runs) == ("1"@, "runs"@),
        tab_words(screen::View::Scalars) == ("2"@, "scalars"@),
        tab_words(screen::View::Compare) == ("3"@, "compare"@),
        tab_words(screen::View::Hparams) == ("4"@, "hparams"@),
        tab_words(screen::View::Distributions) == ("5"@, "dists"@),
{
}

/// Each status word has its own glyph.
pub proof fn law_statuses_have_glyphs(word: Seq<char>)
    ensures
        status_glyph("active"@) == "●"@,
        status_glyph("done"@) == "✓"@,
        status_glyph("idle"@) == "◌"@,
        word != "active"@ && word != "done"@ && word != "idle"@ ==> status_glyph(word) == "?"@,
{
    reveal_strlit("active");
    reveal_strlit("done");
    reveal_strlit("idle");
    assert("active"@.len() == 6 && "done"@.len() == 4 && "idle"@.len() == 4);
    assert("done"@[0] == 'd' && "idle"@[0] == 'i');
}

/// The title of a ridgeline names tag, run and steps, and how many snapshots
/// are drawn of how many, where that is not all of them.
pub proof fn law_ridge_titles(
    tag: Seq<char>,
    run: Seq<char>,
    first: i64,
    last: i64,
    drawn: nat,
    total: nat,
)
    requires
        drawn < total,
    ensures
        ridge_line(tag, run, (first, last), total as int, total as int) == tag + " · "@ + run
            + " · steps "@ + integer_text(first as int) + "–"@ + integer_text(last as int),
        ridge_line(tag, run, (first, last), drawn as int, total as int) == tag + " · "@ + run
            + " · steps "@ + integer_text(first as int) + "–"@ + integer_text(last as int) + " · "@
            + decimal_text(drawn) + " of "@ + decimal_text(total) + " shown"@,
{
    let front = tag + " · "@ + run + " · steps "@ + integer_text(first as int) + "–"@
        + integer_text(last as int);
    assert(front + Seq::<char>::empty() =~= front);
    assert(ridge_line(tag, run, (first, last), drawn as int, total as int) =~= front + " · "@
        + decimal_text(drawn) + " of "@ + decimal_text(total) + " shown"@);
}

/// Panels side by side have 24 cells each, as many as fit, but one at least
/// and three at most; rows of them have 8 cells each, and there is one; and as
/// many panels are shown as there are tags or places.
pub proof fn law_panels_fit(width: int, height: int, tags: int)
    requires
        width >= 0,
        height >= 0,
        tags >= 0,
    ensures
        1 <= grid_columns(width) <= 3,
        grid_columns(width) == 1 || 24 * grid_columns(width) <= width,
        grid_columns(width) == 3 || 24 * (grid_columns(width) + 1) > width,
        1 <= grid_max_rows(height),
        grid_max_rows(height) == 1 || 8 * grid_max_rows(height) <= height,
        8 * (grid_max_rows(height) + 1) > height,
        grid_shown(width, height, tags) <= tags,
        grid_shown(width, height, tags) <= grid_columns(width) * grid_max_rows(height),
        grid_shown(width, height, tags) == tags || grid_shown(width, height, tags) == grid_columns(
            width,
        ) * grid_max_rows(height),
{
}

/// A panel that is marked tells how many tags did not fit, where some did not.
pub proof fn law_left_out_tags_are_told(tag: Seq<char>, left_out: nat)
    ensures
        compare_words(tag, left_out as int, false) == tag,
        compare_words(tag, 0, true) == tag,
        left_out > 0 ==> compare_words(tag, left_out as int, true) == tag + " (+"@ + decimal_text(
            left_out,
        ) + " more)"@,
{
    assert(tag + Seq::<char>::empty() =~= tag);
    assert(tag + (" (+"@ + decimal_text(left_out) + " more)"@) =~= tag + " (+"@ + decimal_text(
        left_out,
    ) + " more)"@);
}

/// A row of the runs table has a cell under each heading behind name and
/// status; narrow terminals leave out the trend first, then the duration, then
/// the step.
pub proof fn law_headings_stand_over_their_cells(width: u16, row: RowModel, runs: RunsModel)
    ensures
        ({
            let heads = run_headings(width, runs);
            let cells = run_cells(width, row);
            &&& heads.len() == cells.len() + 2
            &&& heads[0].label == "run"@ && heads[1].label == "status"@
            &&& heads[2].label == "series"@ && cells[0] == decimal_text(row.series as nat)
            &&& heads[3].label == "points"@ && cells[1] == decimal_text(row.points as nat)
            &&& heads[4].label == "restarts"@ && cells[2] == decimal_text(row.restarts as nat)
            &&& width < 70 ==> heads.len() == 5
            &&& 70 <= width < 84 ==> heads.len() == 6
            &&& 84 <= width < 100 ==> heads.len() == 7
            &&& width >= 100 ==> heads.len() == 8 && heads[7].label == "trend"@
            &&& width >= 70 ==> heads[5].label == "step"@ && (row.step matches Some(step)
                ==> cells[3] == integer_text(step as int)) && (row.step is None ==> cells[3].len()
                == 0)
            &&& width >= 84 ==> heads[6].label == "duration"@ && (row.duration matches Some(seconds)
                ==> cells[4] == duration_text(seconds)) && (row.duration is None ==> cells[4].len()
                == 0)
        }),
{
}

/// The arrow stands behind the heading that the table is sorted by, and behind
/// no other; it points the way the order goes.
pub proof fn law_arrow_marks_the_sorted_column(width: u16, runs: RunsModel, at: int)
    requires
        width >= 100,
        0 <= at < 8,
    ensures
        ({
            let heads = run_headings(width, runs);
            let sorted = match runs.sort {
                RunsSort::Name => 0int,
                RunsSort::Points => 3,
                RunsSort::Restarts => 4,
                RunsSort::Step => 5,
                RunsSort::Duration => 6,
            };
            &&& heads[at].arrow is Some <==> at == sorted
            &&& heads[at].arrow matches Some(arrow) ==> arrow == (if runs.descending {
                "▼"@
            } else {
                "▲"@
            })
        }),
{
    reveal_strlit("run");
    reveal_strlit("points");
    reveal_strlit("restarts");
    reveal_strlit("step");
    reveal_strlit("duration");
    assert("run"@.len() == 3 && "points"@.len() == 6 && "step"@.len() == 4);
    assert("restarts"@.len() == 8 && "duration"@.len() == 8);
    assert("restarts"@[0] == 'r' && "duration"@[0] == 'd');
}

/// A drawn row tells whether its run is picked and whether it restarted, and
/// shows the glyph of its status.
pub proof fn law_drawn_rows(width: u16, row: RowModel, runs: RunsModel)
    ensures
        ({
            let drawn = panel_row(width, row, runs);
            &&& drawn.selected == runs.selected.contains(row.name)
            &&& drawn.name == row.name && drawn.status == row.status
            &&& drawn.dot == status_glyph(row.status)
            &&& drawn.restarted == (row.restarts > 0)
            &&& drawn.cells == run_cells(width, row)
        }),
{
}

/// A column of the flat table is as wide as its name, between 8 and 22 cells;
/// the first takes what is left.
pub proof fn law_flat_columns_have_widths(at: int, name: Seq<char>)
    requires
        vstd::utf8::encode_utf8(name).len() < 0x1_0000,
    ensures
        column_width(0, name) is None,
        at > 0 ==> (column_width(at, name) matches Some(width) && 8 <= width <= 22 && (8
            <= vstd::utf8::encode_utf8(name).len() <= 22 ==> width == vstd::utf8::encode_utf8(
            name,
        ).len()) && (width == 8 || width <= vstd::utf8::encode_utf8(name).len()) && (width == 22
            || width >= vstd::utf8::encode_utf8(name).len())),
{
}

/// A dense cell is drawn at half of either side where the terminal scales;
/// else cells stay as they are.
pub proof fn law_dense_cells_are_halved(cell: (u16, u16))
    ensures
        standard_cell(false, cell) == cell,
        cell.0 <= 10 || cell.1 <= 20 ==> standard_cell(true, cell) == cell,
        cell.0 > 10 && cell.1 > 20 ==> standard_cell(true, cell).0 == cell.0 / 2 && standard_cell(
            true,
            cell,
        ).1 == cell.1 / 2,
{
}

} // verus!
