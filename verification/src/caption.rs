//! The words around the charts and tables: titles that say what is shown and
//! what had to be dropped, hints, and the status line.
use vstd::prelude::*;

use crate::arith::{Arith, Operation};
use crate::chart::{readings_model, ChartData, ChartModel, Reading, XAxis};
use crate::listing::{find_tags, places, tags_among};
use crate::names::{sorted, NameMap};
use crate::numeric::Wording;
use crate::run::{Run, Stamp};
use crate::screen;
use crate::series::SeriesClass;
use crate::table::{join_texts, with_between};
use crate::text::{decimal_text, integer_text, push_decimal, push_integer, push_text, same_text, texts};
use crate::tui::{ScalarsModel, ScalarsView};
use crate::viewer::{double_time, doubled, App, UiModel};
use crate::warm::runs_wf;

verus! {

/// A count between two texts, where there is something to count.
pub open spec fn count_note(n: int, front: Seq<char>, back: Seq<char>) -> Seq<char> {
    if n > 0 {
        front + decimal_text(n as nat) + back
    } else {
        Seq::empty()
    }
}

fn push_count(out: &mut String, n: u64, front: &str, back: &str)
    ensures
        final(out)@ == old(out)@ + count_note(n as int, front@, back@),
{
    let ghost before = out@;
    if n > 0 {
        push_text(out, front);
        push_decimal(out, n);
        push_text(out, back);
    }
    assert(out@ =~= before + count_note(n as int, front@, back@));
}

/// A text where a condition holds.
pub open spec fn text_if(condition: bool, text: Seq<char>) -> Seq<char> {
    if condition {
        text
    } else {
        Seq::empty()
    }
}

fn push_if(out: &mut String, condition: bool, text: &str)
    ensures
        final(out)@ == old(out)@ + text_if(condition, text@),
{
    let ghost before = out@;
    if condition {
        push_text(out, text);
    }
    assert(out@ =~= before + text_if(condition, text@));
}

/// A number of runs as a count.
pub open spec fn several(n: int) -> int {
    if n > 1 {
        n
    } else {
        0
    }
}

/// The title of a chart on the terminal: what it shows, and what it had to
/// drop — staleness and loss are displayed, never hidden.
pub open spec fn chart_line(
    tag: Seq<char>,
    chart: ChartModel,
    dropped: u64,
    dead: u64,
    live: Option<Seq<char>>,
) -> Seq<char> {
    tag + count_note(several(chart.run_count as int), " · "@, " runs"@) + count_note(
        chart.cut as int,
        " · +"@,
        " series not shown"@,
    ) + count_note(chart.runs_without_counter as int, " · "@, " runs lack a token counter"@)
        + count_note(chart.tokens_dropped as int, " · "@, " pts outside counter"@) + count_note(
        dropped as int,
        " · "@,
        " records lost"@,
    ) + count_note(dead as int, " · "@, " dead files"@) + match live {
        Some(state) => " · "@ + state,
        None => Seq::empty(),
    }
}

/// Writes the title of a chart on the terminal.
pub fn title(tag: &str, chart: &ChartData, dropped: u64, dead: u64, live: Option<&str>) -> (out: String)
    ensures
        out@ == chart_line(tag@, chart@, dropped, dead, crate::listing::view_of(live)),
{
    let mut out = tag.to_owned();
    push_count(
        &mut out,
        if chart.run_count > 1 {
            chart.run_count as u64
        } else {
            0
        },
        " · ",
        " runs",
    );
    push_count(&mut out, chart.cut as u64, " · +", " series not shown");
    push_count(
        &mut out,
        chart.runs_without_counter as u64,
        " · ",
        " runs lack a token counter",
    );
    push_count(&mut out, chart.tokens_dropped, " · ", " pts outside counter");
    push_count(&mut out, dropped, " · ", " records lost");
    push_count(&mut out, dead, " · ", " dead files");
    let ghost before = out@;
    if let Some(live) = live {
        push_text(&mut out, " · ");
        push_text(&mut out, live);
        assert(out@ =~= before + (" · "@ + live@));
    } else {
        assert(out@ =~= before + Seq::<char>::empty());
    }
    out
}

/// The axis, where it is not the usual one.
pub open spec fn axis_note(axis: XAxis) -> Seq<char> {
    match axis {
        XAxis::Step => Seq::empty(),
        XAxis::Wall => " · wall"@,
        XAxis::Relative => " · relative"@,
        XAxis::Tokens => " · tokens"@,
    }
}

/// How many readings of a crosshair the title spells out.
pub const READINGS_SHOWN: usize = 3;

impl<F: Fn(&str) -> Option<u64>, P: Fn(u64) -> String> Wording<F, P> {
    /// The first `n` readings of a crosshair: the value alone where there is
    /// one series, with its label where there are several.
    pub open spec fn readings_text(self, readings: Seq<(Seq<char>, u64, u64)>, n: nat) -> Seq<char>
        decreases n,
    {
        if n == 0 {
            Seq::empty()
        } else {
            let reading = readings[n - 1];
            let value = self.significant_text(reading.2, 6);
            self.readings_text(readings, (n - 1) as nat) + if readings.len() == 1 {
                " = "@ + value
            } else {
                "  "@ + reading.0 + " "@ + value
            }
        }
    }

    /// What a crosshair reads: the exact position, and the values there,
    /// truncated and never rounded.
    pub open spec fn crosshair_text(self, readings: Seq<(Seq<char>, u64, u64)>) -> Seq<char> {
        if readings.len() == 0 {
            Seq::empty()
        } else {
            let n = if readings.len() > READINGS_SHOWN {
                READINGS_SHOWN as nat
            } else {
                readings.len()
            };
            " ┊ @"@ + self.significant_text(readings[0].1, 6) + self.readings_text(readings, n)
                + count_note(readings.len() - n, "  +"@, ""@)
        }
    }

    fn push_crosshair(&self, out: &mut String, readings: &Vec<Reading>)
        requires
            self.ok(),
        ensures
            final(out)@ == old(out)@ + self.crosshair_text(readings_model(readings@)),
    {
        let ghost all = readings_model(readings@);
        let ghost before = out@;
        if readings.len() == 0 {
            assert(out@ =~= before + Seq::<char>::empty());
            return ;
        }
        let n: usize = if readings.len() > READINGS_SHOWN {
            READINGS_SHOWN
        } else {
            readings.len()
        };
        assert(all[0] == readings@[0]@);
        push_text(out, " ┊ @");
        push_text(out, &self.fmt_sig(readings[0].x, 6));
        let ghost head = out@;
        let mut i: usize = 0;
        assert(out@ =~= head + Seq::<char>::empty());
        while i < n
            invariant
                i <= n,
                n <= readings@.len(),
                self.ok(),
                all == readings_model(readings@),
                out@ == head + self.readings_text(all, i as nat),
            decreases n - i,
        {
            assert(all[i as int] == readings@[i as int]@);
            let ghost so_far = out@;
            if readings.len() == 1 {
                push_text(out, " = ");
            } else {
                push_text(out, "  ");
                push_text(out, &readings[i].label);
                push_text(out, " ");
            }
            push_text(out, &self.fmt_sig(readings[i].value, 6));
            assert(out@ =~= head + self.readings_text(all, (i + 1) as nat));
            i += 1;
        }
        push_count(out, (readings.len() - n) as u64, "  +", "");
        assert(out@ =~= before + self.crosshair_text(all));
    }

    /// The title of the chart of the scalars view.
    pub open spec fn screen_line(
        self,
        tag: Seq<char>,
        state: ScalarsModel,
        chart: ChartModel,
        readings: Seq<(Seq<char>, u64, u64)>,
    ) -> Seq<char> {
        tag + count_note(several(chart.run_count as int), " · "@, " runs"@) + count_note(
            chart.cut as int,
            " · +"@,
            " not shown"@,
        ) + count_note(state.smooth as int, " · smooth 0."@, ""@) + text_if(
            state.log_y,
            " · log"@,
        ) + text_if(state.show_ghosts, " · ghosts"@) + axis_note(state.x_axis) + count_note(
            chart.runs_without_counter as int,
            " · "@,
            " runs lack a counter"@,
        ) + count_note(chart.tokens_dropped as int, " · "@, " pts outside counter"@) + text_if(
            state.x_window is Some,
            " · zoom (0 fits)"@,
        ) + text_if(state.crosshair is Some, self.crosshair_text(readings))
    }

    /// Writes the title of the chart of the scalars view.
    pub fn chart_title<O: Fn(Operation, u64, u64) -> u64, I: Fn(i64) -> u64>(
        &self,
        tag: &str,
        state: &ScalarsView,
        chart: &ChartData,
        arith: &Arith<O, I>,
    ) -> (out: String)
        requires
            self.ok(),
            arith.ok(),
            chart.wf(),
        ensures
            out@ == self.screen_line(
                tag@,
                state@,
                chart@,
                match state.crosshair {
                    Some(x) => arith.readings(chart@.series, x),
                    None => Seq::empty(),
                },
            ),
    {
        let mut out = tag.to_owned();
        push_count(
            &mut out,
            if chart.run_count > 1 {
                chart.run_count as u64
            } else {
                0
            },
            " · ",
            " runs",
        );
        push_count(&mut out, chart.cut as u64, " · +", " not shown");
        push_count(&mut out, state.smooth as u64, " · smooth 0.", "");
        push_if(&mut out, state.log_y, " · log");
        push_if(&mut out, state.show_ghosts, " · ghosts");
        let ghost before = out@;
        match state.x_axis {
            XAxis::Step => {},
            XAxis::Wall => push_text(&mut out, " · wall"),
            XAxis::Relative => push_text(&mut out, " · relative"),
            XAxis::Tokens => push_text(&mut out, " · tokens"),
        }
        assert(out@ =~= before + axis_note(state.x_axis));
        push_count(&mut out, chart.runs_without_counter as u64, " · ", " runs lack a counter");
        push_count(&mut out, chart.tokens_dropped, " · ", " pts outside counter");
        push_if(&mut out, state.x_window.is_some(), " · zoom (0 fits)");
        let ghost before = out@;
        if let Some(x) = state.crosshair {
            let readings = chart.values_at(x, arith);
            self.push_crosshair(&mut out, &readings);
        } else {
            assert(out@ =~= before + Seq::<char>::empty());
        }
        out
    }
}

/// How many tags a missing one is answered with.
pub const TAGS_SUGGESTED: usize = 20;

/// The first `n` tags, each on a line of its own.
pub open spec fn tag_list(tags: Seq<Seq<char>>, n: nat) -> Seq<char>
    decreases n,
{
    if n == 0 {
        Seq::empty()
    } else {
        tag_list(tags, (n - 1) as nat) + "\n  "@ + tags[n - 1]
    }
}

/// Every place of a map.
pub open spec fn every_place(n: nat) -> Seq<int> {
    Seq::new(n, |i: int| i)
}

/// The sentence for a tag that no scalar series matches: it names those that
/// there are.
pub open spec fn unmatched(tag: Seq<char>, logdir: Seq<char>, runs: NameMap<Run>) -> Seq<char> {
    let seen = sorted(tags_among(runs, every_place(runs.names().len()), SeriesClass::Scalar));
    let n = if seen.len() > TAGS_SUGGESTED {
        TAGS_SUGGESTED as nat
    } else {
        seen.len()
    };
    "no scalar tag matching `"@ + tag + "` in "@ + logdir + if seen.len() == 0 {
        Seq::empty()
    } else {
        "\nscalar tags found:"@ + tag_list(seen, n) + count_note(
            seen.len() - n,
            "\n  … and "@,
            " more"@,
        )
    }
}

/// Writes the sentence for a tag that no scalar series matches.
pub fn no_match_message(tag: &str, logdir: &str, runs: &NameMap<Run>) -> (message: String)
    requires
        runs_wf(*runs),
    ensures
        message@ == unmatched(tag@, logdir@, *runs),
{
    let mut all: Vec<usize> = Vec::new();
    let mut i: usize = 0;
    while i < runs.len()
        invariant
            i <= runs.names().len(),
            all@.len() == i,
            forall|k: int| 0 <= k < i ==> #[trigger] all@[k] == k,
        decreases runs.names().len() - i,
    {
        all.push(i);
        i += 1;
    }
    assert(places(all@) =~= every_place(runs.names().len()));
    let seen = find_tags(runs, &all, SeriesClass::Scalar);
    let mut message = "no scalar tag matching `".to_owned();
    push_text(&mut message, tag);
    push_text(&mut message, "` in ");
    push_text(&mut message, logdir);
    let ghost front = message@;
    if seen.len() == 0 {
        assert(message@ =~= front + Seq::<char>::empty());
        return message;
    }
    let n: usize = if seen.len() > TAGS_SUGGESTED {
        TAGS_SUGGESTED
    } else {
        seen.len()
    };
    push_text(&mut message, "\nscalar tags found:");
    let ghost head = message@;
    let ghost tags = seen.names();
    let mut k: usize = 0;
    assert(message@ =~= head + Seq::<char>::empty());
    while k < n
        invariant
            k <= n,
            n <= tags.len(),
            tags == seen.names(),
            message@ == head + tag_list(tags, k as nat),
        decreases n - k,
    {
        push_text(&mut message, "\n  ");
        push_text(&mut message, seen.name_at(k));
        assert(message@ =~= head + tag_list(tags, (k + 1) as nat));
        k += 1;
    }
    push_count(&mut message, (seen.len() - n) as u64, "\n  … and ", " more");
    assert(message@ =~= unmatched(tag@, logdir@, *runs));
    message
}

/// Whether nothing arrived for two polls.
pub open spec fn quiet_too_long(quiet: Stamp, interval: Stamp) -> bool {
    quiet.total() > doubled(interval).total()
}

fn is_quiet_too_long(quiet: Stamp, interval: Stamp) -> (result: bool)
    ensures
        result == quiet_too_long(quiet, interval),
{
    quiet.nanoseconds() > double_time(interval).nanoseconds()
}

/// What a live chart says of its data: that it waits for some, that it is
/// stale, or that it is live — the viewer must say when it shows old data.
pub open spec fn live_word(waiting: bool, quiet: Stamp, interval: Stamp) -> Seq<char> {
    if waiting {
        "waiting for data"@
    } else if quiet_too_long(quiet, interval) {
        "stale "@ + decimal_text(quiet.secs as nat) + "s"@
    } else {
        "live"@
    }
}

/// Writes what a live chart says of its data.
pub fn status_line(waiting: bool, quiet: Stamp, interval: Stamp) -> (line: String)
    ensures
        line@ == live_word(waiting, quiet, interval),
{
    if waiting {
        "waiting for data".to_owned()
    } else if is_quiet_too_long(quiet, interval) {
        let mut line = "stale ".to_owned();
        push_decimal(&mut line, quiet.secs);
        push_text(&mut line, "s");
        line
    } else {
        "live".to_owned()
    }
}

/// How fresh the interface is.
#[derive(Clone, Copy, PartialEq, Eq, Structural, Debug)]
pub enum Freshness {
    /// Polling is paused.
    Paused,
    /// Nothing arrived for two polls.
    Stale,
    /// Data flows.
    Live,
}

/// How fresh the interface is.
pub open spec fn freshness(paused: bool, quiet: Stamp, interval: Stamp) -> Freshness {
    if paused {
        Freshness::Paused
    } else if quiet_too_long(quiet, interval) {
        Freshness::Stale
    } else {
        Freshness::Live
    }
}

/// The words for it.
pub open spec fn freshness_words(fresh: Freshness, quiet: Stamp) -> Seq<char> {
    match fresh {
        Freshness::Paused => "‖ paused"@,
        Freshness::Stale => "○ stale "@ + decimal_text(quiet.secs as nat) + "s"@,
        Freshness::Live => "● live"@,
    }
}

/// The right side of the status bar.
pub struct StatusBar {
    /// The records lost, where some were.
    pub lost: String,
    /// The files that died, where some did.
    pub dead: String,
    /// How fresh the interface is.
    pub fresh: Freshness,
    /// The words for it.
    pub state: String,
}

impl App {
    /// The right side of the status bar.
    pub fn status_bar(&self, quiet: Stamp) -> (bar: StatusBar)
        ensures
            bar.lost@ == count_note(self.project@.dropped_records as int, ""@, " lost  "@),
            bar.dead@ == count_note(self.project@.dead_files as int, ""@, " dead  "@),
            bar.fresh == freshness(self.paused, quiet, self.interval),
            bar.state@ == freshness_words(bar.fresh, quiet),
    {
        let mut lost = String::new();
        push_count(&mut lost, self.project.dropped_records(), "", " lost  ");
        assert(lost@ =~= count_note(self.project@.dropped_records as int, ""@, " lost  "@));
        let mut dead = String::new();
        push_count(&mut dead, self.project.dead_files(), "", " dead  ");
        assert(dead@ =~= count_note(self.project@.dead_files as int, ""@, " dead  "@));
        let fresh = if self.paused {
            Freshness::Paused
        } else if is_quiet_too_long(quiet, self.interval) {
            Freshness::Stale
        } else {
            Freshness::Live
        };
        let state = match fresh {
            Freshness::Paused => "‖ paused".to_owned(),
            Freshness::Stale => {
                let mut state = "○ stale ".to_owned();
                push_decimal(&mut state, quiet.secs);
                push_text(&mut state, "s");
                state
            },
            Freshness::Live => "● live".to_owned(),
        };
        StatusBar { lost, dead, fresh, state }
    }
}

/// The title of a panel: its name, and its filter where it has one; a bar
/// behind a filter under edit.
pub open spec fn panel_words(name: Seq<char>, filter: Seq<char>, editing: bool) -> Seq<char> {
    if editing {
        name + " · /"@ + filter + "▏"@
    } else if filter.len() > 0 {
        name + " · /"@ + filter
    } else {
        name
    }
}

/// Writes the title of a panel.
pub fn panel_title(name: &str, filter: &str, editing: bool) -> (out: String)
    ensures
        out@ == panel_words(name@, filter@, editing),
{
    let mut out = name.to_owned();
    if editing {
        push_text(&mut out, " · /");
        push_text(&mut out, filter);
        push_text(&mut out, "▏");
    } else if !filter.is_empty() {
        push_text(&mut out, " · /");
        push_text(&mut out, filter);
    }
    out
}

/// How many runs a working set keeps, where there is one.
pub open spec fn keeping(set: Option<NameMap<()>>) -> Seq<char> {
    match set {
        Some(s) => " · keeping "@ + decimal_text(s.names().len()) + " (U resets)"@,
        None => Seq::empty(),
    }
}

impl App {
    /// The title of a table of runs: its name, the runs filter, and how many
    /// runs the working set keeps.
    pub fn table_title(&self, name: &str) -> (out: String)
        ensures
            out@ == panel_words(name@, self.ui().runs.filter, self.runs.editing_filter) + keeping(
                self.working_set,
            ),
    {
        let mut out = panel_title(name, &self.runs.filter, self.runs.editing_filter);
        let ghost before = out@;
        if let Some(set) = &self.working_set {
            push_text(&mut out, " · keeping ");
            push_decimal(&mut out, set.len() as u64);
            push_text(&mut out, " (U resets)");
        }
        assert(out@ =~= before + keeping(self.working_set));
        out
    }
}

/// What narrows the scope.
pub open spec fn narrowing(ui: UiModel) -> Seq<Seq<char>> {
    (if ui.runs.filter.len() > 0 {
        seq!["the runs filter"@]
    } else {
        Seq::empty()
    }) + (if ui.working_set is Some {
        seq!["the working set (U resets)"@]
    } else {
        Seq::empty()
    }) + (if ui.runs.selected != Set::<Seq<char>>::empty() {
        seq!["the selection (Esc in runs clears)"@]
    } else {
        Seq::empty()
    })
}

/// What an empty screen says: why nothing is drawn where filters, the
/// working set, or a selection narrow the scope.
pub open spec fn empty_words(ui: UiModel) -> Seq<char> {
    if narrowing(ui).len() == 0 {
        "no matching series"@
    } else {
        "no matching series — "@ + with_between(narrowing(ui), ", "@) + " may be hiding runs"@
    }
}

impl App {
    /// What an empty screen says.
    pub fn empty_hint(&self) -> (out: String)
        requires
            self.wf(),
        ensures
            out@ == empty_words(self.ui()),
    {
        let ghost ui = self.ui();
        proof {
            crate::tui::lemma_no_members(self.runs.selected);
        }
        let mut reasons: Vec<String> = Vec::new();
        let filtered = !self.runs.filter.as_str().is_empty();
        let kept = self.working_set.is_some();
        let picked = !self.runs.selected.is_empty();
        if filtered {
            reasons.push("the runs filter".to_owned());
        }
        if kept {
            reasons.push("the working set (U resets)".to_owned());
        }
        if picked {
            reasons.push("the selection (Esc in runs clears)".to_owned());
        }
        assert(texts(reasons@) =~= narrowing(ui));
        if reasons.len() == 0 {
            return "no matching series".to_owned();
        }
        let mut out = "no matching series — ".to_owned();
        push_text(&mut out, &join_texts(&reasons, ", "));
        push_text(&mut out, " may be hiding runs");
        out
    }
}

/// A key and what it does.
pub struct Hint {
    /// The key.
    pub key: &'static str,
    /// What it does.
    pub what: &'static str,
}

impl View for Hint {
    type V = (Seq<char>, Seq<char>);

    open spec fn view(&self) -> (Seq<char>, Seq<char>) {
        (self.key@, self.what@)
    }
}

/// What a list of hints holds.
pub open spec fn hints_model(list: Seq<Hint>) -> Seq<(Seq<char>, Seq<char>)> {
    list.map_values(|hint: Hint| hint@)
}

/// The keys that a screen hints at.
pub open spec fn hint_words(view: screen::View) -> Seq<(Seq<char>, Seq<char>)> {
    match view {
        screen::View::Runs => seq![
            ("enter"@, "open"@),
            ("space"@, "pick"@),
            ("/"@, "filter"@),
            ("s"@, "sort"@),
            ("K/X"@, "keep/drop"@),
            ("e"@, "export"@),
            ("?"@, "help"@),
        ],
        screen::View::Scalars => seq![
            ("j/k"@, "tag"@),
            ("←→"@, "scan"@),
            ("+/-"@, "zoom"@),
            ("[]"@, "pan"@),
            ("s/S"@, "smooth"@),
            ("L"@, "log"@),
            ("x"@, "axis"@),
            ("v"@, "ghosts"@),
            ("?"@, "help"@),
        ],
        screen::View::Compare => seq![
            ("/"@, "tags"@),
            ("s/S"@, "smooth"@),
            ("x"@, "axis"@),
            ("esc"@, "back"@),
            ("?"@, "help"@),
        ],
        screen::View::Hparams => seq![
            ("space"@, "pick"@),
            ("K/X"@, "keep/drop"@),
            ("U"@, "reset"@),
            ("e"@, "export"@),
            ("?"@, "help"@),
        ],
        screen::View::Distributions => seq![
            ("j/k"@, "tag"@),
            ("/"@, "filter"@),
            ("e"@, "export"@),
            ("?"@, "help"@),
        ],
    }
}

/// The keys that a screen hints at in the footer.
pub fn hints(view: screen::View) -> (list: Vec<Hint>)
    ensures
        hints_model(list@) == hint_words(view),
{
    let list = match view {
        screen::View::Runs => vec![
            Hint { key: "enter", what: "open" },
            Hint { key: "space", what: "pick" },
            Hint { key: "/", what: "filter" },
            Hint { key: "s", what: "sort" },
            Hint { key: "K/X", what: "keep/drop" },
            Hint { key: "e", what: "export" },
            Hint { key: "?", what: "help" },
        ],
        screen::View::Scalars => vec![
            Hint { key: "j/k", what: "tag" },
            Hint { key: "←→", what: "scan" },
            Hint { key: "+/-", what: "zoom" },
            Hint { key: "[]", what: "pan" },
            Hint { key: "s/S", what: "smooth" },
            Hint { key: "L", what: "log" },
            Hint { key: "x", what: "axis" },
            Hint { key: "v", what: "ghosts" },
            Hint { key: "?", what: "help" },
        ],
        screen::View::Compare => vec![
            Hint { key: "/", what: "tags" },
            Hint { key: "s/S", what: "smooth" },
            Hint { key: "x", what: "axis" },
            Hint { key: "esc", what: "back" },
            Hint { key: "?", what: "help" },
        ],
        screen::View::Hparams => vec![
            Hint { key: "space", what: "pick" },
            Hint { key: "K/X", what: "keep/drop" },
            Hint { key: "U", what: "reset" },
            Hint { key: "e", what: "export" },
            Hint { key: "?", what: "help" },
        ],
        screen::View::Distributions => vec![
            Hint { key: "j/k", what: "tag" },
            Hint { key: "/", what: "filter" },
            Hint { key: "e", what: "export" },
            Hint { key: "?", what: "help" },
        ],
    };
    assert(hints_model(list@) =~= hint_words(view));
    list
}

/// The keys that the help explains.
pub open spec fn help_words() -> Seq<(Seq<char>, Seq<char>)> {
    seq![
        ("q"@, "quit"@),
        ("?"@, "this help — any key closes"@),
        ("Tab · 1-5"@, "views: runs, scalars, compare, hparams, dists"@),
        ("/"@, "filter · a predicate works: lr > 1e-3 and status == active"@),
        ("Esc"@, "progressively: editor, selection, filter, back"@),
        ("K / X / U"@, "keep / exclude selection as working set / reset"@),
        ("e"@, "export this view as CSV, next to your shell"@),
        ("p · r"@, "pause polling · refresh now"@),
        (""@, ""@),
        ("j k g G"@, "move · space picks runs for overlay · Enter opens"@),
        ("s / S"@, "runs: sort column, reverse · scalars: smoothing -/+"@),
        ("L · x · v"@, "log-y · x axis: step, wall, relative, tokens · ghosts"@),
        ("← →"@, "crosshair point by point, with exact values in the title"@),
        ("+ - [ ] 0"@, "zoom around the crosshair · pan · fit everything"@),
    ]
}

/// The keys that the help explains.
pub fn help_keys() -> (list: Vec<Hint>)
    ensures
        hints_model(list@) == help_words(),
{
    let list = vec![
        Hint { key: "q", what: "quit" },
        Hint { key: "?", what: "this help — any key closes" },
        Hint { key: "Tab · 1-5", what: "views: runs, scalars, compare, hparams, dists" },
        Hint { key: "/", what: "filter · a predicate works: lr > 1e-3 and status == active" },
        Hint { key: "Esc", what: "progressively: editor, selection, filter, back" },
        Hint { key: "K / X / U", what: "keep / exclude selection as working set / reset" },
        Hint { key: "e", what: "export this view as CSV, next to your shell" },
        Hint { key: "p · r", what: "pause polling · refresh now" },
        Hint { key: "", what: "" },
        Hint { key: "j k g G", what: "move · space picks runs for overlay · Enter opens" },
        Hint { key: "s / S", what: "runs: sort column, reverse · scalars: smoothing -/+" },
        Hint { key: "L · x · v", what: "log-y · x axis: step, wall, relative, tokens · ghosts" },
        Hint { key: "← →", what: "crosshair point by point, with exact values in the title" },
        Hint { key: "+ - [ ] 0", what: "zoom around the crosshair · pan · fit everything" },
    ];
    assert(hints_model(list@) =~= help_words());
    list
}

/// The tab of a screen: the key that turns to it, and its name.
pub open spec fn tab_words(view: screen::View) -> (Seq<char>, Seq<char>) {
    match view {
        screen::View::Runs => ("1"@, "runs"@),
        screen::View::Scalars => ("2"@, "scalars"@),
        screen::View::Compare => ("3"@, "compare"@),
        screen::View::Hparams => ("4"@, "hparams"@),
        screen::View::Distributions => ("5"@, "dists"@),
    }
}

/// The tab of a screen.
pub fn tab(view: screen::View) -> (hint: Hint)
    ensures
        hint@ == tab_words(view),
{
    match view {
        screen::View::Runs => Hint { key: "1", what: "runs" },
        screen::View::Scalars => Hint { key: "2", what: "scalars" },
        screen::View::Compare => Hint { key: "3", what: "compare" },
        screen::View::Hparams => Hint { key: "4", what: "hparams" },
        screen::View::Distributions => Hint { key: "5", what: "dists" },
    }
}

/// The glyph of a status word.
pub open spec fn status_glyph(word: Seq<char>) -> Seq<char> {
    if word == "active"@ {
        "●"@
    } else if word == "done"@ {
        "✓"@
    } else if word == "idle"@ {
        "◌"@
    } else {
        "?"@
    }
}

/// The glyph of a status word.
pub fn status_dot(word: &str) -> (glyph: &'static str)
    ensures
        glyph@ == status_glyph(word@),
{
    if same_text(word, "active") {
        "●"
    } else if same_text(word, "done") {
        "✓"
    } else if same_text(word, "idle") {
        "◌"
    } else {
        "?"
    }
}

/// The title of a ridgeline: tag, run, the steps it spans, and what it left
/// out where it sampled.
pub open spec fn ridge_line(
    tag: Seq<char>,
    run: Seq<char>,
    steps: (i64, i64),
    drawn: int,
    total: int,
) -> Seq<char> {
    tag + " · "@ + run + " · steps "@ + integer_text(steps.0 as int) + "–"@ + integer_text(
        steps.1 as int,
    ) + if drawn < total {
        " · "@ + decimal_text(drawn as nat) + " of "@ + decimal_text(total as nat) + " shown"@
    } else {
        Seq::empty()
    }
}

/// Writes the title of a ridgeline.
pub fn ridge_title(tag: &str, run: &str, steps: (i64, i64), drawn: usize, total: usize) -> (out: String)
    ensures
        out@ == ridge_line(tag@, run@, steps, drawn as int, total as int),
{
    let mut out = tag.to_owned();
    push_text(&mut out, " · ");
    push_text(&mut out, run);
    push_text(&mut out, " · steps ");
    push_integer(&mut out, steps.0);
    push_text(&mut out, "–");
    push_integer(&mut out, steps.1);
    let ghost before = out@;
    if drawn < total {
        push_text(&mut out, " · ");
        push_decimal(&mut out, drawn as u64);
        push_text(&mut out, " of ");
        push_decimal(&mut out, total as u64);
        push_text(&mut out, " shown");
    }
    assert(out@ =~= ridge_line(tag@, run@, steps, drawn as int, total as int));
    out
}

/// How the compare grid is laid out.
pub struct Grid {
    /// Panels side by side.
    pub columns: usize,
    /// Rows of panels.
    pub rows: usize,
    /// Panels in all.
    pub shown: usize,
}

/// Panels side by side: each gets at least 24 cells, and there are one to
/// three of them.
pub open spec fn grid_columns(width: int) -> int {
    if width / 24 < 1 {
        1
    } else if width / 24 > 3 {
        3
    } else {
        width / 24
    }
}

/// The most rows of panels: each gets at least 8 cells, and there is one.
pub open spec fn grid_max_rows(height: int) -> int {
    if height / 8 < 1 {
        1
    } else {
        height / 8
    }
}

/// Panels in all: as many as there are tags and as fit.
pub open spec fn grid_shown(width: int, height: int, tags: int) -> int {
    if tags < grid_columns(width) * grid_max_rows(height) {
        tags
    } else {
        grid_columns(width) * grid_max_rows(height)
    }
}

/// Lays the compare grid out: the grid shrinks to what fits, and its last
/// row may be short.
pub fn lay_grid(width: u16, height: u16, tags: usize) -> (grid: Grid)
    ensures
        grid.columns == grid_columns(width as int),
        grid.shown == grid_shown(width as int, height as int, tags as int),
        (grid.rows - 1) * grid.columns < grid.shown <= grid.rows * grid.columns || grid.shown == 0
            && grid.rows == 0,
        grid.shown <= tags,
{
    let fit: usize = (width / 24) as usize;
    let columns: usize = if fit < 1 {
        1
    } else if fit > 3 {
        3
    } else {
        fit
    };
    let tall: usize = (height / 8) as usize;
    let max_rows: usize = if tall < 1 {
        1
    } else {
        tall
    };
    assert(max_rows <= 8192);
    assert(columns * max_rows <= 3 * 8192) by (nonlinear_arith)
        requires
            columns <= 3,
            max_rows <= 8192,
    ;
    let room: usize = columns * max_rows;
    let shown: usize = if tags < room {
        tags
    } else {
        room
    };
    let rows: usize = (shown + columns - 1) / columns;
    proof {
        let s = shown as int;
        let c = columns as int;
        vstd::arithmetic::div_mod::lemma_fundamental_div_mod(s + c - 1, c);
        let q = (s + c - 1) / c;
        assert(c * q <= s + c - 1 < c * q + c);
        assert((q - 1) * c == c * q - c) by (nonlinear_arith);
        assert(q * c == c * q) by (nonlinear_arith);
        if s == 0 {
            assert(q == 0) by (nonlinear_arith)
                requires
                    c * q <= c - 1,
                    c * q + c > c - 1,
                    c > 0,
            ;
        }
    }
    Grid { columns, rows, shown }
}

/// The title of a panel of the compare grid: its tag, and how many tags did
/// not fit where the panel is marked with that.
pub open spec fn compare_words(tag: Seq<char>, left_out: int, marked: bool) -> Seq<char> {
    tag + if marked {
        count_note(left_out, " (+"@, " more)"@)
    } else {
        Seq::empty()
    }
}

/// Writes the title of a panel of the compare grid.
pub fn compare_title(tag: &str, left_out: usize, marked: bool) -> (out: String)
    ensures
        out@ == compare_words(tag@, left_out as int, marked),
{
    let mut out = tag.to_owned();
    let ghost before = out@;
    if marked {
        push_count(&mut out, left_out as u64, " (+", " more)");
    } else {
        assert(out@ =~= before + Seq::<char>::empty());
    }
    out
}

} // verus!
