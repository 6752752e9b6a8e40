//! What the tables of the interface show at a width, and when images on the
//! terminal have to be painted again.
use vstd::prelude::*;

use crate::arith::{Arith, Operation};
use crate::caption::{status_dot, status_glyph};
use crate::listing::{flat_table, RowModel, RunRow};
use crate::numeric::Wording;
use crate::rows::{
    entries_model, hparam_row, hparam_rows, places_of, rows_of, table_entries, HparamCell,
};
use crate::run::{RefreshReport, Stamp};
use crate::table::{duration_text, fmt_duration, CellModel};
use crate::text::{decimal_text, integer_text, push_decimal, push_integer, push_text, same_text, texts};
use crate::tui::{cursor_place, find_place, lemma_no_members, sort_word, RunsModel};
use crate::viewer::{active_window, App};

verus! {

/// From this width on the runs table has a step column.
pub const STEP_WIDTH: u16 = 70;

/// From this width on the runs table has a duration column.
pub const DURATION_WIDTH: u16 = 84;

/// From this width on the runs table has a trend column.
pub const TREND_WIDTH: u16 = 100;

/// The heading of a column.
pub struct Heading {
    /// What it says.
    pub label: &'static str,
    /// The arrow behind it, where the table is sorted by it.
    pub arrow: Option<&'static str>,
    /// The cells it takes; none where it fills what is left.
    pub width: Option<u16>,
}

/// What a heading holds.
pub struct HeadingModel {
    pub label: Seq<char>,
    pub arrow: Option<Seq<char>>,
    pub width: Option<u16>,
}

impl View for Heading {
    type V = HeadingModel;

    open spec fn view(&self) -> HeadingModel {
        HeadingModel {
            label: self.label@,
            arrow: match self.arrow {
                Some(arrow) => Some(arrow@),
                None => None,
            },
            width: self.width,
        }
    }
}

/// What a list of headings holds.
pub open spec fn headings_model(list: Seq<Heading>) -> Seq<HeadingModel> {
    list.map_values(|heading: Heading| heading@)
}

/// The arrow behind a heading.
pub open spec fn arrow_at(label: Seq<char>, runs: RunsModel) -> Option<Seq<char>> {
    if label == sort_word(runs.sort) {
        Some(
            if runs.descending {
                "▼"@
            } else {
                "▲"@
            },
        )
    } else {
        None
    }
}

/// A heading that the table can be sorted by.
pub open spec fn sortable(label: Seq<char>, width: Option<u16>, runs: RunsModel) -> HeadingModel {
    HeadingModel { label, arrow: arrow_at(label, runs), width }
}

/// A heading that the table cannot be sorted by.
pub open spec fn fixed(label: Seq<char>, width: u16) -> HeadingModel {
    HeadingModel { label, arrow: None, width: Some(width) }
}

/// The headings of the runs table at a width: narrow terminals keep the
/// columns that matter, and trend, then duration, then step yield before the
/// run name ever starves.
pub open spec fn run_headings(width: u16, runs: RunsModel) -> Seq<HeadingModel> {
    seq![
        sortable("run"@, None, runs),
        fixed("status"@, 9),
        fixed("series"@, 6),
        sortable("points"@, Some(8), runs),
        sortable("restarts"@, Some(8), runs),
    ] + (if width >= STEP_WIDTH {
        seq![sortable("step"@, Some(8), runs)]
    } else {
        Seq::empty()
    }) + (if width >= DURATION_WIDTH {
        seq![sortable("duration"@, Some(8), runs)]
    } else {
        Seq::empty()
    }) + (if width >= TREND_WIDTH {
        seq![fixed("trend"@, 12)]
    } else {
        Seq::empty()
    })
}

/// The cells of a row of the runs table at a width, behind name and status. A
/// row has no trend to show, so its cell is empty.
pub open spec fn run_cells(width: u16, row: RowModel) -> Seq<Seq<char>> {
    seq![
        decimal_text(row.series as nat),
        decimal_text(row.points as nat),
        decimal_text(row.restarts as nat),
    ] + (if width >= STEP_WIDTH {
        seq![
            match row.step {
                Some(step) => integer_text(step as int),
                None => Seq::empty(),
            },
        ]
    } else {
        Seq::empty()
    }) + (if width >= DURATION_WIDTH {
        seq![
            match row.duration {
                Some(seconds) => duration_text(seconds),
                None => Seq::empty(),
            },
        ]
    } else {
        Seq::empty()
    }) + (if width >= TREND_WIDTH {
        seq![Seq::empty()]
    } else {
        Seq::empty()
    })
}

/// One row of the runs table, as it is drawn.
pub struct PanelRow {
    /// Whether the run is picked.
    pub selected: bool,
    /// The run's name.
    pub name: String,
    /// The glyph of its status.
    pub dot: &'static str,
    /// The word for its status.
    pub status: &'static str,
    /// Whether it was restarted.
    pub restarted: bool,
    /// The other cells.
    pub cells: Vec<String>,
}

/// What a drawn row holds.
#[verifier::ext_equal]
pub struct PanelRowModel {
    pub selected: bool,
    pub name: Seq<char>,
    pub dot: Seq<char>,
    pub status: Seq<char>,
    pub restarted: bool,
    pub cells: Seq<Seq<char>>,
}

impl View for PanelRow {
    type V = PanelRowModel;

    open spec fn view(&self) -> PanelRowModel {
        PanelRowModel {
            selected: self.selected,
            name: self.name@,
            dot: self.dot@,
            status: self.status@,
            restarted: self.restarted,
            cells: texts(self.cells@),
        }
    }
}

/// What a list of drawn rows holds.
pub open spec fn panel_rows(list: Seq<PanelRow>) -> Seq<PanelRowModel> {
    list.map_values(|row: PanelRow| row@)
}

/// A row as it is drawn at a width.
pub open spec fn panel_row(width: u16, row: RowModel, runs: RunsModel) -> PanelRowModel {
    PanelRowModel {
        selected: runs.selected.contains(row.name),
        name: row.name,
        dot: status_glyph(row.status),
        status: row.status,
        restarted: row.restarts > 0,
        cells: run_cells(width, row),
    }
}

/// The runs table as it is drawn.
pub struct RunsPanel {
    /// The headings.
    pub headings: Vec<Heading>,
    /// The rows.
    pub rows: Vec<PanelRow>,
    /// The row under the cursor.
    pub cursor: Option<usize>,
}

fn number_text(n: u64) -> (text: String)
    ensures
        text@ == decimal_text(n as nat),
{
    let mut text = String::new();
    push_decimal(&mut text, n);
    assert(text@ =~= decimal_text(n as nat));
    text
}

fn cells_at(width: u16, row: &RunRow) -> (cells: Vec<String>)
    ensures
        texts(cells@) == run_cells(width, row@),
{
    let mut cells = vec![
        number_text(row.series as u64),
        number_text(row.points),
        number_text(row.restarts),
    ];
    if width >= STEP_WIDTH {
        let mut text = String::new();
        if let Some(step) = row.step {
            push_integer(&mut text, step);
            assert(text@ =~= integer_text(step as int));
        } else {
            assert(text@ =~= Seq::<char>::empty());
        }
        cells.push(text);
    }
    if width >= DURATION_WIDTH {
        let text = match row.duration {
            Some(seconds) => fmt_duration(seconds),
            None => {
                let text = String::new();
                assert(text@ =~= Seq::<char>::empty());
                text
            },
        };
        cells.push(text);
    }
    if width >= TREND_WIDTH {
        let text = String::new();
        assert(text@ =~= Seq::<char>::empty());
        cells.push(text);
    }
    assert(texts(cells@) =~= run_cells(width, row@));
    cells
}

impl App {
    fn heading(&self, label: &'static str, width: Option<u16>) -> (heading: Heading)
        ensures
            heading@ == sortable(label@, width, self.ui().runs),
    {
        let arrow = if same_text(label, self.runs.sort.label()) {
            Some(
                if self.runs.descending {
                    "▼"
                } else {
                    "▲"
                },
            )
        } else {
            None
        };
        Heading { label, arrow, width }
    }

    /// The runs table as it is drawn at a width.
    pub fn runs_panel<
        F: Fn(&str) -> Option<u64>,
        P: Fn(u64) -> String,
        O: Fn(Operation, u64, u64) -> u64,
        I: Fn(i64) -> u64,
    >(&self, width: u16, now: Stamp, wording: &Wording<F, P>, arith: &Arith<O, I>) -> (panel: RunsPanel)
        requires
            self.wf(),
            wording.ok(),
            arith.ok(),
        ensures
            ({
                let rows = rows_of(
                    table_entries(
                        *wording,
                        *arith,
                        self.project.catalog(),
                        self.ui(),
                        now,
                        active_window(self.interval),
                    ),
                );
                let names = rows.map_values(|row: RowModel| row.name);
                &&& headings_model(panel.headings@) == run_headings(width, self.ui().runs)
                &&& panel_rows(panel.rows@) == rows.map_values(
                    |row: RowModel| panel_row(width, row, self.ui().runs),
                )
                &&& match panel.cursor {
                    Some(at) => cursor_place(self.ui().runs.cursor, names) == Some(at as int),
                    None => cursor_place(self.ui().runs.cursor, names) is None,
                }
            }),
    {
        let list = self.run_rows(now, wording, arith);
        let ghost all = rows_of(entries_model(list@));
        let ghost runs = self.ui().runs;
        let ghost goal = all.map_values(|row: RowModel| panel_row(width, row, runs));
        let ghost names_goal = all.map_values(|row: RowModel| row.name);
        let mut rows: Vec<PanelRow> = Vec::new();
        let mut names: Vec<String> = Vec::new();
        let mut i: usize = 0;
        proof {
            lemma_no_members(self.runs.selected);
        }
        assert(panel_rows(rows@) =~= goal.take(0));
        assert(texts(names@) =~= names_goal.take(0));
        while i < list.len()
            invariant
                i <= list@.len(),
                self.wf(),
                all == rows_of(entries_model(list@)),
                runs == self.ui().runs,
                goal == all.map_values(|row: RowModel| panel_row(width, row, runs)),
                names_goal == all.map_values(|row: RowModel| row.name),
                forall|n: Seq<char>| runs.selected.contains(n) <==> #[trigger] self.runs.selected.has(n),
                panel_rows(rows@) == goal.take(i as int),
                texts(names@) == names_goal.take(i as int),
            decreases list@.len() - i,
        {
            let row = &list[i].row;
            assert(all[i as int] == row@);
            let ghost before = rows@;
            let ghost named = names@;
            let drawn = PanelRow {
                selected: self.runs.selected.contains(&row.name),
                name: row.name.clone(),
                dot: status_dot(row.status),
                status: row.status,
                restarted: row.restarts > 0,
                cells: cells_at(width, row),
            };
            let ghost last = drawn@;
            assert(last == goal[i as int]);
            rows.push(drawn);
            names.push(row.name.clone());
            assert(panel_rows(rows@) =~= panel_rows(before).push(last));
            assert(goal.take(i + 1) =~= goal.take(i as int).push(goal[i as int]));
            assert(texts(names@) =~= texts(named).push(names_goal[i as int]));
            assert(names_goal.take(i + 1) =~= names_goal.take(i as int).push(names_goal[i as int]));
            i += 1;
        }
        assert(goal.take(goal.len() as int) =~= goal);
        assert(names_goal.take(names_goal.len() as int) =~= names_goal);
        let cursor = match &self.runs.cursor {
            Some(name) => find_place(&names, name),
            None => None,
        };
        let mut headings = vec![
            self.heading("run", None),
            Heading { label: "status", arrow: None, width: Some(9) },
            Heading { label: "series", arrow: None, width: Some(6) },
            self.heading("points", Some(8)),
            self.heading("restarts", Some(8)),
        ];
        if width >= STEP_WIDTH {
            headings.push(self.heading("step", Some(8)));
        }
        if width >= DURATION_WIDTH {
            headings.push(self.heading("duration", Some(8)));
        }
        if width >= TREND_WIDTH {
            headings.push(Heading { label: "trend", arrow: None, width: Some(12) });
        }
        assert(headings_model(headings@) =~= run_headings(width, runs));
        RunsPanel { headings, rows, cursor }
    }
}

impl<F: Fn(&str) -> Option<u64>, P: Fn(u64) -> String> Wording<F, P> {
    /// A cell of the flat table on the screen: numbers truncated to
    /// significant digits, never rounded.
    pub open spec fn cell_words(self, cell: CellModel) -> Seq<char> {
        match cell {
            CellModel::Float(bits) => self.significant_text(bits, 6),
            _ => self.cell_text(cell),
        }
    }

    /// A row of the flat table on the screen: a mark before the name says
    /// whether the run is picked.
    pub open spec fn row_words(self, row: Seq<CellModel>, selected: bool) -> Seq<Seq<char>> {
        Seq::new(
            row.len(),
            |i: int|
                if i == 0 {
                    (if selected {
                        "▸"@
                    } else {
                        " "@
                    }) + self.cell_words(row[0])
                } else {
                    self.cell_words(row[i])
                },
        )
    }

    fn show_cell(&self, cell: &HparamCell) -> (text: String)
        requires
            self.ok(),
        ensures
            text@ == self.cell_words(cell@),
    {
        match cell {
            HparamCell::Number(bits) => self.fmt_sig(*bits, 6),
            other => other.text(self),
        }
    }

    /// Writes a row of the flat table as it is on the screen.
    pub fn show_row(&self, row: &Vec<HparamCell>, selected: bool) -> (cells: Vec<String>)
        requires
            self.ok(),
        ensures
            texts(cells@) == self.row_words(hparam_row(row@), selected),
    {
        let ghost goal = self.row_words(hparam_row(row@), selected);
        let mut cells: Vec<String> = Vec::new();
        let mut i: usize = 0;
        assert(texts(cells@) =~= goal.take(0));
        while i < row.len()
            invariant
                i <= row@.len(),
                self.ok(),
                goal == self.row_words(hparam_row(row@), selected),
                texts(cells@) == goal.take(i as int),
            decreases row@.len() - i,
        {
            assert(hparam_row(row@)[i as int] == row@[i as int]@);
            let words = self.show_cell(&row[i]);
            let text = if i == 0 {
                let mut text = if selected {
                    "▸".to_owned()
                } else {
                    " ".to_owned()
                };
                push_text(&mut text, &words);
                text
            } else {
                words
            };
            let ghost before = cells@;
            let ghost last = text@;
            cells.push(text);
            assert(texts(cells@) =~= texts(before).push(last));
            assert(goal.take(i + 1) =~= goal.take(i as int).push(goal[i as int]));
            i += 1;
        }
        assert(goal.take(goal.len() as int) =~= goal);
        cells
    }
}

/// The cells that a column of the flat table takes: its name's length, the
/// low sixteen bits of it, but neither too few nor too many. The first column
/// fills what is left.
pub open spec fn column_width(at: int, name: Seq<char>) -> Option<u16> {
    let len = vstd::utf8::encode_utf8(name).len() % 0x1_0000;
    if at == 0 {
        None
    } else if len < 8 {
        Some(8u16)
    } else if len > 22 {
        Some(22u16)
    } else {
        Some(len as u16)
    }
}

fn width_of(at: usize, name: &str) -> (width: Option<u16>)
    ensures
        width == column_width(at as int, name@),
{
    if at == 0 {
        return None;
    }
    let len: usize = name.as_bytes().len() % 0x1_0000;
    if len < 8 {
        Some(8)
    } else if len > 22 {
        Some(22)
    } else {
        Some(len as u16)
    }
}

/// What the rows of a table on the screen say.
pub open spec fn words_of(rows: Seq<Vec<String>>) -> Seq<Seq<Seq<char>>> {
    rows.map_values(|row: Vec<String>| texts(row@))
}

impl<F: Fn(&str) -> Option<u64>, P: Fn(u64) -> String> Wording<F, P> {
    /// The run that a row of the flat table is of.
    pub open spec fn row_run(self, row: Seq<CellModel>) -> Seq<char> {
        if row.len() > 0 {
            self.cell_text(row[0])
        } else {
            Seq::empty()
        }
    }

    /// A row of the flat table as it is drawn.
    pub open spec fn drawn_row(self, row: Seq<CellModel>, selected: Set<Seq<char>>) -> Seq<
        Seq<char>,
    > {
        self.row_words(row, selected.contains(self.row_run(row)))
    }
}

/// The flat table as it is drawn.
pub struct HparamsPanel {
    /// The names of the columns.
    pub columns: Vec<String>,
    /// The cells that each takes; none where it fills what is left.
    pub widths: Vec<Option<u16>>,
    /// What each row says.
    pub rows: Vec<Vec<String>>,
    /// The row under the cursor.
    pub cursor: Option<usize>,
}

impl App {
    /// The flat table as it is drawn.
    pub fn hparams_panel<
        F: Fn(&str) -> Option<u64>,
        P: Fn(u64) -> String,
        O: Fn(Operation, u64, u64) -> u64,
        I: Fn(i64) -> u64,
    >(&self, now: Stamp, wording: &Wording<F, P>, arith: &Arith<O, I>) -> (panel: HparamsPanel)
        requires
            self.wf(),
            wording.ok(),
            arith.ok(),
        ensures
            ({
                let table = flat_table(
                    self.project.catalog(),
                    places_of(
                        table_entries(
                            *wording,
                            *arith,
                            self.project.catalog(),
                            self.ui(),
                            now,
                            active_window(self.interval),
                        ),
                    ),
                );
                let runs = self.ui().runs;
                let names = table.rows.map_values(|row: Seq<CellModel>| wording.row_run(row));
                &&& texts(panel.columns@) == table.columns
                &&& panel.widths@ == Seq::new(
                    table.columns.len(),
                    |i: int| column_width(i, table.columns[i]),
                )
                &&& words_of(panel.rows@) == table.rows.map_values(
                    |row: Seq<CellModel>| wording.drawn_row(row, runs.selected),
                )
                &&& match panel.cursor {
                    Some(at) => cursor_place(runs.cursor, names) == Some(at as int),
                    None => cursor_place(runs.cursor, names) is None,
                }
            }),
    {
        let (columns, list) = self.hparam_table(now, wording, arith);
        let ghost runs = self.ui().runs;
        let ghost all = hparam_rows(list@);
        let ghost goal = all.map_values(
            |row: Seq<CellModel>| wording.drawn_row(row, runs.selected),
        );
        let ghost names_goal = all.map_values(|row: Seq<CellModel>| wording.row_run(row));
        let mut widths: Vec<Option<u16>> = Vec::new();
        let mut k: usize = 0;
        while k < columns.len()
            invariant
                k <= columns@.len(),
                widths@.len() == k,
                forall|j: int|
                    0 <= j < k ==> #[trigger] widths@[j] == column_width(j, columns@[j]@),
            decreases columns@.len() - k,
        {
            widths.push(width_of(k, &columns[k]));
            k += 1;
        }
        assert(widths@ =~= Seq::new(
            texts(columns@).len(),
            |i: int| column_width(i, texts(columns@)[i]),
        ));
        let mut rows: Vec<Vec<String>> = Vec::new();
        let mut names: Vec<String> = Vec::new();
        let mut i: usize = 0;
        proof {
            lemma_no_members(self.runs.selected);
        }
        assert(words_of(rows@) =~= goal.take(0));
        assert(texts(names@) =~= names_goal.take(0));
        while i < list.len()
            invariant
                i <= list@.len(),
                self.wf(),
                wording.ok(),
                all == hparam_rows(list@),
                runs == self.ui().runs,
                goal == all.map_values(
                    |row: Seq<CellModel>| wording.drawn_row(row, runs.selected),
                ),
                names_goal == all.map_values(|row: Seq<CellModel>| wording.row_run(row)),
                forall|n: Seq<char>| runs.selected.contains(n) <==> #[trigger] self.runs.selected.has(n),
                words_of(rows@) == goal.take(i as int),
                texts(names@) == names_goal.take(i as int),
            decreases list@.len() - i,
        {
            let row = &list[i];
            assert(all[i as int] == hparam_row(row@));
            let name = if row.len() > 0 {
                assert(hparam_row(row@)[0] == row@[0]@);
                row[0].text(wording)
            } else {
                let name = String::new();
                assert(name@ =~= Seq::<char>::empty());
                name
            };
            assert(name@ == wording.row_run(hparam_row(row@)));
            let words = wording.show_row(row, self.runs.selected.contains(&name));
            let ghost before = rows@;
            let ghost named = names@;
            let ghost last = texts(words@);
            let ghost last_name = name@;
            rows.push(words);
            names.push(name);
            assert(words_of(rows@) =~= words_of(before).push(last));
            assert(goal.take(i + 1) =~= goal.take(i as int).push(goal[i as int]));
            assert(texts(names@) =~= texts(named).push(last_name));
            assert(names_goal.take(i + 1) =~= names_goal.take(i as int).push(names_goal[i as int]));
            i += 1;
        }
        assert(goal.take(goal.len() as int) =~= goal);
        assert(names_goal.take(names_goal.len() as int) =~= names_goal);
        let cursor = match &self.runs.cursor {
            Some(name) => find_place(&names, name),
            None => None,
        };
        HparamsPanel { columns, widths, rows, cursor }
    }
}

/// The pixels of a terminal cell that an image is drawn at. A dense cell
/// costs by area at every stage, so where the terminal scales an image back
/// over its rectangle, half of either side will do.
pub open spec fn standard_cell(scales: bool, cell: (u16, u16)) -> (u16, u16) {
    if scales && cell.0 > 10 && cell.1 > 20 {
        (cell.0 / 2, cell.1 / 2)
    } else {
        cell
    }
}

/// The pixels of a terminal cell that an image is drawn at.
pub fn standard_density(scales: bool, cell: (u16, u16)) -> (size: (u16, u16))
    ensures
        size == standard_cell(scales, cell),
{
    if scales && cell.0 > 10 && cell.1 > 20 {
        (cell.0 / 2, cell.1 / 2)
    } else {
        cell
    }
}

/// A rectangle of terminal cells.
#[derive(Clone, Copy, PartialEq, Eq, Structural, Debug)]
pub struct Area {
    /// The leftmost column.
    pub x: u16,
    /// The topmost row.
    pub y: u16,
    /// Cells across.
    pub width: u16,
    /// Cells down.
    pub height: u16,
}

/// What is on the terminal besides cells: images, and whether they are
/// still right.
pub struct Painter {
    /// Whether the images have to be painted again.
    pub emit_needed: bool,
    /// Whether there is an image on the screen.
    pub image_on_screen: bool,
    /// Where the images of the last frame are.
    pub areas: Vec<Area>,
}

/// What a painter holds.
#[verifier::ext_equal]
pub struct PainterModel {
    pub emit_needed: bool,
    pub image_on_screen: bool,
    pub areas: Seq<Area>,
}

impl View for Painter {
    type V = PainterModel;

    open spec fn view(&self) -> PainterModel {
        PainterModel {
            emit_needed: self.emit_needed,
            image_on_screen: self.image_on_screen,
            areas: self.areas@,
        }
    }
}

/// What a new layout asks for.
#[derive(Clone, Copy, PartialEq, Eq, Structural, Debug)]
pub struct Relayout {
    /// The images on the screen have to go.
    pub clear: bool,
    /// The panels have to be drawn blank once.
    pub blank: bool,
}

/// What a drawn frame asks for.
#[derive(Clone, Copy, PartialEq, Eq, Structural, Debug)]
pub struct Repaint {
    /// The images on the screen have to go.
    pub clear: bool,
    /// The images of the frame have to be painted.
    pub emit: bool,
}

impl PainterModel {
    /// A frame laid out: where the panels moved, the old images go and the
    /// panels are drawn blank, for fresh ground under transparent images.
    pub open spec fn laid_out(self, areas: Seq<Area>) -> (PainterModel, Relayout) {
        let moved = areas.len() > 0 && areas != self.areas;
        (
            PainterModel {
                emit_needed: self.emit_needed || moved,
                image_on_screen: self.image_on_screen && !moved,
                areas,
            },
            Relayout { clear: moved && self.image_on_screen, blank: moved },
        )
    }

    /// A frame drawn: without panels the images go; with panels they are
    /// painted where something changed, and otherwise the last ones stay.
    pub open spec fn drawn(self, graphics: bool) -> (PainterModel, Repaint) {
        if self.areas.len() == 0 {
            (
                PainterModel {
                    emit_needed: self.emit_needed || self.image_on_screen,
                    image_on_screen: false,
                    ..self
                },
                Repaint { clear: self.image_on_screen, emit: false },
            )
        } else if graphics && self.emit_needed {
            (
                PainterModel { emit_needed: false, image_on_screen: true, ..self },
                Repaint { clear: self.image_on_screen, emit: true },
            )
        } else {
            (self, Repaint { clear: false, emit: false })
        }
    }

    /// A frame that changes nothing paints nothing.
    pub proof fn law_still_frames_paint_nothing(self, graphics: bool)
        requires
            self.areas.len() > 0,
            graphics,
        ensures
            ({
                let (once, _) = self.drawn(graphics);
                let (laid, relayout) = once.laid_out(once.areas);
                let (twice, repaint) = laid.drawn(graphics);
                &&& !relayout.clear && !relayout.blank
                &&& !repaint.clear && !repaint.emit
                &&& twice == once
            }),
    {
    }

    /// Leaving the charts leaves no image behind.
    pub proof fn law_no_image_is_left_behind(self, graphics: bool)
        ensures
            ({
                let (laid, _) = self.laid_out(Seq::empty());
                let (after, repaint) = laid.drawn(graphics);
                &&& !after.image_on_screen
                &&& repaint.clear == self.image_on_screen
                &&& !repaint.emit
            }),
    {
    }
}

fn same_areas(a: &Vec<Area>, b: &Vec<Area>) -> (same: bool)
    ensures
        same == (a@ == b@),
{
    if a.len() != b.len() {
        return false;
    }
    let mut i: usize = 0;
    while i < a.len()
        invariant
            i <= a@.len(),
            a@.len() == b@.len(),
            forall|j: int| 0 <= j < i ==> a@[j] == b@[j],
        decreases a@.len() - i,
    {
        if a[i] != b[i] {
            return false;
        }
        i += 1;
    }
    assert(a@ =~= b@);
    true
}

impl Painter {
    /// A painter before the first frame.
    pub fn new() -> (painter: Painter)
        ensures
            painter@ == (PainterModel {
                emit_needed: true,
                image_on_screen: false,
                areas: Seq::empty(),
            }),
    {
        let painter = Painter { emit_needed: true, image_on_screen: false, areas: Vec::new() };
        assert(painter@.areas =~= Seq::<Area>::empty());
        painter
    }

    /// Takes the layout of a frame in.
    pub fn lay_out(&mut self, areas: Vec<Area>) -> (relayout: Relayout)
        ensures
            (final(self)@, relayout) == old(self)@.laid_out(areas@),
    {
        let moved = areas.len() > 0 && !same_areas(&areas, &self.areas);
        let clear = moved && self.image_on_screen;
        if moved {
            self.emit_needed = true;
            self.image_on_screen = false;
        }
        self.areas = areas;
        Relayout { clear, blank: moved }
    }

    /// Says what a drawn frame asks for.
    pub fn draw(&mut self, graphics: bool) -> (repaint: Repaint)
        ensures
            (final(self)@, repaint) == old(self)@.drawn(graphics),
    {
        let clear = self.image_on_screen;
        if self.areas.len() == 0 {
            if self.image_on_screen {
                self.emit_needed = true;
            }
            self.image_on_screen = false;
            return Repaint { clear, emit: false };
        }
        if graphics && self.emit_needed {
            self.emit_needed = false;
            self.image_on_screen = true;
            return Repaint { clear, emit: true };
        }
        Repaint { clear: false, emit: false }
    }

    /// Something changed: the images have to be painted again.
    pub fn stir(&mut self)
        ensures
            final(self)@ == (PainterModel { emit_needed: true, ..old(self)@ }),
    {
        self.emit_needed = true;
    }
}

/// Whether a poll is due: at once where it was asked for, else after the
/// interval, and never while paused.
pub open spec fn poll_due(force: bool, paused: bool, since: Stamp, interval: Stamp) -> bool {
    force || !paused && since.total() >= interval.total()
}

impl App {
    /// Whether a poll is due.
    pub fn poll_due(&self, since: Stamp) -> (due: bool)
        ensures
            due == poll_due(self.force_refresh, self.paused, since, self.interval),
    {
        self.force_refresh || !self.paused && since.nanoseconds() >= self.interval.nanoseconds()
    }
}

/// Whether a refresh brought anything to show.
pub fn brings_news(report: &RefreshReport) -> (news: bool)
    ensures
        news == (report.new_points > 0 || report.new_files > 0),
{
    report.new_points > 0 || report.new_files > 0
}

/// Whether a live chart has to be drawn: the first time, and whenever points
/// arrived.
pub fn redraw_due(appended: u64, drawn_once: bool) -> (due: bool)
    ensures
        due == (appended > 0 || !drawn_once),
{
    appended > 0 || !drawn_once
}

} // verus!
