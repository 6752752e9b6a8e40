//! The runs table of the interface: its rows, their order, and the flat
//! table of hyperparameters and metrics in the same order.
use vstd::prelude::*;

use crate::arith::{Arith, Operation};
use crate::double::{below, is_below, nan};
use crate::listing::{
    flat_table, flatten, places, status_at, status_text, RowModel, RunRow,
};
use crate::names::NameMap;
use crate::numeric::Wording;
use crate::run::{Run, Stamp};
use crate::table::{row_model, rows_model, Cell, CellModel, Table, TableModel};
use crate::text::{is_before, text_before, texts};
use crate::tui::RunsSort;
use crate::viewer::{active_window, find_window, App, UiModel};
use crate::warm::runs_wf;

verus! {

/// Whether a row's key is less than another's: a row without a step or a
/// duration is less than one with.
pub open spec fn key_less(a: RowModel, b: RowModel, sort: RunsSort) -> bool {
    match sort {
        RunsSort::Name => text_before(a.name, b.name),
        RunsSort::Points => a.points < b.points,
        RunsSort::Restarts => a.restarts < b.restarts,
        RunsSort::Step => match (a.step, b.step) {
            (None, Some(_)) => true,
            (Some(x), Some(y)) => x < y,
            _ => false,
        },
        RunsSort::Duration => match (a.duration, b.duration) {
            (None, Some(_)) => true,
            (Some(x), Some(y)) => below(x, y),
            _ => false,
        },
    }
}

/// Whether a row comes before another: by its key, and by its name where the
/// keys are alike.
pub open spec fn ahead(a: RowModel, b: RowModel, sort: RunsSort) -> bool {
    key_less(a, b, sort) || !key_less(b, a, sort) && text_before(a.name, b.name)
}

/// Whether a row comes before another in an order or its reverse.
pub open spec fn precedes(a: RowModel, b: RowModel, sort: RunsSort, descending: bool) -> bool {
    if descending {
        ahead(b, a, sort)
    } else {
        ahead(a, b, sort)
    }
}

fn is_key_less(a: &RunRow, b: &RunRow, sort: RunsSort) -> (less: bool)
    ensures
        less == key_less(a@, b@, sort),
{
    match sort {
        RunsSort::Name => is_before(&a.name, &b.name),
        RunsSort::Points => a.points < b.points,
        RunsSort::Restarts => a.restarts < b.restarts,
        RunsSort::Step => match (a.step, b.step) {
            (None, Some(_)) => true,
            (Some(x), Some(y)) => x < y,
            _ => false,
        },
        RunsSort::Duration => match (a.duration, b.duration) {
            (None, Some(_)) => true,
            (Some(x), Some(y)) => is_below(x, y),
            _ => false,
        },
    }
}

fn is_ahead(a: &RunRow, b: &RunRow, sort: RunsSort) -> (result: bool)
    ensures
        result == ahead(a@, b@, sort),
{
    is_key_less(a, b, sort) || !is_key_less(b, a, sort) && is_before(&a.name, &b.name)
}

/// A run's place in the catalog, and its row.
pub struct Entry {
    /// Where the run stands.
    pub at: usize,
    /// Its row.
    pub row: RunRow,
}

/// What an entry holds.
#[verifier::ext_equal]
pub struct EntryModel {
    pub at: int,
    pub row: RowModel,
}

impl View for Entry {
    type V = EntryModel;

    open spec fn view(&self) -> EntryModel {
        EntryModel { at: self.at as int, row: self.row@ }
    }
}

/// What a list of entries holds.
pub open spec fn entries_model(list: Seq<Entry>) -> Seq<EntryModel> {
    list.map_values(|entry: Entry| entry@)
}

/// An ordered list with one more entry at its place.
pub open spec fn slotted(list: Seq<EntryModel>, entry: EntryModel, sort: RunsSort, descending: bool) -> Seq<
    EntryModel,
>
    decreases list.len(),
{
    if list.len() == 0 || !precedes(entry.row, list.last().row, sort, descending) {
        list.push(entry)
    } else {
        slotted(list.drop_last(), entry, sort, descending).push(list.last())
    }
}

/// A list in order: each entry in turn put at its place.
pub open spec fn arranged(list: Seq<EntryModel>, sort: RunsSort, descending: bool) -> Seq<EntryModel>
    decreases list.len(),
{
    if list.len() == 0 {
        Seq::empty()
    } else {
        slotted(arranged(list.drop_last(), sort, descending), list.last(), sort, descending)
    }
}

/// Entries in order: none comes before one that stands earlier.
pub open spec fn orderly(list: Seq<EntryModel>, sort: RunsSort, descending: bool) -> bool {
    forall|i: int, j: int|
        0 <= i < j < list.len() ==> !precedes(
            (#[trigger] list[j]).row,
            (#[trigger] list[i]).row,
            sort,
            descending,
        )
}

/// A row whose duration can be compared.
pub open spec fn comparable(row: RowModel) -> bool {
    row.duration matches Some(seconds) ==> !nan(seconds)
}

/// Not coming before carries over.
proof fn lemma_not_ahead(a: RowModel, b: RowModel, c: RowModel, sort: RunsSort)
    requires
        comparable(a),
        comparable(b),
        comparable(c),
        !ahead(b, a, sort),
        !ahead(c, b, sort),
    ensures
        !ahead(c, a, sort),
{
    crate::text::lemma_text_order(a.name, b.name);
    crate::text::lemma_text_order(b.name, c.name);
    crate::text::lemma_text_order(a.name, c.name);
    if text_before(a.name, b.name) && text_before(b.name, c.name) {
        crate::text::lemma_text_order_transitive(a.name, b.name, c.name);
    }
    if text_before(c.name, a.name) && text_before(a.name, b.name) {
        crate::text::lemma_text_order_transitive(c.name, a.name, b.name);
    }
    if text_before(b.name, c.name) && text_before(c.name, a.name) {
        crate::text::lemma_text_order_transitive(b.name, c.name, a.name);
    }
}

/// A row does not come before itself, nor before one that comes before it.
proof fn lemma_ahead_one_way(a: RowModel, b: RowModel, sort: RunsSort)
    requires
        ahead(a, b, sort),
        comparable(a),
        comparable(b),
    ensures
        !ahead(b, a, sort),
{
    crate::text::lemma_text_order(a.name, b.name);
}

proof fn lemma_slotted(list: Seq<EntryModel>, entry: EntryModel, sort: RunsSort, descending: bool)
    requires
        orderly(list, sort, descending),
        comparable(entry.row),
        forall|i: int| 0 <= i < list.len() ==> comparable((#[trigger] list[i]).row),
    ensures
        orderly(slotted(list, entry, sort, descending), sort, descending),
        slotted(list, entry, sort, descending).to_multiset() == list.to_multiset().insert(entry),
        forall|i: int|
            0 <= i < list.len() + 1 ==> comparable(
                (#[trigger] slotted(list, entry, sort, descending)[i]).row,
            ),
        slotted(list, entry, sort, descending).len() == list.len() + 1,
        forall|i: int|
            0 <= i < list.len() + 1 ==> (#[trigger] slotted(list, entry, sort, descending)[i])
                == entry || list.contains(slotted(list, entry, sort, descending)[i]),
    decreases list.len(),
{
    broadcast use vstd::seq_lib::group_to_multiset_ensures;

    let all = slotted(list, entry, sort, descending);
    if list.len() == 0 || !precedes(entry.row, list.last().row, sort, descending) {
        assert forall|i: int, j: int| 0 <= i < j < all.len() implies !precedes(
            (#[trigger] all[j]).row,
            (#[trigger] all[i]).row,
            sort,
            descending,
        ) by {
            if j == list.len() {
                let last = list.last();
                if i < list.len() - 1 {
                    assert(!precedes(list[list.len() - 1].row, list[i].row, sort, descending));
                    if descending {
                        lemma_not_ahead(entry.row, last.row, list[i].row, sort);
                    } else {
                        lemma_not_ahead(list[i].row, last.row, entry.row, sort);
                    }
                }
            }
        }
        assert forall|i: int| 0 <= i < all.len() implies (#[trigger] all[i]) == entry
            || list.contains(all[i]) by {
            if i < list.len() {
                assert(list[i] == all[i]);
            }
        }
    } else {
        let front = list.drop_last();
        let last = list.last();
        lemma_slotted(front, entry, sort, descending);
        let rest = slotted(front, entry, sort, descending);
        assert forall|i: int, j: int| 0 <= i < j < all.len() implies !precedes(
            (#[trigger] all[j]).row,
            (#[trigger] all[i]).row,
            sort,
            descending,
        ) by {
            if j == list.len() {
                if rest[i] == entry {
                    if descending {
                        lemma_ahead_one_way(last.row, entry.row, sort);
                    } else {
                        lemma_ahead_one_way(entry.row, last.row, sort);
                    }
                } else {
                    assert(front.contains(rest[i]));
                    let k = choose|k: int| 0 <= k < front.len() && front[k] == rest[i];
                    assert(list[k] == rest[i]);
                    assert(list[list.len() - 1] == last);
                }
            } else {
                assert(all[i] == rest[i]);
                assert(all[j] == rest[j]);
            }
        }
        assert forall|i: int| 0 <= i < all.len() implies (#[trigger] all[i]) == entry
            || list.contains(all[i]) by {
            if i < rest.len() {
                assert(rest[i] == all[i]);
                if rest[i] != entry {
                    let k = choose|k: int| 0 <= k < front.len() && front[k] == rest[i];
                    assert(list[k] == rest[i]);
                }
            } else {
                assert(list[list.len() - 1] == all[i]);
            }
        }
        assert(front.push(last) =~= list);
        assert(all.to_multiset() =~= list.to_multiset().insert(entry));
    }
}

/// Arranging loses no row and makes none up, and no row comes before one
/// that stands earlier.
pub proof fn law_arranged_is_in_order(list: Seq<EntryModel>, sort: RunsSort, descending: bool)
    requires
        forall|i: int| 0 <= i < list.len() ==> comparable((#[trigger] list[i]).row),
    ensures
        orderly(arranged(list, sort, descending), sort, descending),
        arranged(list, sort, descending).to_multiset() == list.to_multiset(),
        forall|i: int|
            0 <= i < arranged(list, sort, descending).len() ==> comparable(
                (#[trigger] arranged(list, sort, descending)[i]).row,
            ),
    decreases list.len(),
{
    broadcast use vstd::seq_lib::group_to_multiset_ensures;

    if list.len() > 0 {
        law_arranged_is_in_order(list.drop_last(), sort, descending);
        lemma_slotted(
            arranged(list.drop_last(), sort, descending),
            list.last(),
            sort,
            descending,
        );
        assert(list.drop_last().push(list.last()) =~= list);
    } else {
        assert(list =~= Seq::<EntryModel>::empty());
    }
}

proof fn lemma_slot_place(
    list: Seq<EntryModel>,
    entry: EntryModel,
    sort: RunsSort,
    descending: bool,
    at: int,
)
    requires
        0 <= at <= list.len(),
        forall|i: int|
            at <= i < list.len() ==> precedes(entry.row, (#[trigger] list[i]).row, sort, descending),
        at > 0 ==> !precedes(entry.row, list[at - 1].row, sort, descending),
    ensures
        slotted(list, entry, sort, descending) == list.insert(at, entry),
    decreases list.len(),
{
    if at < list.len() {
        let front = list.drop_last();
        assert(precedes(entry.row, list[list.len() - 1].row, sort, descending));
        lemma_slot_place(front, entry, sort, descending, at);
        assert(front.insert(at, entry).push(list.last()) =~= list.insert(at, entry));
    } else {
        assert(list.insert(at, entry) =~= list.push(entry));
    }
}

fn slot(list: &mut Vec<Entry>, entry: Entry, sort: RunsSort, descending: bool)
    ensures
        entries_model(final(list)@) == slotted(
            entries_model(old(list)@),
            entry@,
            sort,
            descending,
        ),
        final(list)@.len() == old(list)@.len() + 1,
        forall|i: int|
            0 <= i < final(list)@.len() ==> (#[trigger] final(list)@[i]) == entry
                || old(list)@.contains(final(list)@[i]),
{
    let ghost all = entries_model(list@);
    let mut at: usize = list.len();
    loop
        invariant_except_break
            at <= list@.len(),
            all == entries_model(list@),
            forall|i: int|
                at <= i < list@.len() ==> precedes(
                    entry@.row,
                    (#[trigger] all[i]).row,
                    sort,
                    descending,
                ),
        ensures
            at <= list@.len(),
            forall|i: int|
                at <= i < list@.len() ==> precedes(
                    entry@.row,
                    (#[trigger] all[i]).row,
                    sort,
                    descending,
                ),
            at > 0 ==> !precedes(entry@.row, all[at - 1].row, sort, descending),
        decreases at,
    {
        if at == 0 {
            break;
        }
        assert(all[at - 1] == list@[at - 1]@);
        let earlier = if descending {
            is_ahead(&list[at - 1].row, &entry.row, sort)
        } else {
            is_ahead(&entry.row, &list[at - 1].row, sort)
        };
        if !earlier {
            break;
        }
        at -= 1;
    }
    let ghost before = list@;
    let ghost added = entry;
    proof {
        lemma_slot_place(all, entry@, sort, descending, at as int);
    }
    list.insert(at, entry);
    assert(entries_model(list@) =~= all.insert(at as int, added@));
    assert forall|i: int| 0 <= i < list@.len() implies (#[trigger] list@[i]) == added
        || before.contains(list@[i]) by {
        if i < at {
            assert(before[i] == list@[i]);
        } else if i > at {
            assert(before[i - 1] == list@[i]);
        }
    }
}

impl<O: Fn(Operation, u64, u64) -> u64, I: Fn(i64) -> u64> Arith<O, I> {
    /// The entries of some runs.
    pub open spec fn entries(self, runs: NameMap<Run>, list: Seq<int>, now: Stamp, window: Stamp) -> Seq<
        EntryModel,
    > {
        list.map_values(
            |at: int|
                EntryModel {
                    at,
                    row: self.row(
                        runs.names()[at],
                        runs.values()[at],
                        status_at(runs.values()[at]@, now, window),
                        false,
                    ),
                },
        )
    }
}

/// The rows of entries.
pub open spec fn rows_of(list: Seq<EntryModel>) -> Seq<RowModel> {
    list.map_values(|entry: EntryModel| entry.row)
}

/// The places of entries.
pub open spec fn places_of(list: Seq<EntryModel>) -> Seq<int> {
    list.map_values(|entry: EntryModel| entry.at)
}

/// The runs table: the runs in scope, in the chosen order.
pub open spec fn table_entries<
    F: Fn(&str) -> Option<u64>,
    P: Fn(u64) -> String,
    O: Fn(Operation, u64, u64) -> u64,
    I: Fn(i64) -> u64,
>(
    wording: Wording<F, P>,
    arith: Arith<O, I>,
    runs: NameMap<Run>,
    ui: UiModel,
    now: Stamp,
    window: Stamp,
) -> Seq<EntryModel> {
    arranged(
        arith.entries(runs, wording.in_scope(runs, ui, now, window), now, window),
        ui.runs.sort,
        ui.runs.descending,
    )
}

impl App {
    /// The runs table under working set, filter, and sort, with the places
    /// of the runs.
    pub fn run_rows<
        F: Fn(&str) -> Option<u64>,
        P: Fn(u64) -> String,
        O: Fn(Operation, u64, u64) -> u64,
        I: Fn(i64) -> u64,
    >(&self, now: Stamp, wording: &Wording<F, P>, arith: &Arith<O, I>) -> (list: Vec<Entry>)
        requires
            self.wf(),
            wording.ok(),
            arith.ok(),
        ensures
            entries_model(list@) == table_entries(
                *wording,
                *arith,
                self.project.catalog(),
                self.ui(),
                now,
                active_window(self.interval),
            ),
            forall|k: int|
                0 <= k < list@.len() ==> (#[trigger] list@[k]).at
                    < self.project.catalog().names().len(),
    {
        let scope = self.scope(now, wording);
        let window = find_window(self.interval);
        let runs = self.project.runs();
        let sort = self.runs.sort;
        let descending = self.runs.descending;
        let ghost all = arith.entries(*runs, places(scope@), now, window);
        let mut list: Vec<Entry> = Vec::new();
        let mut k: usize = 0;
        assert(all.take(0) =~= Seq::<EntryModel>::empty());
        assert(entries_model(list@) =~= Seq::<EntryModel>::empty());
        while k < scope.len()
            invariant
                k <= scope@.len(),
                arith.ok(),
                runs_wf(*runs),
                all == arith.entries(*runs, places(scope@), now, window),
                forall|j: int| 0 <= j < scope@.len() ==> #[trigger] scope@[j] < runs.names().len(),
                entries_model(list@) == arranged(all.take(k as int), sort, descending),
                forall|j: int| 0 <= j < list@.len() ==> (#[trigger] list@[j]).at < runs.names().len(),
            decreases scope@.len() - k,
        {
            assert(all.take(k + 1).drop_last() =~= all.take(k as int));
            let at: usize = scope[k];
            assert(places(scope@)[k as int] == at);
            let run = runs.value_at(at);
            let row = arith.run_row(runs.name_at(at), run, status_text(run, now, window), false);
            let entry = Entry { at, row };
            let ghost before = list@;
            assert(entry@ == all[k as int]);
            slot(&mut list, entry, sort, descending);
            assert forall|j: int| 0 <= j < list@.len() implies (#[trigger] list@[j]).at
                < runs.names().len() by {
                if list@[j] != entry {
                    let i = choose|i: int| 0 <= i < before.len() && before[i] == list@[j];
                    assert(before[i].at < runs.names().len());
                }
            }
            k += 1;
        }
        assert(all.take(all.len() as int) =~= all);
        list
    }

    /// The names of the runs table, in its order.
    pub fn row_names<
        F: Fn(&str) -> Option<u64>,
        P: Fn(u64) -> String,
        O: Fn(Operation, u64, u64) -> u64,
        I: Fn(i64) -> u64,
    >(&self, now: Stamp, wording: &Wording<F, P>, arith: &Arith<O, I>) -> (names: Vec<String>)
        requires
            self.wf(),
            wording.ok(),
            arith.ok(),
        ensures
            texts(names@) == rows_of(
                table_entries(
                    *wording,
                    *arith,
                    self.project.catalog(),
                    self.ui(),
                    now,
                    active_window(self.interval),
                ),
            ).map_values(|row: RowModel| row.name),
    {
        let list = self.run_rows(now, wording, arith);
        let ghost all = entries_model(list@);
        let ghost goal = rows_of(all).map_values(|row: RowModel| row.name);
        let mut names: Vec<String> = Vec::new();
        let mut k: usize = 0;
        assert(texts(names@) =~= goal.take(0));
        while k < list.len()
            invariant
                k <= list@.len(),
                all == entries_model(list@),
                goal == rows_of(all).map_values(|row: RowModel| row.name),
                texts(names@) == goal.take(k as int),
            decreases list@.len() - k,
        {
            assert(all[k as int] == list@[k as int]@);
            let ghost before = names@;
            names.push(list[k].row.name.clone());
            assert(texts(names@) =~= texts(before).push(goal[k as int]));
            assert(goal.take(k + 1) =~= goal.take(k as int).push(goal[k as int]));
            k += 1;
        }
        assert(goal.take(goal.len() as int) =~= goal);
        names
    }

    /// The flat table of hyperparameters and metrics, scoped and sorted like
    /// the runs table.
    pub fn flat_rows<
        F: Fn(&str) -> Option<u64>,
        P: Fn(u64) -> String,
        O: Fn(Operation, u64, u64) -> u64,
        I: Fn(i64) -> u64,
    >(&self, now: Stamp, wording: &Wording<F, P>, arith: &Arith<O, I>) -> (table: Table)
        requires
            self.wf(),
            wording.ok(),
            arith.ok(),
        ensures
            table@ == flat_table(
                self.project.catalog(),
                places_of(
                    table_entries(
                        *wording,
                        *arith,
                        self.project.catalog(),
                        self.ui(),
                        now,
                        active_window(self.interval),
                    ),
                ),
            ),
            table@.wf(),
    {
        let list = self.run_rows(now, wording, arith);
        let runs = self.project.runs();
        let ghost all = entries_model(list@);
        let mut order: Vec<usize> = Vec::new();
        let mut k: usize = 0;
        while k < list.len()
            invariant
                k <= list@.len(),
                all == entries_model(list@),
                forall|j: int| 0 <= j < list@.len() ==> (#[trigger] list@[j]).at < runs.names().len(),
                order@.len() == k,
                forall|j: int| 0 <= j < k ==> #[trigger] order@[j] == list@[j].at,
            decreases list@.len() - k,
        {
            order.push(list[k].at);
            k += 1;
        }
        assert(places(order@) =~= places_of(all)) by {
            assert forall|j: int| 0 <= j < order@.len() implies places(order@)[j] == places_of(
                all,
            )[j] by {
                assert(order@[j] == list@[j].at);
            }
        }
        flatten(runs, &order)
    }
}

/// A cell of the flat table, for drawing.
#[derive(PartialEq, Debug)]
pub enum HparamCell {
    /// Text.
    Text(String),
    /// A number.
    Number(u64),
    /// Nothing.
    Empty,
}

impl View for HparamCell {
    type V = CellModel;

    open spec fn view(&self) -> CellModel {
        match *self {
            HparamCell::Text(text) => CellModel::Text(text@),
            HparamCell::Number(bits) => CellModel::Float(bits),
            HparamCell::Empty => CellModel::Empty,
        }
    }
}

impl HparamCell {
    /// The cell as text, numbers in full.
    pub fn text<F: Fn(&str) -> Option<u64>, P: Fn(u64) -> String>(&self, wording: &Wording<F, P>) -> (text: String)
        requires
            wording.ok(),
        ensures
            text@ == wording.cell_text(self@),
    {
        match self {
            HparamCell::Text(text) => text.clone(),
            HparamCell::Number(bits) => wording.write(*bits),
            HparamCell::Empty => {
                let text = String::new();
                assert(text@ =~= Seq::<char>::empty());
                text
            },
        }
    }

    /// A cell of the flat table. Its whole numbers are not there.
    fn of(cell: &Cell) -> (out: HparamCell)
        ensures
            cell@ !is Int ==> out@ == cell@,
    {
        match cell {
            Cell::Text(text) => HparamCell::Text(text.clone()),
            Cell::Float(bits) => HparamCell::Number(*bits),
            _ => HparamCell::Empty,
        }
    }
}

/// What rows of the flat table hold.
pub open spec fn hparam_rows(rows: Seq<Vec<HparamCell>>) -> Seq<Seq<CellModel>> {
    rows.map_values(|row: Vec<HparamCell>| hparam_row(row@))
}

/// What a row of the flat table holds.
pub open spec fn hparam_row(row: Seq<HparamCell>) -> Seq<CellModel> {
    row.map_values(|cell: HparamCell| cell@)
}

/// The flat table holds no whole numbers.
proof fn lemma_flat_cells(runs: NameMap<Run>, shown: Seq<int>, row: int, cell: int)
    requires
        0 <= row < flat_table(runs, shown).rows.len(),
        0 <= cell < flat_table(runs, shown).rows[row].len(),
    ensures
        flat_table(runs, shown).rows[row][cell] !is Int,
{
    let keys = crate::names::sorted(crate::listing::keys_among(runs, shown));
    if cell == 0 {
    } else if cell <= keys.len() {
        assert(flat_table(runs, shown).rows[row][cell] == crate::listing::key_cell(
            runs.values()[shown[row]],
            keys[cell - 1],
        ));
    } else {
        let tags = crate::names::sorted(
            crate::listing::tags_among(runs, shown, crate::series::SeriesClass::Scalar),
        );
        assert(flat_table(runs, shown).rows[row][cell] == crate::listing::tag_cell(
            runs.values()[shown[row]],
            tags[cell - 1 - keys.len()],
        ));
    }
}

fn hparam_cells(row: &Vec<Cell>) -> (cells: Vec<HparamCell>)
    requires
        forall|i: int| 0 <= i < row@.len() ==> (#[trigger] row_model(row@)[i]) !is Int,
    ensures
        hparam_row(cells@) == row_model(row@),
{
    let ghost goal = row_model(row@);
    let mut cells: Vec<HparamCell> = Vec::new();
    let mut i: usize = 0;
    assert(hparam_row(cells@) =~= goal.take(0));
    while i < row.len()
        invariant
            i <= row@.len(),
            goal == row_model(row@),
            forall|j: int| 0 <= j < row@.len() ==> (#[trigger] row_model(row@)[j]) !is Int,
            hparam_row(cells@) == goal.take(i as int),
        decreases row@.len() - i,
    {
        assert(row_model(row@)[i as int] == row@[i as int]@);
        let ghost before = cells@;
        let cell = HparamCell::of(&row[i]);
        let ghost last = cell@;
        cells.push(cell);
        assert(hparam_row(cells@) =~= hparam_row(before).push(last));
        assert(goal.take(i + 1) =~= goal.take(i as int).push(goal[i as int]));
        i += 1;
    }
    assert(goal.take(goal.len() as int) =~= goal);
    cells
}

impl App {
    /// Columns (`run`, hyperparameters, metrics) and rows of the flat table,
    /// for drawing.
    pub fn hparam_table<
        F: Fn(&str) -> Option<u64>,
        P: Fn(u64) -> String,
        O: Fn(Operation, u64, u64) -> u64,
        I: Fn(i64) -> u64,
    >(&self, now: Stamp, wording: &Wording<F, P>, arith: &Arith<O, I>) -> (out: (
        Vec<String>,
        Vec<Vec<HparamCell>>,
    ))
        requires
            self.wf(),
            wording.ok(),
            arith.ok(),
        ensures
            (TableModel { columns: texts(out.0@), rows: hparam_rows(out.1@) }) == flat_table(
                self.project.catalog(),
                places_of(
                    table_entries(
                        *wording,
                        *arith,
                        self.project.catalog(),
                        self.ui(),
                        now,
                        active_window(self.interval),
                    ),
                ),
            ),
    {
        let table = self.flat_rows(now, wording, arith);
        let ghost runs = self.project.catalog();
        let ghost shown = places_of(
            table_entries(
                *wording,
                *arith,
                self.project.catalog(),
                self.ui(),
                now,
                active_window(self.interval),
            ),
        );
        let ghost goal = table@.rows;
        let mut rows: Vec<Vec<HparamCell>> = Vec::new();
        let mut i: usize = 0;
        assert(hparam_rows(rows@) =~= goal.take(0));
        while i < table.rows.len()
            invariant
                i <= table.rows@.len(),
                goal == rows_model(table.rows@),
                goal == flat_table(runs, shown).rows,
                hparam_rows(rows@) == goal.take(i as int),
            decreases table.rows@.len() - i,
        {
            assert(goal[i as int] == row_model(table.rows@[i as int]@));
            assert forall|j: int| 0 <= j < table.rows@[i as int]@.len() implies (
            #[trigger] row_model(table.rows@[i as int]@)[j]) !is Int by {
                lemma_flat_cells(runs, shown, i as int, j);
            }
            let ghost before = rows@;
            let cells = hparam_cells(&table.rows[i]);
            let ghost last = hparam_row(cells@);
            rows.push(cells);
            assert(hparam_rows(rows@) =~= hparam_rows(before).push(last));
            assert(goal.take(i + 1) =~= goal.take(i as int).push(goal[i as int]));
            i += 1;
        }
        assert(goal.take(goal.len() as int) =~= goal);
        (table.columns, rows)
    }
}

} // verus!
