//! The state of the terminal interface and its transitions: everything a
//! keypress can change, kept apart from drawing.
//!
//! A refresh never loses state. Cursors are run and tag names, not indices;
//! selection, sort, filters, smoothing, and axes all survive any amount of
//! new data.
use vstd::prelude::*;

use crate::arith::{Arith, Operation};
use crate::chart::XAxis;
use crate::double::{below, is_below, ZERO};
use crate::mlflow::option_text;
use crate::names::NameMap;
use crate::screen;
use crate::text::{chars_of, same_text, text_between, texts};

verus! {

/// Sort column of the runs table.
#[derive(Clone, Copy, PartialEq, Eq, Structural, Debug)]
pub enum RunsSort {
    /// By name.
    Name,
    /// By the number of points.
    Points,
    /// By the number of restarts.
    Restarts,
    /// By the greatest last step.
    Step,
    /// By duration.
    Duration,
}

/// The sort column behind a sort column.
pub open spec fn sort_behind(sort: RunsSort) -> RunsSort {
    match sort {
        RunsSort::Name => RunsSort::Points,
        RunsSort::Points => RunsSort::Restarts,
        RunsSort::Restarts => RunsSort::Step,
        RunsSort::Step => RunsSort::Duration,
        RunsSort::Duration => RunsSort::Name,
    }
}

/// The heading of a sort column.
pub open spec fn sort_word(sort: RunsSort) -> Seq<char> {
    match sort {
        RunsSort::Name => "run"@,
        RunsSort::Points => "points"@,
        RunsSort::Restarts => "restarts"@,
        RunsSort::Step => "step"@,
        RunsSort::Duration => "duration"@,
    }
}

impl RunsSort {
    /// The sort column that the sort key turns to.
    pub fn next(self) -> (sort: RunsSort)
        ensures
            sort == sort_behind(self),
    {
        match self {
            RunsSort::Name => RunsSort::Points,
            RunsSort::Points => RunsSort::Restarts,
            RunsSort::Restarts => RunsSort::Step,
            RunsSort::Step => RunsSort::Duration,
            RunsSort::Duration => RunsSort::Name,
        }
    }

    /// The heading of the sort column.
    pub fn label(self) -> (label: &'static str)
        ensures
            label@ == sort_word(self),
    {
        match self {
            RunsSort::Name => "run",
            RunsSort::Points => "points",
            RunsSort::Restarts => "restarts",
            RunsSort::Step => "step",
            RunsSort::Duration => "duration",
        }
    }
}

/// Five sort keys come back to where they started, and no fewer do.
pub proof fn law_sorts_cycle(sort: RunsSort)
    ensures
        sort_behind(sort_behind(sort_behind(sort_behind(sort_behind(sort))))) == sort,
        sort_behind(sort) != sort,
        sort_behind(sort_behind(sort)) != sort,
        sort_behind(sort_behind(sort_behind(sort))) != sort,
        sort_behind(sort_behind(sort_behind(sort_behind(sort)))) != sort,
{
}

/// What the event loop should do after a keypress.
#[derive(Clone, Copy, PartialEq, Eq, Structural, Debug)]
pub enum Action {
    /// Go on.
    Continue,
    /// Leave.
    Quit,
}

/// A key of the keyboard.
#[derive(Clone, Copy, PartialEq, Eq, Structural, Debug)]
pub enum Key {
    /// A character.
    Char(char),
    /// The escape key.
    Esc,
    /// The enter key.
    Enter,
    /// The backspace key.
    Backspace,
    /// The tab key.
    Tab,
    /// The up arrow.
    Up,
    /// The down arrow.
    Down,
    /// The left arrow.
    Left,
    /// The right arrow.
    Right,
    /// Any other key.
    Other,
}

/// A keypress: the key and the modifiers held with it.
#[derive(Clone, Copy, PartialEq, Eq, Structural, Debug)]
pub struct Press {
    /// The key.
    pub key: Key,
    /// Whether control was held.
    pub control: bool,
    /// Whether alt was held.
    pub alt: bool,
}

impl Press {
    /// A key without modifiers.
    pub fn plain(key: Key) -> (press: Press)
        ensures
            press == (Press { key, control: false, alt: false }),
    {
        Press { key, control: false, alt: false }
    }
}

/// What a keypress makes of a filter under edit, and whether it is still
/// under edit. A character typed with control or alt held is a command, not
/// text.
pub open spec fn edited(filter: Seq<char>, press: Press) -> (Seq<char>, bool) {
    match press.key {
        Key::Esc => (Seq::empty(), false),
        Key::Enter => (filter, false),
        Key::Backspace => (
            if filter.len() > 0 {
                filter.drop_last()
            } else {
                filter
            },
            true,
        ),
        Key::Char(c) => (
            if press.control || press.alt {
                filter
            } else {
                filter.push(c)
            },
            true,
        ),
        _ => (filter, true),
    }
}

/// Applies a keypress to a filter under edit.
pub fn edit(filter: &mut String, press: Press) -> (editing: bool)
    ensures
        (final(filter)@, editing) == edited(old(filter)@, press),
{
    match press.key {
        Key::Esc => {
            *filter = String::new();
            false
        },
        Key::Enter => false,
        Key::Backspace => {
            let chars = chars_of(filter);
            if chars.len() > 0 {
                let ghost before = filter@;
                *filter = text_between(&chars, 0, chars.len() - 1);
                assert(filter@ =~= before.drop_last());
            }
            true
        },
        Key::Char(c) => {
            if !press.control && !press.alt {
                filter.push(c);
            }
            true
        },
        _ => true,
    }
}

/// The place of a name in a list; the first where it stands more than once.
pub open spec fn place_of(list: Seq<Seq<char>>, name: Seq<char>) -> Option<int>
    decreases list.len(),
{
    if list.len() == 0 {
        None
    } else {
        match place_of(list.drop_last(), name) {
            Some(at) => Some(at),
            None => if list.last() == name {
                Some(list.len() - 1)
            } else {
                None
            },
        }
    }
}

/// A place is one where the name stands, and there is one wherever it does.
pub proof fn lemma_place_of(list: Seq<Seq<char>>, name: Seq<char>)
    ensures
        place_of(list, name) matches Some(at) ==> 0 <= at < list.len() && list[at] == name,
        place_of(list, name) is Some <==> list.contains(name),
    decreases list.len(),
{
    if list.len() > 0 {
        lemma_place_of(list.drop_last(), name);
        if list.contains(name) {
            let i = choose|i: int| 0 <= i < list.len() && list[i] == name;
            if i < list.len() - 1 {
                assert(list.drop_last()[i] == name);
            }
        }
        if list.drop_last().contains(name) {
            let i = choose|i: int| 0 <= i < list.len() - 1 && list.drop_last()[i] == name;
            assert(list[i] == name);
        }
        if list.last() == name {
            assert(list[list.len() - 1] == name);
        }
    }
}

/// Finds the place of a name in a list.
pub fn find_place(list: &Vec<String>, name: &str) -> (at: Option<usize>)
    ensures
        match at {
            Some(i) => place_of(texts(list@), name@) == Some(i as int) && i < list@.len(),
            None => place_of(texts(list@), name@) is None,
        },
{
    let ghost all = texts(list@);
    let mut i: usize = 0;
    assert(all.take(0) =~= Seq::<Seq<char>>::empty());
    while i < list.len()
        invariant
            i <= list@.len(),
            all == texts(list@),
            place_of(all.take(i as int), name@) is None,
        decreases list@.len() - i,
    {
        assert(all.take(i + 1).drop_last() =~= all.take(i as int));
        assert(all[i as int] == list@[i as int]@);
        if same_text(&list[i], name) {
            proof {
                lemma_place_stays(all, name@, i + 1);
            }
            return Some(i);
        }
        i += 1;
    }
    assert(all.take(all.len() as int) =~= all);
    None
}

/// A place found in a front of a list is the place in the list.
proof fn lemma_place_stays(list: Seq<Seq<char>>, name: Seq<char>, n: int)
    requires
        0 <= n <= list.len(),
        place_of(list.take(n), name) is Some,
    ensures
        place_of(list, name) == place_of(list.take(n), name),
    decreases list.len(),
{
    if n < list.len() {
        assert(list.drop_last().take(n) =~= list.take(n));
        lemma_place_stays(list.drop_last(), name, n);
    } else {
        assert(list.take(n) =~= list);
    }
}

/// The entry of a list at a place, where there is one.
pub open spec fn entry(list: Seq<Seq<char>>, at: int) -> Option<Seq<char>> {
    if 0 <= at < list.len() {
        Some(list[at])
    } else {
        None
    }
}

fn entry_at(list: &Vec<String>, at: usize) -> (name: Option<String>)
    ensures
        option_text(name) == entry(texts(list@), at as int),
{
    if at < list.len() {
        Some(list[at].clone())
    } else {
        None
    }
}

/// Where a cursor stands in a list, where it stands there at all.
pub open spec fn cursor_place(cursor: Option<Seq<char>>, list: Seq<Seq<char>>) -> Option<int> {
    match cursor {
        Some(name) => place_of(list, name),
        None => None,
    }
}

/// The cursor one entry down: the next entry, or the first where the cursor
/// does not stand in the list. It stops at the last.
pub open spec fn moved_down(cursor: Option<Seq<char>>, list: Seq<Seq<char>>) -> Option<Seq<char>> {
    match cursor_place(cursor, list) {
        Some(at) => if at + 1 < list.len() {
            entry(list, at + 1)
        } else {
            entry(list, list.len() - 1)
        },
        None => entry(list, 0),
    }
}

/// The cursor one entry up: the entry before, or the first.
pub open spec fn moved_up(cursor: Option<Seq<char>>, list: Seq<Seq<char>>) -> Option<Seq<char>> {
    match cursor_place(cursor, list) {
        Some(at) => if at > 0 {
            entry(list, at - 1)
        } else {
            entry(list, 0)
        },
        None => entry(list, 0),
    }
}

fn find_cursor(cursor: &Option<String>, list: &Vec<String>) -> (at: Option<usize>)
    ensures
        match at {
            Some(i) => cursor_place(option_text(*cursor), texts(list@)) == Some(i as int) && i
                < list@.len(),
            None => cursor_place(option_text(*cursor), texts(list@)) is None,
        },
{
    match cursor {
        Some(name) => find_place(list, name),
        None => None,
    }
}

fn move_down(cursor: &mut Option<String>, list: &Vec<String>)
    ensures
        option_text(*final(cursor)) == moved_down(option_text(*old(cursor)), texts(list@)),
{
    let next: usize = match find_cursor(cursor, list) {
        Some(at) => if at < list.len() - 1 {
            at + 1
        } else {
            list.len() - 1
        },
        None => 0,
    };
    *cursor = entry_at(list, next);
}

fn move_up(cursor: &mut Option<String>, list: &Vec<String>)
    ensures
        option_text(*final(cursor)) == moved_up(option_text(*old(cursor)), texts(list@)),
{
    let next: usize = match find_cursor(cursor, list) {
        Some(at) => if at > 0 {
            at - 1
        } else {
            0
        },
        None => 0,
    };
    *cursor = entry_at(list, next);
}

fn move_last(cursor: &mut Option<String>, list: &Vec<String>)
    ensures
        option_text(*final(cursor)) == entry(texts(list@), list@.len() - 1),
{
    *cursor = if list.len() > 0 {
        entry_at(list, list.len() - 1)
    } else {
        None
    };
}

/// The names of a set of names.
pub open spec fn members(set: NameMap<()>) -> Set<Seq<char>> {
    set.map().dom()
}

/// A set of names is empty where it lists none.
pub proof fn lemma_no_members(set: NameMap<()>)
    requires
        set.wf(),
    ensures
        set.names().len() == 0 <==> members(set) == Set::<Seq<char>>::empty(),
        forall|n: Seq<char>| members(set).contains(n) <==> #[trigger] set.has(n),
{
    assert forall|n: Seq<char>| members(set).contains(n) <==> #[trigger] set.has(n) by {}
    if set.names().len() == 0 {
        assert(members(set) =~= Set::<Seq<char>>::empty());
    } else {
        set.lemma_index(0);
        assert(members(set).contains(set.names()[0]));
    }
}

/// A set of one name.
fn only(name: &String) -> (set: NameMap<()>)
    ensures
        set.wf(),
        members(set) == Set::<Seq<char>>::empty().insert(name@),
{
    let mut set: NameMap<()> = NameMap::new();
    set.insert(name.clone(), ());
    assert(members(set) =~= Set::<Seq<char>>::empty().insert(name@));
    set
}

/// The set without names.
fn no_names() -> (set: NameMap<()>)
    ensures
        set.wf(),
        members(set) == Set::<Seq<char>>::empty(),
{
    let set: NameMap<()> = NameMap::new();
    assert(members(set) =~= Set::<Seq<char>>::empty());
    set
}

/// The state of the runs table.
pub struct RunsView {
    /// Run name under the cursor — a name, so new runs can't steal it.
    pub cursor: Option<String>,
    /// Runs picked for overlay in Scalars.
    pub selected: NameMap<()>,
    /// The filter.
    pub filter: String,
    /// Whether the filter is under edit.
    pub editing_filter: bool,
    /// The sort column.
    pub sort: RunsSort,
    /// Whether the order is reversed.
    pub descending: bool,
}

/// What the state of the runs table holds.
#[verifier::ext_equal]
pub struct RunsModel {
    pub cursor: Option<Seq<char>>,
    pub selected: Set<Seq<char>>,
    pub filter: Seq<char>,
    pub editing_filter: bool,
    pub sort: RunsSort,
    pub descending: bool,
}

impl View for RunsView {
    type V = RunsModel;

    open spec fn view(&self) -> RunsModel {
        RunsModel {
            cursor: option_text(self.cursor),
            selected: members(self.selected),
            filter: self.filter@,
            editing_filter: self.editing_filter,
            sort: self.sort,
            descending: self.descending,
        }
    }
}

/// The cursor where it stands in the list, else the first entry.
pub open spec fn cursor_or_first(cursor: Option<Seq<char>>, list: Seq<Seq<char>>) -> Option<Seq<char>> {
    if cursor_place(cursor, list) is Some {
        cursor
    } else {
        entry(list, 0)
    }
}

/// What a keypress makes of the runs table and the screen. Enter opens the
/// runs that are picked, or the run under the cursor where it was moved off
/// them; escape clears the selection, then the filter, then goes back.
pub open spec fn runs_pressed(runs: RunsModel, key: Key, names: Seq<Seq<char>>, view: screen::View) -> (
    RunsModel,
    screen::View,
) {
    match key {
        Key::Down | Key::Char('j') => (
            RunsModel { cursor: moved_down(runs.cursor, names), ..runs },
            view,
        ),
        Key::Up | Key::Char('k') => (
            RunsModel { cursor: moved_up(runs.cursor, names), ..runs },
            view,
        ),
        Key::Char('g') => (RunsModel { cursor: entry(names, 0), ..runs }, view),
        Key::Char('G') => (RunsModel { cursor: entry(names, names.len() - 1), ..runs }, view),
        Key::Char(' ') => match cursor_or_first(runs.cursor, names) {
            Some(name) => (
                RunsModel {
                    selected: if runs.selected.contains(name) {
                        runs.selected.remove(name)
                    } else {
                        runs.selected.insert(name)
                    },
                    ..runs
                },
                view,
            ),
            None => (runs, view),
        },
        Key::Char('s') => (RunsModel { sort: sort_behind(runs.sort), ..runs }, view),
        Key::Char('S') => (RunsModel { descending: !runs.descending, ..runs }, view),
        Key::Enter => match cursor_or_first(runs.cursor, names) {
            Some(name) => (
                RunsModel {
                    selected: if runs.selected.contains(name) {
                        runs.selected
                    } else {
                        Set::empty().insert(name)
                    },
                    ..runs
                },
                screen::View::Scalars,
            ),
            None => (runs, screen::View::Scalars),
        },
        Key::Esc => if runs.selected != Set::<Seq<char>>::empty() {
            (RunsModel { selected: Set::empty(), ..runs }, view)
        } else if runs.filter.len() > 0 {
            (RunsModel { filter: Seq::empty(), ..runs }, view)
        } else {
            (runs, screen::View::Runs)
        },
        _ => (runs, view),
    }
}

impl RunsView {
    /// The selection is in order.
    pub open spec fn wf(self) -> bool {
        self.selected.wf()
    }

    /// The state at the start.
    pub fn new() -> (runs: RunsView)
        ensures
            runs.wf(),
            runs@ == (RunsModel {
                cursor: None,
                selected: Set::empty(),
                filter: Seq::empty(),
                editing_filter: false,
                sort: RunsSort::Name,
                descending: false,
            }),
    {
        let runs = RunsView {
            cursor: None,
            selected: no_names(),
            filter: String::new(),
            editing_filter: false,
            sort: RunsSort::Name,
            descending: false,
        };
        assert(runs@.filter =~= Seq::<char>::empty());
        runs
    }

    fn cursor_or_first(&self, names: &Vec<String>) -> (name: Option<String>)
        ensures
            option_text(name) == cursor_or_first(option_text(self.cursor), texts(names@)),
    {
        match find_cursor(&self.cursor, names) {
            Some(_) => self.cursor.clone(),
            None => entry_at(names, 0),
        }
    }

    fn toggle(&mut self, name: String)
        requires
            old(self).wf(),
        ensures
            final(self).wf(),
            final(self)@ == (RunsModel {
                selected: if old(self)@.selected.contains(name@) {
                    old(self)@.selected.remove(name@)
                } else {
                    old(self)@.selected.insert(name@)
                },
                ..old(self)@
            }),
    {
        let ghost before = self@;
        let ghost start = self.selected;
        proof {
            lemma_no_members(start);
        }
        if self.selected.contains(&name) {
            self.selected.remove(&name);
            assert(members(self.selected) =~= before.selected.remove(name@));
        } else {
            let ghost key = name@;
            self.selected.insert(name, ());
            assert(members(self.selected) =~= before.selected.insert(key));
        }
    }

    /// Applies a keypress to the runs table; gives the screen it turns to.
    pub fn update(&mut self, key: Key, names: &Vec<String>, view: screen::View) -> (turned: screen::View)
        requires
            old(self).wf(),
        ensures
            final(self).wf(),
            (final(self)@, turned) == runs_pressed(old(self)@, key, texts(names@), view),
    {
        proof {
            lemma_no_members(self.selected);
        }
        match key {
            Key::Down | Key::Char('j') => {
                move_down(&mut self.cursor, names);
                view
            },
            Key::Up | Key::Char('k') => {
                move_up(&mut self.cursor, names);
                view
            },
            Key::Char('g') => {
                self.cursor = entry_at(names, 0);
                view
            },
            Key::Char('G') => {
                move_last(&mut self.cursor, names);
                view
            },
            Key::Char(' ') => {
                if let Some(name) = self.cursor_or_first(names) {
                    self.toggle(name);
                }
                view
            },
            Key::Char('s') => {
                self.sort = self.sort.next();
                view
            },
            Key::Char('S') => {
                self.descending = !self.descending;
                view
            },
            Key::Enter => {
                if let Some(name) = self.cursor_or_first(names) {
                    if !self.selected.contains(&name) {
                        self.selected = only(&name);
                    }
                }
                screen::View::Scalars
            },
            Key::Esc => {
                if !self.selected.is_empty() {
                    self.selected = no_names();
                    view
                } else if !self.filter.as_str().is_empty() {
                    self.filter = String::new();
                    assert(self.filter@ =~= Seq::<char>::empty());
                    view
                } else {
                    screen::View::Runs
                }
            },
            _ => view,
        }
    }
}

/// The state of the distributions view.
pub struct DistributionsView {
    /// Histogram tag under the cursor.
    pub cursor: Option<String>,
    /// The filter.
    pub filter: String,
    /// Whether the filter is under edit.
    pub editing_filter: bool,
}

/// What the state of the distributions view holds.
#[verifier::ext_equal]
pub struct DistributionsModel {
    pub cursor: Option<Seq<char>>,
    pub filter: Seq<char>,
    pub editing_filter: bool,
}

impl View for DistributionsView {
    type V = DistributionsModel;

    open spec fn view(&self) -> DistributionsModel {
        DistributionsModel {
            cursor: option_text(self.cursor),
            filter: self.filter@,
            editing_filter: self.editing_filter,
        }
    }
}

/// What a keypress makes of the distributions view and the screen.
pub open spec fn distributions_pressed(
    state: DistributionsModel,
    key: Key,
    tags: Seq<Seq<char>>,
    view: screen::View,
) -> (DistributionsModel, screen::View) {
    match key {
        Key::Down | Key::Char('j') => (
            DistributionsModel { cursor: moved_down(state.cursor, tags), ..state },
            view,
        ),
        Key::Up | Key::Char('k') => (
            DistributionsModel { cursor: moved_up(state.cursor, tags), ..state },
            view,
        ),
        Key::Esc => if state.filter.len() > 0 {
            (DistributionsModel { filter: Seq::empty(), ..state }, view)
        } else {
            (state, screen::View::Runs)
        },
        _ => (state, view),
    }
}

impl DistributionsView {
    /// The state at the start.
    pub fn new() -> (state: DistributionsView)
        ensures
            state@ == (DistributionsModel {
                cursor: None,
                filter: Seq::empty(),
                editing_filter: false,
            }),
    {
        let state = DistributionsView {
            cursor: None,
            filter: String::new(),
            editing_filter: false,
        };
        assert(state@.filter =~= Seq::<char>::empty());
        state
    }

    /// Applies a keypress to the distributions view; gives the screen it
    /// turns to.
    pub fn update(&mut self, key: Key, tags: &Vec<String>, view: screen::View) -> (turned: screen::View)
        ensures
            (final(self)@, turned) == distributions_pressed(old(self)@, key, texts(tags@), view),
    {
        match key {
            Key::Down | Key::Char('j') => {
                move_down(&mut self.cursor, tags);
                view
            },
            Key::Up | Key::Char('k') => {
                move_up(&mut self.cursor, tags);
                view
            },
            Key::Esc => {
                if !self.filter.as_str().is_empty() {
                    self.filter = String::new();
                    assert(self.filter@ =~= Seq::<char>::empty());
                    view
                } else {
                    screen::View::Runs
                }
            },
            _ => view,
        }
    }
}

/// The greatest smoothing, in tenths.
pub const MAX_SMOOTH: u8 = 9;

/// The bits of one and a half, by which a zoom step divides.
pub const ZOOM: u64 = 0x3FF8_0000_0000_0000;

/// The bits of a quarter, the share of the window that a pan step moves.
pub const PAN: u64 = 0x3FD0_0000_0000_0000;

/// The bits of two.
pub const TWO: u64 = 0x4000_0000_0000_0000;

/// The state of the scalars view.
pub struct ScalarsView {
    /// Tag under the cursor — a name, so new tags can't steal it.
    pub cursor: Option<String>,
    /// The filter.
    pub filter: String,
    /// Whether the filter is under edit.
    pub editing_filter: bool,
    /// Smoothing in tenths; 0 disables.
    pub smooth: u8,
    /// The x axis.
    pub x_axis: XAxis,
    /// Whether the y axis is logarithmic.
    pub log_y: bool,
    /// Draw preempted ghost tails as faded lines.
    pub show_ghosts: bool,
    /// Where the crosshair stands.
    pub crosshair: Option<u64>,
    /// The x range shown, where it is not the whole.
    pub x_window: Option<(u64, u64)>,
}

/// What the state of the scalars view holds.
#[verifier::ext_equal]
pub struct ScalarsModel {
    pub cursor: Option<Seq<char>>,
    pub filter: Seq<char>,
    pub editing_filter: bool,
    pub smooth: u8,
    pub x_axis: XAxis,
    pub log_y: bool,
    pub show_ghosts: bool,
    pub crosshair: Option<u64>,
    pub x_window: Option<(u64, u64)>,
}

impl View for ScalarsView {
    type V = ScalarsModel;

    open spec fn view(&self) -> ScalarsModel {
        ScalarsModel {
            cursor: option_text(self.cursor),
            filter: self.filter@,
            editing_filter: self.editing_filter,
            smooth: self.smooth,
            x_axis: self.x_axis,
            log_y: self.log_y,
            show_ghosts: self.show_ghosts,
            crosshair: self.crosshair,
            x_window: self.x_window,
        }
    }
}

/// The axis behind an axis.
pub open spec fn axis_behind(axis: XAxis) -> XAxis {
    match axis {
        XAxis::Step => XAxis::Wall,
        XAxis::Wall => XAxis::Relative,
        XAxis::Relative => XAxis::Tokens,
        XAxis::Tokens => XAxis::Step,
    }
}

/// Four axis keys come back to where they started.
pub proof fn law_axes_cycle(axis: XAxis)
    ensures
        axis_behind(axis_behind(axis_behind(axis_behind(axis)))) == axis,
        axis_behind(axis) != axis,
        axis_behind(axis_behind(axis)) != axis,
        axis_behind(axis_behind(axis_behind(axis))) != axis,
{
}

/// Smoothing one step up, and one step down.
pub open spec fn smoother(smooth: u8, up: bool) -> u8 {
    if up {
        if smooth < MAX_SMOOTH {
            (smooth + 1) as u8
        } else {
            MAX_SMOOTH
        }
    } else if smooth > 0 {
        (smooth - 1) as u8
    } else {
        0
    }
}

/// As many steps down as were made up snap to exactly no smoothing.
pub proof fn law_smoothing_snaps_to_zero(smooth: u8)
    ensures
        smooth < MAX_SMOOTH ==> smoother(smoother(smooth, true), false) == smooth,
        smoother(0, false) == 0,
        smooth <= MAX_SMOOTH ==> smoother(smooth, true) <= MAX_SMOOTH,
{
}

impl<O: Fn(Operation, u64, u64) -> u64, I: Fn(i64) -> u64> Arith<O, I> {
    /// The crosshair one point on: the newest point where there was none.
    pub open spec fn stepped(self, xs: Seq<u64>, crosshair: Option<u64>, right: bool) -> Option<u64> {
        if xs.len() == 0 {
            crosshair
        } else {
            match crosshair {
                None => Some(xs.last()),
                Some(x) => {
                    let at = self.nearest(xs, x, xs.len());
                    Some(
                        if right {
                            if at + 1 < xs.len() {
                                xs[at + 1]
                            } else {
                                xs.last()
                            }
                        } else if at > 0 {
                            xs[at - 1]
                        } else {
                            xs[0]
                        },
                    )
                },
            }
        }
    }

    /// A window that the crosshair drags along where it leaves it.
    pub open spec fn followed(self, window: Option<(u64, u64)>, crosshair: Option<u64>) -> Option<
        (u64, u64),
    > {
        match (window, crosshair) {
            (Some((from, to)), Some(x)) => {
                let width = self.difference(to, from);
                if below(x, from) {
                    Some((x, self.sum(x, width)))
                } else if below(to, x) {
                    Some((self.difference(x, width), x))
                } else {
                    window
                }
            },
            _ => window,
        }
    }

    /// A window of a width from a start, moved into a range.
    pub open spec fn clamped(self, from: u64, width: u64, range: (u64, u64)) -> (u64, u64) {
        if below(from, range.0) {
            (range.0, self.sum(range.0, width))
        } else if below(range.1, self.sum(from, width)) {
            (self.difference(range.1, width), range.1)
        } else {
            (from, self.sum(from, width))
        }
    }

    /// A window of a width around the crosshair, or around the middle of
    /// what is shown.
    pub open spec fn centered(
        self,
        shown: (u64, u64),
        crosshair: Option<u64>,
        width: u64,
        range: (u64, u64),
    ) -> (u64, u64) {
        let center = match crosshair {
            Some(x) => x,
            None => self.quotient(self.sum(shown.0, shown.1), TWO),
        };
        self.clamped(self.difference(center, self.quotient(width, TWO)), width, range)
    }

    /// The window one zoom step in or out. Out far enough, it is the whole.
    pub open spec fn zoomed(
        self,
        window: Option<(u64, u64)>,
        crosshair: Option<u64>,
        range: Option<(u64, u64)>,
        closer: bool,
    ) -> Option<(u64, u64)> {
        match range {
            None => window,
            Some(whole) => {
                let shown = match window {
                    Some(shown) => shown,
                    None => whole,
                };
                let before = self.difference(shown.1, shown.0);
                let width = if closer {
                    self.quotient(before, ZOOM)
                } else {
                    self.product(before, ZOOM)
                };
                if !below(ZERO, width) {
                    window
                } else if !closer && !below(width, self.difference(whole.1, whole.0)) {
                    None
                } else {
                    Some(self.centered(shown, crosshair, width, whole))
                }
            },
        }
    }

    /// The window one pan step on.
    pub open spec fn panned(
        self,
        window: Option<(u64, u64)>,
        range: Option<(u64, u64)>,
        right: bool,
    ) -> Option<(u64, u64)> {
        match (window, range) {
            (Some((from, to)), Some(whole)) => {
                let width = self.difference(to, from);
                let step = self.product(width, PAN);
                Some(
                    self.clamped(
                        if right {
                            self.sum(from, step)
                        } else {
                            self.difference(from, step)
                        },
                        width,
                        whole,
                    ),
                )
            },
            _ => window,
        }
    }

    /// What a keypress makes of the scalars view and the screen, over the
    /// tags in scope, the positions of the first drawn series, and the x
    /// range of the chart. A change of axis resets the window and the
    /// crosshair, whose units it changes.
    pub open spec fn scalars_pressed(
        self,
        state: ScalarsModel,
        key: Key,
        tags: Seq<Seq<char>>,
        xs: Seq<u64>,
        range: Option<(u64, u64)>,
        view: screen::View,
    ) -> (ScalarsModel, screen::View) {
        let charted = view == screen::View::Scalars;
        match key {
            Key::Down | Key::Char('j') => (
                ScalarsModel { cursor: moved_down(state.cursor, tags), ..state },
                view,
            ),
            Key::Up | Key::Char('k') => (
                ScalarsModel { cursor: moved_up(state.cursor, tags), ..state },
                view,
            ),
            Key::Char('g') => (ScalarsModel { cursor: entry(tags, 0), ..state }, view),
            Key::Char('G') => (
                ScalarsModel { cursor: entry(tags, tags.len() - 1), ..state },
                view,
            ),
            Key::Char('s') => (
                ScalarsModel { smooth: smoother(state.smooth, false), ..state },
                view,
            ),
            Key::Char('S') => (
                ScalarsModel { smooth: smoother(state.smooth, true), ..state },
                view,
            ),
            Key::Char('x') => (
                ScalarsModel {
                    x_axis: axis_behind(state.x_axis),
                    crosshair: None,
                    x_window: None,
                    ..state
                },
                view,
            ),
            Key::Char('L') => (ScalarsModel { log_y: !state.log_y, ..state }, view),
            Key::Char('v') => (ScalarsModel { show_ghosts: !state.show_ghosts, ..state }, view),
            Key::Left | Key::Right => if charted {
                let crosshair = self.stepped(xs, state.crosshair, key == Key::Right);
                (
                    ScalarsModel {
                        crosshair,
                        x_window: self.followed(state.x_window, crosshair),
                        ..state
                    },
                    view,
                )
            } else {
                (state, view)
            },
            Key::Char('+') | Key::Char('-') => if charted {
                (
                    ScalarsModel {
                        x_window: self.zoomed(
                            state.x_window,
                            state.crosshair,
                            range,
                            key == Key::Char('+'),
                        ),
                        ..state
                    },
                    view,
                )
            } else {
                (state, view)
            },
            Key::Char('[') | Key::Char(']') => if charted {
                (
                    ScalarsModel {
                        x_window: self.panned(state.x_window, range, key == Key::Char(']')),
                        ..state
                    },
                    view,
                )
            } else {
                (state, view)
            },
            Key::Char('0') => if charted {
                (ScalarsModel { x_window: None, ..state }, view)
            } else {
                (state, view)
            },
            Key::Esc => if state.filter.len() > 0 {
                (ScalarsModel { filter: Seq::empty(), ..state }, view)
            } else {
                (state, screen::View::Runs)
            },
            _ => (state, view),
        }
    }

    fn step_crosshair(&self, xs: &Vec<u64>, crosshair: Option<u64>, right: bool) -> (next: Option<u64>)
        requires
            self.ok(),
        ensures
            next == self.stepped(xs@, crosshair, right),
    {
        if xs.len() == 0 {
            return crosshair;
        }
        match crosshair {
            None => Some(xs[xs.len() - 1]),
            Some(x) => {
                let at: usize = self.find_nearest(xs, x);
                if right {
                    if at + 1 < xs.len() {
                        Some(xs[at + 1])
                    } else {
                        Some(xs[xs.len() - 1])
                    }
                } else if at > 0 {
                    Some(xs[at - 1])
                } else {
                    Some(xs[0])
                }
            },
        }
    }

    fn follow(&self, window: Option<(u64, u64)>, crosshair: Option<u64>) -> (next: Option<(u64, u64)>)
        requires
            self.ok(),
        ensures
            next == self.followed(window, crosshair),
    {
        match window {
            None => None,
            Some((from, to)) => match crosshair {
                None => Some((from, to)),
                Some(x) => {
                    let width: u64 = self.minus(to, from);
                    if is_below(x, from) {
                        Some((x, self.plus(x, width)))
                    } else if is_below(to, x) {
                        Some((self.minus(x, width), x))
                    } else {
                        Some((from, to))
                    }
                },
            },
        }
    }

    fn clamp(&self, from: u64, width: u64, range: (u64, u64)) -> (window: (u64, u64))
        requires
            self.ok(),
        ensures
            window == self.clamped(from, width, range),
    {
        if is_below(from, range.0) {
            (range.0, self.plus(range.0, width))
        } else if is_below(range.1, self.plus(from, width)) {
            (self.minus(range.1, width), range.1)
        } else {
            (from, self.plus(from, width))
        }
    }

    fn zoom(
        &self,
        window: Option<(u64, u64)>,
        crosshair: Option<u64>,
        range: Option<(u64, u64)>,
        closer: bool,
    ) -> (next: Option<(u64, u64)>)
        requires
            self.ok(),
        ensures
            next == self.zoomed(window, crosshair, range, closer),
    {
        let whole = match range {
            None => {
                return window;
            },
            Some(whole) => whole,
        };
        let shown = match window {
            Some(shown) => shown,
            None => whole,
        };
        let before: u64 = self.minus(shown.1, shown.0);
        let width: u64 = if closer {
            self.over(before, ZOOM)
        } else {
            self.times(before, ZOOM)
        };
        if !is_below(ZERO, width) {
            return window;
        }
        if !closer && !is_below(width, self.minus(whole.1, whole.0)) {
            return None;
        }
        let center: u64 = match crosshair {
            Some(x) => x,
            None => self.over(self.plus(shown.0, shown.1), TWO),
        };
        Some(self.clamp(self.minus(center, self.over(width, TWO)), width, whole))
    }

    fn pan(&self, window: Option<(u64, u64)>, range: Option<(u64, u64)>, right: bool) -> (next: Option<
        (u64, u64),
    >)
        requires
            self.ok(),
        ensures
            next == self.panned(window, range, right),
    {
        match window {
            None => None,
            Some((from, to)) => match range {
                None => Some((from, to)),
                Some(whole) => {
                    let width: u64 = self.minus(to, from);
                    let step: u64 = self.times(width, PAN);
                    let start: u64 = if right {
                        self.plus(from, step)
                    } else {
                        self.minus(from, step)
                    };
                    Some(self.clamp(start, width, whole))
                },
            },
        }
    }
}

impl ScalarsView {
    /// The state at the start.
    pub fn new(filter: String) -> (state: ScalarsView)
        ensures
            state@ == (ScalarsModel {
                cursor: None,
                filter: filter@,
                editing_filter: false,
                smooth: 0,
                x_axis: XAxis::Step,
                log_y: false,
                show_ghosts: false,
                crosshair: None,
                x_window: None,
            }),
    {
        ScalarsView {
            cursor: None,
            filter,
            editing_filter: false,
            smooth: 0,
            x_axis: XAxis::Step,
            log_y: false,
            show_ghosts: false,
            crosshair: None,
            x_window: None,
        }
    }

    /// Applies a keypress to the scalars view; gives the screen it turns to.
    pub fn update<O: Fn(Operation, u64, u64) -> u64, I: Fn(i64) -> u64>(
        &mut self,
        key: Key,
        tags: &Vec<String>,
        xs: &Vec<u64>,
        range: Option<(u64, u64)>,
        view: screen::View,
        arith: &Arith<O, I>,
    ) -> (turned: screen::View)
        requires
            arith.ok(),
        ensures
            (final(self)@, turned) == arith.scalars_pressed(
                old(self)@,
                key,
                texts(tags@),
                xs@,
                range,
                view,
            ),
    {
        let charted = view == screen::View::Scalars;
        match key {
            Key::Down | Key::Char('j') => {
                move_down(&mut self.cursor, tags);
            },
            Key::Up | Key::Char('k') => {
                move_up(&mut self.cursor, tags);
            },
            Key::Char('g') => {
                self.cursor = entry_at(tags, 0);
            },
            Key::Char('G') => {
                move_last(&mut self.cursor, tags);
            },
            Key::Char('s') => {
                if self.smooth > 0 {
                    self.smooth = self.smooth - 1;
                }
            },
            Key::Char('S') => {
                self.smooth = if self.smooth < MAX_SMOOTH {
                    self.smooth + 1
                } else {
                    MAX_SMOOTH
                };
            },
            Key::Char('x') => {
                self.x_axis = match self.x_axis {
                    XAxis::Step => XAxis::Wall,
                    XAxis::Wall => XAxis::Relative,
                    XAxis::Relative => XAxis::Tokens,
                    XAxis::Tokens => XAxis::Step,
                };
                self.crosshair = None;
                self.x_window = None;
            },
            Key::Char('L') => {
                self.log_y = !self.log_y;
            },
            Key::Char('v') => {
                self.show_ghosts = !self.show_ghosts;
            },
            Key::Left | Key::Right => {
                if charted {
                    self.crosshair = arith.step_crosshair(xs, self.crosshair, key == Key::Right);
                    self.x_window = arith.follow(self.x_window, self.crosshair);
                }
            },
            Key::Char('+') | Key::Char('-') => {
                if charted {
                    self.x_window = arith.zoom(
                        self.x_window,
                        self.crosshair,
                        range,
                        key == Key::Char('+'),
                    );
                }
            },
            Key::Char('[') | Key::Char(']') => {
                if charted {
                    self.x_window = arith.pan(self.x_window, range, key == Key::Char(']'));
                }
            },
            Key::Char('0') => {
                if charted {
                    self.x_window = None;
                }
            },
            Key::Esc => {
                if !self.filter.as_str().is_empty() {
                    self.filter = String::new();
                    assert(self.filter@ =~= Seq::<char>::empty());
                } else {
                    return screen::View::Runs;
                }
            },
            _ => {},
        }
        view
    }
}

/// `at` are places in a text, going up, where the characters of another
/// stand.
pub open spec fn embeds(haystack: Seq<char>, needle: Seq<char>, at: Seq<int>) -> bool {
    &&& at.len() == needle.len()
    &&& forall|i: int| 0 <= i < at.len() ==> 0 <= #[trigger] at[i] < haystack.len()
    &&& forall|i: int| 0 <= i < at.len() ==> haystack[#[trigger] at[i]] == needle[i]
    &&& forall|i: int, j: int| 0 <= i < j < at.len() ==> at[i] < at[j]
}

/// Whether the characters of a text stand in another in the same order, with
/// anything between them.
pub open spec fn fuzzy(haystack: Seq<char>, needle: Seq<char>) -> bool {
    exists|at: Seq<int>| embeds(haystack, needle, at)
}

/// Case-sensitive subsequence match — `tl` finds `train/loss`.
pub fn fuzzy_match(haystack: &str, needle: &str) -> (found: bool)
    ensures
        found == fuzzy(haystack@, needle@),
{
    let hay = chars_of(haystack);
    let wanted = chars_of(needle);
    let ghost mut at: Seq<int> = Seq::empty();
    let mut from: usize = 0;
    let mut i: usize = 0;
    while i < wanted.len()
        invariant
            i <= wanted@.len(),
            from <= hay@.len(),
            hay@ == haystack@,
            wanted@ == needle@,
            embeds(haystack@, needle@.take(i as int), at),
            at.len() > 0 ==> from == at.last() + 1,
            at.len() == 0 ==> from == 0,
            forall|other: Seq<int>| #[trigger]
                embeds(haystack@, needle@, other) ==> forall|k: int|
                    0 <= k < i ==> at[k] <= #[trigger] other[k],
        decreases wanted@.len() - i,
    {
        let ghost start = from;
        while from < hay.len() && hay[from] != wanted[i]
            invariant
                start <= from <= hay@.len(),
                i < wanted@.len(),
                hay@ == haystack@,
                wanted@ == needle@,
                forall|k: int| start <= k < from ==> #[trigger] haystack@[k] != needle@[i as int],
            decreases hay@.len() - from,
        {
            from += 1;
        }
        if from == hay.len() {
            proof {
                if fuzzy(haystack@, needle@) {
                    let other = choose|other: Seq<int>| embeds(haystack@, needle@, other);
                    if i > 0 {
                        assert(at[i - 1] <= other[i - 1]);
                        assert(other[i - 1] < other[i as int]);
                    }
                    assert(haystack@[other[i as int]] == needle@[i as int]);
                }
            }
            return false;
        }
        proof {
            let before = at;
            at = at.push(from as int);
            assert forall|other: Seq<int>| #[trigger] embeds(haystack@, needle@, other) implies forall|
                k: int,
            | 0 <= k < i + 1 ==> at[k] <= #[trigger] other[k] by {
                assert forall|k: int| 0 <= k < i + 1 implies at[k] <= #[trigger] other[k] by {
                    if k == i {
                        if i > 0 {
                            assert(before[i - 1] <= other[i - 1]);
                            assert(other[i - 1] < other[i as int]);
                        }
                        assert(haystack@[other[i as int]] == needle@[i as int]);
                    } else {
                        assert(before[k] <= other[k]);
                    }
                }
            }
            assert(embeds(haystack@, needle@.take(i + 1), at));
        }
        from += 1;
        i += 1;
    }
    assert(needle@.take(needle@.len() as int) =~= needle@);
    true
}

} // verus!
