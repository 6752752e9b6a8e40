//! One row model, three encodings: aligned text for eyes, CSV and JSON for
//! pipes. Every view exports — escape hatches are load-bearing.
//!
//! Floats render as the shortest decimal that reads back: every digit shown
//! is real, nothing is rounded into a lie.
use vstd::prelude::*;

use crate::cache::{hex, hex_digit, hex_text};
use crate::double::{finite, is_finite, round_to_u64, rounded};
use crate::numeric::Wording;
use crate::text::{
    chars_of, decimal_text, digit, first_index, integer_text, push_decimal, push_integer, push_text,
    split_once, text_between, texts,
};

verus! {

/// Output encoding, chosen by `--csv` / `--json`.
#[derive(Clone, Copy, PartialEq, Eq, Structural, Debug)]
pub enum Format {
    Text,
    Csv,
    Json,
}

/// One cell of a table.
#[derive(Debug)]
pub enum Cell {
    Text(String),
    Int(i64),
    /// The bits of a double.
    Float(u64),
    Empty,
}

/// What a [`Cell`] holds.
#[verifier::ext_equal]
pub enum CellModel {
    Text(Seq<char>),
    Int(i64),
    Float(u64),
    Empty,
}

impl View for Cell {
    type V = CellModel;

    open spec fn view(&self) -> CellModel {
        match *self {
            Cell::Text(text) => CellModel::Text(text@),
            Cell::Int(value) => CellModel::Int(value),
            Cell::Float(bits) => CellModel::Float(bits),
            Cell::Empty => CellModel::Empty,
        }
    }
}

/// What a row of cells holds.
pub open spec fn row_model(row: Seq<Cell>) -> Seq<CellModel> {
    row.map_values(|cell: Cell| cell@)
}

/// What the rows of a table hold.
pub open spec fn rows_model(rows: Seq<Vec<Cell>>) -> Seq<Seq<CellModel>> {
    rows.map_values(|row: Vec<Cell>| row_model(row@))
}

/// A table: named columns, rows of cells.
pub struct Table {
    /// The names of the columns.
    pub columns: Vec<String>,
    /// The rows.
    pub rows: Vec<Vec<Cell>>,
}

/// What a [`Table`] holds.
#[verifier::ext_equal]
pub struct TableModel {
    pub columns: Seq<Seq<char>>,
    pub rows: Seq<Seq<CellModel>>,
}

impl View for Table {
    type V = TableModel;

    open spec fn view(&self) -> TableModel {
        TableModel { columns: texts(self.columns@), rows: rows_model(self.rows@) }
    }
}

impl TableModel {
    /// Every row has a cell for each column.
    pub open spec fn wf(self) -> bool {
        forall|i: int|
            0 <= i < self.rows.len() ==> (#[trigger] self.rows[i]).len() == self.columns.len()
    }
}

impl CellModel {
    /// Whether the cell holds a number.
    pub open spec fn is_numeric(self) -> bool {
        self is Int || self is Float
    }
}

impl Cell {
    /// Whether the cell holds a number.
    fn is_numeric(&self) -> (numeric: bool)
        ensures
            numeric == self@.is_numeric(),
    {
        match self {
            Cell::Int(_) => true,
            Cell::Float(_) => true,
            _ => false,
        }
    }
}

/// Texts behind each other, with a separator between them.
pub open spec fn with_between(parts: Seq<Seq<char>>, between: Seq<char>) -> Seq<char>
    decreases parts.len(),
{
    if parts.len() == 0 {
        Seq::empty()
    } else if parts.len() == 1 {
        parts[0]
    } else {
        with_between(parts.drop_last(), between) + between + parts.last()
    }
}

/// Texts behind each other.
pub open spec fn concatenated(parts: Seq<Seq<char>>) -> Seq<char>
    decreases parts.len(),
{
    if parts.len() == 0 {
        Seq::empty()
    } else {
        concatenated(parts.drop_last()) + parts.last()
    }
}

/// Texts behind each other, with a separator between them.
pub fn join_texts(parts: &Vec<String>, between: &str) -> (text: String)
    ensures
        text@ == with_between(texts(parts@), between@),
{
    let ghost all = texts(parts@);
    let mut text = String::new();
    let mut i: usize = 0;
    assert(text@ =~= Seq::<char>::empty());
    assert(all.take(0) =~= Seq::<Seq<char>>::empty());
    while i < parts.len()
        invariant
            i <= parts@.len(),
            all == texts(parts@),
            text@ == with_between(all.take(i as int), between@),
        decreases parts@.len() - i,
    {
        proof {
            assert(all.take(i + 1).drop_last() =~= all.take(i as int));
            assert(all.take(i + 1).last() == parts@[i as int]@);
        }
        if i > 0 {
            push_text(&mut text, between);
        }
        push_text(&mut text, &parts[i]);
        proof {
            if i == 0 {
                assert(text@ =~= parts@[0]@);
                assert(all.take(1)[0] == parts@[0]@);
            }
        }
        i += 1;
    }
    assert(all.take(i as int) =~= all);
    text
}

/// Spaces.
pub open spec fn spaces(n: int) -> Seq<char> {
    if n > 0 {
        Seq::new(n as nat, |i: int| ' ')
    } else {
        Seq::empty()
    }
}

/// A text filled up to a width: on the left where it is to stand right.
pub open spec fn padded(text: Seq<char>, width: nat, right: bool) -> Seq<char> {
    let fill = spaces(width - text.len());
    if right {
        fill + text
    } else {
        text + fill
    }
}

/// Appends spaces.
fn push_spaces(out: &mut String, n: usize)
    ensures
        final(out)@ == old(out)@ + spaces(n as int),
{
    let mut i: usize = 0;
    assert(old(out)@ + spaces(0) =~= old(out)@);
    while i < n
        invariant
            i <= n,
            out@ == old(out)@ + spaces(i as int),
        decreases n - i,
    {
        out.push(' ');
        i += 1;
        assert(out@ =~= old(out)@ + spaces(i as int));
    }
}

/// Appends a text filled up to a width.
pub fn pad(out: &mut String, text: &str, width: usize, right: bool)
    ensures
        final(out)@ == old(out)@ + padded(text@, width as nat, right),
{
    let count: usize = chars_of(text).len();
    let fill: usize = if width > count {
        width - count
    } else {
        0
    };
    assert(spaces(fill as int) =~= spaces(width - text@.len()));
    if right {
        push_spaces(out, fill);
        push_text(out, text);
    } else {
        push_text(out, text);
        push_spaces(out, fill);
    }
    assert(out@ =~= old(out)@ + padded(text@, width as nat, right));
}

/// Whether a field has to be quoted in CSV.
pub open spec fn csv_special(field: Seq<char>) -> bool {
    exists|i: int| 0 <= i < field.len() && csv_mark(#[trigger] field[i])
}

/// Whether a character makes a field quoted in CSV.
pub open spec fn csv_mark(c: char) -> bool {
    c == ',' || c == '"' || c == '\n' || c == '\r'
}

/// A text with its quotes doubled.
pub open spec fn doubled_quotes(field: Seq<char>) -> Seq<char>
    decreases field.len(),
{
    if field.len() == 0 {
        Seq::empty()
    } else if field.last() == '"' {
        doubled_quotes(field.drop_last()) + seq!['"', '"']
    } else {
        doubled_quotes(field.drop_last()).push(field.last())
    }
}

/// A field in CSV: quoted where it holds a comma, a quote or a line end.
pub open spec fn csv_field(field: Seq<char>) -> Seq<char> {
    if csv_special(field) {
        seq!['"'] + doubled_quotes(field) + seq!['"']
    } else {
        field
    }
}

/// A field in CSV.
pub fn csv_escape(field: &str) -> (text: String)
    ensures
        text@ == csv_field(field@),
{
    let chars = chars_of(field);
    let mut special = false;
    let mut i: usize = 0;
    while i < chars.len()
        invariant
            i <= chars@.len(),
            chars@ == field@,
            special == exists|k: int| 0 <= k < i && csv_mark(#[trigger] field@[k]),
        decreases chars@.len() - i,
    {
        let c = chars[i];
        if c == ',' || c == '"' || c == '\n' || c == '\r' {
            assert(csv_mark(field@[i as int]));
            special = true;
        }
        i += 1;
    }
    if !special {
        return field.to_owned();
    }
    let mut text = String::new();
    text.push('"');
    let ghost front = text@;
    assert(front =~= seq!['"']);
    let mut k: usize = 0;
    assert(field@.take(0) =~= Seq::<char>::empty());
    assert(front + doubled_quotes(field@.take(0)) =~= front);
    while k < chars.len()
        invariant
            k <= chars@.len(),
            chars@ == field@,
            text@ == front + doubled_quotes(field@.take(k as int)),
        decreases chars@.len() - k,
    {
        let ghost before = doubled_quotes(field@.take(k as int));
        proof {
            assert(field@.take(k + 1).drop_last() =~= field@.take(k as int));
        }
        let c = chars[k];
        text.push(c);
        if c == '"' {
            text.push('"');
            assert(text@ =~= front + (before + seq!['"', '"']));
        } else {
            assert(text@ =~= front + before.push(c));
        }
        k += 1;
    }
    assert(field@.take(k as int) =~= field@);
    text.push('"');
    assert(text@ =~= csv_field(field@));
    text
}

/// What a CSV field stands for: a quoted one without its quotes, doubled ones
/// inside read as one.
pub open spec fn csv_value(field: Seq<char>) -> Seq<char> {
    if field.len() >= 2 && field[0] == '"' {
        single_quotes(field.subrange(1, field.len() - 1))
    } else {
        field
    }
}

/// A text with its doubled quotes read as one.
pub open spec fn single_quotes(text: Seq<char>) -> Seq<char>
    decreases text.len(),
{
    if text.len() == 0 {
        Seq::empty()
    } else if text.last() == '"' && text.len() >= 2 {
        single_quotes(text.subrange(0, text.len() - 2)).push('"')
    } else {
        single_quotes(text.drop_last()).push(text.last())
    }
}

proof fn lemma_quotes_round(field: Seq<char>)
    ensures
        single_quotes(doubled_quotes(field)) == field,
    decreases field.len(),
{
    if field.len() == 0 {
        assert(single_quotes(doubled_quotes(field)) =~= field);
    } else {
        let front = field.drop_last();
        lemma_quotes_round(front);
        let text = doubled_quotes(field);
        if field.last() == '"' {
            assert(text.last() == '"');
            assert(text.subrange(0, text.len() - 2) =~= doubled_quotes(front));
        } else {
            assert(text.drop_last() =~= doubled_quotes(front));
        }
        assert(front.push(field.last()) =~= field);
    }
}

/// A CSV field stands for the text it was made of.
pub proof fn law_csv_round_trip(field: Seq<char>)
    ensures
        csv_value(csv_field(field)) == field,
{
    if csv_special(field) {
        let text = csv_field(field);
        assert(text.subrange(1, text.len() - 1) =~= doubled_quotes(field));
        lemma_quotes_round(field);
    } else if field.len() >= 2 && field[0] == '"' {
        assert(csv_mark(field[0]));
    }
}

/// A character in a JSON string.
pub open spec fn json_char(c: char) -> Seq<char> {
    if c == '"' {
        seq!['\\', '"']
    } else if c == '\\' {
        seq!['\\', '\\']
    } else if c == '\n' {
        seq!['\\', 'n']
    } else if c == '\r' {
        seq!['\\', 'r']
    } else if c == '\t' {
        seq!['\\', 't']
    } else if (c as int) < 0x20 {
        seq!['\\', 'u'] + hex_text(c as int, 4)
    } else {
        seq![c]
    }
}

/// The characters of a text in a JSON string.
pub open spec fn json_chars(text: Seq<char>) -> Seq<char>
    decreases text.len(),
{
    if text.len() == 0 {
        Seq::empty()
    } else {
        json_chars(text.drop_last()) + json_char(text.last())
    }
}

/// A text as a JSON string.
pub open spec fn json_text(text: Seq<char>) -> Seq<char> {
    seq!['"'] + json_chars(text) + seq!['"']
}

/// The value of a hexadecimal digit.
pub open spec fn hex_value(c: char) -> int {
    if c as int <= '9' as int {
        c as int - '0' as int
    } else {
        c as int - 'a' as int + 10
    }
}

/// The first character that the inside of a JSON string stands for, and how
/// much of it that takes.
pub open spec fn json_first(s: Seq<char>) -> (char, int) {
    if s[0] != '\\' {
        (s[0], 1)
    } else if s[1] == 'n' {
        ('\n', 2)
    } else if s[1] == 'r' {
        ('\r', 2)
    } else if s[1] == 't' {
        ('\t', 2)
    } else if s[1] == 'u' {
        (
            (4096 * hex_value(s[2]) + 256 * hex_value(s[3]) + 16 * hex_value(s[4]) + hex_value(
                s[5],
            )) as char,
            6,
        )
    } else {
        (s[1], 2)
    }
}

/// The text that the inside of a JSON string stands for.
pub open spec fn json_value(s: Seq<char>) -> Seq<char>
    decreases s.len(),
{
    if s.len() == 0 || json_first(s).1 > s.len() {
        Seq::empty()
    } else {
        seq![json_first(s).0] + json_value(s.skip(json_first(s).1))
    }
}

/// A written character reads as itself, whatever follows.
proof fn lemma_json_char(c: char, more: Seq<char>)
    ensures
        json_first(json_char(c) + more) == (c, json_char(c).len() as int),
        json_char(c).len() > 0,
{
    reveal_with_fuel(hex_text, 5);
    let s = json_char(c) + more;
    if (c as int) < 0x20 && c != '\n' && c != '\r' && c != '\t' {
        let n = c as int;
        let digits = hex_text(n, 4);
        assert(n / 16 / 16 == 0 && n / 16 / 16 / 16 == 0);
        assert(digits =~= seq![hex_digit(0), hex_digit(0), hex_digit(n / 16), hex_digit(n % 16)]);
        assert(s[0] == '\\' && s[1] == 'u');
        assert(s[2] == hex_digit(0) && s[3] == hex_digit(0));
        assert(s[4] == hex_digit(n / 16) && s[5] == hex_digit(n % 16));
        assert(hex_value(hex_digit(0)) == 0);
        assert(hex_value(hex_digit(n / 16)) == n / 16);
        assert(hex_value(hex_digit(n % 16)) == n % 16);
        assert(16 * (n / 16) + n % 16 == n);
    }
}

proof fn lemma_json_value(text: Seq<char>, more: Seq<char>)
    ensures
        json_value(json_chars(text) + more) == text + json_value(more),
    decreases text.len(),
{
    if text.len() == 0 {
        assert(json_chars(text) + more =~= more);
        assert(text + json_value(more) =~= json_value(more));
    } else {
        let front = text.drop_last();
        let c = text.last();
        let behind = json_char(c) + more;
        assert(json_chars(text) + more =~= json_chars(front) + behind);
        lemma_json_value(front, behind);
        lemma_json_char(c, more);
        assert(behind.skip(json_char(c).len() as int) =~= more);
        assert(json_value(behind) == seq![c] + json_value(more));
        assert(front + (seq![c] + json_value(more)) =~= text + json_value(more));
    }
}

/// The inside of a written JSON string stands for the text it was written
/// from.
pub proof fn law_json_round_trip(text: Seq<char>)
    ensures
        json_value(json_chars(text)) == text,
{
    lemma_json_value(text, Seq::empty());
    assert(json_chars(text) + Seq::<char>::empty() =~= json_chars(text));
    assert(text + json_value(Seq::empty()) =~= text);
}

/// Appends a character of a JSON string.
fn push_json_char(out: &mut String, c: char)
    ensures
        final(out)@ == old(out)@ + json_char(c),
{
    let code: u32 = c as u32;
    if c == '"' {
        out.push('\\');
        out.push('"');
    } else if c == '\\' {
        out.push('\\');
        out.push('\\');
    } else if c == '\n' {
        out.push('\\');
        out.push('n');
    } else if c == '\r' {
        out.push('\\');
        out.push('r');
    } else if c == '\t' {
        out.push('\\');
        out.push('t');
    } else if code < 0x20 {
        out.push('\\');
        out.push('u');
        let digits = hex(code as u64, 4);
        push_text(out, &digits);
    } else {
        out.push(c);
    }
    assert(out@ =~= old(out)@ + json_char(c));
}

/// A text as a JSON string.
pub fn json_string(text: &str) -> (out: String)
    ensures
        out@ == json_text(text@),
{
    let chars = chars_of(text);
    let mut out = String::new();
    out.push('"');
    let ghost front = out@;
    assert(front =~= seq!['"']);
    let mut i: usize = 0;
    assert(text@.take(0) =~= Seq::<char>::empty());
    assert(front + json_chars(text@.take(0)) =~= front);
    while i < chars.len()
        invariant
            i <= chars@.len(),
            chars@ == text@,
            out@ == front + json_chars(text@.take(i as int)),
        decreases chars@.len() - i,
    {
        let ghost before = json_chars(text@.take(i as int));
        proof {
            assert(text@.take(i + 1).drop_last() =~= text@.take(i as int));
        }
        push_json_char(&mut out, chars[i]);
        assert(out@ =~= front + (before + json_char(text@[i as int])));
        i += 1;
    }
    assert(text@.take(i as int) =~= text@);
    out.push('"');
    assert(out@ =~= json_text(text@));
    out
}

impl<F: Fn(&str) -> Option<u64>, P: Fn(u64) -> String> Wording<F, P> {
    /// The text of a cell.
    pub open spec fn cell_text(self, cell: CellModel) -> Seq<char> {
        match cell {
            CellModel::Text(text) => text,
            CellModel::Int(value) => integer_text(value as int),
            CellModel::Float(bits) => self.written(bits),
            CellModel::Empty => Seq::empty(),
        }
    }

    /// The text of a cell.
    fn text_of_cell(&self, cell: &Cell) -> (text: String)
        requires
            self.ok(),
        ensures
            text@ == self.cell_text(cell@),
    {
        match cell {
            Cell::Text(text) => text.clone(),
            Cell::Int(value) => {
                let mut text = String::new();
                push_integer(&mut text, *value);
                assert(text@ =~= integer_text(*value as int));
                text
            },
            Cell::Float(bits) => self.write(*bits),
            Cell::Empty => String::new(),
        }
    }

    /// The texts of a row.
    pub open spec fn row_texts(self, row: Seq<CellModel>) -> Seq<Seq<char>> {
        row.map_values(|cell: CellModel| self.cell_text(cell))
    }

    /// The texts of a row.
    fn texts_of_row(&self, row: &Vec<Cell>) -> (out: Vec<String>)
        requires
            self.ok(),
        ensures
            texts(out@) == self.row_texts(row_model(row@)),
    {
        let mut out: Vec<String> = Vec::new();
        let mut i: usize = 0;
        while i < row.len()
            invariant
                i <= row@.len(),
                self.ok(),
                out@.len() == i,
                forall|k: int| 0 <= k < i ==> (#[trigger] out@[k])@ == self.cell_text(row@[k]@),
            decreases row@.len() - i,
        {
            out.push(self.text_of_cell(&row[i]));
            i += 1;
        }
        assert(texts(out@) =~= self.row_texts(row_model(row@)));
        out
    }

    /// A row in CSV.
    pub open spec fn csv_row(self, fields: Seq<Seq<char>>) -> Seq<char> {
        with_between(fields.map_values(|field: Seq<char>| csv_field(field)), seq![',']).push('\n')
    }

    /// Rows in CSV.
    pub open spec fn csv_rows(self, rows: Seq<Seq<CellModel>>) -> Seq<char> {
        concatenated(
            rows.map_values(|row: Seq<CellModel>| self.csv_row(self.row_texts(row))),
        )
    }

    /// A table in CSV: a line of column names, and a line per row.
    pub open spec fn csv_table(self, table: TableModel) -> Seq<char> {
        self.csv_row(table.columns) + self.csv_rows(table.rows)
    }

    /// A row in CSV.
    fn csv_line(&self, fields: &Vec<String>) -> (line: String)
        ensures
            line@ == self.csv_row(texts(fields@)),
    {
        let mut parts: Vec<String> = Vec::new();
        let mut i: usize = 0;
        while i < fields.len()
            invariant
                i <= fields@.len(),
                parts@.len() == i,
                forall|k: int| 0 <= k < i ==> (#[trigger] parts@[k])@ == csv_field(fields@[k]@),
            decreases fields@.len() - i,
        {
            parts.push(csv_escape(&fields[i]));
            i += 1;
        }
        assert(texts(parts@) =~= texts(fields@).map_values(|field: Seq<char>| csv_field(field)));
        proof {
            reveal_strlit(",");
            assert(","@ =~= seq![',']);
        }
        let mut line = join_texts(&parts, ",");
        line.push('\n');
        line
    }

    /// A table in CSV.
    fn render_csv(&self, table: &Table) -> (out: String)
        requires
            self.ok(),
        ensures
            out@ == self.csv_table(table@),
    {
        let mut out = self.csv_line(&table.columns);
        let ghost head = out@;
        let ghost lines = table@.rows.map_values(
            |row: Seq<CellModel>| self.csv_row(self.row_texts(row)),
        );
        let mut i: usize = 0;
        assert(lines.take(0) =~= Seq::<Seq<char>>::empty());
        assert(head + concatenated(lines.take(0)) =~= head);
        while i < table.rows.len()
            invariant
                i <= table.rows@.len(),
                self.ok(),
                lines == table@.rows.map_values(
                    |row: Seq<CellModel>| self.csv_row(self.row_texts(row)),
                ),
                out@ == head + concatenated(lines.take(i as int)),
            decreases table.rows@.len() - i,
        {
            proof {
                assert(lines.take(i + 1).drop_last() =~= lines.take(i as int));
                assert(lines.take(i + 1).last() == self.csv_row(
                    self.row_texts(row_model(table.rows@[i as int]@)),
                ));
            }
            let cells = self.texts_of_row(&table.rows[i]);
            let line = self.csv_line(&cells);
            let ghost before = concatenated(lines.take(i as int));
            push_text(&mut out, &line);
            assert(out@ =~= head + (before + line@));
            i += 1;
        }
        assert(lines.take(i as int) =~= lines);
        out
    }

    /// A cell in JSON: JSON has no NaN and no infinity; a non-finite value is
    /// a gap.
    pub open spec fn json_cell(self, cell: CellModel) -> Seq<char> {
        match cell {
            CellModel::Text(text) => json_text(text),
            CellModel::Int(value) => integer_text(value as int),
            CellModel::Float(bits) => if finite(bits) {
                self.written(bits)
            } else {
                "null"@
            },
            CellModel::Empty => "null"@,
        }
    }

    /// A column and its cell in JSON.
    pub open spec fn json_entry(self, column: Seq<char>, cell: CellModel) -> Seq<char> {
        json_text(column) + ": "@ + self.json_cell(cell)
    }

    /// A row in JSON.
    pub open spec fn json_row(self, columns: Seq<Seq<char>>, row: Seq<CellModel>) -> Seq<char> {
        "  {"@ + with_between(
            Seq::new(row.len(), |i: int| self.json_entry(columns[i], row[i])),
            ", "@,
        ) + "}"@
    }

    /// A table in JSON: an array of objects, one per row.
    pub open spec fn json_table(self, table: TableModel) -> Seq<char> {
        let rows = table.rows.map_values(
            |row: Seq<CellModel>| self.json_row(table.columns, row),
        );
        "[\n"@ + (if rows.len() == 0 {
            Seq::empty()
        } else {
            with_between(rows, ",\n"@).push('\n')
        }) + "]\n"@
    }

    /// A cell in JSON.
    fn json_of_cell(&self, cell: &Cell) -> (text: String)
        requires
            self.ok(),
        ensures
            text@ == self.json_cell(cell@),
    {
        match cell {
            Cell::Text(text) => json_string(text),
            Cell::Int(value) => {
                let mut text = String::new();
                push_integer(&mut text, *value);
                assert(text@ =~= integer_text(*value as int));
                text
            },
            Cell::Float(bits) => if is_finite(*bits) {
                self.write(*bits)
            } else {
                "null".to_owned()
            },
            Cell::Empty => "null".to_owned(),
        }
    }

    /// A row in JSON.
    fn json_line(&self, columns: &Vec<String>, row: &Vec<Cell>) -> (line: String)
        requires
            self.ok(),
            row@.len() == columns@.len(),
        ensures
            line@ == self.json_row(texts(columns@), row_model(row@)),
    {
        let mut parts: Vec<String> = Vec::new();
        let mut i: usize = 0;
        while i < row.len()
            invariant
                i <= row@.len(),
                row@.len() == columns@.len(),
                self.ok(),
                parts@.len() == i,
                forall|k: int|
                    0 <= k < i ==> (#[trigger] parts@[k])@ == self.json_entry(
                        columns@[k]@,
                        row@[k]@,
                    ),
            decreases row@.len() - i,
        {
            let mut part = json_string(&columns[i]);
            push_text(&mut part, ": ");
            let value = self.json_of_cell(&row[i]);
            push_text(&mut part, &value);
            parts.push(part);
            i += 1;
        }
        assert(texts(parts@) =~= Seq::new(
            row_model(row@).len(),
            |i: int| self.json_entry(texts(columns@)[i], row_model(row@)[i]),
        ));
        let mut line = "  {".to_owned();
        let inner = join_texts(&parts, ", ");
        push_text(&mut line, &inner);
        push_text(&mut line, "}");
        line
    }

    /// A table in JSON.
    fn render_json(&self, table: &Table) -> (out: String)
        requires
            self.ok(),
            table@.wf(),
        ensures
            out@ == self.json_table(table@),
    {
        let ghost rows = table@.rows.map_values(
            |row: Seq<CellModel>| self.json_row(table@.columns, row),
        );
        let mut lines: Vec<String> = Vec::new();
        let mut i: usize = 0;
        while i < table.rows.len()
            invariant
                i <= table.rows@.len(),
                self.ok(),
                table@.wf(),
                lines@.len() == i,
                forall|k: int|
                    0 <= k < i ==> (#[trigger] lines@[k])@ == self.json_row(
                        table@.columns,
                        row_model(table.rows@[k]@),
                    ),
            decreases table.rows@.len() - i,
        {
            assert(table@.rows[i as int].len() == table@.columns.len());
            lines.push(self.json_line(&table.columns, &table.rows[i]));
            i += 1;
        }
        assert(texts(lines@) =~= rows);
        let mut out = "[\n".to_owned();
        let ghost head = out@;
        if lines.len() > 0 {
            let body = join_texts(&lines, ",\n");
            push_text(&mut out, &body);
            out.push('\n');
            assert(out@ =~= head + body@.push('\n'));
        } else {
            assert(out@ =~= head + Seq::<char>::empty());
        }
        push_text(&mut out, "]\n");
        out
    }
}

/// Text without the spaces at its end.
pub open spec fn without_spaces(text: Seq<char>) -> Seq<char>
    decreases text.len(),
{
    if text.len() > 0 && text.last() == ' ' {
        without_spaces(text.drop_last())
    } else {
        text
    }
}

/// Text without the spaces at its end.
fn drop_spaces(text: &str) -> (out: String)
    ensures
        out@ == without_spaces(text@),
{
    let chars = chars_of(text);
    let mut n: usize = chars.len();
    assert(text@.take(n as int) =~= text@);
    while n > 0 && chars[n - 1] == ' '
        invariant
            n <= chars@.len(),
            chars@ == text@,
            without_spaces(text@) == without_spaces(text@.take(n as int)),
        decreases n,
    {
        assert(text@.take(n as int).drop_last() =~= text@.take(n - 1));
        n = n - 1;
    }
    let out = text_between(&chars, 0, n);
    assert(out@ =~= text@.take(n as int));
    out
}

/// Whether a column right-aligns: it holds numbers, and besides them only
/// gaps.
pub open spec fn numeric_column(rows: Seq<Seq<CellModel>>, column: int) -> bool {
    &&& exists|i: int| 0 <= i < rows.len() && (#[trigger] rows[i])[column].is_numeric()
    &&& forall|i: int|
        0 <= i < rows.len() ==> (#[trigger] rows[i])[column].is_numeric()
            || rows[i][column] is Empty
}

/// Whether a column right-aligns.
fn is_numeric_column(rows: &Vec<Vec<Cell>>, column: usize) -> (result: bool)
    requires
        forall|i: int| 0 <= i < rows@.len() ==> column < (#[trigger] rows@[i])@.len(),
    ensures
        result == numeric_column(rows_model(rows@), column as int),
{
    let ghost models = rows_model(rows@);
    let mut any = false;
    let mut i: usize = 0;
    while i < rows.len()
        invariant
            i <= rows@.len(),
            models == rows_model(rows@),
            forall|k: int| 0 <= k < rows@.len() ==> column < (#[trigger] rows@[k])@.len(),
            any == exists|k: int| 0 <= k < i && (#[trigger] models[k])[column as int].is_numeric(),
            forall|k: int|
                0 <= k < i ==> (#[trigger] models[k])[column as int].is_numeric()
                    || models[k][column as int] is Empty,
        decreases rows@.len() - i,
    {
        let row = &rows[i];
        assert(models[i as int] == row_model(row@));
        let cell = &row[column];
        assert(models[i as int][column as int] == cell@);
        if cell.is_numeric() {
            any = true;
        } else {
            match cell {
                Cell::Empty => {},
                _ => {
                    assert(!(models[i as int][column as int].is_numeric()
                        || models[i as int][column as int] is Empty));
                    return false;
                },
            }
        }
        i += 1;
    }
    any
}

impl<F: Fn(&str) -> Option<u64>, P: Fn(u64) -> String> Wording<F, P> {
    /// The width of a column, in characters: that of its name, or of its
    /// widest cell among the first `n` rows.
    pub open spec fn column_width(self, table: TableModel, column: int, n: nat) -> nat
        decreases n,
    {
        if n == 0 {
            table.columns[column].len()
        } else {
            let before = self.column_width(table, column, (n - 1) as nat);
            let cell = self.cell_text(table.rows[n - 1][column]).len();
            if cell > before {
                cell
            } else {
                before
            }
        }
    }

    /// A cell filled up to the width of its column.
    pub open spec fn aligned(self, table: TableModel, column: int, text: Seq<char>) -> Seq<char> {
        padded(
            text,
            self.column_width(table, column, table.rows.len()),
            numeric_column(table.rows, column),
        )
    }

    /// A line of aligned cells.
    pub open spec fn aligned_line(self, table: TableModel, cells: Seq<Seq<char>>) -> Seq<char> {
        with_between(
            Seq::new(cells.len(), |i: int| self.aligned(table, i, cells[i])),
            seq![' ', ' '],
        )
    }

    /// A table as aligned text: a line of column names, and a line per row
    /// without the spaces at its end.
    pub open spec fn text_table(self, table: TableModel) -> Seq<char> {
        self.aligned_line(table, table.columns).push('\n') + concatenated(
            table.rows.map_values(
                |row: Seq<CellModel>|
                    without_spaces(self.aligned_line(table, self.row_texts(row))).push('\n'),
            ),
        )
    }

    /// A line of aligned cells.
    fn align(&self, table: &Table, cells: &Vec<String>, widths: &Vec<usize>, numeric: &Vec<bool>) -> (
    line: String)
        requires
            cells@.len() == table@.columns.len(),
            widths@.len() == table@.columns.len(),
            numeric@.len() == table@.columns.len(),
            forall|k: int|
                0 <= k < widths@.len() ==> #[trigger] widths@[k] == self.column_width(
                    table@,
                    k,
                    table@.rows.len(),
                ),
            forall|k: int|
                0 <= k < numeric@.len() ==> #[trigger] numeric@[k] == numeric_column(
                    table@.rows,
                    k,
                ),
        ensures
            line@ == self.aligned_line(table@, texts(cells@)),
    {
        let mut parts: Vec<String> = Vec::new();
        let mut i: usize = 0;
        while i < cells.len()
            invariant
                i <= cells@.len(),
                cells@.len() == table@.columns.len(),
                widths@.len() == table@.columns.len(),
                numeric@.len() == table@.columns.len(),
                forall|k: int|
                    0 <= k < widths@.len() ==> #[trigger] widths@[k] == self.column_width(
                        table@,
                        k,
                        table@.rows.len(),
                    ),
                forall|k: int|
                    0 <= k < numeric@.len() ==> #[trigger] numeric@[k] == numeric_column(
                        table@.rows,
                        k,
                    ),
                parts@.len() == i,
                forall|k: int|
                    0 <= k < i ==> (#[trigger] parts@[k])@ == self.aligned(
                        table@,
                        k,
                        cells@[k]@,
                    ),
            decreases cells@.len() - i,
        {
            let mut part = String::new();
            pad(&mut part, &cells[i], widths[i], numeric[i]);
            assert(part@ =~= self.aligned(table@, i as int, cells@[i as int]@));
            parts.push(part);
            i += 1;
        }
        assert(texts(parts@) =~= Seq::new(
            texts(cells@).len(),
            |i: int| self.aligned(table@, i, texts(cells@)[i]),
        ));
        proof {
            reveal_strlit("  ");
            assert("  "@ =~= seq![' ', ' ']);
        }
        join_texts(&parts, "  ")
    }

    /// The widths of the columns, in characters, not bytes: non-ASCII run
    /// names would otherwise blow the column out.
    fn column_widths(&self, table: &Table) -> (widths: Vec<usize>)
        requires
            self.ok(),
            table@.wf(),
        ensures
            widths@.len() == table@.columns.len(),
            forall|k: int|
                0 <= k < widths@.len() ==> #[trigger] widths@[k] == self.column_width(
                    table@,
                    k,
                    table@.rows.len(),
                ),
    {
        let mut widths: Vec<usize> = Vec::new();
        let mut c: usize = 0;
        while c < table.columns.len()
            invariant
                c <= table.columns@.len(),
                widths@.len() == c,
                forall|k: int|
                    0 <= k < c ==> #[trigger] widths@[k] == self.column_width(table@, k, 0),
            decreases table.columns@.len() - c,
        {
            let name = chars_of(&table.columns[c]);
            widths.push(name.len());
            c += 1;
        }
        let mut i: usize = 0;
        while i < table.rows.len()
            invariant
                i <= table.rows@.len(),
                self.ok(),
                table@.wf(),
                widths@.len() == table@.columns.len(),
                forall|k: int|
                    0 <= k < widths@.len() ==> #[trigger] widths@[k] == self.column_width(
                        table@,
                        k,
                        i as nat,
                    ),
            decreases table.rows@.len() - i,
        {
            let row = &table.rows[i];
            assert(table@.rows[i as int] == row_model(row@));
            assert(table@.rows[i as int].len() == table@.columns.len());
            let mut k: usize = 0;
            while k < row.len()
                invariant
                    i < table.rows@.len(),
                    k <= row@.len(),
                    self.ok(),
                    row@.len() == table@.columns.len(),
                    widths@.len() == table@.columns.len(),
                    table@.rows[i as int] == row_model(row@),
                    forall|j: int|
                        0 <= j < k ==> #[trigger] widths@[j] == self.column_width(
                            table@,
                            j,
                            (i + 1) as nat,
                        ),
                    forall|j: int|
                        k <= j < widths@.len() ==> #[trigger] widths@[j] == self.column_width(
                            table@,
                            j,
                            i as nat,
                        ),
                decreases row@.len() - k,
            {
                let text = self.text_of_cell(&row[k]);
                let count: usize = chars_of(&text).len();
                assert(table@.rows[i as int][k as int] == row@[k as int]@);
                if count > widths[k] {
                    widths.set(k, count);
                }
                k += 1;
            }
            i += 1;
        }
        widths
    }

    /// A table as aligned text.
    fn render_text(&self, table: &Table) -> (out: String)
        requires
            self.ok(),
            table@.wf(),
        ensures
            out@ == self.text_table(table@),
    {
        let widths = self.column_widths(table);
        proof {
            assert forall|i: int| 0 <= i < table.rows@.len() implies (#[trigger] table.rows@[i])@.len()
                == table@.columns.len() by {
                assert(table@.rows[i].len() == table@.columns.len());
            }
        }
        // Numeric columns right-align so magnitudes line up.
        let mut numeric: Vec<bool> = Vec::new();
        let mut c: usize = 0;
        while c < table.columns.len()
            invariant
                c <= table.columns@.len(),
                numeric@.len() == c,
                forall|i: int|
                    0 <= i < table.rows@.len() ==> (#[trigger] table.rows@[i])@.len()
                        == table@.columns.len(),
                forall|k: int|
                    0 <= k < c ==> #[trigger] numeric@[k] == numeric_column(table@.rows, k),
            decreases table.columns@.len() - c,
        {
            numeric.push(is_numeric_column(&table.rows, c));
            c += 1;
        }
        let mut out = self.align(table, &table.columns, &widths, &numeric);
        out.push('\n');
        let ghost head = out@;
        let ghost lines = table@.rows.map_values(
            |row: Seq<CellModel>|
                without_spaces(self.aligned_line(table@, self.row_texts(row))).push('\n'),
        );
        let mut i: usize = 0;
        assert(lines.take(0) =~= Seq::<Seq<char>>::empty());
        assert(head + concatenated(lines.take(0)) =~= head);
        while i < table.rows.len()
            invariant
                i <= table.rows@.len(),
                self.ok(),
                table@.wf(),
                lines == table@.rows.map_values(
                    |row: Seq<CellModel>|
                        without_spaces(self.aligned_line(table@, self.row_texts(row))).push('\n'),
                ),
                out@ == head + concatenated(lines.take(i as int)),
                widths@.len() == table@.columns.len(),
                numeric@.len() == table@.columns.len(),
                forall|k: int|
                    0 <= k < widths@.len() ==> #[trigger] widths@[k] == self.column_width(
                        table@,
                        k,
                        table@.rows.len(),
                    ),
                forall|k: int|
                    0 <= k < numeric@.len() ==> #[trigger] numeric@[k] == numeric_column(
                        table@.rows,
                        k,
                    ),
            decreases table.rows@.len() - i,
        {
            proof {
                assert(table@.rows[i as int].len() == table@.columns.len());
                assert(lines.take(i + 1).drop_last() =~= lines.take(i as int));
            }
            let cells = self.texts_of_row(&table.rows[i]);
            assert(cells@.len() == texts(cells@).len());
            let line = self.align(table, &cells, &widths, &numeric);
            let mut line = drop_spaces(&line);
            line.push('\n');
            assert(lines.take(i + 1).last() == line@);
            let ghost before = concatenated(lines.take(i as int));
            push_text(&mut out, &line);
            assert(out@ =~= head + (before + line@));
            i += 1;
        }
        assert(lines.take(i as int) =~= lines);
        out
    }

    /// A table in an encoding.
    pub open spec fn rendered(self, table: TableModel, format: Format) -> Seq<char> {
        match format {
            Format::Text => self.text_table(table),
            Format::Csv => self.csv_table(table),
            Format::Json => self.json_table(table),
        }
    }
}

impl Table {
    /// Renders the table in an encoding.
    pub fn render<F: Fn(&str) -> Option<u64>, P: Fn(u64) -> String>(
        &self,
        format: Format,
        wording: &Wording<F, P>,
    ) -> (out: String)
        requires
            wording.ok(),
            self@.wf(),
        ensures
            out@ == wording.rendered(self@, format),
    {
        match format {
            Format::Text => wording.render_text(self),
            Format::Csv => wording.render_csv(self),
            Format::Json => wording.render_json(self),
        }
    }
}

/// A number with at least two digits.
pub open spec fn two_digits(n: nat) -> Seq<char> {
    if n < 10 {
        seq!['0'] + decimal_text(n)
    } else {
        decimal_text(n)
    }
}

/// A span of whole seconds: `92s` / `4m05s` / `2h11m` / `54d13h`.
pub open spec fn span_text(total: nat) -> Seq<char> {
    if total < 120 {
        decimal_text(total).push('s')
    } else if total < 3600 {
        decimal_text(total / 60).push('m') + two_digits(total % 60).push('s')
    } else if total < 172_800 {
        decimal_text(total / 3600).push('h') + two_digits(total % 3600 / 60).push('m')
    } else {
        decimal_text(total / 86_400).push('d') + two_digits(total % 86_400 / 3600).push('h')
    }
}

/// A wall-clock span in seconds, the bits of a double; nothing where it is
/// negative or no number.
pub open spec fn duration_text(seconds: u64) -> Seq<char> {
    if !finite(seconds) || crate::double::below(seconds, 0) {
        Seq::empty()
    } else {
        span_text(rounded(seconds) as nat)
    }
}

/// Appends two numbers with a unit behind each, the second with at least two
/// digits.
fn push_span(text: &mut String, first: u64, unit: char, second: u64, small: char)
    ensures
        final(text)@ == old(text)@ + (decimal_text(first as nat).push(unit) + two_digits(
            second as nat,
        ).push(small)),
{
    push_decimal(text, first);
    text.push(unit);
    if second < 10 {
        text.push('0');
    }
    push_decimal(text, second);
    text.push(small);
    assert(text@ =~= old(text)@ + (decimal_text(first as nat).push(unit) + two_digits(
        second as nat,
    ).push(small)));
}

/// `92s` / `4m05s` / `2h11m` / `54d13h` — wall-clock spans, timezone-free.
pub fn fmt_duration(seconds: u64) -> (text: String)
    ensures
        text@ == duration_text(seconds),
{
    let mut text = String::new();
    if !is_finite(seconds) || crate::double::is_below(seconds, 0) {
        return text;
    }
    let total: u64 = round_to_u64(seconds);
    if total < 120 {
        push_decimal(&mut text, total);
        text.push('s');
        assert(text@ =~= span_text(total as nat));
    } else if total < 3600 {
        push_span(&mut text, total / 60, 'm', total % 60, 's');
        assert(text@ =~= span_text(total as nat));
    } else if total < 172_800 {
        push_span(&mut text, total / 3600, 'h', total % 3600 / 60, 'm');
        assert(text@ =~= span_text(total as nat));
    } else {
        push_span(&mut text, total / 86_400, 'd', total % 86_400 / 3600, 'h');
        assert(text@ =~= span_text(total as nat));
    }
    text
}

/// How many digits a text has behind its leading zeros.
pub open spec fn significant(text: Seq<char>, started: bool) -> nat
    decreases text.len(),
{
    if text.len() == 0 {
        0
    } else if digit(text[0]) && (started || text[0] != '0') {
        1 + significant(text.skip(1), true)
    } else {
        significant(text.skip(1), started)
    }
}

/// How many digits of a fraction are kept within a budget of significant
/// ones; zeros in front cost nothing.
pub open spec fn kept_digits(fraction: Seq<char>, started: bool, budget: nat) -> nat
    decreases fraction.len(),
{
    if fraction.len() == 0 || budget == 0 {
        0
    } else {
        let begun = started || fraction[0] != '0';
        let left = if begun {
            (budget - 1) as nat
        } else {
            budget
        };
        1 + kept_digits(fraction.skip(1), begun, left)
    }
}

/// A decimal cut to about `digits` significant digits. Integer digits are
/// never cut; only the fraction shortens.
pub open spec fn truncated_decimal(text: Seq<char>, digits: nat) -> Seq<char> {
    match first_index(text, '.') {
        None => text,
        Some(dot) => {
            let whole = significant(text.take(dot), false);
            let budget = if digits > whole {
                (digits - whole) as nat
            } else {
                0
            };
            let kept = kept_digits(text.skip(dot + 1), whole > 0, budget);
            if kept == 0 {
                text.take(dot)
            } else {
                text.take(dot + 1 + kept)
            }
        },
    }
}

proof fn lemma_kept_digits(fraction: Seq<char>, started: bool, budget: nat)
    ensures
        kept_digits(fraction, started, budget) <= fraction.len(),
    decreases fraction.len(),
{
    if fraction.len() > 0 && budget > 0 {
        let begun = started || fraction[0] != '0';
        let left = if begun {
            (budget - 1) as nat
        } else {
            budget
        };
        lemma_kept_digits(fraction.skip(1), begun, left);
    }
}

/// A cut decimal is the front of the whole one — truncated, never rounded —
/// and all of its integer digits stay.
pub proof fn law_truncation_never_rounds(text: Seq<char>, digits: nat)
    ensures
        truncated_decimal(text, digits).len() <= text.len(),
        truncated_decimal(text, digits) == text.take(truncated_decimal(text, digits).len() as int),
        first_index(text, '.') matches Some(dot) ==> truncated_decimal(text, digits).len() >= dot,
{
    crate::text::lemma_first_index(text, '.');
    match first_index(text, '.') {
        None => {
            assert(text.take(text.len() as int) =~= text);
        },
        Some(dot) => {
            let whole = significant(text.take(dot), false);
            let budget = if digits > whole {
                (digits - whole) as nat
            } else {
                0
            };
            lemma_kept_digits(text.skip(dot + 1), whole > 0, budget);
            assert(truncated_decimal(text, digits) =~= text.take(
                truncated_decimal(text, digits).len() as int,
            ));
        },
    }
}

/// How many digits a text has behind its leading zeros.
fn count_significant(chars: &Vec<char>, upto: usize) -> (count: usize)
    requires
        upto <= chars@.len(),
    ensures
        count == significant(chars@.take(upto as int), false),
        count <= upto,
{
    let ghost text = chars@.take(upto as int);
    let mut count: usize = 0;
    let mut i: usize = 0;
    assert(text.skip(0) =~= text);
    while i < upto
        invariant
            i <= upto <= chars@.len(),
            count <= i,
            text == chars@.take(upto as int),
            significant(text, false) == count + significant(text.skip(i as int), count > 0),
        decreases upto - i,
    {
        proof {
            assert(text.skip(i as int)[0] == chars@[i as int]);
            assert(text.skip(i as int).skip(1) =~= text.skip(i + 1));
        }
        let c = chars[i];
        if '0' <= c && c <= '9' && (count > 0 || c != '0') {
            count += 1;
        }
        i += 1;
    }
    count
}

/// A decimal cut to about `digits` significant digits.
pub fn truncate_fraction(text: &str, digits: usize) -> (out: String)
    ensures
        out@ == truncated_decimal(text@, digits as nat),
{
    let chars = chars_of(text);
    proof {
        crate::text::lemma_first_index(text@, '.');
    }
    let dot: usize = match split_once(text, '.') {
        None => return text.to_owned(),
        Some((front, _)) => {
            let count = chars_of(&front);
            count.len()
        },
    };
    assert(first_index(text@, '.') == Some(dot as int));
    let whole: usize = count_significant(&chars, dot);
    let mut budget: usize = if digits > whole {
        digits - whole
    } else {
        0
    };
    let ghost fraction = text@.skip(dot + 1);
    let ghost total = kept_digits(fraction, whole > 0, budget as nat);
    let mut started = whole > 0;
    let mut kept: usize = 0;
    assert(fraction.skip(0) =~= fraction);
    assert(chars@.len() == dot + 1 + fraction.len());
    while dot + 1 + kept < chars.len() && budget > 0
        invariant
            chars@ == text@,
            dot < chars.len(),
            dot + 1 + kept <= chars.len(),
            fraction == text@.skip(dot + 1),
            total == kept + kept_digits(fraction.skip(kept as int), started, budget as nat),
        decreases chars@.len() - kept,
    {
        let c = chars[dot + 1 + kept];
        proof {
            assert(fraction.skip(kept as int)[0] == c);
            assert(fraction.skip(kept as int).skip(1) =~= fraction.skip(kept + 1));
        }
        if c != '0' {
            started = true;
        }
        if started {
            budget = budget - 1;
        }
        kept += 1;
    }
    assert(total == kept);
    let end: usize = if kept == 0 {
        dot
    } else {
        dot + 1 + kept
    };
    let out = text_between(&chars, 0, end);
    assert(out@ =~= text@.take(end as int));
    out
}

impl<F: Fn(&str) -> Option<u64>, P: Fn(u64) -> String> Wording<F, P> {
    /// A number cut to about `digits` significant digits.
    pub open spec fn significant_text(self, bits: u64, digits: nat) -> Seq<char> {
        if finite(bits) {
            truncated_decimal(self.written(bits), digits)
        } else {
            self.written(bits)
        }
    }

    /// A float truncated to about `digits` significant digits — truncated,
    /// never rounded: `0.9999999` must not become `1.000000`. Integer digits
    /// are never cut (that would change the magnitude); only the fraction
    /// shortens. For screen cells; data exports keep full precision.
    pub fn fmt_sig(&self, bits: u64, digits: usize) -> (text: String)
        requires
            self.ok(),
        ensures
            text@ == self.significant_text(bits, digits as nat),
    {
        let full = self.write(bits);
        if !is_finite(bits) {
            return full;
        }
        truncate_fraction(&full, digits)
    }
}

} // verus!
