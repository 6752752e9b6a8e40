//! dvclive: the friendliest format in the field. Metric history lives in
//! `dvclive/plots/metrics/<name>.tsv` — a header line then one row per
//! step, append-only and therefore tailable. Parameters live in
//! `dvclive/params.yaml` as a small YAML document.
use vstd::prelude::*;

use crate::params::{param_of, reader_total, reads_as, ParamValue};
use crate::text::{
    contains_char, first_index, integer_of, lemma_trimmed_start_len, parse_i64, pieces, push_text,
    same_text, split, split_once, starts_with_char, texts, trim, trim_end, trim_start, trimmed,
    trimmed_end, trimmed_start,
};

verus! {

/// A TSV file's column layout, from its header line.
#[derive(Clone, Copy, PartialEq, Eq, Structural, Debug)]
pub struct TsvSchema {
    /// Column index of the millisecond timestamp, when present.
    pub timestamp: Option<usize>,
    /// Column index of the step, when present (dvclive omits it for
    /// single-point metrics).
    pub step: Option<usize>,
    /// Column index of the value: the last column, whatever its name.
    pub value: usize,
}

impl View for TsvSchema {
    type V = TsvSchema;

    open spec fn view(&self) -> TsvSchema {
        *self
    }
}

/// One parsed metric row.
#[derive(Clone, Copy, PartialEq, Eq, Structural, Debug)]
pub struct TsvRow {
    /// Global step (0 when the file has no step column).
    pub step: i64,
    /// Seconds since the Unix epoch, the bits of a double; zero when absent.
    pub wall: u64,
    /// The value, the bits of a double; non-finite parses (`nan`, `inf`) pass
    /// through honestly.
    pub value: u64,
}

/// The cells of a row that hold numbers still to be read.
pub struct RowCells {
    /// The step.
    pub step: i64,
    /// The text of the millisecond timestamp, when there is such a column.
    pub millis: Option<String>,
    /// The text of the value.
    pub value: String,
}

/// What a [`RowCells`] holds.
#[verifier::ext_equal]
pub struct CellsModel {
    pub step: i64,
    pub millis: Option<Seq<char>>,
    pub value: Seq<char>,
}

impl View for RowCells {
    type V = CellsModel;

    open spec fn view(&self) -> CellsModel {
        CellsModel {
            step: self.step,
            millis: match self.millis {
                Some(text) => Some(text@),
                None => None,
            },
            value: self.value@,
        }
    }
}

/// The columns of a line.
pub open spec fn columns(line: Seq<char>) -> Seq<Seq<char>> {
    pieces(trimmed_end(line), '\t')
}

/// Where a column of that name first stands.
pub open spec fn column_named(columns: Seq<Seq<char>>, name: Seq<char>, found: Option<usize>) -> bool {
    match found {
        Some(i) => i < columns.len() && columns[i as int] == name && forall|k: int|
            0 <= k < i ==> #[trigger] columns[k] != name,
        None => forall|k: int| 0 <= k < columns.len() ==> #[trigger] columns[k] != name,
    }
}

/// The place of the first column of that name.
pub open spec fn column_at(columns: Seq<Seq<char>>, name: Seq<char>) -> Option<usize> {
    choose|found: Option<usize>| column_named(columns, name, found)
}

/// A column has one first place.
pub proof fn lemma_column_at(columns: Seq<Seq<char>>, name: Seq<char>, found: Option<usize>)
    requires
        column_named(columns, name, found),
    ensures
        column_at(columns, name) == found,
{
    let other = column_at(columns, name);
    if let (Some(i), Some(k)) = (found, other) {
        assert(columns[i as int] == name && columns[k as int] == name);
    }
}

/// The layout that a header line gives: none where a column has no name.
pub open spec fn schema_of(header: Seq<char>) -> Option<TsvSchema> {
    let names = columns(header);
    if exists|i: int| 0 <= i < names.len() && (#[trigger] names[i]).len() == 0 {
        None
    } else {
        Some(
            TsvSchema {
                timestamp: column_at(names, "timestamp"@),
                step: column_at(names, "step"@),
                value: (names.len() - 1) as usize,
            },
        )
    }
}

/// Where a column of that name first stands.
fn position(columns: &Vec<String>, name: &str) -> (found: Option<usize>)
    ensures
        column_named(texts(columns@), name@, found),
{
    let mut i: usize = 0;
    while i < columns.len()
        invariant
            i <= columns@.len(),
            forall|k: int| 0 <= k < i ==> #[trigger] texts(columns@)[k] != name@,
        decreases columns@.len() - i,
    {
        assert(texts(columns@)[i as int] == columns@[i as int]@);
        if same_text(&columns[i], name) {
            return Some(i);
        }
        i += 1;
    }
    None
}

impl TsvSchema {
    /// Reads the layout from the header line: columns named `timestamp` and
    /// `step` are positional metadata, and the last column carries the
    /// value. `None` when the line cannot be a dvclive metrics header.
    pub fn from_header(header: &str) -> (result: Option<TsvSchema>)
        ensures
            result is None <==> exists|i: int|
                0 <= i < columns(header@).len() && (#[trigger] columns(header@)[i]).len() == 0,
            result matches Some(schema) ==> {
                &&& column_named(columns(header@), "timestamp"@, schema.timestamp)
                &&& column_named(columns(header@), "step"@, schema.step)
                &&& schema.value == columns(header@).len() - 1
            },
            result == schema_of(header@),
    {
        let line = trim_end(header);
        let names = split(&line, '\t');
        let mut i: usize = 0;
        while i < names.len()
            invariant
                i <= names@.len(),
                texts(names@) == columns(header@),
                forall|k: int| 0 <= k < i ==> (#[trigger] columns(header@)[k]).len() > 0,
            decreases names@.len() - i,
        {
            assert(texts(names@)[i as int] == names@[i as int]@);
            if names[i].as_str().is_empty() {
                assert(columns(header@)[i as int].len() == 0);
                return None;
            }
            i += 1;
        }
        assert(columns(header@).len() == names@.len());
        let timestamp = position(&names, "timestamp");
        let step = position(&names, "step");
        proof {
            lemma_column_at(columns(header@), "timestamp"@, timestamp);
            lemma_column_at(columns(header@), "step"@, step);
        }
        Some(TsvSchema { timestamp, step, value: names.len() - 1 })
    }

    /// The cells of a data row, if it has every column of the layout and its
    /// step is an integer.
    pub open spec fn cells_of(self, line: Seq<char>) -> Option<CellsModel> {
        let fields = columns(line);
        let step_text = match self.step {
            Some(i) => if i < fields.len() {
                integer_of(trimmed(fields[i as int]))
            } else {
                None
            },
            None => Some(0i64),
        };
        if self.value >= fields.len() || step_text is None {
            None
        } else {
            match self.timestamp {
                Some(i) => if i < fields.len() {
                    Some(
                        CellsModel {
                            step: step_text->0,
                            millis: Some(trimmed(fields[i as int])),
                            value: trimmed(fields[self.value as int]),
                        },
                    )
                } else {
                    None
                },
                None => Some(
                    CellsModel {
                        step: step_text->0,
                        millis: None,
                        value: trimmed(fields[self.value as int]),
                    },
                ),
            }
        }
    }

    /// The cells of one data row. `None` for rows that do not fit the schema.
    pub fn cells(&self, line: &str) -> (result: Option<RowCells>)
        ensures
            match result {
                Some(cells) => self.cells_of(line@) == Some(cells@),
                None => self.cells_of(line@) is None,
            },
    {
        let row = trim_end(line);
        let fields = split(&row, '\t');
        assert(texts(fields@) == columns(line@));
        assert(fields@.len() == columns(line@).len());
        assert(forall|i: int|
            0 <= i < fields@.len() ==> columns(line@)[i] == (#[trigger] fields@[i])@);
        if self.value >= fields.len() {
            return None;
        }
        let step: i64 = match self.step {
            Some(i) => {
                if i >= fields.len() {
                    return None;
                }
                match parse_i64(&trim(&fields[i])) {
                    Some(step) => step,
                    None => {
                        return None;
                    },
                }
            },
            None => 0,
        };
        let millis = match self.timestamp {
            Some(i) => {
                if i >= fields.len() {
                    return None;
                }
                Some(trim(&fields[i]))
            },
            None => None,
        };
        Some(RowCells { step, millis, value: trim(&fields[self.value]) })
    }

    /// Parses one data row. `None` for rows that do not fit the schema —
    /// the caller counts those as visible data loss, not silence. `number`
    /// reads a text as a double, to its bits; `seconds` turns a double of
    /// milliseconds into one of seconds.
    pub fn parse_row<F: Fn(&str) -> Option<u64>, G: Fn(u64) -> u64>(
        &self,
        line: &str,
        number: &F,
        seconds: &G,
    ) -> (result: Option<TsvRow>)
        requires
            reader_total(*number),
            forall|millis: u64| #[trigger] call_requires(*seconds, (millis,)),
        ensures
            self.cells_of(line@) is None ==> result is None,
            self.cells_of(line@) matches Some(cells) ==> exists|
                value: Option<u64>,
                wall: Option<u64>,
            |
                {
                    &&& #[trigger] reads_as(*number, cells.value, value)
                    &&& #[trigger] wall_read(*number, *seconds, cells.millis, wall)
                    &&& result == row_of(cells.step, wall, value)
                },
    {
        let cells = self.cells(line)?;
        let value = number(&cells.value);
        assert(reads_as(*number, cells@.value, value));
        let wall: Option<u64> = match &cells.millis {
            None => Some(0),
            Some(text) => match number(text) {
                None => {
                    assert(reads_as(*number, text@, None));
                    None
                },
                Some(millis) => {
                    assert(reads_as(*number, text@, Some(millis)));
                    let secs: u64 = seconds(millis);
                    assert(call_ensures(*seconds, (millis,), secs));
                    proof {
                        lemma_wall_read(*number, *seconds, text@, millis, secs);
                    }
                    Some(secs)
                },
            },
        };
        assert(wall_read(*number, *seconds, cells@.millis, wall));
        match (wall, value) {
            (Some(wall), Some(value)) => Some(TsvRow { step: cells.step, wall, value }),
            _ => None,
        }
    }
}

/// `wall` is a possible wall time of a row with that millisecond cell: zero
/// without one, nothing where the cell does not read as a number.
pub open spec fn wall_read<F: Fn(&str) -> Option<u64>, G: Fn(u64) -> u64>(
    number: F,
    seconds: G,
    millis: Option<Seq<char>>,
    wall: Option<u64>,
) -> bool {
    match millis {
        None => wall == Some(0u64),
        Some(text) => match wall {
            None => reads_as(number, text, None),
            Some(secs) => exists|bits: u64|
                reads_as(number, text, Some(bits)) && #[trigger] call_ensures(
                    seconds,
                    (bits,),
                    secs,
                ),
        },
    }
}

/// A cell that reads as a number gives the wall time of that number.
pub proof fn lemma_wall_read<F: Fn(&str) -> Option<u64>, G: Fn(u64) -> u64>(
    number: F,
    seconds: G,
    millis: Seq<char>,
    bits: u64,
    secs: u64,
)
    requires
        reads_as(number, millis, Some(bits)),
        call_ensures(seconds, (bits,), secs),
    ensures
        wall_read(number, seconds, Some(millis), Some(secs)),
{
    assert(exists|b: u64|
        reads_as(number, millis, Some(b)) && #[trigger] call_ensures(seconds, (b,), secs));
    let wall = Some(secs);
    assert(wall->0 == secs);
    assert(wall_read(number, seconds, Some(millis), wall));
}

/// The row of a step, if its wall time and its value could be read.
pub open spec fn row_of(step: i64, wall: Option<u64>, value: Option<u64>) -> Option<TsvRow> {
    match (wall, value) {
        (Some(wall), Some(value)) => Some(TsvRow { step, wall, value }),
        _ => None,
    }
}

/// What the lines of a parameter document come to: the parent in force
/// behind them, the indentation beyond which lines are nested deeper than one
/// level under it, and the raw parameters so far.
#[verifier::ext_equal]
pub struct YamlState {
    pub parent: Option<Seq<char>>,
    pub level: Option<nat>,
    pub params: Seq<(Seq<char>, Seq<char>)>,
}

/// The key and the value of a line with a plain key: what stands before the
/// first colon is a single word.
pub open spec fn yaml_pair(stripped: Seq<char>) -> Option<(Seq<char>, Seq<char>)> {
    match first_index(stripped, ':') {
        None => None,
        Some(i) => {
            let key = trimmed(stripped.take(i));
            let value = trimmed(stripped.skip(i + 1));
            if key.len() == 0 || key.contains(' ') {
                None
            } else {
                Some((key, value))
            }
        },
    }
}

/// The indentation beyond which lines are nested, with one more line that has
/// something under it.
pub open spec fn lower(level: Option<nat>, indent: nat) -> nat {
    match level {
        Some(level) => if level < indent {
            level
        } else {
            indent
        },
        None => indent,
    }
}

/// One line of a parameter document. Blank lines, comments and lines without
/// a colon change nothing. What is indented more than a list item belongs to
/// it. An unindented key ends the parent: a plain one with a value is a
/// parameter, one without a value is the next parent, and what stands under
/// another one is nobody's. The first key under a parent tells how far its
/// children are indented at most: a plain key with a value is a parameter under
/// the parent unless it is indented more, and so nested deeper.
pub open spec fn yaml_line(state: YamlState, line: Seq<char>) -> YamlState {
    let content = trimmed_end(line);
    let stripped = trimmed_start(content);
    let indent = (content.len() - stripped.len()) as nat;
    if stripped.len() == 0 || stripped[0] == '#' {
        state
    } else if stripped[0] == '-' {
        YamlState { level: Some(lower(state.level, indent)), ..state }
    } else if !stripped.contains(':') {
        state
    } else if indent == 0 {
        match yaml_pair(stripped) {
            Some((key, value)) => if value.len() == 0 {
                YamlState { parent: Some(key), level: None, params: state.params }
            } else {
                YamlState { parent: None, level: None, params: state.params.push((key, value)) }
            },
            None => YamlState { parent: None, level: None, params: state.params },
        }
    } else if state.level matches Some(level) && indent > level {
        state
    } else {
        let params = match (state.parent, yaml_pair(stripped)) {
            (Some(parent), Some((key, value))) => if value.len() > 0 {
                state.params.push((parent + seq!['.'] + key, value))
            } else {
                state.params
            },
            _ => state.params,
        };
        let level = match state.level {
            Some(level) => level,
            None => indent,
        };
        YamlState { parent: state.parent, level: Some(level), params }
    }
}

/// The lines of a parameter document, one behind the other.
pub open spec fn yaml_lines(lines: Seq<Seq<char>>) -> YamlState
    decreases lines.len(),
{
    if lines.len() == 0 {
        YamlState { parent: None, level: None, params: Seq::empty() }
    } else {
        yaml_line(yaml_lines(lines.drop_last()), lines.last())
    }
}

/// The raw parameters of a document: flattened keys and value texts.
pub open spec fn yaml_params(text: Seq<char>) -> Seq<(Seq<char>, Seq<char>)> {
    yaml_lines(pieces(text, '\n')).params
}

/// A parameter typed from its raw text.
pub open spec fn typed_param<F: Fn(&str) -> Option<u64>>(
    number: F,
    raw: (Seq<char>, Seq<char>),
    param: (String, ParamValue),
) -> bool {
    &&& param.0@ == raw.0
    &&& exists|reading: Option<u64>| #[trigger]
        reads_as(number, trimmed(raw.1), reading) && param.1@ == param_of(raw.1, reading)
}

fn split_pair(stripped: &str) -> (pair: Option<(String, String)>)
    ensures
        yaml_pair(stripped@) == (match pair {
            Some((key, value)) => Some((key@, value@)),
            None => None,
        }),
{
    proof {
        crate::text::lemma_first_index(stripped@, ':');
    }
    match split_once(stripped, ':') {
        None => None,
        Some((front, back)) => {
            let key = trim(&front);
            let value = trim(&back);
            if key.as_str().is_empty() || contains_char(&key, ' ') {
                None
            } else {
                Some((key, value))
            }
        },
    }
}

/// Parses `params.yaml` — the small subset dvclive and hand-edited files
/// actually use: top-level `key: value` scalars, plus one level of nesting
/// flattened to `parent.child`. Lists, deeper nesting, and YAML exotica are
/// skipped, not guessed at.
pub fn parse_params_yaml<F: Fn(&str) -> Option<u64>>(text: &str, number: &F) -> (params: Vec<
    (String, ParamValue),
>)
    requires
        reader_total(*number),
    ensures
        params@.len() == yaml_params(text@).len(),
        forall|i: int|
            0 <= i < params@.len() ==> typed_param(
                *number,
                yaml_params(text@)[i],
                #[trigger] params@[i],
            ),
{
    let mut params: Vec<(String, ParamValue)> = Vec::new();
    let mut parent: Option<String> = None;
    let mut level: Option<usize> = None;
    let lines = split(text, '\n');
    let ghost all = texts(lines@);
    let mut i: usize = 0;
    assert(all.take(0) =~= Seq::<Seq<char>>::empty());
    while i < lines.len()
        invariant
            i <= lines@.len(),
            all == texts(lines@),
            reader_total(*number),
            yaml_lines(all.take(i as int)).parent == (match parent {
                Some(p) => Some(p@),
                None => None,
            }),
            yaml_lines(all.take(i as int)).level == (match level {
                Some(l) => Some(l as nat),
                None => None,
            }),
            params@.len() == yaml_lines(all.take(i as int)).params.len(),
            forall|k: int|
                0 <= k < params@.len() ==> typed_param(
                    *number,
                    yaml_lines(all.take(i as int)).params[k],
                    #[trigger] params@[k],
                ),
        decreases lines@.len() - i,
    {
        let ghost state = yaml_lines(all.take(i as int));
        proof {
            assert(all.take(i + 1).drop_last() =~= all.take(i as int));
            assert(all.take(i + 1).last() == lines@[i as int]@);
        }
        let content = trim_end(&lines[i]);
        let stripped = trim_start(&content);
        i += 1;
        if stripped.as_str().is_empty() || starts_with_char(&stripped, '#') {
            continue ;
        }
        proof {
            lemma_trimmed_start_len(content@);
        }
        let indent: usize = content.as_str().unicode_len() - stripped.as_str().unicode_len();
        if starts_with_char(&stripped, '-') {
            level = match level {
                Some(l) => if l < indent {
                    Some(l)
                } else {
                    Some(indent)
                },
                None => Some(indent),
            };
            continue ;
        }
        if !contains_char(&stripped, ':') {
            continue ;
        }
        let pair = split_pair(&stripped);
        if indent == 0 {
            level = None;
            match pair {
                Some((key, value)) => {
                    if value.as_str().is_empty() {
                        parent = Some(key);
                    } else {
                        parent = None;
                        let param = ParamValue::parse(&value, number);
                        assert(typed_param(*number, (key@, value@), (key, param)));
                        params.push((key, param));
                    }
                },
                None => {
                    parent = None;
                },
            }
            continue ;
        }
        if let Some(l) = level {
            if indent > l {
                continue ;
            }
        } else {
            level = Some(indent);
        }
        if let (Some(prefix), Some((key, value))) = (&parent, pair) {
            if !value.as_str().is_empty() {
                let mut name = prefix.clone();
                name.push('.');
                push_text(&mut name, &key);
                assert(name@ =~= prefix@ + seq!['.'] + key@);
                let param = ParamValue::parse(&value, number);
                assert(typed_param(*number, (name@, value@), (name, param)));
                params.push((name, param));
            }
        }
    }
    assert(all.take(lines@.len() as int) =~= all);
    params
}

} // verus!
