//! The text and transaction-log backends: dvclive's tailable TSVs, the MLflow
//! file store and wandb's offline logs, each drained into a run from where it
//! was left.
//!
//! The files themselves are read by the caller: a file comes with its length,
//! its modification time and the bytes behind the offset that the state asks
//! for.
use vstd::prelude::*;

use crate::drain::{advance, advanced, complete, complete_len};
use crate::dvclive::{schema_of, TsvSchema};
use crate::hparams::{HparamModel, HparamValue};
use crate::names::NameMap;
use crate::numeric::{Moments, Numeric};
use crate::params::{ParamModel, ParamValue};
use crate::run::{
    convert_param, hparam_of_param, observe_scalar, reset_run, Intake, Run, RunModel, Sink, Stamp,
};
use crate::series::PointStamp;
use crate::text::{decode_text, lines_of, split_lines, text_of, texts, trimmed};
use crate::wandb::{check_header, header_error, payloads, read_records, scan};
use crate::wandb_record::{params_model, WandbModel, WandbRecord};

verus! {

/// A text file of a run, as found on disk.
pub struct TextFile {
    /// Where it is.
    pub path: String,
    /// Its name below the directory that was walked, with `/` between parts.
    pub relative: String,
    /// Its length.
    pub len: u64,
    /// When it was last modified, where that is known.
    pub mtime: Option<Stamp>,
    /// The bytes behind the offset that was asked for; `None` when the file
    /// was gone by then.
    pub tail: Option<Vec<u8>>,
}

/// What a [`TextFile`] holds.
#[verifier::ext_equal]
pub struct TextModel {
    pub path: Seq<char>,
    pub relative: Seq<char>,
    pub len: u64,
    pub mtime: Option<Stamp>,
    pub tail: Option<Seq<u8>>,
}

impl View for TextFile {
    type V = TextModel;

    open spec fn view(&self) -> TextModel {
        TextModel {
            path: self.path@,
            relative: self.relative@,
            len: self.len,
            mtime: self.mtime,
            tail: crate::wandb::option_bytes(self.tail),
        }
    }
}

/// What a list of text files holds.
pub open spec fn text_models(files: Seq<TextFile>) -> Seq<TextModel> {
    files.map_values(|file: TextFile| file@)
}

/// The parameter document of a dvclive root.
pub struct ParamsDocument {
    /// When it was last modified, where that is known.
    pub mtime: Option<Stamp>,
    /// Its text, where it could be read as one.
    pub text: Option<String>,
}

/// What a [`ParamsDocument`] holds.
#[verifier::ext_equal]
pub struct DocumentModel {
    pub mtime: Option<Stamp>,
    pub text: Option<Seq<char>>,
}

impl View for ParamsDocument {
    type V = DocumentModel;

    open spec fn view(&self) -> DocumentModel {
        DocumentModel { mtime: self.mtime, text: crate::mlflow::option_text(self.text) }
    }
}

/// What an optional parameter document holds.
pub open spec fn option_document(document: Option<ParamsDocument>) -> Option<DocumentModel> {
    match document {
        Some(d) => Some(d@),
        None => None,
    }
}

/// A parameter file of an MLflow run.
pub struct ParamFile {
    /// Where it is.
    pub path: String,
    /// Its name below the parameter directory.
    pub relative: String,
    /// Its text, where it could be read as one.
    pub text: Option<String>,
}

/// What a [`ParamFile`] holds.
#[verifier::ext_equal]
pub struct ParamFileModel {
    pub path: Seq<char>,
    pub relative: Seq<char>,
    pub text: Option<Seq<char>>,
}

impl View for ParamFile {
    type V = ParamFileModel;

    open spec fn view(&self) -> ParamFileModel {
        ParamFileModel {
            path: self.path@,
            relative: self.relative@,
            text: crate::mlflow::option_text(self.text),
        }
    }
}

/// What a list of parameter files holds.
pub open spec fn param_models(files: Seq<ParamFile>) -> Seq<ParamFileModel> {
    files.map_values(|file: ParamFile| file@)
}

/// A wandb log, as found on disk.
pub struct LogFile {
    /// Its length.
    pub len: u64,
    /// When it was last modified, where that is known.
    pub mtime: Option<Stamp>,
    /// The bytes behind the offset that was asked for.
    pub tail: Vec<u8>,
}

/// What a [`LogFile`] holds.
#[verifier::ext_equal]
pub struct LogFileModel {
    pub len: u64,
    pub mtime: Option<Stamp>,
    pub tail: Seq<u8>,
}

impl View for LogFile {
    type V = LogFileModel;

    open spec fn view(&self) -> LogFileModel {
        LogFileModel { len: self.len, mtime: self.mtime, tail: self.tail@ }
    }
}

/// What an optional log holds.
pub open spec fn option_log(file: Option<LogFile>) -> Option<LogFileModel> {
    match file {
        Some(f) => Some(f@),
        None => None,
    }
}

/// Resume state for one dvclive root: per-TSV byte offsets (the files are
/// append-only, so the offset after the last complete line is the whole
/// resume story), the column layouts, and the params file's last-seen mtime.
pub struct DvcliveState {
    /// The name of the run.
    pub run: String,
    /// How far each TSV is read.
    pub offsets: NameMap<u64>,
    /// The layout of each TSV.
    pub schemas: NameMap<TsvSchema>,
    /// When the params file that was read last was modified.
    pub params_mtime: Option<Stamp>,
}

/// What a [`DvcliveState`] holds.
#[verifier::ext_equal]
pub struct DvcliveModel {
    pub run: Seq<char>,
    pub offsets: Map<Seq<char>, u64>,
    pub schemas: Map<Seq<char>, TsvSchema>,
    pub params_mtime: Option<Stamp>,
}

impl DvcliveModel {
    /// A root of which nothing was read yet.
    pub open spec fn start(run: Seq<char>) -> DvcliveModel {
        DvcliveModel { run, offsets: Map::empty(), schemas: Map::empty(), params_mtime: None }
    }
}

impl View for DvcliveState {
    type V = DvcliveModel;

    open spec fn view(&self) -> DvcliveModel {
        DvcliveModel {
            run: self.run@,
            offsets: self.offsets.model(),
            schemas: self.schemas.model(),
            params_mtime: self.params_mtime,
        }
    }
}

/// Resume state for one MLflow run dir: per-metric-file offsets and which
/// (immutable) param files have been read.
pub struct MlflowState {
    /// The name of the run.
    pub run: String,
    /// How far each metric file is read.
    pub offsets: NameMap<u64>,
    /// The param files that were read.
    pub params_seen: NameMap<()>,
}

/// What an [`MlflowState`] holds.
#[verifier::ext_equal]
pub struct MlflowModel {
    pub run: Seq<char>,
    pub offsets: Map<Seq<char>, u64>,
    pub params_seen: Map<Seq<char>, ()>,
}

impl MlflowModel {
    /// A run of which nothing was read yet.
    pub open spec fn start(run: Seq<char>) -> MlflowModel {
        MlflowModel { run, offsets: Map::empty(), params_seen: Map::empty() }
    }
}

impl View for MlflowState {
    type V = MlflowModel;

    open spec fn view(&self) -> MlflowModel {
        MlflowModel {
            run: self.run@,
            offsets: self.offsets.model(),
            params_seen: self.params_seen.model(),
        }
    }
}

/// Resume state for one wandb offline run: the committed byte offset into
/// its `.wandb` log (0 until the header is validated) and whether the file
/// was rejected (bad header or newer version — dead, prefix retained).
pub struct WandbState {
    /// The name of the run.
    pub run: String,
    /// How far the log is read.
    pub offset: u64,
    /// Whether the log was rejected.
    pub dead: bool,
}

/// What a [`WandbState`] holds.
#[verifier::ext_equal]
pub struct WandbStateModel {
    pub run: Seq<char>,
    pub offset: u64,
    pub dead: bool,
}

impl WandbStateModel {
    /// A log of which nothing was read yet.
    pub open spec fn start(run: Seq<char>) -> WandbStateModel {
        WandbStateModel { run, offset: 0, dead: false }
    }
}

impl View for WandbState {
    type V = WandbStateModel;

    open spec fn view(&self) -> WandbStateModel {
        WandbStateModel { run: self.run@, offset: self.offset, dead: self.dead }
    }
}

/// The offset under a path; a file without one is read from the start.
pub open spec fn offset_of(offsets: Map<Seq<char>, u64>, path: Seq<char>) -> u64 {
    if offsets.dom().contains(path) {
        offsets[path]
    } else {
        0
    }
}

/// The offset under a path.
pub fn known_offset(offsets: &NameMap<u64>, path: &str) -> (offset: u64)
    requires
        offsets.wf(),
    ensures
        offset == offset_of(offsets.model(), path@),
{
    proof {
        offsets.lemma_model_has(path@);
    }
    match offsets.get(path) {
        Some(offset) => *offset,
        None => 0,
    }
}

/// Whether a file is shorter than what was already read of it.
pub open spec fn shrank(offsets: Map<Seq<char>, u64>, files: Seq<TextModel>) -> bool {
    exists|i: int|
        0 <= i < files.len() && offsets.dom().contains((#[trigger] files[i]).path) && files[i].len
            < offsets[files[i].path]
}

/// Whether a file is shorter than what was already read of it.
pub fn has_shrunk(offsets: &NameMap<u64>, files: &Vec<TextFile>) -> (result: bool)
    requires
        offsets.wf(),
    ensures
        result == shrank(offsets.model(), text_models(files@)),
{
    let ghost models = text_models(files@);
    let mut i: usize = 0;
    while i < files.len()
        invariant
            i <= files@.len(),
            offsets.wf(),
            models == text_models(files@),
            forall|k: int|
                0 <= k < i ==> !(offsets.model().dom().contains((#[trigger] models[k]).path)
                    && models[k].len < offsets.model()[models[k].path]),
        decreases files@.len() - i,
    {
        assert(models[i as int] == files@[i as int]@);
        proof {
            offsets.lemma_model_has(models[i as int].path);
        }
        if let Some(offset) = offsets.get(&files[i].path) {
            if files[i].len < *offset {
                return true;
            }
        }
        i += 1;
    }
    false
}

/// The series that a TSV file is of: its name without the ending.
pub open spec fn tsv_tag(relative: Seq<char>) -> Option<Seq<char>> {
    if relative.len() >= 4 && relative.skip(relative.len() - 4) == ".tsv"@ {
        Some(relative.take(relative.len() - 4))
    } else {
        None
    }
}

/// The series that a TSV file is of.
pub fn tag_of_tsv(relative: &str) -> (tag: Option<String>)
    ensures
        crate::mlflow::option_text(tag) == tsv_tag(relative@),
{
    proof {
        reveal_strlit(".tsv");
    }
    let chars = crate::text::chars_of(relative);
    if chars.len() < 4 {
        return None;
    }
    let front = crate::text::text_between(&chars, 0, chars.len() - 4);
    let ending = crate::text::text_between(&chars, chars.len() - 4, chars.len());
    assert(front@ =~= relative@.take(relative@.len() - 4));
    assert(ending@ =~= relative@.skip(relative@.len() - 4));
    if crate::text::same_text(&ending, ".tsv") {
        Some(front)
    } else {
        None
    }
}

/// Parameters as hyperparameters: a later value wins.
pub open spec fn hparams_of(params: Seq<(Seq<char>, ParamModel)>) -> Map<Seq<char>, HparamModel> {
    with_params(Map::empty(), params)
}

/// Hyperparameters with parameters taken in, one behind the other.
pub open spec fn with_params(
    hparams: Map<Seq<char>, HparamModel>,
    params: Seq<(Seq<char>, ParamModel)>,
) -> Map<Seq<char>, HparamModel>
    decreases params.len(),
{
    if params.len() == 0 {
        hparams
    } else {
        with_params(hparams, params.drop_last()).insert(
            params.last().0,
            hparam_of_param(params.last().1),
        )
    }
}

/// Takes parameters in, one behind the other.
pub fn add_params(hparams: &mut NameMap<HparamValue>, params: &Vec<(String, ParamValue)>)
    requires
        old(hparams).wf(),
    ensures
        final(hparams).wf(),
        final(hparams).model() == with_params(old(hparams).model(), params_model(params@)),
{
    let ghost start = hparams.model();
    let ghost models = params_model(params@);
    let mut i: usize = 0;
    assert(models.take(0) =~= Seq::<(Seq<char>, ParamModel)>::empty());
    while i < params.len()
        invariant
            i <= params@.len(),
            models == params_model(params@),
            hparams.wf(),
            hparams.model() == with_params(start, models.take(i as int)),
        decreases params@.len() - i,
    {
        let ghost before = *hparams;
        let value = convert_param(params[i].1.copy());
        let name = params[i].0.clone();
        hparams.insert(name, value);
        proof {
            hparams.lemma_model_insert(before, name@, value);
            assert(models.take(i + 1).drop_last() =~= models.take(i as int));
            assert(models.take(i + 1).last() == (params@[i as int].0@, params@[i as int].1@));
        }
        i += 1;
    }
    assert(models.take(i as int) =~= models);
}

impl<
    F: Fn(&str) -> Option<u64>,
    G: Fn(u64) -> u64,
    H: Fn(Moments, u64) -> Moments,
> Numeric<F, G, H> {
    /// One row of a TSV file: a point, or a lost record.
    pub open spec fn take_row(
        self,
        intake: Intake,
        name: Seq<char>,
        tag: Seq<char>,
        schema: TsvSchema,
        line: Seq<char>,
    ) -> Intake {
        match self.row(schema, line) {
            Some(row) => self.take_scalar(
                intake,
                name,
                tag,
                PointStamp { step: row.step, wall: row.wall, value: row.value },
            ),
            None => intake.dropped(),
        }
    }

    /// The rows of a TSV file, one behind the other.
    pub open spec fn take_rows(
        self,
        intake: Intake,
        name: Seq<char>,
        tag: Seq<char>,
        schema: TsvSchema,
        lines: Seq<Seq<char>>,
    ) -> Intake
        decreases lines.len(),
    {
        if lines.len() == 0 {
            intake
        } else {
            self.take_row(
                self.take_rows(intake, name, tag, schema, lines.drop_last()),
                name,
                tag,
                schema,
                lines.last(),
            )
        }
    }

    /// One TSV file of a dvclive root, drained from its offset. The first
    /// line of the file is the header; it defines the layout, and a file
    /// whose first line is none is not looked at again.
    pub open spec fn drain_tsv(self, intake: Intake, state: DvcliveModel, file: TextModel) -> (
        Intake,
        DvcliveModel,
    ) {
        match (tsv_tag(file.relative), file.tail) {
            (Some(tag), Some(tail)) => {
                let seen = intake.written(file.mtime);
                let done = complete(tail);
                let offset = offset_of(state.offsets, file.path);
                let lines = lines_of(text_of(tail.take(done as int)));
                let read = DvcliveModel {
                    offsets: state.offsets.insert(file.path, advanced(offset, done)),
                    ..state
                };
                if done == 0 {
                    (seen, state)
                } else if offset == 0 {
                    match first_schema(lines) {
                        Some(schema) => (
                            self.take_rows(seen, state.run, tag, schema, lines.skip(1)),
                            DvcliveModel {
                                schemas: state.schemas.insert(file.path, schema),
                                ..read
                            },
                        ),
                        None => (seen, read),
                    }
                } else if state.schemas.dom().contains(file.path) {
                    (
                        self.take_rows(
                            seen,
                            state.run,
                            tag,
                            state.schemas[file.path],
                            lines,
                        ),
                        read,
                    )
                } else {
                    (seen, state)
                }
            },
            _ => (intake, state),
        }
    }

    /// The TSV files of a dvclive root, one behind the other.
    pub open spec fn drain_tsvs(self, intake: Intake, state: DvcliveModel, files: Seq<TextModel>) -> (
        Intake,
        DvcliveModel,
    )
        decreases files.len(),
    {
        if files.len() == 0 {
            (intake, state)
        } else {
            let (before, at) = self.drain_tsvs(intake, state, files.drop_last());
            self.drain_tsv(before, at, files.last())
        }
    }

    /// The params document of a dvclive root: read where it was modified.
    pub open spec fn take_document(
        self,
        intake: Intake,
        state: DvcliveModel,
        document: Option<DocumentModel>,
    ) -> (Intake, DvcliveModel) {
        match document {
            Some(d) => if d.mtime == state.params_mtime {
                (intake, state)
            } else {
                (
                    match d.text {
                        Some(text) => Intake {
                            run: RunModel { hparams: hparams_of(self.params(text)), ..intake.run },
                            ..intake
                        },
                        None => intake,
                    },
                    DvcliveModel { params_mtime: d.mtime, ..state },
                )
            },
            None => (intake, state),
        }
    }

    /// One dvclive tick: params on change, then every metrics TSV drained
    /// from its committed offset — from the start where one shrank.
    pub open spec fn drain_dvclive(
        self,
        intake: Intake,
        state: DvcliveModel,
        document: Option<DocumentModel>,
        files: Seq<TextModel>,
    ) -> (Intake, DvcliveModel) {
        let (taken, noted) = self.take_document(intake, state, document);
        if shrank(state.offsets, files) {
            self.drain_tsvs(
                taken.reset(state.run),
                DvcliveModel { offsets: Map::empty(), schemas: Map::empty(), ..noted },
                files,
            )
        } else {
            self.drain_tsvs(taken, noted, files)
        }
    }
}

/// The layout that the first line gives.
pub open spec fn first_schema(lines: Seq<Seq<char>>) -> Option<TsvSchema> {
    if lines.len() > 0 {
        schema_of(lines[0])
    } else {
        None
    }
}

/// Takes the rows of a TSV file in, from a line on.
fn take_tsv_rows<
    F: Fn(&str) -> Option<u64>,
    G: Fn(u64) -> u64,
    H: Fn(Moments, u64) -> Moments,
>(
    run: &mut Run,
    sink: &mut Sink,
    name: &str,
    tag: &str,
    schema: &TsvSchema,
    lines: &Vec<String>,
    from: usize,
    numeric: &Numeric<F, G, H>,
)
    requires
        old(run).wf(),
        old(sink).wf(),
        numeric.ok(),
        from <= lines@.len(),
    ensures
        final(run).wf(),
        final(sink).wf(),
        final(sink).with(*final(run)) == numeric.take_rows(
            old(sink).with(*old(run)),
            name@,
            tag@,
            *schema,
            texts(lines@).skip(from as int),
        ),
{
    let ghost all = texts(lines@).skip(from as int);
    let ghost start = sink.with(*run);
    let mut i: usize = from;
    assert(all.take(0) =~= Seq::<Seq<char>>::empty());
    while i < lines.len()
        invariant
            from <= i <= lines@.len(),
            all == texts(lines@).skip(from as int),
            run.wf(),
            sink.wf(),
            numeric.ok(),
            sink.with(*run) == numeric.take_rows(
                start,
                name@,
                tag@,
                *schema,
                all.take(i - from),
            ),
        decreases lines@.len() - i,
    {
        proof {
            assert(all.take(i - from + 1).drop_last() =~= all.take(i - from));
            assert(all.take(i - from + 1).last() == lines@[i as int]@);
        }
        match numeric.parse_row(schema, &lines[i]) {
            Some(row) => {
                observe_scalar(
                    run,
                    sink,
                    name,
                    tag,
                    PointStamp { step: row.step, wall: row.wall, value: row.value },
                    numeric,
                );
            },
            None => {
                sink.report.count_dropped();
            },
        }
        i += 1;
    }
    assert(all.take(i - from) =~= all);
}

/// The complete lines at the front of bytes.
fn complete_lines(bytes: &[u8], done: usize) -> (lines: Vec<String>)
    requires
        done <= bytes@.len(),
    ensures
        texts(lines@) == lines_of(text_of(bytes@.take(done as int))),
{
    let front = vstd::slice::slice_subrange(bytes, 0, done);
    assert(front@ =~= bytes@.take(done as int));
    let text = decode_text(front);
    split_lines(&text)
}

impl DvcliveState {
    /// The maps are in order.
    pub open spec fn wf(self) -> bool {
        &&& self.offsets.wf()
        &&& self.schemas.wf()
    }

    /// A root of which nothing was read yet.
    pub fn new(run: String) -> (state: DvcliveState)
        ensures
            state.wf(),
            state@ == DvcliveModel::start(run@),
    {
        let state = DvcliveState {
            run,
            offsets: NameMap::new(),
            schemas: NameMap::new(),
            params_mtime: None,
        };
        assert(state@.offsets =~= Map::<Seq<char>, u64>::empty());
        assert(state@.schemas =~= Map::<Seq<char>, TsvSchema>::empty());
        state
    }

    /// Where a file of the root is to be read from, as the files stand now:
    /// from the start where one of them shrank.
    pub fn offset(&self, files: &Vec<TextFile>, path: &str) -> (offset: u64)
        requires
            self.wf(),
        ensures
            offset == (if shrank(self@.offsets, text_models(files@)) {
                0
            } else {
                offset_of(self@.offsets, path@)
            }),
    {
        if has_shrunk(&self.offsets, files) {
            0
        } else {
            known_offset(&self.offsets, path)
        }
    }

    /// Drains one TSV file from its offset.
    #[verifier::rlimit(40)]
    fn drain_tsv<
        F: Fn(&str) -> Option<u64>,
        G: Fn(u64) -> u64,
        H: Fn(Moments, u64) -> Moments,
    >(&mut self, run: &mut Run, sink: &mut Sink, file: &TextFile, numeric: &Numeric<F, G, H>)
        requires
            old(self).wf(),
            old(run).wf(),
            old(sink).wf(),
            numeric.ok(),
        ensures
            final(self).wf(),
            final(run).wf(),
            final(sink).wf(),
            (final(sink).with(*final(run)), final(self)@) == numeric.drain_tsv(
                old(sink).with(*old(run)),
                old(self)@,
                file@,
            ),
    {
        let tag = match tag_of_tsv(&file.relative) {
            Some(tag) => tag,
            None => return ,
        };
        let tail = match &file.tail {
            Some(tail) => tail,
            None => return ,
        };
        if let Some(mtime) = file.mtime {
            run.see_write(mtime);
        }
        let done: usize = complete_len(tail);
        if done == 0 {
            return ;
        }
        let offset: u64 = known_offset(&self.offsets, &file.path);
        let lines = complete_lines(tail, done);
        let end: u64 = advance(offset, done);
        let ghost before = *self;
        if offset == 0 {
            let schema = if lines.len() > 0 {
                assert(texts(lines@)[0] == lines@[0]@);
                TsvSchema::from_header(&lines[0])
            } else {
                None
            };
            assert(schema == first_schema(texts(lines@)));
            match schema {
                Some(schema) => {
                    take_tsv_rows(run, sink, &self.run, &tag, &schema, &lines, 1, numeric);
                    self.schemas.insert(file.path.clone(), schema);
                    proof {
                        self.schemas.lemma_model_insert(before.schemas, file.path@, schema);
                    }
                },
                // Not a metrics TSV after all; never look again.
                None => {},
            }
        } else {
            proof {
                self.schemas.lemma_model_has(file.path@);
            }
            match self.schemas.get(&file.path) {
                Some(schema) => {
                    take_tsv_rows(run, sink, &self.run, &tag, schema, &lines, 0, numeric);
                    assert(texts(lines@).skip(0) =~= texts(lines@));
                },
                None => return ,
            }
        }
        self.offsets.insert(file.path.clone(), end);
        proof {
            self.offsets.lemma_model_insert(before.offsets, file.path@, end);
        }
    }

    /// One dvclive tick: params on change, then every metrics TSV drained
    /// from its committed offset.
    pub fn drain<
        F: Fn(&str) -> Option<u64>,
        G: Fn(u64) -> u64,
        H: Fn(Moments, u64) -> Moments,
    >(
        &mut self,
        run: &mut Run,
        sink: &mut Sink,
        document: &Option<ParamsDocument>,
        files: &Vec<TextFile>,
        numeric: &Numeric<F, G, H>,
    )
        requires
            old(self).wf(),
            old(run).wf(),
            old(sink).wf(),
            numeric.ok(),
        ensures
            final(self).wf(),
            final(run).wf(),
            final(sink).wf(),
            (final(sink).with(*final(run)), final(self)@) == numeric.drain_dvclive(
                old(sink).with(*old(run)),
                old(self)@,
                option_document(*document),
                text_models(files@),
            ),
    {
        if let Some(d) = document {
            if d.mtime != self.params_mtime {
                self.params_mtime = d.mtime;
                if let Some(text) = &d.text {
                    let params = numeric.parse_params(text);
                    let mut hparams: NameMap<HparamValue> = NameMap::new();
                    assert(hparams.model() =~= Map::<Seq<char>, HparamModel>::empty());
                    add_params(&mut hparams, &params);
                    run.hparams = hparams;
                }
            }
        }
        if has_shrunk(&self.offsets, files) {
            reset_run(run, sink, &self.run);
            self.offsets = NameMap::new();
            self.schemas = NameMap::new();
            assert(self@.offsets =~= Map::<Seq<char>, u64>::empty());
            assert(self@.schemas =~= Map::<Seq<char>, TsvSchema>::empty());
        }
        let ghost start = (sink.with(*run), self@);
        let ghost all = text_models(files@);
        let mut i: usize = 0;
        assert(all.take(0) =~= Seq::<TextModel>::empty());
        while i < files.len()
            invariant
                i <= files@.len(),
                all == text_models(files@),
                self.wf(),
                run.wf(),
                sink.wf(),
                numeric.ok(),
                (sink.with(*run), self@) == numeric.drain_tsvs(
                    start.0,
                    start.1,
                    all.take(i as int),
                ),
            decreases files@.len() - i,
        {
            proof {
                assert(all.take(i + 1).drop_last() =~= all.take(i as int));
                assert(all.take(i + 1).last() == files@[i as int]@);
            }
            self.drain_tsv(run, sink, &files[i], numeric);
            i += 1;
        }
        assert(all.take(i as int) =~= all);
    }
}

impl<
    F: Fn(&str) -> Option<u64>,
    G: Fn(u64) -> u64,
    H: Fn(Moments, u64) -> Moments,
> Numeric<F, G, H> {
    /// One line of a metric file: a point, or a lost record.
    pub open spec fn take_metric(
        self,
        intake: Intake,
        name: Seq<char>,
        tag: Seq<char>,
        line: Seq<char>,
    ) -> Intake {
        match self.metric(line) {
            Some(metric) => self.take_scalar(
                intake,
                name,
                tag,
                PointStamp { step: metric.step, wall: metric.wall, value: metric.value },
            ),
            None => intake.dropped(),
        }
    }

    /// The lines of a metric file, one behind the other.
    pub open spec fn take_metrics(
        self,
        intake: Intake,
        name: Seq<char>,
        tag: Seq<char>,
        lines: Seq<Seq<char>>,
    ) -> Intake
        decreases lines.len(),
    {
        if lines.len() == 0 {
            intake
        } else {
            self.take_metric(
                self.take_metrics(intake, name, tag, lines.drop_last()),
                name,
                tag,
                lines.last(),
            )
        }
    }

    /// One metric file of an MLflow run, drained from its offset.
    pub open spec fn drain_metric(self, intake: Intake, state: MlflowModel, file: TextModel) -> (
        Intake,
        MlflowModel,
    ) {
        match file.tail {
            Some(tail) => {
                let seen = intake.written(file.mtime);
                let done = complete(tail);
                let offset = offset_of(state.offsets, file.path);
                if done == 0 {
                    (seen, state)
                } else {
                    (
                        self.take_metrics(
                            seen,
                            state.run,
                            file.relative,
                            lines_of(text_of(tail.take(done as int))),
                        ),
                        MlflowModel {
                            offsets: state.offsets.insert(file.path, advanced(offset, done)),
                            ..state
                        },
                    )
                }
            },
            None => (intake, state),
        }
    }

    /// The metric files of an MLflow run, one behind the other.
    pub open spec fn drain_metrics(
        self,
        intake: Intake,
        state: MlflowModel,
        files: Seq<TextModel>,
    ) -> (Intake, MlflowModel)
        decreases files.len(),
    {
        if files.len() == 0 {
            (intake, state)
        } else {
            let (before, at) = self.drain_metrics(intake, state, files.drop_last());
            self.drain_metric(before, at, files.last())
        }
    }

    /// One param file of an MLflow run: read once, they are immutable.
    pub open spec fn take_param(self, intake: Intake, state: MlflowModel, file: ParamFileModel) -> (
        Intake,
        MlflowModel,
    ) {
        if state.params_seen.dom().contains(file.path) {
            (intake, state)
        } else {
            (
                match file.text {
                    Some(text) => Intake {
                        run: RunModel {
                            hparams: intake.run.hparams.insert(
                                file.relative,
                                hparam_of_param(self.typed(trimmed(text))),
                            ),
                            ..intake.run
                        },
                        ..intake
                    },
                    None => intake,
                },
                MlflowModel { params_seen: state.params_seen.insert(file.path, ()), ..state },
            )
        }
    }

    /// The param files of an MLflow run, one behind the other.
    pub open spec fn take_params(
        self,
        intake: Intake,
        state: MlflowModel,
        files: Seq<ParamFileModel>,
    ) -> (Intake, MlflowModel)
        decreases files.len(),
    {
        if files.len() == 0 {
            (intake, state)
        } else {
            let (before, at) = self.take_params(intake, state, files.drop_last());
            self.take_param(before, at, files.last())
        }
    }

    /// One MLflow tick: new param files once, then every metric file drained
    /// from its committed offset — from the start where one shrank.
    pub open spec fn drain_mlflow(
        self,
        intake: Intake,
        state: MlflowModel,
        params: Seq<ParamFileModel>,
        files: Seq<TextModel>,
    ) -> (Intake, MlflowModel) {
        let (taken, noted) = self.take_params(intake, state, params);
        if shrank(state.offsets, files) {
            self.drain_metrics(
                taken.reset(state.run),
                MlflowModel { offsets: Map::empty(), ..noted },
                files,
            )
        } else {
            self.drain_metrics(taken, noted, files)
        }
    }
}

/// Takes the lines of a metric file in.
fn take_metric_lines<
    F: Fn(&str) -> Option<u64>,
    G: Fn(u64) -> u64,
    H: Fn(Moments, u64) -> Moments,
>(
    run: &mut Run,
    sink: &mut Sink,
    name: &str,
    tag: &str,
    lines: &Vec<String>,
    numeric: &Numeric<F, G, H>,
)
    requires
        old(run).wf(),
        old(sink).wf(),
        numeric.ok(),
    ensures
        final(run).wf(),
        final(sink).wf(),
        final(sink).with(*final(run)) == numeric.take_metrics(
            old(sink).with(*old(run)),
            name@,
            tag@,
            texts(lines@),
        ),
{
    let ghost all = texts(lines@);
    let ghost start = sink.with(*run);
    let mut i: usize = 0;
    assert(all.take(0) =~= Seq::<Seq<char>>::empty());
    while i < lines.len()
        invariant
            i <= lines@.len(),
            all == texts(lines@),
            run.wf(),
            sink.wf(),
            numeric.ok(),
            sink.with(*run) == numeric.take_metrics(start, name@, tag@, all.take(i as int)),
        decreases lines@.len() - i,
    {
        proof {
            assert(all.take(i + 1).drop_last() =~= all.take(i as int));
            assert(all.take(i + 1).last() == lines@[i as int]@);
        }
        match numeric.parse_metric(&lines[i]) {
            Some(metric) => {
                observe_scalar(
                    run,
                    sink,
                    name,
                    tag,
                    PointStamp { step: metric.step, wall: metric.wall, value: metric.value },
                    numeric,
                );
            },
            None => {
                sink.report.count_dropped();
            },
        }
        i += 1;
    }
    assert(all.take(i as int) =~= all);
}

impl MlflowState {
    /// The maps are in order.
    pub open spec fn wf(self) -> bool {
        &&& self.offsets.wf()
        &&& self.params_seen.wf()
    }

    /// A run of which nothing was read yet.
    pub fn new(run: String) -> (state: MlflowState)
        ensures
            state.wf(),
            state@ == MlflowModel::start(run@),
    {
        let state = MlflowState { run, offsets: NameMap::new(), params_seen: NameMap::new() };
        assert(state@.offsets =~= Map::<Seq<char>, u64>::empty());
        assert(state@.params_seen =~= Map::<Seq<char>, ()>::empty());
        state
    }

    /// Where a metric file of the run is to be read from, as the files stand
    /// now: from the start where one of them shrank.
    pub fn offset(&self, files: &Vec<TextFile>, path: &str) -> (offset: u64)
        requires
            self.wf(),
        ensures
            offset == (if shrank(self@.offsets, text_models(files@)) {
                0
            } else {
                offset_of(self@.offsets, path@)
            }),
    {
        if has_shrunk(&self.offsets, files) {
            0
        } else {
            known_offset(&self.offsets, path)
        }
    }

    /// Reads one param file, unless it was read before.
    fn take_param<
        F: Fn(&str) -> Option<u64>,
        G: Fn(u64) -> u64,
        H: Fn(Moments, u64) -> Moments,
    >(&mut self, run: &mut Run, sink: &Sink, file: &ParamFile, numeric: &Numeric<F, G, H>)
        requires
            old(self).wf(),
            old(run).wf(),
            numeric.ok(),
        ensures
            final(self).wf(),
            final(run).wf(),
            (sink.with(*final(run)), final(self)@) == numeric.take_param(
                sink.with(*old(run)),
                old(self)@,
                file@,
            ),
    {
        proof {
            self.params_seen.lemma_model_has(file.path@);
        }
        if self.params_seen.contains(&file.path) {
            return ;
        }
        let ghost before = *self;
        self.params_seen.insert(file.path.clone(), ());
        proof {
            self.params_seen.lemma_model_insert(before.params_seen, file.path@, ());
        }
        if let Some(text) = &file.text {
            let ghost known = run.hparams;
            let value = convert_param(numeric.parse_param(text));
            run.hparams.insert(file.relative.clone(), value);
            proof {
                run.hparams.lemma_model_insert(known, file.relative@, value);
            }
        }
    }

    /// Drains one metric file from its offset.
    fn drain_metric<
        F: Fn(&str) -> Option<u64>,
        G: Fn(u64) -> u64,
        H: Fn(Moments, u64) -> Moments,
    >(&mut self, run: &mut Run, sink: &mut Sink, file: &TextFile, numeric: &Numeric<F, G, H>)
        requires
            old(self).wf(),
            old(run).wf(),
            old(sink).wf(),
            numeric.ok(),
        ensures
            final(self).wf(),
            final(run).wf(),
            final(sink).wf(),
            (final(sink).with(*final(run)), final(self)@) == numeric.drain_metric(
                old(sink).with(*old(run)),
                old(self)@,
                file@,
            ),
    {
        let tail = match &file.tail {
            Some(tail) => tail,
            None => return ,
        };
        if let Some(mtime) = file.mtime {
            run.see_write(mtime);
        }
        let done: usize = complete_len(tail);
        if done == 0 {
            return ;
        }
        let offset: u64 = known_offset(&self.offsets, &file.path);
        let lines = complete_lines(tail, done);
        take_metric_lines(run, sink, &self.run, &file.relative, &lines, numeric);
        let ghost before = *self;
        let end: u64 = advance(offset, done);
        self.offsets.insert(file.path.clone(), end);
        proof {
            self.offsets.lemma_model_insert(before.offsets, file.path@, end);
        }
    }

    /// One MLflow tick: new param files once (they are immutable), then every
    /// metric file drained from its committed offset.
    pub fn drain<
        F: Fn(&str) -> Option<u64>,
        G: Fn(u64) -> u64,
        H: Fn(Moments, u64) -> Moments,
    >(
        &mut self,
        run: &mut Run,
        sink: &mut Sink,
        params: &Vec<ParamFile>,
        files: &Vec<TextFile>,
        numeric: &Numeric<F, G, H>,
    )
        requires
            old(self).wf(),
            old(run).wf(),
            old(sink).wf(),
            numeric.ok(),
        ensures
            final(self).wf(),
            final(run).wf(),
            final(sink).wf(),
            (final(sink).with(*final(run)), final(self)@) == numeric.drain_mlflow(
                old(sink).with(*old(run)),
                old(self)@,
                param_models(params@),
                text_models(files@),
            ),
    {
        let ghost given = (sink.with(*run), self@);
        let ghost settings = param_models(params@);
        let mut k: usize = 0;
        assert(settings.take(0) =~= Seq::<ParamFileModel>::empty());
        while k < params.len()
            invariant
                k <= params@.len(),
                settings == param_models(params@),
                self.wf(),
                run.wf(),
                sink.wf(),
                numeric.ok(),
                self@.offsets == given.1.offsets,
                self@.run == given.1.run,
                (sink.with(*run), self@) == numeric.take_params(
                    given.0,
                    given.1,
                    settings.take(k as int),
                ),
            decreases params@.len() - k,
        {
            proof {
                assert(settings.take(k + 1).drop_last() =~= settings.take(k as int));
                assert(settings.take(k + 1).last() == params@[k as int]@);
            }
            self.take_param(run, sink, &params[k], numeric);
            k += 1;
        }
        assert(settings.take(k as int) =~= settings);
        if has_shrunk(&self.offsets, files) {
            reset_run(run, sink, &self.run);
            self.offsets = NameMap::new();
            assert(self@.offsets =~= Map::<Seq<char>, u64>::empty());
        }
        let ghost start = (sink.with(*run), self@);
        let ghost all = text_models(files@);
        let mut i: usize = 0;
        assert(all.take(0) =~= Seq::<TextModel>::empty());
        while i < files.len()
            invariant
                i <= files@.len(),
                all == text_models(files@),
                self.wf(),
                run.wf(),
                sink.wf(),
                numeric.ok(),
                (sink.with(*run), self@) == numeric.drain_metrics(
                    start.0,
                    start.1,
                    all.take(i as int),
                ),
            decreases files@.len() - i,
        {
            proof {
                assert(all.take(i + 1).drop_last() =~= all.take(i as int));
                assert(all.take(i + 1).last() == files@[i as int]@);
            }
            self.drain_metric(run, sink, &files[i], numeric);
            i += 1;
        }
        assert(all.take(i as int) =~= all);
    }
}

impl<
    F: Fn(&str) -> Option<u64>,
    G: Fn(u64) -> u64,
    H: Fn(Moments, u64) -> Moments,
> Numeric<F, G, H> {
    /// The values of a history row, one behind the other.
    pub open spec fn take_history(
        self,
        intake: Intake,
        name: Seq<char>,
        step: i64,
        wall: u64,
        values: Seq<(Seq<char>, u64)>,
    ) -> Intake
        decreases values.len(),
    {
        if values.len() == 0 {
            intake
        } else {
            self.take_scalar(
                self.take_history(intake, name, step, wall, values.drop_last()),
                name,
                values.last().0,
                PointStamp { step, wall, value: values.last().1 },
            )
        }
    }

    /// One record of a wandb log: history rows become scalar points, config
    /// updates become hparams, the exit record marks a clean finish. One that
    /// does not decode is lost, and counted.
    pub open spec fn take_payload(self, intake: Intake, name: Seq<char>, payload: Seq<u8>) -> Intake {
        match self.record(payload) {
            Some(WandbModel::History { step, wall, values }) => self.take_history(
                intake,
                name,
                step,
                wall,
                values,
            ),
            Some(WandbModel::Config(updates)) => Intake {
                run: RunModel {
                    hparams: with_params(intake.run.hparams, updates),
                    ..intake.run
                },
                ..intake
            },
            Some(WandbModel::Exit) => Intake {
                run: RunModel { finished: Some(true), ..intake.run },
                ..intake
            },
            Some(WandbModel::Other) => intake,
            None => intake.dropped(),
        }
    }

    /// The records of a wandb log, one behind the other.
    pub open spec fn take_payloads(
        self,
        intake: Intake,
        name: Seq<char>,
        records: Seq<Seq<u8>>,
    ) -> Intake
        decreases records.len(),
    {
        if records.len() == 0 {
            intake
        } else {
            self.take_payload(
                self.take_payloads(intake, name, records.drop_last()),
                name,
                records.last(),
            )
        }
    }

    /// The bytes of a wandb log behind an offset, taken in record by record.
    pub open spec fn take_log(
        self,
        intake: Intake,
        state: WandbStateModel,
        offset: u64,
        bytes: Seq<u8>,
    ) -> (Intake, WandbStateModel) {
        if offset + bytes.len() > u64::MAX {
            (intake, WandbStateModel { offset, ..state })
        } else {
            let (records, committed) = scan(bytes, offset as int, None, offset as int);
            (
                self.take_payloads(intake, state.run, records),
                WandbStateModel { offset: committed as u64, ..state },
            )
        }
    }

    /// One wandb tick: the header is validated once, then the new bytes past
    /// the committed offset are taken in — from the start where the log was
    /// rewritten shorter.
    pub open spec fn drain_wandb(
        self,
        intake: Intake,
        state: WandbStateModel,
        file: Option<LogFileModel>,
    ) -> (Intake, WandbStateModel) {
        match file {
            Some(log) => if state.dead {
                (intake, state)
            } else {
                let seen = intake.written(log.mtime);
                let fresh = log.len < state.offset;
                let now = if fresh {
                    seen.reset(state.run)
                } else {
                    seen
                };
                let begun = WandbStateModel {
                    offset: if fresh {
                        0
                    } else {
                        state.offset
                    },
                    ..state
                };
                if begun.offset > 0 {
                    self.take_log(now, begun, begun.offset, log.tail)
                } else if log.tail.len() < 7 {
                    (now, begun)
                } else if header_error(log.tail.take(7)) is Some {
                    (now.died(), WandbStateModel { dead: true, ..begun })
                } else {
                    self.take_log(now, begun, 7, log.tail.skip(7))
                }
            },
            None => (intake, state),
        }
    }
}

/// Takes one record of a wandb log in.
fn take_log_record<
    F: Fn(&str) -> Option<u64>,
    G: Fn(u64) -> u64,
    H: Fn(Moments, u64) -> Moments,
>(
    run: &mut Run,
    sink: &mut Sink,
    name: &str,
    payload: &[u8],
    numeric: &Numeric<F, G, H>,
)
    requires
        old(run).wf(),
        old(sink).wf(),
        numeric.ok(),
    ensures
        final(run).wf(),
        final(sink).wf(),
        final(sink).with(*final(run)) == numeric.take_payload(
            old(sink).with(*old(run)),
            name@,
            payload@,
        ),
{
    match numeric.parse_record(payload) {
        Some(WandbRecord::History { step, wall, values }) => {
            let ghost start = sink.with(*run);
            let ghost all = crate::wandb_record::numbers_model(values@);
            let mut i: usize = 0;
            assert(all.take(0) =~= Seq::<(Seq<char>, u64)>::empty());
            while i < values.len()
                invariant
                    i <= values@.len(),
                    all == crate::wandb_record::numbers_model(values@),
                    run.wf(),
                    sink.wf(),
                    numeric.ok(),
                    sink.with(*run) == numeric.take_history(
                        start,
                        name@,
                        step,
                        wall,
                        all.take(i as int),
                    ),
                decreases values@.len() - i,
            {
                proof {
                    assert(all.take(i + 1).drop_last() =~= all.take(i as int));
                    assert(all.take(i + 1).last() == (values@[i as int].0@, values@[i as int].1));
                }
                let value: u64 = values[i].1;
                observe_scalar(
                    run,
                    sink,
                    name,
                    &values[i].0,
                    PointStamp { step, wall, value },
                    numeric,
                );
                i += 1;
            }
            assert(all.take(i as int) =~= all);
        },
        Some(WandbRecord::Config(updates)) => {
            add_params(&mut run.hparams, &updates);
        },
        Some(WandbRecord::Exit) => {
            run.finished = Some(true);
        },
        Some(WandbRecord::Other) => {},
        None => {
            sink.report.count_dropped();
        },
    }
}

impl WandbState {
    /// A log of which nothing was read yet.
    pub fn new(run: String) -> (state: WandbState)
        ensures
            state@ == WandbStateModel::start(run@),
    {
        WandbState { run, offset: 0, dead: false }
    }

    /// Where the log is to be read from, given its length: from the start
    /// where it was rewritten shorter.
    pub fn offset_for(&self, len: u64) -> (offset: u64)
        ensures
            offset == (if len < self@.offset {
                0
            } else {
                self@.offset
            }),
    {
        if len < self.offset {
            0
        } else {
            self.offset
        }
    }

    /// Takes in the bytes of the log behind its offset.
    fn take_log<
        F: Fn(&str) -> Option<u64>,
        G: Fn(u64) -> u64,
        H: Fn(Moments, u64) -> Moments,
    >(&mut self, run: &mut Run, sink: &mut Sink, bytes: &[u8], numeric: &Numeric<F, G, H>)
        requires
            old(run).wf(),
            old(sink).wf(),
            numeric.ok(),
        ensures
            final(run).wf(),
            final(sink).wf(),
            (final(sink).with(*final(run)), final(self)@) == numeric.take_log(
                old(sink).with(*old(run)),
                old(self)@,
                old(self).offset,
                bytes@,
            ),
    {
        if bytes.len() as u64 > u64::MAX - self.offset {
            return ;
        }
        let (records, committed) = read_records(bytes, self.offset);
        let ghost start = sink.with(*run);
        let ghost all = payloads(records@);
        let mut i: usize = 0;
        assert(all.take(0) =~= Seq::<Seq<u8>>::empty());
        while i < records.len()
            invariant
                i <= records@.len(),
                all == payloads(records@),
                run.wf(),
                sink.wf(),
                numeric.ok(),
                sink.with(*run) == numeric.take_payloads(start, self.run@, all.take(i as int)),
            decreases records@.len() - i,
        {
            proof {
                assert(all.take(i + 1).drop_last() =~= all.take(i as int));
                assert(all.take(i + 1).last() == records@[i as int]@);
            }
            take_log_record(run, sink, &self.run, &records[i], numeric);
            i += 1;
        }
        assert(all.take(i as int) =~= all);
        self.offset = committed;
    }

    /// One wandb tick: validate the header once, then parse the new bytes
    /// past the committed offset into records.
    pub fn drain<
        F: Fn(&str) -> Option<u64>,
        G: Fn(u64) -> u64,
        H: Fn(Moments, u64) -> Moments,
    >(
        &mut self,
        run: &mut Run,
        sink: &mut Sink,
        file: &Option<LogFile>,
        numeric: &Numeric<F, G, H>,
    )
        requires
            old(run).wf(),
            old(sink).wf(),
            numeric.ok(),
        ensures
            final(run).wf(),
            final(sink).wf(),
            (final(sink).with(*final(run)), final(self)@) == numeric.drain_wandb(
                old(sink).with(*old(run)),
                old(self)@,
                option_log(*file),
            ),
    {
        let log = match file {
            Some(log) => log,
            None => return ,
        };
        if self.dead {
            return ;
        }
        if let Some(mtime) = log.mtime {
            run.see_write(mtime);
        }
        if log.len < self.offset {
            // Rewritten shorter: honest recovery is a full re-read.
            reset_run(run, sink, &self.run);
            self.offset = 0;
        }
        if self.offset > 0 {
            self.take_log(run, sink, &log.tail, numeric);
            return ;
        }
        if log.tail.len() < 7 {
            return ;
        }
        let header = vstd::slice::slice_subrange(log.tail.as_slice(), 0, 7);
        assert(header@ =~= log.tail@.take(7));
        if check_header(header).is_err() {
            self.dead = true;
            sink.report.count_died();
            return ;
        }
        self.offset = 7;
        let body = vstd::slice::slice_subrange(log.tail.as_slice(), 7, log.tail.len());
        assert(body@ =~= log.tail@.skip(7));
        self.take_log(run, sink, body, numeric);
    }
}

} // verus!
