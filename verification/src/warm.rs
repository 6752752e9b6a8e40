//! The layout of the summary cache: what is written for each run, and what a
//! warm start reads back.
use vstd::prelude::*;

use crate::bytes::{bytes_equal, le32_bytes, le64_bytes, put_bytes};
use crate::cache::{
    byte_of, class_code, class_from, class_of_code, code_of, magic, mtime_bytes, mtime_of,
    option_bytes, option_of, point_bytes, point_of, put_mtime, put_opt_u64, put_point, put_str,
    put_u32, put_u64, string_of, take_of, text_bytes, u32_of, u64_of, CachedFile, CachedModel,
    CachedProject, Cursor,
};
use crate::hparams::{HparamModel, HparamValue};
use crate::names::NameMap;
use crate::numeric::Moments;
use crate::run::{Backend, Run, RunModel, Stamp};
use crate::series::{SegmentSummary, Series, SeriesModel, SeriesSummary};
use crate::text::same_text;

verus! {

/// `n` items behind each other, and the rest.
pub open spec fn list_of<T>(
    bytes: Seq<u8>,
    n: nat,
    item: spec_fn(Seq<u8>) -> Option<(T, Seq<u8>)>,
) -> Option<(Seq<T>, Seq<u8>)>
    decreases n,
{
    if n == 0 {
        Some((Seq::empty(), bytes))
    } else {
        match item(bytes) {
            None => None,
            Some((first, rest)) => match list_of(rest, (n - 1) as nat, item) {
                None => None,
                Some((more, rest)) => Some((seq![first] + more, rest)),
            },
        }
    }
}

/// Items behind their count, and the rest.
pub open spec fn items_of<T>(
    bytes: Seq<u8>,
    item: spec_fn(Seq<u8>) -> Option<(T, Seq<u8>)>,
) -> Option<(Seq<T>, Seq<u8>)> {
    match u32_of(bytes) {
        None => None,
        Some((n, rest)) => list_of(rest, n as nat, item),
    }
}

/// A hyperparameter, and the rest.
pub open spec fn hparam_of(bytes: Seq<u8>) -> Option<((Seq<char>, HparamModel), Seq<u8>)> {
    match string_of(bytes) {
        None => None,
        Some((key, rest)) => match byte_of(rest) {
            None => None,
            Some((mark, rest)) => if mark == 0 {
                match u64_of(rest) {
                    None => None,
                    Some((bits, rest)) => Some(((key, HparamModel::Number(bits)), rest)),
                }
            } else if mark == 1 {
                match string_of(rest) {
                    None => None,
                    Some((text, rest)) => Some(((key, HparamModel::Text(text)), rest)),
                }
            } else if mark == 2 {
                match byte_of(rest) {
                    None => None,
                    Some((truth, rest)) => Some(((key, HparamModel::Truth(truth != 0)), rest)),
                }
            } else {
                None
            },
        },
    }
}

/// Reads a hyperparameter.
pub open spec fn hparam_item() -> spec_fn(Seq<u8>) -> Option<
    ((Seq<char>, HparamModel), Seq<u8>),
> {
    |bytes: Seq<u8>| hparam_of(bytes)
}

/// What a cache says of a file.
#[verifier::ext_equal]
pub struct FileEntry {
    pub path: Seq<char>,
    pub size: u64,
    pub mtime: Stamp,
    pub offset: u64,
}

/// A file, and the rest.
pub open spec fn file_of(bytes: Seq<u8>) -> Option<(FileEntry, Seq<u8>)> {
    match string_of(bytes) {
        None => None,
        Some((path, rest)) => match u64_of(rest) {
            None => None,
            Some((size, rest)) => match mtime_of(rest) {
                None => None,
                Some((mtime, rest)) => match u64_of(rest) {
                    None => None,
                    Some((offset, rest)) => Some((FileEntry { path, size, mtime, offset }, rest)),
                },
            },
        },
    }
}

/// Reads a file.
pub open spec fn file_item() -> spec_fn(Seq<u8>) -> Option<(FileEntry, Seq<u8>)> {
    |bytes: Seq<u8>| file_of(bytes)
}

/// Moments, and the rest.
pub open spec fn moments_of(bytes: Seq<u8>) -> Option<(Moments, Seq<u8>)> {
    match u64_of(bytes) {
        None => None,
        Some((count, rest)) => match u64_of(rest) {
            None => None,
            Some((mean, rest)) => match u64_of(rest) {
                None => None,
                Some((m2, rest)) => Some((Moments { count, mean, m2 }, rest)),
            },
        },
    }
}

/// An optional step, and the rest.
pub open spec fn step_of(bytes: Seq<u8>) -> Option<(Option<i64>, Seq<u8>)> {
    match option_of(bytes) {
        None => None,
        Some((None, rest)) => Some((None, rest)),
        Some((Some(step), rest)) => Some((Some(step as i64), rest)),
    }
}

/// The values of a segment behind its points, and the rest.
pub open spec fn segment_values_of(bytes: Seq<u8>) -> Option<
    ((u64, u64, Moments, u64, u64, Option<i64>), Seq<u8>),
> {
    match u64_of(bytes) {
        None => None,
        Some((min, rest)) => match u64_of(rest) {
            None => None,
            Some((max, rest)) => match moments_of(rest) {
                None => None,
                Some((moments, rest)) => match u64_of(rest) {
                    None => None,
                    Some((count, rest)) => match u64_of(rest) {
                        None => None,
                        Some((non_finite, rest)) => match step_of(rest) {
                            None => None,
                            Some((preempted_at, rest)) => Some(
                                ((min, max, moments, count, non_finite, preempted_at), rest),
                            ),
                        },
                    },
                },
            },
        },
    }
}

/// A segment, and the rest.
pub open spec fn segment_of(bytes: Seq<u8>) -> Option<(SegmentSummary, Seq<u8>)> {
    match point_of(bytes) {
        None => None,
        Some((first, rest)) => match point_of(rest) {
            None => None,
            Some((last, rest)) => match segment_values_of(rest) {
                None => None,
                Some((values, rest)) => Some(
                    (
                        SegmentSummary {
                            first,
                            last,
                            min: values.0,
                            max: values.1,
                            moments: values.2,
                            count: values.3,
                            non_finite: values.4,
                            preempted_at: values.5,
                        },
                        rest,
                    ),
                ),
            },
        },
    }
}

/// Reads a segment.
pub open spec fn segment_item() -> spec_fn(Seq<u8>) -> Option<(SegmentSummary, Seq<u8>)> {
    |bytes: Seq<u8>| segment_of(bytes)
}

/// An optional plugin name, and the rest.
pub open spec fn plugin_of(bytes: Seq<u8>) -> Option<(Option<Seq<char>>, Seq<u8>)> {
    match byte_of(bytes) {
        None => None,
        Some((mark, rest)) => if mark == 0 {
            Some((None, rest))
        } else if mark == 1 {
            match string_of(rest) {
                None => None,
                Some((plugin, rest)) => Some((Some(plugin), rest)),
            }
        } else {
            None
        },
    }
}

/// A series under its tag, and the rest.
pub open spec fn series_of(bytes: Seq<u8>) -> Option<((Seq<char>, SeriesModel), Seq<u8>)> {
    match string_of(bytes) {
        None => None,
        Some((tag, rest)) => match byte_of(rest) {
            None => None,
            Some((code, rest)) => match class_of_code(code) {
                None => None,
                Some(class) => match plugin_of(rest) {
                    None => None,
                    Some((plugin, rest)) => match items_of(rest, segment_item()) {
                        None => None,
                        Some((segments, rest)) => Some(
                            ((tag, SeriesModel { class, plugin, segments }), rest),
                        ),
                    },
                },
            },
        },
    }
}

/// Reads a series.
pub open spec fn series_item() -> spec_fn(Seq<u8>) -> Option<((Seq<char>, SeriesModel), Seq<u8>)> {
    |bytes: Seq<u8>| series_of(bytes)
}

/// What a cache says of a run.
#[verifier::ext_equal]
pub struct RunEntry {
    pub name: Seq<char>,
    pub dir: Seq<char>,
    pub hparams: Seq<(Seq<char>, HparamModel)>,
    pub first_wall: Option<u64>,
    pub last_wall: Option<u64>,
    pub preemptions: u64,
    pub files: Seq<FileEntry>,
    pub series: Seq<(Seq<char>, SeriesModel)>,
}

/// The walls and the preemptions of a run, and the rest.
pub open spec fn walls_of(bytes: Seq<u8>) -> Option<((Option<u64>, Option<u64>, u64), Seq<u8>)> {
    match option_of(bytes) {
        None => None,
        Some((first_wall, rest)) => match option_of(rest) {
            None => None,
            Some((last_wall, rest)) => match u64_of(rest) {
                None => None,
                Some((preemptions, rest)) => Some(((first_wall, last_wall, preemptions), rest)),
            },
        },
    }
}

/// A run, and the rest.
pub open spec fn run_of(bytes: Seq<u8>) -> Option<(RunEntry, Seq<u8>)> {
    match string_of(bytes) {
        None => None,
        Some((name, rest)) => match string_of(rest) {
            None => None,
            Some((dir, rest)) => match items_of(rest, hparam_item()) {
                None => None,
                Some((hparams, rest)) => match walls_of(rest) {
                    None => None,
                    Some((walls, rest)) => match items_of(rest, file_item()) {
                        None => None,
                        Some((files, rest)) => match items_of(rest, series_item()) {
                            None => None,
                            Some((series, rest)) => Some(
                                (
                                    RunEntry {
                                        name,
                                        dir,
                                        hparams,
                                        first_wall: walls.0,
                                        last_wall: walls.1,
                                        preemptions: walls.2,
                                        files,
                                        series,
                                    },
                                    rest,
                                ),
                            ),
                        },
                    },
                },
            },
        },
    }
}

/// Reads a run.
pub open spec fn run_item() -> spec_fn(Seq<u8>) -> Option<(RunEntry, Seq<u8>)> {
    |bytes: Seq<u8>| run_of(bytes)
}

/// The items behind the magic: nothing where the magic is another one,
/// anything does not parse, or bytes are left over.
pub open spec fn whole_of<T>(
    bytes: Seq<u8>,
    item: spec_fn(Seq<u8>) -> Option<(T, Seq<u8>)>,
) -> Option<Seq<T>> {
    match take_of(bytes, 8) {
        None => None,
        Some((front, rest)) => if front != magic() {
            None
        } else {
            match items_of(rest, item) {
                None => None,
                Some((items, rest)) => if rest.len() == 0 {
                    Some(items)
                } else {
                    None
                },
            }
        },
    }
}

/// The runs of a cache.
pub open spec fn cache_of(bytes: Seq<u8>) -> Option<Seq<RunEntry>> {
    whole_of(bytes, run_item())
}

/// The map of named values: a later one wins.
pub open spec fn map_of<V>(pairs: Seq<(Seq<char>, V)>) -> Map<Seq<char>, V>
    decreases pairs.len(),
{
    if pairs.len() == 0 {
        Map::empty()
    } else {
        map_of(pairs.drop_last()).insert(pairs.last().0, pairs.last().1)
    }
}

impl RunEntry {
    /// The run that is restored: the cache stores tfevents state only, other
    /// backends re-read cold.
    pub open spec fn run(self) -> RunModel {
        RunModel {
            backend: Backend::Tfevents,
            dir: self.dir,
            hparams: map_of(self.hparams),
            series: map_of(self.series),
            first_wall: self.first_wall,
            last_wall: self.last_wall,
            last_write: None,
            finished: None,
            preemptions: self.preemptions,
        }
    }
}

/// The cached file of an entry of a run.
pub open spec fn cached_of(run: Seq<char>, file: FileEntry) -> CachedModel {
    CachedModel { run, size: file.size, mtime: file.mtime, offset: file.offset }
}

/// Cached files with those of a run.
pub open spec fn with_files(
    files: Map<Seq<char>, CachedModel>,
    run: Seq<char>,
    more: Seq<FileEntry>,
) -> Map<Seq<char>, CachedModel>
    decreases more.len(),
{
    if more.len() == 0 {
        files
    } else {
        with_files(files, run, more.drop_last()).insert(
            more.last().path,
            cached_of(run, more.last()),
        )
    }
}

/// The files of the runs of a cache.
pub open spec fn files_of(runs: Seq<RunEntry>) -> Map<Seq<char>, CachedModel>
    decreases runs.len(),
{
    if runs.len() == 0 {
        Map::empty()
    } else {
        with_files(files_of(runs.drop_last()), runs.last().name, runs.last().files)
    }
}

/// The runs of a cache, by name.
pub open spec fn runs_of(runs: Seq<RunEntry>) -> Map<Seq<char>, RunModel> {
    map_of(runs.map_values(|entry: RunEntry| (entry.name, entry.run())))
}

proof fn lemma_list_step<T>(
    bytes: Seq<u8>,
    n: nat,
    item: spec_fn(Seq<u8>) -> Option<(T, Seq<u8>)>,
    done: Seq<T>,
)
    requires
        n > 0,
    ensures
        match item(bytes) {
            None => list_of(bytes, n, item) is None,
            Some((first, rest)) => match list_of(rest, (n - 1) as nat, item) {
                None => list_of(bytes, n, item) is None,
                Some((more, end)) => list_of(bytes, n, item) matches Some((all, last)) && last
                    == end && done + all == done.push(first) + more,
            },
        },
{
    if let Some((first, rest)) = item(bytes) {
        if let Some((more, end)) = list_of(rest, (n - 1) as nat, item) {
            assert(done + (seq![first] + more) =~= done.push(first) + more);
        }
    }
}

/// What is left to read gives, behind what was read, the whole list.
pub open spec fn goes_on<T>(
    whole: Option<(Seq<T>, Seq<u8>)>,
    done: Seq<T>,
    left: Option<(Seq<T>, Seq<u8>)>,
) -> bool {
    match left {
        None => whole is None,
        Some((more, rest)) => whole == Some((done + more, rest)),
    }
}

/// Reads a hyperparameter.
fn read_hparam(cursor: &mut Cursor) -> (result: Option<(String, HparamValue)>)
    requires
        old(cursor).wf(),
    ensures
        final(cursor).wf(),
        match result {
            Some((key, value)) => hparam_of(old(cursor).rest()) == Some(
                ((key@, value@), final(cursor).rest()),
            ),
            None => hparam_of(old(cursor).rest()) is None,
        },
{
    let key = cursor.string()?;
    let value = match cursor.byte()? {
        0 => HparamValue::F64(cursor.u64()?),
        1 => HparamValue::String(cursor.string()?),
        2 => HparamValue::Bool(cursor.byte()? != 0),
        _ => return None,
    };
    Some((key, value))
}

/// Reads the hyperparameters of a run.
fn read_hparams(cursor: &mut Cursor) -> (result: Option<NameMap<HparamValue>>)
    requires
        old(cursor).wf(),
    ensures
        final(cursor).wf(),
        match result {
            Some(map) => items_of(old(cursor).rest(), hparam_item()) matches Some((pairs, rest))
                && rest == final(cursor).rest() && map.wf() && map.model() == map_of(pairs),
            None => items_of(old(cursor).rest(), hparam_item()) is None,
        },
{
    let n: u32 = cursor.u32()?;
    let ghost start = cursor.rest();
    let ghost whole = list_of(start, n as nat, hparam_item());
    let ghost mut done: Seq<(Seq<char>, HparamModel)> = Seq::empty();
    let mut map: NameMap<HparamValue> = NameMap::new();
    let mut i: u32 = 0;
    proof {
        assert(map.model() =~= map_of(done));
        if let Some((more, rest)) = whole {
            assert(done + more =~= more);
        }
    }
    while i < n
        invariant
            i <= n,
            cursor.wf(),
            map.wf(),
            map.model() == map_of(done),
            goes_on(whole, done, list_of(cursor.rest(), (n - i) as nat, hparam_item())),
            whole == list_of(start, n as nat, hparam_item()),
            items_of(old(cursor).rest(), hparam_item()) == whole,
        decreases n - i,
    {
        proof {
            lemma_list_step(cursor.rest(), (n - i) as nat, hparam_item(), done);
        }
        let (key, value) = read_hparam(cursor)?;
        let ghost before = map;
        map.insert(key, value);
        proof {
            map.lemma_model_insert(before, key@, value);
            let next = done.push((key@, value@));
            assert(next.drop_last() =~= done);
            done = next;
        }
        i += 1;
    }
    proof {
        assert(done + Seq::<(Seq<char>, HparamModel)>::empty() =~= done);
    }
    Some(map)
}

/// Reads the files of a run into the cached files.
fn read_files(cursor: &mut Cursor, files: &mut NameMap<CachedFile>, run: &str) -> (result: Option<()>)
    requires
        old(cursor).wf(),
        old(files).wf(),
    ensures
        final(cursor).wf(),
        final(files).wf(),
        match result {
            Some(_) => items_of(old(cursor).rest(), file_item()) matches Some((entries, rest))
                && rest == final(cursor).rest() && final(files).model() == with_files(
                old(files).model(),
                run@,
                entries,
            ),
            None => items_of(old(cursor).rest(), file_item()) is None,
        },
{
    let n: u32 = cursor.u32()?;
    let ghost whole = list_of(cursor.rest(), n as nat, file_item());
    let ghost mut done: Seq<FileEntry> = Seq::empty();
    let mut i: u32 = 0;
    proof {
        if let Some((more, rest)) = whole {
            assert(done + more =~= more);
        }
    }
    while i < n
        invariant
            i <= n,
            cursor.wf(),
            files.wf(),
            files.model() == with_files(old(files).model(), run@, done),
            goes_on(whole, done, list_of(cursor.rest(), (n - i) as nat, file_item())),
            items_of(old(cursor).rest(), file_item()) == whole,
        decreases n - i,
    {
        proof {
            lemma_list_step(cursor.rest(), (n - i) as nat, file_item(), done);
        }
        let path = cursor.string()?;
        let size: u64 = cursor.u64()?;
        let mtime = cursor.mtime()?;
        let offset: u64 = cursor.u64()?;
        let ghost before = *files;
        let file = CachedFile { run: run.to_owned(), size, mtime, offset };
        files.insert(path, file);
        proof {
            files.lemma_model_insert(before, path@, file);
            let next = done.push(FileEntry { path: path@, size, mtime, offset });
            assert(next.drop_last() =~= done);
            done = next;
        }
        i += 1;
    }
    proof {
        assert(done + Seq::<FileEntry>::empty() =~= done);
    }
    Some(())
}

/// Reads a segment.
fn read_segment(cursor: &mut Cursor) -> (result: Option<SegmentSummary>)
    requires
        old(cursor).wf(),
    ensures
        final(cursor).wf(),
        match result {
            Some(segment) => segment_of(old(cursor).rest()) == Some(
                (segment, final(cursor).rest()),
            ),
            None => segment_of(old(cursor).rest()) is None,
        },
{
    let first = cursor.point()?;
    let last = cursor.point()?;
    let min: u64 = cursor.u64()?;
    let max: u64 = cursor.u64()?;
    let seen: u64 = cursor.u64()?;
    let mean: u64 = cursor.u64()?;
    let m2: u64 = cursor.u64()?;
    let count: u64 = cursor.u64()?;
    let non_finite: u64 = cursor.u64()?;
    let preempted_at = match cursor.opt_u64()? {
        Some(step) => Some(step as i64),
        None => None,
    };
    Some(
        SegmentSummary {
            first,
            last,
            min,
            max,
            moments: Moments { count: seen, mean, m2 },
            count,
            non_finite,
            preempted_at,
        },
    )
}

/// Reads the segments of a series.
fn read_segments(cursor: &mut Cursor) -> (result: Option<Vec<SegmentSummary>>)
    requires
        old(cursor).wf(),
    ensures
        final(cursor).wf(),
        match result {
            Some(segments) => items_of(old(cursor).rest(), segment_item()) == Some(
                (segments@, final(cursor).rest()),
            ),
            None => items_of(old(cursor).rest(), segment_item()) is None,
        },
{
    let n: u32 = cursor.u32()?;
    let ghost whole = list_of(cursor.rest(), n as nat, segment_item());
    let mut segments: Vec<SegmentSummary> = Vec::new();
    let mut i: u32 = 0;
    proof {
        if let Some((more, rest)) = whole {
            assert(segments@ + more =~= more);
        }
    }
    while i < n
        invariant
            i <= n,
            cursor.wf(),
            goes_on(whole, segments@, list_of(cursor.rest(), (n - i) as nat, segment_item())),
            items_of(old(cursor).rest(), segment_item()) == whole,
        decreases n - i,
    {
        proof {
            lemma_list_step(cursor.rest(), (n - i) as nat, segment_item(), segments@);
        }
        let segment = read_segment(cursor)?;
        segments.push(segment);
        i += 1;
    }
    proof {
        assert(segments@ + Seq::<SegmentSummary>::empty() =~= segments@);
    }
    Some(segments)
}

/// Reads a series under its tag.
fn read_series(cursor: &mut Cursor) -> (result: Option<(String, Series)>)
    requires
        old(cursor).wf(),
    ensures
        final(cursor).wf(),
        match result {
            Some((tag, series)) => series_of(old(cursor).rest()) == Some(
                ((tag@, series@), final(cursor).rest()),
            ),
            None => series_of(old(cursor).rest()) is None,
        },
{
    let tag = cursor.string()?;
    let class = class_from(cursor.byte()?)?;
    let plugin = match cursor.byte()? {
        0 => None,
        1 => Some(cursor.string()?),
        _ => return None,
    };
    let segments = read_segments(cursor)?;
    Some((tag, Series { class, plugin, summary: SeriesSummary { segments } }))
}

/// Reads the series of a run.
fn read_series_map(cursor: &mut Cursor) -> (result: Option<NameMap<Series>>)
    requires
        old(cursor).wf(),
    ensures
        final(cursor).wf(),
        match result {
            Some(map) => items_of(old(cursor).rest(), series_item()) matches Some((pairs, rest))
                && rest == final(cursor).rest() && map.wf() && map.model() == map_of(pairs),
            None => items_of(old(cursor).rest(), series_item()) is None,
        },
{
    let n: u32 = cursor.u32()?;
    let ghost whole = list_of(cursor.rest(), n as nat, series_item());
    let ghost mut done: Seq<(Seq<char>, SeriesModel)> = Seq::empty();
    let mut map: NameMap<Series> = NameMap::new();
    let mut i: u32 = 0;
    proof {
        assert(map.model() =~= map_of(done));
        if let Some((more, rest)) = whole {
            assert(done + more =~= more);
        }
    }
    while i < n
        invariant
            i <= n,
            cursor.wf(),
            map.wf(),
            map.model() == map_of(done),
            goes_on(whole, done, list_of(cursor.rest(), (n - i) as nat, series_item())),
            items_of(old(cursor).rest(), series_item()) == whole,
        decreases n - i,
    {
        proof {
            lemma_list_step(cursor.rest(), (n - i) as nat, series_item(), done);
        }
        let (tag, series) = read_series(cursor)?;
        let ghost before = map;
        map.insert(tag, series);
        proof {
            map.lemma_model_insert(before, tag@, series);
            let next = done.push((tag@, series@));
            assert(next.drop_last() =~= done);
            done = next;
        }
        i += 1;
    }
    proof {
        assert(done + Seq::<(Seq<char>, SeriesModel)>::empty() =~= done);
    }
    Some(map)
}

/// Every run of a map is in order.
pub open spec fn runs_wf(runs: NameMap<Run>) -> bool {
    &&& runs.wf()
    &&& forall|i: int| 0 <= i < runs.values().len() ==> (#[trigger] runs.values()[i]).wf()
}

/// A sound run put into a map of sound runs.
proof fn lemma_runs_insert(runs: NameMap<Run>, before: NameMap<Run>, at: int, run: Run)
    requires
        runs_wf(before),
        runs.wf(),
        run.wf(),
        runs.values() == before.values().update(at, run) && 0 <= at < before.values().len()
            || runs.values() == before.values().insert(at, run) && 0 <= at
            <= before.values().len(),
    ensures
        runs_wf(runs),
{
    assert forall|i: int| 0 <= i < runs.values().len() implies (#[trigger] runs.values()[i]).wf() by {
        if i != at {
            if runs.values().len() == before.values().len() {
                assert(runs.values()[i] == before.values()[i]);
            } else if i < at {
                assert(runs.values()[i] == before.values()[i]);
            } else {
                assert(runs.values()[i] == before.values()[i - 1]);
            }
        }
    }
}

/// Puts a run under a name.
pub fn put_run(runs: &mut NameMap<Run>, name: String, run: Run)
    requires
        runs_wf(*old(runs)),
        run.wf(),
    ensures
        runs_wf(*final(runs)),
        final(runs).model() == old(runs).model().insert(name@, run@),
{
    let ghost before = *runs;
    let ghost key = name@;
    let at: usize = runs.insert(name, run);
    proof {
        runs.lemma_model_insert(before, key, run);
        if before.has(key) {
            before.lemma_index(before.index_of(key));
        }
        lemma_runs_insert(*runs, before, at as int, run);
    }
}

/// Reads a cache. `None` on any surprise — a stale-versioned or torn cache
/// simply means a cold start.
#[verifier::rlimit(40)]
pub fn load(bytes: &[u8]) -> (result: Option<CachedProject>)
    ensures
        match result {
            Some(cached) => {
                &&& cache_of(bytes@) matches Some(entries)
                &&& runs_wf(cached.runs)
                &&& cached.files.wf()
                &&& cached.runs.model() == runs_of(entries)
                &&& cached.files.model() == files_of(entries)
            },
            None => cache_of(bytes@) is None,
        },
{
    let mut cursor = Cursor::new(bytes);
    let front = cursor.take(8)?;
    let expected: [u8; 8] = [0x56, 0x54, 0x56, 0x43, 0x41, 0x43, 0x48, 0x31];
    assert(expected@ =~= magic());
    if !bytes_equal(front, &expected) {
        return None;
    }
    let ghost behind = cursor.rest();
    let n: u32 = cursor.u32()?;
    let ghost whole = list_of(cursor.rest(), n as nat, run_item());
    let ghost mut done: Seq<RunEntry> = Seq::empty();
    let mut runs: NameMap<Run> = NameMap::new();
    let mut files: NameMap<CachedFile> = NameMap::new();
    let mut i: u32 = 0;
    proof {
        assert(runs.model() =~= runs_of(done));
        assert(files.model() =~= files_of(done));
        if let Some((more, rest)) = whole {
            assert(done + more =~= more);
        }
    }
    while i < n
        invariant
            i <= n,
            cursor.wf(),
            runs_wf(runs),
            files.wf(),
            runs.model() == runs_of(done),
            files.model() == files_of(done),
            goes_on(whole, done, list_of(cursor.rest(), (n - i) as nat, run_item())),
            items_of(behind, run_item()) == whole,
            take_of(bytes@, 8) == Some((magic(), behind)),
        decreases n - i,
    {
        let ghost at = cursor.rest();
        proof {
            lemma_list_step(cursor.rest(), (n - i) as nat, run_item(), done);
        }
        let name = cursor.string()?;
        let dir = cursor.string()?;
        let ghost at_hparams = cursor.rest();
        let hparams = read_hparams(&mut cursor)?;
        let first_wall = cursor.opt_u64()?;
        let last_wall = cursor.opt_u64()?;
        let preemptions: u64 = cursor.u64()?;
        let ghost at_files = cursor.rest();
        read_files(&mut cursor, &mut files, &name)?;
        let ghost at_series = cursor.rest();
        let series = read_series_map(&mut cursor)?;
        let ghost entry = RunEntry {
            name: name@,
            dir: dir@,
            hparams: (items_of(at_hparams, hparam_item())->0).0,
            first_wall,
            last_wall,
            preemptions,
            files: (items_of(at_files, file_item())->0).0,
            series: (items_of(at_series, series_item())->0).0,
        };
        assert(run_of(at) == Some((entry, cursor.rest())));
        let run = Run {
            backend: Backend::Tfevents,
            dir,
            hparams,
            series,
            first_wall,
            last_wall,
            last_write: None,
            finished: None,
            preemptions,
        };
        assert(run@ == entry.run());
        put_run(&mut runs, name, run);
        proof {
            let next = done.push(entry);
            assert(next.drop_last() =~= done);
            let pair = |e: RunEntry| (e.name, e.run());
            assert(next.map_values(pair).drop_last() =~= done.map_values(pair));
            assert(next.map_values(pair).last() == (entry.name, entry.run()));
            done = next;
        }
        i += 1;
    }
    proof {
        assert(done + Seq::<RunEntry>::empty() =~= done);
    }
    if !cursor.at_end() {
        return None;
    }
    Some(CachedProject { runs, files })
}

/// The bytes of items behind each other.
pub open spec fn list_bytes<T>(items: Seq<T>, item: spec_fn(T) -> Seq<u8>) -> Seq<u8>
    decreases items.len(),
{
    if items.len() == 0 {
        Seq::empty()
    } else {
        list_bytes(items.drop_last(), item) + item(items.last())
    }
}

/// The bytes of items behind their count.
pub open spec fn items_bytes<T>(items: Seq<T>, item: spec_fn(T) -> Seq<u8>) -> Seq<u8> {
    le32_bytes(items.len() as u32) + list_bytes(items, item)
}

/// The bytes of a hyperparameter.
pub open spec fn hparam_bytes(hparam: (Seq<char>, HparamModel)) -> Seq<u8> {
    text_bytes(hparam.0) + (match hparam.1 {
        HparamModel::Number(bits) => seq![0u8] + le64_bytes(bits),
        HparamModel::Text(text) => seq![1u8] + text_bytes(text),
        HparamModel::Truth(truth) => seq![
            2u8,
            if truth {
                1u8
            } else {
                0u8
            },
        ],
    })
}

/// Writes a hyperparameter.
pub open spec fn hparam_writer() -> spec_fn((Seq<char>, HparamModel)) -> Seq<u8> {
    |hparam: (Seq<char>, HparamModel)| hparam_bytes(hparam)
}

/// The bytes of a file.
pub open spec fn file_bytes(file: FileEntry) -> Seq<u8> {
    text_bytes(file.path) + (le64_bytes(file.size) + (mtime_bytes(file.mtime) + le64_bytes(
        file.offset,
    )))
}

/// Writes a file.
pub open spec fn file_writer() -> spec_fn(FileEntry) -> Seq<u8> {
    |file: FileEntry| file_bytes(file)
}

/// The bytes of moments.
pub open spec fn moments_bytes(moments: Moments) -> Seq<u8> {
    le64_bytes(moments.count) + (le64_bytes(moments.mean) + le64_bytes(moments.m2))
}

/// The bytes of an optional step.
pub open spec fn step_bytes(step: Option<i64>) -> Seq<u8> {
    option_bytes(
        match step {
            Some(s) => Some(s as u64),
            None => None,
        },
    )
}

/// The bytes of a segment's values behind its points.
pub open spec fn segment_values_bytes(segment: SegmentSummary) -> Seq<u8> {
    le64_bytes(segment.min) + (le64_bytes(segment.max) + (moments_bytes(segment.moments) + (
    le64_bytes(segment.count) + (le64_bytes(segment.non_finite) + step_bytes(
        segment.preempted_at,
    )))))
}

/// The bytes of a segment.
pub open spec fn segment_bytes(segment: SegmentSummary) -> Seq<u8> {
    point_bytes(segment.first) + (point_bytes(segment.last) + segment_values_bytes(segment))
}

/// Writes a segment.
pub open spec fn segment_writer() -> spec_fn(SegmentSummary) -> Seq<u8> {
    |segment: SegmentSummary| segment_bytes(segment)
}

/// The bytes of an optional plugin name.
pub open spec fn plugin_bytes(plugin: Option<Seq<char>>) -> Seq<u8> {
    match plugin {
        Some(p) => seq![1u8] + text_bytes(p),
        None => seq![0u8],
    }
}

/// The bytes of a series under its tag.
pub open spec fn series_bytes(series: (Seq<char>, SeriesModel)) -> Seq<u8> {
    text_bytes(series.0) + (seq![code_of(series.1.class)] + (plugin_bytes(series.1.plugin)
        + items_bytes(series.1.segments, segment_writer())))
}

/// Writes a series.
pub open spec fn series_writer() -> spec_fn((Seq<char>, SeriesModel)) -> Seq<u8> {
    |series: (Seq<char>, SeriesModel)| series_bytes(series)
}

/// The bytes of the walls and the preemptions of a run.
pub open spec fn walls_bytes(run: RunEntry) -> Seq<u8> {
    option_bytes(run.first_wall) + (option_bytes(run.last_wall) + le64_bytes(run.preemptions))
}

/// The bytes of a run.
pub open spec fn run_bytes(run: RunEntry) -> Seq<u8> {
    text_bytes(run.name) + (text_bytes(run.dir) + (items_bytes(run.hparams, hparam_writer()) + (
    walls_bytes(run) + (items_bytes(run.files, file_writer()) + items_bytes(
        run.series,
        series_writer(),
    )))))
}

/// Writes a run.
pub open spec fn run_writer() -> spec_fn(RunEntry) -> Seq<u8> {
    |run: RunEntry| run_bytes(run)
}

/// The bytes of a cache.
pub open spec fn cache_bytes(runs: Seq<RunEntry>) -> Seq<u8> {
    magic() + items_bytes(runs, run_writer())
}

/// A live file to save: its identity now, and how far it is read.
pub struct SavedFile {
    /// Where it is.
    pub path: String,
    /// The name of its run.
    pub run: String,
    /// Its size.
    pub size: u64,
    /// When it was modified.
    pub mtime: Stamp,
    /// The committed offset.
    pub offset: u64,
}

/// What a [`SavedFile`] holds: its run, and what the cache says of it.
pub open spec fn saved_model(file: SavedFile) -> (Seq<char>, FileEntry) {
    (
        file.run@,
        FileEntry {
            path: file.path@,
            size: file.size,
            mtime: file.mtime,
            offset: file.offset,
        },
    )
}

/// What a list of files to save holds.
pub open spec fn saved_models(files: Seq<SavedFile>) -> Seq<(Seq<char>, FileEntry)> {
    files.map_values(|file: SavedFile| saved_model(file))
}

/// The files of one run, in order.
pub open spec fn files_under(files: Seq<(Seq<char>, FileEntry)>, run: Seq<char>) -> Seq<FileEntry>
    decreases files.len(),
{
    if files.len() == 0 {
        Seq::empty()
    } else if files.last().0 == run {
        files_under(files.drop_last(), run).push(files.last().1)
    } else {
        files_under(files.drop_last(), run)
    }
}

/// What a map holds, name by name.
pub open spec fn pairs_of<V: View>(map: NameMap<V>) -> Seq<(Seq<char>, V::V)> {
    Seq::new(map.names().len(), |i: int| (map.names()[i], map.values()[i]@))
}

/// What is saved of a run.
pub open spec fn entry_of(name: Seq<char>, run: Run, files: Seq<FileEntry>) -> RunEntry {
    RunEntry {
        name,
        dir: run.dir@,
        hparams: pairs_of(run.hparams),
        first_wall: run.first_wall,
        last_wall: run.last_wall,
        preemptions: run.preemptions,
        files,
        series: pairs_of(run.series),
    }
}

/// What is saved of the first `n` runs: those that have a file.
pub open spec fn entries_of(
    runs: NameMap<Run>,
    files: Seq<(Seq<char>, FileEntry)>,
    n: nat,
) -> Seq<RunEntry>
    decreases n,
{
    if n == 0 {
        Seq::empty()
    } else {
        let before = entries_of(runs, files, (n - 1) as nat);
        let name = runs.names()[n - 1];
        let own = files_under(files, name);
        if own.len() > 0 {
            before.push(entry_of(name, runs.values()[n - 1], own))
        } else {
            before
        }
    }
}

/// What is saved of a project: every run that has a live file, in name order.
pub open spec fn saved(runs: NameMap<Run>, files: Seq<(Seq<char>, FileEntry)>) -> Seq<RunEntry> {
    entries_of(runs, files, runs.names().len())
}

/// Writes the hyperparameters of a run.
fn put_hparams(out: &mut Vec<u8>, hparams: &NameMap<HparamValue>)
    requires
        hparams.wf(),
    ensures
        final(out)@ == old(out)@ + items_bytes(pairs_of(*hparams), hparam_writer()),
{
    let ghost pairs = pairs_of(*hparams);
    put_u32(out, hparams.len() as u32);
    let ghost start = out@;
    let mut i: usize = 0;
    assert(pairs.take(0) =~= Seq::<(Seq<char>, HparamModel)>::empty());
    assert(start + list_bytes(pairs.take(0), hparam_writer()) =~= start);
    while i < hparams.len()
        invariant
            i <= hparams.names().len(),
            hparams.wf(),
            pairs == pairs_of(*hparams),
            out@ == start + list_bytes(pairs.take(i as int), hparam_writer()),
        decreases hparams.names().len() - i,
    {
        let ghost before = out@;
        put_str(out, hparams.name_at(i));
        match hparams.value_at(i) {
            HparamValue::F64(bits) => {
                out.push(0);
                put_u64(out, *bits);
            },
            HparamValue::String(text) => {
                out.push(1);
                put_str(out, text);
            },
            HparamValue::Bool(truth) => {
                out.push(2);
                out.push(
                    if *truth {
                        1
                    } else {
                        0
                    },
                );
            },
        }
        proof {
            assert(pairs.take(i + 1).drop_last() =~= pairs.take(i as int));
            assert(out@ =~= before + hparam_bytes(pairs[i as int]));
            assert(out@ =~= start + (list_bytes(pairs.take(i as int), hparam_writer())
                + hparam_bytes(pairs[i as int])));
        }
        i += 1;
    }
    assert(pairs.take(i as int) =~= pairs);
    assert(out@ =~= old(out)@ + items_bytes(pairs, hparam_writer()));
}

/// How many files a run has.
fn count_under(files: &Vec<SavedFile>, run: &str) -> (count: usize)
    ensures
        count == files_under(saved_models(files@), run@).len(),
{
    let ghost models = saved_models(files@);
    let mut count: usize = 0;
    let mut i: usize = 0;
    assert(models.take(0) =~= Seq::<(Seq<char>, FileEntry)>::empty());
    while i < files.len()
        invariant
            i <= files@.len(),
            count <= i,
            models == saved_models(files@),
            count == files_under(models.take(i as int), run@).len(),
        decreases files@.len() - i,
    {
        proof {
            assert(models.take(i + 1).drop_last() =~= models.take(i as int));
            assert(models.take(i + 1).last() == saved_model(files@[i as int]));
        }
        if same_text(&files[i].run, run) {
            count += 1;
        }
        i += 1;
    }
    assert(models.take(i as int) =~= models);
    count
}

/// Writes the files of a run.
fn put_files(out: &mut Vec<u8>, files: &Vec<SavedFile>, run: &str, count: usize)
    requires
        count == files_under(saved_models(files@), run@).len(),
    ensures
        final(out)@ == old(out)@ + items_bytes(
            files_under(saved_models(files@), run@),
            file_writer(),
        ),
{
    let ghost models = saved_models(files@);
    put_u32(out, count as u32);
    let ghost start = out@;
    let mut i: usize = 0;
    assert(models.take(0) =~= Seq::<(Seq<char>, FileEntry)>::empty());
    assert(start + list_bytes(Seq::<FileEntry>::empty(), file_writer()) =~= start);
    while i < files.len()
        invariant
            i <= files@.len(),
            models == saved_models(files@),
            out@ == start + list_bytes(files_under(models.take(i as int), run@), file_writer()),
        decreases files@.len() - i,
    {
        let ghost before = out@;
        let ghost own = files_under(models.take(i as int), run@);
        proof {
            assert(models.take(i + 1).drop_last() =~= models.take(i as int));
            assert(models.take(i + 1).last() == saved_model(files@[i as int]));
        }
        if same_text(&files[i].run, run) {
            put_str(out, &files[i].path);
            put_u64(out, files[i].size);
            put_mtime(out, files[i].mtime);
            put_u64(out, files[i].offset);
            proof {
                let file = saved_model(files@[i as int]).1;
                assert(out@ =~= before + file_bytes(file));
                assert(own.push(file).drop_last() =~= own);
                assert(out@ =~= start + (list_bytes(own, file_writer()) + file_bytes(file)));
            }
        }
        i += 1;
    }
    assert(models.take(i as int) =~= models);
    assert(out@ =~= old(out)@ + items_bytes(files_under(models, run@), file_writer()));
}

/// Appending twice appends both.
proof fn lemma_appended(base: Seq<u8>, front: Seq<u8>, back: Seq<u8>)
    ensures
        (base + front) + back == base + (front + back),
{
    assert((base + front) + back =~= base + (front + back));
}

/// Writes a segment.
fn put_segment(out: &mut Vec<u8>, segment: &SegmentSummary)
    ensures
        final(out)@ == old(out)@ + segment_bytes(*segment),
{
    let ghost x0 = out@;
    put_point(out, segment.first);
    let ghost x1 = out@;
    put_point(out, segment.last);
    let ghost x2 = out@;
    put_segment_values(out, segment);
    proof {
        let values = segment_values_bytes(*segment);
        lemma_appended(x1, point_bytes(segment.last), values);
        lemma_appended(x0, point_bytes(segment.first), point_bytes(segment.last) + values);
    }
}

/// Writes the values of a segment behind its points.
fn put_segment_values(out: &mut Vec<u8>, segment: &SegmentSummary)
    ensures
        final(out)@ == old(out)@ + segment_values_bytes(*segment),
{
    let ghost x0 = out@;
    put_u64(out, segment.min);
    let ghost x1 = out@;
    put_u64(out, segment.max);
    let ghost x2 = out@;
    put_u64(out, segment.moments.count);
    let ghost y1 = out@;
    put_u64(out, segment.moments.mean);
    let ghost y2 = out@;
    put_u64(out, segment.moments.m2);
    let ghost x3 = out@;
    put_u64(out, segment.count);
    let ghost x4 = out@;
    put_u64(out, segment.non_finite);
    let ghost x5 = out@;
    let step: Option<u64> = match segment.preempted_at {
        Some(step) => Some(step as u64),
        None => None,
    };
    put_opt_u64(out, step);
    proof {
        let m = segment.moments;
        lemma_appended(y1, le64_bytes(m.mean), le64_bytes(m.m2));
        lemma_appended(x2, le64_bytes(m.count), le64_bytes(m.mean) + le64_bytes(m.m2));
        assert(x3 == x2 + moments_bytes(m));
        let f = step_bytes(segment.preempted_at);
        let e = le64_bytes(segment.non_finite) + f;
        let d = le64_bytes(segment.count) + e;
        let c = moments_bytes(m) + d;
        lemma_appended(x4, le64_bytes(segment.non_finite), f);
        lemma_appended(x3, le64_bytes(segment.count), e);
        lemma_appended(x2, moments_bytes(m), d);
        lemma_appended(x1, le64_bytes(segment.max), c);
        lemma_appended(x0, le64_bytes(segment.min), le64_bytes(segment.max) + c);
    }
}

/// Writes the segments of a series.
fn put_segments(out: &mut Vec<u8>, segments: &Vec<SegmentSummary>)
    ensures
        final(out)@ == old(out)@ + items_bytes(segments@, segment_writer()),
{
    put_u32(out, segments.len() as u32);
    let ghost start = out@;
    let mut i: usize = 0;
    assert(segments@.take(0) =~= Seq::<SegmentSummary>::empty());
    assert(start + list_bytes(segments@.take(0), segment_writer()) =~= start);
    while i < segments.len()
        invariant
            i <= segments@.len(),
            out@ == start + list_bytes(segments@.take(i as int), segment_writer()),
        decreases segments@.len() - i,
    {
        put_segment(out, &segments[i]);
        proof {
            assert(segments@.take(i + 1).drop_last() =~= segments@.take(i as int));
            lemma_appended(
                start,
                list_bytes(segments@.take(i as int), segment_writer()),
                segment_bytes(segments@[i as int]),
            );
        }
        i += 1;
    }
    proof {
        assert(segments@.take(i as int) =~= segments@);
        lemma_appended(
            old(out)@,
            le32_bytes(segments@.len() as u32),
            list_bytes(segments@, segment_writer()),
        );
    }
}

/// Writes a series under its tag.
fn put_series(out: &mut Vec<u8>, tag: &str, series: &Series)
    ensures
        final(out)@ == old(out)@ + series_bytes((tag@, series@)),
{
    let ghost x0 = out@;
    put_str(out, tag);
    let ghost x1 = out@;
    out.push(class_code(series.class));
    assert(out@ =~= x1 + seq![code_of(series.class)]);
    let ghost x2 = out@;
    match &series.plugin {
        Some(plugin) => {
            out.push(1);
            put_str(out, plugin);
        },
        None => {
            out.push(0);
        },
    }
    assert(out@ =~= x2 + plugin_bytes(series@.plugin));
    put_segments(out, &series.summary.segments);
    proof {
        let d = items_bytes(series@.segments, segment_writer());
        let c = plugin_bytes(series@.plugin) + d;
        let b = seq![code_of(series.class)] + c;
        lemma_appended(x2, plugin_bytes(series@.plugin), d);
        lemma_appended(x1, seq![code_of(series.class)], c);
        lemma_appended(x0, text_bytes(tag@), b);
    }
}

/// Writes the series of a run.
fn put_series_map(out: &mut Vec<u8>, series: &NameMap<Series>)
    requires
        series.wf(),
    ensures
        final(out)@ == old(out)@ + items_bytes(pairs_of(*series), series_writer()),
{
    let ghost pairs = pairs_of(*series);
    put_u32(out, series.len() as u32);
    let ghost start = out@;
    let mut i: usize = 0;
    assert(pairs.take(0) =~= Seq::<(Seq<char>, SeriesModel)>::empty());
    assert(start + list_bytes(pairs.take(0), series_writer()) =~= start);
    while i < series.len()
        invariant
            i <= series.names().len(),
            series.wf(),
            pairs == pairs_of(*series),
            out@ == start + list_bytes(pairs.take(i as int), series_writer()),
        decreases series.names().len() - i,
    {
        let ghost before = out@;
        put_series(out, series.name_at(i), series.value_at(i));
        proof {
            assert(pairs.take(i + 1).drop_last() =~= pairs.take(i as int));
            assert(out@ =~= before + series_bytes(pairs[i as int]));
            assert(out@ =~= start + (list_bytes(pairs.take(i as int), series_writer())
                + series_bytes(pairs[i as int])));
        }
        i += 1;
    }
    assert(pairs.take(i as int) =~= pairs);
    assert(out@ =~= old(out)@ + items_bytes(pairs, series_writer()));
}

/// Writes a run.
fn put_entry(out: &mut Vec<u8>, name: &str, run: &Run, files: &Vec<SavedFile>, count: usize)
    requires
        run.wf(),
        count == files_under(saved_models(files@), name@).len(),
    ensures
        final(out)@ == old(out)@ + run_bytes(
            entry_of(name@, *run, files_under(saved_models(files@), name@)),
        ),
{
    let ghost entry = entry_of(name@, *run, files_under(saved_models(files@), name@));
    let ghost x0 = out@;
    put_str(out, name);
    let ghost x1 = out@;
    put_str(out, &run.dir);
    let ghost x2 = out@;
    put_hparams(out, &run.hparams);
    let ghost x3 = out@;
    put_opt_u64(out, run.first_wall);
    let ghost y1 = out@;
    put_opt_u64(out, run.last_wall);
    put_u64(out, run.preemptions);
    let ghost x4 = out@;
    put_files(out, files, name, count);
    put_series_map(out, &run.series);
    proof {
        lemma_appended(y1, option_bytes(run.last_wall), le64_bytes(run.preemptions));
        lemma_appended(
            x3,
            option_bytes(run.first_wall),
            option_bytes(run.last_wall) + le64_bytes(run.preemptions),
        );
        assert(x4 == x3 + walls_bytes(entry));
        let f = items_bytes(entry.series, series_writer());
        let e = items_bytes(entry.files, file_writer()) + f;
        let d = walls_bytes(entry) + e;
        let c = items_bytes(entry.hparams, hparam_writer()) + d;
        lemma_appended(x4, items_bytes(entry.files, file_writer()), f);
        lemma_appended(x3, walls_bytes(entry), e);
        lemma_appended(x2, items_bytes(entry.hparams, hparam_writer()), d);
        lemma_appended(x1, text_bytes(entry.dir), c);
        lemma_appended(x0, text_bytes(entry.name), text_bytes(entry.dir) + c);
    }
}

/// Serializes the cache of a project: every run that has a live file, with
/// its summaries and, per file, its identity and committed offset.
pub fn save(runs: &NameMap<Run>, files: &Vec<SavedFile>) -> (bytes: Vec<u8>)
    requires
        runs_wf(*runs),
    ensures
        bytes@ == cache_bytes(saved(*runs, saved_models(files@))),
{
    let ghost models = saved_models(files@);
    let mut body: Vec<u8> = Vec::new();
    let mut n: usize = 0;
    let mut i: usize = 0;
    assert(list_bytes(entries_of(*runs, models, 0), run_writer()) =~= Seq::<u8>::empty());
    while i < runs.len()
        invariant
            i <= runs.names().len(),
            n <= i,
            runs_wf(*runs),
            models == saved_models(files@),
            n == entries_of(*runs, models, i as nat).len(),
            body@ == list_bytes(entries_of(*runs, models, i as nat), run_writer()),
        decreases runs.names().len() - i,
    {
        let ghost before = entries_of(*runs, models, i as nat);
        let name = runs.name_at(i);
        let count: usize = count_under(files, name);
        if count > 0 {
            let run = runs.value_at(i);
            assert(runs.values()[i as int].wf());
            put_entry(&mut body, name, run, files, count);
            n += 1;
            proof {
                let entry = entry_of(name@, *run, files_under(models, name@));
                assert(before.push(entry).drop_last() =~= before);
            }
        }
        i += 1;
    }
    let mut out: Vec<u8> = Vec::new();
    out.push(0x56);
    out.push(0x54);
    out.push(0x56);
    out.push(0x43);
    out.push(0x41);
    out.push(0x43);
    out.push(0x48);
    out.push(0x31);
    assert(out@ =~= magic());
    put_u32(&mut out, n as u32);
    put_bytes(&mut out, &body);
    assert(out@ =~= cache_bytes(saved(*runs, models)));
    out
}

} // verus!
