//! What a walk of the scanned root finds, backend by backend.
//!
//! The directories are listed by the caller; which of them are walked, and
//! what their entries mean, is decided here. Mixed roots just work: each
//! directory declares itself independently.
use vstd::prelude::*;

use crate::mlflow::{meta_lines, option_text, parse_meta};
use crate::run::{ends_with, text_ends_with};
use crate::text::{
    chars_of, is_before, pieces, push_text, same_text, starts_with_char, string_of, text_before,
    text_between,
};

verus! {

/// How deep the root is walked: a depth cap in place of true symlink-loop
/// detection, beyond any sane logdir.
pub const DEPTH_CAP: usize = 32;

/// How deep the files of a run are walked.
pub const FILES_DEPTH_CAP: usize = 8;

/// What a directory entry is.
#[derive(Clone, Copy, PartialEq, Eq, Structural, Debug)]
pub enum EntryKind {
    /// A file, or anything that is no directory.
    File,
    /// A directory.
    Directory,
    /// A link to a directory.
    DirectoryLink,
}

/// One entry of a listed directory.
pub struct Entry {
    /// Its name.
    pub name: String,
    /// What it is.
    pub kind: EntryKind,
    /// For a directory: whether it holds a file `metrics.json` or a
    /// directory `plots`.
    pub marked: bool,
    /// For a file: its text, where it was asked for and could be read.
    pub text: Option<String>,
}

/// What an [`Entry`] holds.
#[verifier::ext_equal]
pub struct EntryModel {
    pub name: Seq<char>,
    pub kind: EntryKind,
    pub marked: bool,
    pub text: Option<Seq<char>>,
}

impl View for Entry {
    type V = EntryModel;

    open spec fn view(&self) -> EntryModel {
        EntryModel {
            name: self.name@,
            kind: self.kind,
            marked: self.marked,
            text: option_text(self.text),
        }
    }
}

/// What the entries of a directory hold.
pub open spec fn entry_models(entries: Seq<Entry>) -> Seq<EntryModel> {
    entries.map_values(|entry: Entry| entry@)
}

/// Something found: what it is called, and where it is.
pub struct Found {
    /// The name of its run; of a file of a run, its name below the walked
    /// directory.
    pub name: String,
    /// Where it is.
    pub path: String,
}

/// What a [`Found`] holds.
#[verifier::ext_equal]
pub struct FoundModel {
    pub name: Seq<char>,
    pub path: Seq<char>,
}

impl View for Found {
    type V = FoundModel;

    open spec fn view(&self) -> FoundModel {
        FoundModel { name: self.name@, path: self.path@ }
    }
}

/// What a list of found things holds.
pub open spec fn found_models(list: Seq<Found>) -> Seq<FoundModel> {
    list.map_values(|found: Found| found@)
}

/// The text by which paths are ordered: part by part, so that the separator
/// comes before every character of a name.
pub open spec fn path_key(path: Seq<char>) -> Seq<char> {
    path.map_values(
        |c: char|
            if c == '/' {
                '\0'
            } else {
                c
            },
    )
}

/// Whether a path comes before another, part by part.
pub open spec fn path_before(a: Seq<char>, b: Seq<char>) -> bool {
    text_before(path_key(a), path_key(b))
}

fn key_of(path: &str) -> (key: String)
    ensures
        key@ == path_key(path@),
{
    let chars = chars_of(path);
    let mut key: Vec<char> = Vec::new();
    let mut i: usize = 0;
    while i < chars.len()
        invariant
            i <= chars@.len(),
            key@.len() == i,
            forall|k: int|
                0 <= k < i ==> #[trigger] key@[k] == (if chars@[k] == '/' {
                    '\0'
                } else {
                    chars@[k]
                }),
        decreases chars@.len() - i,
    {
        let c = if chars[i] == '/' {
            '\0'
        } else {
            chars[i]
        };
        key.push(c);
        i += 1;
    }
    assert(key@ =~= path_key(path@));
    string_of(&key)
}

/// Whether a path comes before another, part by part.
pub fn comes_before(a: &str, b: &str) -> (before: bool)
    ensures
        before == path_before(a@, b@),
{
    is_before(&key_of(a), &key_of(b))
}

/// How many of a list come before a path, up to the last that does.
pub open spec fn place(list: Seq<FoundModel>, path: Seq<char>) -> nat
    decreases list.len(),
{
    if list.len() == 0 {
        0
    } else if path_before(list.last().path, path) {
        list.len()
    } else {
        place(list.drop_last(), path)
    }
}

/// A list with one more, behind those that come before it.
pub open spec fn placed(list: Seq<FoundModel>, found: FoundModel) -> Seq<FoundModel> {
    list.insert(place(list, found.path) as int, found)
}

/// The paths of a list stand in order.
pub open spec fn in_path_order(list: Seq<FoundModel>) -> bool {
    forall|i: int, j: int|
        0 <= i < j < list.len() ==> !path_before(
            (#[trigger] list[j]).path,
            (#[trigger] list[i]).path,
        )
}

proof fn lemma_place(list: Seq<FoundModel>, path: Seq<char>)
    ensures
        place(list, path) <= list.len(),
        place(list, path) > 0 ==> path_before(list[place(list, path) - 1].path, path),
        forall|i: int|
            place(list, path) <= i < list.len() ==> !path_before((#[trigger] list[i]).path, path),
    decreases list.len(),
{
    if list.len() > 0 && !path_before(list.last().path, path) {
        let front = list.drop_last();
        lemma_place(front, path);
        assert forall|i: int| place(list, path) <= i < list.len() implies !path_before(
            (#[trigger] list[i]).path,
            path,
        ) by {
            if i < front.len() {
                assert(front[i] == list[i]);
            }
        }
    }
}

/// A list in path order stays in path order.
pub proof fn law_placed_in_order(list: Seq<FoundModel>, found: FoundModel)
    requires
        in_path_order(list),
    ensures
        in_path_order(placed(list, found)),
{
    let at = place(list, found.path) as int;
    let longer = placed(list, found);
    lemma_place(list, found.path);
    assert forall|i: int, j: int| 0 <= i < j < longer.len() implies !path_before(
        (#[trigger] longer[j]).path,
        (#[trigger] longer[i]).path,
    ) by {
        let a = path_key(longer[i].path);
        let b = path_key(longer[j].path);
        if j == at {
            let last = path_key(list[at - 1].path);
            assert(text_before(last, b));
            assert(longer[i] == list[i]);
            if i < at - 1 {
                assert(!path_before(list[at - 1].path, list[i].path));
            }
            crate::text::lemma_text_order(last, a);
            crate::text::lemma_text_order(a, b);
            if text_before(b, a) {
                crate::text::lemma_text_order_transitive(last, b, a);
            }
        } else if i == at {
            assert(longer[j] == list[j - 1]);
        } else {
            assert(longer[i] == list[if i < at {
                i
            } else {
                i - 1
            }]);
            assert(longer[j] == list[if j < at {
                j
            } else {
                j - 1
            }]);
        }
    }
}

/// Puts something found into a list, behind those that come before it.
fn put_in_place(list: &mut Vec<Found>, found: Found)
    ensures
        found_models(final(list)@) == placed(found_models(old(list)@), found@),
{
    let ghost models = found_models(list@);
    let mut at: usize = list.len();
    assert(models.take(at as int) =~= models);
    while at > 0
        invariant
            at <= list@.len(),
            models == found_models(list@),
            list@ == old(list)@,
            place(models, found.path@) == place(models.take(at as int), found.path@),
        decreases at,
    {
        assert(models.take(at as int).last() == list@[at - 1]@);
        assert(models.take(at as int).drop_last() =~= models.take(at - 1));
        if comes_before(&list[at - 1].path, &found.path) {
            list.insert(at, found);
            assert(found_models(list@) =~= placed(models, found@));
            return ;
        }
        at = at - 1;
    }
    list.insert(0, found);
    assert(found_models(list@) =~= placed(models, found@));
}

/// Everything one walk of the root found, per backend, in path order.
pub struct Discovery {
    /// tfevents: a run is a directory containing at least one file whose
    /// basename contains `tfevents`.
    pub tfevents: Vec<Found>,
    /// dvclive: a directory containing a `dvclive` child with `metrics.json`
    /// or `plots/` marks a root, named by the *parent*'s root-relative path.
    pub dvclive: Vec<Found>,
    /// MLflow: a directory whose `meta.yaml` carries a run id; named by its
    /// recorded `run_name`, falling back to the root-relative path.
    pub mlflow: Vec<Found>,
    /// wandb: a `run-*.wandb` transaction log, named by its directory's
    /// root-relative path.
    pub wandb: Vec<Found>,
}

/// What a [`Discovery`] holds.
#[verifier::ext_equal]
pub struct DiscoveryModel {
    pub tfevents: Seq<FoundModel>,
    pub dvclive: Seq<FoundModel>,
    pub mlflow: Seq<FoundModel>,
    pub wandb: Seq<FoundModel>,
}

impl View for Discovery {
    type V = DiscoveryModel;

    open spec fn view(&self) -> DiscoveryModel {
        DiscoveryModel {
            tfevents: found_models(self.tfevents@),
            dvclive: found_models(self.dvclive@),
            mlflow: found_models(self.mlflow@),
            wandb: found_models(self.wandb@),
        }
    }
}

/// A path below a directory.
pub open spec fn joined(dir: Seq<char>, name: Seq<char>) -> Seq<char> {
    if dir.len() == 0 {
        name
    } else if dir.last() == '/' {
        dir + name
    } else {
        dir.push('/') + name
    }
}

/// A path below a directory.
pub fn join(dir: &str, name: &str) -> (path: String)
    ensures
        path@ == joined(dir@, name@),
{
    let chars = chars_of(dir);
    let mut path = dir.to_owned();
    if chars.len() > 0 && chars[chars.len() - 1] != '/' {
        path.push('/');
    }
    push_text(&mut path, name);
    assert(path@ =~= joined(dir@, name@));
    path
}

/// The part of a path below the root.
pub open spec fn below(root: Seq<char>, dir: Seq<char>) -> Seq<char> {
    let front = if root.len() > 0 && root.last() == '/' {
        root
    } else {
        root.push('/')
    };
    if dir == root {
        Seq::empty()
    } else if dir.len() >= front.len() && dir.take(front.len() as int) == front {
        dir.skip(front.len() as int)
    } else {
        dir
    }
}

/// The name of the run of a directory: its path below the root, `.` for the
/// root itself.
pub open spec fn name_of(root: Seq<char>, dir: Seq<char>) -> Seq<char> {
    if below(root, dir).len() == 0 {
        "."@
    } else {
        below(root, dir)
    }
}

/// The name of the run of a directory: its path below the root, `.` for the
/// root itself.
pub fn run_name(root: &str, dir: &str) -> (name: String)
    ensures
        name@ == name_of(root@, dir@),
{
    if same_text(root, dir) {
        return ".".to_owned();
    }
    let front = join(root, "");
    let mut front = front;
    if root.is_empty() {
        front.push('/');
    }
    proof {
        reveal_strlit("");
        assert(front@ =~= (if root@.len() > 0 && root@.last() == '/' {
            root@
        } else {
            root@.push('/')
        }));
    }
    let a = chars_of(&front);
    let b = chars_of(dir);
    if b.len() >= a.len() {
        let start = text_between(&b, 0, a.len());
        assert(start@ =~= dir@.take(a@.len() as int));
        if same_text(&start, &front) {
            let rest = text_between(&b, a.len(), b.len());
            assert(rest@ =~= dir@.skip(a@.len() as int));
            if rest.as_str().is_empty() {
                return ".".to_owned();
            }
            return rest;
        }
    }
    if b.len() == 0 {
        return ".".to_owned();
    }
    dir.to_owned()
}

/// Whether a text stands somewhere in another.
pub open spec fn within(text: Seq<char>, part: Seq<char>) -> bool {
    exists|i: int|
        0 <= i <= text.len() - part.len() && #[trigger] text.subrange(i, i + part.len()) == part
}

/// Whether a text stands somewhere in another.
pub fn contains_text(text: &str, part: &str) -> (result: bool)
    ensures
        result == within(text@, part@),
{
    let a = chars_of(text);
    let b = chars_of(part);
    if a.len() < b.len() {
        return false;
    }
    let mut i: usize = 0;
    while i <= a.len() - b.len()
        invariant
            b.len() <= a.len(),
            i <= a.len() - b.len() + 1,
            a@ == text@,
            b@ == part@,
            forall|k: int| 0 <= k < i ==> #[trigger] text@.subrange(k, k + part@.len()) != part@,
        decreases a.len() - b.len() + 1 - i,
    {
        let piece = text_between(&a, i, i + b.len());
        assert(piece@ =~= text@.subrange(i as int, i + part@.len()));
        if same_text(&piece, part) {
            return true;
        }
        if i == a.len() - b.len() {
            return false;
        }
        i += 1;
    }
    false
}

/// What an entry of a directory means.
pub enum Meaning {
    /// Nothing.
    Nothing,
    /// A directory to walk.
    Walk,
    /// An event file.
    Tfevents,
    /// A dvclive root.
    Dvclive,
    /// A wandb log.
    Wandb,
    /// The directory is an MLflow run, with its recorded name.
    Mlflow(Option<Seq<char>>),
}

/// What an entry of a directory at a depth means. Hidden entries mean
/// nothing. Directory links are skipped: they alias runs already found by
/// their real path, and are the vector for walk loops.
pub open spec fn meaning(entry: EntryModel, depth: nat) -> Meaning {
    if entry.name.len() > 0 && entry.name[0] == '.' {
        Meaning::Nothing
    } else {
        match entry.kind {
            EntryKind::DirectoryLink => Meaning::Nothing,
            EntryKind::Directory => if entry.name == "dvclive"@ && entry.marked {
                Meaning::Dvclive
            } else if depth < DEPTH_CAP {
                Meaning::Walk
            } else {
                Meaning::Nothing
            },
            EntryKind::File => if within(entry.name, "tfevents"@) {
                Meaning::Tfevents
            } else if starts_with(entry.name, "run-"@) && ends_with(entry.name, ".wandb"@) {
                Meaning::Wandb
            } else if entry.name == "meta.yaml"@ {
                match entry.text {
                    Some(text) => {
                        let meta = meta_lines(pieces(text, '\n'));
                        if meta.run_id is Some {
                            Meaning::Mlflow(meta.run_name)
                        } else {
                            Meaning::Nothing
                        }
                    },
                    None => Meaning::Nothing,
                }
            } else {
                Meaning::Nothing
            },
        }
    }
}

/// Whether a text starts with another.
pub open spec fn starts_with(text: Seq<char>, front: Seq<char>) -> bool {
    text.len() >= front.len() && text.take(front.len() as int) == front
}

/// Whether a text starts with another.
pub fn text_starts_with(text: &str, front: &str) -> (result: bool)
    ensures
        result == starts_with(text@, front@),
{
    let a = chars_of(text);
    let b = chars_of(front);
    if a.len() < b.len() {
        return false;
    }
    let start = text_between(&a, 0, b.len());
    assert(start@ =~= text@.take(b@.len() as int));
    same_text(&start, front)
}

/// A walk of the root: the directories still to list, and what was found.
pub struct Walk {
    root: String,
    stack: Vec<(String, usize)>,
    found: Discovery,
}

/// What a [`Walk`] holds.
#[verifier::ext_equal]
pub struct WalkModel {
    pub root: Seq<char>,
    pub stack: Seq<(Seq<char>, usize)>,
    pub found: DiscoveryModel,
}

/// What a stack of directories holds.
pub open spec fn stack_model(stack: Seq<(String, usize)>) -> Seq<(Seq<char>, usize)> {
    stack.map_values(|dir: (String, usize)| (dir.0@, dir.1))
}

impl View for Walk {
    type V = WalkModel;

    closed spec fn view(&self) -> WalkModel {
        WalkModel { root: self.root@, stack: stack_model(self.stack@), found: self.found@ }
    }
}

impl WalkModel {
    /// A walk with one entry of a directory taken in.
    pub open spec fn with_entry(self, dir: Seq<char>, depth: usize, entry: EntryModel) -> WalkModel {
        let path = joined(dir, entry.name);
        let name = name_of(self.root, dir);
        match meaning(entry, depth as nat) {
            Meaning::Nothing => self,
            Meaning::Walk => WalkModel {
                stack: self.stack.push((path, (depth + 1) as usize)),
                ..self
            },
            Meaning::Tfevents => WalkModel {
                found: DiscoveryModel {
                    tfevents: placed(self.found.tfevents, FoundModel { name, path }),
                    ..self.found
                },
                ..self
            },
            Meaning::Dvclive => WalkModel {
                found: DiscoveryModel {
                    dvclive: placed(self.found.dvclive, FoundModel { name, path }),
                    ..self.found
                },
                ..self
            },
            Meaning::Wandb => WalkModel {
                found: DiscoveryModel {
                    wandb: placed(self.found.wandb, FoundModel { name, path }),
                    ..self.found
                },
                ..self
            },
            Meaning::Mlflow(recorded) => WalkModel {
                found: DiscoveryModel {
                    mlflow: placed(
                        self.found.mlflow,
                        FoundModel {
                            name: match recorded {
                                Some(recorded_name) => recorded_name,
                                None => name,
                            },
                            path: dir,
                        },
                    ),
                    ..self.found
                },
                ..self
            },
        }
    }

    /// A walk with the entries of a directory taken in, one behind the other.
    pub open spec fn with_entries(
        self,
        dir: Seq<char>,
        depth: usize,
        entries: Seq<EntryModel>,
    ) -> WalkModel
        decreases entries.len(),
    {
        if entries.len() == 0 {
            self
        } else {
            self.with_entries(dir, depth, entries.drop_last()).with_entry(
                dir,
                depth,
                entries.last(),
            )
        }
    }
}

impl Walk {
    /// A walk that starts at the root.
    pub fn new(root: &str) -> (walk: Walk)
        ensures
            walk@ == (WalkModel {
                root: root@,
                stack: seq![(root@, 0usize)],
                found: DiscoveryModel {
                    tfevents: Seq::empty(),
                    dvclive: Seq::empty(),
                    mlflow: Seq::empty(),
                    wandb: Seq::empty(),
                },
            }),
    {
        let mut stack: Vec<(String, usize)> = Vec::new();
        stack.push((root.to_owned(), 0));
        let walk = Walk {
            root: root.to_owned(),
            stack,
            found: Discovery {
                tfevents: Vec::new(),
                dvclive: Vec::new(),
                mlflow: Vec::new(),
                wandb: Vec::new(),
            },
        };
        assert(walk@.stack =~= seq![(root@, 0usize)]);
        assert(walk@.found.tfevents =~= Seq::<FoundModel>::empty());
        assert(walk@.found.dvclive =~= Seq::<FoundModel>::empty());
        assert(walk@.found.mlflow =~= Seq::<FoundModel>::empty());
        assert(walk@.found.wandb =~= Seq::<FoundModel>::empty());
        walk
    }

    /// Whether the text of a file of that name is asked for.
    pub fn wants_text(name: &str) -> (wanted: bool)
        ensures
            wanted == (name@ == "meta.yaml"@),
    {
        same_text(name, "meta.yaml")
    }

    /// The next directory to list, with its depth.
    pub fn next(&mut self) -> (dir: Option<(String, usize)>)
        ensures
            match dir {
                Some((path, depth)) => {
                    &&& old(self)@.stack.len() > 0
                    &&& old(self)@.stack.last() == (path@, depth)
                    &&& final(self)@ == (WalkModel {
                        stack: old(self)@.stack.drop_last(),
                        ..old(self)@
                    })
                },
                None => old(self)@.stack.len() == 0 && final(self)@ == old(self)@,
            },
    {
        let ghost before = self.stack@;
        let dir = self.stack.pop();
        proof {
            if dir is Some {
                assert(stack_model(self.stack@) =~= stack_model(before).drop_last());
            }
        }
        dir
    }

    /// Takes one entry of a listed directory in.
    #[verifier::rlimit(30)]
    fn take(&mut self, dir: &str, depth: usize, entry: &Entry)
        ensures
            final(self)@ == old(self)@.with_entry(dir@, depth, entry@),
    {
        if starts_with_char(&entry.name, '.') {
            return ;
        }
        let path = join(dir, &entry.name);
        let name = run_name(&self.root, dir);
        let ghost before = self@;
        match entry.kind {
            EntryKind::DirectoryLink => {},
            EntryKind::Directory => {
                if same_text(&entry.name, "dvclive") && entry.marked {
                    put_in_place(&mut self.found.dvclive, Found { name, path });
                } else if depth < DEPTH_CAP {
                    let ghost stack = self.stack@;
                    self.stack.push((path, depth + 1));
                    assert(stack_model(self.stack@) =~= stack_model(stack).push(
                        (path@, (depth + 1) as usize),
                    ));
                }
            },
            EntryKind::File => {
                if contains_text(&entry.name, "tfevents") {
                    put_in_place(&mut self.found.tfevents, Found { name, path });
                } else if text_starts_with(&entry.name, "run-") && text_ends_with(
                    &entry.name,
                    ".wandb",
                ) {
                    put_in_place(&mut self.found.wandb, Found { name, path });
                } else if same_text(&entry.name, "meta.yaml") {
                    if let Some(text) = &entry.text {
                        let meta = parse_meta(text);
                        if meta.run_id.is_some() {
                            let called = match meta.run_name {
                                Some(recorded) => recorded,
                                None => name,
                            };
                            put_in_place(
                                &mut self.found.mlflow,
                                Found { name: called, path: dir.to_owned() },
                            );
                        }
                    }
                }
            },
        }
    }

    /// Takes the entries of a listed directory in.
    pub fn visit(&mut self, dir: &str, depth: usize, entries: &Vec<Entry>)
        ensures
            final(self)@ == old(self)@.with_entries(dir@, depth, entry_models(entries@)),
    {
        let ghost start = self@;
        let ghost all = entry_models(entries@);
        let mut i: usize = 0;
        assert(all.take(0) =~= Seq::<EntryModel>::empty());
        while i < entries.len()
            invariant
                i <= entries@.len(),
                all == entry_models(entries@),
                self@ == start.with_entries(dir@, depth, all.take(i as int)),
            decreases entries@.len() - i,
        {
            proof {
                assert(all.take(i + 1).drop_last() =~= all.take(i as int));
                assert(all.take(i + 1).last() == entries@[i as int]@);
            }
            self.take(dir, depth, &entries[i]);
            i += 1;
        }
        assert(all.take(i as int) =~= all);
    }

    /// What the walk found.
    pub fn finish(self) -> (found: Discovery)
        ensures
            found@ == self@.found,
    {
        self.found
    }
}

/// A walk of the files of a run: the directories still to list, and the
/// files in path order.
pub struct FileWalk {
    base: String,
    stack: Vec<(String, usize)>,
    files: Vec<Found>,
}

/// What a [`FileWalk`] holds.
#[verifier::ext_equal]
pub struct FileWalkModel {
    pub base: Seq<char>,
    pub stack: Seq<(Seq<char>, usize)>,
    pub files: Seq<FoundModel>,
}

impl View for FileWalk {
    type V = FileWalkModel;

    closed spec fn view(&self) -> FileWalkModel {
        FileWalkModel {
            base: self.base@,
            stack: stack_model(self.stack@),
            files: found_models(self.files@),
        }
    }
}

impl FileWalkModel {
    /// A walk with one entry of a directory taken in: hidden entries are
    /// skipped, directories walked up to the depth cap, and files named by
    /// their path below the base.
    pub open spec fn with_entry(
        self,
        dir: Seq<char>,
        depth: usize,
        entry: EntryModel,
    ) -> FileWalkModel {
        let path = joined(dir, entry.name);
        if entry.name.len() > 0 && entry.name[0] == '.' {
            self
        } else if entry.kind != EntryKind::File {
            if depth < FILES_DEPTH_CAP {
                FileWalkModel { stack: self.stack.push((path, (depth + 1) as usize)), ..self }
            } else {
                self
            }
        } else {
            FileWalkModel {
                files: placed(self.files, FoundModel { name: name_of(self.base, path), path }),
                ..self
            }
        }
    }

    /// A walk with the entries of a directory taken in, one behind the other.
    pub open spec fn with_entries(
        self,
        dir: Seq<char>,
        depth: usize,
        entries: Seq<EntryModel>,
    ) -> FileWalkModel
        decreases entries.len(),
    {
        if entries.len() == 0 {
            self
        } else {
            self.with_entries(dir, depth, entries.drop_last()).with_entry(
                dir,
                depth,
                entries.last(),
            )
        }
    }
}

impl FileWalk {
    /// A walk that starts at a directory.
    pub fn new(base: &str) -> (walk: FileWalk)
        ensures
            walk@ == (FileWalkModel {
                base: base@,
                stack: seq![(base@, 0usize)],
                files: Seq::empty(),
            }),
    {
        let mut stack: Vec<(String, usize)> = Vec::new();
        stack.push((base.to_owned(), 0));
        let walk = FileWalk { base: base.to_owned(), stack, files: Vec::new() };
        assert(walk@.stack =~= seq![(base@, 0usize)]);
        assert(walk@.files =~= Seq::<FoundModel>::empty());
        walk
    }

    /// The next directory to list, with its depth.
    pub fn next(&mut self) -> (dir: Option<(String, usize)>)
        ensures
            match dir {
                Some((path, depth)) => {
                    &&& old(self)@.stack.len() > 0
                    &&& old(self)@.stack.last() == (path@, depth)
                    &&& final(self)@ == (FileWalkModel {
                        stack: old(self)@.stack.drop_last(),
                        ..old(self)@
                    })
                },
                None => old(self)@.stack.len() == 0 && final(self)@ == old(self)@,
            },
    {
        let ghost before = self.stack@;
        let dir = self.stack.pop();
        proof {
            if dir is Some {
                assert(stack_model(self.stack@) =~= stack_model(before).drop_last());
            }
        }
        dir
    }

    /// Takes the entries of a listed directory in.
    pub fn visit(&mut self, dir: &str, depth: usize, entries: &Vec<Entry>)
        ensures
            final(self)@ == old(self)@.with_entries(dir@, depth, entry_models(entries@)),
    {
        let ghost start = self@;
        let ghost all = entry_models(entries@);
        let mut i: usize = 0;
        assert(all.take(0) =~= Seq::<EntryModel>::empty());
        while i < entries.len()
            invariant
                i <= entries@.len(),
                all == entry_models(entries@),
                self@ == start.with_entries(dir@, depth, all.take(i as int)),
            decreases entries@.len() - i,
        {
            proof {
                assert(all.take(i + 1).drop_last() =~= all.take(i as int));
                assert(all.take(i + 1).last() == entries@[i as int]@);
            }
            let entry = &entries[i];
            if !starts_with_char(&entry.name, '.') {
                let path = join(dir, &entry.name);
                if entry.kind != EntryKind::File {
                    if depth < FILES_DEPTH_CAP {
                        let ghost stack = self.stack@;
                        self.stack.push((path, depth + 1));
                        assert(stack_model(self.stack@) =~= stack_model(stack).push(
                            (path@, (depth + 1) as usize),
                        ));
                    }
                } else {
                    let name = run_name(&self.base, &path);
                    put_in_place(&mut self.files, Found { name, path });
                }
            }
            i += 1;
        }
        assert(all.take(i as int) =~= all);
    }

    /// The files, in path order.
    pub fn finish(self) -> (files: Vec<Found>)
        ensures
            found_models(files@) == self@.files,
    {
        self.files
    }
}

} // verus!
