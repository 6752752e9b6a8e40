//! The walk of a watched logdir: it looks for event files alone, in every
//! directory that is not hidden, through links to directories and below
//! dvclive roots too.
use vstd::prelude::*;

use crate::discover::{
    comes_before, contains_text, entry_models, found_models, join, joined, name_of, path_before,
    path_key, run_name, stack_model, within, Entry, EntryKind, EntryModel, Found, FoundModel,
    DEPTH_CAP,
};
use crate::text::{
    is_before, lemma_text_order, lemma_text_order_transitive, same_text, starts_with_char,
    text_before,
};

verus! {

/// Whether something found is listed before another: by the name of its run,
/// and within a run by its path.
pub open spec fn listed_before(a: FoundModel, b: FoundModel) -> bool {
    text_before(a.name, b.name) || (a.name == b.name && path_before(a.path, b.path))
}

/// How many of a list are listed before something, up to the last that is.
pub open spec fn rank(list: Seq<FoundModel>, found: FoundModel) -> nat
    decreases list.len(),
{
    if list.len() == 0 {
        0
    } else if listed_before(list.last(), found) {
        list.len()
    } else {
        rank(list.drop_last(), found)
    }
}

/// A list with one more, behind those that are listed before it.
pub open spec fn ranked(list: Seq<FoundModel>, found: FoundModel) -> Seq<FoundModel> {
    list.insert(rank(list, found) as int, found)
}

/// A list stands in the order of runs and paths.
pub open spec fn in_list_order(list: Seq<FoundModel>) -> bool {
    forall|i: int, j: int|
        0 <= i < j < list.len() ==> !listed_before(#[trigger] list[j], #[trigger] list[i])
}

proof fn lemma_rank(list: Seq<FoundModel>, found: FoundModel)
    ensures
        rank(list, found) <= list.len(),
        rank(list, found) > 0 ==> listed_before(list[rank(list, found) - 1], found),
        forall|i: int|
            rank(list, found) <= i < list.len() ==> !listed_before(#[trigger] list[i], found),
    decreases list.len(),
{
    if list.len() > 0 && !listed_before(list.last(), found) {
        let front = list.drop_last();
        lemma_rank(front, found);
        assert forall|i: int| rank(list, found) <= i < list.len() implies !listed_before(
            #[trigger] list[i],
            found,
        ) by {
            if i < front.len() {
                assert(front[i] == list[i]);
            }
        }
    }
}

/// What is listed before something is not listed behind what comes before it.
proof fn lemma_listed(a: FoundModel, b: FoundModel, c: FoundModel)
    requires
        listed_before(a, b),
        !listed_before(a, c),
    ensures
        !listed_before(b, c),
{
    lemma_text_order(a.name, c.name);
    lemma_text_order(path_key(a.path), path_key(c.path));
    if listed_before(b, c) {
        if text_before(a.name, b.name) && text_before(b.name, c.name) {
            lemma_text_order_transitive(a.name, b.name, c.name);
        }
        if a.name == b.name && b.name == c.name {
            lemma_text_order_transitive(path_key(a.path), path_key(b.path), path_key(c.path));
        }
    }
}

/// A list in order stays in order.
pub proof fn law_ranked_in_order(list: Seq<FoundModel>, found: FoundModel)
    requires
        in_list_order(list),
    ensures
        in_list_order(ranked(list, found)),
{
    let at = rank(list, found) as int;
    let longer = ranked(list, found);
    lemma_rank(list, found);
    assert forall|i: int, j: int| 0 <= i < j < longer.len() implies !listed_before(
        #[trigger] longer[j],
        #[trigger] longer[i],
    ) by {
        if j == at {
            let last = list[at - 1];
            assert(longer[i] == list[i]);
            assert(!listed_before(last, list[i])) by {
                if i == at - 1 {
                    lemma_text_order(last.name, last.name);
                    lemma_text_order(path_key(last.path), path_key(last.path));
                }
            }
            lemma_listed(last, found, list[i]);
        } else if i == at {
            assert(longer[j] == list[j - 1]);
        } else {
            assert(longer[i] == list[if i < at {
                i
            } else {
                i - 1
            }]);
            assert(longer[j] == list[if j < at {
                j
            } else {
                j - 1
            }]);
        }
    }
}

fn is_listed_before(a: &Found, b: &Found) -> (before: bool)
    ensures
        before == listed_before(a@, b@),
{
    is_before(&a.name, &b.name) || (same_text(&a.name, &b.name) && comes_before(&a.path, &b.path))
}

/// Puts something found into a list, behind those that are listed before it.
fn put_in_rank(list: &mut Vec<Found>, found: Found)
    ensures
        found_models(final(list)@) == ranked(found_models(old(list)@), found@),
{
    let ghost models = found_models(list@);
    let mut at: usize = list.len();
    assert(models.take(at as int) =~= models);
    while at > 0
        invariant
            at <= list@.len(),
            models == found_models(list@),
            list@ == old(list)@,
            rank(models, found@) == rank(models.take(at as int), found@),
        decreases at,
    {
        assert(models.take(at as int).last() == list@[at - 1]@);
        assert(models.take(at as int).drop_last() =~= models.take(at - 1));
        if is_listed_before(&list[at - 1], &found) {
            list.insert(at, found);
            assert(found_models(list@) =~= ranked(models, found@));
            return ;
        }
        at = at - 1;
    }
    list.insert(0, found);
    assert(found_models(list@) =~= ranked(models, found@));
}

/// A walk of a watched logdir: the directories still to list, and the event
/// files with the names of their runs.
pub struct WatchWalk {
    root: String,
    stack: Vec<(String, usize)>,
    found: Vec<Found>,
}

/// What a [`WatchWalk`] holds.
#[verifier::ext_equal]
pub struct WatchWalkModel {
    pub root: Seq<char>,
    pub stack: Seq<(Seq<char>, usize)>,
    pub found: Seq<FoundModel>,
}

impl View for WatchWalk {
    type V = WatchWalkModel;

    closed spec fn view(&self) -> WatchWalkModel {
        WatchWalkModel {
            root: self.root@,
            stack: stack_model(self.stack@),
            found: found_models(self.found@),
        }
    }
}

impl WatchWalkModel {
    /// A walk with one entry of a directory taken in: hidden entries are
    /// skipped, directories and links to directories walked up to the depth cap,
    /// and files whose names hold `tfevents` found under the run of their
    /// directory.
    pub open spec fn with_entry(
        self,
        dir: Seq<char>,
        depth: usize,
        entry: EntryModel,
    ) -> WatchWalkModel {
        let path = joined(dir, entry.name);
        if entry.name.len() > 0 && entry.name[0] == '.' {
            self
        } else if entry.kind != EntryKind::File {
            if depth < DEPTH_CAP {
                WatchWalkModel { stack: self.stack.push((path, (depth + 1) as usize)), ..self }
            } else {
                self
            }
        } else if within(entry.name, "tfevents"@) {
            WatchWalkModel {
                found: ranked(self.found, FoundModel { name: name_of(self.root, dir), path }),
                ..self
            }
        } else {
            self
        }
    }

    /// A walk with the entries of a directory taken in, one behind the other.
    pub open spec fn with_entries(
        self,
        dir: Seq<char>,
        depth: usize,
        entries: Seq<EntryModel>,
    ) -> WatchWalkModel
        decreases entries.len(),
    {
        if entries.len() == 0 {
            self
        } else {
            self.with_entries(dir, depth, entries.drop_last()).with_entry(
                dir,
                depth,
                entries.last(),
            )
        }
    }
}

/// What a walk found stands in the order of runs and paths, whatever the order
/// in which directories are listed.
pub proof fn law_watch_walk_in_order(
    walk: WatchWalkModel,
    dir: Seq<char>,
    depth: usize,
    entries: Seq<EntryModel>,
)
    requires
        in_list_order(walk.found),
    ensures
        in_list_order(walk.with_entries(dir, depth, entries).found),
    decreases entries.len(),
{
    if entries.len() > 0 {
        law_watch_walk_in_order(walk, dir, depth, entries.drop_last());
        let before = walk.with_entries(dir, depth, entries.drop_last());
        let path = joined(dir, entries.last().name);
        law_ranked_in_order(before.found, FoundModel { name: name_of(before.root, dir), path });
    }
}

impl WatchWalk {
    /// A walk that starts at the root.
    pub fn new(root: &str) -> (walk: WatchWalk)
        ensures
            walk@ == (WatchWalkModel {
                root: root@,
                stack: seq![(root@, 0usize)],
                found: Seq::empty(),
            }),
    {
        let mut stack: Vec<(String, usize)> = Vec::new();
        stack.push((root.to_owned(), 0));
        let walk = WatchWalk { root: root.to_owned(), stack, found: Vec::new() };
        assert(walk@.stack =~= seq![(root@, 0usize)]);
        assert(walk@.found =~= Seq::<FoundModel>::empty());
        walk
    }

    /// The next directory to list, with its depth.
    pub fn next(&mut self) -> (dir: Option<(String, usize)>)
        ensures
            match dir {
                Some((path, depth)) => {
                    &&& old(self)@.stack.len() > 0
                    &&& old(self)@.stack.last() == (path@, depth)
                    &&& final(self)@ == (WatchWalkModel {
                        stack: old(self)@.stack.drop_last(),
                        ..old(self)@
                    })
                },
                None => old(self)@.stack.len() == 0 && final(self)@ == old(self)@,
            },
    {
        let ghost before = self.stack@;
        let dir = self.stack.pop();
        proof {
            if dir is Some {
                assert(stack_model(self.stack@) =~= stack_model(before).drop_last());
            }
        }
        dir
    }

    /// Takes the entries of a listed directory in.
    pub fn visit(&mut self, dir: &str, depth: usize, entries: &Vec<Entry>)
        ensures
            final(self)@ == old(self)@.with_entries(dir@, depth, entry_models(entries@)),
    {
        let ghost start = self@;
        let ghost all = entry_models(entries@);
        let mut i: usize = 0;
        assert(all.take(0) =~= Seq::<EntryModel>::empty());
        while i < entries.len()
            invariant
                i <= entries@.len(),
                all == entry_models(entries@),
                self@ == start.with_entries(dir@, depth, all.take(i as int)),
            decreases entries@.len() - i,
        {
            proof {
                assert(all.take(i + 1).drop_last() =~= all.take(i as int));
                assert(all.take(i + 1).last() == entries@[i as int]@);
            }
            let entry = &entries[i];
            if !starts_with_char(&entry.name, '.') {
                let path = join(dir, &entry.name);
                if entry.kind != EntryKind::File {
                    if depth < DEPTH_CAP {
                        let ghost stack = self.stack@;
                        self.stack.push((path, depth + 1));
                        assert(stack_model(self.stack@) =~= stack_model(stack).push(
                            (path@, (depth + 1) as usize),
                        ));
                    }
                } else if contains_text(&entry.name, "tfevents") {
                    let name = run_name(&self.root, dir);
                    put_in_rank(&mut self.found, Found { name, path });
                }
            }
            i += 1;
        }
        assert(all.take(i as int) =~= all);
    }

    /// The event files that the walk found.
    pub fn finish(self) -> (found: Vec<Found>)
        ensures
            found_models(found@) == self@.found,
    {
        self.found
    }
}

} // verus!
