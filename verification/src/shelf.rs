//! A bounded shelf of materialized series, keyed by run and tag. When it is
//! full, the one that was looked at longest ago makes room.
use vstd::prelude::*;

use crate::text::{is_before, lemma_text_order, lemma_text_order_transitive, same_text, text_before};

verus! {

/// A run and a tag.
pub type Key = (Seq<char>, Seq<char>);

/// One series on the shelf.
struct Slot<T> {
    run: String,
    tag: String,
    touched: u64,
    item: T,
}

/// The materialized series, each under its run and tag.
pub struct Shelf<T> {
    slots: Vec<Slot<T>>,
}

/// Whether the first of two series on the shelf makes room before the
/// second: it was touched earlier; of two touched at once, the one whose run
/// and tag come first.
pub open spec fn older(a: Key, a_touched: u64, b: Key, b_touched: u64) -> bool {
    ||| a_touched < b_touched
    ||| a_touched == b_touched && text_before(a.0, b.0)
    ||| a_touched == b_touched && a.0 == b.0 && text_before(a.1, b.1)
}

impl<T: View> Shelf<T> {
    /// The keys in the order of the slots.
    pub closed spec fn keys(self) -> Seq<Key> {
        self.slots@.map_values(|slot: Slot<T>| (slot.run@, slot.tag@))
    }

    /// When each slot was last touched.
    pub closed spec fn stamps(self) -> Seq<u64> {
        self.slots@.map_values(|slot: Slot<T>| slot.touched)
    }

    /// The items in the order of the slots.
    pub closed spec fn items(self) -> Seq<T> {
        self.slots@.map_values(|slot: Slot<T>| slot.item)
    }

    /// Every key occurs once.
    pub open spec fn wf(self) -> bool {
        &&& self.stamps().len() == self.keys().len()
        &&& self.items().len() == self.keys().len()
        &&& forall|i: int, j: int|
            0 <= i < self.keys().len() && 0 <= j < self.keys().len() && self.keys()[i]
                == self.keys()[j] ==> i == j
    }

    /// Whether a key is on the shelf.
    pub open spec fn has(self, key: Key) -> bool {
        exists|i: int| 0 <= i < self.keys().len() && #[trigger] self.keys()[i] == key
    }

    /// Where a key stands.
    pub open spec fn index_of(self, key: Key) -> int {
        choose|i: int| 0 <= i < self.keys().len() && #[trigger] self.keys()[i] == key
    }

    /// What the shelf holds: the content and the touch stamp of each key.
    pub open spec fn model(self) -> Map<Key, (T::V, u64)> {
        Map::new(
            |key: Key| self.has(key),
            |key: Key| (self.items()[self.index_of(key)]@, self.stamps()[self.index_of(key)]),
        )
    }

    /// A key at an index is found there.
    pub proof fn lemma_index(self, i: int)
        requires
            self.wf(),
            0 <= i < self.keys().len(),
        ensures
            self.has(self.keys()[i]),
            self.index_of(self.keys()[i]) == i,
            self.model()[self.keys()[i]] == (self.items()[i]@, self.stamps()[i]),
    {
    }

    /// An empty shelf.
    pub fn new() -> (shelf: Shelf<T>)
        ensures
            shelf.wf(),
            shelf.keys().len() == 0,
            shelf.model() == Map::<Key, (T::V, u64)>::empty(),
    {
        let shelf: Shelf<T> = Shelf { slots: Vec::new() };
        assert(shelf.keys() =~= Seq::<Key>::empty());
        assert(shelf.model() =~= Map::<Key, (T::V, u64)>::empty());
        shelf
    }

    /// How many series are on the shelf.
    pub fn len(&self) -> (count: usize)
        ensures
            count == self.keys().len(),
    {
        self.slots.len()
    }

    /// Where a series stands.
    pub fn find(&self, run: &str, tag: &str) -> (found: Option<usize>)
        requires
            self.wf(),
        ensures
            found is Some <==> self.has((run@, tag@)),
            found matches Some(i) ==> i < self.keys().len() && self.keys()[i as int] == (
                run@,
                tag@,
            ) && i == self.index_of((run@, tag@)),
    {
        let mut i: usize = 0;
        while i < self.slots.len()
            invariant
                i <= self.slots@.len(),
                self.wf(),
                forall|k: int| 0 <= k < i ==> #[trigger] self.keys()[k] != (run@, tag@),
            decreases self.slots@.len() - i,
        {
            assert(self.keys()[i as int] == (
                self.slots@[i as int].run@,
                self.slots@[i as int].tag@,
            ));
            if same_text(&self.slots[i].run, run) && same_text(&self.slots[i].tag, tag) {
                proof {
                    self.lemma_index(i as int);
                }
                return Some(i);
            }
            i += 1;
        }
        None
    }

    /// The series at an index.
    pub fn item(&self, i: usize) -> (item: &T)
        requires
            i < self.items().len(),
        ensures
            *item == self.items()[i as int],
    {
        &self.slots[i].item
    }

    /// The series at an index, to change in place.
    pub fn item_mut(&mut self, i: usize) -> (item: &mut T)
        requires
            old(self).wf(),
            i < old(self).keys().len(),
        ensures
            *item == old(self).items()[i as int],
            final(self).keys() == old(self).keys(),
            final(self).stamps() == old(self).stamps(),
            final(self).items() == old(self).items().update(i as int, *final(item)),
    {
        let ghost before = *self;
        let item = &mut self.slots[i].item;
        proof {
            let after = before.slots@.update(
                i as int,
                Slot { item: *final(item), ..before.slots@[i as int] },
            );
            assert(after.map_values(|slot: Slot<T>| (slot.run@, slot.tag@)) =~= before.keys());
            assert(after.map_values(|slot: Slot<T>| slot.touched) =~= before.stamps());
            assert(after.map_values(|slot: Slot<T>| slot.item) =~= before.items().update(
                i as int,
                *final(item),
            ));
        }
        item
    }

    /// The model behind a change of the item at an index.
    pub proof fn lemma_model_update(self, before: Shelf<T>, at: int)
        requires
            before.wf(),
            0 <= at < before.keys().len(),
            self.keys() == before.keys(),
            self.stamps() == before.stamps(),
            self.items() == before.items().update(at, self.items()[at]),
        ensures
            self.wf(),
            self.model() == before.model().insert(
                before.keys()[at],
                (self.items()[at]@, before.stamps()[at]),
            ),
    {
        before.lemma_index(at);
        let expected = before.model().insert(
            before.keys()[at],
            (self.items()[at]@, before.stamps()[at]),
        );
        assert forall|key: Key| self.has(key) implies self.model()[key] == expected[key] by {
            let i = self.index_of(key);
            self.lemma_index(i);
            before.lemma_index(i);
        }
        assert forall|key: Key| self.has(key) == before.has(key) by {
            if before.has(key) {
                assert(self.keys()[before.index_of(key)] == key);
            }
            if self.has(key) {
                assert(before.keys()[self.index_of(key)] == key);
            }
        }
        assert(self.model() =~= expected);
    }

    /// Marks the series at an index as looked at.
    pub fn touch(&mut self, i: usize, clock: u64)
        requires
            old(self).wf(),
            i < old(self).keys().len(),
        ensures
            final(self).wf(),
            final(self).keys() == old(self).keys(),
            final(self).items() == old(self).items(),
            final(self).model() == old(self).model().insert(
                old(self).keys()[i as int],
                (old(self).items()[i as int]@, clock),
            ),
    {
        let ghost before = *self;
        self.slots[i].touched = clock;
        proof {
            assert(self.keys() =~= before.keys());
            assert(self.items() =~= before.items());
            assert(self.stamps() =~= before.stamps().update(i as int, clock));
            before.lemma_index(i as int);
            let expected = before.model().insert(
                before.keys()[i as int],
                (before.items()[i as int]@, clock),
            );
            assert forall|key: Key| self.has(key) implies self.model()[key] == expected[key] by {
                let k = self.index_of(key);
                self.lemma_index(k);
                before.lemma_index(k);
            }
            assert forall|key: Key| self.has(key) == before.has(key) by {
                if before.has(key) {
                    assert(self.keys()[before.index_of(key)] == key);
                }
                if self.has(key) {
                    assert(before.keys()[self.index_of(key)] == key);
                }
            }
            assert(self.model() =~= expected);
        }
    }

    /// The key at an index makes room first.
    spec fn oldest_at(self, at: int) -> bool {
        &&& 0 <= at < self.keys().len()
        &&& forall|i: int|
            0 <= i < self.keys().len() && i != at ==> older(
                self.keys()[at],
                self.stamps()[at],
                #[trigger] self.keys()[i],
                self.stamps()[i],
            )
    }

    /// Which series makes room first.
    fn find_oldest(&self) -> (at: usize)
        requires
            self.wf(),
            self.keys().len() > 0,
        ensures
            self.oldest_at(at as int),
    {
        let mut at: usize = 0;
        let mut i: usize = 1;
        while i < self.slots.len()
            invariant
                1 <= i <= self.slots@.len(),
                at < i,
                self.wf(),
                forall|k: int|
                    0 <= k < i && k != at ==> older(
                        self.keys()[at as int],
                        self.stamps()[at as int],
                        #[trigger] self.keys()[k],
                        self.stamps()[k],
                    ),
            decreases self.slots@.len() - i,
        {
            let ghost best = at as int;
            let a = &self.slots[at];
            let b = &self.slots[i];
            assert(self.keys()[at as int] == (a.run@, a.tag@));
            assert(self.keys()[i as int] == (b.run@, b.tag@));
            assert(self.stamps()[at as int] == a.touched);
            assert(self.stamps()[i as int] == b.touched);
            let younger = b.touched < a.touched || (b.touched == a.touched && (is_before(
                &b.run,
                &a.run,
            ) || (same_text(&b.run, &a.run) && is_before(&b.tag, &a.tag))));
            if younger {
                at = i;
            }
            proof {
                let (x, y) = if younger {
                    (i as int, best)
                } else {
                    (best, i as int)
                };
                assert(older(self.keys()[x], self.stamps()[x], self.keys()[y], self.stamps()[y]))
                    by {
                    lemma_text_order(self.keys()[best].0, self.keys()[i as int].0);
                    lemma_text_order(self.keys()[best].1, self.keys()[i as int].1);
                    if !younger && self.stamps()[best] == self.stamps()[i as int] {
                        if self.keys()[best].0 == self.keys()[i as int].0 {
                            assert(self.keys()[best].1 != self.keys()[i as int].1);
                        }
                    }
                }
                if younger {
                    assert forall|k: int| 0 <= k < i + 1 && k != i implies older(
                        self.keys()[i as int],
                        self.stamps()[i as int],
                        #[trigger] self.keys()[k],
                        self.stamps()[k],
                    ) by {
                        if k != best {
                            lemma_older_transitive(
                                self.keys()[i as int],
                                self.stamps()[i as int],
                                self.keys()[best],
                                self.stamps()[best],
                                self.keys()[k],
                                self.stamps()[k],
                            );
                        }
                    }
                }
            }
            i += 1;
        }
        at
    }

    /// Which key makes room when the shelf is full.
    pub open spec fn makes_room(self, key: Key) -> bool {
        &&& self.has(key)
        &&& forall|other: Key|
            self.has(other) && other != key ==> older(
                key,
                self.model()[key].1,
                other,
                (#[trigger] self.model()[other]).1,
            )
    }

    /// Puts a series on the shelf, looked at now. Where the shelf holds
    /// `cap` or more, the one that makes room first goes.
    pub fn insert(&mut self, run: String, tag: String, item: T, clock: u64, cap: usize)
        requires
            old(self).wf(),
            !old(self).has((run@, tag@)),
            cap > 0,
        ensures
            final(self).wf(),
            old(self).keys().len() < cap ==> final(self).model() == old(self).model().insert(
                (run@, tag@),
                (item@, clock),
            ),
            old(self).keys().len() >= cap ==> exists|gone: Key| #[trigger]
                old(self).makes_room(gone) && final(self).model() == old(self).model().remove(
                    gone,
                ).insert((run@, tag@), (item@, clock)),
            final(self).keys().len() == (if old(self).keys().len() < cap {
                old(self).keys().len() + 1
            } else {
                old(self).keys().len()
            }),
            final(self).has((run@, tag@)),
            final(self).items().last() == item,
            final(self).keys().last() == (run@, tag@),
            shelved(
                old(self).model(),
                final(self).model(),
                (run@, tag@),
                item@,
                clock,
                cap as nat,
            ),
            forall|i: int|
                0 <= i < final(self).items().len() - 1 ==> old(self).items().contains(
                    #[trigger] final(self).items()[i],
                ),
    {
        let ghost start = *self;
        let ghost key = (run@, tag@);
        proof {
            self.lemma_model_len();
        }
        if self.slots.len() >= cap {
            let at: usize = self.find_oldest();
            let _ = self.slots.remove(at);
            proof {
                start.lemma_index(at as int);
                self.lemma_after_remove(start, at as int);
                assert(start.makes_room(start.keys()[at as int])) by {
                    assert forall|other: Key|
                        start.has(other) && other != start.keys()[at as int] implies older(
                        start.keys()[at as int],
                        start.model()[start.keys()[at as int]].1,
                        other,
                        (#[trigger] start.model()[other]).1,
                    ) by {
                        let k = start.index_of(other);
                        start.lemma_index(k);
                        assert(start.keys()[k] == other);
                    }
                }
            }
        }
        let ghost before = *self;
        self.slots.push(Slot { run, tag, touched: clock, item });
        proof {
            assert(self.keys() =~= before.keys().push(key));
            assert(self.items() =~= before.items().push(item));
            assert(self.stamps() =~= before.stamps().push(clock));
            self.lemma_after_push(before, key, item, clock);
            if start.keys().len() >= cap {
                let gone = choose|gone: Key| #[trigger]
                    start.makes_room(gone) && self.model() == start.model().remove(gone).insert(
                        key,
                        (item@, clock),
                    );
                assert(oldest_of(start.model(), gone)) by {
                    assert forall|other: Key| #[trigger]
                        start.model().dom().contains(other) && other != gone implies older(
                        gone,
                        start.model()[gone].1,
                        other,
                        start.model()[other].1,
                    ) by {
                        assert(start.has(other));
                    }
                }
            }
            assert forall|i: int| 0 <= i < self.items().len() - 1 implies start.items().contains(
                #[trigger] self.items()[i],
            ) by {
                assert(self.items()[i] == before.items()[i]);
                if start.keys().len() >= cap {
                    let at = choose|at: int|
                        0 <= at < start.items().len() && before.items() == start.items().remove(
                            at,
                        );
                    let k = if i < at {
                        i
                    } else {
                        i + 1
                    };
                    assert(start.items()[k] == before.items()[i]);
                } else {
                    assert(start.items()[i] == before.items()[i]);
                }
            }
        }
    }

    /// There are as many keys as slots.
    proof fn lemma_model_len(self)
        requires
            self.wf(),
        ensures
            self.model().dom().len() == self.keys().len(),
            self.model().dom().finite(),
    {
        let keys = self.keys();
        assert(keys.no_duplicates());
        keys.unique_seq_to_set();
        assert(keys.to_set() =~= self.model().dom()) by {
            assert forall|key: Key| keys.to_set().contains(key) == self.model().dom().contains(
                key,
            ) by {
                if keys.contains(key) {
                    let i = choose|i: int| 0 <= i < keys.len() && keys[i] == key;
                    assert(self.keys()[i] == key);
                }
                if self.has(key) {
                    assert(keys[self.index_of(key)] == key);
                }
            }
        }
    }

    proof fn lemma_after_remove(self, before: Shelf<T>, at: int)
        requires
            before.wf(),
            0 <= at < before.keys().len(),
            self.slots@ == before.slots@.remove(at),
        ensures
            self.wf(),
            self.items() == before.items().remove(at),
            self.keys() == before.keys().remove(at),
            self.model() == before.model().remove(before.keys()[at]),
    {
        assert(self.keys() =~= before.keys().remove(at));
        assert(self.items() =~= before.items().remove(at));
        assert(self.stamps() =~= before.stamps().remove(at));
        let gone = before.keys()[at];
        assert forall|i: int, j: int|
            0 <= i < self.keys().len() && 0 <= j < self.keys().len() && self.keys()[i]
                == self.keys()[j] implies i == j by {
            let x = if i < at {
                i
            } else {
                i + 1
            };
            let y = if j < at {
                j
            } else {
                j + 1
            };
            assert(before.keys()[x] == before.keys()[y]);
        }
        assert forall|key: Key| self.has(key) implies self.model()[key] == before.model()[key]
            && before.has(key) && key != gone by {
            let i = self.index_of(key);
            let x = if i < at {
                i
            } else {
                i + 1
            };
            self.lemma_index(i);
            before.lemma_index(x);
            assert(before.keys()[x] == key);
        }
        assert forall|key: Key| before.has(key) && key != gone implies self.has(key) by {
            let x = before.index_of(key);
            let i = if x < at {
                x
            } else {
                x - 1
            };
            assert(self.keys()[i] == key);
        }
        assert(self.model() =~= before.model().remove(gone));
    }

    proof fn lemma_after_push(self, before: Shelf<T>, key: Key, item: T, clock: u64)
        requires
            before.wf(),
            !before.has(key),
            self.keys() == before.keys().push(key),
            self.items() == before.items().push(item),
            self.stamps() == before.stamps().push(clock),
        ensures
            self.wf(),
            self.has(key),
            self.model() == before.model().insert(key, (item@, clock)),
    {
        let n = before.keys().len() as int;
        assert(self.keys()[n] == key);
        assert forall|i: int, j: int|
            0 <= i < self.keys().len() && 0 <= j < self.keys().len() && self.keys()[i]
                == self.keys()[j] implies i == j by {
            if i < n && j < n {
                assert(before.keys()[i] == before.keys()[j]);
            } else if i < n {
                assert(before.keys()[i] == key);
            } else if j < n {
                assert(before.keys()[j] == key);
            }
        }
        assert forall|other: Key| self.has(other) implies self.model()[other]
            == before.model().insert(key, (item@, clock))[other] by {
            let i = self.index_of(other);
            self.lemma_index(i);
            if i < n {
                before.lemma_index(i);
                assert(before.keys()[i] == other);
            }
        }
        assert forall|other: Key| self.has(other) == (before.has(other) || other == key) by {
            if before.has(other) {
                assert(self.keys()[before.index_of(other)] == other);
            }
            if self.has(other) && other != key {
                assert(before.keys()[self.index_of(other)] == other);
            }
        }
        assert(self.model() =~= before.model().insert(key, (item@, clock)));
    }

    /// Takes every series of a run off the shelf.
    pub fn remove_run(&mut self, run: &str)
        requires
            old(self).wf(),
        ensures
            final(self).wf(),
            final(self).model() == without_run(old(self).model(), run@),
            forall|i: int|
                0 <= i < final(self).items().len() ==> old(self).items().contains(
                    #[trigger] final(self).items()[i],
                ),
    {
        let ghost start = *self;
        let mut i: usize = self.slots.len();
        assert(without_run(self.model(), run@) == without_run(start.model(), run@));
        while i > 0
            invariant
                i <= self.slots@.len(),
                self.wf(),
                without_run(self.model(), run@) == without_run(start.model(), run@),
                forall|k: int| i <= k < self.keys().len() ==> (#[trigger] self.keys()[k]).0 != run@,
                forall|k: int|
                    0 <= k < self.items().len() ==> start.items().contains(
                        #[trigger] self.items()[k],
                    ),
            decreases i,
        {
            i = i - 1;
            let ghost before = *self;
            assert(self.keys()[i as int] == (
                self.slots@[i as int].run@,
                self.slots@[i as int].tag@,
            ));
            if same_text(&self.slots[i].run, run) {
                let _ = self.slots.remove(i);
                proof {
                    self.lemma_after_remove(before, i as int);
                    assert(without_run(self.model(), run@) =~= without_run(before.model(), run@));
                    assert forall|k: int| i <= k < self.keys().len() implies (
                    #[trigger] self.keys()[k]).0 != run@ by {
                        assert(self.keys()[k] == before.keys()[k + 1]);
                    }
                    assert forall|k: int| 0 <= k < self.items().len() implies start.items().contains(
                        #[trigger] self.items()[k],
                    ) by {
                        let x = if k < i {
                            k
                        } else {
                            k + 1
                        };
                        assert(self.items()[k] == before.items()[x]);
                    }
                }
            }
        }
        assert(self.model() =~= without_run(self.model(), run@)) by {
            assert forall|key: Key| self.has(key) implies key.0 != run@ by {
                assert(self.keys()[self.index_of(key)] == key);
            }
        }
    }
}

/// The key that makes room on a full shelf: the one that was looked at
/// longest ago.
pub open spec fn oldest_of<A>(model: Map<Key, (A, u64)>, key: Key) -> bool {
    &&& model.dom().contains(key)
    &&& forall|other: Key| #[trigger]
        model.dom().contains(other) && other != key ==> older(
            key,
            model[key].1,
            other,
            model[other].1,
        )
}

/// One more series on a shelf of at most `cap`: where it is full, the one
/// that was looked at longest ago goes.
pub open spec fn shelved<A>(
    before: Map<Key, (A, u64)>,
    after: Map<Key, (A, u64)>,
    key: Key,
    item: A,
    clock: u64,
    cap: nat,
) -> bool {
    if before.dom().len() < cap {
        after == before.insert(key, (item, clock))
    } else {
        exists|gone: Key| #[trigger]
            oldest_of(before, gone) && after == before.remove(gone).insert(key, (item, clock))
    }
}

/// The shelf without the series of one run.
pub open spec fn without_run<A>(model: Map<Key, A>, run: Seq<char>) -> Map<Key, A> {
    model.restrict(Set::new(|key: Key| key.0 != run))
}

proof fn lemma_older_transitive(a: Key, at: u64, b: Key, bt: u64, c: Key, ct: u64)
    requires
        older(a, at, b, bt),
        older(b, bt, c, ct),
    ensures
        older(a, at, c, ct),
{
    lemma_text_order(a.0, b.0);
    lemma_text_order(b.0, c.0);
    if at == bt && bt == ct {
        if a.0 != b.0 && b.0 != c.0 {
            lemma_text_order_transitive(a.0, b.0, c.0);
        } else if a.0 == b.0 && b.0 == c.0 {
            lemma_text_order_transitive(a.1, b.1, c.1);
        }
    }
}

} // verus!
