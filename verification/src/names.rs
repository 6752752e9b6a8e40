//! A map from names to values, kept in name order.
use vstd::prelude::*;

use crate::text::{is_before, same_text, text_before};

verus! {

/// Values under distinct names, in name order.
pub struct NameMap<V> {
    names: Vec<String>,
    values: Vec<V>,
}

/// The names stand in order, each once.
pub open spec fn in_order(names: Seq<Seq<char>>) -> bool {
    forall|i: int, j: int| 0 <= i < j < names.len() ==> text_before(names[i], names[j])
}

/// In name order a name occurs once.
pub proof fn lemma_in_order_distinct(names: Seq<Seq<char>>, i: int, j: int)
    requires
        in_order(names),
        0 <= i < names.len(),
        0 <= j < names.len(),
        names[i] == names[j],
    ensures
        i == j,
{
    crate::text::lemma_text_order(names[i], names[i]);
    if i < j {
        assert(text_before(names[i], names[j]));
    } else if j < i {
        assert(text_before(names[j], names[i]));
    }
}

/// Where a name stands or would be inserted: behind every name before it.
pub open spec fn insertion_point(names: Seq<Seq<char>>, name: Seq<char>, at: int) -> bool {
    &&& 0 <= at <= names.len()
    &&& forall|i: int| 0 <= i < at ==> text_before(#[trigger] names[i], name)
    &&& forall|i: int| at <= i < names.len() ==> !text_before(#[trigger] names[i], name)
}

impl<V> NameMap<V> {
    /// The names in order.
    pub closed spec fn names(self) -> Seq<Seq<char>> {
        self.names@.map_values(|name: String| name@)
    }

    /// The values in the order of their names.
    pub closed spec fn values(self) -> Seq<V> {
        self.values@
    }

    /// The map is in order and complete.
    pub open spec fn wf(self) -> bool {
        &&& self.names().len() == self.values().len()
        &&& in_order(self.names())
    }

    /// Whether a name has a value.
    pub open spec fn has(self, name: Seq<char>) -> bool {
        exists|i: int| 0 <= i < self.names().len() && #[trigger] self.names()[i] == name
    }

    /// Where a name stands.
    pub open spec fn index_of(self, name: Seq<char>) -> int {
        choose|i: int| 0 <= i < self.names().len() && #[trigger] self.names()[i] == name
    }

    /// The value under a name.
    pub open spec fn at(self, name: Seq<char>) -> V {
        self.values()[self.index_of(name)]
    }

    /// The map from names to values.
    pub open spec fn map(self) -> Map<Seq<char>, V> {
        Map::new(|name: Seq<char>| self.has(name), |name: Seq<char>| self.at(name))
    }

    /// A name at an index is found there.
    pub proof fn lemma_index(self, i: int)
        requires
            self.wf(),
            0 <= i < self.names().len(),
        ensures
            self.has(self.names()[i]),
            self.index_of(self.names()[i]) == i,
            self.at(self.names()[i]) == self.values()[i],
    {
        lemma_in_order_distinct(self.names(), i, self.index_of(self.names()[i]));
    }

    /// The map without names.
    pub fn new() -> (map: NameMap<V>)
        ensures
            map.wf(),
            map.names() == Seq::<Seq<char>>::empty(),
            map.values() == Seq::<V>::empty(),
            map.map() == Map::<Seq<char>, V>::empty(),
    {
        let map = NameMap { names: Vec::new(), values: Vec::new() };
        assert(map.names() =~= Seq::<Seq<char>>::empty());
        assert(map.map() =~= Map::<Seq<char>, V>::empty());
        map
    }

    /// How many names there are.
    pub fn len(&self) -> (count: usize)
        ensures
            count == self.names().len(),
    {
        self.names.len()
    }

    /// Whether there is no name.
    pub fn is_empty(&self) -> (empty: bool)
        ensures
            empty == (self.names().len() == 0),
    {
        self.names.len() == 0
    }

    /// The name at an index.
    pub fn name_at(&self, i: usize) -> (name: &String)
        requires
            i < self.names().len(),
        ensures
            name@ == self.names()[i as int],
    {
        &self.names[i]
    }

    /// The value at an index.
    pub fn value_at(&self, i: usize) -> (value: &V)
        requires
            i < self.values().len(),
        ensures
            *value == self.values()[i as int],
    {
        &self.values[i]
    }

    /// The value at an index, to change in place.
    pub fn value_at_mut(&mut self, i: usize) -> (value: &mut V)
        requires
            i < old(self).values().len(),
        ensures
            *value == old(self).values()[i as int],
            final(self).names() == old(self).names(),
            final(self).values() == old(self).values().update(i as int, *final(value)),
    {
        &mut self.values[i]
    }

    /// Where `name` stands, or where it would be inserted.
    fn point(&self, name: &str) -> (at: usize)
        requires
            self.wf(),
        ensures
            insertion_point(self.names(), name@, at as int),
    {
        let mut low: usize = 0;
        let mut high: usize = self.names.len();
        while low < high
            invariant
                low <= high <= self.names@.len(),
                self.wf(),
                forall|i: int| 0 <= i < low ==> text_before(#[trigger] self.names()[i], name@),
                forall|i: int|
                    high <= i < self.names().len() ==> !text_before(
                        #[trigger] self.names()[i],
                        name@,
                    ),
            decreases high - low,
        {
            let middle: usize = low + (high - low) / 2;
            let ghost center = self.names()[middle as int];
            assert(center == self.names@[middle as int]@);
            if is_before(&self.names[middle], name) {
                proof {
                    assert forall|i: int| 0 <= i < middle + 1 implies text_before(
                        #[trigger] self.names()[i],
                        name@,
                    ) by {
                        if i < middle {
                            assert(text_before(self.names()[i], center));
                            crate::text::lemma_text_order_transitive(
                                self.names()[i],
                                center,
                                name@,
                            );
                        }
                    }
                }
                low = middle + 1;
            } else {
                proof {
                    assert forall|i: int| middle <= i < self.names().len() implies !text_before(
                        #[trigger] self.names()[i],
                        name@,
                    ) by {
                        if i > middle && text_before(self.names()[i], name@) {
                            assert(text_before(center, self.names()[i]));
                            crate::text::lemma_text_order_transitive(
                                center,
                                self.names()[i],
                                name@,
                            );
                        }
                    }
                }
                high = middle;
            }
        }
        low
    }

    /// Where `name` stands.
    pub fn find(&self, name: &str) -> (found: Option<usize>)
        requires
            self.wf(),
        ensures
            found is Some <==> self.has(name@),
            found matches Some(i) ==> {
                &&& i < self.names().len()
                &&& self.names()[i as int] == name@
                &&& i == self.index_of(name@)
                &&& self.values()[i as int] == self.at(name@)
            },
    {
        let at: usize = self.point(name);
        if at < self.names.len() && same_text(&self.names[at], name) {
            proof {
                self.lemma_index(at as int);
            }
            Some(at)
        } else {
            proof {
                if self.has(name@) {
                    let i = self.index_of(name@);
                    crate::text::lemma_text_order(name@, name@);
                    assert(self.names()[i] == name@);
                    assert(i >= at);
                    if i > at {
                        assert(text_before(self.names()[at as int], self.names()[i]));
                    }
                }
            }
            None
        }
    }

    /// The value under a name.
    pub fn get(&self, name: &str) -> (value: Option<&V>)
        requires
            self.wf(),
        ensures
            match value {
                Some(v) => self.has(name@) && *v == self.at(name@),
                None => !self.has(name@),
            },
    {
        match self.find(name) {
            Some(i) => Some(&self.values[i]),
            None => None,
        }
    }

    /// Whether there is a value under a name.
    pub fn contains(&self, name: &str) -> (there: bool)
        requires
            self.wf(),
        ensures
            there == self.has(name@),
    {
        match self.find(name) {
            Some(_) => true,
            None => false,
        }
    }

    /// Puts `value` under `name`, in the place of what was there, and says
    /// where it stands.
    pub fn insert(&mut self, name: String, value: V) -> (at: usize)
        requires
            old(self).wf(),
        ensures
            final(self).wf(),
            at < final(self).names().len(),
            final(self).names()[at as int] == name@,
            final(self).values()[at as int] == value,
            old(self).has(name@) ==> {
                &&& at == old(self).index_of(name@)
                &&& final(self).names() == old(self).names()
                &&& final(self).values() == old(self).values().update(at as int, value)
            },
            !old(self).has(name@) ==> {
                &&& insertion_point(old(self).names(), name@, at as int)
                &&& final(self).names() == old(self).names().insert(at as int, name@)
                &&& final(self).values() == old(self).values().insert(at as int, value)
            },
            final(self).map() == old(self).map().insert(name@, value),
    {
        let ghost before = *self;
        let ghost key = name@;
        match self.find(&name) {
            Some(at) => {
                self.values.set(at, value);
                proof {
                    assert(self.names() =~= before.names());
                    self.lemma_map_after_update(before, at as int, key, value);
                }
                at
            },
            None => {
                let at: usize = self.point(&name);
                self.names.insert(at, name);
                self.values.insert(at, value);
                proof {
                    let names = before.names();
                    assert(self.names() =~= names.insert(at as int, key));
                    assert forall|i: int, j: int| 0 <= i < j < self.names().len() implies text_before(
                        self.names()[i],
                        self.names()[j],
                    ) by {
                        if j == at {
                        } else if i == at {
                            assert(names[j - 1] != key) by {
                                if names[j - 1] == key {
                                    assert(before.has(key));
                                }
                            }
                            crate::text::lemma_text_order(names[j - 1], key);
                        } else {
                            let a = if i < at { i } else { i - 1 };
                            let b = if j < at { j } else { j - 1 };
                            assert(text_before(names[a], names[b]));
                        }
                    }
                    self.lemma_map_after_insert(before, at as int, key, value);
                }
                at
            },
        }
    }

    proof fn lemma_map_after_update(self, before: NameMap<V>, at: int, name: Seq<char>, value: V)
        requires
            before.wf(),
            self.wf(),
            0 <= at < before.names().len(),
            before.names()[at] == name,
            self.names() == before.names(),
            self.values() == before.values().update(at, value),
        ensures
            self.map() == before.map().insert(name, value),
    {
        before.lemma_index(at);
        assert forall|other: Seq<char>| self.has(other) implies self.at(other) == before.map().insert(
            name,
            value,
        )[other] by {
            let i = self.index_of(other);
            self.lemma_index(i);
            before.lemma_index(i);
        }
        assert forall|other: Seq<char>| self.has(other) == before.map().insert(
            name,
            value,
        ).dom().contains(other) by {
            if before.has(other) {
                assert(self.names()[before.index_of(other)] == other);
            }
            if self.has(other) {
                assert(before.names()[self.index_of(other)] == other);
            }
            assert(self.names()[at] == name);
        }
        assert(self.map() =~= before.map().insert(name, value));
    }

    proof fn lemma_map_after_insert(self, before: NameMap<V>, at: int, name: Seq<char>, value: V)
        requires
            before.wf(),
            self.wf(),
            0 <= at <= before.names().len(),
            !before.has(name),
            self.names() == before.names().insert(at, name),
            self.values() == before.values().insert(at, value),
        ensures
            self.map() == before.map().insert(name, value),
    {
        self.lemma_index(at);
        assert forall|other: Seq<char>| self.has(other) implies self.at(other) == before.map().insert(
            name,
            value,
        )[other] by {
            let i = self.index_of(other);
            self.lemma_index(i);
            if i < at {
                before.lemma_index(i);
            } else if i > at {
                before.lemma_index(i - 1);
            }
        }
        assert forall|other: Seq<char>| self.has(other) == before.map().insert(
            name,
            value,
        ).dom().contains(other) by {
            if before.has(other) {
                let i = before.index_of(other);
                assert(self.names()[if i < at { i } else { i + 1 }] == other);
            }
            if self.has(other) && other != name {
                let i = self.index_of(other);
                assert(before.names()[if i < at { i } else { i - 1 }] == other);
            }
        }
        assert(self.map() =~= before.map().insert(name, value));
    }

    /// Takes the name at an index out, with its value.
    pub fn remove_at(&mut self, i: usize) -> (value: V)
        requires
            old(self).wf(),
            i < old(self).names().len(),
        ensures
            final(self).wf(),
            value == old(self).values()[i as int],
            final(self).names() == old(self).names().remove(i as int),
            final(self).values() == old(self).values().remove(i as int),
    {
        let ghost before = *self;
        let _ = self.names.remove(i);
        let value = self.values.remove(i);
        proof {
            assert(self.names() =~= before.names().remove(i as int));
            assert forall|a: int, b: int| 0 <= a < b < self.names().len() implies text_before(
                self.names()[a],
                self.names()[b],
            ) by {
                let x = if a < i { a } else { a + 1 };
                let y = if b < i { b } else { b + 1 };
                assert(text_before(before.names()[x], before.names()[y]));
            }
        }
        value
    }
}

impl<V> NameMap<V> {
    /// Taking a name out of the map.
    pub proof fn lemma_map_after_remove(self, before: NameMap<V>, at: int)
        requires
            before.wf(),
            self.wf(),
            0 <= at < before.names().len(),
            self.names() == before.names().remove(at),
            self.values() == before.values().remove(at),
        ensures
            self.map() == before.map().remove(before.names()[at]),
    {
        let name = before.names()[at];
        assert forall|other: Seq<char>| self.has(other) implies self.at(other) == before.at(
            other,
        ) && other != name by {
            let i = self.index_of(other);
            self.lemma_index(i);
            let j = if i < at {
                i
            } else {
                i + 1
            };
            before.lemma_index(j);
            assert(before.names()[j] == other);
            if other == name {
                lemma_in_order_distinct(before.names(), j, at);
            }
        }
        assert forall|other: Seq<char>| before.has(other) && other != name implies self.has(
            other,
        ) by {
            let i = before.index_of(other);
            let j = if i < at {
                i
            } else {
                i - 1
            };
            assert(self.names()[j] == other);
        }
        assert forall|other: Seq<char>| self.has(other) implies before.has(other) by {
            let i = self.index_of(other);
            let j = if i < at {
                i
            } else {
                i + 1
            };
            assert(before.names()[j] == other);
        }
        assert(self.map() =~= before.map().remove(name));
    }

    /// Takes `name` out, with its value.
    pub fn remove(&mut self, name: &str) -> (value: Option<V>)
        requires
            old(self).wf(),
        ensures
            final(self).wf(),
            final(self).map() == old(self).map().remove(name@),
            match value {
                Some(v) => old(self).has(name@) && v == old(self).at(name@),
                None => !old(self).has(name@) && *final(self) == *old(self),
            },
    {
        let ghost before = *self;
        match self.find(name) {
            Some(i) => {
                let value = self.remove_at(i);
                proof {
                    self.lemma_map_after_remove(before, i as int);
                }
                Some(value)
            },
            None => {
                assert(self.map() =~= before.map().remove(name@));
                None
            },
        }
    }
}

impl<V: View> NameMap<V> {
    /// What the map holds, by name.
    pub open spec fn model(self) -> Map<Seq<char>, V::V> {
        self.map().map_values(|value: V| value@)
    }

    /// What stands at an index, in the model.
    pub proof fn lemma_model_index(self, i: int)
        requires
            self.wf(),
            0 <= i < self.names().len(),
        ensures
            self.model().dom().contains(self.names()[i]),
            self.model()[self.names()[i]] == self.values()[i]@,
    {
        self.lemma_index(i);
    }

    /// Whether a name has a value, in the model.
    pub proof fn lemma_model_has(self, name: Seq<char>)
        ensures
            self.model().dom().contains(name) == self.has(name),
            self.has(name) ==> self.model()[name] == self.at(name)@,
    {
    }

    /// The model behind an insertion.
    pub proof fn lemma_model_insert(self, before: NameMap<V>, name: Seq<char>, value: V)
        requires
            self.map() == before.map().insert(name, value),
        ensures
            self.model() == before.model().insert(name, value@),
    {
        assert(self.model() =~= before.model().insert(name, value@));
    }

    /// The model behind a change of the value at an index.
    pub proof fn lemma_model_update(self, before: NameMap<V>, at: int)
        requires
            before.wf(),
            0 <= at < before.names().len(),
            self.names() == before.names(),
            self.values() == before.values().update(at, self.values()[at]),
        ensures
            self.wf(),
            self.model() == before.model().insert(before.names()[at], self.values()[at]@),
    {
        self.lemma_map_after_update(before, at, before.names()[at], self.values()[at]);
        self.lemma_model_insert(before, before.names()[at], self.values()[at]);
    }

    /// The model behind a removal.
    pub proof fn lemma_model_remove(self, before: NameMap<V>, name: Seq<char>)
        requires
            self.map() == before.map().remove(name),
        ensures
            self.model() == before.model().remove(name),
    {
        assert(self.model() =~= before.model().remove(name));
    }
}

impl<V: View> NameMap<V> {
    /// The model behind taking out what stands at an index.
    pub proof fn lemma_model_remove_at(self, before: NameMap<V>, at: int)
        requires
            before.wf(),
            self.wf(),
            0 <= at < before.names().len(),
            self.names() == before.names().remove(at),
            self.values() == before.values().remove(at),
        ensures
            self.model() == before.model().remove(before.names()[at]),
    {
        self.lemma_map_after_remove(before, at);
        self.lemma_model_remove(before, before.names()[at]);
    }

    /// The names are those of the model, in order.
    pub proof fn lemma_model_names(self)
        requires
            self.wf(),
        ensures
            self.names() == sorted(self.model().dom()),
    {
        let dom = self.model().dom();
        assert forall|name: Seq<char>| dom.contains(name) <==> self.names().contains(name) by {
            self.lemma_model_has(name);
        }
        assert(in_order(self.names()) && lists(self.names(), dom));
        lemma_one_order(self.names(), sorted(dom), dom);
    }
}

/// The names of a sequence are those of a set.
pub open spec fn lists(names: Seq<Seq<char>>, set: Set<Seq<char>>) -> bool {
    forall|name: Seq<char>| set.contains(name) <==> #[trigger] names.contains(name)
}

/// The names of a set, in order.
pub open spec fn sorted(set: Set<Seq<char>>) -> Seq<Seq<char>> {
    choose|names: Seq<Seq<char>>| in_order(names) && #[trigger] lists(names, set)
}

/// The names of a finite set can be put in order.
pub proof fn lemma_sorted(set: Set<Seq<char>>)
    requires
        set.finite(),
    ensures
        in_order(sorted(set)),
        lists(sorted(set), set),
{
    lemma_can_be_sorted(set);
}

proof fn lemma_can_be_sorted(set: Set<Seq<char>>)
    requires
        set.finite(),
    ensures
        exists|names: Seq<Seq<char>>| in_order(names) && #[trigger] lists(names, set),
    decreases set.len(),
{
    if set.len() == 0 {
        let names = Seq::<Seq<char>>::empty();
        assert(in_order(names) && lists(names, set));
    } else {
        let name = set.choose();
        let rest = set.remove(name);
        lemma_can_be_sorted(rest);
        let names = choose|names: Seq<Seq<char>>| in_order(names) && #[trigger] lists(names, rest);
        assert(!rest.contains(name));
        assert(!names.contains(name));
        lemma_has_a_place(names, name);
        let k = choose|k: int| is_place(names, name, k);
        let more = names.insert(k, name);
        assert forall|i: int, j: int| 0 <= i < j < more.len() implies text_before(
            more[i],
            more[j],
        ) by {
            let a = if i < k {
                i
            } else {
                i - 1
            };
            let b = if j < k {
                j
            } else {
                j - 1
            };
            if i != k && j != k {
                assert(text_before(names[a], names[b]));
            }
        }
        assert forall|n: Seq<char>| set.contains(n) <==> #[trigger] more.contains(n) by {
            assert(more[k] == name);
            if more.contains(n) && n != name {
                let i = choose|i: int| 0 <= i < more.len() && more[i] == n;
                let at = if i < k {
                    i
                } else {
                    i - 1
                };
                assert(names[at] == n);
                assert(names.contains(n));
                assert(rest.contains(n));
            }
            if set.contains(n) && n != name {
                assert(names.contains(n));
                let i = choose|i: int| 0 <= i < names.len() && names[i] == n;
                let at = if i < k {
                    i
                } else {
                    i + 1
                };
                assert(more[at] == n);
            }
        }
        assert(in_order(more) && lists(more, set));
    }
}

spec fn is_place(names: Seq<Seq<char>>, name: Seq<char>, k: int) -> bool {
    &&& 0 <= k <= names.len()
    &&& forall|i: int| 0 <= i < k ==> text_before(#[trigger] names[i], name)
    &&& forall|i: int| k <= i < names.len() ==> text_before(name, #[trigger] names[i])
}

proof fn lemma_has_a_place(names: Seq<Seq<char>>, name: Seq<char>)
    requires
        in_order(names),
        !names.contains(name),
    ensures
        exists|k: int| is_place(names, name, k),
    decreases names.len(),
{
    if names.len() == 0 {
        assert(is_place(names, name, 0));
    } else {
        let last = names.last();
        assert(names.contains(last));
        crate::text::lemma_text_order(name, last);
        if text_before(last, name) {
            assert forall|i: int| 0 <= i < names.len() implies text_before(
                #[trigger] names[i],
                name,
            ) by {
                if i < names.len() - 1 {
                    crate::text::lemma_text_order_transitive(names[i], last, name);
                }
            }
            assert(is_place(names, name, names.len() as int));
        } else {
            let front = names.drop_last();
            if front.contains(name) {
                let i = choose|i: int| 0 <= i < front.len() && front[i] == name;
                assert(names[i] == name);
            }
            lemma_has_a_place(front, name);
            let k = choose|k: int| is_place(front, name, k);
            assert forall|i: int| k <= i < names.len() implies text_before(
                name,
                #[trigger] names[i],
            ) by {
                if i < names.len() - 1 {
                    assert(front[i] == names[i]);
                }
            }
            assert forall|i: int| 0 <= i < k implies text_before(#[trigger] names[i], name) by {
                assert(front[i] == names[i]);
            }
            assert(is_place(names, name, k));
        }
    }
}

/// The names of a set have one order.
pub proof fn lemma_one_order(a: Seq<Seq<char>>, b: Seq<Seq<char>>, set: Set<Seq<char>>)
    requires
        in_order(a),
        in_order(b),
        lists(a, set),
        lists(b, set),
    ensures
        a == b,
    decreases a.len(),
{
    if a.len() == 0 {
        if b.len() > 0 {
            assert(b.contains(b[0]));
            assert(a.contains(b[0]));
        }
        assert(a =~= b);
    } else {
        assert(a.contains(a[0]));
        assert(b.contains(a[0]));
        let j = choose|j: int| 0 <= j < b.len() && b[j] == a[0];
        assert(b.contains(b[0]));
        assert(a.contains(b[0]));
        let i = choose|i: int| 0 <= i < a.len() && a[i] == b[0];
        crate::text::lemma_text_order(a[0], b[0]);
        if i > 0 && j > 0 {
            assert(text_before(a[0], a[i]));
            assert(text_before(b[0], b[j]));
        }
        assert(a[0] == b[0]);
        let rest = set.remove(a[0]);
        lemma_rest_lists(a, set);
        lemma_rest_lists(b, set);
        assert forall|x: int, y: int| 0 <= x < y < a.skip(1).len() implies text_before(
            a.skip(1)[x],
            a.skip(1)[y],
        ) by {
            assert(text_before(a[x + 1], a[y + 1]));
        }
        assert forall|x: int, y: int| 0 <= x < y < b.skip(1).len() implies text_before(
            b.skip(1)[x],
            b.skip(1)[y],
        ) by {
            assert(text_before(b[x + 1], b[y + 1]));
        }
        lemma_one_order(a.skip(1), b.skip(1), rest);
        assert(a =~= seq![a[0]] + a.skip(1));
        assert(b =~= seq![b[0]] + b.skip(1));
    }
}

proof fn lemma_rest_lists(names: Seq<Seq<char>>, set: Set<Seq<char>>)
    requires
        in_order(names),
        lists(names, set),
        names.len() > 0,
    ensures
        lists(names.skip(1), set.remove(names[0])),
{
    let rest = names.skip(1);
    assert forall|name: Seq<char>| set.remove(names[0]).contains(name) <==> #[trigger] rest.contains(
        name,
    ) by {
        if rest.contains(name) {
            let k = choose|k: int| 0 <= k < rest.len() && rest[k] == name;
            assert(names[k + 1] == name);
            assert(names.contains(name));
            if name == names[0] {
                lemma_in_order_distinct(names, 0, k + 1);
            }
        }
        if set.contains(name) && name != names[0] {
            assert(names.contains(name));
            let k = choose|k: int| 0 <= k < names.len() && names[k] == name;
            assert(rest[k - 1] == name);
        }
    }
}

} // verus!
