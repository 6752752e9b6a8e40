//! Names for runs that no other run has.
use vstd::prelude::*;

use crate::names::NameMap;
use crate::text::{decimal_text, law_decimal_round_trip, push_wide_decimal};

verus! {

/// A name with a number behind it.
pub open spec fn numbered(base: Seq<char>, n: nat) -> Seq<char> {
    base.push('~') + decimal_text(n)
}

/// The first number from two on that makes a name that is not taken.
pub open spec fn first_free(taken: Set<Seq<char>>, base: Seq<char>, n: nat) -> bool {
    &&& n >= 2
    &&& !taken.contains(numbered(base, n))
    &&& forall|k: nat| 2 <= k < n ==> taken.contains(#[trigger] numbered(base, k))
}

/// A name that is not taken: the wanted one, or the wanted one with the first
/// free number behind it.
pub open spec fn fresh_name(taken: Set<Seq<char>>, base: Seq<char>) -> Seq<char> {
    if taken.contains(base) {
        numbered(base, choose|n: nat| first_free(taken, base, n))
    } else {
        base
    }
}

proof fn lemma_one_first_free(taken: Set<Seq<char>>, base: Seq<char>, a: nat, b: nat)
    requires
        first_free(taken, base, a),
        first_free(taken, base, b),
    ensures
        a == b,
{
    if a < b {
        assert(taken.contains(numbered(base, a)));
    } else if b < a {
        assert(taken.contains(numbered(base, b)));
    }
}

proof fn lemma_numbers_differ(base: Seq<char>, a: nat, b: nat)
    requires
        numbered(base, a) == numbered(base, b),
    ensures
        a == b,
{
    let front = base.push('~').len() as int;
    assert(numbered(base, a).skip(front) =~= decimal_text(a));
    assert(numbered(base, b).skip(front) =~= decimal_text(b));
    law_decimal_round_trip(a);
    law_decimal_round_trip(b);
}

/// As many names are taken as there are numbers that make taken names.
proof fn lemma_taken_numbers<V>(map: NameMap<V>, base: Seq<char>, n: nat)
    requires
        n >= 2,
        forall|k: nat| 2 <= k < n ==> map.has(#[trigger] numbered(base, k)),
    ensures
        n - 2 <= map.names().len(),
{
    let places = Seq::new((n - 2) as nat, |i: int| map.index_of(numbered(base, (i + 2) as nat)));
    let all = vstd::set_lib::set_int_range(0, map.names().len() as int);
    assert forall|i: int| 0 <= i < places.len() implies 0 <= #[trigger] places[i]
        < map.names().len() && map.names()[places[i]] == numbered(base, (i + 2) as nat) by {
        assert(map.has(numbered(base, (i + 2) as nat)));
    }
    assert forall|i: int, j: int|
        0 <= i < places.len() && 0 <= j < places.len() && i != j implies places[i] != places[j] by {
        if places[i] == places[j] {
            lemma_numbers_differ(base, (i + 2) as nat, (j + 2) as nat);
        }
    }
    assert(places.no_duplicates());
    places.unique_seq_to_set();
    vstd::set_lib::lemma_int_range(0, map.names().len() as int);
    assert forall|place: int| places.to_set().contains(place) implies all.contains(place) by {
        assert(places.contains(place));
        let i = choose|i: int| 0 <= i < places.len() && places[i] == place;
        assert(0 <= places[i] < map.names().len());
    }
    vstd::set_lib::lemma_len_subset(places.to_set(), all);
}

/// A fresh name is not taken.
pub proof fn law_fresh_name_is_free(taken: Set<Seq<char>>, base: Seq<char>)
    requires
        taken.finite(),
    ensures
        !taken.contains(fresh_name(taken, base)),
{
    if taken.contains(base) {
        let n = lemma_some_free(taken, base, 2);
        assert(first_free(taken, base, n));
    }
}

proof fn lemma_some_free(taken: Set<Seq<char>>, base: Seq<char>, from: nat) -> (n: nat)
    requires
        taken.finite(),
        from >= 2,
        forall|k: nat| 2 <= k < from ==> taken.contains(#[trigger] numbered(base, k)),
    ensures
        first_free(taken, base, n),
    decreases taken.len() + 3 - from,
{
    let names = Seq::new((from - 2) as nat, |i: int| numbered(base, (i + 2) as nat));
    assert forall|i: int, j: int|
        0 <= i < names.len() && 0 <= j < names.len() && i != j implies names[i] != names[j] by {
        if names[i] == names[j] {
            lemma_numbers_differ(base, (i + 2) as nat, (j + 2) as nat);
        }
    }
    names.unique_seq_to_set();
    assert forall|name: Seq<char>| names.to_set().contains(name) implies taken.contains(name) by {
        assert(names.contains(name));
        let i = choose|i: int| 0 <= i < names.len() && names[i] == name;
        assert(taken.contains(numbered(base, (i + 2) as nat)));
    }
    vstd::set_lib::lemma_len_subset(names.to_set(), taken);
    if taken.contains(numbered(base, from)) {
        lemma_some_free(taken, base, from + 1)
    } else {
        from
    }
}

/// The names of a map are finitely many.
proof fn lemma_names_finite<V: View>(map: NameMap<V>)
    ensures
        map.model().dom().finite(),
{
    let names = map.names();
    assert forall|name: Seq<char>| map.model().dom().contains(name) implies names.to_set().contains(
        name,
    ) by {
        map.lemma_model_has(name);
        assert(names.contains(name));
    }
    vstd::seq_lib::seq_to_set_is_finite(names);
    vstd::set_lib::lemma_set_subset_finite(names.to_set(), map.model().dom());
}

/// A run name not yet taken — appends `~2`, `~3`, … on collision (two
/// MLflow runs may share a `run_name`; different backends may share a
/// directory).
pub fn unique_run_name<V: View>(runs: &NameMap<V>, base: &str) -> (name: String)
    requires
        runs.wf(),
    ensures
        name@ == fresh_name(runs.model().dom(), base@),
        !runs.model().dom().contains(name@),
{
    let ghost taken = runs.model().dom();
    proof {
        lemma_names_finite(*runs);
        law_fresh_name_is_free(taken, base@);
        runs.lemma_model_has(base@);
    }
    if !runs.contains(base) {
        return base.to_owned();
    }
    let mut counter: u128 = 2;
    let count: usize = runs.len();
    loop
        invariant
            runs.wf(),
            taken == runs.model().dom(),
            taken.contains(base@),
            2 <= counter,
            counter - 2 <= runs.names().len(),
            runs.names().len() == count,
            forall|k: nat| 2 <= k < counter ==> taken.contains(#[trigger] numbered(base@, k)),
        decreases runs.names().len() + 3 - counter,
    {
        let mut candidate = base.to_owned();
        candidate.push('~');
        push_wide_decimal(&mut candidate, counter);
        assert(candidate@ =~= numbered(base@, counter as nat));
        proof {
            runs.lemma_model_has(candidate@);
        }
        if !runs.contains(&candidate) {
            proof {
                assert(first_free(taken, base@, counter as nat));
                let n = choose|n: nat| first_free(taken, base@, n);
                lemma_one_first_free(taken, base@, n, counter as nat);
            }
            return candidate;
        }
        proof {
            assert forall|k: nat| 2 <= k < counter + 1 implies taken.contains(
                #[trigger] numbered(base@, k),
            ) by {
                if k == counter {
                    assert(candidate@ == numbered(base@, k));
                }
            }
            assert forall|k: nat| 2 <= k < counter + 1 implies runs.has(
                #[trigger] numbered(base@, k),
            ) by {
                runs.lemma_model_has(numbered(base@, k));
                assert(taken.contains(numbered(base@, k)));
            }
            lemma_taken_numbers(*runs, base@, (counter + 1) as nat);
        }
        counter += 1;
    }
}

} // verus!
