//! A map from names to values that remembers the order in which names were added.
use vstd::prelude::*;

use crate::text::str_eq;

verus! {

/// A map keyed by text. No name occurs twice.
#[derive(Debug)]
pub struct Table<V> {
    entries: Vec<(String, V)>,
}

/// The position of `key` among the entries.
spec fn entry_at<V>(entries: Seq<(String, V)>, key: Seq<char>, at: int) -> bool {
    0 <= at < entries.len() && entries[at].0@ == key
}

spec fn distinct<V>(entries: Seq<(String, V)>) -> bool {
    forall|i: int, j: int|
        0 <= i < j < entries.len() ==> (#[trigger] entries[i]).0@ != (#[trigger] entries[j]).0@
}

spec fn entry_map<V>(entries: Seq<(String, V)>) -> Map<Seq<char>, V> {
    Map::new(
        |key: Seq<char>| exists|at: int| entry_at(entries, key, at),
        |key: Seq<char>| entries[choose|at: int| entry_at(entries, key, at)].1,
    )
}

spec fn entry_keys<V>(entries: Seq<(String, V)>) -> Seq<Seq<char>> {
    entries.map_values(|entry: (String, V)| entry.0@)
}

proof fn lemma_entry<V>(entries: Seq<(String, V)>, at: int)
    requires
        distinct(entries),
        0 <= at < entries.len(),
    ensures
        entry_map(entries).contains_key(entries[at].0@),
        entry_map(entries)[entries[at].0@] == entries[at].1,
{
    let key = entries[at].0@;
    assert(entry_at(entries, key, at));
    let found = choose|i: int| entry_at(entries, key, i);
    if found < at {
        assert(entries[found].0@ != entries[at].0@);
    } else if at < found {
        assert(entries[at].0@ != entries[found].0@);
    }
}

impl<V> View for Table<V> {
    type V = Map<Seq<char>, V>;

    closed spec fn view(&self) -> Map<Seq<char>, V> {
        entry_map(self.entries@)
    }
}

impl<V> Table<V> {
    #[verifier::type_invariant]
    spec fn names_are_distinct(self) -> bool {
        distinct(self.entries@)
    }

    /// The names, in the order in which they were added.
    pub closed spec fn keys(self) -> Seq<Seq<char>> {
        entry_keys(self.entries@)
    }

    /// The empty table.
    pub fn new() -> (r: Self)
        ensures
            r@ == Map::<Seq<char>, V>::empty(),
            r.keys() == Seq::<Seq<char>>::empty(),
    {
        let r = Table { entries: Vec::new() };
        assert(r@ =~= Map::<Seq<char>, V>::empty());
        assert(r.keys() =~= Seq::<Seq<char>>::empty());
        r
    }

    /// The position of a name among the entries.
    fn position(&self, key: &str) -> (r: Option<usize>)
        ensures
            match r {
                Some(at) => entry_at(self.entries@, key@, at as int),
                None => forall|at: int| !entry_at(self.entries@, key@, at),
            },
    {
        let mut i: usize = 0;
        while i < self.entries.len()
            invariant
                i <= self.entries@.len(),
                forall|at: int| 0 <= at < i ==> !entry_at(self.entries@, key@, at),
            decreases self.entries@.len() - i,
        {
            if str_eq(&self.entries[i].0, key) {
                return Some(i);
            }
            i += 1;
        }
        None
    }

    /// The value under a name.
    pub fn get(&self, key: &str) -> (r: Option<&V>)
        ensures
            r is Some <==> self@.contains_key(key@),
            r matches Some(v) ==> *v == self@[key@],
    {
        proof {
            use_type_invariant(self);
        }
        match self.position(key) {
            Some(at) => {
                proof {
                    lemma_entry(self.entries@, at as int);
                }
                Some(&self.entries[at].1)
            },
            None => None,
        }
    }

    /// Whether a name is there.
    pub fn contains_key(&self, key: &str) -> (r: bool)
        ensures
            r == self@.contains_key(key@),
    {
        self.get(key).is_some()
    }

    /// The number of names. The names are distinct, and they are the domain of the map.
    pub fn len(&self) -> (r: usize)
        ensures
            r == self.keys().len(),
            self.keys().no_duplicates(),
            forall|key: Seq<char>| #[trigger]
                self@.contains_key(key) <==> self.keys().contains(key),
    {
        proof {
            use_type_invariant(self);
            let entries = self.entries@;
            assert forall|key: Seq<char>| #[trigger]
                self@.contains_key(key) <==> self.keys().contains(key) by {
                if self@.contains_key(key) {
                    let at = choose|at: int| entry_at(entries, key, at);
                    assert(self.keys()[at] == key);
                }
                if self.keys().contains(key) {
                    let at = choose|at: int| 0 <= at < self.keys().len() && self.keys()[at] == key;
                    assert(entry_at(entries, key, at));
                }
            }
        }
        self.entries.len()
    }

    /// The name at a position.
    pub fn key_at(&self, i: usize) -> (r: &String)
        requires
            i < self.keys().len(),
        ensures
            r@ == self.keys()[i as int],
            self@.contains_key(r@),
    {
        proof {
            use_type_invariant(self);
            lemma_entry(self.entries@, i as int);
        }
        &self.entries[i].0
    }

    /// The value at a position.
    pub fn value_at(&self, i: usize) -> (r: &V)
        requires
            i < self.keys().len(),
        ensures
            self@.contains_key(self.keys()[i as int]),
            *r == self@[self.keys()[i as int]],
    {
        proof {
            use_type_invariant(self);
            lemma_entry(self.entries@, i as int);
        }
        &self.entries[i].1
    }

    /// Puts a value under a name, in place of the one that was there.
    pub fn insert(&mut self, key: String, value: V)
        ensures
            final(self)@ == old(self)@.insert(key@, value),
            final(self).keys() == if old(self)@.contains_key(key@) {
                old(self).keys()
            } else {
                old(self).keys().push(key@)
            },
    {
        proof {
            use_type_invariant(&*self);
        }
        let found = self.position(&key);
        let mut entries: Vec<(String, V)> = Vec::new();
        std::mem::swap(&mut entries, &mut self.entries);
        let ghost before = entries@;
        match found {
            Some(at) => {
                entries.set(at, (key, value));
                proof {
                    assert(distinct(entries@)) by {
                        assert forall|i: int, j: int| 0 <= i < j < entries@.len() implies (
                        #[trigger] entries@[i]).0@ != (#[trigger] entries@[j]).0@ by {
                            assert(before[i].0@ != before[j].0@);
                        }
                    }
                    lemma_replaced(before, entries@, at as int, key@, value);
                }
            },
            None => {
                entries.push((key, value));
                proof {
                    assert forall|i: int, j: int| 0 <= i < j < entries@.len() implies (
                    #[trigger] entries@[i]).0@ != (#[trigger] entries@[j]).0@ by {
                        if j < before.len() {
                            assert(before[i].0@ != before[j].0@);
                        } else {
                            assert(!entry_at(before, key@, i));
                        }
                    }
                    lemma_added(before, entries@, key@, value);
                }
            },
        }
        self.entries = entries;
    }

    /// Takes a name and its value out.
    pub fn remove(&mut self, key: &str) -> (r: Option<V>)
        ensures
            final(self)@ == old(self)@.remove(key@),
            r is Some <==> old(self)@.contains_key(key@),
            r matches Some(v) ==> v == old(self)@[key@],
            final(self).keys() == old(self).keys().filter(not_key(key@)),
    {
        proof {
            use_type_invariant(&*self);
        }
        let found = self.position(key);
        let mut entries: Vec<(String, V)> = Vec::new();
        std::mem::swap(&mut entries, &mut self.entries);
        let ghost before = entries@;
        let r = match found {
            Some(at) => {
                let entry = entries.remove(at);
                proof {
                    lemma_entry(before, at as int);
                    assert forall|i: int, j: int| 0 <= i < j < entries@.len() implies (
                    #[trigger] entries@[i]).0@ != (#[trigger] entries@[j]).0@ by {
                        let x = if i < at {
                            i
                        } else {
                            i + 1
                        };
                        let y = if j < at {
                            j
                        } else {
                            j + 1
                        };
                        assert(before[x].0@ != before[y].0@);
                    }
                    lemma_removed(before, entries@, at as int, key@);
                }
                Some(entry.1)
            },
            None => {
                proof {
                    assert(!entry_map(before).contains_key(key@));
                    assert(entry_map(before).remove(key@) =~= entry_map(before));
                    assert forall|i: int| 0 <= i < entry_keys(before).len() implies
                        #[trigger] entry_keys(before)[i] != key@ by {
                        assert(!entry_at(before, key@, i));
                    }
                    lemma_filter_absent(entry_keys(before), key@);
                }
                None
            },
        };
        self.entries = entries;
        r
    }
}

/// Difference from a name, as a predicate.
pub open spec fn not_key(key: Seq<char>) -> spec_fn(Seq<char>) -> bool {
    |k: Seq<char>| k != key
}

proof fn lemma_filter_absent(keys: Seq<Seq<char>>, key: Seq<char>)
    requires
        forall|i: int| 0 <= i < keys.len() ==> #[trigger] keys[i] != key,
    ensures
        keys.filter(not_key(key)) == keys,
    decreases keys.len(),
{
    reveal(Seq::filter);
    if keys.len() > 0 {
        lemma_filter_absent(keys.drop_last(), key);
        assert(keys.drop_last().push(keys.last()) =~= keys);
    } else {
        assert(keys.filter(not_key(key)) =~= keys);
    }
}

proof fn lemma_filter_one(keys: Seq<Seq<char>>, key: Seq<char>, at: int)
    requires
        0 <= at < keys.len(),
        keys[at] == key,
        forall|i: int| 0 <= i < keys.len() && i != at ==> #[trigger] keys[i] != key,
    ensures
        keys.filter(not_key(key)) == keys.remove(at),
    decreases keys.len(),
{
    reveal(Seq::filter);
    if at == keys.len() - 1 {
        lemma_filter_absent(keys.drop_last(), key);
        assert(keys.remove(at) =~= keys.drop_last());
    } else {
        lemma_filter_one(keys.drop_last(), key, at);
        assert(keys.drop_last().remove(at).push(keys.last()) =~= keys.remove(at));
    }
}

proof fn lemma_replaced<V>(
    before: Seq<(String, V)>,
    after: Seq<(String, V)>,
    at: int,
    key: Seq<char>,
    value: V,
)
    requires
        distinct(before),
        distinct(after),
        entry_at(before, key, at),
        after.len() == before.len(),
        after[at].0@ == key,
        after[at].1 == value,
        forall|i: int| 0 <= i < before.len() && i != at ==> after[i] == before[i],
    ensures
        entry_map(after) == entry_map(before).insert(key, value),
        entry_keys(after) == entry_keys(before),
        entry_map(before).contains_key(key),
{
    lemma_entry(before, at);
    lemma_entry(after, at);
    let want = entry_map(before).insert(key, value);
    assert forall|k: Seq<char>|
        #![trigger entry_map(after).dom().contains(k)]
        #![trigger want.dom().contains(k)]
        #![trigger entry_map(after)[k]]
        entry_map(after).dom().contains(k) == want.dom().contains(k) && (entry_map(
            after,
        ).dom().contains(k) ==> entry_map(after)[k] == want[k]) by {
        if k != key {
            if entry_map(after).contains_key(k) {
                let i = choose|i: int| entry_at(after, k, i);
                lemma_entry(after, i);
                lemma_entry(before, i);
            }
            if entry_map(before).contains_key(k) {
                let i = choose|i: int| entry_at(before, k, i);
                lemma_entry(after, i);
            }
        }
    }
    assert(entry_map(after) =~= want);
    assert(entry_keys(after) =~= entry_keys(before));
}

proof fn lemma_added<V>(
    before: Seq<(String, V)>,
    after: Seq<(String, V)>,
    key: Seq<char>,
    value: V,
)
    requires
        distinct(before),
        distinct(after),
        forall|at: int| !entry_at(before, key, at),
        after.len() == before.len() + 1,
        after.last().0@ == key,
        after.last().1 == value,
        forall|i: int| 0 <= i < before.len() ==> after[i] == before[i],
    ensures
        entry_map(after) == entry_map(before).insert(key, value),
        entry_keys(after) == entry_keys(before).push(key),
        !entry_map(before).contains_key(key),
{
    lemma_entry(after, after.len() - 1);
    let want = entry_map(before).insert(key, value);
    assert forall|k: Seq<char>|
        #![trigger entry_map(after).dom().contains(k)]
        #![trigger want.dom().contains(k)]
        #![trigger entry_map(after)[k]]
        entry_map(after).dom().contains(k) == want.dom().contains(k) && (entry_map(
            after,
        ).dom().contains(k) ==> entry_map(after)[k] == want[k]) by {
        if k != key {
            if entry_map(after).contains_key(k) {
                let i = choose|i: int| entry_at(after, k, i);
                lemma_entry(after, i);
                lemma_entry(before, i);
            }
            if entry_map(before).contains_key(k) {
                let i = choose|i: int| entry_at(before, k, i);
                lemma_entry(after, i);
            }
        }
    }
    assert(entry_map(after) =~= want);
    assert(entry_keys(after) =~= entry_keys(before).push(key));
}

proof fn lemma_removed<V>(
    before: Seq<(String, V)>,
    after: Seq<(String, V)>,
    at: int,
    key: Seq<char>,
)
    requires
        distinct(before),
        distinct(after),
        entry_at(before, key, at),
        after == before.remove(at),
    ensures
        entry_map(after) == entry_map(before).remove(key),
        entry_keys(after) == entry_keys(before).filter(not_key(key)),
{
    let want = entry_map(before).remove(key);
    assert forall|k: Seq<char>|
        #![trigger entry_map(after).dom().contains(k)]
        #![trigger want.dom().contains(k)]
        #![trigger entry_map(after)[k]]
        entry_map(after).dom().contains(k) == want.dom().contains(k) && (entry_map(
            after,
        ).dom().contains(k) ==> entry_map(after)[k] == want[k]) by {
        if entry_map(after).contains_key(k) {
            let i = choose|i: int| entry_at(after, k, i);
            lemma_entry(after, i);
            let j = if i < at {
                i
            } else {
                i + 1
            };
            lemma_entry(before, j);
            assert(before[at].0@ != before[j].0@);
        }
        if entry_map(before).contains_key(k) && k != key {
            let i = choose|i: int| entry_at(before, k, i);
            lemma_entry(before, i);
            lemma_entry(after, if i < at {
                i
            } else {
                i - 1
            });
        }
    }
    assert(entry_map(after) =~= want);
    let keys = entry_keys(before);
    assert forall|i: int| 0 <= i < keys.len() && i != at implies #[trigger] keys[i] != key by {
        assert(before[i].0@ != before[at].0@);
    }
    lemma_filter_one(keys, key, at);
    assert(entry_keys(after) =~= keys.remove(at));
}

} // verus!
