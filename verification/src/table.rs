//! A small table with words as keys, kept in the order of insertion.

use vstd::prelude::*;
use crate::text::str_eq;

verus! {

/// A table from words to values. An entry that stands before another one
/// with the same key hides it; a table that starts empty and is changed
/// by its own functions alone never holds such a pair.
#[derive(Debug)]
pub struct Table<V> {
    pub entries: Vec<(String, V)>,
}

/// The value of the first entry from index `from` on whose key is `key`.
pub open spec fn lookup_from<V>(entries: Seq<(String, V)>, from: int, key: Seq<char>) -> Option<V>
    decreases entries.len() - from,
{
    if 0 <= from < entries.len() {
        if entries[from].0@ == key {
            Some(entries[from].1)
        } else {
            lookup_from(entries, from + 1, key)
        }
    } else {
        None
    }
}

/// The table that the entries from index `from` on stand for.
pub open spec fn table_from<V>(entries: Seq<(String, V)>, from: int) -> Map<Seq<char>, V> {
    Map::new(
        |key: Seq<char>| lookup_from(entries, from, key) is Some,
        |key: Seq<char>| lookup_from(entries, from, key)->0,
    )
}

/// Replacing the value of the first entry with a key changes the lookup of
/// that key and of no other.
pub proof fn lemma_lookup_update<V>(
    entries: Seq<(String, V)>,
    from: int,
    at: int,
    entry: (String, V),
    key: Seq<char>,
)
    requires
        0 <= from <= at < entries.len(),
        entries[at].0@ == entry.0@,
        forall|j: int| from <= j < at ==> (#[trigger] entries[j]).0@ != entry.0@,
    ensures
        lookup_from(entries.update(at, entry), from, key) == if key == entry.0@ {
            Some(entry.1)
        } else {
            lookup_from(entries, from, key)
        },
    decreases at - from,
{
    let after = entries.update(at, entry);
    if from < at {
        assert(after[from] == entries[from]);
        lemma_lookup_update(entries, from + 1, at, entry, key);
    } else {
        lemma_lookup_same_tail(entries, after, from + 1, key);
    }
}

/// Lookups from an index on depend only on the entries from that index on.
pub proof fn lemma_lookup_same_tail<V>(
    a: Seq<(String, V)>,
    b: Seq<(String, V)>,
    from: int,
    key: Seq<char>,
)
    requires
        a.len() == b.len(),
        0 <= from,
        forall|j: int| from <= j < a.len() ==> a[j] == b[j],
    ensures
        lookup_from(a, from, key) == lookup_from(b, from, key),
    decreases a.len() - from,
{
    if from < a.len() {
        lemma_lookup_same_tail(a, b, from + 1, key);
    }
}

/// Appending an entry whose key is new changes the lookup of that key and
/// of no other.
pub proof fn lemma_lookup_push<V>(
    entries: Seq<(String, V)>,
    from: int,
    entry: (String, V),
    key: Seq<char>,
)
    requires
        0 <= from <= entries.len(),
        forall|j: int| from <= j < entries.len() ==> (#[trigger] entries[j]).0@ != entry.0@,
    ensures
        lookup_from(entries.push(entry), from, key) == if key == entry.0@ {
            Some(entry.1)
        } else {
            lookup_from(entries, from, key)
        },
    decreases entries.len() - from,
{
    let after = entries.push(entry);
    if from < entries.len() {
        assert(after[from] == entries[from]);
        lemma_lookup_push(entries, from + 1, entry, key);
    } else {
        assert(after[from] == entry);
        assert(lookup_from(after, from + 1, key) is None);
    }
}

/// Whether no two of `entries` have the same key.
pub open spec fn distinct_keys<V>(entries: Seq<(String, V)>) -> bool {
    forall|i: int, j: int|
        0 <= i < entries.len() && 0 <= j < entries.len() && i != j ==> (#[trigger] entries[i]).0@
            != (#[trigger] entries[j]).0@
}

impl<V> View for Table<V> {
    type V = Map<Seq<char>, V>;

    open spec fn view(&self) -> Map<Seq<char>, V> {
        table_from(self.entries@, 0)
    }
}

impl<V> Table<V> {
    /// The empty table.
    pub fn new() -> (table: Table<V>)
        ensures
            table@ == Map::<Seq<char>, V>::empty(),
            table.entries@.len() == 0,
            distinct_keys(table.entries@),
    {
        let table = Table { entries: Vec::new() };
        assert(table@ =~= Map::<Seq<char>, V>::empty());
        table
    }

    /// Number of entries.
    pub fn len(&self) -> (n: usize)
        ensures
            n == self.entries@.len(),
    {
        self.entries.len()
    }

    /// Position of the entry that answers for `key`.
    fn position(&self, key: &str) -> (at: Option<usize>)
        ensures
            match at {
                Some(i) => i < self.entries@.len() && self.entries@[i as int].0@ == key@
                    && lookup_from(self.entries@, 0, key@) == Some(self.entries@[i as int].1)
                    && forall|j: int| 0 <= j < i ==> (#[trigger] self.entries@[j]).0@ != key@,
                None => lookup_from(self.entries@, 0, key@) is None && forall|j: int|
                    0 <= j < self.entries@.len() ==> (#[trigger] self.entries@[j]).0@ != key@,
            },
    {
        let mut i: usize = 0;
        while i < self.entries.len()
            invariant
                0 <= i <= self.entries@.len(),
                lookup_from(self.entries@, 0, key@) == lookup_from(self.entries@, i as int, key@),
                forall|j: int| 0 <= j < i ==> (#[trigger] self.entries@[j]).0@ != key@,
            decreases self.entries@.len() - i,
        {
            if str_eq(self.entries[i].0.as_str(), key) {
                return Some(i);
            }
            i += 1;
        }
        None
    }

    /// The value that the table holds for `key`.
    pub fn get(&self, key: &str) -> (value: Option<&V>)
        ensures
            value is Some <==> self@.contains_key(key@),
            value is Some ==> *value->0 == self@[key@],
    {
        match self.position(key) {
            Some(i) => Some(&self.entries[i].1),
            None => None,
        }
    }

    /// Whether the table holds a value for `key`.
    pub fn contains_key(&self, key: &str) -> (found: bool)
        ensures
            found == self@.contains_key(key@),
    {
        self.position(key).is_some()
    }

    /// Sets the value for `key`, in place of the one that the table held
    /// for it, if any.
    pub fn insert(&mut self, key: String, value: V)
        ensures
            final(self)@ == old(self)@.insert(key@, value),
            distinct_keys(old(self).entries@) ==> distinct_keys(final(self).entries@),
    {
        let ghost before = self.entries@;
        let ghost entry = (key, value);
        match self.position(key.as_str()) {
            Some(i) => {
                self.entries.set(i, (key, value));
                assert(distinct_keys(before) ==> distinct_keys(self.entries@)) by {
                    if distinct_keys(before) {
                        assert forall|a: int, b: int|
                            0 <= a < self.entries@.len() && 0 <= b < self.entries@.len() && a
                                != b implies (#[trigger] self.entries@[a]).0@
                            != (#[trigger] self.entries@[b]).0@ by {
                            assert(self.entries@[a].0@ == before[a].0@);
                            assert(self.entries@[b].0@ == before[b].0@);
                        }
                    }
                }
                assert forall|k: Seq<char>|
                    lookup_from(self.entries@, 0, k) == if k == entry.0@ {
                        Some(entry.1)
                    } else {
                        lookup_from(before, 0, k)
                    } by {
                    lemma_lookup_update(before, 0, i as int, entry, k);
                }
            },
            None => {
                self.entries.push((key, value));
                assert(distinct_keys(before) ==> distinct_keys(self.entries@)) by {
                    if distinct_keys(before) {
                        assert forall|a: int, b: int|
                            0 <= a < self.entries@.len() && 0 <= b < self.entries@.len() && a
                                != b implies (#[trigger] self.entries@[a]).0@
                            != (#[trigger] self.entries@[b]).0@ by {
                            if a < before.len() {
                                assert(self.entries@[a] == before[a]);
                            }
                            if b < before.len() {
                                assert(self.entries@[b] == before[b]);
                            }
                        }
                    }
                }
                assert forall|k: Seq<char>|
                    lookup_from(self.entries@, 0, k) == if k == entry.0@ {
                        Some(entry.1)
                    } else {
                        lookup_from(before, 0, k)
                    } by {
                    lemma_lookup_push(before, 0, entry, k);
                }
            },
        }
        assert(self@ =~= old(self)@.insert(key@, value));
    }

    /// Takes over every entry of `other`; where both tables hold a value
    /// for a key, that of `other` stays.
    pub fn extend(&mut self, other: Table<V>)
        ensures
            final(self)@ == old(self)@.union_prefer_right(other@),
            distinct_keys(old(self).entries@) ==> distinct_keys(final(self).entries@),
    {
        let ghost all = other.entries@;
        let mut rest = other.entries;
        assert(self@ =~= old(self)@.union_prefer_right(table_from(all, all.len() as int)));
        while rest.len() > 0
            invariant
                rest@.len() <= all.len(),
                rest@ == all.take(rest@.len() as int),
                self@ == old(self)@.union_prefer_right(table_from(all, rest@.len() as int)),
                distinct_keys(old(self).entries@) ==> distinct_keys(self.entries@),
            decreases rest@.len(),
        {
            let ghost n = rest@.len() as int;
            let (key, value) = rest.pop().unwrap();
            assert((key, value) == all[n - 1]);
            self.insert(key, value);
            assert(self@ =~= old(self)@.union_prefer_right(table_from(all, n - 1)));
        }
    }
}

} // verus!
