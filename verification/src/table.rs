//! A small map from text keys to values, kept in the order of insertion.
use vstd::prelude::*;

verus! {

/// A map from text keys to values.
pub struct Table<V> {
    entries: Vec<(String, V)>,
}

/// Whether `key` is the key of entry `i`.
spec fn key_at<V>(entries: Seq<(String, V)>, i: int, key: Seq<char>) -> bool {
    0 <= i < entries.len() && entries[i].0@ == key
}

/// The map that a list of entries stands for.
spec fn entries_map<V: View>(entries: Seq<(String, V)>) -> Map<Seq<char>, V::V> {
    Map::new(
        |key: Seq<char>| exists|i: int| key_at(entries, i, key),
        |key: Seq<char>| entries[choose|i: int| key_at(entries, i, key)].1@,
    )
}

/// Whether no key occurs twice.
spec fn distinct_keys<V>(entries: Seq<(String, V)>) -> bool {
    forall|i: int, j: int|
        0 <= i < entries.len() && 0 <= j < entries.len() && i != j ==> #[trigger] entries[i].0@
            != #[trigger] entries[j].0@
}

proof fn lemma_entry<V: View>(entries: Seq<(String, V)>, i: int)
    requires
        distinct_keys(entries),
        0 <= i < entries.len(),
    ensures
        entries_map(entries).contains_key(entries[i].0@),
        entries_map(entries)[entries[i].0@] == entries[i].1@,
{
    let key = entries[i].0@;
    assert(key_at(entries, i, key));
    let j = choose|j: int| key_at(entries, j, key);
    assert(key_at(entries, j, key));
    assert(entries[i].0@ == entries[j].0@);
}

impl<V: View> View for Table<V> {
    type V = Map<Seq<char>, V::V>;

    closed spec fn view(&self) -> Map<Seq<char>, V::V> {
        entries_map(self.entries@)
    }
}

impl<V> Table<V> {
    #[verifier::type_invariant]
    spec fn keys_are_distinct(self) -> bool {
        distinct_keys(self.entries@)
    }
}

impl<V: View> Table<V> {
    /// A table without entries.
    pub fn new() -> (table: Self)
        ensures
            table@ == Map::<Seq<char>, V::V>::empty(),
    {
        let table = Table { entries: Vec::new() };
        proof {
            assert(table@ =~= Map::<Seq<char>, V::V>::empty());
        }
        table
    }

    /// Where `key` stands among the entries.
    fn position(&self, key: &str) -> (found: Option<usize>)
        ensures
            match found {
                Some(i) => key_at(self.entries@, i as int, key@) && self@.contains_key(key@)
                    && self@[key@] == self.entries@[i as int].1@,
                None => !self@.contains_key(key@) && forall|i: int|
                    0 <= i < self.entries@.len() ==> #[trigger] self.entries@[i].0@ != key@,
            },
    {
        proof {
            use_type_invariant(self);
        }
        let wanted: String = key.to_owned();
        let mut i: usize = 0;
        while i < self.entries.len()
            invariant
                wanted@ == key@,
                i <= self.entries@.len(),
                distinct_keys(self.entries@),
                forall|j: int| 0 <= j < i ==> #[trigger] self.entries@[j].0@ != key@,
            decreases self.entries.len() - i,
        {
            if self.entries[i].0 == wanted {
                proof {
                    lemma_entry(self.entries@, i as int);
                }
                return Some(i);
            }
            i += 1;
        }
        proof {
            if self@.contains_key(key@) {
                let j = choose|j: int| key_at(self.entries@, j, key@);
                assert(self.entries@[j].0@ == key@);
            }
        }
        None
    }

    /// Whether the table has an entry for `key`.
    pub fn contains_key(&self, key: &str) -> (contained: bool)
        ensures
            contained == self@.contains_key(key@),
    {
        self.position(key).is_some()
    }

    /// Whether the table has no entry.
    pub fn is_empty(&self) -> (empty: bool)
        ensures
            empty == (self@ == Map::<Seq<char>, V::V>::empty()),
    {
        proof {
            use_type_invariant(self);
            if self.entries@.len() > 0 {
                lemma_entry(self.entries@, 0);
            } else {
                assert(self@ =~= Map::<Seq<char>, V::V>::empty());
            }
        }
        self.entries.is_empty()
    }

    /// The value of `key`.
    pub fn get(&self, key: &str) -> (found: Option<&V>)
        ensures
            match found {
                Some(value) => self@.contains_key(key@) && value@ == self@[key@],
                None => !self@.contains_key(key@),
            },
    {
        match self.position(key) {
            Some(i) => Some(&self.entries[i].1),
            None => None,
        }
    }

    /// Removes the entry of `key` and hands back its value.
    pub fn remove(&mut self, key: &str) -> (removed: Option<V>)
        ensures
            final(self)@ == old(self)@.remove(key@),
            match removed {
                Some(value) => old(self)@.contains_key(key@) && value@ == old(self)@[key@],
                None => !old(self)@.contains_key(key@),
            },
    {
        match self.position(key) {
            Some(i) => {
                proof {
                    use_type_invariant(&*self);
                }
                let ghost before = self.entries@;
                let mut entries: Vec<(String, V)> = Vec::new();
                std::mem::swap(&mut entries, &mut self.entries);
                let removed = entries.remove(i);
                proof {
                    lemma_removed(before, i as int);
                }
                self.entries = entries;
                Some(removed.1)
            },
            None => {
                proof {
                    assert(self@ =~= old(self)@.remove(key@));
                }
                None
            },
        }
    }

    /// Gives `key` the value `value`, whether or not it had one.
    pub fn insert(&mut self, key: String, value: V)
        ensures
            final(self)@ == old(self)@.insert(key@, value@),
    {
        let removed = self.remove(key.as_str());
        proof {
            use_type_invariant(&*self);
            assert forall|j: int| 0 <= j < self.entries@.len() implies #[trigger] self.entries@[j].0@
                != key@ by {
                lemma_entry(self.entries@, j);
            }
            lemma_pushed(self.entries@, (key, value));
            assert(old(self)@.remove(key@).insert(key@, value@) =~= old(self)@.insert(
                key@,
                value@,
            ));
        }
        let mut entries: Vec<(String, V)> = Vec::new();
        std::mem::swap(&mut entries, &mut self.entries);
        entries.push((key, value));
        self.entries = entries;
    }

    /// Removes every entry.
    pub fn clear(&mut self)
        ensures
            final(self)@ == Map::<Seq<char>, V::V>::empty(),
    {
        *self = Table::new();
    }
}

proof fn lemma_removed<V: View>(entries: Seq<(String, V)>, i: int)
    requires
        distinct_keys(entries),
        0 <= i < entries.len(),
    ensures
        distinct_keys(entries.remove(i)),
        entries_map(entries.remove(i)) == entries_map(entries).remove(entries[i].0@),
{
    let after = entries.remove(i);
    let key = entries[i].0@;
    assert forall|j: int, k: int|
        0 <= j < after.len() && 0 <= k < after.len() && j != k implies #[trigger] after[j].0@
        != #[trigger] after[k].0@ by {
        let j0 = if j < i { j } else { j + 1 };
        let k0 = if k < i { k } else { k + 1 };
        assert(entries[j0].0@ != entries[k0].0@);
    }
    assert forall|other: Seq<char>|
        #![trigger entries_map(after).contains_key(other)]
        entries_map(after).contains_key(other) == (entries_map(entries).contains_key(other)
            && other != key) && (entries_map(after).contains_key(other) ==> entries_map(
            after,
        )[other] == entries_map(entries)[other]) by {
        if entries_map(after).contains_key(other) {
            let j = choose|j: int| key_at(after, j, other);
            let j0 = if j < i { j } else { j + 1 };
            assert(after[j] == entries[j0]);
            lemma_entry(after, j);
            lemma_entry(entries, j0);
            assert(entries[j0].0@ != entries[i].0@);
        }
        if entries_map(entries).contains_key(other) && other != key {
            let j0 = choose|j: int| key_at(entries, j, other);
            let j = if j0 < i { j0 } else { j0 - 1 };
            assert(after[j] == entries[j0]);
            assert(key_at(after, j, other));
        }
    }
    assert(entries_map(after) =~= entries_map(entries).remove(key));
}

proof fn lemma_pushed<V: View>(entries: Seq<(String, V)>, entry: (String, V))
    requires
        distinct_keys(entries),
        forall|j: int| 0 <= j < entries.len() ==> #[trigger] entries[j].0@ != entry.0@,
    ensures
        distinct_keys(entries.push(entry)),
        entries_map(entries.push(entry)) == entries_map(entries).insert(entry.0@, entry.1@),
{
    let after = entries.push(entry);
    assert forall|other: Seq<char>|
        #![trigger entries_map(after).contains_key(other)]
        entries_map(after).contains_key(other) == (entries_map(entries).contains_key(other)
            || other == entry.0@) && (entries_map(after).contains_key(other) ==> entries_map(
            after,
        )[other] == entries_map(entries).insert(entry.0@, entry.1@)[other]) by {
        if entries_map(after).contains_key(other) {
            let j = choose|j: int| key_at(after, j, other);
            lemma_entry(after, j);
            if j < entries.len() {
                assert(after[j] == entries[j]);
                lemma_entry(entries, j);
            }
        }
        if entries_map(entries).contains_key(other) {
            let j = choose|j: int| key_at(entries, j, other);
            assert(after[j] == entries[j]);
            assert(key_at(after, j, other));
        }
        if other == entry.0@ {
            assert(key_at(after, entries.len() as int, other));
        }
    }
    assert(entries_map(after) =~= entries_map(entries).insert(entry.0@, entry.1@));
}

} // verus!
