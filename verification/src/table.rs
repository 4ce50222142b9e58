//! A small keyed table: at most one value per key.

use vstd::prelude::*;

verus! {

/// A key of a [`Table`]. Two keys are the same key when their views are equal.
pub trait Key: View + Sized {
    /// Whether `self` and `other` are the same key.
    fn same_key(&self, other: &Self) -> (same: bool)
        ensures
            same == (self@ == other@),
    ;

    /// Another copy of the same key.
    fn copy_key(&self) -> (copy: Self)
        ensures
            copy@ == self@,
    ;
}

impl Key for String {
    fn same_key(&self, other: &Self) -> (same: bool) {
        *self == *other
    }

    fn copy_key(&self) -> (copy: Self) {
        self.clone()
    }
}

/// The mapping that a sequence of entries stands for: a later entry replaces an
/// earlier one with the same key.
pub open spec fn filed<K: View, V>(entries: Seq<(K, V)>) -> Map<<K as View>::V, V>
    decreases entries.len(),
{
    if entries.len() == 0 {
        Map::empty()
    } else {
        filed(entries.drop_last()).insert(entries.last().0@, entries.last().1)
    }
}

/// A mapping with each value taken by its view.
pub open spec fn viewed<A, V: View>(values: Map<A, V>) -> Map<A, <V as View>::V> {
    values.map_values(|value: V| value@)
}

/// No key occurs twice in `entries`.
pub open spec fn distinct_keys<K: View, V>(entries: Seq<(K, V)>) -> bool {
    forall|i: int, j: int|
        0 <= i < j < entries.len() ==> #[trigger] entries[i].0@ != #[trigger] entries[j].0@
}

/// What [`filed`] is when no key occurs twice: every entry is in it, nothing
/// else is, and it has as many keys as there are entries.
pub proof fn lemma_filed<K: View, V>(entries: Seq<(K, V)>)
    requires
        distinct_keys(entries),
    ensures
        filed(entries).dom().finite(),
        filed(entries).len() == entries.len(),
        forall|i: int|
            0 <= i < entries.len() ==> filed(entries).contains_key(#[trigger] entries[i].0@)
                && filed(entries)[entries[i].0@] == entries[i].1,
        forall|k: <K as View>::V| #[trigger]
            filed(entries).contains_key(k) ==> exists|i: int|
                0 <= i < entries.len() && #[trigger] entries[i].0@ == k,
    decreases entries.len(),
{
    if entries.len() > 0 {
        let front = entries.drop_last();
        lemma_filed(front);
        assert(!filed(front).contains_key(entries.last().0@)) by {
            if filed(front).contains_key(entries.last().0@) {
                let i = choose|i: int|
                    0 <= i < front.len() && #[trigger] front[i].0@ == entries.last().0@;
                assert(entries[i] == front[i]);
                assert(entries[entries.len() - 1] == entries.last());
            }
        }
        assert forall|i: int| 0 <= i < entries.len() implies filed(entries).contains_key(
            #[trigger] entries[i].0@,
        ) && filed(entries)[entries[i].0@] == entries[i].1 by {
            if i < entries.len() - 1 {
                assert(entries[i] == front[i]);
                assert(entries[entries.len() - 1] == entries.last());
            }
        }
        assert forall|k: <K as View>::V| #[trigger]
            filed(entries).contains_key(k) implies exists|i: int|
            0 <= i < entries.len() && #[trigger] entries[i].0@ == k by {
            if k == entries.last().0@ {
                assert(entries[entries.len() - 1].0@ == k);
            } else {
                let i = choose|i: int| 0 <= i < front.len() && #[trigger] front[i].0@ == k;
                assert(entries[i].0@ == k);
            }
        }
    }
}

/// Writing over the entry at `i` with the same key replaces that key's value.
proof fn lemma_overwritten<K: View, V>(before: Seq<(K, V)>, i: int, entry: (K, V))
    requires
        distinct_keys(before),
        0 <= i < before.len(),
        before[i].0@ == entry.0@,
    ensures
        distinct_keys(before.update(i, entry)),
        filed(before.update(i, entry)) == filed(before).insert(entry.0@, entry.1),
{
    let after = before.update(i, entry);
    assert forall|a: int, b: int| 0 <= a < b < after.len() implies #[trigger] after[a].0@
        != #[trigger] after[b].0@ by {
        assert(after[a].0@ == before[a].0@);
        assert(after[b].0@ == before[b].0@);
    }
    lemma_filed(before);
    lemma_filed(after);
    let expected = filed(before).insert(entry.0@, entry.1);
    assert forall|k: <K as View>::V|
        #[trigger] filed(after).contains_key(k) == expected.contains_key(k) && (
        expected.contains_key(k) ==> filed(after)[k] == expected[k]) by {
        if expected.contains_key(k) {
            if k == entry.0@ {
                assert(after[i].0@ == k);
            } else {
                let j = choose|j: int| 0 <= j < before.len() && #[trigger] before[j].0@ == k;
                assert(after[j] == before[j]);
            }
        }
        if filed(after).contains_key(k) {
            let j = choose|j: int| 0 <= j < after.len() && #[trigger] after[j].0@ == k;
            assert(before[j].0@ == k);
        }
    }
    assert(filed(after) =~= expected);
}

/// Taking out the entry at `i` takes out its key and nothing else.
proof fn lemma_taken_out<K: View, V>(before: Seq<(K, V)>, i: int)
    requires
        distinct_keys(before),
        0 <= i < before.len(),
    ensures
        distinct_keys(before.remove(i)),
        filed(before.remove(i)) == filed(before).remove(before[i].0@),
{
    let after = before.remove(i);
    assert forall|a: int, b: int| 0 <= a < b < after.len() implies #[trigger] after[a].0@
        != #[trigger] after[b].0@ by {
        assert(after[a] == before[if a < i { a } else { a + 1 }]);
        assert(after[b] == before[if b < i { b } else { b + 1 }]);
    }
    lemma_filed(before);
    lemma_filed(after);
    let expected = filed(before).remove(before[i].0@);
    assert forall|k: <K as View>::V|
        #[trigger] filed(after).contains_key(k) == expected.contains_key(k) && (
        expected.contains_key(k) ==> filed(after)[k] == expected[k]) by {
        if expected.contains_key(k) {
            let j = choose|j: int| 0 <= j < before.len() && #[trigger] before[j].0@ == k;
            assert(after[if j < i { j } else { j - 1 }] == before[j]);
        }
        if filed(after).contains_key(k) {
            let j = choose|j: int| 0 <= j < after.len() && #[trigger] after[j].0@ == k;
            assert(before[if j < i { j } else { j + 1 }] == after[j]);
        }
    }
    assert(filed(after) =~= expected);
}

/// A keyed table with at most one value per key.
#[derive(Debug)]
pub struct Table<K: Key, V: View> {
    entries: Vec<(K, V)>,
}

impl<K: Key, V: View> View for Table<K, V> {
    type V = Map<<K as View>::V, <V as View>::V>;

    open spec fn view(&self) -> Self::V {
        viewed(self.values())
    }
}

impl<K: Key, V: View> Table<K, V> {
    /// The value filed under each key.
    pub closed spec fn values(self) -> Map<<K as View>::V, V> {
        filed(self.entries@)
    }

    #[verifier::type_invariant]
    spec fn keys_are_distinct(self) -> bool {
        distinct_keys(self.entries@)
    }

    /// An empty table.
    pub fn new() -> (table: Self)
        ensures
            table@ == Map::<<K as View>::V, <V as View>::V>::empty(),
            table.values() == Map::<<K as View>::V, V>::empty(),
    {
        Table { entries: Vec::new() }
    }

    /// The place of `key` among the entries, if it has one.
    fn position(&self, key: &K) -> (at: Option<usize>)
        ensures
            match at {
                Some(i) => i < self.entries@.len() && self.entries@[i as int].0@ == key@,
                None => forall|i: int|
                    0 <= i < self.entries@.len() ==> #[trigger] self.entries@[i].0@ != key@,
            },
    {
        for i in 0..self.entries.len()
            invariant
                forall|j: int| 0 <= j < i ==> #[trigger] self.entries@[j].0@ != key@,
        {
            if self.entries[i].0.same_key(key) {
                return Some(i);
            }
        }
        None
    }

    /// How many keys the table holds.
    pub fn len(&self) -> (n: usize)
        ensures
            n == self@.len(),
    {
        proof {
            use_type_invariant(self);
            lemma_filed(self.entries@);
            assert(self@.dom() =~= self.values().dom());
        }
        self.entries.len()
    }

    /// Whether the table holds no key.
    pub fn is_empty(&self) -> (empty: bool)
        ensures
            empty == (self@ == Map::<<K as View>::V, <V as View>::V>::empty()),
    {
        proof {
            use_type_invariant(self);
            lemma_filed(self.entries@);
            if self.entries@.len() > 0 {
                assert(self@.contains_key(self.entries@[0].0@));
            } else {
                assert(self@ =~= Map::<<K as View>::V, <V as View>::V>::empty());
            }
        }
        self.entries.len() == 0
    }

    /// The value filed under `key`, if there is one.
    pub fn lookup(&self, key: &K) -> (found: Option<&V>)
        ensures
            match found {
                Some(value) => {
                    &&& self@.contains_key(key@) && value@ == self@[key@]
                    &&& self.values().contains_key(key@) && *value == self.values()[key@]
                },
                None => !self@.contains_key(key@) && !self.values().contains_key(key@),
            },
    {
        proof {
            use_type_invariant(self);
            lemma_filed(self.entries@);
        }
        match self.position(key) {
            Some(i) => Some(&self.entries[i].1),
            None => None,
        }
    }

    /// Every key with its value, each key once.
    pub fn entries(&self) -> (all: &Vec<(K, V)>)
        ensures
            distinct_keys(all@),
            filed(all@) == self.values(),
            all@.len() == self@.len(),
            forall|i: int, j: int|
                0 <= i < j < all@.len() ==> #[trigger] all@[i].0@ != #[trigger] all@[j].0@,
            forall|i: int|
                0 <= i < all@.len() ==> self.values().contains_key(#[trigger] all@[i].0@)
                    && self.values()[all@[i].0@] == all@[i].1,
            forall|k: <K as View>::V| #[trigger]
                self.values().contains_key(k) ==> exists|i: int|
                    0 <= i < all@.len() && #[trigger] all@[i].0@ == k,
    {
        proof {
            use_type_invariant(self);
            lemma_filed(self.entries@);
            assert(self@.dom() =~= self.values().dom());
        }
        &self.entries
    }

    /// Files `value` under `key`, replacing what was filed there before.
    pub fn insert(&mut self, key: K, value: V)
        ensures
            final(self)@ == old(self)@.insert(key@, value@),
            final(self).values() == old(self).values().insert(key@, value),
    {
        proof {
            use_type_invariant(&*self);
            lemma_filed(self.entries@);
        }
        let at = self.position(&key);
        let mut entries: Vec<(K, V)> = Vec::new();
        std::mem::swap(&mut entries, &mut self.entries);
        let ghost before = entries@;
        let ghost added = (key, value);
        match at {
            Some(i) => {
                entries.set(i, (key, value));
                proof {
                    lemma_overwritten(before, i as int, added);
                }
            },
            None => {
                entries.push((key, value));
                assert(entries@.drop_last() =~= before);
            },
        }
        self.entries = entries;
        assert(self@ =~= old(self)@.insert(added.0@, added.1@));
    }

    /// Takes `key` out of the table; the value that was filed under it, if there
    /// was one.
    pub fn remove(&mut self, key: &K) -> (removed: Option<V>)
        ensures
            final(self)@ == old(self)@.remove(key@),
            final(self).values() == old(self).values().remove(key@),
            match removed {
                Some(value) => {
                    &&& old(self)@.contains_key(key@) && value@ == old(self)@[key@]
                    &&& old(self).values().contains_key(key@) && value == old(self).values()[key@]
                },
                None => !old(self)@.contains_key(key@) && !old(self).values().contains_key(key@),
            },
    {
        proof {
            use_type_invariant(&*self);
            lemma_filed(self.entries@);
        }
        match self.position(key) {
            Some(i) => {
                let mut entries: Vec<(K, V)> = Vec::new();
                std::mem::swap(&mut entries, &mut self.entries);
                proof {
                    lemma_taken_out(entries@, i as int);
                }
                let (_, value) = entries.remove(i);
                self.entries = entries;
                assert(self@ =~= old(self)@.remove(key@));
                Some(value)
            },
            None => {
                assert(self@.remove(key@) =~= self@);
                assert(self.values().remove(key@) =~= self.values());
                None
            },
        }
    }
}

impl<K: Key, V: View + Clone> Clone for Table<K, V> {
    /// A table with the same keys, each with a clone of its value.
    fn clone(&self) -> (copy: Self)
        ensures
            copy.values().dom() == self.values().dom(),
            forall|k: <K as View>::V| #[trigger]
                self.values().contains_key(k) ==> cloned(self.values()[k], copy.values()[k]),
    {
        proof {
            use_type_invariant(self);
        }
        let mut entries: Vec<(K, V)> = Vec::new();
        while entries.len() < self.entries.len()
            invariant
                entries@.len() <= self.entries@.len(),
                forall|j: int|
                    #![trigger entries@[j]]
                    0 <= j < entries@.len() ==> entries@[j].0@ == self.entries@[j].0@ && cloned(
                        self.entries@[j].1,
                        entries@[j].1,
                    ),
            decreases self.entries@.len() - entries@.len(),
        {
            let entry = &self.entries[entries.len()];
            entries.push((entry.0.copy_key(), entry.1.clone()));
        }
        proof {
            assert forall|a: int, b: int| 0 <= a < b < entries@.len() implies #[trigger] entries@[a].0@
                != #[trigger] entries@[b].0@ by {
                assert(self.entries@[a].0@ != self.entries@[b].0@);
            }
            lemma_filed(self.entries@);
            lemma_filed(entries@);
            let values = self.values();
            let copied = filed(entries@);
            assert forall|k: <K as View>::V| values.contains_key(k) == #[trigger] copied.contains_key(
                k,
            ) && (values.contains_key(k) ==> cloned(values[k], copied[k])) by {
                if values.contains_key(k) {
                    let i = choose|i: int|
                        0 <= i < self.entries@.len() && #[trigger] self.entries@[i].0@ == k;
                    assert(entries@[i].0@ == k);
                }
                if copied.contains_key(k) {
                    let i = choose|i: int|
                        0 <= i < entries@.len() && #[trigger] entries@[i].0@ == k;
                    assert(self.entries@[i].0@ == k);
                }
            }
            assert(copied.dom() =~= values.dom());
            assert forall|k: <K as View>::V| #[trigger] values.contains_key(k) implies cloned(
                values[k],
                copied[k],
            ) by {
                assert(copied.contains_key(k));
            }
        }
        Table { entries }
    }
}

impl<V: View> Table<String, V> {
    /// The value filed under the name `key`, if there is one.
    pub fn get(&self, key: &str) -> (found: Option<&V>)
        ensures
            match found {
                Some(value) => {
                    &&& self@.contains_key(key@) && value@ == self@[key@]
                    &&& self.values().contains_key(key@) && *value == self.values()[key@]
                },
                None => !self@.contains_key(key@) && !self.values().contains_key(key@),
            },
    {
        self.lookup(&key.to_owned())
    }
}

} // verus!
