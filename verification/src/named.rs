//! A table keyed by a numeric id and a name.

use vstd::prelude::*;

verus! {

/// Values by id and name, each key once.
#[derive(Debug)]
pub struct NamedTable<V> {
    entries: Vec<(u64, String, V)>,
}

/// No key is held twice.
pub open spec fn distinct<V>(entries: Seq<(u64, String, V)>) -> bool {
    forall|i: int, j: int|
        0 <= i < entries.len() && 0 <= j < entries.len() && entries[i].0 == entries[j].0
            && entries[i].1@ == entries[j].1@ ==> i == j
}

/// Whether the entry at `i` is under a key.
pub open spec fn under<V>(entry: (u64, String, V), key: (u64, Seq<char>)) -> bool {
    entry.0 == key.0 && entry.1@ == key.1
}

/// What distinct entries map each key to.
pub open spec fn named_map<V>(entries: Seq<(u64, String, V)>) -> Map<(u64, Seq<char>), V> {
    Map::new(
        |key: (u64, Seq<char>)|
            exists|i: int| 0 <= i < entries.len() && under(#[trigger] entries[i], key),
        |key: (u64, Seq<char>)|
            entries[choose|i: int| 0 <= i < entries.len() && under(#[trigger] entries[i], key)].2,
    )
}

proof fn lemma_named<V>(entries: Seq<(u64, String, V)>, i: int)
    requires
        distinct(entries),
        0 <= i < entries.len(),
    ensures
        named_map(entries).contains_key((entries[i].0, entries[i].1@)),
        named_map(entries)[(entries[i].0, entries[i].1@)] == entries[i].2,
{
    let key = (entries[i].0, entries[i].1@);
    assert(under(entries[i], key));
    let k = choose|k: int| 0 <= k < entries.len() && under(#[trigger] entries[k], key);
    assert(k == i);
}

impl<V> View for NamedTable<V> {
    type V = Map<(u64, Seq<char>), V>;

    closed spec fn view(&self) -> Map<(u64, Seq<char>), V> {
        named_map(self.entries@)
    }
}

impl<V> NamedTable<V> {
    /// No key is held twice.
    pub closed spec fn wf(&self) -> bool {
        distinct(self.entries@)
    }

    pub fn new() -> (table: NamedTable<V>)
        ensures
            table.wf(),
            table@ == Map::<(u64, Seq<char>), V>::empty(),
    {
        let table = NamedTable { entries: Vec::new() };
        assert(table@ =~= Map::<(u64, Seq<char>), V>::empty());
        table
    }

    fn place(&self, id: u64, name: &String) -> (at: Option<usize>)
        requires
            self.wf(),
        ensures
            match at {
                Some(i) => i < self.entries@.len() && under(
                    self.entries@[i as int],
                    (id, name@),
                ) && self@.contains_key((id, name@)) && self@[(id, name@)]
                    == self.entries@[i as int].2,
                None => !self@.contains_key((id, name@)) && forall|j: int|
                    0 <= j < self.entries@.len() ==> !under(
                        #[trigger] self.entries@[j],
                        (id, name@),
                    ),
            },
    {
        let mut i: usize = 0;
        while i < self.entries.len()
            invariant
                self.wf(),
                i <= self.entries.len(),
                forall|j: int|
                    0 <= j < i ==> !under(#[trigger] self.entries@[j], (id, name@)),
            decreases self.entries.len() - i,
        {
            if self.entries[i].0 == id && self.entries[i].1 == *name {
                proof {
                    lemma_named(self.entries@, i as int);
                }
                return Some(i);
            }
            i = i + 1;
        }
        None
    }

    pub fn get(&self, id: u64, name: &String) -> (found: Option<&V>)
        requires
            self.wf(),
        ensures
            found == (if self@.contains_key((id, name@)) {
                Some(&self@[(id, name@)])
            } else {
                None
            }),
    {
        match self.place(id, name) {
            Some(i) => Some(&self.entries[i].2),
            None => None,
        }
    }

    /// Put a value under a key, in place of what was there.
    pub fn insert(&mut self, id: u64, name: String, value: V)
        requires
            old(self).wf(),
        ensures
            final(self).wf(),
            final(self)@ == old(self)@.insert((id, name@), value),
    {
        let ghost before = self.entries@;
        let ghost key = (id, name@);
        match self.place(id, &name) {
            Some(i) => {
                let ghost entry = (id, name, value);
                self.entries.set(i, (id, name, value));
                proof {
                    let after = self.entries@;
                    assert(after == before.update(i as int, entry));
                    assert(distinct(after)) by {
                        assert forall|a: int, b: int|
                            0 <= a < after.len() && 0 <= b < after.len() && after[a].0
                                == after[b].0 && after[a].1@ == after[b].1@ implies a == b by {
                            assert(before[a].0 == after[a].0 && before[a].1@ == after[a].1@);
                            assert(before[b].0 == after[b].0 && before[b].1@ == after[b].1@);
                        }
                    }
                    assert forall|k: (u64, Seq<char>)| named_map(after).contains_key(k)
                        == named_map(before).insert(key, value).contains_key(k) by {
                        if named_map(after).contains_key(k) {
                            let n = choose|n: int|
                                0 <= n < after.len() && under(#[trigger] after[n], k);
                            assert(under(before[n], k));
                        }
                        if named_map(before).contains_key(k) {
                            let n = choose|n: int|
                                0 <= n < before.len() && under(#[trigger] before[n], k);
                            assert(under(after[n], k));
                        }
                        if k == key {
                            assert(under(after[i as int], k));
                        }
                    }
                    assert forall|k: (u64, Seq<char>)| named_map(after).contains_key(
                        k,
                    ) implies named_map(after)[k] == named_map(before).insert(key, value)[k] by {
                        let n = choose|n: int| 0 <= n < after.len() && under(#[trigger] after[n], k);
                        lemma_named(after, n);
                        lemma_named(before, n);
                        if k == key {
                            lemma_named(after, i as int);
                        }
                    }
                    assert(named_map(after) =~= named_map(before).insert(key, value));
                }
            },
            None => {
                let ghost entry = (id, name, value);
                self.entries.push((id, name, value));
                proof {
                    let after = self.entries@;
                    assert(after == before.push(entry));
                    assert(distinct(after)) by {
                        assert forall|a: int, b: int|
                            0 <= a < after.len() && 0 <= b < after.len() && after[a].0
                                == after[b].0 && after[a].1@ == after[b].1@ implies a == b by {
                            if a == before.len() && b < before.len() {
                                assert(under(before[b], key));
                            } else if b == before.len() && a < before.len() {
                                assert(under(before[a], key));
                            }
                        }
                    }
                    assert forall|k: (u64, Seq<char>)| named_map(after).contains_key(k)
                        == named_map(before).insert(key, value).contains_key(k) by {
                        if named_map(after).contains_key(k) {
                            let n = choose|n: int|
                                0 <= n < after.len() && under(#[trigger] after[n], k);
                            if n < before.len() {
                                assert(under(before[n], k));
                            }
                        }
                        if named_map(before).contains_key(k) {
                            let n = choose|n: int|
                                0 <= n < before.len() && under(#[trigger] before[n], k);
                            assert(under(after[n], k));
                        }
                        if k == key {
                            assert(under(after[before.len() as int], k));
                        }
                    }
                    assert forall|k: (u64, Seq<char>)| named_map(after).contains_key(
                        k,
                    ) implies named_map(after)[k] == named_map(before).insert(key, value)[k] by {
                        let n = choose|n: int| 0 <= n < after.len() && under(#[trigger] after[n], k);
                        lemma_named(after, n);
                        if n < before.len() {
                            lemma_named(before, n);
                            assert(k != key);
                        }
                    }
                    assert(named_map(after) =~= named_map(before).insert(key, value));
                }
            },
        }
    }

    /// Take the value under a key out.
    pub fn remove(&mut self, id: u64, name: &String) -> (taken: Option<V>)
        requires
            old(self).wf(),
        ensures
            final(self).wf(),
            final(self)@ == old(self)@.remove((id, name@)),
            taken == (if old(self)@.contains_key((id, name@)) {
                Some(old(self)@[(id, name@)])
            } else {
                None
            }),
    {
        let ghost before = self.entries@;
        let ghost key = (id, name@);
        match self.place(id, name) {
            Some(i) => {
                let entry = self.entries.remove(i);
                proof {
                    let after = self.entries@;
                    assert(after == before.remove(i as int));
                    assert(distinct(after)) by {
                        assert forall|a: int, b: int|
                            0 <= a < after.len() && 0 <= b < after.len() && after[a].0
                                == after[b].0 && after[a].1@ == after[b].1@ implies a == b by {
                            let x = if a < i { a } else { a + 1 };
                            let y = if b < i { b } else { b + 1 };
                            assert(after[a] == before[x]);
                            assert(after[b] == before[y]);
                        }
                    }
                    assert forall|k: (u64, Seq<char>)| named_map(after).contains_key(k)
                        == named_map(before).remove(key).contains_key(k) by {
                        if named_map(after).contains_key(k) {
                            let n = choose|n: int|
                                0 <= n < after.len() && under(#[trigger] after[n], k);
                            let x = if n < i { n } else { n + 1 };
                            assert(under(before[x], k));
                            if k == key {
                                assert(x == i);
                            }
                        }
                        if named_map(before).contains_key(k) && k != key {
                            let n = choose|n: int|
                                0 <= n < before.len() && under(#[trigger] before[n], k);
                            assert(n != i);
                            let x = if n < i { n } else { n - 1 };
                            assert(under(after[x], k));
                        }
                    }
                    assert forall|k: (u64, Seq<char>)| named_map(after).contains_key(
                        k,
                    ) implies named_map(after)[k] == named_map(before).remove(key)[k] by {
                        let n = choose|n: int| 0 <= n < after.len() && under(#[trigger] after[n], k);
                        lemma_named(after, n);
                        lemma_named(before, if n < i { n } else { n + 1 });
                    }
                    assert(named_map(after) =~= named_map(before).remove(key));
                }
                Some(entry.2)
            },
            None => {
                assert(self@.remove(key) =~= self@);
                None
            },
        }
    }

    /// How many keys are held.
    pub fn len(&self) -> (count: usize)
        requires
            self.wf(),
        ensures
            self.at(count as int) is None,
            forall|i: int| 0 <= i < count ==> #[trigger] self.at(i) is Some,
    {
        self.entries.len()
    }

    /// The entry at a place: every key has one place.
    pub closed spec fn at(&self, i: int) -> Option<((u64, Seq<char>), V)> {
        if 0 <= i < self.entries@.len() {
            Some(((self.entries@[i].0, self.entries@[i].1@), self.entries@[i].2))
        } else {
            None
        }
    }

    /// The key at a place.
    pub open spec fn key_at(&self, i: int) -> (u64, Seq<char>) {
        self.at(i).unwrap().0
    }

    /// The value at a place.
    pub open spec fn value_at(&self, i: int) -> V {
        self.at(i).unwrap().1
    }

    /// The entry at a place.
    pub fn entry(&self, i: usize) -> (entry: (u64, &String, &V))
        requires
            self.wf(),
            self.at(i as int) is Some,
        ensures
            self.at(i as int) == Some(((entry.0, entry.1@), *entry.2)),
            self@.contains_key((entry.0, entry.1@)),
            self@[(entry.0, entry.1@)] == *entry.2,
    {
        proof {
            lemma_named(self.entries@, i as int);
        }
        let entry = &self.entries[i];
        (entry.0, &entry.1, &entry.2)
    }

    /// Every key has a place.
    pub proof fn lemma_places(&self)
        requires
            self.wf(),
        ensures
            forall|key: (u64, Seq<char>)| #[trigger]
                self@.contains_key(key) ==> exists|i: int| #[trigger]
                    self.at(i) == Some((key, self@[key])),
    {
        assert forall|key: (u64, Seq<char>)| #[trigger] self@.contains_key(key) implies exists|
            i: int,
        | #[trigger] self.at(i) == Some((key, self@[key])) by {
            let i = choose|i: int| 0 <= i < self.entries@.len() && under(#[trigger] self.entries@[i], key);
            lemma_named(self.entries@, i);
            assert(self.at(i) == Some((key, self@[key])));
        }
    }

    /// The places are numbered from 0 without a gap.
    pub proof fn lemma_bounds(&self, i: int, count: int)
        requires
            self.at(count) is None,
            count >= 0,
            forall|k: int| 0 <= k < count ==> #[trigger] self.at(k) is Some,
            self.at(i) is Some,
        ensures
            0 <= i < count,
    {
        assert(count == self.entries@.len()) by {
            if count > self.entries@.len() {
                assert(self.at(self.entries@.len() as int) is Some);
            }
        }
    }
}

} // verus!
