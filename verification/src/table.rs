//! A table keyed by numeric ids, listed in id order.

use std::collections::BTreeMap;
use vstd::prelude::*;
use vstd::std_specs::cmp::OrdSpec;
use vstd::std_specs::iter::IteratorSpec;

verus! {

/// Values by id.
#[derive(Debug)]
pub struct Table<V> {
    entries: BTreeMap<u64, V>,
}

/// The ids of entries are in strictly increasing order.
pub open spec fn increasing<V>(entries: Seq<(u64, V)>) -> bool {
    forall|i: int, j: int| 0 <= i < j < entries.len() ==> entries[i].0 < entries[j].0
}

/// What entries in id order map each id to.
pub open spec fn table_map<V>(entries: Seq<(u64, V)>) -> Map<u64, V> {
    Map::new(
        |id: u64| exists|i: int| 0 <= i < entries.len() && (#[trigger] entries[i]).0 == id,
        |id: u64|
            entries[choose|i: int| 0 <= i < entries.len() && (#[trigger] entries[i]).0 == id].1,
    )
}

/// An entry in its place is what its id maps to.
pub proof fn lemma_entry<V>(entries: Seq<(u64, V)>, i: int)
    requires
        increasing(entries),
        0 <= i < entries.len(),
    ensures
        table_map(entries).contains_key(entries[i].0),
        table_map(entries)[entries[i].0] == entries[i].1,
{
    let id = entries[i].0;
    let k = choose|k: int| 0 <= k < entries.len() && (#[trigger] entries[k]).0 == id;
    assert(entries[k].0 == entries[i].0);
    assert(k == i) by {
        if k < i {
            assert(entries[k].0 < entries[i].0);
        } else if i < k {
            assert(entries[i].0 < entries[k].0);
        }
    }
}

/// Entries in id order that map alike are the same.
proof fn lemma_one_order<V>(a: Seq<(u64, V)>, b: Seq<(u64, V)>)
    requires
        increasing(a),
        increasing(b),
        table_map(a) == table_map(b),
    ensures
        a == b,
    decreases a.len(),
{
    if a.len() == 0 {
        if b.len() > 0 {
            lemma_entry(b, 0);
            assert(table_map(a).contains_key(b[0].0));
        }
        assert(a =~= b);
    } else {
        let i = a.len() - 1;
        lemma_entry(a, i);
        assert(table_map(b).contains_key(a[i].0));
        let k = choose|k: int| 0 <= k < b.len() && (#[trigger] b[k]).0 == a[i].0;
        let j = b.len() - 1;
        lemma_entry(b, k);
        lemma_entry(b, j);
        if k < j {
            assert(b[k].0 < b[j].0);
            assert(table_map(a).contains_key(b[j].0));
            let n = choose|n: int| 0 <= n < a.len() && (#[trigger] a[n]).0 == b[j].0;
            if n < i {
                assert(a[n].0 < a[i].0);
            }
        }
        assert(a[i] == b[j]);
        let x = a.drop_last();
        let y = b.drop_last();
        assert(increasing(x)) by {
            assert forall|m: int, n: int| 0 <= m < n < x.len() implies x[m].0 < x[n].0 by {
                assert(a[m].0 < a[n].0);
            }
        }
        assert(increasing(y)) by {
            assert forall|m: int, n: int| 0 <= m < n < y.len() implies y[m].0 < y[n].0 by {
                assert(b[m].0 < b[n].0);
            }
        }
        assert(x =~= a.remove(i));
        assert(y =~= b.remove(j));
        lemma_removed_map(a, x, i);
        lemma_removed_map(b, y, j);
        lemma_one_order(x, y);
        assert(a =~= x.push(a[i]));
        assert(b =~= y.push(b[j]));
    }
}

impl<V> View for Table<V> {
    type V = Map<u64, V>;

    closed spec fn view(&self) -> Map<u64, V> {
        self.entries@
    }
}

/// The ids of a map and their values, in id order.
pub open spec fn by_id<V>(map: Map<u64, V>) -> Seq<(u64, V)> {
    choose|entries: Seq<(u64, V)>| increasing(entries) && #[trigger] table_map(entries) == map
}

impl<V> Table<V> {
    pub fn new() -> (table: Table<V>)
        ensures
            table@ == Map::<u64, V>::empty(),
    {
        Table { entries: BTreeMap::new() }
    }

    pub fn contains_key(&self, id: u64) -> (found: bool)
        ensures
            found == self@.contains_key(id),
    {
        broadcast use vstd::laws_cmp::group_laws_cmp;

        self.entries.contains_key(&id)
    }

    pub fn get(&self, id: u64) -> (found: Option<&V>)
        ensures
            found == (if self@.contains_key(id) {
                Some(&self@[id])
            } else {
                None
            }),
    {
        broadcast use vstd::laws_cmp::group_laws_cmp;

        self.entries.get(&id)
    }

    /// Put a value under an id, in place of what was there.
    pub fn insert(&mut self, id: u64, value: V)
        ensures
            final(self)@ == old(self)@.insert(id, value),
    {
        broadcast use vstd::laws_cmp::group_laws_cmp;

        self.entries.insert(id, value);
    }

    pub fn is_empty(&self) -> (empty: bool)
        ensures
            empty == (self@ == Map::<u64, V>::empty()),
    {
        proof {
            if self@.is_empty() {
                assert(self@ =~= Map::<u64, V>::empty());
            }
        }
        self.entries.is_empty()
    }

    /// The ids and their values, in id order.
    pub fn entries(&self) -> (entries: Vec<(u64, &V)>)
        ensures
            increasing(by_id(self@)),
            table_map(by_id(self@)) == self@,
            entries@.len() == by_id(self@).len(),
            forall|i: int|
                0 <= i < entries@.len() ==> (#[trigger] entries@[i]).0 == by_id(self@)[i].0
                    && *entries@[i].1 == by_id(self@)[i].1,
    {
        broadcast use vstd::laws_cmp::group_laws_cmp;

        let mut entries: Vec<(u64, &V)> = Vec::new();
        let listed = self.entries.iter();
        let ghost all = listed.remaining();
        for entry in it: listed
            invariant
                it.seq() == all,
                entries@.len() == it.index(),
                forall|i: int|
                    0 <= i < it.index() ==> (#[trigger] entries@[i]).0 == *all[i].0
                        && *entries@[i].1 == *all[i].1,
        {
            entries.push((*entry.0, entry.1));
        }
        proof {
            let found = Seq::new(all.len(), |i: int| (*all[i].0, *all[i].1));
            let ids = all.map_values(|kv: (&u64, &V)| *kv.0);
            assert forall|i: int, j: int| 0 <= i < j < found.len() implies found[i].0
                < found[j].0 by {
                assert(ids[i].cmp_spec(&ids[j]) is Less);
            }
            assert forall|id: u64| table_map(found).contains_key(id) == self@.contains_key(id) by {
                if self@.contains_key(id) {
                    assert(all.contains((&id, &self@[id])));
                    let i = choose|i: int| 0 <= i < all.len() && all[i] == (&id, &self@[id]);
                    assert(found[i].0 == id);
                }
                if table_map(found).contains_key(id) {
                    let i = choose|i: int| 0 <= i < found.len() && (#[trigger] found[i]).0 == id;
                    assert(self@.contains_key(*all[i].0));
                }
            }
            assert forall|id: u64| table_map(found).contains_key(id) implies table_map(found)[id]
                == self@[id] by {
                let i = choose|i: int| 0 <= i < found.len() && (#[trigger] found[i]).0 == id;
                lemma_entry(found, i);
                assert(self@[*all[i].0] == *all[i].1);
            }
            assert(table_map(found) =~= self@);
            lemma_one_order(by_id(self@), found);
        }
        entries
    }

    /// Take the value under an id out.
    pub fn remove(&mut self, id: u64) -> (taken: Option<V>)
        ensures
            final(self)@ == old(self)@.remove(id),
            taken == (if old(self)@.contains_key(id) {
                Some(old(self)@[id])
            } else {
                None
            }),
    {
        broadcast use vstd::laws_cmp::group_laws_cmp;

        self.entries.remove(&id)
    }
}

proof fn lemma_removed_map<V>(before: Seq<(u64, V)>, after: Seq<(u64, V)>, at: int)
    requires
        increasing(before),
        0 <= at < before.len(),
        after == before.remove(at),
        increasing(after),
    ensures
        table_map(after) == table_map(before).remove(before[at].0),
{
    let id = before[at].0;
    assert forall|k: u64| table_map(after).contains_key(k) == table_map(before).remove(
        id,
    ).contains_key(k) by {
        if table_map(after).contains_key(k) {
            let i = choose|i: int| 0 <= i < after.len() && (#[trigger] after[i]).0 == k;
            if i < at {
                assert(before[i].0 == k);
                assert(before[i].0 < before[at].0);
            } else {
                assert(before[i + 1].0 == k);
                assert(before[at].0 < before[i + 1].0);
            }
        }
        if table_map(before).contains_key(k) && k != id {
            let i = choose|i: int| 0 <= i < before.len() && (#[trigger] before[i]).0 == k;
            if i < at {
                assert(after[i].0 == k);
            } else {
                assert(after[i - 1].0 == k);
            }
        }
    }
    assert forall|k: u64| table_map(after).contains_key(k) implies table_map(after)[k]
        == table_map(before).remove(id)[k] by {
        let i = choose|i: int| 0 <= i < after.len() && (#[trigger] after[i]).0 == k;
        lemma_entry(after, i);
        if i < at {
            lemma_entry(before, i);
        } else {
            lemma_entry(before, i + 1);
        }
    }
    assert(table_map(after) =~= table_map(before).remove(id));
}

} // verus!
