//! Shared key-value store: process-wide string entries that any plugin may
//! read, overwrite or delete. Modelled as a `Map<Seq<char>, Seq<char>>`;
//! the implementation keeps one entry per key and a fixed capacity on the
//! number of distinct keys.

use vstd::prelude::*;

verus! {

/// One key/value pair held by the shared data store.
pub struct DataEntry {
    pub key: String,
    pub value: String,
}

/// The map an entry list denotes: later entries win, though the store's
/// invariant keeps keys unique so the order never matters.
pub open spec fn store_map(entries: Seq<DataEntry>) -> Map<Seq<char>, Seq<char>>
    decreases entries.len(),
{
    if entries.len() == 0 {
        Map::empty()
    } else {
        store_map(entries.drop_last()).insert(entries.last().key@, entries.last().value@)
    }
}

/// Some entry carries this key.
pub open spec fn has_key(entries: Seq<DataEntry>, k: Seq<char>) -> bool {
    exists|i: int| 0 <= i < entries.len() && entries[i].key@ == k
}

/// No two entries share a key.
pub open spec fn unique_keys(entries: Seq<DataEntry>) -> bool {
    forall|i: int, j: int| 0 <= i < j < entries.len() ==> entries[i].key@ != entries[j].key@
}

/// A key is in the denoted map exactly when some entry carries it.
proof fn lemma_store_map_contains(entries: Seq<DataEntry>, k: Seq<char>)
    ensures
        store_map(entries).contains_key(k) <==> has_key(entries, k),
    decreases entries.len(),
{
    if entries.len() > 0 {
        lemma_store_map_contains(entries.drop_last(), k);
        if has_key(entries.drop_last(), k) {
            let i = choose|i: int|
                0 <= i < entries.drop_last().len() && entries.drop_last()[i].key@ == k;
            assert(entries[i].key@ == k);
        }
        if has_key(entries, k) && entries.last().key@ != k {
            let i = choose|i: int| 0 <= i < entries.len() && entries[i].key@ == k;
            assert(entries.drop_last()[i].key@ == k);
        }
    }
}

/// Under unique keys, the map sends each entry's key to that entry's value.
proof fn lemma_store_map_at(entries: Seq<DataEntry>, i: int)
    requires
        unique_keys(entries),
        0 <= i < entries.len(),
    ensures
        store_map(entries).contains_key(entries[i].key@),
        store_map(entries)[entries[i].key@] == entries[i].value@,
    decreases entries.len(),
{
    lemma_store_map_contains(entries, entries[i].key@);
    if i < entries.len() - 1 {
        assert(entries.drop_last()[i] == entries[i]);
        lemma_store_map_at(entries.drop_last(), i);
        assert(entries.last().key@ != entries[i].key@);
    }
}

/// Removing the one entry that carries a key removes that key from the map.
proof fn lemma_store_map_remove_at(entries: Seq<DataEntry>, i: int)
    requires
        unique_keys(entries),
        0 <= i < entries.len(),
    ensures
        unique_keys(entries.remove(i)),
        !has_key(entries.remove(i), entries[i].key@),
        store_map(entries.remove(i)) == store_map(entries).remove(entries[i].key@),
    decreases entries.len(),
{
    let k = entries[i].key@;
    let r = entries.remove(i);
    assert(forall|j: int| 0 <= j < i ==> r[j] == entries[j]);
    assert(forall|j: int| i <= j < r.len() ==> r[j] == entries[j + 1]);
    if i == entries.len() - 1 {
        assert(r =~= entries.drop_last());
        lemma_store_map_contains(r, k);
        assert(store_map(r).remove(k) =~= store_map(entries).remove(k));
        assert(!store_map(r).contains_key(k));
        assert(store_map(r) =~= store_map(r).remove(k));
    } else {
        assert(r.drop_last() =~= entries.drop_last().remove(i));
        assert(r.last() == entries.last());
        lemma_store_map_remove_at(entries.drop_last(), i);
        assert(store_map(r) == store_map(entries.drop_last()).remove(k).insert(
            entries.last().key@,
            entries.last().value@,
        ));
        assert(entries.last().key@ != k);
        assert(store_map(entries.drop_last()).remove(k).insert(
            entries.last().key@,
            entries.last().value@,
        ) =~= store_map(entries).remove(k));
    }
}

/// Under unique keys, the map has exactly one key per entry.
proof fn lemma_store_map_dom_len(entries: Seq<DataEntry>)
    requires
        unique_keys(entries),
    ensures
        store_map(entries).dom().finite(),
        store_map(entries).dom().len() == entries.len(),
    decreases entries.len(),
{
    if entries.len() > 0 {
        lemma_store_map_dom_len(entries.drop_last());
        lemma_store_map_contains(entries.drop_last(), entries.last().key@);
        assert(!has_key(entries.drop_last(), entries.last().key@)) by {
            if has_key(entries.drop_last(), entries.last().key@) {
                let i = choose|i: int|
                    0 <= i < entries.drop_last().len()
                        && entries.drop_last()[i].key@ == entries.last().key@;
                assert(entries[i].key@ == entries[entries.len() - 1].key@);
            }
        }
        assert(store_map(entries).dom() =~= store_map(entries.drop_last()).dom().insert(
            entries.last().key@,
        ));
    }
}

/// Process-wide store of string values under string keys, capped at a fixed
/// number of distinct keys. Overwriting an existing key always succeeds;
/// only a new key can be refused, and only when the store is full.
pub struct DataStore {
    entries: Vec<DataEntry>,
    capacity: usize,
}

impl View for DataStore {
    type V = Map<Seq<char>, Seq<char>>;

    closed spec fn view(&self) -> Map<Seq<char>, Seq<char>> {
        store_map(self.entries@)
    }
}

impl DataStore {
    /// The store never holds more distinct keys than this.
    pub closed spec fn capacity(&self) -> usize {
        self.capacity
    }

    /// Keys are unique, so each key denotes exactly one entry.
    pub closed spec fn wf(&self) -> bool {
        unique_keys(self.entries@)
    }

    /// An empty store that accepts up to `capacity` distinct keys.
    pub fn new(capacity: usize) -> (s: DataStore)
        ensures
            s.wf(),
            s@ == Map::<Seq<char>, Seq<char>>::empty(),
            s.capacity() == capacity,
    {
        DataStore { entries: Vec::new(), capacity }
    }

    /// Index of the entry carrying `key`, if one does.
    fn find_index(&self, key: &String) -> (r: Option<usize>)
        ensures
            match r {
                Some(i) => i < self.entries@.len() && self.entries@[i as int].key@ == key@,
                None => !has_key(self.entries@, key@),
            },
    {
        let mut i: usize = 0;
        while i < self.entries.len()
            invariant
                i <= self.entries@.len(),
                forall|j: int| 0 <= j < i ==> self.entries@[j].key@ != key@,
            decreases self.entries@.len() - i,
        {
            if self.entries[i].key == *key {
                return Some(i);
            }
            i = i + 1;
        }
        None
    }

    /// Whether an entry exists under `key`.
    pub fn has_data(&self, key: &String) -> (r: bool)
        requires
            self.wf(),
        ensures
            r == self@.contains_key(key@),
    {
        proof {
            lemma_store_map_contains(self.entries@, key@);
        }
        self.find_index(key).is_some()
    }

    /// The value stored under `key`, or `None` when the key is absent.
    pub fn get_data(&self, key: &String) -> (r: Option<String>)
        requires
            self.wf(),
        ensures
            match r {
                Some(v) => self@.contains_key(key@) && v@ == self@[key@],
                None => !self@.contains_key(key@),
            },
    {
        proof {
            lemma_store_map_contains(self.entries@, key@);
        }
        match self.find_index(key) {
            Some(i) => {
                proof {
                    lemma_store_map_at(self.entries@, i as int);
                }
                Some(self.entries[i].value.clone())
            },
            None => None,
        }
    }

    /// Writes `value` under `key`. Overwriting never fails; a new key is
    /// accepted exactly while the store holds fewer keys than its capacity.
    pub fn set_data(&mut self, key: String, value: String) -> (ok: bool)
        requires
            old(self).wf(),
        ensures
            final(self).wf(),
            final(self).capacity() == old(self).capacity(),
            ok == (old(self)@.contains_key(key@) || old(self)@.dom().len()
                < old(self).capacity()),
            ok ==> final(self)@ == old(self)@.insert(key@, value@),
            !ok ==> final(self)@ == old(self)@,
    {
        proof {
            lemma_store_map_contains(self.entries@, key@);
            lemma_store_map_dom_len(self.entries@);
        }
        let ghost m0 = store_map(self.entries@);
        match self.find_index(&key) {
            Some(i) => {
                proof {
                    lemma_store_map_remove_at(self.entries@, i as int);
                }
                let _ = self.entries.remove(i);
                let ghost removed = self.entries@;
                self.entries.push(DataEntry { key, value });
                proof {
                    assert(self.entries@.drop_last() =~= removed);
                    assert(store_map(self.entries@) =~= m0.insert(
                        self.entries@.last().key@,
                        self.entries@.last().value@,
                    ));
                    assert(forall|j: int|
                        0 <= j < removed.len() ==> self.entries@[j] == removed[j]);
                }
                true
            },
            None => {
                if self.entries.len() < self.capacity {
                    let ghost before = self.entries@;
                    self.entries.push(DataEntry { key, value });
                    proof {
                        assert(self.entries@.drop_last() =~= before);
                        assert(forall|j: int|
                            0 <= j < before.len() ==> self.entries@[j] == before[j]);
                    }
                    true
                } else {
                    false
                }
            },
        }
    }

    /// Removes the entry under `key`; reports whether one existed. A second
    /// delete of the same key finds nothing and reports `false`.
    pub fn delete_data(&mut self, key: &String) -> (existed: bool)
        requires
            old(self).wf(),
        ensures
            final(self).wf(),
            final(self).capacity() == old(self).capacity(),
            existed == old(self)@.contains_key(key@),
            final(self)@ == old(self)@.remove(key@),
    {
        proof {
            lemma_store_map_contains(self.entries@, key@);
        }
        match self.find_index(key) {
            Some(i) => {
                proof {
                    lemma_store_map_remove_at(self.entries@, i as int);
                }
                let _ = self.entries.remove(i);
                true
            },
            None => {
                proof {
                    assert(store_map(self.entries@).remove(key@) =~= store_map(self.entries@));
                }
                false
            },
        }
    }
}

/// Law: writing twice under one key keeps the later value — a read after
/// `set_data(k, v1)` then `set_data(k, v2)` sees `v2` — and a delete of that
/// key leaves it absent, so an existence check after the delete fails.
pub proof fn lemma_overwrite_then_delete(
    m: Map<Seq<char>, Seq<char>>,
    k: Seq<char>,
    v1: Seq<char>,
    v2: Seq<char>,
)
    ensures
        m.insert(k, v1).insert(k, v2).contains_key(k),
        m.insert(k, v1).insert(k, v2)[k] == v2,
        !m.insert(k, v1).insert(k, v2).remove(k).contains_key(k),
{
}

} // verus!
