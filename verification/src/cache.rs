//! The local cache store: the part of the keyspace that this node holds in
//! memory.

use vstd::prelude::*;
use crate::message::CacheEntry;

verus! {

/// Whether some entry has the key `key`.
pub open spec fn holds_key(entries: Seq<(String, CacheEntry)>, key: Seq<char>) -> bool {
    exists|i: int| 0 <= i < entries.len() && (#[trigger] entries[i]).0@ == key
}

/// Where the entry with the key `key` stands.
pub open spec fn slot_of(entries: Seq<(String, CacheEntry)>, key: Seq<char>) -> int {
    choose|i: int| 0 <= i < entries.len() && (#[trigger] entries[i]).0@ == key
}

/// No key occurs twice.
pub open spec fn distinct_keys(entries: Seq<(String, CacheEntry)>) -> bool {
    forall|i: int, j: int|
        0 <= i < j < entries.len() ==> (#[trigger] entries[i]).0@ != (#[trigger] entries[j]).0@
}

/// The map from keys to values that a list of entries stands for.
pub open spec fn as_map(entries: Seq<(String, CacheEntry)>) -> Map<Seq<char>, Seq<char>> {
    Map::new(
        |key: Seq<char>| holds_key(entries, key),
        |key: Seq<char>| entries[slot_of(entries, key)].1@,
    )
}

/// In a list without repeated keys, the slot of an entry's key is the entry's
/// own.
pub proof fn lemma_slot(entries: Seq<(String, CacheEntry)>, at: int)
    requires
        distinct_keys(entries),
        0 <= at < entries.len(),
    ensures
        holds_key(entries, entries[at].0@),
        slot_of(entries, entries[at].0@) == at,
{
    assert(entries[at].0@ == entries[at].0@);
    let found = slot_of(entries, entries[at].0@);
    if found < at {
        assert(entries[found].0@ != entries[at].0@);
    }
    if at < found {
        assert(entries[at].0@ != entries[found].0@);
    }
}

/// The in-memory store of one node: a map from keys to values.
pub struct FastbuCache {
    entries: Vec<(String, CacheEntry)>,
}

impl View for FastbuCache {
    type V = Map<Seq<char>, Seq<char>>;

    closed spec fn view(&self) -> Map<Seq<char>, Seq<char>> {
        as_map(self.entries@)
    }
}

impl FastbuCache {
    /// The store is in order: no key is held twice.
    pub closed spec fn wf(&self) -> bool {
        distinct_keys(self.entries@)
    }

    /// An empty store.
    pub fn new() -> (cache: FastbuCache)
        ensures
            cache.wf(),
            cache@ == Map::<Seq<char>, Seq<char>>::empty(),
    {
        let cache = FastbuCache { entries: Vec::new() };
        assert(cache@ =~= Map::<Seq<char>, Seq<char>>::empty());
        cache
    }

    /// Where the entry with this key stands, if there is one.
    fn slot(&self, key: &str) -> (at: Option<usize>)
        requires
            self.wf(),
        ensures
            match at {
                Some(i) => i < self.entries@.len() && self.entries@[i as int].0@ == key@ && slot_of(
                    self.entries@,
                    key@,
                ) == i && holds_key(self.entries@, key@),
                None => !holds_key(self.entries@, key@),
            },
    {
        let wanted = key.to_owned();
        let mut i: usize = 0;
        while i < self.entries.len()
            invariant
                self.wf(),
                wanted@ == key@,
                i <= self.entries.len(),
                forall|j: int| 0 <= j < i ==> (#[trigger] self.entries@[j]).0@ != key@,
            decreases self.entries.len() - i,
        {
            if self.entries[i].0 == wanted {
                proof {
                    lemma_slot(self.entries@, i as int);
                }
                return Some(i);
            }
            i += 1;
        }
        None
    }

    /// The number of keys in the store.
    pub fn len(&self) -> (count: usize)
        requires
            self.wf(),
        ensures
            count == self@.dom().len(),
    {
        proof {
            lemma_domain_size(self.entries@);
        }
        self.entries.len()
    }

    /// The value stored under `key`, if there is one.
    pub fn get(&self, key: &str) -> (value: Option<String>)
        requires
            self.wf(),
        ensures
            match value {
                Some(v) => self@.contains_key(key@) && self@[key@] == v@,
                None => !self@.contains_key(key@),
            },
    {
        match self.slot(key) {
            Some(i) => Some(self.entries[i].1.value.clone()),
            None => None,
        }
    }

    /// Stores `value` under `key`, in place of what was there.
    pub fn insert(&mut self, key: String, value: String)
        requires
            old(self).wf(),
        ensures
            final(self).wf(),
            final(self)@ == old(self)@.insert(key@, value@),
    {
        let ghost before = self.entries@;
        match self.slot(key.as_str()) {
            Some(i) => {
                self.entries.set(i, (key, CacheEntry::new(value)));
                proof {
                    let after = self.entries@;
                    assert forall|k: Seq<char>| holds_key(after, k) == holds_key(before, k) by {
                        if holds_key(after, k) {
                            let j = slot_of(after, k);
                            assert(before[j].0@ == k);
                        }
                        if holds_key(before, k) {
                            let j = slot_of(before, k);
                            assert(after[j].0@ == k);
                        }
                    }
                    assert forall|k: Seq<char>| holds_key(after, k) implies #[trigger] as_map(
                        after,
                    )[k] == as_map(before).insert(key@, value@)[k] by {
                        let j = slot_of(after, k);
                        lemma_slot(after, j);
                        assert(before[j].0@ == k);
                        lemma_slot(before, j);
                    }
                    assert(as_map(after) =~= as_map(before).insert(key@, value@));
                }
            },
            None => {
                self.entries.push((key, CacheEntry::new(value)));
                proof {
                    let after = self.entries@;
                    let last = before.len() as int;
                    assert forall|k: Seq<char>|
                        holds_key(after, k) == (holds_key(before, k) || k == key@) by {
                        if holds_key(after, k) {
                            let j = slot_of(after, k);
                            if j < last {
                                assert(before[j].0@ == k);
                            }
                        }
                        if holds_key(before, k) {
                            let j = slot_of(before, k);
                            assert(after[j].0@ == k);
                        }
                        if k == key@ {
                            assert(after[last].0@ == k);
                        }
                    }
                    assert forall|k: Seq<char>| holds_key(after, k) implies #[trigger] as_map(
                        after,
                    )[k] == as_map(before).insert(key@, value@)[k] by {
                        let j = slot_of(after, k);
                        lemma_slot(after, j);
                        if j < last {
                            assert(before[j].0@ == k);
                            lemma_slot(before, j);
                        }
                    }
                    assert(as_map(after) =~= as_map(before).insert(key@, value@));
                }
            },
        }
    }

    /// Takes `key` out of the store. Says whether it was there.
    pub fn remove(&mut self, key: &str) -> (removed: bool)
        requires
            old(self).wf(),
        ensures
            final(self).wf(),
            final(self)@ == old(self)@.remove(key@),
            removed == old(self)@.contains_key(key@),
    {
        let ghost before = self.entries@;
        match self.slot(key) {
            Some(i) => {
                self.entries.remove(i);
                proof {
                    let after = self.entries@;
                    assert forall|k: Seq<char>|
                        holds_key(after, k) == (holds_key(before, k) && k != key@) by {
                        if holds_key(after, k) {
                            let j = slot_of(after, k);
                            let b = if j < i {
                                j
                            } else {
                                j + 1
                            };
                            assert(before[b].0@ == k);
                            lemma_slot(before, b);
                            lemma_slot(before, i as int);
                        }
                        if holds_key(before, k) && k != key@ {
                            let j = slot_of(before, k);
                            let a = if j < i {
                                j
                            } else {
                                j - 1
                            };
                            assert(after[a].0@ == k);
                        }
                    }
                    assert forall|k: Seq<char>| holds_key(after, k) implies #[trigger] as_map(
                        after,
                    )[k] == as_map(before).remove(key@)[k] by {
                        let j = slot_of(after, k);
                        lemma_slot(after, j);
                        let b = if j < i {
                            j
                        } else {
                            j + 1
                        };
                        assert(before[b].0@ == k);
                        lemma_slot(before, b);
                    }
                    assert(as_map(after) =~= as_map(before).remove(key@));
                }
                true
            },
            None => {
                assert(as_map(before) =~= as_map(before).remove(key@));
                false
            },
        }
    }
}

/// A list without repeated keys stands for a map of as many keys.
pub proof fn lemma_domain_size(entries: Seq<(String, CacheEntry)>)
    requires
        distinct_keys(entries),
    ensures
        as_map(entries).dom().finite(),
        as_map(entries).dom().len() == entries.len(),
    decreases entries.len(),
{
    if entries.len() == 0 {
        assert(as_map(entries).dom() =~= Set::<Seq<char>>::empty());
    } else {
        let init = entries.drop_last();
        let key = entries.last().0@;
        lemma_domain_size(init);
        assert forall|k: Seq<char>|
            as_map(entries).dom().contains(k) == as_map(init).dom().insert(key).contains(k) by {
            if holds_key(entries, k) {
                let j = slot_of(entries, k);
                if j < init.len() {
                    assert(init[j].0@ == k);
                }
            }
            if holds_key(init, k) {
                let j = slot_of(init, k);
                assert(entries[j].0@ == k);
            }
            if k == key {
                assert(entries[entries.len() - 1].0@ == k);
            }
        }
        assert(as_map(entries).dom() =~= as_map(init).dom().insert(key));
        if holds_key(init, key) {
            let j = slot_of(init, key);
            assert(entries[j].0@ == entries[entries.len() - 1].0@);
        }
    }
}

} // verus!
