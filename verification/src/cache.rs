//! The cache: a fixed-capacity key-value store with least-recently-used
//! eviction.
//!
//! The index (a hash map from key to value and tracker handle) and the
//! recency tracker (a [`List`] of keys, most recently touched first) are kept
//! consistent by every operation: a key is in the index exactly when it has a
//! node on the tracker, and the two always hold the same number of entries,
//! never more than the capacity.

use crate::list::List;
use crate::seq_facts::lemma_cons_no_duplicates;
use crate::seq_facts::lemma_drop_last_is_remove;
use crate::seq_facts::lemma_remove_keeps_no_duplicates;
use crate::seq_facts::lemma_remove_value_at;
use std::collections::HashMap;
use std::hash::Hash;
use vstd::prelude::*;
use vstd::std_specs::hash::obeys_key_model;

verus! {

broadcast use {vstd::set::group_set_axioms, vstd::std_specs::hash::group_hash_axioms};

/// A least-recently-used cache with a fixed capacity.
///
/// `map` is the index from key to the stored value and the handle of the
/// key's node on `queue`, the recency tracker ordered from most recently
/// touched at the front to least recently touched at the back.
pub struct LruCache<KeyType, ValueType> where KeyType: Eq + Hash, ValueType: Eq + Hash {
    capacity: usize,
    map: HashMap<KeyType, (ValueType, usize)>,
    queue: List<KeyType>,
}

impl<KeyType, ValueType> LruCache<KeyType, ValueType> where
    KeyType: Eq + Hash,
    ValueType: Eq + Hash,
 {
    /// The cached keys, most recently touched first.
    pub closed spec fn recency(self) -> Seq<KeyType> {
        self.queue.values()
    }

    /// The cached key-value pairs.
    pub closed spec fn contents(self) -> Map<KeyType, ValueType> {
        Map::new(|k: KeyType| self.map@.contains_key(k), |k: KeyType| self.map@[k].0)
    }

    /// The capacity fixed at construction.
    pub closed spec fn spec_capacity(self) -> usize {
        self.capacity
    }

    /// The index and the tracker agree: each key of the index has a node on
    /// the tracker holding that key and no other node, both structures hold
    /// the same number of entries, and never more than the capacity.
    pub closed spec fn wf(self) -> bool {
        &&& self.queue.wf()
        &&& self.capacity >= 1
        &&& self.recency().no_duplicates()
        &&& forall|k: KeyType| (#[trigger] self.map@.contains_key(k)) <==> self.recency().contains(k)
        &&& forall|k: KeyType|
            (#[trigger] self.map@.contains_key(k)) ==> self.queue.valid_handle(self.map@[k].1)
                && self.queue.handle_value(self.map@[k].1) == k
        &&& self.map@.dom().len() == self.recency().len()
        &&& self.recency().len() <= self.capacity
    }

    /// Law: in every well-formed cache the index and the tracker hold the
    /// same number of entries, and never more than the capacity.
    pub proof fn lemma_size_agrees(self)
        requires
            self.wf(),
        ensures
            self.contents().dom().len() == self.recency().len(),
            self.recency().len() <= self.spec_capacity(),
    {
        assert(self.contents().dom() =~= self.map@.dom());
    }

    /// Law: a key is in the index exactly when it has a node on the tracker.
    pub proof fn lemma_index_matches_tracker(self, k: KeyType)
        requires
            self.wf(),
        ensures
            self.contents().contains_key(k) <==> self.recency().contains(k),
    {
        assert(self.contents().contains_key(k) == self.map@.contains_key(k));
    }
}

impl<KeyType, ValueType> LruCache<KeyType, ValueType> where
    KeyType: Eq + Hash + Copy,
    ValueType: Eq + Hash,
 {
    /// Creates an LRU cache that holds at most `capacity` entries.
    pub fn new(capacity: usize) -> (r: Self)
        requires
            capacity >= 1,
        ensures
            r.wf(),
            r.spec_capacity() == capacity,
            r.contents() == Map::<KeyType, ValueType>::empty(),
            r.recency() == Seq::<KeyType>::empty(),
    {
        let r = LruCache { capacity, map: HashMap::new(), queue: List::new() };
        proof {
            assert(r.contents() =~= Map::<KeyType, ValueType>::empty());
            assert(r.map@.dom() =~= Set::<KeyType>::empty());
        }
        r
    }

    /// Puts `key` with `value` into the cache and makes it the most recently
    /// used entry. An existing entry for the key is replaced without a change
    /// of size; otherwise, when the cache is full, the least recently used
    /// entry — the back of the recency order — is evicted to make room.
    pub fn put(&mut self, key: KeyType, value: ValueType)
        requires
            old(self).wf(),
            obeys_key_model::<KeyType>(),
        ensures
            final(self).wf(),
            final(self).spec_capacity() == old(self).spec_capacity(),
            final(self).contents().contains_key(key),
            final(self).contents()[key] == value,
            final(self).recency().len() > 0 && final(self).recency()[0] == key,
            old(self).contents().contains_key(key) ==> {
                &&& final(self).contents() == old(self).contents().insert(key, value)
                &&& final(self).recency() == seq![key] + old(self).recency().remove_value(key)
                &&& final(self).contents().dom().len() == old(self).contents().dom().len()
            },
            !old(self).contents().contains_key(key) && old(self).recency().len() < old(self).spec_capacity() ==> {
                &&& final(self).contents() == old(self).contents().insert(key, value)
                &&& final(self).recency() == seq![key] + old(self).recency()
            },
            !old(self).contents().contains_key(key) && old(self).recency().len() == old(self).spec_capacity() ==> {
                &&& final(self).contents() == old(self).contents().remove(
                    old(self).recency().last(),
                ).insert(key, value)
                &&& final(self).recency() == seq![key] + old(self).recency().drop_last()
            },
    {
        let ghost s0 = *old(self);
        let ghost m0 = s0.map@;
        let ghost vals0 = s0.recency();
        match self.map.remove(&key) {
            Some(pair) => {
                let h = pair.1;
                proof {
                    assert(m0.contains_key(key));
                    assert(m0[key] == pair);
                    assert(self.map@ == m0.remove(key));
                    assert(s0.queue.valid_handle(h));
                    assert(s0.queue.handle_value(h) == key);
                }
                self.queue.remove_node(h);
                let ghost i = s0.queue.handles().index_of(h);
                let ghost q1 = self.queue;
                proof {
                    assert(s0.queue.handles()[i] == h);
                    assert(vals0[i] == s0.queue.handle_value(s0.queue.handles()[i]));
                    assert(vals0[i] == key);
                    lemma_remove_keeps_no_duplicates(vals0, i);
                    lemma_remove_value_at(vals0, i);
                    assert(q1.handle_value(h) == key);
                }
                self.queue.push_node_front(h);
                self.map.insert(key, (value, h));
                proof {
                    let m2 = self.map@;
                    let vals2 = self.recency();
                    assert(m2 == m0.remove(key).insert(key, (value, h)));
                    assert(vals2 == seq![key] + vals0.remove(i));
                    lemma_cons_no_duplicates(key, vals0.remove(i));
                    assert(vals2[0] == key);
                    assert forall|k: KeyType| (#[trigger] m2.contains_key(k))
                        <==> vals2.contains(k) by {
                        if m2.contains_key(k) {
                            if k == key {
                                assert(vals2.contains(key));
                            } else {
                                assert(m0.contains_key(k));
                                assert(vals0.contains(k));
                                assert(vals0.remove(i).contains(k));
                                assert(vals2.contains(k));
                            }
                        }
                        if vals2.contains(k) {
                            if k != key {
                                assert(vals0.remove(i).contains(k));
                                assert(vals0.contains(k));
                                assert(m0.contains_key(k));
                            }
                        }
                    }
                    assert forall|k: KeyType| #[trigger] m2.contains_key(k) implies
                        self.queue.valid_handle(m2[k].1) && self.queue.handle_value(m2[k].1)
                        == k by {
                        if k == key {
                            assert(self.queue.handles()[0] == h);
                            assert(self.queue.valid_handle(h));
                            assert(self.queue.handle_value(h) == q1.handle_value(h));
                        } else {
                            assert(m2[k] == m0[k]);
                            assert(m0.contains_key(k));
                            let x = m0[k].1;
                            assert(s0.queue.valid_handle(x));
                            assert(s0.queue.handle_value(x) == k);
                            assert(x != h);
                            assert(q1.valid_handle(x) && q1.handle_value(x) == k);
                            let j = choose|j: int| 0 <= j < q1.handles().len() && q1.handles()[j]
                                == x;
                            assert(self.queue.handles()[j + 1] == x);
                            assert(self.queue.valid_handle(x));
                        }
                    }
                    assert(m2.dom() =~= m0.dom());
                    assert(self.wf());
                    assert(self.contents() =~= s0.contents().insert(key, value));
                    assert(self.contents().dom() =~= s0.contents().dom());
                    assert(vals0.remove_value(key) == vals0.remove(i));
                }
            },
            None => {
                proof {
                    assert(!m0.contains_key(key));
                    assert(self.map@ == m0.remove(key));
                    assert(self.map@ =~= m0);
                    assert(!vals0.contains(key)) by {
                        if vals0.contains(key) {
                            assert(m0.contains_key(key));
                        }
                    }
                }
                let at_capacity = self.map.len() == self.capacity;
                if at_capacity {
                    proof {
                        assert(m0.dom().len() == self.capacity);
                        assert(vals0.len() == self.capacity);
                        assert(vals0.len() > 0);
                    }
                    let evicted_opt = self.queue.back();
                    let evicted: KeyType;
                    match evicted_opt {
                        Some(k0) => {
                            evicted = k0;
                        },
                        None => {
                            proof {
                                assert(false);
                            }
                            evicted = key;
                        },
                    }
                    proof {
                        assert(evicted == vals0.last());
                        assert(vals0[vals0.len() - 1] == evicted);
                        assert(vals0.contains(evicted));
                        assert(m0.contains_key(evicted));
                    }
                    self.map.remove(&evicted);
                    proof {
                        assert(self.map@ == m0.remove(evicted));
                    }
                    self.queue.pop_back();
                    proof {
                        // the evicted key's node is exactly the back node
                        let xe = m0[evicted].1;
                        assert(s0.queue.valid_handle(xe));
                        assert(s0.queue.handle_value(xe) == evicted);
                        let j = choose|j: int| 0 <= j < s0.queue.handles().len()
                            && s0.queue.handles()[j] == xe;
                        assert(vals0[j] == s0.queue.handle_value(s0.queue.handles()[j]));
                        assert(vals0[j] == evicted);
                        assert(j == vals0.len() - 1);
                        assert(xe == s0.queue.handles().last());
                        lemma_drop_last_is_remove(vals0);
                        lemma_remove_keeps_no_duplicates(vals0, vals0.len() - 1);
                    }
                } else {
                    proof {
                        assert(m0.dom().len() < self.capacity);
                    }
                }
                let ghost q3 = self.queue;
                let ghost vals3 = q3.values();
                let h = self.queue.push_front(key);
                self.map.insert(key, (value, h));
                proof {
                    let m4 = self.map@;
                    let vals4 = self.recency();
                    assert(vals4 == seq![key] + vals3);
                    assert(!vals3.contains(key)) by {
                        if at_capacity {
                            assert(vals3 == vals0.drop_last());
                            if vals3.contains(key) {
                                assert(vals0.remove(vals0.len() - 1).contains(key));
                                assert(vals0.contains(key));
                            }
                        }
                    }
                    lemma_cons_no_duplicates(key, vals3);
                    assert(vals4[0] == key);
                    assert forall|k: KeyType| (#[trigger] m4.contains_key(k))
                        <==> vals4.contains(k) by {
                        let ghost evicted_key = vals0.last();
                        if m4.contains_key(k) {
                            if k == key {
                                assert(vals4.contains(key));
                            } else {
                                assert(m0.contains_key(k));
                                assert(vals0.contains(k));
                                if at_capacity {
                                    assert(k != evicted_key);
                                    assert(vals0.remove(vals0.len() - 1).contains(k));
                                    assert(vals3.contains(k));
                                } else {
                                    assert(vals3.contains(k));
                                }
                                assert(vals4.contains(k));
                            }
                        }
                        if vals4.contains(k) {
                            if k != key {
                                assert(vals3.contains(k));
                                if at_capacity {
                                    assert(vals0.remove(vals0.len() - 1).contains(k));
                                    assert(vals0.contains(k));
                                    assert(m0.contains_key(k));
                                    assert(k != evicted_key);
                                    assert(m4.contains_key(k));
                                } else {
                                    assert(vals0.contains(k));
                                    assert(m0.contains_key(k));
                                    assert(m4.contains_key(k));
                                }
                            }
                        }
                    }
                    assert forall|k: KeyType| #[trigger] m4.contains_key(k) implies
                        self.queue.valid_handle(m4[k].1) && self.queue.handle_value(m4[k].1)
                        == k by {
                        if k == key {
                            assert(self.queue.handles()[0] == h);
                            assert(self.queue.valid_handle(h));
                        } else {
                            assert(m4[k] == m0[k]);
                            assert(m0.contains_key(k));
                            let x = m0[k].1;
                            assert(s0.queue.valid_handle(x));
                            assert(s0.queue.handle_value(x) == k);
                            let jx = choose|j: int| 0 <= j < s0.queue.handles().len()
                                && s0.queue.handles()[j] == x;
                            if at_capacity {
                                let xe = m0[vals0.last()].1;
                                assert(vals0[jx] == s0.queue.handle_value(s0.queue.handles()[jx]));
                                assert(vals0[jx] == k);
                                assert(jx != vals0.len() - 1);
                                assert(q3.handles() == s0.queue.handles().drop_last());
                                assert(q3.handles()[jx] == x);
                                assert(q3.valid_handle(x));
                            } else {
                                assert(q3.valid_handle(x));
                            }
                            assert(q3.handle_value(x) == k);
                            let jq = choose|j: int| 0 <= j < q3.handles().len() && q3.handles()[j]
                                == x;
                            assert(self.queue.handles()[jq + 1] == x);
                            assert(self.queue.valid_handle(x));
                            assert(self.queue.handle_value(x) == k);
                        }
                    }
                    if at_capacity {
                        assert(self.map@.dom() =~= m0.dom().remove(vals0.last()).insert(key));
                        assert(m0.dom().finite());
                        assert(self.map@.dom().len() == m0.dom().len());
                    } else {
                        assert(self.map@.dom() =~= m0.dom().insert(key));
                        assert(m0.dom().finite());
                        assert(self.map@.dom().len() == m0.dom().len() + 1);
                    }
                    assert(self.wf());
                    if at_capacity {
                        assert(self.contents() =~= s0.contents().remove(vals0.last()).insert(
                            key,
                            value,
                        ));
                    } else {
                        assert(self.contents() =~= s0.contents().insert(key, value));
                    }
                }
            },
        }
    }

    /// Gets the value stored for `key`, promoting the key to most recently
    /// used. A miss — the key is absent — returns nothing and leaves the
    /// cache, including its recency order, unchanged.
    pub fn get(&mut self, key: &KeyType) -> (r: Option<&ValueType>)
        requires
            old(self).wf(),
            obeys_key_model::<KeyType>(),
        ensures
            final(self).wf(),
            final(self).spec_capacity() == old(self).spec_capacity(),
            final(self).contents() == old(self).contents(),
            match r {
                Some(v) => {
                    &&& old(self).contents().contains_key(*key)
                    &&& *v == old(self).contents()[*key]
                    &&& final(self).recency() == seq![*key] + old(self).recency().remove_value(
                        *key,
                    )
                    &&& final(self).recency().len() > 0 && final(self).recency()[0] == *key
                },
                None => {
                    &&& !old(self).contents().contains_key(*key)
                    &&& *final(self) == *old(self)
                },
            },
    {
        let ghost s0 = *old(self);
        let ghost m0 = s0.map@;
        let ghost vals0 = s0.recency();
        match self.map.get(key) {
            Some(pair) => {
                let h = pair.1;
                proof {
                    assert(m0.contains_key(*key));
                    assert(m0[*key] == *pair);
                    assert(s0.queue.valid_handle(h));
                    assert(s0.queue.handle_value(h) == *key);
                }
                self.queue.remove_node(h);
                let ghost i = s0.queue.handles().index_of(h);
                let ghost q1 = self.queue;
                proof {
                    assert(s0.queue.handles()[i] == h);
                    assert(vals0[i] == s0.queue.handle_value(s0.queue.handles()[i]));
                    assert(vals0[i] == *key);
                    lemma_remove_keeps_no_duplicates(vals0, i);
                    lemma_remove_value_at(vals0, i);
                    assert(q1.handle_value(h) == *key);
                }
                self.queue.push_node_front(h);
                proof {
                    let m2 = self.map@;
                    let vals2 = self.recency();
                    assert(m2 == m0);
                    assert(vals2 == seq![*key] + vals0.remove(i));
                    lemma_cons_no_duplicates(*key, vals0.remove(i));
                    assert(vals2[0] == *key);
                    assert forall|k: KeyType| (#[trigger] m2.contains_key(k))
                        <==> vals2.contains(k) by {
                        if m2.contains_key(k) {
                            if k == *key {
                                assert(vals2.contains(k));
                            } else {
                                assert(m0.contains_key(k));
                                assert(vals0.contains(k));
                                assert(vals0.remove(i).contains(k));
                                assert(vals2.contains(k));
                            }
                        }
                        if vals2.contains(k) {
                            if k != *key {
                                assert(vals0.remove(i).contains(k));
                                assert(vals0.contains(k));
                                assert(m0.contains_key(k));
                            }
                        }
                    }
                    assert forall|k: KeyType| #[trigger] m2.contains_key(k) implies
                        self.queue.valid_handle(m2[k].1) && self.queue.handle_value(m2[k].1)
                        == k by {
                        if k == *key {
                            assert(m2[k].1 == h);
                            assert(self.queue.handles()[0] == h);
                            assert(self.queue.valid_handle(h));
                            assert(self.queue.handle_value(h) == q1.handle_value(h));
                        } else {
                            assert(m0.contains_key(k));
                            let x = m0[k].1;
                            assert(s0.queue.valid_handle(x));
                            assert(s0.queue.handle_value(x) == k);
                            assert(x != h);
                            assert(q1.valid_handle(x) && q1.handle_value(x) == k);
                            let j = choose|j: int| 0 <= j < q1.handles().len() && q1.handles()[j]
                                == x;
                            assert(self.queue.handles()[j + 1] == x);
                            assert(self.queue.valid_handle(x));
                        }
                    }
                    assert(self.wf());
                    assert(self.contents() =~= s0.contents());
                    assert(vals0.remove_value(*key) == vals0.remove(i));
                }
                Some(&pair.0)
            },
            None => {
                proof {
                    assert(!m0.contains_key(*key));
                }
                None
            },
        }
    }
}

} // verus!
