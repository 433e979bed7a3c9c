//! An order-preserving, key-addressable map: a hash index over an intrusive
//! doubly linked list whose nodes live in a slot arena and are addressed by
//! index instead of by pointer. Entries keep insertion order; an entry can be
//! relocated to the tail ("touched") to mark it most recently used, and
//! entries can be popped from either end. The structure never evicts on its
//! own: capacity policy belongs to the caller.

use vstd::prelude::*;

pub mod linkedlist;

use crate::linkedlist::{LinkedList, NodeSlab};
use std::collections::hash_map::RandomState;
use std::collections::HashMap;
use std::hash::{BuildHasher, Hash};

verus! {

broadcast use vstd::std_specs::hash::group_hash_axioms;

/// `Clone` on this type hands back a value equal (at the specification
/// level) to the original.
pub open spec fn keys_clone_exact<K: Clone>() -> bool {
    forall|a: K, b: K| vstd::pervasive::cloned::<K>(a, b) ==> a == b
}

/// The conditions under which the std `HashMap` used for the key index
/// behaves like its mathematical model: the key type's `Eq` and `Hash` agree
/// with value equality, the hash builder is deterministic, and cloning a key
/// gives back an equal key.
pub open spec fn key_model_ok<K: Clone, S>() -> bool {
    &&& vstd::std_specs::hash::obeys_key_model::<K>()
    &&& vstd::std_specs::hash::builds_valid_hashers::<S>()
    &&& keys_clone_exact::<K>()
}

/// An order-preserving, key-addressable map. The arena owns the key/value
/// nodes, the linked list owns the order, and the hash index maps each key to
/// the arena slot of its node.
#[verifier::reject_recursive_types(K)]
#[verifier::reject_recursive_types(S)]
pub struct LinkedHashMap<K, V, S = RandomState> {
    slab: NodeSlab<(K, V)>,
    list: LinkedList,
    map: HashMap<K, usize, S>,
}

impl<K, V, S> View for LinkedHashMap<K, V, S> {
    type V = Seq<(K, V)>;

    /// The entries in list order, oldest first, newest last.
    closed spec fn view(&self) -> Seq<(K, V)> {
        Seq::new(self.list@.len(), |j: int| self.slab.node_value(self.list@[j]))
    }
}

/// Relies on `HashMap::with_hasher`: it builds an empty map.
#[verifier::external_body]
fn new_map_with_hasher<K, V, S: BuildHasher>(hash_builder: S) -> (m: HashMap<K, V, S>)
    ensures
        m.view() =~= Map::empty(),
{
    HashMap::with_hasher(hash_builder)
}

/// Relies on `HashMap::with_capacity_and_hasher`: it builds an empty map.
#[verifier::external_body]
fn new_map_with_capacity_and_hasher<K, V, S: BuildHasher>(
    capacity: usize,
    hash_builder: S,
) -> (m: HashMap<K, V, S>)
    ensures
        m.view() =~= Map::empty(),
{
    HashMap::with_capacity_and_hasher(capacity, hash_builder)
}

/// Relies on `HashMap::shrink_to_fit`: it only drops unused capacity; the
/// entries are unchanged.
#[verifier::external_body]
fn map_shrink<K: Hash + Eq, V, S: BuildHasher>(m: &mut HashMap<K, V, S>)
    ensures
        final(m)@ == old(m)@,
{
    m.shrink_to_fit()
}

impl<K, V, S> LinkedHashMap<K, V, S> where K: Hash + Eq + Clone, S: BuildHasher {
    /// Everything agrees: the list is well formed over the arena, the hash
    /// index maps exactly the keys of the live nodes to their slots, and the
    /// key type fits the hash-map model.
    pub closed spec fn wf(self) -> bool {
        &&& self.list.wf(self.slab)
        &&& key_model_ok::<K, S>()
        &&& forall|i: usize|
            #[trigger] self.slab.is_live(i) ==> self.map@.contains_key(self.slab.node_value(i).0)
                && self.map@[self.slab.node_value(i).0] == i
        &&& forall|k: K|
            #[trigger] self.map@.contains_key(k) ==> self.slab.is_live(self.map@[k])
                && self.slab.node_value(self.map@[k]).0 == k
    }

    /// Some entry currently holds key `k`.
    pub open spec fn spec_contains_key(self, k: K) -> bool {
        exists|j: int| 0 <= j < self@.len() && (#[trigger] self@[j]).0 == k
    }

    /// The position, in order, of the entry holding key `k`.
    pub open spec fn spec_index_of(self, k: K) -> int {
        choose|j: int| 0 <= j < self@.len() && (#[trigger] self@[j]).0 == k
    }

    /// Each key occurs in at most one entry, and the hash index, the view and
    /// the list order line up.
    proof fn lemma_map_index(self)
        requires
            self.wf(),
        ensures
            forall|j1: int, j2: int|
                0 <= j1 < self@.len() && 0 <= j2 < self@.len() && j1 != j2 ==> (#[trigger] self@[j1]).0
                    != (#[trigger] self@[j2]).0,
            forall|k: K| #[trigger] self.map@.contains_key(k) == self.spec_contains_key(k),
            forall|k: K|
                #[trigger] self.map@.contains_key(k) ==> {
                    let j = self.spec_index_of(k);
                    0 <= j < self@.len() && self@[j].0 == k && self.list@[j] == self.map@[k]
                },
    {
        crate::linkedlist::lemma_wf_order_facts(self.list, self.slab);
        let s = self.list@;
        assert forall|j1: int, j2: int|
            0 <= j1 < self@.len() && 0 <= j2 < self@.len() && j1 != j2 implies (#[trigger] self@[j1]).0
            != (#[trigger] self@[j2]).0 by {
            assert(self.slab.is_live(s[j1]) && self.slab.is_live(s[j2]));
            if self@[j1].0 == self@[j2].0 {
                assert(self.map@[self.slab.node_value(s[j1]).0] == s[j1]);
                assert(self.map@[self.slab.node_value(s[j2]).0] == s[j2]);
                assert(s[j1] != s[j2]);
            }
        }
        assert forall|k: K| #[trigger] self.map@.contains_key(k) == self.spec_contains_key(k) by {
            if self.map@.contains_key(k) {
                let i = self.map@[k];
                assert(self.slab.is_live(i));
                assert(s.contains(i));
                let j = choose|j: int| 0 <= j < s.len() && s[j] == i;
                assert(self@[j].0 == k);
            }
            if self.spec_contains_key(k) {
                let j = choose|j: int| 0 <= j < self@.len() && (#[trigger] self@[j]).0 == k;
                assert(self.slab.is_live(s[j]));
                assert(self.map@.contains_key(self.slab.node_value(s[j]).0));
            }
        }
        assert forall|k: K| #[trigger] self.map@.contains_key(k) implies {
            let j = self.spec_index_of(k);
            0 <= j < self@.len() && self@[j].0 == k && self.list@[j] == self.map@[k]
        } by {
            let j = self.spec_index_of(k);
            assert(0 <= j < self@.len() && self@[j].0 == k);
            assert(self.slab.is_live(s[j]));
            assert(self.map@[self.slab.node_value(s[j]).0] == s[j]);
        }
    }

    /// The hash index holds one entry per live node, so its size is the
    /// number of entries.
    proof fn lemma_len(self)
        requires
            self.wf(),
        ensures
            self.map@.len() == self@.len(),
    {
        self.lemma_map_index();
        crate::linkedlist::lemma_wf_order_facts(self.list, self.slab);
        let keys = Seq::new(self@.len(), |j: int| self@[j].0);
        assert(keys.no_duplicates());
        assert(keys.to_set() =~= self.map@.dom()) by {
            assert forall|k: K| keys.to_set().contains(k) implies self.map@.dom().contains(k) by {
                let j = choose|j: int| 0 <= j < keys.len() && keys[j] == k;
                assert(self@[j].0 == k);
            }
            assert forall|k: K| self.map@.dom().contains(k) implies keys.to_set().contains(k) by {
                let j = self.spec_index_of(k);
                assert(keys[j] == k);
            }
        }
        keys.unique_seq_to_set();
    }
}

/// The values handed back by draining a sequence from the front, in order.
pub open spec fn front_drain<A>(s: Seq<A>) -> Seq<A>
    decreases s.len(),
{
    if s.len() == 0 {
        Seq::empty()
    } else {
        seq![s[0]] + front_drain(s.drop_first())
    }
}

/// The values handed back by draining a sequence from the back, in order.
pub open spec fn back_drain<A>(s: Seq<A>) -> Seq<A>
    decreases s.len(),
{
    if s.len() == 0 {
        Seq::empty()
    } else {
        seq![s.last()] + back_drain(s.drop_last())
    }
}

/// FIFO law: draining from the front returns exactly the stored sequence.
/// Pushing entries appends them (per the `insert`/`push` contracts), and each
/// front pop returns the head and drops it from the view (per the `pop_front`
/// contracts), so after pushing fresh entries in some order, popping from the
/// front returns them in that same order.
pub proof fn lemma_front_drain_is_order<A>(s: Seq<A>)
    ensures
        front_drain(s) == s,
    decreases s.len(),
{
    if s.len() == 0 {
        assert(front_drain(s) =~= s);
    } else {
        lemma_front_drain_is_order(s.drop_first());
        assert(seq![s[0]] + s.drop_first() =~= s);
    }
}

/// LIFO-from-tail law: draining from the back returns the reverse of the
/// stored sequence. Each back pop returns the tail and drops it from the view
/// (per the `pop_last` contracts), so after pushing fresh entries in some
/// order, popping from the back returns them newest first.
pub proof fn lemma_back_drain_is_reverse_order<A>(s: Seq<A>)
    ensures
        back_drain(s) == s.reverse(),
    decreases s.len(),
{
    if s.len() == 0 {
        assert(back_drain(s) =~= s.reverse());
    } else {
        lemma_back_drain_is_reverse_order(s.drop_last());
        assert(seq![s.last()] + s.drop_last().reverse() =~= s.reverse());
    }
}

/// Relocating the sole entry of a one-entry sequence to the back leaves the
/// sequence unchanged: with the `touch` contracts, touching the sole entry of
/// the map (without rewriting its value) is a no-op on the view.
pub proof fn lemma_relocate_sole<A>(s: Seq<A>)
    requires
        s.len() == 1,
    ensures
        s.remove(0).push(s[0]) == s,
{
    assert(s.remove(0).push(s[0]) =~= s);
}

impl<K, V> LinkedHashMap<K, V> where K: Hash + Eq + Clone {
    pub fn new() -> (r: LinkedHashMap<K, V>)
        ensures
            r@ == Seq::<(K, V)>::empty(),
            key_model_ok::<K, RandomState>() ==> r.wf(),
    {
        let r = LinkedHashMap {
            slab: NodeSlab::new(),
            list: LinkedList::new(),
            map: HashMap::new(),
        };
        proof {
            LinkedList::lemma_empty_list_wf(r.list, r.slab);
            assert(r@ =~= Seq::<(K, V)>::empty());
        }
        r
    }

    pub fn with_capacity(cap: usize) -> (r: LinkedHashMap<K, V>)
        ensures
            r@ == Seq::<(K, V)>::empty(),
            key_model_ok::<K, RandomState>() ==> r.wf(),
    {
        let r = LinkedHashMap {
            slab: NodeSlab::with_capacity(cap),
            list: LinkedList::new(),
            map: HashMap::with_capacity(cap),
        };
        proof {
            LinkedList::lemma_empty_list_wf(r.list, r.slab);
            assert(r@ =~= Seq::<(K, V)>::empty());
        }
        r
    }
}

impl<K, V, S> LinkedHashMap<K, V, S> where K: Hash + Eq + Clone, S: BuildHasher {
    pub fn with_hasher(hash_builder: S) -> (r: Self)
        ensures
            r@ == Seq::<(K, V)>::empty(),
            key_model_ok::<K, S>() ==> r.wf(),
    {
        let r = LinkedHashMap {
            slab: NodeSlab::new(),
            list: LinkedList::new(),
            map: new_map_with_hasher(hash_builder),
        };
        proof {
            LinkedList::lemma_empty_list_wf(r.list, r.slab);
            assert(r@ =~= Seq::<(K, V)>::empty());
        }
        r
    }

    pub fn with_capacity_and_hasher(capacity: usize, hash_builder: S) -> (r: Self)
        ensures
            r@ == Seq::<(K, V)>::empty(),
            key_model_ok::<K, S>() ==> r.wf(),
    {
        let r = LinkedHashMap {
            slab: NodeSlab::with_capacity(capacity),
            list: LinkedList::new(),
            map: new_map_with_capacity_and_hasher(capacity, hash_builder),
        };
        proof {
            LinkedList::lemma_empty_list_wf(r.list, r.slab);
            assert(r@ =~= Seq::<(K, V)>::empty());
        }
        r
    }

    /// The number of entries currently stored.
    pub fn len(&self) -> (n: usize)
        requires
            self.wf(),
        ensures
            n == self@.len(),
    {
        proof {
            self.lemma_len();
        }
        self.map.len()
    }

    /// Pre-size the arena and the hash index for `additional` more entries.
    pub fn reserve(&mut self, additional: usize)
        requires
            old(self).wf(),
        ensures
            final(self).wf(),
            final(self)@ == old(self)@,
    {
        proof {
            crate::linkedlist::lemma_wf_order_facts(old(self).list, old(self).slab);
        }
        self.slab.reserve(additional);
        self.map.reserve(additional);
        proof {
            assert(self@ =~= old(self)@);
        }
    }

    /// Give unused capacity back; the entries are untouched.
    pub fn shrink_to_fit(&mut self)
        requires
            old(self).wf(),
        ensures
            final(self).wf(),
            final(self)@ == old(self)@,
    {
        proof {
            crate::linkedlist::lemma_wf_order_facts(old(self).list, old(self).slab);
        }
        self.slab.shrink_to_fit();
        map_shrink(&mut self.map);
        proof {
            assert(self@ =~= old(self)@);
        }
    }

    /// Add an entry at the tail. If the key was already present, the old
    /// entry is unlinked (wherever it stood) and its value returned: the new
    /// entry always lands at the tail, even on key replacement.
    #[verifier::rlimit(100)]
    pub fn insert(&mut self, key: K, value: V) -> (r: Option<V>)
        requires
            old(self).wf(),
        ensures
            final(self).wf(),
            !old(self).spec_contains_key(key) ==> r is None && final(self)@ == old(self)@.push(
                (key, value),
            ),
            old(self).spec_contains_key(key) ==> {
                let j = old(self).spec_index_of(key);
                &&& r == Some(old(self)@[j].1)
                &&& final(self)@ == old(self)@.remove(j).push((key, value))
            },
    {
        proof {
            old(self).lemma_map_index();
            crate::linkedlist::lemma_wf_order_facts(old(self).list, old(self).slab);
        }
        let ghost s = old(self).list@;
        let cloned_key = key.clone();
        proof {
            assert(vstd::pervasive::cloned::<K>(key, cloned_key));
            assert(cloned_key == key);
        }
        let index = self.list.push(&mut self.slab, (cloned_key, value));
        match self.map.insert(key, index) {
            None => {
                proof {
                    assert(!old(self).spec_contains_key(key));
                    assert forall|i: usize| #[trigger] self.slab.is_live(i) implies self.map@.contains_key(
                        self.slab.node_value(i).0,
                    ) && self.map@[self.slab.node_value(i).0] == i by {
                        if i != index {
                            assert(old(self).slab.is_live(i));
                            assert(self.slab.node_value(i) == old(self).slab.node_value(i));
                            assert(self.slab.node_value(i).0 != key);
                        }
                    }
                    assert forall|k: K| #[trigger] self.map@.contains_key(k) implies self.slab.is_live(
                        self.map@[k],
                    ) && self.slab.node_value(self.map@[k]).0 == k by {
                        if k != key {
                            assert(old(self).map@.contains_key(k));
                            assert(old(self).slab.is_live(old(self).map@[k]));
                        }
                    }
                    assert(self@ =~= old(self)@.push((key, value)));
                }
                None
            },
            Some(old_index) => {
                proof {
                    assert(old(self).map@.contains_key(key));
                    assert(old_index == old(self).map@[key]);
                    assert(old(self).slab.is_live(old_index));
                    assert(self.slab.is_live(old_index));
                    assert(old_index != index);
                }
                let ghost mid_slab = self.slab;
                let ghost mid_list = self.list;
                let removed = self.list.remove(&mut self.slab, old_index);
                match removed {
                    Some(pair) => {
                        proof {
                            let j = old(self).spec_index_of(key);
                            assert(old(self).list@[j] == old_index);
                            let k = mid_list@.index_of(old_index);
                            assert(mid_list@[j] == old_index);
                            assert(mid_list@.no_duplicates()) by {
                                crate::linkedlist::lemma_wf_order_facts(mid_list, mid_slab);
                            }
                            assert(k == j);
                            assert(self.list@ =~= old(self).list@.remove(j).push(index));
                            assert(pair == old(self).slab.node_value(old_index));
                            assert(pair.1 == old(self)@[j].1);
                            assert forall|i: usize| #[trigger] self.slab.is_live(i) implies self.map@.contains_key(
                                self.slab.node_value(i).0,
                            ) && self.map@[self.slab.node_value(i).0] == i by {
                                if i == index {
                                    assert(self.slab.node_value(i) == (key, value));
                                } else {
                                    assert(old(self).slab.is_live(i) && i != old_index);
                                    assert(self.slab.node_value(i) == old(self).slab.node_value(i));
                                    if self.slab.node_value(i).0 == key {
                                        assert(old(self).map@[key] == i);
                                    }
                                }
                            }
                            assert forall|k2: K| #[trigger] self.map@.contains_key(k2) implies self.slab.is_live(
                                self.map@[k2],
                            ) && self.slab.node_value(self.map@[k2]).0 == k2 by {
                                if k2 != key {
                                    assert(old(self).map@.contains_key(k2));
                                    let i = old(self).map@[k2];
                                    assert(old(self).slab.is_live(i));
                                    if i == old_index {
                                        assert(old(self).slab.node_value(i).0 == key);
                                    }
                                    assert(i != old_index && i != index);
                                }
                            }
                            assert(self@ =~= old(self)@.remove(j).push((key, value)));
                        }
                        Some(pair.1)
                    },
                    None => {
                        proof {
                            assert(false);
                        }
                        None
                    },
                }
            },
        }
    }

    /// Look the key up without touching the order.
    pub fn get(&self, key: &K) -> (r: Option<&V>)
        requires
            self.wf(),
        ensures
            self.spec_contains_key(*key) ==> r is Some && *r.unwrap() == self@[self.spec_index_of(
                *key,
            )].1,
            !self.spec_contains_key(*key) ==> r is None,
    {
        proof {
            self.lemma_map_index();
        }
        let index = match self.map.get(key) {
            Some(i) => *i,
            None => {
                return None;
            },
        };
        match self.slab.get(index) {
            Some(pair) => Some(&pair.1),
            None => {
                proof {
                    assert(false);
                }
                None
            },
        }
    }

    /// Look the key up without touching the order. Like `get`, but usable
    /// while holding the structure exclusively.
    pub fn get_mut(&mut self, key: &K) -> (r: Option<&V>)
        requires
            old(self).wf(),
        ensures
            *final(self) == *old(self),
            old(self).spec_contains_key(*key) ==> r is Some && *r.unwrap() == old(self)@[old(
                self,
            ).spec_index_of(*key)].1,
            !old(self).spec_contains_key(*key) ==> r is None,
    {
        proof {
            old(self).lemma_map_index();
        }
        let index = match self.map.get(key) {
            Some(i) => *i,
            None => {
                return None;
            },
        };
        match self.slab.get(index) {
            Some(pair) => Some(&pair.1),
            None => {
                proof {
                    assert(false);
                }
                None
            },
        }
    }

    /// Relocate the entry holding `key` to the tail, marking it most
    /// recently used, and hand out its value for in-place update.
    #[verifier::rlimit(100)]
    pub fn touch(&mut self, key: &K) -> (r: Option<&mut V>)
        requires
            old(self).wf(),
        ensures
            final(self).wf(),
            old(self).spec_contains_key(*key) == (r is Some),
            (match r {
                None => *final(self) == *old(self),
                Some(v) => {
                    let j = old(self).spec_index_of(*key);
                    &&& *v == old(self)@[j].1
                    &&& final(self)@ =~= old(self)@.remove(j).push((old(self)@[j].0, *final(v)))
                },
            }),
    {
        proof {
            old(self).lemma_map_index();
            crate::linkedlist::lemma_wf_order_facts(old(self).list, old(self).slab);
        }
        let index = match self.map.get(key) {
            Some(i) => *i,
            None => {
                proof {
                    assert(!old(self).map@.contains_key(*key));
                }
                return None;
            },
        };
        proof {
            let j = old(self).spec_index_of(*key);
            assert(old(self).list@[j] == index);
            assert(old(self).slab.is_live(index));
            assert(old(self).list@.index_of(index) == j);
        }
        match self.list.touch(&mut self.slab, index) {
            Some(pair) => Some(&mut pair.1),
            None => {
                proof {
                    assert(false);
                }
                None
            },
        }
    }

    /// Unlink and return the entry holding `key`, if any.
    #[verifier::rlimit(100)]
    pub fn remove(&mut self, key: &K) -> (r: Option<V>)
        requires
            old(self).wf(),
        ensures
            final(self).wf(),
            !old(self).spec_contains_key(*key) ==> r is None && final(self)@ == old(self)@,
            old(self).spec_contains_key(*key) ==> {
                let j = old(self).spec_index_of(*key);
                &&& r == Some(old(self)@[j].1)
                &&& final(self)@ == old(self)@.remove(j)
            },
    {
        proof {
            old(self).lemma_map_index();
            crate::linkedlist::lemma_wf_order_facts(old(self).list, old(self).slab);
        }
        let index = match self.map.remove(key) {
            Some(i) => i,
            None => {
                proof {
                    assert(!old(self).map@.contains_key(*key));
                    assert(self.map@ =~= old(self).map@);
                    assert(self@ =~= old(self)@);
                }
                return None;
            },
        };
        proof {
            let j = old(self).spec_index_of(*key);
            assert(old(self).list@[j] == index);
            assert(old(self).slab.is_live(index));
            assert(old(self).list@.index_of(index) == j);
        }
        let removed = self.list.remove(&mut self.slab, index);
        proof {
            let j = old(self).spec_index_of(*key);
            assert(self.list@ == old(self).list@.remove(j));
            assert forall|i: usize| #[trigger] self.slab.is_live(i) implies self.map@.contains_key(
                self.slab.node_value(i).0,
            ) && self.map@[self.slab.node_value(i).0] == i by {
                assert(old(self).slab.is_live(i) && i != index);
                assert(self.slab.node_value(i) == old(self).slab.node_value(i));
                if self.slab.node_value(i).0 == *key {
                    assert(old(self).map@[*key] == i);
                }
            }
            assert forall|k2: K| #[trigger] self.map@.contains_key(k2) implies self.slab.is_live(
                self.map@[k2],
            ) && self.slab.node_value(self.map@[k2]).0 == k2 by {
                assert(old(self).map@.contains_key(k2) && k2 != *key);
                let i = old(self).map@[k2];
                if i == index {
                    assert(old(self).slab.node_value(i).0 == *key);
                }
                assert(i != index);
            }
            assert(self@ =~= old(self)@.remove(j));
        }
        match removed {
            Some(pair) => Some(pair.1),
            None => {
                proof {
                    assert(false);
                }
                None
            },
        }
    }

    /// Evict and return the oldest entry (the head), key and value.
    #[verifier::rlimit(100)]
    pub fn pop_front(&mut self) -> (r: Option<(K, V)>)
        requires
            old(self).wf(),
        ensures
            final(self).wf(),
            old(self)@.len() == 0 ==> r is None && *final(self) == *old(self),
            old(self)@.len() > 0 ==> r == Some(old(self)@[0]) && final(self)@ == old(
                self,
            )@.drop_first(),
    {
        proof {
            old(self).lemma_map_index();
            crate::linkedlist::lemma_wf_order_facts(old(self).list, old(self).slab);
        }
        let pair = match self.list.pop_front(&mut self.slab) {
            Some(p) => p,
            None => {
                return None;
            },
        };
        let ghost s = old(self).list@;
        let removed = self.map.remove(&pair.0);
        proof {
            assert(pair == old(self).slab.node_value(s[0]));
            assert(old(self).map@.contains_key(pair.0) && old(self).map@[pair.0] == s[0]);
            assert forall|i: usize| #[trigger] self.slab.is_live(i) implies self.map@.contains_key(
                self.slab.node_value(i).0,
            ) && self.map@[self.slab.node_value(i).0] == i by {
                assert(old(self).slab.is_live(i) && i != s[0]);
                assert(self.slab.node_value(i) == old(self).slab.node_value(i));
                if self.slab.node_value(i).0 == pair.0 {
                    assert(old(self).map@[pair.0] == i);
                }
            }
            assert forall|k2: K| #[trigger] self.map@.contains_key(k2) implies self.slab.is_live(
                self.map@[k2],
            ) && self.slab.node_value(self.map@[k2]).0 == k2 by {
                assert(old(self).map@.contains_key(k2) && k2 != pair.0);
                let i = old(self).map@[k2];
                if i == s[0] {
                    assert(old(self).slab.node_value(i).0 == pair.0);
                }
                assert(i != s[0]);
            }
            assert(self@ =~= old(self)@.drop_first());
        }
        match removed {
            Some(_) => Some(pair),
            None => {
                proof {
                    assert(false);
                }
                None
            },
        }
    }

    /// Evict and return the newest entry (the tail), key and value.
    #[verifier::rlimit(100)]
    pub fn pop_last(&mut self) -> (r: Option<(K, V)>)
        requires
            old(self).wf(),
        ensures
            final(self).wf(),
            old(self)@.len() == 0 ==> r is None && *final(self) == *old(self),
            old(self)@.len() > 0 ==> r == Some(old(self)@.last()) && final(self)@ == old(
                self,
            )@.drop_last(),
    {
        proof {
            old(self).lemma_map_index();
            crate::linkedlist::lemma_wf_order_facts(old(self).list, old(self).slab);
        }
        let pair = match self.list.pop_last(&mut self.slab) {
            Some(p) => p,
            None => {
                return None;
            },
        };
        let ghost s = old(self).list@;
        let removed = self.map.remove(&pair.0);
        proof {
            assert(pair == old(self).slab.node_value(s.last()));
            assert(old(self).map@.contains_key(pair.0) && old(self).map@[pair.0] == s.last());
            assert forall|i: usize| #[trigger] self.slab.is_live(i) implies self.map@.contains_key(
                self.slab.node_value(i).0,
            ) && self.map@[self.slab.node_value(i).0] == i by {
                assert(old(self).slab.is_live(i) && i != s.last());
                assert(self.slab.node_value(i) == old(self).slab.node_value(i));
                if self.slab.node_value(i).0 == pair.0 {
                    assert(old(self).map@[pair.0] == i);
                }
            }
            assert forall|k2: K| #[trigger] self.map@.contains_key(k2) implies self.slab.is_live(
                self.map@[k2],
            ) && self.slab.node_value(self.map@[k2]).0 == k2 by {
                assert(old(self).map@.contains_key(k2) && k2 != pair.0);
                let i = old(self).map@[k2];
                if i == s.last() {
                    assert(old(self).slab.node_value(i).0 == pair.0);
                }
                assert(i != s.last());
            }
            assert(self@ =~= old(self)@.drop_last());
        }
        match removed {
            Some(_) => Some(pair),
            None => {
                proof {
                    assert(false);
                }
                None
            },
        }
    }

    /// Drop every entry in one step; capacity stays.
    pub fn clear(&mut self)
        requires
            old(self).wf(),
        ensures
            final(self).wf(),
            final(self)@ == Seq::<(K, V)>::empty(),
    {
        self.slab.clear();
        self.list = LinkedList::new();
        self.map.clear();
        proof {
            LinkedList::lemma_empty_list_wf(self.list, self.slab);
            assert(self@ =~= Seq::<(K, V)>::empty());
        }
    }
}

} // verus!
