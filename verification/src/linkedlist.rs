//! A doubly linked list whose nodes live in a slot arena and are linked by
//! slot index rather than by pointer. A stale index degrades to "not found"
//! instead of touching unrelated memory.

use vstd::prelude::*;

verus! {

/// A list element: a value plus optional `prev`/`next` slot-index links.
#[derive(Debug)]
pub struct Node<T> {
    pub(crate) value: T,
    pub(crate) prev: Option<usize>,
    pub(crate) next: Option<usize>,
}

#[derive(Debug)]
enum Slot<T> {
    Occupied(Node<T>),
    Vacant,
}

/// Growable, index-addressed storage for list nodes. Freed slots are kept on
/// a free stack and reused by later insertions, so indices stay small.
#[derive(Debug)]
pub struct NodeSlab<T> {
    slots: Vec<Slot<T>>,
    free: Vec<usize>,
}

/// Both arenas hold exactly the same live nodes at the same indices.
pub open spec fn same_nodes<T>(a: NodeSlab<T>, b: NodeSlab<T>) -> bool {
    &&& forall|i: usize| #![trigger a.is_live(i)] #![trigger b.is_live(i)]
        a.is_live(i) == b.is_live(i)
    &&& forall|i: usize|
        #[trigger] a.is_live(i) ==> a.node_at(i) == b.node_at(i) && a.node_value(i) == b.node_value(
            i,
        ) && a.node_prev(i) == b.node_prev(i) && a.node_next(i) == b.node_next(i)
}

/// Both arenas hold live nodes at the same indices with the same links;
/// only the stored values may differ.
pub open spec fn same_structure<T>(a: NodeSlab<T>, b: NodeSlab<T>) -> bool {
    &&& forall|i: usize| #![trigger a.is_live(i)] #![trigger b.is_live(i)]
        a.is_live(i) == b.is_live(i)
    &&& forall|i: usize|
        #[trigger] b.is_live(i) ==> b.node_prev(i) == a.node_prev(i) && b.node_next(i)
            == a.node_next(i)
}

/// Rewriting stored values in place never unhooks a well-formed list: its
/// shape depends only on which slots are live and how they are linked.
pub proof fn lemma_same_structure_preserves_wf<T>(list: LinkedList, a: NodeSlab<T>, b: NodeSlab<T>)
    requires
        list.wf(a),
        b.wf(),
        same_structure(a, b),
    ensures
        list.wf(b),
{
    assert forall|k: int| 0 <= k < list@.len() implies b.is_live(#[trigger] list@[k]) by {
        assert(a.is_live(list@[k]));
    }
    assert forall|i: usize| #[trigger] b.is_live(i) implies list@.contains(i) by {
        assert(a.is_live(i));
    }
}

/// Head and tail slot indices of the list, together with the (ghost) sequence
/// of slot indices in list order, front to back.
pub struct LinkedList {
    start: Option<usize>,
    end: Option<usize>,
    order: Ghost<Seq<usize>>,
}

/// Relies on `Vec::shrink_to_fit`: it only drops unused capacity; the
/// elements are unchanged.
#[verifier::external_body]
fn vec_shrink<T>(v: &mut Vec<T>)
    ensures
        final(v)@ == old(v)@,
{
    v.shrink_to_fit()
}

impl<T> NodeSlab<T> {
    /// Slot `i` currently holds a live node.
    pub closed spec fn is_live(self, i: usize) -> bool {
        i < self.slots@.len() && self.slots@[i as int] is Occupied
    }

    pub closed spec fn node_at(self, i: usize) -> Node<T> {
        self.slots@[i as int]->Occupied_0
    }

    pub closed spec fn node_value(self, i: usize) -> T {
        self.node_at(i).value
    }

    pub closed spec fn node_prev(self, i: usize) -> Option<usize> {
        self.node_at(i).prev
    }

    pub closed spec fn node_next(self, i: usize) -> Option<usize> {
        self.node_at(i).next
    }

    /// The free stack lists exactly the vacant slots, each once.
    pub closed spec fn wf(self) -> bool {
        &&& self.free@.no_duplicates()
        &&& forall|k: int|
            0 <= k < self.free@.len() ==> (#[trigger] self.free@[k]) < self.slots@.len()
                && self.slots@[self.free@[k] as int] is Vacant
        &&& forall|i: usize|
            i < self.slots@.len() && (#[trigger] self.slots@[i as int]) is Vacant
                ==> self.free@.contains(i)
    }

    pub fn new() -> (r: NodeSlab<T>)
        ensures
            r.wf(),
            forall|i: usize| !r.is_live(i),
    {
        NodeSlab { slots: Vec::new(), free: Vec::new() }
    }

    pub fn with_capacity(cap: usize) -> (r: NodeSlab<T>)
        ensures
            r.wf(),
            forall|i: usize| !r.is_live(i),
    {
        NodeSlab { slots: Vec::with_capacity(cap), free: Vec::new() }
    }

    /// Place a node in a reused vacant slot if one exists, else append.
    pub(crate) fn insert(&mut self, node: Node<T>) -> (index: usize)
        requires
            old(self).wf(),
        ensures
            final(self).wf(),
            !old(self).is_live(index),
            final(self).is_live(index),
            final(self).node_at(index) == node,
            forall|i: usize|
                #[trigger] old(self).is_live(i) ==> final(self).is_live(i)
                    && final(self).node_at(i) == old(self).node_at(i),
            forall|i: usize| #[trigger] final(self).is_live(i) ==> i == index || old(self).is_live(i),
    {
        match self.free.pop() {
            Some(i) => {
                self.slots[i] = Slot::Occupied(node);
                proof {
                    let oldf = old(self).free@;
                    assert(self.free@ == oldf.subrange(0, oldf.len() - 1));
                    assert(oldf[oldf.len() - 1] == i);
                    assert forall|p: int, q: int|
                        0 <= p < self.free@.len() && 0 <= q < self.free@.len() && p != q
                            implies self.free@[p] != self.free@[q] by {
                        assert(oldf[p] != oldf[q]);
                    }
                    assert forall|j: usize|
                        j < self.slots@.len() && (#[trigger] self.slots@[j as int]) is Vacant
                            implies self.free@.contains(j) by {
                        assert(old(self).slots@[j as int] is Vacant);
                        assert(oldf.contains(j));
                        let l = choose|l: int| 0 <= l < oldf.len() && oldf[l] == j;
                        assert(j != i);
                        assert(l != oldf.len() - 1);
                        assert(self.free@[l] == j);
                    }
                }
                i
            },
            None => {
                let index = self.slots.len();
                self.slots.push(Slot::Occupied(node));
                index
            },
        }
    }

    /// Free slot `index`, returning its node. The caller must have checked
    /// that the slot is live.
    pub(crate) fn remove(&mut self, index: usize) -> (node: Node<T>)
        requires
            old(self).wf(),
            old(self).is_live(index),
        ensures
            final(self).wf(),
            node == old(self).node_at(index),
            !final(self).is_live(index),
            forall|i: usize|
                #[trigger] old(self).is_live(i) && i != index ==> final(self).is_live(i)
                    && final(self).node_at(i) == old(self).node_at(i),
            forall|i: usize| #[trigger] final(self).is_live(i) ==> old(self).is_live(i),
    {
        let mut slot = Slot::Vacant;
        core::mem::swap(&mut slot, &mut self.slots[index]);
        self.free.push(index);
        proof {
            assert forall|j: usize|
                j < self.slots@.len() && (#[trigger] self.slots@[j as int]) is Vacant
                    implies self.free@.contains(j) by {
                if j == index {
                    assert(self.free@[self.free@.len() - 1] == index);
                } else {
                    let l = choose|l: int|
                        0 <= l < old(self).free@.len() && old(self).free@[l] == j;
                    assert(self.free@[l] == j);
                }
            }
        }
        match slot {
            Slot::Occupied(node) => node,
            Slot::Vacant => vstd::pervasive::unreached(),
        }
    }

    /// Whether slot `index` currently holds a node.
    pub(crate) fn contains(&self, index: usize) -> (r: bool)
        ensures
            r == self.is_live(index),
    {
        index < self.slots.len() && matches!(&self.slots[index], Slot::Occupied(_))
    }

    /// Defensive lookup: empty when the slot is currently free.
    pub fn get(&self, index: usize) -> (r: Option<&T>)
        ensures
            match r {
                Some(v) => self.is_live(index) && *v == self.node_value(index),
                None => !self.is_live(index),
            },
    {
        if index < self.slots.len() {
            match &self.slots[index] {
                Slot::Occupied(node) => Some(&node.value),
                Slot::Vacant => None,
            }
        } else {
            None
        }
    }

    /// Defensive mutable lookup: empty when the slot is currently free. The
    /// caller may rewrite the value in place; links are untouched.
    pub fn get_mut(&mut self, index: usize) -> (r: Option<&mut T>)
        requires
            old(self).wf(),
        ensures
            final(self).wf(),
            forall|i: usize| #![trigger old(self).is_live(i)] #![trigger final(self).is_live(i)]
                old(self).is_live(i) == final(self).is_live(i),
            forall|i: usize|
                #[trigger] old(self).is_live(i) && i != index ==> final(self).node_at(i) == old(
                    self,
                ).node_at(i),
            !old(self).is_live(index) ==> r is None,
            old(self).is_live(index) ==> {
                &&& r is Some
                &&& *r.unwrap() == old(self).node_value(index)
                &&& final(self).node_value(index) == *final(r.unwrap())
                &&& final(self).node_prev(index) == old(self).node_prev(index)
                &&& final(self).node_next(index) == old(self).node_next(index)
            },
            same_structure(*old(self), *final(self)),
    {
        if index < self.slots.len() {
            match &mut self.slots[index] {
                Slot::Occupied(node) => Some(&mut node.value),
                Slot::Vacant => None,
            }
        } else {
            None
        }
    }

    /// Read the `prev` link of a live node.
    pub(crate) fn prev_of(&self, index: usize) -> (r: Option<usize>)
        requires
            self.is_live(index),
        ensures
            r == self.node_prev(index),
    {
        match &self.slots[index] {
            Slot::Occupied(node) => node.prev,
            Slot::Vacant => vstd::pervasive::unreached(),
        }
    }

    /// Read the `next` link of a live node.
    pub(crate) fn next_of(&self, index: usize) -> (r: Option<usize>)
        requires
            self.is_live(index),
        ensures
            r == self.node_next(index),
    {
        match &self.slots[index] {
            Slot::Occupied(node) => node.next,
            Slot::Vacant => vstd::pervasive::unreached(),
        }
    }

    /// Overwrite the `prev` link of a live node.
    pub(crate) fn set_prev(&mut self, index: usize, prev: Option<usize>)
        requires
            old(self).wf(),
            old(self).is_live(index),
        ensures
            final(self).wf(),
            final(self).is_live(index),
            final(self).node_value(index) == old(self).node_value(index),
            final(self).node_prev(index) == prev,
            final(self).node_next(index) == old(self).node_next(index),
            forall|i: usize|
                #[trigger] old(self).is_live(i) && i != index ==> final(self).is_live(i)
                    && final(self).node_at(i) == old(self).node_at(i),
            forall|i: usize| #[trigger] final(self).is_live(i) ==> old(self).is_live(i),
    {
        match &mut self.slots[index] {
            Slot::Occupied(node) => {
                node.prev = prev;
            },
            Slot::Vacant => {},
        }
    }

    /// Overwrite the `next` link of a live node.
    pub(crate) fn set_next(&mut self, index: usize, next: Option<usize>)
        requires
            old(self).wf(),
            old(self).is_live(index),
        ensures
            final(self).wf(),
            final(self).is_live(index),
            final(self).node_value(index) == old(self).node_value(index),
            final(self).node_prev(index) == old(self).node_prev(index),
            final(self).node_next(index) == next,
            forall|i: usize|
                #[trigger] old(self).is_live(i) && i != index ==> final(self).is_live(i)
                    && final(self).node_at(i) == old(self).node_at(i),
            forall|i: usize| #[trigger] final(self).is_live(i) ==> old(self).is_live(i),
    {
        match &mut self.slots[index] {
            Slot::Occupied(node) => {
                node.next = next;
            },
            Slot::Vacant => {},
        }
    }

    /// Grow the underlying storage for at least `additional` more nodes.
    pub(crate) fn reserve(&mut self, additional: usize)
        requires
            old(self).wf(),
        ensures
            final(self).wf(),
            same_nodes(*old(self), *final(self)),
            forall|list: LinkedList| #[trigger] list.wf(*old(self)) ==> list.wf(*final(self)),
    {
        self.slots.reserve(additional);
    }

    /// Drop unused capacity of the underlying storage; the nodes stay.
    pub(crate) fn shrink_to_fit(&mut self)
        requires
            old(self).wf(),
        ensures
            final(self).wf(),
            same_nodes(*old(self), *final(self)),
            forall|list: LinkedList| #[trigger] list.wf(*old(self)) ==> list.wf(*final(self)),
    {
        vec_shrink(&mut self.slots);
        vec_shrink(&mut self.free);
    }

    /// Drop every node and every free-list entry in one step; capacity stays.
    pub(crate) fn clear(&mut self)
        ensures
            final(self).wf(),
            forall|i: usize| !final(self).is_live(i),
    {
        self.slots.clear();
        self.free.clear();
    }
}

impl View for LinkedList {
    type V = Seq<usize>;

    /// The slot indices of the list's nodes, front to back.
    closed spec fn view(&self) -> Seq<usize> {
        self.order@
    }
}

impl LinkedList {
    /// The list and the arena agree: the ghost order holds exactly the live
    /// slots, each once; `prev`/`next` of each node point to its neighbours in
    /// the order; `start` is the first node and `end` the last, with `end`
    /// left unset while the list has at most one node.
    pub closed spec fn wf<T>(self, slab: NodeSlab<T>) -> bool {
        &&& slab.wf()
        &&& self.order@.no_duplicates()
        &&& forall|k: int| 0 <= k < self.order@.len() ==> slab.is_live(#[trigger] self.order@[k])
        &&& forall|i: usize| #[trigger] slab.is_live(i) ==> self.order@.contains(i)
        &&& forall|k: int|
            0 <= k < self.order@.len() ==> slab.node_prev(#[trigger] self.order@[k]) == (if k == 0 {
                None::<usize>
            } else {
                Some(self.order@[k - 1])
            })
        &&& forall|k: int|
            0 <= k < self.order@.len() ==> slab.node_next(#[trigger] self.order@[k]) == (if k
                == self.order@.len() - 1 {
                None::<usize>
            } else {
                Some(self.order@[k + 1])
            })
        &&& self.start == (if self.order@.len() == 0 {
            None::<usize>
        } else {
            Some(self.order@[0])
        })
        &&& self.end == (if self.order@.len() <= 1 {
            None::<usize>
        } else {
            Some(self.order@[self.order@.len() - 1])
        })
    }

    /// The state a freshly built list is in: no nodes, no endpoints.
    pub closed spec fn is_empty(self) -> bool {
        &&& self.start is None
        &&& self.end is None
        &&& self.order@ == Seq::<usize>::empty()
    }

    pub fn new() -> (r: LinkedList)
        ensures
            r@ == Seq::<usize>::empty(),
            r.is_empty(),
    {
        LinkedList { start: None, end: None, order: Ghost(Seq::empty()) }
    }

    /// A freshly built list is well formed over any arena with no live nodes.
    pub proof fn lemma_empty_list_wf<T>(list: LinkedList, slab: NodeSlab<T>)
        requires
            list.is_empty(),
            slab.wf(),
            forall|i: usize| !slab.is_live(i),
        ensures
            list.wf(slab),
    {
    }

    /// Append `value` as the new tail; returns the slot index it was given.
    #[verifier::rlimit(60)]
    pub fn push<T>(&mut self, slab: &mut NodeSlab<T>, value: T) -> (index: usize)
        requires
            old(self).wf(*old(slab)),
        ensures
            final(self).wf(*final(slab)),
            !old(slab).is_live(index),
            final(slab).is_live(index),
            final(self)@ == old(self)@.push(index),
            final(slab).node_value(index) == value,
            forall|i: usize|
                #[trigger] old(slab).is_live(i) ==> final(slab).is_live(i)
                    && final(slab).node_value(i) == old(slab).node_value(i),
            forall|i: usize| #[trigger] final(slab).is_live(i) ==> i == index || old(slab).is_live(i),
    {
        match self.start {
            None => {
                proof {
                    if old(self).order@.len() > 0 {
                        assert(slab.is_live(old(self).order@[0]));
                    }
                }
                let node = Node { value, prev: None, next: None };
                let index = slab.insert(node);
                self.start = Some(index);
                self.order = Ghost(self.order@.push(index));
                proof {
                    lemma_fresh_not_in_order(*old(self), *old(slab), index);
                    assert forall|i: usize| #[trigger] slab.is_live(i)
                        implies self.order@.contains(i) by {
                        assert(i == index);
                        assert(self.order@[0] == index);
                    }
                }
                index
            },
            Some(s0) => {
                let ghost s = old(self).order@;
                proof {
                    assert(s.len() > 0);
                }
                let prev = match self.end {
                    Some(e) => e,
                    None => s0,
                };
                proof {
                    assert(prev == s[s.len() - 1]);
                }
                let node = Node { value, prev: Some(prev), next: None };
                let index = slab.insert(node);
                self.end = Some(index);
                slab.set_next(prev, Some(index));
                self.order = Ghost(self.order@.push(index));
                proof {
                    lemma_fresh_not_in_order(*old(self), *old(slab), index);
                    let s2 = self.order@;
                    assert forall|p: int, q: int|
                        0 <= p < s2.len() && 0 <= q < s2.len() && p != q
                            implies s2[p] != s2[q] by {
                        if p < s.len() && q < s.len() {
                            assert(s[p] != s[q]);
                        } else if p < s.len() {
                            assert(slab.is_live(s[p]) || !old(slab).is_live(index));
                        }
                    }
                    assert forall|i: usize| #[trigger] slab.is_live(i)
                        implies s2.contains(i) by {
                        if i == index {
                            assert(s2[s2.len() - 1] == i);
                        } else {
                            assert(old(slab).is_live(i));
                            let k = choose|k: int| 0 <= k < s.len() && s[k] == i;
                            assert(s2[k] == i);
                        }
                    }
                    assert forall|k: int| 0 <= k < s2.len()
                        implies slab.node_prev(#[trigger] s2[k]) == (if k == 0 {
                            None::<usize>
                        } else {
                            Some(s2[k - 1])
                        }) by {
                        if k < s.len() {
                            assert(s2[k] == s[k]);
                            assert(s[k] != index);
                            if s[k] != prev {
                                assert(slab.node_at(s[k]) == old(slab).node_at(s[k]));
                            }
                        }
                    }
                    assert forall|k: int| 0 <= k < s2.len()
                        implies slab.node_next(#[trigger] s2[k]) == (if k == s2.len() - 1 {
                            None::<usize>
                        } else {
                            Some(s2[k + 1])
                        }) by {
                        if k < s.len() - 1 {
                            assert(s2[k] == s[k]);
                            assert(s[k] != index);
                            assert(s[k] != prev);
                            assert(slab.node_at(s[k]) == old(slab).node_at(s[k]));
                        }
                    }
                }
                index
            },
        }
    }
}

impl LinkedList {
    /// Remove and return the value at the head, if any.
    #[verifier::rlimit(60)]
    pub fn pop_front<T>(&mut self, slab: &mut NodeSlab<T>) -> (r: Option<T>)
        requires
            old(self).wf(*old(slab)),
        ensures
            final(self).wf(*final(slab)),
            old(self)@.len() == 0 ==> r is None && *final(self) == *old(self) && *final(slab)
                == *old(slab),
            old(self)@.len() > 0 ==> {
                &&& r == Some(old(slab).node_value(old(self)@[0]))
                &&& final(self)@ == old(self)@.drop_first()
                &&& !final(slab).is_live(old(self)@[0])
                &&& forall|i: usize|
                    #[trigger] old(slab).is_live(i) && i != old(self)@[0] ==> final(slab).is_live(i)
                        && final(slab).node_value(i) == old(slab).node_value(i)
                &&& forall|i: usize| #[trigger] final(slab).is_live(i) ==> old(slab).is_live(i)
            },
    {
        let index = match self.start {
            Some(i) => i,
            None => {
                return None;
            },
        };
        let ghost s = old(self).order@;
        let node = slab.remove(index);
        self.order = Ghost(s.drop_first());
        match node.next {
            None => {
                proof {
                    assert(s.len() == 1);
                }
                self.start = None;
                self.end = None;
                proof {
                    assert forall|i: usize| #[trigger] slab.is_live(i) implies self.order@.contains(
                        i,
                    ) by {
                        assert(old(slab).is_live(i) && i != s[0]);
                        let k = choose|k: int| 0 <= k < s.len() && s[k] == i;
                    }
                }
            },
            Some(nxt) => {
                proof {
                    assert(s.len() >= 2);
                    assert(nxt == s[1]);
                }
                slab.set_prev(nxt, None);
                self.start = Some(nxt);
                if let Some(e) = self.end {
                    if e == nxt {
                        self.end = None;
                    }
                }
                proof {
                    let s2 = self.order@;
                    assert forall|p: int, q: int|
                        0 <= p < s2.len() && 0 <= q < s2.len() && p != q
                            implies s2[p] != s2[q] by {
                        assert(s[p + 1] != s[q + 1]);
                    }
                    assert forall|i: usize| #[trigger] slab.is_live(i) implies s2.contains(i) by {
                        assert(old(slab).is_live(i) && i != s[0]);
                        let k = choose|k: int| 0 <= k < s.len() && s[k] == i;
                        assert(k >= 1);
                        assert(s2[k - 1] == i);
                    }
                    assert forall|k: int| 0 <= k < s2.len()
                        implies slab.node_prev(#[trigger] s2[k]) == (if k == 0 {
                            None::<usize>
                        } else {
                            Some(s2[k - 1])
                        }) by {
                        if k > 0 {
                            assert(s2[k] == s[k + 1]);
                            assert(s2[k] != s[0] && s2[k] != s[1]);
                            assert(slab.node_at(s2[k]) == old(slab).node_at(s2[k]));
                        }
                    }
                    assert forall|k: int| 0 <= k < s2.len()
                        implies slab.node_next(#[trigger] s2[k]) == (if k == s2.len() - 1 {
                            None::<usize>
                        } else {
                            Some(s2[k + 1])
                        }) by {
                        if k > 0 {
                            assert(s2[k] == s[k + 1]);
                            assert(s2[k] != s[0] && s2[k] != s[1]);
                            assert(slab.node_at(s2[k]) == old(slab).node_at(s2[k]));
                        } else {
                            assert(old(slab).node_next(s2[0]) == slab.node_next(s2[0]));
                        }
                    }
                }
            },
        }
        Some(node.value)
    }

    /// Remove and return the value at the tail, if any.
    #[verifier::rlimit(60)]
    pub fn pop_last<T>(&mut self, slab: &mut NodeSlab<T>) -> (r: Option<T>)
        requires
            old(self).wf(*old(slab)),
        ensures
            final(self).wf(*final(slab)),
            old(self)@.len() == 0 ==> r is None && *final(self) == *old(self) && *final(slab)
                == *old(slab),
            old(self)@.len() > 0 ==> {
                &&& r == Some(old(slab).node_value(old(self)@.last()))
                &&& final(self)@ == old(self)@.drop_last()
                &&& !final(slab).is_live(old(self)@.last())
                &&& forall|i: usize|
                    #[trigger] old(slab).is_live(i) && i != old(self)@.last()
                        ==> final(slab).is_live(i) && final(slab).node_value(i) == old(
                        slab).node_value(i)
                &&& forall|i: usize| #[trigger] final(slab).is_live(i) ==> old(slab).is_live(i)
            },
    {
        let ghost s = old(self).order@;
        match self.end {
            Some(index) => {
                proof {
                    assert(s.len() >= 2);
                    assert(index == s[s.len() - 1]);
                }
                let node = slab.remove(index);
                self.order = Ghost(s.drop_last());
                match node.prev {
                    Some(p) => {
                        proof {
                            assert(p == s[s.len() - 2]);
                        }
                        slab.set_next(p, None);
                        let one_left = match self.start {
                            Some(s0) => s0 == p,
                            None => false,
                        };
                        self.end = if one_left {
                            None
                        } else {
                            Some(p)
                        };
                        proof {
                            let s2 = self.order@;
                            assert forall|pp: int, q: int|
                                0 <= pp < s2.len() && 0 <= q < s2.len() && pp != q
                                    implies s2[pp] != s2[q] by {
                                assert(s[pp] != s[q]);
                            }
                            assert forall|i: usize| #[trigger] slab.is_live(i)
                                implies s2.contains(i) by {
                                assert(old(slab).is_live(i) && i != s.last());
                                let k = choose|k: int| 0 <= k < s.len() && s[k] == i;
                                assert(k < s.len() - 1);
                                assert(s2[k] == i);
                            }
                            assert forall|k: int| 0 <= k < s2.len()
                                implies slab.node_prev(#[trigger] s2[k]) == (if k == 0 {
                                    None::<usize>
                                } else {
                                    Some(s2[k - 1])
                                }) by {
                                assert(s2[k] == s[k]);
                                if s2[k] != p {
                                    assert(slab.node_at(s2[k]) == old(slab).node_at(s2[k]));
                                }
                            }
                            assert forall|k: int| 0 <= k < s2.len()
                                implies slab.node_next(#[trigger] s2[k]) == (if k == s2.len() - 1 {
                                    None::<usize>
                                } else {
                                    Some(s2[k + 1])
                                }) by {
                                assert(s2[k] == s[k]);
                                if s2[k] != p {
                                    assert(slab.node_at(s2[k]) == old(slab).node_at(s2[k]));
                                }
                            }
                        }
                        Some(node.value)
                    },
                    None => {
                        proof {
                            assert(false);
                        }
                        None
                    },
                }
            },
            None => {
                match self.start {
                    Some(s0) => {
                        proof {
                            assert(s.len() == 1);
                            assert(s0 == s[0]);
                        }
                        let node = slab.remove(s0);
                        self.start = None;
                        self.order = Ghost(s.drop_last());
                        proof {
                            assert forall|i: usize| #[trigger] slab.is_live(i)
                                implies self.order@.contains(i) by {
                                assert(old(slab).is_live(i) && i != s[0]);
                                let k = choose|k: int| 0 <= k < s.len() && s[k] == i;
                            }
                        }
                        Some(node.value)
                    },
                    None => None,
                }
            },
        }
    }
}

impl LinkedList {
    /// Unlink the node at `index` and return its value; empty when the slot
    /// is currently free, so a stale index (and a double remove) is harmless.
    #[verifier::rlimit(100)]
    pub fn remove<T>(&mut self, slab: &mut NodeSlab<T>, index: usize) -> (r: Option<T>)
        requires
            old(self).wf(*old(slab)),
        ensures
            final(self).wf(*final(slab)),
            !old(slab).is_live(index) ==> r is None && *final(self) == *old(self) && *final(slab)
                == *old(slab),
            old(slab).is_live(index) ==> {
                &&& r == Some(old(slab).node_value(index))
                &&& final(self)@ == old(self)@.remove(old(self)@.index_of(index))
                &&& !final(slab).is_live(index)
                &&& forall|i: usize|
                    #[trigger] old(slab).is_live(i) && i != index ==> final(slab).is_live(i)
                        && final(slab).node_value(i) == old(slab).node_value(i)
                &&& forall|i: usize| #[trigger] final(slab).is_live(i) ==> old(slab).is_live(i)
            },
    {
        if !slab.contains(index) {
            return None;
        }
        let ghost s = old(self).order@;
        let ghost k = s.index_of(index);
        proof {
            assert(s.contains(index));
            assert(0 <= k < s.len() && s[k] == index);
        }
        let node = slab.remove(index);
        self.order = Ghost(s.remove(k));
        match node.prev {
            Some(p) => {
                proof {
                    assert(k > 0 && p == s[k - 1]);
                }
                slab.set_next(p, node.next);
            },
            None => {
                proof {
                    assert(k == 0);
                }
                self.start = node.next;
            },
        }
        match node.next {
            Some(n) => {
                proof {
                    assert(k < s.len() - 1 && n == s[k + 1]);
                }
                slab.set_prev(n, node.prev);
            },
            None => {
                proof {
                    assert(k == s.len() - 1);
                }
                self.end = node.prev;
            },
        }
        match (self.start, self.end) {
            (Some(a), Some(b)) => {
                if a == b {
                    self.end = None;
                }
            },
            _ => {},
        }
        proof {
            let s2 = self.order@;
            assert(s2.len() == s.len() - 1);
            assert forall|j: int| 0 <= j < s2.len() implies #[trigger] s2[j] == (if j < k {
                s[j]
            } else {
                s[j + 1]
            }) by {}
            assert forall|p: int, q: int|
                0 <= p < s2.len() && 0 <= q < s2.len() && p != q implies s2[p] != s2[q] by {}
            assert forall|i: usize| #[trigger] slab.is_live(i) implies s2.contains(i) by {
                assert(old(slab).is_live(i) && i != index);
                let j = choose|j: int| 0 <= j < s.len() && s[j] == i;
                if j < k {
                    assert(s2[j] == i);
                } else {
                    assert(j != k);
                    assert(s2[j - 1] == i);
                }
            }
            assert forall|j: int| 0 <= j < s2.len()
                implies slab.node_prev(#[trigger] s2[j]) == (if j == 0 {
                    None::<usize>
                } else {
                    Some(s2[j - 1])
                }) && slab.node_next(s2[j]) == (if j == s2.len() - 1 {
                    None::<usize>
                } else {
                    Some(s2[j + 1])
                }) by {
                let x = s2[j];
                assert(x != index);
                if k > 0 && x == s[k - 1] {
                    assert(j == k - 1);
                } else if k < s.len() - 1 && x == s[k + 1] {
                    assert(j == k);
                } else {
                    assert(slab.node_at(x) == old(slab).node_at(x));
                }
            }
        }
        Some(node.value)
    }

    /// Relocate the node at `index` to the tail, marking it most recently
    /// used, and hand out its value; empty when the slot is currently free.
    #[verifier::rlimit(100)]
    pub fn touch<'a, T>(&mut self, slab: &'a mut NodeSlab<T>, index: usize) -> (r: Option<
        &'a mut T,
    >)
        requires
            old(self).wf(*old(slab)),
        ensures
            final(self).wf(*final(slab)),
            !old(slab).is_live(index) ==> r is None && *final(self) == *old(self) && *final(slab)
                == *old(slab),
            old(slab).is_live(index) ==> {
                &&& r is Some
                &&& *r.unwrap() == old(slab).node_value(index)
                &&& final(self)@ == old(self)@.remove(old(self)@.index_of(index)).push(index)
                &&& final(slab).is_live(index)
                &&& final(slab).node_value(index) == *final(r.unwrap())
                &&& forall|i: usize|
                    #[trigger] old(slab).is_live(i) && i != index ==> final(slab).is_live(i)
                        && final(slab).node_value(i) == old(slab).node_value(i)
                &&& forall|i: usize| #[trigger] final(slab).is_live(i) ==> old(slab).is_live(i)
            },
    {
        if !slab.contains(index) {
            return None;
        }
        let ghost s = old(self).order@;
        let ghost k = s.index_of(index);
        proof {
            assert(s.contains(index));
            assert(0 <= k < s.len() && s[k] == index);
        }
        match slab.next_of(index) {
            None => {
                // Fast path: the node is already the tail.
                proof {
                    assert(k == s.len() - 1);
                    assert(s.remove(k).push(index) =~= s);
                    assert forall|b: NodeSlab<T>|
                        b.wf() && #[trigger] same_structure(*slab, b) implies self.wf(b) by {
                        lemma_same_structure_preserves_wf(*self, *slab, b);
                    }
                }
                slab.get_mut(index)
            },
            Some(nxt) => {
                proof {
                    assert(k < s.len() - 1 && nxt == s[k + 1]);
                }
                let node_prev = slab.prev_of(index);
                slab.set_prev(nxt, node_prev);
                match node_prev {
                    Some(p) => {
                        proof {
                            assert(k > 0 && p == s[k - 1]);
                        }
                        slab.set_next(p, Some(nxt));
                    },
                    None => {
                        proof {
                            assert(k == 0);
                        }
                        self.start = Some(nxt);
                    },
                }
                let e = match self.end {
                    Some(e) => e,
                    None => {
                        proof {
                            assert(false);
                        }
                        nxt
                    },
                };
                proof {
                    assert(e == s[s.len() - 1]);
                    assert(e != index && e != s[k] && k != s.len() - 1);
                }
                self.end = Some(index);
                slab.set_next(e, Some(index));
                slab.set_prev(index, Some(e));
                slab.set_next(index, None);
                self.order = Ghost(s.remove(k).push(index));
                proof {
                    let s2 = self.order@;
                    assert(s2.len() == s.len());
                    assert(s2[s2.len() - 1] == index);
                    assert forall|j: int| 0 <= j < s2.len() - 1
                        implies #[trigger] s2[j] == (if j < k {
                            s[j]
                        } else {
                            s[j + 1]
                        }) by {}
                    assert forall|p2: int, q: int|
                        0 <= p2 < s2.len() && 0 <= q < s2.len() && p2 != q
                            implies s2[p2] != s2[q] by {}
                    assert forall|i: usize| #[trigger] slab.is_live(i) implies s2.contains(i) by {
                        assert(old(slab).is_live(i));
                        if i == index {
                            assert(s2[s2.len() - 1] == i);
                        } else {
                            let j = choose|j: int| 0 <= j < s.len() && s[j] == i;
                            if j < k {
                                assert(s2[j] == i);
                            } else {
                                assert(s2[j - 1] == i);
                            }
                        }
                    }
                    assert forall|j: int| 0 <= j < s2.len()
                        implies slab.node_prev(#[trigger] s2[j]) == (if j == 0 {
                            None::<usize>
                        } else {
                            Some(s2[j - 1])
                        }) && slab.node_next(s2[j]) == (if j == s2.len() - 1 {
                            None::<usize>
                        } else {
                            Some(s2[j + 1])
                        }) by {
                        let x = s2[j];
                        if x == index {
                            assert(j == s2.len() - 1);
                        } else if x == nxt {
                            assert(j == k);
                        } else if k > 0 && x == s[k - 1] {
                            assert(j == k - 1);
                        } else if x == e {
                            assert(j == s2.len() - 2);
                        } else {
                            assert(slab.node_at(x) == old(slab).node_at(x));
                        }
                    }
                    assert(self.wf(*slab));
                    assert forall|b: NodeSlab<T>|
                        b.wf() && #[trigger] same_structure(*slab, b) implies self.wf(b) by {
                        lemma_same_structure_preserves_wf(*self, *slab, b);
                    }
                }
                slab.get_mut(index)
            },
        }
    }
}

impl LinkedList {
    /// The slot index the forward traversal starts from.
    pub closed spec fn head(self) -> Option<usize> {
        self.start
    }

    /// The slot index the backward traversal starts from: `end` when it is
    /// set, else `start` (a list of at most one node leaves `end` unset).
    pub closed spec fn tail(self) -> Option<usize> {
        if self.end is Some {
            self.end
        } else {
            self.start
        }
    }

    /// In a well-formed list the endpoints are the first and the last entry
    /// of the order.
    pub proof fn lemma_endpoints<T>(self, slab: NodeSlab<T>)
        requires
            self.wf(slab),
        ensures
            self.head() == (if self@.len() == 0 {
                None::<usize>
            } else {
                Some(self@[0])
            }),
            self.tail() == (if self@.len() == 0 {
                None::<usize>
            } else {
                Some(self@[self@.len() - 1])
            }),
    {
    }
}

/// The chain of slot indices reached from `cur` by following `next` links,
/// cut off after `fuel` steps.
pub open spec fn forward_chain<T>(slab: NodeSlab<T>, cur: Option<usize>, fuel: nat) -> Seq<usize>
    decreases fuel,
{
    match cur {
        None => Seq::empty(),
        Some(i) => if fuel == 0 {
            Seq::empty()
        } else {
            seq![i] + forward_chain(slab, slab.node_next(i), (fuel - 1) as nat)
        },
    }
}

/// The chain of slot indices reached from `cur` by following `prev` links,
/// cut off after `fuel` steps.
pub open spec fn backward_chain<T>(slab: NodeSlab<T>, cur: Option<usize>, fuel: nat) -> Seq<usize>
    decreases fuel,
{
    match cur {
        None => Seq::empty(),
        Some(i) => if fuel == 0 {
            Seq::empty()
        } else {
            seq![i] + backward_chain(slab, slab.node_prev(i), (fuel - 1) as nat)
        },
    }
}

proof fn lemma_forward_chain_from<T>(list: LinkedList, slab: NodeSlab<T>, k: int)
    requires
        list.wf(slab),
        0 <= k <= list@.len(),
    ensures
        forward_chain(
            slab,
            if k == list@.len() {
                None::<usize>
            } else {
                Some(list@[k])
            },
            (list@.len() - k) as nat,
        ) == list@.subrange(k, list@.len() as int),
    decreases list@.len() - k,
{
    let s = list@;
    if k == s.len() {
        assert(s.subrange(k, s.len() as int) =~= Seq::<usize>::empty());
    } else {
        lemma_forward_chain_from(list, slab, k + 1);
        assert(slab.node_next(s[k]) == (if k == s.len() - 1 {
            None::<usize>
        } else {
            Some(s[k + 1])
        }));
        assert(seq![s[k]] + s.subrange(k + 1, s.len() as int) =~= s.subrange(k, s.len() as int));
    }
}

proof fn lemma_backward_chain_from<T>(list: LinkedList, slab: NodeSlab<T>, k: int)
    requires
        list.wf(slab),
        -1 <= k < list@.len(),
    ensures
        backward_chain(
            slab,
            if k < 0 {
                None::<usize>
            } else {
                Some(list@[k])
            },
            (k + 1) as nat,
        ) == list@.subrange(0, k + 1).reverse(),
    decreases k + 1,
{
    let s = list@;
    if k < 0 {
        assert(s.subrange(0, 0).reverse() =~= Seq::<usize>::empty());
    } else {
        lemma_backward_chain_from(list, slab, k - 1);
        assert(slab.node_prev(s[k]) == (if k == 0 {
            None::<usize>
        } else {
            Some(s[k - 1])
        }));
        assert(seq![s[k]] + s.subrange(0, k).reverse() =~= s.subrange(0, k + 1).reverse());
    }
}

/// Traversal agreement: walking forward from the head visits the order, and
/// walking backward from the tail visits exactly its reverse, so the two
/// traversals yield the same sequence.
pub proof fn lemma_forward_backward_agree<T>(list: LinkedList, slab: NodeSlab<T>)
    requires
        list.wf(slab),
    ensures
        forward_chain(slab, list.head(), list@.len()) == list@,
        backward_chain(slab, list.tail(), list@.len()) == list@.reverse(),
        forward_chain(slab, list.head(), list@.len()) == backward_chain(
            slab,
            list.tail(),
            list@.len(),
        ).reverse(),
{
    let s = list@;
    lemma_forward_chain_from(list, slab, 0);
    assert(s.subrange(0, s.len() as int) =~= s);
    lemma_backward_chain_from(list, slab, s.len() - 1);
    assert(s.subrange(0, s.len() as int).reverse() =~= s.reverse());
    list.lemma_endpoints(slab);
    assert(s.reverse().reverse() =~= s);
}

/// Link symmetry: among the live nodes of a well-formed list, node `b`
/// follows node `a` exactly when node `a` precedes node `b`.
pub proof fn lemma_link_symmetry<T>(list: LinkedList, slab: NodeSlab<T>)
    requires
        list.wf(slab),
    ensures
        forall|a: usize, b: usize|
            #![trigger slab.node_next(a), slab.node_prev(b)]
            slab.is_live(a) && slab.is_live(b) ==> (slab.node_next(a) == Some(b)
                <==> slab.node_prev(b) == Some(a)),
{
    let s = list@;
    assert forall|a: usize, b: usize|
        #![trigger slab.node_next(a), slab.node_prev(b)]
        slab.is_live(a) && slab.is_live(b) implies (slab.node_next(a) == Some(b)
        <==> slab.node_prev(b) == Some(a)) by {
        assert(s.contains(a) && s.contains(b));
        let j = choose|j: int| 0 <= j < s.len() && s[j] == a;
        let l = choose|l: int| 0 <= l < s.len() && s[l] == b;
        if slab.node_next(a) == Some(b) {
            assert(j < s.len() - 1 && s[j + 1] == b);
            assert(l == j + 1);
        }
        if slab.node_prev(b) == Some(a) {
            assert(l > 0 && s[l - 1] == a);
            assert(j == l - 1);
        }
    }
}

/// Touching the sole element of a one-element list is a no-op on the order,
/// and so also on both endpoints.
pub proof fn lemma_touch_sole_element<T, U>(
    pre: LinkedList,
    pre_slab: NodeSlab<T>,
    post: LinkedList,
    post_slab: NodeSlab<U>,
    index: usize,
)
    requires
        pre.wf(pre_slab),
        post.wf(post_slab),
        pre@.len() == 1,
        pre_slab.is_live(index),
        post@ == pre@.remove(pre@.index_of(index)).push(index),
    ensures
        post@ == pre@,
        post.head() == pre.head(),
        post.tail() == pre.tail(),
{
    let s = pre@;
    assert(s.contains(index));
    let k = s.index_of(index);
    assert(0 <= k < s.len() && s[k] == index);
    assert(post@ =~= s);
    pre.lemma_endpoints(pre_slab);
    post.lemma_endpoints(post_slab);
}

/// The basic shape facts a well-formed list guarantees: the order has no
/// duplicate slots, every slot in it is live, and every live slot is in it.
pub proof fn lemma_wf_order_facts<T>(list: LinkedList, slab: NodeSlab<T>)
    requires
        list.wf(slab),
    ensures
        slab.wf(),
        list@.no_duplicates(),
        forall|k: int| 0 <= k < list@.len() ==> slab.is_live(#[trigger] list@[k]),
        forall|i: usize| #[trigger] slab.is_live(i) ==> list@.contains(i),
{
}

/// In a well-formed list every in-order slot is live, so a slot the arena
/// reports as fresh cannot already stand in the order.
proof fn lemma_fresh_not_in_order<T>(list: LinkedList, slab: NodeSlab<T>, index: usize)
    requires
        list.wf(slab),
        !slab.is_live(index),
    ensures
        !list@.contains(index),
{
    if list@.contains(index) {
        let k = choose|k: int| 0 <= k < list@.len() && list@[k] == index;
        assert(slab.is_live(list@[k]));
    }
}

} // verus!
