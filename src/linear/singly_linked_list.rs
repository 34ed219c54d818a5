use vstd::prelude::*;

use super::node_store::{lemma_distinct_slots_fit, NodeStore};
use crate::render::{deref_all, index_error, listed, render_list};
use std::fmt::Display;
use vstd::std_specs::cmp::PartialEqSpec;

verus! {

/// A node of a singly linked list: a value and the slot of the next node.
pub struct Node<T> {
    pub value: T,
    pub next: Option<usize>,
}

impl<T> Node<T> {
    /// A node holding `value` with no successor.
    pub fn new(value: T) -> (r: Node<T>)
        ensures
            r.value == value,
            r.next is None,
    {
        Node { value, next: None }
    }
}

/// A singly linked list with a cached link to its last node, so that both
/// ends can be extended in constant time.
///
/// Nodes live in a `NodeStore`; `head` owns the chain, `tail` is only a
/// shortcut to the last node. `order` lists the slots from head to tail.
pub struct SinglyLinkedList<T> {
    head: Option<usize>,
    tail: Option<usize>,
    length: usize,
    nodes: NodeStore<Node<T>>,
    order: Ghost<Seq<usize>>,
}

impl<T> View for SinglyLinkedList<T> {
    type V = Seq<T>;

    /// The values from head to tail.
    closed spec fn view(&self) -> Seq<T> {
        Seq::new(self.length as nat, |i: int| self.node_at(i).value)
    }
}

impl<T> SinglyLinkedList<T> {
    /// The node at position `i`.
    closed spec fn node_at(&self, i: int) -> Node<T> {
        self.nodes@[self.order@[i] as int]->Some_0
    }

    /// The slot that follows position `i`: the next position's, or none
    /// after the last.
    closed spec fn link_after(&self, i: int) -> Option<usize> {
        if i + 1 < self.length {
            Some(self.order@[i + 1])
        } else {
            None
        }
    }

    /// The internal invariant: following `next` from `head` visits the
    /// distinct slots of `order`, the last of which is `tail`.
    pub closed spec fn wf(&self) -> bool {
        &&& self.nodes.wf()
        &&& self.nodes.live_count() == self.length
        &&& self.order@.len() == self.length
        &&& self.order@.no_duplicates()
        &&& forall|i: int|
            0 <= i < self.length ==> {
                &&& self.order@[i] < self.nodes@.len()
                &&& #[trigger] self.nodes@[self.order@[i] as int] is Some
                &&& self.node_at(i).next == self.link_after(i)
            }
        &&& self.head == if self.length == 0 {
            None
        } else {
            Some(self.order@[0])
        }
        &&& self.tail == if self.length == 0 {
            None
        } else {
            Some(self.order@[self.length - 1])
        }
    }

    /// Number of nodes held in the node store.
    pub closed spec fn held_nodes(&self) -> nat {
        self.nodes.occupied().len()
    }

    /// The store holds no node besides those on the list: as many nodes as
    /// the list has values.
    pub proof fn lemma_no_stray_nodes(list: &Self)
        requires
            list.wf(),
        ensures
            list.held_nodes() == list@.len(),
    {
        list.nodes.lemma_live_count();
    }

    /// An empty list.
    pub fn new() -> (r: SinglyLinkedList<T>)
        ensures
            r.wf(),
            r@ == Seq::<T>::empty(),
    {
        let r = SinglyLinkedList {
            head: None,
            tail: None,
            length: 0,
            nodes: NodeStore::new(),
            order: Ghost(Seq::empty()),
        };
        assert(r@ =~= Seq::<T>::empty());
        r
    }

    /// Slot of the node at position `index`, found by walking from the head.
    fn slot_of(&self, index: usize) -> (k: usize)
        requires
            self.wf(),
            index < self@.len(),
        ensures
            k == self.order@[index as int],
    {
        let mut k = self.head.unwrap();
        let mut i: usize = 0;
        while i < index
            invariant
                self.wf(),
                index < self.length,
                i <= index,
                k == self.order@[i as int],
            decreases index - i,
        {
            assert(self.nodes@[self.order@[i as int] as int] is Some);
            k = self.nodes.get(k).next.unwrap();
            i = i + 1;
        }
        k
    }

    /// A slot that the store had empty (or did not have yet) is not on the
    /// list.
    proof fn lemma_fresh_slot(&self, k: usize)
        requires
            self.wf(),
            k >= self.nodes@.len() || self.nodes@[k as int] is None,
        ensures
            forall|i: int| 0 <= i < self.length ==> #[trigger] self.order@[i] != k,
    {
        assert forall|i: int| 0 <= i < self.length implies #[trigger] self.order@[i] != k by {
            assert(self.nodes@[self.order@[i] as int] is Some);
        }
    }

    /// `b` is `a` with at most the value at position `index` changed.
    pub closed spec fn value_replaced(self, b: Self, index: int) -> bool {
        &&& 0 <= index < self.length
        &&& b.nodes.wf()
        &&& b.nodes.live_count() == self.nodes.live_count()
        &&& b.length == self.length
        &&& b.order == self.order
        &&& b.head == self.head
        &&& b.tail == self.tail
        &&& b.nodes@.len() == self.nodes@.len()
        &&& b.nodes@[self.order@[index] as int] is Some
        &&& b.nodes@[self.order@[index] as int]->Some_0.next == self.node_at(index).next
        &&& forall|i: int|
            0 <= i < self.length && i != index ==> #[trigger] b.nodes@[self.order@[i] as int]
                == self.nodes@[self.order@[i] as int]
    }

    /// Changing one value keeps the list well formed.
    pub broadcast proof fn lemma_value_replaced(a: Self, b: Self, index: int)
        requires
            a.wf(),
            #[trigger] a.value_replaced(b, index),
        ensures
            b.wf(),
    {
        assert forall|i: int| 0 <= i < b.length implies {
            &&& b.order@[i] < b.nodes@.len()
            &&& #[trigger] b.nodes@[b.order@[i] as int] is Some
            &&& b.node_at(i).next == b.link_after(i)
        } by {
            assert(a.nodes@[a.order@[i] as int] is Some);
            if i != index {
                assert(b.nodes@[a.order@[i] as int] == a.nodes@[a.order@[i] as int]);
            }
        }
    }

    /// After a fresh slot `k` is added, the list plus that slot still fits
    /// in the store, so one more node can be counted.
    proof fn lemma_room_for_one(&self, store: &NodeStore<Node<T>>, k: usize)
        requires
            self.wf(),
            forall|i: int| 0 <= i < self.length ==> #[trigger] self.order@[i] != k,
            k < store@.len(),
            store@.len() >= self.nodes@.len(),
        ensures
            self.length < usize::MAX,
    {
        let more = self.order@.push(k);
        assert forall|i: int| 0 <= i < more.len() implies #[trigger] more[i] < store@.len() by {
            if i < self.length {
                assert(self.nodes@[self.order@[i] as int] is Some);
            }
        }
        assert(more.no_duplicates()) by {
            assert forall|a: int, b: int| 0 <= a < b < more.len() implies more[a] != more[b] by {
                if b < self.length {
                    assert(self.order@[a] != self.order@[b]);
                }
            }
        }
        lemma_distinct_slots_fit(more, store@.len());
        store.lemma_len_fits();
    }

    /// Appends `item` after the tail.
    pub fn push_back(&mut self, item: T)
        requires
            old(self).wf(),
        ensures
            final(self).wf(),
            final(self)@ == old(self)@.push(item),
    {
        let ghost before = self@;
        let ghost n0 = self.nodes@;
        let k = self.nodes.insert(Node::new(item));
        proof {
            old(self).lemma_fresh_slot(k);
            old(self).lemma_room_for_one(&self.nodes, k);
        }
        let ghost n1 = self.nodes@;
        assert forall|i: int| 0 <= i < self.length implies #[trigger] n1[self.order@[i] as int]
            == n0[self.order@[i] as int] by {
            assert(n0[self.order@[i] as int] is Some);
        }
        match self.tail {
            Some(t) => {
                assert(n1[self.order@[self.length - 1] as int] is Some);
                self.nodes.get_mut(t).next = Some(k);
            },
            None => {
                self.head = Some(k);
            },
        }
        let ghost n2 = self.nodes@;
        let ghost o0 = self.order@;
        let ghost len0 = self.length as int;
        self.tail = Some(k);
        self.order = Ghost(self.order@.push(k));
        self.length = self.length + 1;
        assert forall|i: int| 0 <= i < self.length implies {
            &&& self.order@[i] < self.nodes@.len()
            &&& #[trigger] self.nodes@[self.order@[i] as int] is Some
            &&& self.node_at(i).next == self.link_after(i)
            &&& i < len0 ==> self.node_at(i).value == before[i]
        } by {
            if i < len0 {
                assert(self.order@[i] == o0[i]);
                assert(n0[o0[i] as int] is Some);
                assert(old(self).node_at(i).next == old(self).link_after(i));
                if i + 1 < len0 {
                    assert(o0[i] != o0[len0 - 1]);
                }
            }
        }
        assert(self.order@.no_duplicates());
        assert(self@ =~= before.push(item));
    }

    /// Prepends `item` before the head.
    pub fn push_front(&mut self, item: T)
        requires
            old(self).wf(),
        ensures
            final(self).wf(),
            final(self)@ == seq![item] + old(self)@,
    {
        let ghost before = self@;
        let ghost n0 = self.nodes@;
        let k = self.nodes.insert(Node { value: item, next: self.head });
        proof {
            old(self).lemma_fresh_slot(k);
            old(self).lemma_room_for_one(&self.nodes, k);
        }
        let ghost o0 = self.order@;
        if self.tail.is_none() {
            self.tail = Some(k);
        }
        self.head = Some(k);
        self.order = Ghost(seq![k] + self.order@);
        self.length = self.length + 1;
        assert forall|i: int| 0 <= i < self.length implies {
            &&& self.order@[i] < self.nodes@.len()
            &&& #[trigger] self.nodes@[self.order@[i] as int] is Some
            &&& self.node_at(i).next == self.link_after(i)
            &&& i > 0 ==> self.node_at(i).value == before[i - 1]
        } by {
            if i > 0 {
                assert(self.order@[i] == o0[i - 1]);
                assert(n0[o0[i - 1] as int] is Some);
                assert(old(self).node_at(i - 1).next == old(self).link_after(i - 1));
            }
        }
        assert(self.order@.no_duplicates()) by {
            assert forall|x: int, y: int|
                0 <= x < y < self.length implies self.order@[x] != self.order@[y] by {
                if x > 0 {
                    assert(self.order@[x] == o0[x - 1]);
                }
                assert(self.order@[y] == o0[y - 1]);
            }
        }
        assert(self@ =~= seq![item] + before);
    }

    /// Removes and returns the head value; `None` when empty.
    pub fn pop_front(&mut self) -> (r: Option<T>)
        requires
            old(self).wf(),
        ensures
            final(self).wf(),
            old(self)@.len() == 0 ==> r is None && final(self)@ == old(self)@,
            old(self)@.len() > 0 ==> r == Some(old(self)@[0]) && final(self)@ == old(self)@.drop_first(),
    {
        if self.length > 0 {
            let ghost before = self@;
            let ghost n0 = self.nodes@;
            let ghost o0 = self.order@;
            let k = self.head.unwrap();
            assert(self.nodes@[self.order@[0] as int] is Some);
            assert(old(self).node_at(0).next == old(self).link_after(0));
            let node = self.nodes.remove(k);
            self.head = node.next;
            self.length = self.length - 1;
            if self.length == 0 {
                self.tail = None;
            }
            self.order = Ghost(self.order@.drop_first());
            assert forall|i: int| 0 <= i < self.length implies {
                &&& self.order@[i] < self.nodes@.len()
                &&& #[trigger] self.nodes@[self.order@[i] as int] is Some
                &&& self.node_at(i).next == self.link_after(i)
                &&& self.node_at(i).value == before[i + 1]
            } by {
                assert(self.order@[i] == o0[i + 1]);
                assert(n0[o0[i + 1] as int] is Some);
                assert(o0[i + 1] != o0[0]);
                assert(old(self).node_at(i + 1).next == old(self).link_after(i + 1));
            }
            assert(self.order@.no_duplicates()) by {
                assert forall|x: int, y: int|
                    0 <= x < y < self.length implies self.order@[x] != self.order@[y] by {
                    assert(self.order@[x] == o0[x + 1]);
                    assert(self.order@[y] == o0[y + 1]);
                }
            }
            assert(self@ =~= before.drop_first());
            return Some(node.value);
        }
        None
    }

    /// Removes and returns the tail value; `None` when empty. The node
    /// before the tail is found by walking from the head.
    pub fn pop_back(&mut self) -> (r: Option<T>)
        requires
            old(self).wf(),
        ensures
            final(self).wf(),
            old(self)@.len() == 0 ==> r is None && final(self)@ == old(self)@,
            old(self)@.len() > 0 ==> r == Some(old(self)@.last()) && final(self)@ == old(self)@.drop_last(),
    {
        if self.length == 0 {
            return None;
        }
        if self.length == 1 {
            let r = self.pop_front();
            assert(old(self)@.drop_first() =~= old(self)@.drop_last());
            return r;
        }
        let ghost before = self@;
        let last = self.length - 1;
        let p = self.slot_of(last - 1);
        let t = self.tail.unwrap();
        assert(self.nodes@[self.order@[last as int] as int] is Some);
        assert(self.nodes@[self.order@[last - 1] as int] is Some);
        let ghost n0 = self.nodes@;
        self.nodes.get_mut(p).next = None;
        let node = self.nodes.remove(t);
        let ghost pn = Node { value: n0[p as int]->Some_0.value, next: None };
        assert(self.nodes@ == n0.update(p as int, Some(pn)).update(t as int, None));
        self.tail = Some(p);
        self.length = last;
        self.order = Ghost(self.order@.drop_last());
        assert forall|i: int| 0 <= i < self.length implies {
            &&& self.order@[i] < self.nodes@.len()
            &&& #[trigger] self.nodes@[self.order@[i] as int] is Some
            &&& self.node_at(i).next == self.link_after(i)
            &&& self.node_at(i).value == before[i]
        } by {
            assert(self.order@[i] == old(self).order@[i]);
            assert(n0[old(self).order@[i] as int] is Some);
            assert(old(self).order@[i] != old(self).order@[last as int]);
            if i + 1 < self.length {
                assert(old(self).order@[i] != old(self).order@[last - 1]);
                assert(self.order@[i + 1] == old(self).order@[i + 1]);
            }
        }
        assert(self.order@.no_duplicates()) by {
            assert forall|a: int, b: int|
                0 <= a < b < self.length implies self.order@[a] != self.order@[b] by {
                assert(self.order@[a] == old(self).order@[a]);
                assert(self.order@[b] == old(self).order@[b]);
            }
        }
        assert(self@ =~= before.drop_last());
        Some(node.value)
    }

    /// A clone of the value at position `index`; `None` when out of range.
    pub fn get(&self, index: usize) -> (r: Option<T>) where T: Clone
        requires
            self.wf(),
        ensures
            r is None <==> index >= self@.len(),
            r matches Some(v) ==> cloned(self@[index as int], v),
    {
        if index < self.length {
            let k = self.slot_of(index);
            assert(self.nodes@[self.order@[index as int] as int] is Some);
            return Some(self.nodes.get(k).value.clone());
        }
        None
    }

    /// The value at position `index`; `None` when out of range.
    pub fn get_ref(&self, index: usize) -> (r: Option<&T>)
        requires
            self.wf(),
        ensures
            r is None <==> index >= self@.len(),
            r matches Some(x) ==> *x == self@[index as int],
    {
        if index < self.length {
            let k = self.slot_of(index);
            assert(self.nodes@[self.order@[index as int] as int] is Some);
            return Some(&self.nodes.get(k).value);
        }
        None
    }

    /// Exclusive access to the value at position `index`.
    fn value_mut(&mut self, index: usize) -> (r: &mut T)
        requires
            old(self).wf(),
            index < old(self)@.len(),
        ensures
            *r == old(self)@[index as int],
            old(self).value_replaced(*final(self), index as int),
            final(self)@ =~= old(self)@.update(index as int, *final(r)),
    {
        let k = self.slot_of(index);
        assert(self.nodes@[self.order@[index as int] as int] is Some);
        assert(self.node_at(index as int).next == self.link_after(index as int));
        &mut self.nodes.get_mut(k).value
    }

    /// Exclusive access to the value at position `index`; `None` when out
    /// of range.
    pub fn get_mut(&mut self, index: usize) -> (r: Option<&mut T>)
        requires
            old(self).wf(),
        ensures
            r is None <==> index >= old(self)@.len(),
            r is None ==> *final(self) == *old(self),
            r matches Some(x) ==> {
                &&& *x == old(self)@[index as int]
                &&& final(self).wf()
                &&& final(self)@ =~= old(self)@.update(index as int, *final(x))
            },
    {
        broadcast use SinglyLinkedList::lemma_value_replaced;

        if index < self.length {
            return Some(self.value_mut(index));
        }
        None
    }

    /// Position of the first value equal to `value`; `None` when there is
    /// none.
    pub fn find(&self, value: &T) -> (r: Option<usize>) where T: PartialEq
        requires
            self.wf(),
        ensures
            T::obeys_eq_spec() ==> match r {
                Some(i) => {
                    &&& i < self@.len()
                    &&& self@[i as int].eq_spec(value)
                    &&& forall|j: int| 0 <= j < i ==> !(#[trigger] self@[j]).eq_spec(value)
                },
                None => forall|j: int| 0 <= j < self@.len() ==> !(#[trigger] self@[j]).eq_spec(value),
            },
    {
        let mut slot = self.head;
        let mut i: usize = 0;
        while i < self.length
            invariant
                self.wf(),
                i <= self.length,
                i < self.length ==> slot == Some(self.order@[i as int]),
                T::obeys_eq_spec() ==> forall|j: int| 0 <= j < i ==> !(#[trigger] self@[j]).eq_spec(value),
            decreases self.length - i,
        {
            let k = slot.unwrap();
            assert(self.nodes@[self.order@[i as int] as int] is Some);
            let node = self.nodes.get(k);
            if node.value == *value {
                return Some(i);
            }
            slot = node.next;
            i = i + 1;
        }
        None
    }

    /// Removes and returns the value at position `index`; `None` when out of
    /// range.
    pub fn remove(&mut self, index: usize) -> (r: Option<T>)
        requires
            old(self).wf(),
        ensures
            final(self).wf(),
            index >= old(self)@.len() ==> r is None && final(self)@ == old(self)@,
            index < old(self)@.len() ==> r == Some(old(self)@[index as int]) && final(self)@
                == old(self)@.remove(index as int),
    {
        if index >= self.length {
            return None;
        }
        if index == 0 {
            let r = self.pop_front();
            assert(old(self)@.drop_first() =~= old(self)@.remove(0));
            return r;
        }
        if index == self.length - 1 {
            let r = self.pop_back();
            assert(old(self)@.drop_last() =~= old(self)@.remove(index as int));
            return r;
        }
        self.unlink_interior(index)
    }

    /// Unlinks the node at interior position `index` by linking its
    /// predecessor to its successor, and returns its value.
    fn unlink_interior(&mut self, index: usize) -> (r: Option<T>)
        requires
            old(self).wf(),
            0 < index < old(self)@.len() - 1,
        ensures
            final(self).wf(),
            r == Some(old(self)@[index as int]),
            final(self)@ == old(self)@.remove(index as int),
    {
        let ghost before = self@;
        let p = self.slot_of(index - 1);
        assert(self.nodes@[self.order@[index - 1] as int] is Some);
        assert(self.nodes@[self.order@[index as int] as int] is Some);
        let k = self.nodes.get(p).next.unwrap();
        let ghost n0 = self.nodes@;
        let node = self.nodes.remove(k);
        self.nodes.get_mut(p).next = node.next;
        let ghost pn = Node { value: n0[p as int]->Some_0.value, next: node.next };
        assert(self.nodes@ == n0.update(k as int, None).update(p as int, Some(pn)));
        self.length = self.length - 1;
        self.order = Ghost(self.order@.remove(index as int));
        proof {
            Self::lemma_unlinked(*old(self), *self, index as int);
        }
        Some(node.value)
    }

    /// The list `b` is `a` with the node at interior position `index`
    /// unlinked: its predecessor now links to its successor.
    proof fn lemma_unlinked(a: Self, b: Self, index: int)
        requires
            a.wf(),
            0 < index < a.length - 1,
            b.nodes.wf(),
            b.nodes.live_count() == a.nodes.live_count() - 1,
            b.length == a.length - 1,
            b.order@ == a.order@.remove(index),
            b.head == a.head,
            b.tail == a.tail,
            b.nodes@ == a.nodes@.update(a.order@[index] as int, None).update(
                a.order@[index - 1] as int,
                Some(Node { value: a.node_at(index - 1).value, next: a.node_at(index).next }),
            ),
        ensures
            b.wf(),
            b@ == a@.remove(index),
    {
        let o0 = a.order@;
        let p = o0[index - 1];
        let k = o0[index];
        assert(a.nodes@[o0[index - 1] as int] is Some);
        assert(a.nodes@[o0[index] as int] is Some);
        assert forall|i: int| 0 <= i < b.length implies {
            &&& b.order@[i] < b.nodes@.len()
            &&& #[trigger] b.nodes@[b.order@[i] as int] is Some
            &&& b.node_at(i).next == b.link_after(i)
            &&& b.node_at(i).value == a@.remove(index)[i]
        } by {
            let j = if i < index { i } else { i + 1 };
            assert(b.order@[i] == o0[j]);
            assert(a.nodes@[o0[j] as int] is Some);
            assert(o0[j] != k);
            if i + 1 < b.length {
                let j2 = if i + 1 < index { i + 1 } else { i + 2 };
                assert(b.order@[i + 1] == o0[j2]);
            }
            if i == index - 1 {
                assert(b.order@[i] == p);
                assert(a.node_at(index).next == a.link_after(index));
            } else {
                assert(o0[j] != p);
                assert(a.node_at(j).next == a.link_after(j));
            }
        }
        assert(b.order@.no_duplicates()) by {
            assert forall|x: int, y: int|
                0 <= x < y < b.length implies b.order@[x] != b.order@[y] by {
                let jx = if x < index { x } else { x + 1 };
                let jy = if y < index { y } else { y + 1 };
                assert(b.order@[x] == o0[jx]);
                assert(b.order@[y] == o0[jy]);
            }
        }
        assert(b@ =~= a@.remove(index));
    }

    /// `b` is `a` with a new node holding `v` in slot `k` linked in at
    /// interior position `index`.
    proof fn lemma_spliced(a: Self, b: Self, index: int, k: usize, v: T)
        requires
            a.wf(),
            0 < index < a.length,
            forall|i: int| 0 <= i < a.length ==> #[trigger] a.order@[i] != k,
            k < b.nodes@.len(),
            b.nodes.wf(),
            b.nodes.live_count() == a.nodes.live_count() + 1,
            b.nodes@.len() >= a.nodes@.len(),
            b.length == a.length + 1,
            b.order@ == a.order@.insert(index, k),
            b.head == a.head,
            b.tail == a.tail,
            b.nodes@[k as int] == Some(Node { value: v, next: Some(a.order@[index]) }),
            b.nodes@[a.order@[index - 1] as int] == Some(
                Node { value: a.node_at(index - 1).value, next: Some(k) },
            ),
            forall|i: int|
                0 <= i < a.length && i != index - 1 ==> #[trigger] b.nodes@[a.order@[i] as int]
                    == a.nodes@[a.order@[i] as int],
        ensures
            b.wf(),
            b@ == a@.insert(index, v),
    {
        let o0 = a.order@;
        assert(b.order@[index] == k);
        assert forall|i: int| 0 <= i < b.length implies {
            &&& b.order@[i] < b.nodes@.len()
            &&& #[trigger] b.nodes@[b.order@[i] as int] is Some
            &&& b.node_at(i).next == b.link_after(i)
            &&& b.node_at(i).value == a@.insert(index, v)[i]
        } by {
            if i == index {
                assert(b.order@[i + 1] == o0[index]);
            } else {
                let j = if i < index { i } else { i - 1 };
                assert(b.order@[i] == o0[j]);
                assert(a.nodes@[o0[j] as int] is Some);
                assert(a.node_at(j).next == a.link_after(j));
                if i + 1 < b.length && i + 1 != index {
                    let j2 = if i + 1 < index { i + 1 } else { i };
                    assert(b.order@[i + 1] == o0[j2]);
                }
            }
        }
        assert(b.order@.no_duplicates()) by {
            assert forall|x: int, y: int|
                0 <= x < y < b.length implies b.order@[x] != b.order@[y] by {
                let jx = if x < index { x } else { x - 1 };
                let jy = if y < index { y } else { y - 1 };
                if x != index && y != index {
                    assert(b.order@[x] == o0[jx]);
                    assert(b.order@[y] == o0[jy]);
                } else if x == index {
                    assert(b.order@[y] == o0[jy]);
                } else {
                    assert(b.order@[x] == o0[jx]);
                }
            }
        }
        assert(b@ =~= a@.insert(index, v));
    }

    /// Inserts `value` so that it ends up at position `index`; fails, leaving
    /// the list as it was, when `index` is past the end.
    pub fn insert(&mut self, value: T, index: usize) -> (r: Result<(), String>)
        requires
            old(self).wf(),
        ensures
            final(self).wf(),
            r is Err <==> index > old(self)@.len(),
            r is Err ==> final(self)@ == old(self)@,
            r is Ok ==> final(self)@ == old(self)@.insert(index as int, value),
    {
        if index > self.length {
            return Err(index_error(index, self.length));
        }
        if index == 0 {
            self.push_front(value);
            assert(seq![value] + old(self)@ =~= old(self)@.insert(0, value));
            return Ok(());
        }
        if index == self.length {
            self.push_back(value);
            assert(old(self)@.push(value) =~= old(self)@.insert(index as int, value));
            return Ok(());
        }
        let p = self.slot_of(index - 1);
        let ghost o0 = self.order@;
        let ghost n0 = self.nodes@;
        assert(n0[o0[index - 1] as int] is Some);
        assert(n0[o0[index as int] as int] is Some);
        assert(old(self).node_at(index - 1).next == old(self).link_after(index - 1));
        let s = self.nodes.get(p).next;
        let ghost v = value;
        let k = self.nodes.insert(Node { value, next: s });
        proof {
            old(self).lemma_fresh_slot(k);
            old(self).lemma_room_for_one(&self.nodes, k);
        }
        let ghost n1 = self.nodes@;
        assert forall|i: int| 0 <= i < old(self).length implies #[trigger] n1[o0[i] as int]
            == n0[o0[i] as int] by {
            assert(n0[o0[i] as int] is Some);
        }
        self.nodes.get_mut(p).next = Some(k);
        self.length = self.length + 1;
        self.order = Ghost(self.order@.insert(index as int, k));
        proof {
            assert forall|i: int| 0 <= i < old(self).length && i != index - 1 implies #[trigger] self.nodes@[o0[i] as int]
                == n0[o0[i] as int] by {
                assert(o0[i] != o0[index - 1]);
            }
            Self::lemma_spliced(*old(self), *self, index as int, k, v);
        }
        Ok(())
    }

    /// A successful insertion at `index` puts `value` at that position and
    /// adds exactly one value.
    pub proof fn lemma_insert_then_get(list: &Self, value: T, index: int)
        requires
            list.wf(),
            0 <= index <= list@.len(),
        ensures
            list@.insert(index, value)[index] == value,
            list@.insert(index, value).len() == list@.len() + 1,
    {
    }

    /// Number of values.
    pub fn len(&self) -> (r: usize)
        requires
            self.wf(),
        ensures
            r == self@.len(),
    {
        self.length
    }

    /// References to the values from head to tail.
    pub fn values(&self) -> (r: Vec<&T>)
        requires
            self.wf(),
        ensures
            deref_all(r@) == self@,
    {
        let mut out: Vec<&T> = Vec::new();
        let mut slot = self.head;
        let mut i: usize = 0;
        while i < self.length
            invariant
                self.wf(),
                i <= self.length,
                i < self.length ==> slot == Some(self.order@[i as int]),
                deref_all(out@) == self@.take(i as int),
            decreases self.length - i,
        {
            let k = slot.unwrap();
            assert(self.nodes@[self.order@[i as int] as int] is Some);
            let node = self.nodes.get(k);
            let ghost prev = out@;
            out.push(&node.value);
            assert(deref_all(out@) =~= deref_all(prev).push(node.value));
            assert(deref_all(out@) =~= self@.take(i + 1));
            slot = node.next;
            i = i + 1;
        }
        assert(self@.take(self.length as int) =~= self@);
        out
    }

    /// The values written as `(a) -> (b) -> (c)`, or `()` when empty.
    pub fn to_print_string(&self) -> (r: String) where T: Display
        requires
            self.wf(),
        ensures
            listed(self@, "("@, ") -> ("@, ")"@, r@),
    {
        let values = self.values();
        render_list(&values, "(", ") -> (", ")")
    }
}

} // verus!
