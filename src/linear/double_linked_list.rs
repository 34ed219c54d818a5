use vstd::prelude::*;

use super::node_store::{lemma_distinct_slots_fit, NodeStore};
use crate::render::{deref_all, index_error};

verus! {

/// A node of a doubly linked list: a value and the slots of its neighbours.
pub struct Node<T> {
    pub value: T,
    pub successor: Option<usize>,
    pub predecessor: Option<usize>,
}

impl<T> Node<T> {
    /// A node holding `value` with no neighbours.
    pub fn new(value: T) -> (r: Node<T>)
        ensures
            r.value == value,
            r.successor is None,
            r.predecessor is None,
    {
        Node { value, successor: None, predecessor: None }
    }
}

/// A doubly linked list: each node links to both neighbours, and the list
/// keeps links to both ends.
///
/// Nodes live in a `NodeStore`, each in its own slot, and are released one
/// by one as they leave the list. `order` lists the slots from head to tail.
pub struct DoubleLinkedList<T> {
    length: usize,
    head: Option<usize>,
    tail: Option<usize>,
    nodes: NodeStore<Node<T>>,
    order: Ghost<Seq<usize>>,
}

impl<T> View for DoubleLinkedList<T> {
    type V = Seq<T>;

    /// The values from head to tail.
    closed spec fn view(&self) -> Seq<T> {
        Seq::new(self.length as nat, |i: int| self.node_at(i).value)
    }
}

impl<T> DoubleLinkedList<T> {
    /// The node at position `i`.
    closed spec fn node_at(&self, i: int) -> Node<T> {
        self.nodes@[self.order@[i] as int]->Some_0
    }

    /// The slot after position `i`, or none after the last.
    closed spec fn slot_after(&self, i: int) -> Option<usize> {
        if i + 1 < self.length {
            Some(self.order@[i + 1])
        } else {
            None
        }
    }

    /// The slot before position `i`, or none before the first.
    closed spec fn slot_before(&self, i: int) -> Option<usize> {
        if i > 0 {
            Some(self.order@[i - 1])
        } else {
            None
        }
    }

    /// The internal invariant: `order` lists distinct live slots; each node
    /// links forward to the next position and back to the previous one;
    /// `head` and `tail` name the first and last.
    pub closed spec fn wf(&self) -> bool {
        &&& self.nodes.wf()
        &&& self.nodes.live_count() == self.length
        &&& self.order@.len() == self.length
        &&& self.order@.no_duplicates()
        &&& forall|i: int|
            0 <= i < self.length ==> {
                &&& self.order@[i] < self.nodes@.len()
                &&& #[trigger] self.nodes@[self.order@[i] as int] is Some
                &&& self.node_at(i).successor == self.slot_after(i)
                &&& self.node_at(i).predecessor == self.slot_before(i)
            }
        &&& self.head == if self.length == 0 {
            None
        } else {
            Some(self.order@[0])
        }
        &&& self.tail == if self.length == 0 {
            None
        } else {
            Some(self.order@[self.length - 1])
        }
    }

    /// Slots met by following `successor` links from `from`, for at most
    /// `fuel` steps.
    closed spec fn walk_forward(&self, from: Option<usize>, fuel: nat) -> Seq<usize>
        decreases fuel,
    {
        if fuel == 0 {
            Seq::empty()
        } else {
            match from {
                Some(k) => if k < self.nodes@.len() && self.nodes@[k as int] is Some {
                    seq![k] + self.walk_forward(self.nodes@[k as int]->Some_0.successor, (fuel - 1) as nat)
                } else {
                    Seq::empty()
                },
                None => Seq::empty(),
            }
        }
    }

    /// Slots met by following `predecessor` links from `from`, for at most
    /// `fuel` steps.
    closed spec fn walk_backward(&self, from: Option<usize>, fuel: nat) -> Seq<usize>
        decreases fuel,
    {
        if fuel == 0 {
            Seq::empty()
        } else {
            match from {
                Some(k) => if k < self.nodes@.len() && self.nodes@[k as int] is Some {
                    seq![k] + self.walk_backward(self.nodes@[k as int]->Some_0.predecessor, (fuel - 1) as nat)
                } else {
                    Seq::empty()
                },
                None => Seq::empty(),
            }
        }
    }

    /// Values met by following `successor` links from the head until a node
    /// has none.
    pub closed spec fn forward_values(&self) -> Seq<T> {
        self.walk_forward(self.head, self.nodes@.len() + 1).map_values(
            |k: usize| self.nodes@[k as int]->Some_0.value,
        )
    }

    /// Values met by following `predecessor` links from the tail until a
    /// node has none.
    pub closed spec fn backward_values(&self) -> Seq<T> {
        self.walk_backward(self.tail, self.nodes@.len() + 1).map_values(
            |k: usize| self.nodes@[k as int]->Some_0.value,
        )
    }

    proof fn lemma_forward_from(&self, i: int, fuel: nat)
        requires
            self.wf(),
            0 <= i <= self.length,
            fuel >= self.length - i,
        ensures
            self.walk_forward(if i < self.length { Some(self.order@[i]) } else { None }, fuel)
                == self.order@.skip(i),
        decreases self.length - i,
    {
        if i < self.length {
            assert(self.nodes@[self.order@[i] as int] is Some);
            self.lemma_forward_from(i + 1, (fuel - 1) as nat);
            assert(self.order@.skip(i) =~= seq![self.order@[i]] + self.order@.skip(i + 1));
        } else {
            assert(self.order@.skip(i) =~= Seq::<usize>::empty());
        }
    }

    proof fn lemma_backward_from(&self, i: int, fuel: nat)
        requires
            self.wf(),
            -1 <= i < self.length,
            fuel >= i + 1,
        ensures
            self.walk_backward(if i >= 0 { Some(self.order@[i]) } else { None }, fuel)
                == self.order@.take(i + 1).reverse(),
        decreases i + 1,
    {
        if i >= 0 {
            assert(self.nodes@[self.order@[i] as int] is Some);
            self.lemma_backward_from(i - 1, (fuel - 1) as nat);
            assert(self.order@.take(i + 1).reverse() =~= seq![self.order@[i]] + self.order@.take(
                i,
            ).reverse());
        } else {
            assert(self.order@.take(0).reverse() =~= Seq::<usize>::empty());
        }
    }

    /// The list has no more nodes than the store has slots.
    proof fn lemma_length_bound(&self)
        requires
            self.wf(),
        ensures
            self.length <= self.nodes@.len(),
    {
        assert forall|i: int| 0 <= i < self.order@.len() implies #[trigger] self.order@[i]
            < self.nodes@.len() by {
            assert(self.nodes@[self.order@[i] as int] is Some);
        }
        lemma_distinct_slots_fit(self.order@, self.nodes@.len());
    }

    /// Number of nodes held in the node store.
    pub closed spec fn held_nodes(&self) -> nat {
        self.nodes.occupied().len()
    }

    /// The store holds no node besides those on the list: as many nodes as
    /// the list has values.
    pub proof fn lemma_no_stray_nodes(list: &Self)
        requires
            list.wf(),
        ensures
            list.held_nodes() == list@.len(),
    {
        list.nodes.lemma_live_count();
    }

    /// Following `successor` from the head meets every value in order and
    /// following `predecessor` from the tail meets them in reverse: the two
    /// walks have `length` values each and mirror each other.
    pub proof fn lemma_walks_mirror(list: &Self)
        requires
            list.wf(),
        ensures
            list.forward_values() == list@,
            list.backward_values() == list@.reverse(),
            list.forward_values().len() == list@.len(),
            list.backward_values() == list.forward_values().reverse(),
    {
        list.lemma_length_bound();
        let fuel = (list.nodes@.len() + 1) as nat;
        list.lemma_forward_from(0, fuel);
        list.lemma_backward_from(list.length - 1, fuel);
        assert(list.order@.skip(0) =~= list.order@);
        assert(list.order@.take(list.length as int) =~= list.order@);
        assert(list.forward_values() =~= list@);
        assert(list.backward_values() =~= list@.reverse());
    }

    /// A slot that the store had empty, or did not have yet, is not on the
    /// list.
    proof fn lemma_fresh_slot(&self, k: usize)
        requires
            self.wf(),
            k >= self.nodes@.len() || self.nodes@[k as int] is None,
        ensures
            forall|i: int| 0 <= i < self.length ==> #[trigger] self.order@[i] != k,
    {
        assert forall|i: int| 0 <= i < self.length implies #[trigger] self.order@[i] != k by {
            assert(self.nodes@[self.order@[i] as int] is Some);
        }
    }

    /// After a fresh slot `k` is added, the list plus that slot still fits
    /// in the store, so one more node can be counted.
    proof fn lemma_room_for_one(&self, store: &NodeStore<Node<T>>, k: usize)
        requires
            self.wf(),
            forall|i: int| 0 <= i < self.length ==> #[trigger] self.order@[i] != k,
            k < store@.len(),
            store@.len() >= self.nodes@.len(),
        ensures
            self.length < usize::MAX,
    {
        let more = self.order@.push(k);
        assert forall|i: int| 0 <= i < more.len() implies #[trigger] more[i] < store@.len() by {
            if i < self.length {
                assert(self.nodes@[self.order@[i] as int] is Some);
            }
        }
        assert(more.no_duplicates()) by {
            assert forall|a: int, b: int| 0 <= a < b < more.len() implies more[a] != more[b] by {
                if b < self.length {
                    assert(self.order@[a] != self.order@[b]);
                }
            }
        }
        lemma_distinct_slots_fit(more, store@.len());
        store.lemma_len_fits();
    }

    /// An empty list.
    pub fn new() -> (r: DoubleLinkedList<T>)
        ensures
            r.wf(),
            r@ == Seq::<T>::empty(),
    {
        let r = DoubleLinkedList {
            length: 0,
            head: None,
            tail: None,
            nodes: NodeStore::new(),
            order: Ghost(Seq::empty()),
        };
        assert(r@ =~= Seq::<T>::empty());
        r
    }

    /// A list holding clones of the elements of `array`, in order.
    pub fn from_array(array: &[T]) -> (r: DoubleLinkedList<T>) where T: Clone
        ensures
            r.wf(),
            r@.len() == array@.len(),
            forall|i: int| 0 <= i < array@.len() ==> cloned(#[trigger] array@[i], r@[i]),
    {
        let mut list: DoubleLinkedList<T> = DoubleLinkedList::new();
        let mut i: usize = 0;
        while i < array.len()
            invariant
                list.wf(),
                i <= array@.len(),
                list@.len() == i,
                forall|j: int| 0 <= j < i ==> cloned(#[trigger] array@[j], list@[j]),
            decreases array@.len() - i,
        {
            let v = array[i].clone();
            list.append(v);
            i = i + 1;
        }
        list
    }

    /// Number of values.
    pub fn length(&self) -> (r: usize)
        requires
            self.wf(),
        ensures
            r == self@.len(),
    {
        self.length
    }

    /// Whether the list holds no value.
    pub fn is_empty(&self) -> (r: bool)
        requires
            self.wf(),
        ensures
            r == (self@.len() == 0),
    {
        self.length == 0
    }

    /// Adds `value` after the tail.
    pub fn append(&mut self, value: T)
        requires
            old(self).wf(),
        ensures
            final(self).wf(),
            final(self)@ == old(self)@.push(value),
    {
        let ghost before = self@;
        let ghost n0 = self.nodes@;
        let ghost o0 = self.order@;
        let ghost len0 = self.length as int;
        let k = self.nodes.insert(Node { value, successor: None, predecessor: self.tail });
        proof {
            old(self).lemma_fresh_slot(k);
            old(self).lemma_room_for_one(&self.nodes, k);
        }
        let ghost n1 = self.nodes@;
        assert forall|i: int| 0 <= i < len0 implies #[trigger] n1[o0[i] as int] == n0[o0[i] as int] by {
            assert(n0[o0[i] as int] is Some);
        }
        match self.tail {
            Some(t) => {
                assert(n1[o0[len0 - 1] as int] is Some);
                self.nodes.get_mut(t).successor = Some(k);
            },
            None => {
                self.head = Some(k);
            },
        }
        self.tail = Some(k);
        self.order = Ghost(self.order@.push(k));
        self.length = self.length + 1;
        assert forall|i: int| 0 <= i < self.length implies {
            &&& self.order@[i] < self.nodes@.len()
            &&& #[trigger] self.nodes@[self.order@[i] as int] is Some
            &&& self.node_at(i).successor == self.slot_after(i)
            &&& self.node_at(i).predecessor == self.slot_before(i)
            &&& i < len0 ==> self.node_at(i).value == before[i]
        } by {
            if i < len0 {
                assert(self.order@[i] == o0[i]);
                assert(n0[o0[i] as int] is Some);
                assert(old(self).node_at(i).successor == old(self).slot_after(i));
                assert(old(self).node_at(i).predecessor == old(self).slot_before(i));
                if i + 1 < len0 {
                    assert(o0[i] != o0[len0 - 1]);
                }
            }
        }
        assert(self.order@.no_duplicates());
        assert(self@ =~= before.push(value));
    }

    /// Adds `value` before the head.
    pub fn prepend(&mut self, value: T)
        requires
            old(self).wf(),
        ensures
            final(self).wf(),
            final(self)@ == seq![value] + old(self)@,
    {
        let ghost before = self@;
        let ghost n0 = self.nodes@;
        let ghost o0 = self.order@;
        let ghost len0 = self.length as int;
        let k = self.nodes.insert(Node { value, successor: self.head, predecessor: None });
        proof {
            old(self).lemma_fresh_slot(k);
            old(self).lemma_room_for_one(&self.nodes, k);
        }
        let ghost n1 = self.nodes@;
        assert forall|i: int| 0 <= i < len0 implies #[trigger] n1[o0[i] as int] == n0[o0[i] as int] by {
            assert(n0[o0[i] as int] is Some);
        }
        match self.head {
            Some(h) => {
                assert(n1[o0[0] as int] is Some);
                self.nodes.get_mut(h).predecessor = Some(k);
            },
            None => {
                self.tail = Some(k);
            },
        }
        self.head = Some(k);
        self.order = Ghost(seq![k] + self.order@);
        self.length = self.length + 1;
        assert forall|i: int| 0 <= i < self.length implies {
            &&& self.order@[i] < self.nodes@.len()
            &&& #[trigger] self.nodes@[self.order@[i] as int] is Some
            &&& self.node_at(i).successor == self.slot_after(i)
            &&& self.node_at(i).predecessor == self.slot_before(i)
            &&& i > 0 ==> self.node_at(i).value == before[i - 1]
        } by {
            if i > 0 {
                assert(self.order@[i] == o0[i - 1]);
                assert(n0[o0[i - 1] as int] is Some);
                assert(old(self).node_at(i - 1).successor == old(self).slot_after(i - 1));
                assert(old(self).node_at(i - 1).predecessor == old(self).slot_before(i - 1));
                if i > 1 {
                    assert(o0[i - 1] != o0[0]);
                    assert(self.order@[i - 1] == o0[i - 2]);
                }
                if i + 1 < self.length {
                    assert(self.order@[i + 1] == o0[i]);
                }
            } else if len0 > 0 {
                assert(self.order@[1] == o0[0]);
            }
        }
        assert(self.order@.no_duplicates()) by {
            assert forall|x: int, y: int|
                0 <= x < y < self.length implies self.order@[x] != self.order@[y] by {
                if x > 0 {
                    assert(self.order@[x] == o0[x - 1]);
                }
                assert(self.order@[y] == o0[y - 1]);
            }
        }
        assert(self@ =~= seq![value] + before);
    }

    /// Slot of the node at position `index`, found by walking `successor`
    /// links from the head.
    fn slot_of(&self, index: usize) -> (k: usize)
        requires
            self.wf(),
            index < self@.len(),
        ensures
            k == self.order@[index as int],
    {
        let mut k = self.head.unwrap();
        let mut i: usize = 0;
        while i < index
            invariant
                self.wf(),
                index < self.length,
                i <= index,
                k == self.order@[i as int],
            decreases index - i,
        {
            assert(self.nodes@[self.order@[i as int] as int] is Some);
            k = self.nodes.get(k).successor.unwrap();
            i = i + 1;
        }
        k
    }

    /// Removes the head node and returns its value; fails on an empty list.
    pub fn pop_head(&mut self) -> (r: Result<T, &'static str>)
        requires
            old(self).wf(),
        ensures
            final(self).wf(),
            old(self)@.len() == 0 ==> r is Err && final(self)@ == old(self)@,
            old(self)@.len() > 0 ==> r == Ok::<T, &'static str>(old(self)@[0]) && final(self)@ == old(
                self,
            )@.drop_first(),
    {
        if self.length == 0 {
            return Err("Pop head on empty list");
        }
        let ghost before = self@;
        let ghost n0 = self.nodes@;
        let ghost o0 = self.order@;
        let k = self.head.unwrap();
        assert(n0[o0[0] as int] is Some);
        let node = self.nodes.remove(k);
        self.head = node.successor;
        let ghost n1 = self.nodes@;
        match self.head {
            Some(h) => {
                assert(o0[1] != o0[0]);
                assert(n0[o0[1] as int] is Some);
                assert(n1[o0[1] as int] is Some);
                self.nodes.get_mut(h).predecessor = None;
            },
            None => {
                self.tail = None;
            },
        }
        self.length = self.length - 1;
        self.order = Ghost(self.order@.drop_first());
        assert forall|i: int| 0 <= i < self.length implies {
            &&& self.order@[i] < self.nodes@.len()
            &&& #[trigger] self.nodes@[self.order@[i] as int] is Some
            &&& self.node_at(i).successor == self.slot_after(i)
            &&& self.node_at(i).predecessor == self.slot_before(i)
            &&& self.node_at(i).value == before[i + 1]
        } by {
            assert(self.order@[i] == o0[i + 1]);
            assert(n0[o0[i + 1] as int] is Some);
            assert(o0[i + 1] != o0[0]);
            assert(old(self).node_at(i + 1).successor == old(self).slot_after(i + 1));
            assert(old(self).node_at(i + 1).predecessor == old(self).slot_before(i + 1));
            if i > 0 {
                assert(o0[i + 1] != o0[1]);
                assert(self.order@[i - 1] == o0[i]);
            }
            if i + 1 < self.length {
                assert(self.order@[i + 1] == o0[i + 2]);
            }
        }
        assert(self.order@.no_duplicates()) by {
            assert forall|x: int, y: int|
                0 <= x < y < self.length implies self.order@[x] != self.order@[y] by {
                assert(self.order@[x] == o0[x + 1]);
                assert(self.order@[y] == o0[y + 1]);
            }
        }
        assert(self@ =~= before.drop_first());
        Ok(node.value)
    }

    /// Removes the tail node and returns its value; fails on an empty list.
    pub fn pop_tail(&mut self) -> (r: Result<T, &'static str>)
        requires
            old(self).wf(),
        ensures
            final(self).wf(),
            old(self)@.len() == 0 ==> r is Err && final(self)@ == old(self)@,
            old(self)@.len() > 0 ==> r == Ok::<T, &'static str>(old(self)@.last()) && final(self)@
                == old(self)@.drop_last(),
    {
        if self.length == 0 {
            return Err("Pop tail on empty list");
        }
        let ghost before = self@;
        let ghost n0 = self.nodes@;
        let ghost o0 = self.order@;
        let ghost last = self.length - 1;
        let k = self.tail.unwrap();
        assert(n0[o0[last] as int] is Some);
        let node = self.nodes.remove(k);
        self.tail = node.predecessor;
        let ghost n1 = self.nodes@;
        match self.tail {
            Some(t) => {
                assert(o0[last - 1] != o0[last]);
                assert(n0[o0[last - 1] as int] is Some);
                assert(n1[o0[last - 1] as int] is Some);
                self.nodes.get_mut(t).successor = None;
            },
            None => {
                self.head = None;
            },
        }
        self.length = self.length - 1;
        self.order = Ghost(self.order@.drop_last());
        assert forall|i: int| 0 <= i < self.length implies {
            &&& self.order@[i] < self.nodes@.len()
            &&& #[trigger] self.nodes@[self.order@[i] as int] is Some
            &&& self.node_at(i).successor == self.slot_after(i)
            &&& self.node_at(i).predecessor == self.slot_before(i)
            &&& self.node_at(i).value == before[i]
        } by {
            assert(self.order@[i] == o0[i]);
            assert(n0[o0[i] as int] is Some);
            assert(o0[i] != o0[last]);
            assert(old(self).node_at(i).successor == old(self).slot_after(i));
            assert(old(self).node_at(i).predecessor == old(self).slot_before(i));
            if i + 1 < self.length {
                assert(o0[i] != o0[last - 1]);
            }
        }
        assert(self.order@.no_duplicates()) by {
            assert forall|x: int, y: int|
                0 <= x < y < self.length implies self.order@[x] != self.order@[y] by {
                assert(self.order@[x] == o0[x]);
                assert(self.order@[y] == o0[y]);
            }
        }
        assert(self@ =~= before.drop_last());
        Ok(node.value)
    }

    /// `b` is `a` with a new node holding `v` in slot `k` spliced in at
    /// interior position `index`.
    proof fn lemma_spliced(a: Self, b: Self, index: int, k: usize, v: T)
        requires
            a.wf(),
            0 < index < a.length,
            forall|i: int| 0 <= i < a.length ==> #[trigger] a.order@[i] != k,
            k < b.nodes@.len(),
            b.nodes.wf(),
            b.nodes.live_count() == a.nodes.live_count() + 1,
            b.nodes@.len() >= a.nodes@.len(),
            b.length == a.length + 1,
            b.order@ == a.order@.insert(index, k),
            b.head == a.head,
            b.tail == a.tail,
            b.nodes@[k as int] == Some(
                Node { value: v, successor: Some(a.order@[index]), predecessor: Some(a.order@[index - 1]) },
            ),
            b.nodes@[a.order@[index - 1] as int] == Some(
                Node {
                    value: a.node_at(index - 1).value,
                    successor: Some(k),
                    predecessor: a.node_at(index - 1).predecessor,
                },
            ),
            b.nodes@[a.order@[index] as int] == Some(
                Node {
                    value: a.node_at(index).value,
                    successor: a.node_at(index).successor,
                    predecessor: Some(k),
                },
            ),
            forall|i: int|
                0 <= i < a.length && i != index - 1 && i != index ==> #[trigger] b.nodes@[a.order@[i] as int]
                    == a.nodes@[a.order@[i] as int],
        ensures
            b.wf(),
            b@ == a@.insert(index, v),
    {
        let o0 = a.order@;
        assert forall|i: int| 0 <= i < b.length implies {
            &&& b.order@[i] < b.nodes@.len()
            &&& #[trigger] b.nodes@[b.order@[i] as int] is Some
            &&& b.node_at(i).successor == b.slot_after(i)
            &&& b.node_at(i).predecessor == b.slot_before(i)
            &&& b.node_at(i).value == a@.insert(index, v)[i]
        } by {
            if i == index {
                assert(b.order@[i] == k);
                assert(b.order@[i + 1] == o0[index]);
                assert(b.order@[i - 1] == o0[index - 1]);
            } else {
                let j = if i < index { i } else { i - 1 };
                assert(b.order@[i] == o0[j]);
                assert(a.nodes@[o0[j] as int] is Some);
                assert(a.node_at(j).successor == a.slot_after(j));
                assert(a.node_at(j).predecessor == a.slot_before(j));
                assert(b.order@[index] == k);
                if i + 1 < b.length && i + 1 != index {
                    let j2 = if i + 1 < index { i + 1 } else { i };
                    assert(b.order@[i + 1] == o0[j2]);
                }
                if i > 0 && i - 1 != index {
                    let j0 = if i - 1 < index { i - 1 } else { i - 2 };
                    assert(b.order@[i - 1] == o0[j0]);
                }
            }
        }
        assert(b.order@.no_duplicates()) by {
            assert forall|x: int, y: int|
                0 <= x < y < b.length implies b.order@[x] != b.order@[y] by {
                let jx = if x < index { x } else { x - 1 };
                let jy = if y < index { y } else { y - 1 };
                if x != index && y != index {
                    assert(b.order@[x] == o0[jx]);
                    assert(b.order@[y] == o0[jy]);
                } else if x == index {
                    assert(b.order@[y] == o0[jy]);
                } else {
                    assert(b.order@[x] == o0[jx]);
                }
            }
        }
        assert(b@ =~= a@.insert(index, v));
    }

    /// `b` is `a` with the node at interior position `index` unlinked: its
    /// neighbours now link to each other.
    proof fn lemma_unlinked(a: Self, b: Self, index: int)
        requires
            a.wf(),
            0 < index < a.length - 1,
            b.nodes.wf(),
            b.nodes.live_count() == a.nodes.live_count() - 1,
            b.length == a.length - 1,
            b.order@ == a.order@.remove(index),
            b.head == a.head,
            b.tail == a.tail,
            b.nodes@.len() == a.nodes@.len(),
            b.nodes@[a.order@[index - 1] as int] == Some(
                Node {
                    value: a.node_at(index - 1).value,
                    successor: Some(a.order@[index + 1]),
                    predecessor: a.node_at(index - 1).predecessor,
                },
            ),
            b.nodes@[a.order@[index + 1] as int] == Some(
                Node {
                    value: a.node_at(index + 1).value,
                    successor: a.node_at(index + 1).successor,
                    predecessor: Some(a.order@[index - 1]),
                },
            ),
            forall|i: int|
                0 <= i < a.length && i != index - 1 && i != index && i != index + 1
                    ==> #[trigger] b.nodes@[a.order@[i] as int] == a.nodes@[a.order@[i] as int],
        ensures
            b.wf(),
            b@ == a@.remove(index),
    {
        let o0 = a.order@;
        assert forall|i: int| 0 <= i < b.length implies {
            &&& b.order@[i] < b.nodes@.len()
            &&& #[trigger] b.nodes@[b.order@[i] as int] is Some
            &&& b.node_at(i).successor == b.slot_after(i)
            &&& b.node_at(i).predecessor == b.slot_before(i)
            &&& b.node_at(i).value == a@.remove(index)[i]
        } by {
            let j = if i < index { i } else { i + 1 };
            assert(b.order@[i] == o0[j]);
            assert(a.nodes@[o0[j] as int] is Some);
            assert(a.node_at(j).successor == a.slot_after(j));
            assert(a.node_at(j).predecessor == a.slot_before(j));
            if i + 1 < b.length {
                let j2 = if i + 1 < index { i + 1 } else { i + 2 };
                assert(b.order@[i + 1] == o0[j2]);
            }
            if i > 0 {
                let j0 = if i - 1 < index { i - 1 } else { i };
                assert(b.order@[i - 1] == o0[j0]);
            }
        }
        assert(b.order@.no_duplicates()) by {
            assert forall|x: int, y: int|
                0 <= x < y < b.length implies b.order@[x] != b.order@[y] by {
                let jx = if x < index { x } else { x + 1 };
                let jy = if y < index { y } else { y + 1 };
                assert(b.order@[x] == o0[jx]);
                assert(b.order@[y] == o0[jy]);
            }
        }
        assert(b@ =~= a@.remove(index));
    }

    /// Inserts `value` so that it ends up at position `index`; fails, leaving
    /// the list as it was, when `index` is past the end.
    pub fn insert(&mut self, value: T, index: usize) -> (r: Result<(), String>)
        requires
            old(self).wf(),
        ensures
            final(self).wf(),
            r is Err <==> index > old(self)@.len(),
            r is Err ==> final(self)@ == old(self)@,
            r is Ok ==> final(self)@ == old(self)@.insert(index as int, value),
    {
        if index > self.length {
            return Err(index_error(index, self.length));
        }
        if index == 0 {
            self.prepend(value);
            assert(seq![value] + old(self)@ =~= old(self)@.insert(0, value));
            return Ok(());
        }
        if index == self.length {
            self.append(value);
            assert(old(self)@.push(value) =~= old(self)@.insert(index as int, value));
            return Ok(());
        }
        let p = self.slot_of(index - 1);
        let ghost o0 = self.order@;
        let ghost n0 = self.nodes@;
        assert(n0[o0[index - 1] as int] is Some);
        assert(n0[o0[index as int] as int] is Some);
        assert(old(self).node_at(index - 1).successor == old(self).slot_after(index - 1));
        let s = self.nodes.get(p).successor.unwrap();
        let ghost v = value;
        let k = self.nodes.insert(Node { value, successor: Some(s), predecessor: Some(p) });
        proof {
            old(self).lemma_fresh_slot(k);
            old(self).lemma_room_for_one(&self.nodes, k);
        }
        let ghost n1 = self.nodes@;
        assert forall|i: int| 0 <= i < old(self).length implies #[trigger] n1[o0[i] as int] == n0[o0[i] as int] by {
            assert(n0[o0[i] as int] is Some);
        }
        self.nodes.get_mut(p).successor = Some(k);
        assert(o0[index - 1] != o0[index as int]);
        self.nodes.get_mut(s).predecessor = Some(k);
        self.length = self.length + 1;
        self.order = Ghost(self.order@.insert(index as int, k));
        proof {
            assert forall|i: int|
                0 <= i < old(self).length && i != index - 1 && i != index implies #[trigger] self.nodes@[o0[i] as int]
                    == n0[o0[i] as int] by {
                assert(o0[i] != o0[index - 1]);
                assert(o0[i] != o0[index as int]);
            }
            Self::lemma_spliced(*old(self), *self, index as int, k, v);
        }
        Ok(())
    }

    /// A successful insertion at `index` puts `value` at that position and
    /// adds exactly one value.
    pub proof fn lemma_insert_then_get(list: &Self, value: T, index: int)
        requires
            list.wf(),
            0 <= index <= list@.len(),
        ensures
            list@.insert(index, value)[index] == value,
            list@.insert(index, value).len() == list@.len() + 1,
    {
    }

    /// Removes the node at position `index` and returns its value; fails,
    /// leaving the list as it was, when `index` is not a position.
    pub fn remove(&mut self, index: usize) -> (r: Result<T, String>)
        requires
            old(self).wf(),
        ensures
            final(self).wf(),
            r is Err <==> index >= old(self)@.len(),
            r is Err ==> final(self)@ == old(self)@,
            r is Ok ==> r == Ok::<T, String>(old(self)@[index as int]) && final(self)@ == old(
                self,
            )@.remove(index as int),
    {
        if index >= self.length {
            return Err(index_error(index, self.length));
        }
        if index == 0 {
            let r = self.pop_head();
            assert(old(self)@.drop_first() =~= old(self)@.remove(0));
            return match r {
                Ok(v) => Ok(v),
                Err(_) => Err(index_error(index, self.length)),
            };
        }
        if index == self.length - 1 {
            let r = self.pop_tail();
            assert(old(self)@.drop_last() =~= old(self)@.remove(index as int));
            return match r {
                Ok(v) => Ok(v),
                Err(_) => Err(index_error(index, self.length)),
            };
        }
        let p = self.slot_of(index - 1);
        let ghost o0 = self.order@;
        let ghost n0 = self.nodes@;
        assert(n0[o0[index - 1] as int] is Some);
        assert(n0[o0[index as int] as int] is Some);
        assert(n0[o0[index + 1] as int] is Some);
        assert(old(self).node_at(index - 1).successor == old(self).slot_after(index - 1));
        assert(old(self).node_at(index as int).successor == old(self).slot_after(index as int));
        let k = self.nodes.get(p).successor.unwrap();
        let s = self.nodes.get(k).successor.unwrap();
        let node = self.nodes.remove(k);
        assert(o0[index - 1] != o0[index as int]);
        assert(o0[index + 1] != o0[index as int]);
        assert(o0[index - 1] != o0[index + 1]);
        self.nodes.get_mut(p).successor = Some(s);
        self.nodes.get_mut(s).predecessor = Some(p);
        self.length = self.length - 1;
        self.order = Ghost(self.order@.remove(index as int));
        proof {
            assert(old(self).node_at(index + 1).predecessor == old(self).slot_before(index + 1));
            assert forall|i: int|
                0 <= i < old(self).length && i != index - 1 && i != index && i != index + 1 implies #[trigger] self.nodes@[o0[i] as int]
                    == n0[o0[i] as int] by {
                assert(o0[i] != o0[index - 1]);
                assert(o0[i] != o0[index as int]);
                assert(o0[i] != o0[index + 1]);
            }
            Self::lemma_unlinked(*old(self), *self, index as int);
        }
        Ok(node.value)
    }

    /// `b` is `a` with at most the value at position `index` changed.
    pub closed spec fn value_replaced(self, b: Self, index: int) -> bool {
        &&& 0 <= index < self.length
        &&& b.nodes.wf()
        &&& b.nodes.live_count() == self.nodes.live_count()
        &&& b.length == self.length
        &&& b.order == self.order
        &&& b.head == self.head
        &&& b.tail == self.tail
        &&& b.nodes@.len() == self.nodes@.len()
        &&& b.nodes@[self.order@[index] as int] is Some
        &&& b.nodes@[self.order@[index] as int]->Some_0.successor == self.node_at(index).successor
        &&& b.nodes@[self.order@[index] as int]->Some_0.predecessor == self.node_at(
            index,
        ).predecessor
        &&& forall|i: int|
            0 <= i < self.length && i != index ==> #[trigger] b.nodes@[self.order@[i] as int]
                == self.nodes@[self.order@[i] as int]
    }

    /// Changing one value keeps the list well formed.
    pub broadcast proof fn lemma_value_replaced(a: Self, b: Self, index: int)
        requires
            a.wf(),
            #[trigger] a.value_replaced(b, index),
        ensures
            b.wf(),
    {
        assert forall|i: int| 0 <= i < b.length implies {
            &&& b.order@[i] < b.nodes@.len()
            &&& #[trigger] b.nodes@[b.order@[i] as int] is Some
            &&& b.node_at(i).successor == b.slot_after(i)
            &&& b.node_at(i).predecessor == b.slot_before(i)
        } by {
            assert(a.nodes@[a.order@[i] as int] is Some);
            if i != index {
                assert(b.nodes@[a.order@[i] as int] == a.nodes@[a.order@[i] as int]);
            }
        }
    }

    /// Exclusive access to the value at position `index`.
    fn value_mut(&mut self, index: usize) -> (r: &mut T)
        requires
            old(self).wf(),
            index < old(self)@.len(),
        ensures
            *r == old(self)@[index as int],
            old(self).value_replaced(*final(self), index as int),
            final(self)@ =~= old(self)@.update(index as int, *final(r)),
    {
        let k = self.slot_of(index);
        assert(self.nodes@[self.order@[index as int] as int] is Some);
        &mut self.nodes.get_mut(k).value
    }

    /// The value at position `index`.
    fn value_ref(&self, index: usize) -> (r: &T)
        requires
            self.wf(),
            index < self@.len(),
        ensures
            *r == self@[index as int],
    {
        let k = self.slot_of(index);
        assert(self.nodes@[self.order@[index as int] as int] is Some);
        &self.nodes.get(k).value
    }

    /// The tail value; `None` when empty.
    pub fn tail_ref(&self) -> (r: Option<&T>)
        requires
            self.wf(),
        ensures
            r is None <==> self@.len() == 0,
            r matches Some(x) ==> *x == self@.last(),
    {
        match self.tail {
            Some(t) => {
                assert(self.nodes@[self.order@[self.length - 1] as int] is Some);
                Some(&self.nodes.get(t).value)
            },
            None => None,
        }
    }

    /// Exclusive access to the tail value; `None` when empty.
    pub fn tail_mut(&mut self) -> (r: Option<&mut T>)
        requires
            old(self).wf(),
        ensures
            r is None <==> old(self)@.len() == 0,
            r is None ==> *final(self) == *old(self),
            r matches Some(x) ==> {
                &&& *x == old(self)@.last()
                &&& final(self).wf()
                &&& final(self)@ =~= old(self)@.update(old(self)@.len() - 1, *final(x))
            },
    {
        broadcast use DoubleLinkedList::lemma_value_replaced;

        if self.length == 0 {
            return None;
        }
        let last = self.length - 1;
        Some(self.value_mut(last))
    }

    /// The head value; `None` when empty.
    pub fn head_ref(&self) -> (r: Option<&T>)
        requires
            self.wf(),
        ensures
            r is None <==> self@.len() == 0,
            r matches Some(x) ==> *x == self@[0],
    {
        match self.head {
            Some(h) => {
                assert(self.nodes@[self.order@[0] as int] is Some);
                Some(&self.nodes.get(h).value)
            },
            None => None,
        }
    }

    /// Exclusive access to the head value; `None` when empty.
    pub fn head_mut(&mut self) -> (r: Option<&mut T>)
        requires
            old(self).wf(),
        ensures
            r is None <==> old(self)@.len() == 0,
            r is None ==> *final(self) == *old(self),
            r matches Some(x) ==> {
                &&& *x == old(self)@[0]
                &&& final(self).wf()
                &&& final(self)@ =~= old(self)@.update(0, *final(x))
            },
    {
        broadcast use DoubleLinkedList::lemma_value_replaced;

        if self.length == 0 {
            return None;
        }
        Some(self.value_mut(0))
    }

    /// The head value; fails on an empty list.
    pub fn get_head_ref(&self) -> (r: Result<&T, &'static str>)
        requires
            self.wf(),
        ensures
            r is Err <==> self@.len() == 0,
            r matches Ok(x) ==> *x == self@[0],
    {
        if self.length == 0 {
            return Err("Get head on empty list");
        }
        Ok(self.value_ref(0))
    }

    /// Exclusive access to the head value; fails on an empty list.
    pub fn get_head_mut(&mut self) -> (r: Result<&mut T, &'static str>)
        requires
            old(self).wf(),
        ensures
            r is Err <==> old(self)@.len() == 0,
            r is Err ==> *final(self) == *old(self),
            r matches Ok(x) ==> {
                &&& *x == old(self)@[0]
                &&& final(self).wf()
                &&& final(self)@ =~= old(self)@.update(0, *final(x))
            },
    {
        broadcast use DoubleLinkedList::lemma_value_replaced;

        if self.length == 0 {
            return Err("Get head on empty list");
        }
        Ok(self.value_mut(0))
    }

    /// The tail value; fails on an empty list.
    pub fn get_tail_ref(&self) -> (r: Result<&T, &'static str>)
        requires
            self.wf(),
        ensures
            r is Err <==> self@.len() == 0,
            r matches Ok(x) ==> *x == self@.last(),
    {
        if self.length == 0 {
            return Err("Get tail on empty list");
        }
        Ok(self.value_ref(self.length - 1))
    }

    /// Exclusive access to the tail value; fails on an empty list.
    pub fn get_tail_mut(&mut self) -> (r: Result<&mut T, &'static str>)
        requires
            old(self).wf(),
        ensures
            r is Err <==> old(self)@.len() == 0,
            r is Err ==> *final(self) == *old(self),
            r matches Ok(x) ==> {
                &&& *x == old(self)@.last()
                &&& final(self).wf()
                &&& final(self)@ =~= old(self)@.update(old(self)@.len() - 1, *final(x))
            },
    {
        broadcast use DoubleLinkedList::lemma_value_replaced;

        if self.length == 0 {
            return Err("Get tail on empty list");
        }
        let last = self.length - 1;
        Ok(self.value_mut(last))
    }

    /// The value at position `index`; fails when `index` is not a position.
    pub fn get_ref(&self, index: usize) -> (r: Result<&T, String>)
        requires
            self.wf(),
        ensures
            r is Err <==> index >= self@.len(),
            r matches Ok(x) ==> *x == self@[index as int],
    {
        if index >= self.length {
            return Err(index_error(index, self.length));
        }
        Ok(self.value_ref(index))
    }

    /// Exclusive access to the value at position `index`; fails when `index`
    /// is not a position.
    pub fn get_mut(&mut self, index: usize) -> (r: Result<&mut T, String>)
        requires
            old(self).wf(),
        ensures
            r is Err <==> index >= old(self)@.len(),
            r is Err ==> *final(self) == *old(self),
            r matches Ok(x) ==> {
                &&& *x == old(self)@[index as int]
                &&& final(self).wf()
                &&& final(self)@ =~= old(self)@.update(index as int, *final(x))
            },
    {
        broadcast use DoubleLinkedList::lemma_value_replaced;

        if index >= self.length {
            return Err(index_error(index, self.length));
        }
        Ok(self.value_mut(index))
    }

    /// References to the values met following `successor` links from the
    /// head.
    pub fn values_forward(&self) -> (r: Vec<&T>)
        requires
            self.wf(),
        ensures
            deref_all(r@) == self.forward_values(),
    {
        proof {
            Self::lemma_walks_mirror(self);
        }
        let mut out: Vec<&T> = Vec::new();
        let mut cursor = self.head;
        let mut i: usize = 0;
        while cursor.is_some()
            invariant
                self.wf(),
                i <= self.length,
                cursor == if i < self.length { Some(self.order@[i as int]) } else { None::<usize> },
                deref_all(out@) == self@.take(i as int),
            decreases self.length - i,
        {
            let k = cursor.unwrap();
            assert(self.nodes@[self.order@[i as int] as int] is Some);
            let node = self.nodes.get(k);
            let ghost prev = out@;
            out.push(&node.value);
            assert(deref_all(out@) =~= deref_all(prev).push(node.value));
            assert(deref_all(out@) =~= self@.take(i + 1));
            cursor = node.successor;
            i = i + 1;
        }
        assert(self@.take(self.length as int) =~= self@);
        out
    }

    /// References to the values met following `predecessor` links from the
    /// tail.
    pub fn values_backward(&self) -> (r: Vec<&T>)
        requires
            self.wf(),
        ensures
            deref_all(r@) == self.backward_values(),
    {
        proof {
            Self::lemma_walks_mirror(self);
        }
        let mut out: Vec<&T> = Vec::new();
        let mut cursor = self.tail;
        let mut i: usize = self.length;
        while cursor.is_some()
            invariant
                self.wf(),
                i <= self.length,
                cursor == if i > 0 { Some(self.order@[i - 1]) } else { None::<usize> },
                deref_all(out@) == self@.skip(i as int).reverse(),
            decreases i,
        {
            let k = cursor.unwrap();
            assert(self.nodes@[self.order@[i - 1] as int] is Some);
            let node = self.nodes.get(k);
            let ghost prev = out@;
            out.push(&node.value);
            assert(deref_all(out@) =~= deref_all(prev).push(node.value));
            assert(deref_all(out@) =~= self@.skip(i - 1).reverse());
            cursor = node.predecessor;
            i = i - 1;
        }
        assert(self@.skip(0) =~= self@);
        out
    }
}

} // verus!
