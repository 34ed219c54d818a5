use vstd::prelude::*;

verus! {

/// Storage for the nodes of a linked structure.
///
/// Each node lives in its own slot and is addressed by the slot's index, so
/// links between nodes are plain indices that own nothing. Released slots
/// are remembered and handed out again before the store grows.
pub struct NodeStore<N> {
    slots: Vec<Option<N>>,
    free: Vec<usize>,
}

/// Distinct slot indices below `bound` number at most `bound`.
pub proof fn lemma_distinct_slots_fit(slots: Seq<usize>, bound: nat)
    requires
        slots.no_duplicates(),
        forall|i: int| 0 <= i < slots.len() ==> #[trigger] slots[i] < bound,
    ensures
        slots.len() <= bound,
{
    let wide = slots.map_values(|k: usize| k as int);
    let range = vstd::set_lib::set_int_range(0, bound as int);
    assert(wide.to_set().subset_of(range)) by {
        assert forall|k: int| wide.to_set().contains(k) implies range.contains(k) by {
            let i = choose|i: int| 0 <= i < wide.len() && wide[i] == k;
            assert(slots[i] < bound);
        }
    }
    vstd::set_lib::lemma_int_range(0, bound as int);
    vstd::set_lib::lemma_len_subset(wide.to_set(), range);
    assert(wide.no_duplicates()) by {
        assert forall|a: int, b: int| 0 <= a < b < wide.len() implies #[trigger] wide[a]
            != #[trigger] wide[b] by {
            assert(slots[a] != slots[b]);
        }
    }
    wide.unique_seq_to_set();
}

impl<N> View for NodeStore<N> {
    type V = Seq<Option<N>>;

    closed spec fn view(&self) -> Seq<Option<N>> {
        self.slots@
    }
}

impl<N> NodeStore<N> {
    /// The internal invariant: the remembered free indices are exactly the
    /// empty slots, each once.
    pub closed spec fn wf(&self) -> bool {
        &&& self.free@.no_duplicates()
        &&& forall|k: int|
            0 <= k < self.free@.len() ==> {
                &&& #[trigger] self.free@[k] < self.slots@.len()
                &&& self.slots@[self.free@[k] as int] is None
            }
        &&& forall|j: usize|
            j < self.slots@.len() && (#[trigger] self.slots@[j as int]) is None
                ==> self.free@.contains(j)
    }

    /// Number of slots that hold a node.
    pub closed spec fn live_count(&self) -> int {
        self.slots@.len() - self.free@.len()
    }

    /// Indices of the slots that hold a node.
    pub open spec fn occupied(&self) -> Set<int> {
        Set::new(|j: int| 0 <= j < self@.len() && self@[j] is Some)
    }

    /// `live_count` counts the occupied slots.
    pub proof fn lemma_live_count(&self)
        requires
            self.wf(),
        ensures
            self.occupied().finite(),
            self.occupied().len() == self.live_count(),
    {
        let n = self.slots@.len() as int;
        let all = vstd::set_lib::set_int_range(0, n);
        let empty = self.free@.map_values(|k: usize| k as int).to_set();
        vstd::set_lib::lemma_int_range(0, n);
        assert(self.occupied().subset_of(all));
        vstd::set_lib::lemma_len_subset(self.occupied(), all);
        let wide = self.free@.map_values(|k: usize| k as int);
        assert(wide.no_duplicates()) by {
            assert forall|a: int, b: int| 0 <= a < b < wide.len() implies #[trigger] wide[a]
                != #[trigger] wide[b] by {
                assert(self.free@[a] != self.free@[b]);
            }
        }
        wide.unique_seq_to_set();
        assert forall|j: int| #[trigger] empty.contains(j) implies all.contains(j) && !self.occupied().contains(j) by {
            let k = choose|k: int| 0 <= k < wide.len() && wide[k] == j;
            assert(self.free@[k] < self.slots@.len());
        }
        self.lemma_len_fits();
        assert forall|j: int| #[trigger] all.contains(j) && !self.occupied().contains(j) implies empty.contains(j) by {
            let u = j as usize;
            assert(self.slots@[u as int] is None);
            assert(self.free@.contains(u));
            let k = choose|k: int| 0 <= k < self.free@.len() && self.free@[k] == u;
            assert(wide[k] == j);
        }
        assert(self.occupied() + empty =~= all);
        vstd::set_lib::lemma_len_subset(empty, all);
        vstd::set_lib::lemma_set_disjoint_lens(self.occupied(), empty);
    }

    /// The store never has more slots than a `usize` can count.
    pub proof fn lemma_len_fits(&self)
        ensures
            self@.len() <= usize::MAX,
    {
        assert(self.slots@.len() == self.slots.len());
    }

    /// An empty store.
    pub fn new() -> (r: NodeStore<N>)
        ensures
            r.wf(),
            r@ == Seq::<Option<N>>::empty(),
            r.live_count() == 0,
    {
        NodeStore { slots: Vec::new(), free: Vec::new() }
    }

    /// Stores `node` in an empty slot, reusing a released one when there is
    /// one, and returns the slot's index.
    pub fn insert(&mut self, node: N) -> (i: usize)
        requires
            old(self).wf(),
        ensures
            final(self).wf(),
            i < old(self)@.len() ==> old(self)@[i as int] is None && final(self)@ == old(
                self,
            )@.update(i as int, Some(node)),
            i >= old(self)@.len() ==> i == old(self)@.len() && final(self)@ == old(self)@.push(
                Some(node),
            ),
            final(self).live_count() == old(self).live_count() + 1,
    {
        match self.free.pop() {
            Some(i) => {
                assert(old(self).free@.last() == i);
                self.slots[i] = Some(node);
                assert forall|k: int| 0 <= k < self.free@.len() implies #[trigger] self.free@[k]
                    != i by {
                    assert(old(self).free@[k] == self.free@[k]);
                }
                assert(self.free@.no_duplicates()) by {
                    assert forall|a: int, b: int|
                        0 <= a < b < self.free@.len() implies self.free@[a] != self.free@[b] by {
                        assert(old(self).free@[a] == self.free@[a]);
                        assert(old(self).free@[b] == self.free@[b]);
                    }
                }
                assert forall|k: int| 0 <= k < self.free@.len() implies {
                    &&& #[trigger] self.free@[k] < self.slots@.len()
                    &&& self.slots@[self.free@[k] as int] is None
                } by {
                    assert(old(self).free@[k] == self.free@[k]);
                }
                assert forall|j: usize|
                    j < self.slots@.len() && (#[trigger] self.slots@[j as int]) is None implies self.free@.contains(
                    j,
                ) by {
                    assert(j != i);
                    assert(old(self).free@.contains(j));
                    let k = choose|k: int| 0 <= k < old(self).free@.len() && old(self).free@[k] == j;
                    assert(k != old(self).free@.len() - 1);
                    assert(self.free@[k] == j);
                }
                i
            },
            None => {
                let i = self.slots.len();
                self.slots.push(Some(node));
                assert forall|j: usize|
                    j < self.slots@.len() && (#[trigger] self.slots@[j as int]) is None implies self.free@.contains(
                    j,
                ) by {
                    assert(old(self).slots@[j as int] is None);
                }
                i
            },
        }
    }

    /// Takes the node out of slot `i` and releases the slot.
    pub fn remove(&mut self, i: usize) -> (n: N)
        requires
            old(self).wf(),
            i < old(self)@.len(),
            old(self)@[i as int] is Some,
        ensures
            final(self).wf(),
            n == old(self)@[i as int]->Some_0,
            final(self)@ == old(self)@.update(i as int, None),
            final(self).live_count() == old(self).live_count() - 1,
    {
        let n = self.slots[i].take().unwrap();
        assert forall|k: int| 0 <= k < self.free@.len() implies #[trigger] self.free@[k] != i by {}
        self.free.push(i);
        assert(self.free@.no_duplicates()) by {
            assert forall|a: int, b: int|
                0 <= a < b < self.free@.len() implies self.free@[a] != self.free@[b] by {
                if b == self.free@.len() - 1 {
                    assert(old(self).free@[a] == self.free@[a]);
                } else {
                    assert(old(self).free@[a] == self.free@[a]);
                    assert(old(self).free@[b] == self.free@[b]);
                }
            }
        }
        assert forall|k: int| 0 <= k < self.free@.len() implies {
            &&& #[trigger] self.free@[k] < self.slots@.len()
            &&& self.slots@[self.free@[k] as int] is None
        } by {
            if k < self.free@.len() - 1 {
                assert(old(self).free@[k] == self.free@[k]);
            }
        }
        assert forall|j: usize|
            j < self.slots@.len() && (#[trigger] self.slots@[j as int]) is None implies self.free@.contains(
            j,
        ) by {
            if j == i {
                assert(self.free@[self.free@.len() - 1] == i);
            } else {
                assert(old(self).slots@[j as int] is None);
                let k = choose|k: int| 0 <= k < old(self).free@.len() && old(self).free@[k] == j;
                assert(self.free@[k] == j);
            }
        }
        n
    }

    /// The node in slot `i`.
    pub fn get(&self, i: usize) -> (r: &N)
        requires
            i < self@.len(),
            self@[i as int] is Some,
        ensures
            *r == self@[i as int]->Some_0,
    {
        self.slots[i].as_ref().unwrap()
    }

    /// Exclusive access to the node in slot `i`.
    pub fn get_mut(&mut self, i: usize) -> (r: &mut N)
        requires
            old(self).wf(),
            i < old(self)@.len(),
            old(self)@[i as int] is Some,
        ensures
            *r == old(self)@[i as int]->Some_0,
            final(self).wf(),
            final(self)@ == old(self)@.update(i as int, Some(*final(r))),
            final(self)@.len() == old(self)@.len(),
            final(self)@[i as int] == Some(*final(r)),
            final(self).live_count() == old(self).live_count(),
            forall|j: int| 0 <= j < old(self)@.len() && j != i ==> #[trigger] final(self)@[j] == old(self)@[j],
    {
        self.slots[i].as_mut().unwrap()
    }
}

} // verus!
