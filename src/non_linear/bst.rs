use vstd::prelude::*;

use crate::render::{deref_all, listed, render_list};
use core::cmp::Ordering;
use std::fmt::Display;
use vstd::std_specs::cmp::{PartialEqSpec, PartialOrdSpec};

verus! {

/// `a` orders strictly before `b`.
pub open spec fn lt<T: PartialOrd>(a: T, b: T) -> bool {
    a.partial_cmp_spec(&b) == Some(Ordering::Less)
}

/// `==` and `<` on `T` behave as a strict total order whose equality is
/// equality of values.
pub open spec fn total_order<T: PartialOrd>() -> bool {
    &&& T::obeys_eq_spec()
    &&& T::obeys_partial_cmp_spec()
    &&& forall|a: T, b: T| #[trigger] a.eq_spec(&b) <==> a == b
    &&& forall|a: T, b: T| #[trigger] lt(a, b) ==> !lt(b, a) && a != b
    &&& forall|a: T, b: T| a != b ==> #[trigger] lt(a, b) || lt(b, a)
    &&& forall|a: T, b: T, c: T| #[trigger] lt(a, b) && #[trigger] lt(b, c) ==> lt(a, c)
}

/// Every element of `s` orders strictly before the next.
pub open spec fn strictly_ascending<T: PartialOrd>(s: Seq<T>) -> bool {
    forall|i: int, j: int| 0 <= i < j < s.len() ==> lt(#[trigger] s[i], #[trigger] s[j])
}

/// A node of a binary search tree; it owns its two subtrees.
pub struct BSNode<T> {
    pub value: T,
    pub left: Option<Box<BSNode<T>>>,
    pub right: Option<Box<BSNode<T>>>,
}

impl<T> BSNode<T> {
    /// A leaf holding `value`.
    pub fn new(value: T) -> (r: Self)
        ensures
            r.value == value,
            r.left is None,
            r.right is None,
    {
        Self { value, left: None, right: None }
    }

    /// The left subtree.
    pub fn left(&self) -> (r: &Option<Box<BSNode<T>>>)
        ensures
            *r == self.left,
    {
        &self.left
    }

    /// Exclusive access to the left subtree.
    pub fn left_mut(&mut self) -> (r: &mut Option<Box<BSNode<T>>>)
        ensures
            *r == old(self).left,
            final(self).value == old(self).value,
            final(self).left == *final(r),
            final(self).right == old(self).right,
    {
        &mut self.left
    }

    /// The right subtree.
    pub fn right(&self) -> (r: &Option<Box<BSNode<T>>>)
        ensures
            *r == self.right,
    {
        &self.right
    }

    /// Exclusive access to the right subtree.
    pub fn right_mut(&mut self) -> (r: &mut Option<Box<BSNode<T>>>)
        ensures
            *r == old(self).right,
            final(self).value == old(self).value,
            final(self).left == old(self).left,
            final(self).right == *final(r),
    {
        &mut self.right
    }
}

/// Number of levels of a subtree.
pub open spec fn height<T>(link: Option<Box<BSNode<T>>>) -> nat
    decreases link,
{
    match link {
        None => 0,
        Some(n) => {
            let l = height(n.left);
            let r = height(n.right);
            1 + if l > r {
                l
            } else {
                r
            }
        },
    }
}

/// Values of a subtree.
pub open spec fn elems<T>(link: Option<Box<BSNode<T>>>) -> Set<T>
    decreases link,
{
    match link {
        None => Set::empty(),
        Some(n) => elems(n.left).union(elems(n.right)).insert(n.value),
    }
}

/// Number of nodes of a subtree.
pub open spec fn count<T>(link: Option<Box<BSNode<T>>>) -> nat
    decreases link,
{
    match link {
        None => 0,
        Some(n) => count(n.left) + 1 + count(n.right),
    }
}

/// Values of a subtree, left subtree first, then the node, then the right.
pub open spec fn in_order<T>(link: Option<Box<BSNode<T>>>) -> Seq<T>
    decreases link,
{
    match link {
        None => Seq::empty(),
        Some(n) => in_order(n.left) + seq![n.value] + in_order(n.right),
    }
}

/// Values of a subtree, the node first, then its left and right subtrees.
pub open spec fn pre_order<T>(link: Option<Box<BSNode<T>>>) -> Seq<T>
    decreases link,
{
    match link {
        None => Seq::empty(),
        Some(n) => seq![n.value] + pre_order(n.left) + pre_order(n.right),
    }
}

/// Values of a subtree, the left and right subtrees first, then the node.
pub open spec fn post_order<T>(link: Option<Box<BSNode<T>>>) -> Seq<T>
    decreases link,
{
    match link {
        None => Seq::empty(),
        Some(n) => post_order(n.left) + post_order(n.right) + seq![n.value],
    }
}

/// The search-tree order: at every node, the left subtree holds only
/// smaller values and the right subtree only greater ones.
pub open spec fn ordered<T: PartialOrd>(link: Option<Box<BSNode<T>>>) -> bool
    decreases link,
{
    match link {
        None => true,
        Some(n) => {
            &&& ordered(n.left)
            &&& ordered(n.right)
            &&& forall|x: T| #[trigger] elems(n.left).contains(x) ==> lt(x, n.value)
            &&& forall|x: T| #[trigger] elems(n.right).contains(x) ==> lt(n.value, x)
        },
    }
}

/// In an ordered subtree the in-order values ascend strictly, one per
/// node, and are exactly the subtree's values.
pub proof fn lemma_in_order_facts<T: PartialOrd>(link: Option<Box<BSNode<T>>>)
    requires
        total_order::<T>(),
        ordered(link),
    ensures
        strictly_ascending(in_order(link)),
        in_order(link).len() == count(link),
        in_order(link).to_set() == elems(link),
    decreases link,
{
    match link {
        None => {
            assert(in_order(link).to_set() =~= elems(link));
        },
        Some(n) => {
            lemma_in_order_facts(n.left);
            lemma_in_order_facts(n.right);
            let l = in_order(n.left);
            let r = in_order(n.right);
            let s = in_order(link);
            assert(s == l + seq![n.value] + r);
            assert forall|i: int| 0 <= i < l.len() implies lt(#[trigger] l[i], n.value) by {
                assert(l.to_set().contains(l[i]));
            }
            assert forall|j: int| 0 <= j < r.len() implies lt(n.value, #[trigger] r[j]) by {
                assert(r.to_set().contains(r[j]));
            }
            assert forall|i: int, j: int| 0 <= i < j < s.len() implies lt(
                #[trigger] s[i],
                #[trigger] s[j],
            ) by {
                let a = l.len() as int;
                if j < a {
                    assert(s[i] == l[i] && s[j] == l[j]);
                } else if i > a {
                    assert(s[i] == r[i - a - 1] && s[j] == r[j - a - 1]);
                } else if i == a {
                    assert(s[j] == r[j - a - 1]);
                } else if j == a {
                    assert(s[i] == l[i]);
                } else {
                    assert(s[i] == l[i] && s[j] == r[j - a - 1]);
                    assert(lt(l[i], n.value));
                    assert(lt(n.value, r[j - a - 1]));
                }
            }
            assert forall|x: T| s.to_set().contains(x) <==> elems(link).contains(x) by {
                if s.contains(x) {
                    let i = choose|i: int| 0 <= i < s.len() && s[i] == x;
                    let a = l.len() as int;
                    if i < a {
                        assert(l[i] == x);
                        assert(l.to_set().contains(x));
                    } else if i > a {
                        assert(r[i - a - 1] == x);
                        assert(r.to_set().contains(x));
                    }
                }
                if elems(link).contains(x) {
                    if l.to_set().contains(x) {
                        let i = choose|i: int| 0 <= i < l.len() && l[i] == x;
                        assert(s[i] == x);
                    } else if r.to_set().contains(x) {
                        let i = choose|i: int| 0 <= i < r.len() && r[i] == x;
                        assert(s[i + l.len() + 1] == x);
                    } else {
                        assert(s[l.len() as int] == x);
                    }
                }
            }
            assert(s.to_set() =~= elems(link));
        },
    }
}

/// Inserts `value` into a subtree unless it is already there; returns the
/// new subtree and whether a node was added.
fn insert_into<T: PartialOrd>(link: Option<Box<BSNode<T>>>, value: T) -> (r: (
    Option<Box<BSNode<T>>>,
    bool,
))
    requires
        total_order::<T>(),
        ordered(link),
    ensures
        ordered(r.0),
        elems(r.0) == elems(link).insert(value),
        r.1 == !elems(link).contains(value),
        r.1 ==> count(r.0) == count(link) + 1,
        !r.1 ==> r.0 == link,
    decreases link,
{
    match link {
        None => {
            let leaf = BSNode::new(value);
            assert(elems::<T>(None) == Set::<T>::empty());
            assert(elems(Some(Box::new(leaf))) =~= Set::<T>::empty().insert(value));
            (Some(Box::new(leaf)), true)
        },
        Some(b) => {
            let BSNode { value: v, left, right } = *b;
            proof {
                assert(ordered(left) && ordered(right));
            }
            if value == v {
                proof {
                    assert(elems(link) =~= elems(link).insert(value));
                }
                (Some(Box::new(BSNode { value: v, left, right })), false)
            } else if value < v {
                let (l, added) = insert_into(left, value);
                proof {
                    assert(!elems(right).contains(value)) by {
                        if elems(right).contains(value) {
                            assert(lt(v, value));
                        }
                    }
                }
                let r = Some(Box::new(BSNode { value: v, left: l, right }));
                proof {
                    assert(elems(r) =~= elems(link).insert(value));
                }
                (r, added)
            } else {
                let (rt, added) = insert_into(right, value);
                proof {
                    assert(lt(v, value));
                    assert(!elems(left).contains(value)) by {
                        if elems(left).contains(value) {
                            assert(lt(value, v));
                        }
                    }
                }
                let r = Some(Box::new(BSNode { value: v, left, right: rt }));
                proof {
                    assert(elems(r) =~= elems(link).insert(value));
                }
                (r, added)
            }
        },
    }
}

/// Detaches the node with the greatest value of the subtree rooted at
/// `node`: returns what is left of the subtree and that node, with no
/// children of its own.
fn take_max<T: PartialOrd>(node: Box<BSNode<T>>) -> (r: (Option<Box<BSNode<T>>>, Box<BSNode<T>>))
    requires
        total_order::<T>(),
        ordered(Some(node)),
    ensures
        ordered(r.0),
        r.1.left is None,
        r.1.right is None,
        elems(Some(node)) == elems(r.0).insert(r.1.value),
        !elems(r.0).contains(r.1.value),
        forall|x: T| #[trigger] elems(r.0).contains(x) ==> lt(x, r.1.value),
        count(r.0) + 1 == count(Some(node)),
    decreases node,
{
    let BSNode { value, left, right } = *node;
    match right {
        None => {
            let top = Box::new(BSNode::new(value));
            proof {
                assert(elems::<T>(None) == Set::<T>::empty());
                assert(count::<T>(None) == 0);
                assert(elems(Some(node)) =~= elems(left).insert(value));
                assert forall|x: T| #[trigger] elems(left).contains(x) implies x != value by {
                    assert(lt(x, value));
                }
            }
            (left, top)
        },
        Some(rb) => {
            let (rest, top) = take_max(rb);
            proof {
                assert(elems(Some(rb)).contains(top.value));
                assert(lt(value, top.value));
                assert forall|x: T| #[trigger] elems(rest).contains(x) implies lt(value, x) by {
                    assert(elems(Some(rb)).contains(x));
                }
            }
            let r = Some(Box::new(BSNode { value, left, right: rest }));
            proof {
                assert(elems(Some(node)) =~= elems(r).insert(top.value));
                assert forall|x: T| #[trigger] elems(r).contains(x) implies lt(x, top.value) by {
                    if elems(left).contains(x) {
                        assert(lt(x, value));
                    }
                }
            }
            (r, top)
        },
    }
}

/// Detaches the node with the least value of the subtree rooted at
/// `node`: returns what is left of the subtree and that node, with no
/// children of its own.
fn take_min<T: PartialOrd>(node: Box<BSNode<T>>) -> (r: (Option<Box<BSNode<T>>>, Box<BSNode<T>>))
    requires
        total_order::<T>(),
        ordered(Some(node)),
    ensures
        ordered(r.0),
        r.1.left is None,
        r.1.right is None,
        elems(Some(node)) == elems(r.0).insert(r.1.value),
        !elems(r.0).contains(r.1.value),
        forall|x: T| #[trigger] elems(r.0).contains(x) ==> lt(r.1.value, x),
        count(r.0) + 1 == count(Some(node)),
    decreases node,
{
    let BSNode { value, left, right } = *node;
    match left {
        None => {
            let top = Box::new(BSNode::new(value));
            proof {
                assert(elems::<T>(None) == Set::<T>::empty());
                assert(count::<T>(None) == 0);
                assert(elems(Some(node)) =~= elems(right).insert(value));
                assert forall|x: T| #[trigger] elems(right).contains(x) implies x != value by {
                    assert(lt(value, x));
                }
            }
            (right, top)
        },
        Some(lb) => {
            let (rest, top) = take_min(lb);
            proof {
                assert(elems(Some(lb)).contains(top.value));
                assert(lt(top.value, value));
                assert forall|x: T| #[trigger] elems(rest).contains(x) implies lt(x, value) by {
                    assert(elems(Some(lb)).contains(x));
                }
            }
            let r = Some(Box::new(BSNode { value, left: rest, right }));
            proof {
                assert(elems(Some(node)) =~= elems(r).insert(top.value));
                assert forall|x: T| #[trigger] elems(r).contains(x) implies lt(top.value, x) by {
                    if elems(right).contains(x) {
                        assert(lt(value, x));
                    }
                }
            }
            (r, top)
        },
    }
}

/// What replaces a removed node whose subtrees are `left` and `right`: the
/// greatest node of `left` when there is one, else the least node of
/// `right`, else nothing.
fn splice<T: PartialOrd>(left: Option<Box<BSNode<T>>>, right: Option<Box<BSNode<T>>>, ghost_value: Ghost<T>) -> (r: Option<Box<BSNode<T>>>)
    requires
        total_order::<T>(),
        ordered(left),
        ordered(right),
        forall|x: T| #[trigger] elems(left).contains(x) ==> lt(x, ghost_value@),
        forall|x: T| #[trigger] elems(right).contains(x) ==> lt(ghost_value@, x),
    ensures
        ordered(r),
        elems(r) == elems(left).union(elems(right)),
        count(r) == count(left) + count(right),
{
    match left {
        Some(lb) => {
            let (rest, mut top) = take_max(lb);
            proof {
                assert(elems(Some(lb)).contains(top.value));
                assert forall|x: T| #[trigger] elems(right).contains(x) implies lt(top.value, x) by {
                    assert(lt(top.value, ghost_value@));
                }
            }
            top.left = rest;
            top.right = right;
            let r = Some(top);
            proof {
                assert(elems(r) =~= elems(Some(lb)).union(elems(right)));
            }
            r
        },
        None => match right {
            Some(rb) => {
                let (rest, mut top) = take_min(rb);
                top.right = rest;
                let r = Some(top);
                proof {
                    assert(elems(r) =~= elems(left).union(elems(Some(rb))));
                }
                r
            },
            None => {
                assert(elems::<T>(None) =~= elems(left).union(elems(right)));
                None
            },
        },
    }
}

/// Removes the node holding `value` from a subtree, if there is one;
/// returns the new subtree and the removed value.
fn remove_from<T: PartialOrd>(link: Option<Box<BSNode<T>>>, value: &T) -> (r: (
    Option<Box<BSNode<T>>>,
    Option<T>,
))
    requires
        total_order::<T>(),
        ordered(link),
    ensures
        ordered(r.0),
        elems(r.0) == elems(link).remove(*value),
        r.1 is Some <==> elems(link).contains(*value),
        r.1 matches Some(v) ==> v == *value,
        r.1 is Some ==> count(r.0) + 1 == count(link),
        r.1 is None ==> r.0 == link,
    decreases link,
{
    match link {
        None => {
            assert(elems::<T>(None) =~= elems(link).remove(*value));
            (None, None)
        },
        Some(b) => {
            let BSNode { value: v, left, right } = *b;
            if *value == v {
                let rest = splice(left, right, Ghost(v));
                proof {
                    assert(!elems(left).contains(v)) by {
                        if elems(left).contains(v) {
                            assert(lt(v, v));
                        }
                    }
                    assert(!elems(right).contains(v)) by {
                        if elems(right).contains(v) {
                            assert(lt(v, v));
                        }
                    }
                    assert(elems(rest) =~= elems(link).remove(*value));
                }
                (rest, Some(v))
            } else if *value < v {
                let (l, got) = remove_from(left, value);
                let r = Some(Box::new(BSNode { value: v, left: l, right }));
                proof {
                    assert(!elems(right).contains(*value)) by {
                        if elems(right).contains(*value) {
                            assert(lt(v, *value));
                        }
                    }
                    assert forall|x: T| #[trigger] elems(l).contains(x) implies lt(x, v) by {
                        assert(elems(left).contains(x));
                    }
                    assert(elems(r) =~= elems(link).remove(*value));
                }
                (r, got)
            } else {
                let (rt, got) = remove_from(right, value);
                let r = Some(Box::new(BSNode { value: v, left, right: rt }));
                proof {
                    assert(lt(v, *value));
                    assert(!elems(left).contains(*value)) by {
                        if elems(left).contains(*value) {
                            assert(lt(*value, v));
                        }
                    }
                    assert forall|x: T| #[trigger] elems(rt).contains(x) implies lt(v, x) by {
                        assert(elems(right).contains(x));
                    }
                    assert(elems(r) =~= elems(link).remove(*value));
                }
                (r, got)
            }
        },
    }
}

/// A subtree has one in-order value per node.
pub proof fn lemma_in_order_len<T>(link: Option<Box<BSNode<T>>>)
    ensures
        in_order(link).len() == count(link),
    decreases link,
{
    if let Some(n) = link {
        lemma_in_order_len(n.left);
        lemma_in_order_len(n.right);
    }
}

/// The subtree that an optional shared reference points at.
pub open spec fn link_of<T>(root: Option<&Box<BSNode<T>>>) -> Option<Box<BSNode<T>>> {
    match root {
        Some(b) => Some(*b),
        None => None,
    }
}

/// An unbalanced binary search tree without duplicate values.
pub struct BSTree<T: PartialOrd + PartialEq> {
    root: Option<Box<BSNode<T>>>,
    size: usize,
}

impl<T: PartialOrd + PartialEq> View for BSTree<T> {
    type V = Set<T>;

    /// The values held.
    closed spec fn view(&self) -> Set<T> {
        elems(self.root)
    }
}

impl<T: PartialOrd + PartialEq> BSTree<T> {
    /// The internal invariant: the search-tree order holds and `size`
    /// counts the nodes.
    pub closed spec fn wf(&self) -> bool {
        &&& ordered(self.root)
        &&& count(self.root) == self.size
    }

    /// The values in in-order (ascending) order.
    pub closed spec fn values_in_order(&self) -> Seq<T> {
        in_order(self.root)
    }

    /// The values in pre-order: each node before its subtrees.
    pub closed spec fn values_pre_order(&self) -> Seq<T> {
        pre_order(self.root)
    }

    /// The values in post-order: each node after its subtrees.
    pub closed spec fn values_post_order(&self) -> Seq<T> {
        post_order(self.root)
    }

    /// An empty tree.
    pub fn new() -> (r: Self)
        ensures
            r.wf(),
            r@ == Set::<T>::empty(),
            r.values_in_order() == Seq::<T>::empty(),
    {
        let r = Self { root: None, size: 0 };
        assert(r@ =~= Set::<T>::empty());
        r
    }

    /// Number of values.
    pub fn size(&self) -> (r: usize)
        requires
            self.wf(),
        ensures
            r == self.values_in_order().len(),
            total_order::<T>() ==> r == self@.len(),
    {
        proof {
            lemma_in_order_len(self.root);
            if total_order::<T>() {
                Self::lemma_size_is_distinct_count(self);
            }
        }
        self.size
    }

    /// Adds `value` unless an equal value is already there, in which case
    /// the tree is left as it was.
    pub fn insert(&mut self, value: T)
        requires
            old(self).wf(),
            total_order::<T>(),
            !old(self)@.contains(value) ==> old(self).values_in_order().len() < usize::MAX,
        ensures
            final(self).wf(),
            final(self)@ == old(self)@.insert(value),
            old(self)@.contains(value) ==> *final(self) == *old(self),
            !old(self)@.contains(value) ==> final(self).values_in_order().len() == old(
                self,
            ).values_in_order().len() + 1,
    {
        proof {
            lemma_in_order_facts(self.root);
        }
        let root = self.root.take();
        let (new_root, added) = insert_into(root, value);
        self.root = new_root;
        if added {
            self.size = self.size + 1;
        }
        proof {
            lemma_in_order_facts(self.root);
        }
    }

    /// Link holding the node with `value`, or the empty link where such a
    /// node would be attached.
    fn find_node(&self, value: &T) -> (r: &Option<Box<BSNode<T>>>)
        requires
            self.wf(),
            total_order::<T>(),
        ensures
            r is Some <==> self@.contains(*value),
            r matches Some(n) ==> n.value == *value,
    {
        let mut checking: &Option<Box<BSNode<T>>> = &self.root;
        loop
            invariant
                total_order::<T>(),
                ordered(*checking),
                elems(*checking).contains(*value) <==> elems(self.root).contains(*value),
            decreases height(*checking),
        {
            match checking {
                None => {
                    return checking;
                },
                Some(node) => {
                    if node.value == *value {
                        return checking;
                    }
                    if *value < node.value {
                        proof {
                            assert(!elems(node.right).contains(*value)) by {
                                if elems(node.right).contains(*value) {
                                    assert(lt(node.value, *value));
                                }
                            }
                        }
                        checking = &node.left;
                    } else {
                        proof {
                            assert(lt(node.value, *value));
                            assert(!elems(node.left).contains(*value)) by {
                                if elems(node.left).contains(*value) {
                                    assert(lt(*value, node.value));
                                }
                            }
                        }
                        checking = &node.right;
                    }
                },
            }
        }
    }

    /// The stored value equal to `value`; `None` when there is none.
    pub fn find(&self, value: &T) -> (r: Option<&T>)
        requires
            self.wf(),
            total_order::<T>(),
        ensures
            r is Some <==> self@.contains(*value),
            r matches Some(x) ==> *x == *value,
    {
        match self.find_node(value) {
            None => None,
            Some(node) => Some(&node.value),
        }
    }

    /// Removes the value equal to `value` and returns it; when there is none
    /// the tree is left as it was. A node with a left subtree is replaced by
    /// the greatest node of that subtree, else one with a right subtree by
    /// the least node of that one.
    pub fn remove(&mut self, value: &T) -> (r: Option<T>)
        requires
            old(self).wf(),
            total_order::<T>(),
        ensures
            final(self).wf(),
            final(self)@ == old(self)@.remove(*value),
            r is Some <==> old(self)@.contains(*value),
            r matches Some(v) ==> v == *value,
            r is None ==> *final(self) == *old(self),
            r is Some ==> final(self).values_in_order().len() + 1 == old(self).values_in_order().len(),
    {
        proof {
            lemma_in_order_facts(self.root);
        }
        let root = self.root.take();
        let (new_root, removed) = remove_from(root, value);
        self.root = new_root;
        if removed.is_some() {
            self.size = self.size - 1;
        }
        proof {
            lemma_in_order_facts(self.root);
        }
        removed
    }

    /// Appends to `vec` references to the values of the subtree at `root`,
    /// in in-order.
    pub fn in_order_values_builder<'a>(root: Option<&'a Box<BSNode<T>>>, vec: &mut Vec<&'a T>)
        ensures
            deref_all(final(vec)@) == deref_all(old(vec)@) + in_order(link_of(root)),
        decreases link_of(root),
    {
        if let Some(node) = root {
            Self::in_order_values_builder(node.left.as_ref(), vec);
            let ghost mid = vec@;
            vec.push(&node.value);
            assert(deref_all(vec@) =~= deref_all(mid).push(node.value));
            Self::in_order_values_builder(node.right.as_ref(), vec);
            assert(deref_all(vec@) =~= deref_all(old(vec)@) + in_order(link_of(root)));
        } else {
            assert(deref_all(vec@) =~= deref_all(old(vec)@) + in_order(link_of(root)));
        }
    }

    /// References to the values in in-order: strictly ascending.
    pub fn in_order_values(&self) -> (r: Vec<&T>)
        ensures
            deref_all(r@) == self.values_in_order(),
    {
        let mut vec: Vec<&T> = Vec::new();
        Self::in_order_values_builder(self.root.as_ref(), &mut vec);
        assert(deref_all(Seq::<&T>::empty()) =~= Seq::<T>::empty());
        assert(Seq::<T>::empty() + self.values_in_order() =~= self.values_in_order());
        vec
    }

    /// Appends to `vec` references to the values of the subtree at `root`,
    /// in pre-order.
    pub fn pre_order_values_builder<'a>(root: Option<&'a Box<BSNode<T>>>, vec: &mut Vec<&'a T>)
        ensures
            deref_all(final(vec)@) == deref_all(old(vec)@) + pre_order(link_of(root)),
        decreases link_of(root),
    {
        if let Some(node) = root {
            let ghost start = vec@;
            vec.push(&node.value);
            assert(deref_all(vec@) =~= deref_all(start).push(node.value));
            Self::pre_order_values_builder(node.left.as_ref(), vec);
            Self::pre_order_values_builder(node.right.as_ref(), vec);
            assert(deref_all(vec@) =~= deref_all(old(vec)@) + pre_order(link_of(root)));
        } else {
            assert(deref_all(vec@) =~= deref_all(old(vec)@) + pre_order(link_of(root)));
        }
    }

    /// References to the values in pre-order.
    pub fn pre_order_values(&self) -> (r: Vec<&T>)
        ensures
            deref_all(r@) == self.values_pre_order(),
    {
        let mut vec: Vec<&T> = Vec::new();
        Self::pre_order_values_builder(self.root.as_ref(), &mut vec);
        assert(deref_all(Seq::<&T>::empty()) =~= Seq::<T>::empty());
        assert(Seq::<T>::empty() + self.values_pre_order() =~= self.values_pre_order());
        vec
    }

    /// Appends to `vec` references to the values of the subtree at `root`,
    /// in post-order.
    pub fn post_order_values_builder<'a>(root: Option<&'a Box<BSNode<T>>>, vec: &mut Vec<&'a T>)
        ensures
            deref_all(final(vec)@) == deref_all(old(vec)@) + post_order(link_of(root)),
        decreases link_of(root),
    {
        if let Some(node) = root {
            Self::post_order_values_builder(node.left.as_ref(), vec);
            Self::post_order_values_builder(node.right.as_ref(), vec);
            let ghost mid = vec@;
            vec.push(&node.value);
            assert(deref_all(vec@) =~= deref_all(mid).push(node.value));
            assert(deref_all(vec@) =~= deref_all(old(vec)@) + post_order(link_of(root)));
        } else {
            assert(deref_all(vec@) =~= deref_all(old(vec)@) + post_order(link_of(root)));
        }
    }

    /// References to the values in post-order.
    pub fn post_order_values(&self) -> (r: Vec<&T>)
        ensures
            deref_all(r@) == self.values_post_order(),
    {
        let mut vec: Vec<&T> = Vec::new();
        Self::post_order_values_builder(self.root.as_ref(), &mut vec);
        assert(deref_all(Seq::<&T>::empty()) =~= Seq::<T>::empty());
        assert(Seq::<T>::empty() + self.values_post_order() =~= self.values_post_order());
        vec
    }

    /// The values in in-order, written as `[a, b, c]`.
    pub fn in_order_str(&self) -> (r: String) where T: Display
        ensures
            listed(self.values_in_order(), "["@, ", "@, "]"@, r@),
    {
        let values = self.in_order_values();
        render_list(&values, "[", ", ", "]")
    }

    /// After removing a value that the tree holds, the tree has one value
    /// fewer and no longer holds it; removing an absent value changes
    /// nothing.
    pub proof fn lemma_remove_then_find(tree: &Self, value: T)
        requires
            tree.wf(),
            total_order::<T>(),
        ensures
            !tree@.remove(value).contains(value),
            tree@.contains(value) ==> tree@.remove(value).len() + 1 == tree@.len(),
            !tree@.contains(value) ==> tree@.remove(value) == tree@,
    {
        Self::lemma_size_is_distinct_count(tree);
        assert(tree@.finite());
        if !tree@.contains(value) {
            assert(tree@.remove(value) =~= tree@);
        }
    }

    /// In an ordered tree the in-order values ascend strictly and the size
    /// is the number of distinct values.
    pub proof fn lemma_size_is_distinct_count(tree: &Self)
        requires
            tree.wf(),
            total_order::<T>(),
        ensures
            strictly_ascending(tree.values_in_order()),
            tree.values_in_order().to_set() == tree@,
            tree.values_in_order().len() == tree@.len(),
            tree.values_in_order().no_duplicates(),
    {
        lemma_in_order_facts(tree.root);
        let s = in_order(tree.root);
        assert(s.no_duplicates()) by {
            assert forall|i: int, j: int| 0 <= i < s.len() && 0 <= j < s.len() && i != j implies s[i] != s[j] by {
                if i < j {
                    assert(lt(s[i], s[j]));
                } else {
                    assert(lt(s[j], s[i]));
                }
            }
        }
        s.unique_seq_to_set();
    }
}

} // verus!
