//! A doubly-linked sequence container.
//!
//! Nodes are stored one per slot in an arena owned by the container, and the
//! chain is threaded through them by slot indices: each node carries a
//! forward edge to its successor and a backward edge to its predecessor.
//! The slot is the single owner of its node, so the backward edge is pure
//! bookkeeping and can never free anything. The container's abstract value
//! is the sequence of its elements in insertion order, and every operation
//! is specified against that sequence.

use vstd::prelude::*;

verus! {

/// One link of the chain: a stored element together with the slot indices
/// of its successor and predecessor, either of which may be absent.
struct Node<T> {
    element: T,
    next: Option<usize>,
    prev: Option<usize>,
}

impl<T> Node<T> {
    /// A detached node: both edges absent.
    fn new(element: T) -> (r: Self)
        ensures
            r.element == element,
            r.next is None,
            r.prev is None,
    {
        Node { element, next: None, prev: None }
    }

    /// Surrenders the stored element.
    fn into_element(self) -> (r: T)
        ensures
            r == self.element,
    {
        self.element
    }
}

/// A sequence container with O(1) insertion and removal at both ends.
///
/// `nodes` is the arena: a vacated slot holds `None` and is never followed.
/// `head` and `tail` are the slot indices of the first and last node, both
/// absent exactly when the container is empty. `len` counts the live nodes.
/// The ghost `order` lists the live slot indices from front to back and ties
/// the pointer graph to the abstract sequence.
pub struct MyLinkedList<T> {
    nodes: Vec<Option<Node<T>>>,
    head: Option<usize>,
    tail: Option<usize>,
    len: usize,
    order: Ghost<Seq<usize>>,
}

impl<T> View for MyLinkedList<T> {
    type V = Seq<T>;

    /// The elements in insertion order, front first.
    closed spec fn view(&self) -> Seq<T> {
        Seq::new(
            self.order@.len(),
            |k: int| self.nodes@[self.order@[k] as int].unwrap().element,
        )
    }
}

impl<T> MyLinkedList<T> {
    /// The node holding the `k`-th element of the chain.
    spec fn node_at(&self, k: int) -> Node<T> {
        self.nodes@[self.order@[k] as int].unwrap()
    }

    /// The `k`-th position of the chain refers to an occupied arena slot.
    spec fn slot_live(&self, k: int) -> bool {
        &&& (self.order@[k] as int) < self.nodes@.len()
        &&& self.nodes@[self.order@[k] as int] is Some
    }

    /// The `k`-th node's edges point at its chain neighbours: forward to
    /// the successor, absent at the back; backward to the predecessor,
    /// absent at the front.
    spec fn links_ok(&self, k: int) -> bool {
        &&& self.node_at(k).next == (
            if k + 1 == self.order@.len() { None::<usize> } else { Some(self.order@[k + 1]) }
        )
        &&& self.node_at(k).prev == (
            if k == 0 { None::<usize> } else { Some(self.order@[k - 1]) }
        )
    }

    /// The container invariant. `head` and `tail` are absent exactly when
    /// the container is empty; otherwise they name the first and last live
    /// slot. Every live slot is occupied, no slot appears twice in the
    /// chain (single ownership), and the forward/backward edges mirror
    /// each other along the chain.
    pub closed spec fn well_formed(&self) -> bool {
        &&& self.order@.len() == self.len
        &&& self.len <= self.nodes@.len()
        &&& (forall|k: int| 0 <= k < self.order@.len() ==> #[trigger] self.slot_live(k))
        &&& (forall|k: int| 0 <= k < self.order@.len() ==> #[trigger] self.links_ok(k))
        &&& (forall|k1: int, k2: int|
            #![trigger self.order@[k1], self.order@[k2]]
            0 <= k1 < k2 < self.order@.len() ==> self.order@[k1] != self.order@[k2])
        &&& self.head == (if self.len == 0 { None::<usize> } else { Some(self.order@[0]) })
        &&& self.tail == (
            if self.len == 0 { None::<usize> } else { Some(self.order@[self.len - 1]) }
        )
    }

    /// An empty container.
    pub fn new() -> (r: Self)
        ensures
            r.well_formed(),
            r@ == Seq::<T>::empty(),
    {
        let r = MyLinkedList {
            nodes: Vec::new(),
            head: None,
            tail: None,
            len: 0,
            order: Ghost(Seq::empty()),
        };
        proof {
            assert(r@ =~= Seq::<T>::empty());
        }
        r
    }

    /// The number of elements currently held.
    pub fn len(&self) -> (r: usize)
        requires
            self.well_formed(),
        ensures
            r == self@.len(),
    {
        self.len
    }

    /// Links a detached node at the back of the chain: the node's backward
    /// edge is pointed at the current back node, the current back node's
    /// forward edge is pointed at the new node, and the new node becomes
    /// the tail (and the head too, if the chain was empty).
    fn push_back_node(&mut self, node: Node<T>)
        requires
            old(self).well_formed(),
        ensures
            final(self).well_formed(),
            final(self)@ == old(self)@.push(node.element),
    {
        let ghost elem = node.element;
        let mut node = node;
        node.next = None;
        node.prev = self.tail;
        let i = self.nodes.len();
        proof {
            if old(self).len > 0 {
                assert(old(self).slot_live(old(self).len - 1));
            }
        }
        self.nodes.push(Some(node));
        match self.tail {
            None => {
                self.head = Some(i);
            }
            Some(t) => {
                let slot = &mut self.nodes[t];
                match slot {
                    Some(n) => {
                        n.next = Some(i);
                    }
                    None => {
                        proof {
                            assert(false);
                        }
                    }
                }
            }
        }
        self.tail = Some(i);
        proof {
            // the arena length fits in a machine word, and `len` stays below it
            assert(self.nodes@.len() == vstd::std_specs::vec::spec_vec_len(&self.nodes));
        }
        self.len = self.len + 1;
        self.order = Ghost(self.order@.push(i));
        proof {
            let old_ord = old(self).order@;
            let ord = self.order@;
            let old_n = old_ord.len() as int;
            assert forall|k: int| 0 <= k < ord.len() implies self.slot_live(k) by {
                if k < old_n {
                    assert(old(self).slot_live(k));
                }
            }
            assert forall|k: int| 0 <= k < ord.len() implies self.links_ok(k) by {
                if k < old_n {
                    assert(old(self).links_ok(k));
                    assert(old(self).slot_live(k));
                    if k < old_n - 1 {
                        assert(old_ord[k] != old_ord[old_n - 1]);
                    }
                }
            }
            assert forall|k1: int, k2: int|
                0 <= k1 < k2 < ord.len() implies ord[k1] != ord[k2] by {
                if k2 < old_n {
                    assert(old_ord[k1] != old_ord[k2]);
                } else {
                    assert(old(self).slot_live(k1));
                }
            }
            assert forall|k: int| 0 <= k < old_n implies self@[k] == old(self)@[k] by {
                assert(old(self).slot_live(k));
                if k < old_n - 1 {
                    assert(old_ord[k] != old_ord[old_n - 1]);
                }
            }
            assert(self@[old_n] == elem);
            assert(self@ =~= old(self)@.push(elem));
        }
    }

    /// Detaches and returns the front node, absent if the chain is empty.
    /// The detached node's successor, if any, becomes the head and loses
    /// its backward edge; if there is none, the chain is now empty and the
    /// tail is cleared too.
    fn pop_front_node(&mut self) -> (r: Option<Node<T>>)
        requires
            old(self).well_formed(),
        ensures
            final(self).well_formed(),
            old(self)@.len() == 0 ==> r is None && final(self)@ == old(self)@,
            old(self)@.len() > 0 ==> {
                &&& r matches Some(node) && node.element == old(self)@[0]
                &&& final(self)@ == old(self)@.drop_first()
            },
    {
        match self.head {
            None => None,
            Some(h) => {
                proof {
                    assert(old(self).slot_live(0));
                    assert(old(self).links_ok(0));
                }
                let slot = &mut self.nodes[h];
                let taken = slot.take();
                match taken {
                    Some(node) => {
                        self.head = node.next;
                        match node.next {
                            None => {
                                self.tail = None;
                            }
                            Some(nh) => {
                                proof {
                                    assert(old(self).slot_live(1));
                                    assert(old(self).order@[0] != old(self).order@[1]);
                                }
                                let slot2 = &mut self.nodes[nh];
                                match slot2 {
                                    Some(n2) => {
                                        n2.prev = None;
                                    }
                                    None => {
                                        proof {
                                            assert(false);
                                        }
                                    }
                                }
                            }
                        }
                        self.len = self.len - 1;
                        self.order = Ghost(self.order@.drop_first());
                        proof {
                            let old_ord = old(self).order@;
                            let ord = self.order@;
                            let n = old_ord.len() as int;
                            assert forall|k: int| 0 <= k < ord.len() implies self.slot_live(k) by {
                                assert(old(self).slot_live(k + 1));
                                assert(old_ord[0] != old_ord[k + 1]);
                            }
                            assert forall|k: int| 0 <= k < ord.len() implies self.links_ok(k) by {
                                assert(old(self).slot_live(k + 1));
                                assert(old(self).links_ok(k + 1));
                                assert(old_ord[0] != old_ord[k + 1]);
                                if n >= 2 && k >= 1 {
                                    assert(old_ord[1] != old_ord[k + 1]);
                                }
                            }
                            assert forall|k1: int, k2: int|
                                0 <= k1 < k2 < ord.len() implies ord[k1] != ord[k2] by {
                                assert(old_ord[k1 + 1] != old_ord[k2 + 1]);
                            }
                            assert forall|k: int| 0 <= k < ord.len() implies self@[k] == old(self)@[k + 1] by {
                                assert(old(self).slot_live(k + 1));
                                assert(old_ord[0] != old_ord[k + 1]);
                                if n >= 2 && k >= 1 {
                                    assert(old_ord[1] != old_ord[k + 1]);
                                }
                            }
                            assert(self@ =~= old(self)@.drop_first());
                        }
                        Some(node)
                    }
                    None => {
                        proof {
                            assert(false);
                        }
                        None
                    }
                }
            }
        }
    }

    /// Removes and returns the front element, absent if the container is
    /// empty. On an empty container this is a no-op that reports absence.
    pub fn pop_front(&mut self) -> (r: Option<T>)
        requires
            old(self).well_formed(),
        ensures
            final(self).well_formed(),
            old(self)@.len() == 0 ==> r is None && final(self)@ == old(self)@,
            old(self)@.len() > 0 ==> r == Some(old(self)@[0]) && final(self)@ == old(self)@.drop_first(),
    {
        match self.pop_front_node() {
            Some(node) => Some(node.into_element()),
            None => None,
        }
    }

    /// Removes and returns the back element, absent if the container is
    /// empty. The detached node's predecessor, if any, becomes the tail and
    /// loses its forward edge; if there is none, the head is cleared too.
    pub fn pop_back(&mut self) -> (r: Option<T>)
        requires
            old(self).well_formed(),
        ensures
            final(self).well_formed(),
            old(self)@.len() == 0 ==> r is None && final(self)@ == old(self)@,
            old(self)@.len() > 0 ==> r == Some(old(self)@.last()) && final(self)@ == old(self)@.drop_last(),
    {
        match self.tail {
            None => None,
            Some(t) => {
                proof {
                    assert(old(self).slot_live(old(self).len - 1));
                    assert(old(self).links_ok(old(self).len - 1));
                }
                let slot = &mut self.nodes[t];
                let taken = slot.take();
                match taken {
                    Some(node) => {
                        self.tail = node.prev;
                        match node.prev {
                            None => {
                                self.head = None;
                            }
                            Some(pt) => {
                                proof {
                                    assert(old(self).slot_live(old(self).len - 2));
                                    assert(old(self).order@[old(self).len - 2] != old(self).order@[old(self).len - 1]);
                                }
                                let slot2 = &mut self.nodes[pt];
                                match slot2 {
                                    Some(n2) => {
                                        n2.next = None;
                                    }
                                    None => {
                                        proof {
                                            assert(false);
                                        }
                                    }
                                }
                            }
                        }
                        self.len = self.len - 1;
                        self.order = Ghost(self.order@.drop_last());
                        proof {
                            let old_ord = old(self).order@;
                            let ord = self.order@;
                            let n = old_ord.len() as int;
                            assert forall|k: int| 0 <= k < ord.len() implies self.slot_live(k) by {
                                assert(old(self).slot_live(k));
                                assert(old_ord[k] != old_ord[n - 1]);
                            }
                            assert forall|k: int| 0 <= k < ord.len() implies self.links_ok(k) by {
                                assert(old(self).slot_live(k));
                                assert(old(self).links_ok(k));
                                assert(old_ord[k] != old_ord[n - 1]);
                                if n >= 2 && k < n - 2 {
                                    assert(old_ord[k] != old_ord[n - 2]);
                                }
                            }
                            assert forall|k1: int, k2: int|
                                0 <= k1 < k2 < ord.len() implies ord[k1] != ord[k2] by {
                                assert(old_ord[k1] != old_ord[k2]);
                            }
                            assert forall|k: int| 0 <= k < ord.len() implies self@[k] == old(self)@[k] by {
                                assert(old(self).slot_live(k));
                                assert(old_ord[k] != old_ord[n - 1]);
                                if n >= 2 && k < n - 2 {
                                    assert(old_ord[k] != old_ord[n - 2]);
                                }
                            }
                            assert(self@ =~= old(self)@.drop_last());
                        }
                        Some(node.into_element())
                    }
                    None => {
                        proof {
                            assert(false);
                        }
                        None
                    }
                }
            }
        }
    }

    /// Prepends `element` at the front: the new node's forward edge is
    /// pointed at the current head, the current head's backward edge is
    /// pointed at the new node, and the new node becomes the head (and the
    /// tail too, if the chain was empty). Mirror of `push_back`.
    pub fn push_front(&mut self, element: T)
        requires
            old(self).well_formed(),
        ensures
            final(self).well_formed(),
            final(self)@ == seq![element] + old(self)@,
    {
        let ghost elem = element;
        let mut node = Node::new(element);
        node.next = self.head;
        let i = self.nodes.len();
        proof {
            if old(self).len > 0 {
                assert(old(self).slot_live(0));
            }
        }
        self.nodes.push(Some(node));
        match self.head {
            None => {
                self.tail = Some(i);
            }
            Some(h) => {
                let slot = &mut self.nodes[h];
                match slot {
                    Some(n) => {
                        n.prev = Some(i);
                    }
                    None => {
                        proof {
                            assert(false);
                        }
                    }
                }
            }
        }
        self.head = Some(i);
        proof {
            // the arena length fits in a machine word, and `len` stays below it
            assert(self.nodes@.len() == vstd::std_specs::vec::spec_vec_len(&self.nodes));
        }
        self.len = self.len + 1;
        self.order = Ghost(seq![i] + self.order@);
        proof {
            let old_ord = old(self).order@;
            let ord = self.order@;
            let old_n = old_ord.len() as int;
            assert forall|k: int| 0 <= k < ord.len() implies self.slot_live(k) by {
                if k >= 1 {
                    assert(old(self).slot_live(k - 1));
                }
            }
            assert forall|k: int| 0 <= k < ord.len() implies self.links_ok(k) by {
                if k >= 1 {
                    assert(old(self).links_ok(k - 1));
                    assert(old(self).slot_live(k - 1));
                    if k >= 2 {
                        assert(old_ord[k - 1] != old_ord[0]);
                    }
                }
            }
            assert forall|k1: int, k2: int|
                0 <= k1 < k2 < ord.len() implies ord[k1] != ord[k2] by {
                if k1 == 0 {
                    assert(old(self).slot_live(k2 - 1));
                } else {
                    assert(old_ord[k1 - 1] != old_ord[k2 - 1]);
                }
            }
            assert forall|k: int| 1 <= k < ord.len() implies self@[k] == old(self)@[k - 1] by {
                assert(old(self).slot_live(k - 1));
                if k >= 2 {
                    assert(old_ord[k - 1] != old_ord[0]);
                }
            }
            assert(self@[0] == elem);
            assert(self@ =~= seq![elem] + old(self)@);
        }
    }

    /// Appends `element` at the back.
    pub fn push_back(&mut self, element: T)
        requires
            old(self).well_formed(),
        ensures
            final(self).well_formed(),
            final(self)@ == old(self)@.push(element),
    {
        self.push_back_node(Node::new(element))
    }

    /// Moves every element of `other` to the back of `self`, leaving
    /// `other` empty. When `self` is empty this is exactly an exchange of
    /// the two containers' internal state; otherwise the donor is drained
    /// from its front into `self`'s back, so ownership of every node moves
    /// to `self`.
    pub fn append(&mut self, other: &mut Self)
        requires
            old(self).well_formed(),
            old(other).well_formed(),
        ensures
            final(self).well_formed(),
            final(other).well_formed(),
            final(self)@ == old(self)@ + old(other)@,
            final(other)@ == Seq::<T>::empty(),
    {
        if self.len == 0 {
            core::mem::swap(self, other);
            proof {
                assert(other@ =~= Seq::<T>::empty());
                assert(self@ =~= old(self)@ + old(other)@);
            }
        } else {
            while other.len != 0
                invariant
                    self.well_formed(),
                    other.well_formed(),
                    self@ + other@ == old(self)@ + old(other)@,
                decreases other@.len(),
            {
                let ghost prior_self = self@;
                let ghost prior_other = other@;
                match other.pop_front() {
                    Some(v) => {
                        self.push_back(v);
                    }
                    None => {
                        proof {
                            assert(false);
                        }
                    }
                }
                proof {
                    assert(self@ + other@ =~= prior_self + prior_other);
                }
            }
            proof {
                assert(other@ =~= Seq::<T>::empty());
                assert(self@ =~= self@ + other@);
            }
        }
    }

    /// Resets the container to the empty state, releasing every node and
    /// its element. Equivalent to popping from the front until empty.
    pub fn clear(&mut self)
        requires
            old(self).well_formed(),
        ensures
            final(self).well_formed(),
            final(self)@ == Seq::<T>::empty(),
    {
        *self = MyLinkedList::new();
    }

    /// A borrowing iterator over the elements, front to back. Each call
    /// starts a fresh walk over the same contents, so iteration is
    /// restartable and never mutates or consumes the container.
    pub fn iter(&self) -> (r: Iter<'_, T>)
        requires
            self.well_formed(),
        ensures
            r.well_formed(),
            r.contents() == self@,
            r.remaining() == self@,
    {
        let r = Iter { list: self, cursor: self.head, pos: Ghost(0) };
        proof {
            assert(r.remaining() =~= self@);
        }
        r
    }

    /// Hands the container to a consuming iterator that yields the owned
    /// elements in insertion order, by repeated `pop_front`. Dropping the
    /// iterator early drops the container and every remaining element.
    pub fn into_iter(self) -> (r: IntoIter<T>)
        requires
            self.well_formed(),
        ensures
            r.well_formed(),
            r.remaining() == self@,
    {
        IntoIter { list: self }
    }
}

impl<T> Default for MyLinkedList<T> {
    /// An empty container, exactly as `new` returns.
    fn default() -> (r: Self)
        ensures
            r.well_formed(),
            r@ == Seq::<T>::empty(),
    {
        MyLinkedList::new()
    }
}

/// A borrowing iterator: walks the chain front to back by following the
/// forward edges, without taking ownership of the container.
#[must_use]
pub struct Iter<'a, T> {
    list: &'a MyLinkedList<T>,
    cursor: Option<usize>,
    pos: Ghost<int>,
}

impl<'a, T> Iter<'a, T> {
    /// The full contents of the container being walked.
    pub closed spec fn contents(&self) -> Seq<T> {
        self.list@
    }

    /// The elements not yet yielded, in the order they will come.
    pub closed spec fn remaining(&self) -> Seq<T> {
        self.list@.skip(self.pos@)
    }

    /// The iterator invariant: the cursor stands on the next node to
    /// yield in a well-formed chain, or is absent once past the end.
    pub closed spec fn well_formed(&self) -> bool {
        &&& self.list.well_formed()
        &&& 0 <= self.pos@ <= self.list@.len()
        &&& self.cursor == (
            if self.pos@ == self.list@.len() {
                None::<usize>
            } else {
                Some(self.list.order@[self.pos@])
            }
        )
    }

    /// Yields a reference to the next element, or absence once the walk
    /// has reached the end. One forward edge is followed per step; the
    /// container itself is never changed.
    pub fn next(&mut self) -> (r: Option<&'a T>)
        requires
            old(self).well_formed(),
        ensures
            final(self).well_formed(),
            final(self).contents() == old(self).contents(),
            old(self).remaining().len() == 0 ==> r is None && final(self).remaining() == old(self).remaining(),
            old(self).remaining().len() > 0 ==> {
                &&& r matches Some(e) && *e == old(self).remaining()[0]
                &&& final(self).remaining() == old(self).remaining().drop_first()
            },
    {
        match self.cursor {
            None => None,
            Some(i) => {
                proof {
                    assert(self.list.slot_live(self.pos@));
                    assert(self.list.links_ok(self.pos@));
                }
                let list = self.list;
                let node_ref = &list.nodes[i];
                match node_ref {
                    Some(node) => {
                        self.cursor = node.next;
                        self.pos = Ghost(self.pos@ + 1);
                        proof {
                            assert(self.remaining() =~= old(self).remaining().drop_first());
                        }
                        Some(&node.element)
                    }
                    None => {
                        proof {
                            assert(false);
                        }
                        None
                    }
                }
            }
        }
    }
}

/// A consuming iterator: owns the container and drains it from the front,
/// yielding each owned element exactly once.
#[must_use]
pub struct IntoIter<T> {
    list: MyLinkedList<T>,
}

impl<T> IntoIter<T> {
    /// The elements not yet yielded, in the order they will come.
    pub closed spec fn remaining(&self) -> Seq<T> {
        self.list@
    }

    /// The wrapped container keeps its invariant while being drained.
    pub closed spec fn well_formed(&self) -> bool {
        self.list.well_formed()
    }

    /// Removes and yields the front of what is left, absence once drained.
    pub fn next(&mut self) -> (r: Option<T>)
        requires
            old(self).well_formed(),
        ensures
            final(self).well_formed(),
            old(self).remaining().len() == 0 ==> r is None && final(self).remaining() == old(self).remaining(),
            old(self).remaining().len() > 0 ==> r == Some(old(self).remaining()[0]) && final(self).remaining() == old(self).remaining().drop_first(),
    {
        self.list.pop_front()
    }

    /// Exactly the number of elements still to be yielded, as both the
    /// lower and the upper bound.
    pub fn size_hint(&self) -> (r: (usize, Option<usize>))
        requires
            self.well_formed(),
        ensures
            r.0 == self.remaining().len(),
            r.1 == Some(r.0),
    {
        (self.list.len(), Some(self.list.len))
    }
}

/// The sequence a full front-to-back drain yields, given the contents:
/// first the front element, then the drain of the rest. This is the walk
/// `pop_front` and the consuming iterator perform.
pub open spec fn drained<T>(s: Seq<T>) -> Seq<T>
    decreases s.len(),
{
    if s.len() == 0 {
        Seq::empty()
    } else {
        seq![s.first()] + drained(s.drop_first())
    }
}

/// Order preservation: draining a container front to back yields exactly
/// its contents in insertion order. Since `push_back` appends to the
/// contents, pushing `e1..en` and then draining yields `e1, e2, ..., en`.
pub proof fn lemma_order_preservation<T>(s: Seq<T>)
    ensures
        drained(s) == s,
    decreases s.len(),
{
    if s.len() == 0 {
        assert(drained(s) =~= s);
    } else {
        lemma_order_preservation(s.drop_first());
        assert(drained(s) =~= s);
    }
}

/// Length accounting: a full drain yields exactly as many elements as the
/// container reports through `len`.
pub proof fn lemma_length_accounting<T>(s: Seq<T>)
    ensures
        drained(s).len() == s.len(),
{
    lemma_order_preservation(s);
}

/// Append associativity on contents: appending `b` and then `c` onto a
/// container holding `a` leaves the same contents as appending the
/// concatenation of `b` and `c` in one step.
pub proof fn lemma_append_associative<T>(a: Seq<T>, b: Seq<T>, c: Seq<T>)
    ensures
        (a + b) + c == a + (b + c),
{
    assert((a + b) + c =~= a + (b + c));
}

/// Idempotent emptiness: a cleared container and a freshly constructed one
/// hold the same (empty) contents; since `len` and `iter` are specified
/// purely over the contents, every read-only query behaves identically on
/// the two.
pub proof fn lemma_cleared_is_fresh<T>(cleared: &MyLinkedList<T>, fresh: &MyLinkedList<T>)
    requires
        cleared.well_formed(),
        fresh.well_formed(),
        cleared@ == Seq::<T>::empty(),
        fresh@ == Seq::<T>::empty(),
    ensures
        cleared@ == fresh@,
        cleared@.len() == fresh@.len(),
{
}

/// Restartability: two iterators freshly started on the same unmodified
/// container walk the same contents and so will yield identical sequences.
pub proof fn lemma_iter_restartable<'a, T>(
    l: &MyLinkedList<T>,
    i1: &Iter<'a, T>,
    i2: &Iter<'a, T>,
)
    requires
        i1.well_formed(),
        i2.well_formed(),
        i1.contents() == l@,
        i2.contents() == l@,
        i1.remaining() == i1.contents(),
        i2.remaining() == i2.contents(),
    ensures
        i1.remaining() == i2.remaining(),
{
}

} // verus!
