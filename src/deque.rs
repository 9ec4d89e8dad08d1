//! A double-ended queue built as a doubly-linked chain of nodes.
//!
//! Nodes live in an arena of slots and refer to their neighbours by slot index,
//! so a node can be reached from both directions without shared ownership.
//! Slots freed by a removal are kept on a free list and reused by later inserts.
//! Since no node owns another, dropping the deque drops the arena and with it
//! every stored element exactly once, however long the chain.
//!
//! Both ends are supported: the back operations mirror the front ones with
//! `head` and `tail`, `next` and `prev` exchanged.
use vstd::prelude::*;

verus! {

/// One cell of the chain: its element and the slots of its neighbours.
struct Node<T> {
    elem: T,
    prev: Option<usize>,
    next: Option<usize>,
}

impl<T> Node<T> {
    /// A node that holds `elem` and is linked to nothing yet.
    fn new(elem: T) -> (n: Node<T>)
        ensures
            n.elem == elem,
            n.prev is None,
            n.next is None,
    {
        Node { elem, prev: None, next: None }
    }
}

/// A double-ended queue.
pub struct Deque<T> {
    /// The arena: occupied slots hold the nodes of the chain, empty ones are free.
    slots: Vec<Option<Node<T>>>,
    /// Indices of the empty slots.
    free: Vec<usize>,
    head: Option<usize>,
    tail: Option<usize>,
    /// Slot indices of the chain's nodes, front to back.
    chain: Ghost<Seq<usize>>,
}

impl<T> Deque<T> {
    spec fn node_at(&self, i: usize) -> Node<T> {
        self.slots@[i as int].unwrap()
    }

    /// The slot that should precede position `k` of the chain.
    spec fn slot_before(&self, k: int) -> Option<usize> {
        if k == 0 {
            None
        } else {
            Some(self.chain@[k - 1])
        }
    }

    /// The slot that should follow position `k` of the chain.
    spec fn slot_after(&self, k: int) -> Option<usize> {
        if k + 1 == self.chain@.len() {
            None
        } else {
            Some(self.chain@[k + 1])
        }
    }

    spec fn chain_ok(&self) -> bool {
        let c = self.chain@;
        &&& c.no_duplicates()
        &&& forall|k: int|
            0 <= k < c.len() ==> {
                &&& (#[trigger] c[k]) < self.slots@.len()
                &&& self.slots@[c[k] as int] is Some
                &&& self.node_at(c[k]).prev == self.slot_before(k)
                &&& self.node_at(c[k]).next == self.slot_after(k)
            }
        &&& self.head == (if c.len() == 0 { None } else { Some(c[0]) })
        &&& self.tail == (if c.len() == 0 { None } else { Some(c.last()) })
    }

    /// The free list names each empty slot once; `used` slots are occupied.
    spec fn free_ok(&self, used: nat) -> bool {
        let f = self.free@;
        &&& f.no_duplicates()
        &&& forall|j: int|
            0 <= j < f.len() ==> {
                &&& (#[trigger] f[j]) < self.slots@.len()
                &&& self.slots@[f[j] as int] is None
            }
        &&& self.slots@.len() == used + f.len()
    }

    /// The chain links every stored node in order, `prev` mirroring `next`;
    /// every other slot is free.
    pub closed spec fn well_formed(&self) -> bool {
        self.chain_ok() && self.free_ok(self.chain@.len())
    }
}

impl<T> View for Deque<T> {
    type V = Seq<T>;

    /// The elements, front to back.
    closed spec fn view(&self) -> Seq<T> {
        Seq::new(self.chain@.len(), |k: int| self.node_at(self.chain@[k]).elem)
    }
}

impl<T> Deque<T> {
    /// An empty deque.
    pub fn new() -> (d: Self)
        ensures
            d.well_formed(),
            d@ == Seq::<T>::empty(),
    {
        let d = Deque { slots: Vec::new(), free: Vec::new(), head: None, tail: None, chain: Ghost(Seq::empty()) };
        assert(d@ =~= Seq::<T>::empty());
        d
    }
}

/// Sets the `prev` link of the node in slot `i`.
fn set_prev<T>(slots: &mut Vec<Option<Node<T>>>, i: usize, link: Option<usize>)
    requires
        i < old(slots)@.len(),
        old(slots)@[i as int] is Some,
    ensures
        final(slots)@ == old(slots)@.update(
            i as int,
            Some(
                (Node {
                    elem: old(slots)@[i as int].unwrap().elem,
                    prev: link,
                    next: old(slots)@[i as int].unwrap().next,
                }),
            ),
        ),
{
    match &mut slots[i] {
        Some(node) => {
            node.prev = link;
        },
        None => {},
    }
}

/// Sets the `next` link of the node in slot `i`.
fn set_next<T>(slots: &mut Vec<Option<Node<T>>>, i: usize, link: Option<usize>)
    requires
        i < old(slots)@.len(),
        old(slots)@[i as int] is Some,
    ensures
        final(slots)@ == old(slots)@.update(
            i as int,
            Some(
                (Node {
                    elem: old(slots)@[i as int].unwrap().elem,
                    prev: old(slots)@[i as int].unwrap().prev,
                    next: link,
                }),
            ),
        ),
{
    match &mut slots[i] {
        Some(node) => {
            node.next = link;
        },
        None => {},
    }
}

/// Empties slot `i` and returns what it held.
fn take_slot<T>(slots: &mut Vec<Option<Node<T>>>, i: usize) -> (r: Option<Node<T>>)
    requires
        i < old(slots)@.len(),
    ensures
        r == old(slots)@[i as int],
        final(slots)@ == old(slots)@.update(i as int, None),
{
    let slot = &mut slots[i];
    slot.take()
}

impl<T> Deque<T> {
    /// Stores `node` in a free slot, or in a new one when none is free. The
    /// chain is left as it was; the caller links the node in.
    fn store(&mut self, node: Node<T>) -> (i: usize)
        requires
            old(self).well_formed(),
        ensures
            final(self).chain == old(self).chain,
            final(self).head == old(self).head,
            final(self).tail == old(self).tail,
            final(self).free_ok(old(self).chain@.len() + 1),
            old(self).slots@.len() <= final(self).slots@.len(),
            i < final(self).slots@.len(),
            !old(self).chain@.contains(i),
            final(self).slots@[i as int] == Some(node),
            forall|j: int|
                0 <= j < old(self).slots@.len() && j != i ==> final(self).slots@[j] == old(self).slots@[j],
    {
        match self.free.pop() {
            Some(i) => {
                proof {
                    let f = old(self).free@;
                    assert(f[f.len() - 1] == i);
                    assert forall|j: int| 0 <= j < self.free@.len() implies self.free@[j] != i by {
                        assert(self.free@[j] == f[j]);
                    }
                }
                self.slots.set(i, Some(node));
                i
            },
            None => {
                let i = self.slots.len();
                self.slots.push(Some(node));
                i
            },
        }
    }

    /// Puts `elem` at the front.
    pub fn push_front(&mut self, elem: T)
        requires
            old(self).well_formed(),
        ensures
            final(self).well_formed(),
            final(self)@ == seq![elem] + old(self)@,
    {
        let ghost c = self.chain@;
        let i = self.store(Node::new(elem));
        match self.head {
            Some(h) => {
                set_prev(&mut self.slots, h, Some(i));
                set_next(&mut self.slots, i, Some(h));
            },
            None => {
                self.tail = Some(i);
            },
        }
        self.head = Some(i);
        self.chain = Ghost(seq![i] + c);
        proof {
            let n = seq![i] + c;
            assert forall|k: int| 0 <= k < n.len() implies {
                &&& (#[trigger] n[k]) < self.slots@.len()
                &&& self.slots@[n[k] as int] is Some
                &&& self.node_at(n[k]).prev == self.slot_before(k)
                &&& self.node_at(n[k]).next == self.slot_after(k)
            } by {
                if k > 0 {
                    assert(n[k] == c[k - 1]);
                }
            }
            assert(self@ =~= seq![elem] + old(self)@);
        }
    }
}

impl<T> Deque<T> {
    /// Removes and returns the front element; `None` when the deque is empty.
    pub fn pop_front(&mut self) -> (r: Option<T>)
        requires
            old(self).well_formed(),
        ensures
            final(self).well_formed(),
            old(self)@.len() == 0 ==> r is None && final(self)@ == old(self)@,
            old(self)@.len() > 0 ==> r == Some(old(self)@[0]) && final(self)@ == old(self)@.drop_first(),
    {
        match self.head {
            None => None,
            Some(h) => {
                let ghost c = self.chain@;
                proof {
                    assert(c[0] == h);
                }
                match take_slot(&mut self.slots, h) {
                    None => None,
                    Some(node) => {
                        match node.next {
                            Some(n) => {
                                proof {
                                    assert(c[1] == n);
                                }
                                set_prev(&mut self.slots, n, None);
                                self.head = Some(n);
                            },
                            None => {
                                self.head = None;
                                self.tail = None;
                            },
                        }
                        self.free.push(h);
                        self.chain = Ghost(c.drop_first());
                        proof {
                            let n = c.drop_first();
                            assert forall|k: int| 0 <= k < n.len() implies {
                                &&& (#[trigger] n[k]) < self.slots@.len()
                                &&& self.slots@[n[k] as int] is Some
                                &&& self.node_at(n[k]).prev == self.slot_before(k)
                                &&& self.node_at(n[k]).next == self.slot_after(k)
                            } by {
                                assert(n[k] == c[k + 1]);
                                assert(c[k + 1] != h);
                            }
                            let f = self.free@;
                            assert forall|j: int| 0 <= j < f.len() implies {
                                &&& (#[trigger] f[j]) < self.slots@.len()
                                &&& self.slots@[f[j] as int] is None
                            } by {
                                if j < f.len() - 1 {
                                    assert(f[j] == old(self).free@[j]);
                                    assert(!c.contains(f[j]));
                                }
                            }
                            assert(!old(self).free@.contains(h));
                            assert(self@ =~= old(self)@.drop_first());
                        }
                        Some(node.elem)
                    },
                }
            },
        }
    }
}

impl<T> Deque<T> {
    /// Puts `elem` at the back.
    pub fn push_back(&mut self, elem: T)
        requires
            old(self).well_formed(),
        ensures
            final(self).well_formed(),
            final(self)@ == old(self)@.push(elem),
    {
        let ghost c = self.chain@;
        let i = self.store(Node::new(elem));
        match self.tail {
            Some(t) => {
                set_next(&mut self.slots, t, Some(i));
                set_prev(&mut self.slots, i, Some(t));
            },
            None => {
                self.head = Some(i);
            },
        }
        self.tail = Some(i);
        self.chain = Ghost(c.push(i));
        proof {
            let n = c.push(i);
            assert forall|k: int| 0 <= k < n.len() implies {
                &&& (#[trigger] n[k]) < self.slots@.len()
                &&& self.slots@[n[k] as int] is Some
                &&& self.node_at(n[k]).prev == self.slot_before(k)
                &&& self.node_at(n[k]).next == self.slot_after(k)
            } by {
                if k < c.len() {
                    assert(n[k] == c[k]);
                }
            }
            assert(self@ =~= old(self)@.push(elem));
        }
    }

    /// Removes and returns the back element; `None` when the deque is empty.
    pub fn pop_back(&mut self) -> (r: Option<T>)
        requires
            old(self).well_formed(),
        ensures
            final(self).well_formed(),
            old(self)@.len() == 0 ==> r is None && final(self)@ == old(self)@,
            old(self)@.len() > 0 ==> r == Some(old(self)@.last()) && final(self)@ == old(self)@.drop_last(),
    {
        match self.tail {
            None => None,
            Some(t) => {
                let ghost c = self.chain@;
                proof {
                    assert(c[c.len() - 1] == t);
                }
                match take_slot(&mut self.slots, t) {
                    None => None,
                    Some(node) => {
                        match node.prev {
                            Some(p) => {
                                proof {
                                    assert(c[c.len() - 2] == p);
                                }
                                set_next(&mut self.slots, p, None);
                                self.tail = Some(p);
                            },
                            None => {
                                self.head = None;
                                self.tail = None;
                            },
                        }
                        self.free.push(t);
                        self.chain = Ghost(c.drop_last());
                        proof {
                            let n = c.drop_last();
                            assert forall|k: int| 0 <= k < n.len() implies {
                                &&& (#[trigger] n[k]) < self.slots@.len()
                                &&& self.slots@[n[k] as int] is Some
                                &&& self.node_at(n[k]).prev == self.slot_before(k)
                                &&& self.node_at(n[k]).next == self.slot_after(k)
                            } by {
                                assert(n[k] == c[k]);
                                assert(c[k] != t);
                            }
                            let f = self.free@;
                            assert forall|j: int| 0 <= j < f.len() implies {
                                &&& (#[trigger] f[j]) < self.slots@.len()
                                &&& self.slots@[f[j] as int] is None
                            } by {
                                if j < f.len() - 1 {
                                    assert(f[j] == old(self).free@[j]);
                                    assert(!c.contains(f[j]));
                                }
                            }
                            assert(!old(self).free@.contains(t));
                            assert(self@ =~= old(self)@.drop_last());
                        }
                        Some(node.elem)
                    },
                }
            },
        }
    }

    /// The front element, left in place; `None` when the deque is empty.
    pub fn peek_front(&self) -> (r: Option<&T>)
        requires
            self.well_formed(),
        ensures
            self@.len() == 0 ==> r is None,
            self@.len() > 0 ==> r == Some(&self@[0]),
    {
        match self.head {
            None => None,
            Some(h) => {
                proof {
                    assert(self.chain@[0] == h);
                }
                match &self.slots[h] {
                    Some(node) => Some(&node.elem),
                    None => None,
                }
            },
        }
    }

    /// The back element, left in place; `None` when the deque is empty.
    pub fn peek_back(&self) -> (r: Option<&T>)
        requires
            self.well_formed(),
        ensures
            self@.len() == 0 ==> r is None,
            self@.len() > 0 ==> r == Some(&self@.last()),
    {
        match self.tail {
            None => None,
            Some(t) => {
                proof {
                    assert(self.chain@[self.chain@.len() - 1] == t);
                }
                match &self.slots[t] {
                    Some(node) => Some(&node.elem),
                    None => None,
                }
            },
        }
    }

    /// The front element, to be changed in place; `None` when the deque is empty.
    pub fn peek_front_mut(&mut self) -> (r: Option<&mut T>)
        requires
            old(self).well_formed(),
        ensures
            final(self).well_formed(),
            old(self)@.len() == 0 ==> r is None && final(self)@ == old(self)@,
            old(self)@.len() > 0 ==> {
                &&& r is Some
                &&& *r.unwrap() == old(self)@[0]
                &&& final(self)@ == old(self)@.update(0, *final(r.unwrap()))
            },
    {
        match self.head {
            None => None,
            Some(h) => {
                proof {
                    assert(self.chain@[0] == h);
                }
                match &mut self.slots[h] {
                    Some(node) => Some(&mut node.elem),
                    None => None,
                }
            },
        }
    }

    /// The back element, to be changed in place; `None` when the deque is empty.
    pub fn peek_back_mut(&mut self) -> (r: Option<&mut T>)
        requires
            old(self).well_formed(),
        ensures
            final(self).well_formed(),
            old(self)@.len() == 0 ==> r is None && final(self)@ == old(self)@,
            old(self)@.len() > 0 ==> {
                &&& r is Some
                &&& *r.unwrap() == old(self)@.last()
                &&& final(self)@ == old(self)@.update(old(self)@.len() - 1, *final(r.unwrap()))
            },
    {
        match self.tail {
            None => None,
            Some(t) => {
                proof {
                    assert(self.chain@[self.chain@.len() - 1] == t);
                }
                match &mut self.slots[t] {
                    Some(node) => Some(&mut node.elem),
                    None => None,
                }
            },
        }
    }

    /// Consumes the deque into an iterator that yields its elements front to back.
    pub fn into_iter(self) -> (it: IntoIter<T>)
        requires
            self.well_formed(),
        ensures
            it.well_formed(),
            it@ == self@,
    {
        IntoIter(self)
    }
}

/// The elements of a deque, handed out by value from either end.
pub struct IntoIter<T>(Deque<T>);

impl<T> View for IntoIter<T> {
    type V = Seq<T>;

    /// The elements not yet handed out, front to back.
    closed spec fn view(&self) -> Seq<T> {
        self.0@
    }
}

impl<T> IntoIter<T> {
    /// The deque inside is well formed.
    pub closed spec fn well_formed(&self) -> bool {
        self.0.well_formed()
    }

    /// The next element from the front; `None` once all are handed out.
    pub fn next(&mut self) -> (r: Option<T>)
        requires
            old(self).well_formed(),
        ensures
            final(self).well_formed(),
            old(self)@.len() == 0 ==> r is None && final(self)@ == old(self)@,
            old(self)@.len() > 0 ==> r == Some(old(self)@[0]) && final(self)@ == old(self)@.drop_first(),
    {
        self.0.pop_front()
    }

    /// The next element from the back; `None` once all are handed out.
    pub fn next_back(&mut self) -> (r: Option<T>)
        requires
            old(self).well_formed(),
        ensures
            final(self).well_formed(),
            old(self)@.len() == 0 ==> r is None && final(self)@ == old(self)@,
            old(self)@.len() > 0 ==> r == Some(old(self)@.last()) && final(self)@ == old(self)@.drop_last(),
    {
        self.0.pop_back()
    }
}

impl<T> Deque<T> {
    /// The slot of the front node, if any.
    pub closed spec fn front_slot(&self) -> Option<usize> {
        self.head
    }

    /// The slot of the back node, if any.
    pub closed spec fn back_slot(&self) -> Option<usize> {
        self.tail
    }

    /// The `next` link of the node in slot `i`; `None` where no node is.
    pub closed spec fn next_link(&self, i: usize) -> Option<usize> {
        if i < self.slots@.len() && self.slots@[i as int] is Some {
            self.node_at(i).next
        } else {
            None
        }
    }

    /// The `prev` link of the node in slot `i`; `None` where no node is.
    pub closed spec fn prev_link(&self, i: usize) -> Option<usize> {
        if i < self.slots@.len() && self.slots@[i as int] is Some {
            self.node_at(i).prev
        } else {
            None
        }
    }

    /// The element held in slot `i`.
    pub closed spec fn elem_in(&self, i: usize) -> T {
        self.node_at(i).elem
    }

    /// The slots met by following `next` links from `from`, at most `steps` of them.
    pub open spec fn walk_next(&self, from: Option<usize>, steps: nat) -> Seq<usize>
        decreases steps,
    {
        match from {
            None => Seq::empty(),
            Some(i) => if steps == 0 {
                Seq::empty()
            } else {
                seq![i] + self.walk_next(self.next_link(i), (steps - 1) as nat)
            },
        }
    }

    /// The slots met by following `prev` links from `from`, at most `steps` of them.
    pub open spec fn walk_prev(&self, from: Option<usize>, steps: nat) -> Seq<usize>
        decreases steps,
    {
        match from {
            None => Seq::empty(),
            Some(i) => if steps == 0 {
                Seq::empty()
            } else {
                seq![i] + self.walk_prev(self.prev_link(i), (steps - 1) as nat)
            },
        }
    }

    /// The slot at position `k` of the chain, `None` past either end.
    spec fn chain_slot(&self, k: int) -> Option<usize> {
        if 0 <= k < self.chain@.len() {
            Some(self.chain@[k])
        } else {
            None
        }
    }

    proof fn lemma_walk_next_from(&self, k: int, steps: nat)
        requires
            self.well_formed(),
            0 <= k <= self.chain@.len(),
            steps >= self.chain@.len() - k,
        ensures
            self.walk_next(self.chain_slot(k), steps) == self.chain@.subrange(k, self.chain@.len() as int),
        decreases self.chain@.len() - k,
    {
        let c = self.chain@;
        if k < c.len() {
            self.lemma_walk_next_from(k + 1, (steps - 1) as nat);
            assert(seq![c[k]] + c.subrange(k + 1, c.len() as int) =~= c.subrange(k, c.len() as int));
        } else {
            assert(c.subrange(k, c.len() as int) =~= Seq::<usize>::empty());
        }
    }

    proof fn lemma_walk_prev_from(&self, k: int, steps: nat)
        requires
            self.well_formed(),
            -1 <= k < self.chain@.len(),
            steps >= k + 1,
        ensures
            self.walk_prev(self.chain_slot(k), steps) == self.chain@.subrange(0, k + 1).reverse(),
        decreases k + 1,
    {
        let c = self.chain@;
        if k >= 0 {
            self.lemma_walk_prev_from(k - 1, (steps - 1) as nat);
            assert(seq![c[k]] + c.subrange(0, k).reverse() =~= c.subrange(0, k + 1).reverse());
        } else {
            assert(c.subrange(0, k + 1).reverse() =~= Seq::<usize>::empty());
        }
    }
}

/// Following `next` from the front node and `prev` from the back node visits
/// the same nodes in opposite orders, one per element and each once, and then
/// stops: the front node has no predecessor and the back node no successor.
/// The front is absent exactly when the back is, and the nodes met going
/// forward hold the elements in order.
pub proof fn lemma_mirror_chain<T>(d: &Deque<T>)
    requires
        d.well_formed(),
    ensures
        ({
            let fw = d.walk_next(d.front_slot(), d@.len() + 1);
            let bw = d.walk_prev(d.back_slot(), d@.len() + 1);
            &&& fw.len() == d@.len()
            &&& fw.no_duplicates()
            &&& fw == bw.reverse()
            &&& forall|k: int| 0 <= k < fw.len() ==> d.elem_in(#[trigger] fw[k]) == d@[k]
        }),
        d.front_slot() is None <==> d.back_slot() is None,
        d.front_slot() is None <==> d@.len() == 0,
        d.front_slot() matches Some(h) ==> d.prev_link(h) is None,
        d.back_slot() matches Some(t) ==> d.next_link(t) is None,
{
    let c = d.chain@;
    let n = c.len();
    d.lemma_walk_next_from(0, n + 1);
    d.lemma_walk_prev_from(n - 1, n + 1);
    assert(d.chain_slot(0) == d.front_slot());
    assert(d.chain_slot(n - 1) == d.back_slot());
    assert(c.subrange(0, n as int) =~= c);
    assert(c.subrange(0, n as int).reverse().reverse() =~= c);
}

/// The contents after `op` at the front of `s`: `Some(x)` pushes `x`, as
/// `push_front` does; `None` pops, as `pop_front` does, and changes nothing on
/// an empty sequence.
pub open spec fn front_step<T>(s: Seq<T>, op: Option<T>) -> Seq<T> {
    match op {
        Some(x) => seq![x] + s,
        None => if s.len() > 0 {
            s.drop_first()
        } else {
            s
        },
    }
}

/// The contents after the front operations `ops`, applied to `s` in order.
pub open spec fn after_front_ops<T>(s: Seq<T>, ops: Seq<Option<T>>) -> Seq<T>
    decreases ops.len(),
{
    if ops.len() == 0 {
        s
    } else {
        after_front_ops(front_step(s, ops[0]), ops.drop_first())
    }
}

/// How many of `ops` are pushes.
pub open spec fn push_count<T>(ops: Seq<Option<T>>) -> nat
    decreases ops.len(),
{
    if ops.len() == 0 {
        0
    } else {
        (if ops[0] is Some {
            1nat
        } else {
            0nat
        }) + push_count(ops.drop_first())
    }
}

/// How many of `ops`, applied to `s` in order, are pops that find an element.
pub open spec fn pop_count<T>(s: Seq<T>, ops: Seq<Option<T>>) -> nat
    decreases ops.len(),
{
    if ops.len() == 0 {
        0
    } else {
        (if ops[0] is None && s.len() > 0 {
            1nat
        } else {
            0nat
        }) + pop_count(front_step(s, ops[0]), ops.drop_first())
    }
}

/// `n` pops in a row.
pub open spec fn pops<T>(n: nat) -> Seq<Option<T>> {
    Seq::new(n, |k: int| None)
}

/// Front operations conserve the element count: pushes add one each, pops
/// that find an element take one each. Popping afterwards finds exactly as
/// many elements as remain, and the pop after those finds none.
pub proof fn lemma_count_conserved<T>(s: Seq<T>, ops: Seq<Option<T>>)
    ensures
        after_front_ops(s, ops).len() + pop_count(s, ops) == s.len() + push_count(ops),
        ({
            let rest = after_front_ops(s, ops);
            &&& pop_count(rest, pops::<T>(rest.len() + 1)) == rest.len()
            &&& after_front_ops(rest, pops::<T>(rest.len())).len() == 0
        }),
    decreases ops.len(),
{
    if ops.len() > 0 {
        lemma_count_conserved(front_step(s, ops[0]), ops.drop_first());
    } else {
        lemma_drain(s, s.len() + 1);
    }
}

proof fn lemma_drain<T>(s: Seq<T>, n: nat)
    requires
        n >= s.len(),
    ensures
        pop_count(s, pops::<T>(n)) == s.len(),
        after_front_ops(s, pops::<T>(n)).len() == 0,
        after_front_ops(s, pops::<T>(s.len())).len() == 0,
    decreases n,
{
    if n > 0 {
        assert(pops::<T>(n).drop_first() =~= pops::<T>((n - 1) as nat));
        assert(pops::<T>(n)[0] is None);
        if s.len() > 0 {
            lemma_drain(s.drop_first(), (n - 1) as nat);
            assert(pops::<T>(s.len()).drop_first() =~= pops::<T>((s.len() - 1) as nat));
            assert(pops::<T>(s.len())[0] is None);
        } else {
            lemma_drain(s, (n - 1) as nat);
        }
    }
}

} // verus!
