//! A singly-linked stack of `i32` values.
use vstd::prelude::*;

verus! {

struct Node {
    elem: i32,
    next: Link,
}

enum Link {
    Empty,
    Rest(Box<Node>),
}

/// The values of the chain that starts at `link`, first node first.
spec fn elems_of(link: Link) -> Seq<i32>
    decreases link,
{
    match link {
        Link::Empty => Seq::empty(),
        Link::Rest(node) => seq![node.elem] + elems_of(node.next),
    }
}

/// Leaves `link` empty and returns what it held.
fn take_link(link: &mut Link) -> (r: Link)
    ensures
        r == *old(link),
        *final(link) == Link::Empty,
    opens_invariants none
    no_unwind
{
    let mut r = Link::Empty;
    std::mem::swap(&mut r, link);
    r
}

/// A last-in, first-out stack of `i32` values.
pub struct Stack {
    top: Link,
}

impl View for Stack {
    type V = Seq<i32>;

    /// The values, top first.
    closed spec fn view(&self) -> Seq<i32> {
        elems_of(self.top)
    }
}

impl Stack {
    /// An empty stack.
    pub fn new() -> (s: Self)
        ensures
            s@ == Seq::<i32>::empty(),
    {
        Stack { top: Link::Empty }
    }

    /// Puts `value` on top.
    pub fn push(&mut self, value: i32)
        ensures
            final(self)@ == seq![value] + old(self)@,
    {
        let new_node = Box::new(Node { elem: value, next: take_link(&mut self.top) });
        self.top = Link::Rest(new_node);
    }

    /// Removes and returns the top value; `None` when the stack is empty.
    pub fn pop(&mut self) -> (r: Option<i32>)
        ensures
            old(self)@.len() == 0 ==> r is None && final(self)@ == old(self)@,
            old(self)@.len() > 0 ==> r == Some(old(self)@[0]) && final(self)@ == old(self)@.drop_first(),
    {
        match take_link(&mut self.top) {
            Link::Empty => None,
            Link::Rest(boxed_node) => {
                let node = *boxed_node;
                self.top = node.next;
                proof {
                    assert(old(self)@.drop_first() =~= self@);
                }
                Some(node.elem)
            },
        }
    }
}

impl Drop for Stack {
    /// Frees the nodes one at a time, so that a long stack is not torn down
    /// by a chain of nested drops.
    fn drop(&mut self)
        opens_invariants none
        no_unwind
    {
        let mut cur = take_link(&mut self.top);
        loop
            decreases elems_of(cur).len(),
        {
            match cur {
                Link::Empty => break,
                Link::Rest(mut boxed_node) => {
                    cur = take_link(&mut boxed_node.next);
                },
            }
        }
    }
}

} // verus!
