//! A singly-linked stack of boxed nodes, with iterators that hand out its
//! elements by value, by shared reference and by mutable reference.
use vstd::prelude::*;

verus! {

struct Node<T> {
    elem: T,
    next: Option<Box<Node<T>>>,
}

/// The elements of the chain that starts at `link`, first node first.
spec fn elems_from<T>(link: Option<Box<Node<T>>>) -> Seq<T>
    decreases link,
{
    match link {
        None => Seq::empty(),
        Some(node) => seq![node.elem] + elems_from(node.next),
    }
}

/// A last-in, first-out stack.
pub struct Stack<T> {
    top: Option<Box<Node<T>>>,
}

impl<T> View for Stack<T> {
    type V = Seq<T>;

    /// The elements, top first.
    closed spec fn view(&self) -> Seq<T> {
        elems_from(self.top)
    }
}

impl<T> Stack<T> {
    /// An empty stack.
    pub fn new() -> (s: Self)
        ensures
            s@ == Seq::<T>::empty(),
    {
        Stack { top: None }
    }

    /// Puts `value` on top.
    pub fn push(&mut self, value: T)
        ensures
            final(self)@ == seq![value] + old(self)@,
    {
        let new_node = Box::new(Node { elem: value, next: self.top.take() });
        self.top = Some(new_node);
    }

    /// Removes and returns the top element; `None` when the stack is empty.
    pub fn pop(&mut self) -> (r: Option<T>)
        ensures
            old(self)@.len() == 0 ==> r is None && final(self)@ == old(self)@,
            old(self)@.len() > 0 ==> r == Some(old(self)@[0]) && final(self)@ == old(self)@.drop_first(),
    {
        match self.top.take() {
            None => None,
            Some(boxed_node) => {
                let node = *boxed_node;
                self.top = node.next;
                proof {
                    assert(old(self)@.drop_first() =~= self@);
                }
                Some(node.elem)
            },
        }
    }

    /// The top element, left in place; `None` when the stack is empty.
    pub fn peek(&self) -> (r: Option<&T>)
        ensures
            self@.len() == 0 ==> r is None,
            self@.len() > 0 ==> r == Some(&self@[0]),
    {
        match &self.top {
            None => None,
            Some(node) => Some(&node.elem),
        }
    }

    /// The top element, to be changed in place; `None` when the stack is empty.
    pub fn peek_mut(&mut self) -> (r: Option<&mut T>)
        ensures
            old(self)@.len() == 0 ==> r is None && final(self)@ == old(self)@,
            old(self)@.len() > 0 ==> {
                &&& r is Some
                &&& *r.unwrap() == old(self)@[0]
                &&& final(self)@ == old(self)@.update(0, *final(r.unwrap()))
            },
    {
        match &mut self.top {
            None => None,
            Some(node) => Some(&mut node.elem),
        }
    }

    /// Consumes the stack into an iterator that yields its elements top first.
    pub fn into_iter(self) -> (it: IntoIter<T>)
        ensures
            it@ == self@,
    {
        IntoIter(self)
    }

    /// An iterator over shared references to the elements, top first.
    pub fn iter(&self) -> (it: Iter<'_, T>)
        ensures
            it@ == self@,
    {
        Iter {
            next: match &self.top {
                None => None,
                Some(node) => Some(&**node),
            },
        }
    }

    /// An iterator over mutable references to the elements, top first.
    pub fn iter_mut(&mut self) -> (it: IterMut<'_, T>)
        ensures
            it@ == old(self)@,
    {
        IterMut {
            next: match &mut self.top {
                None => None,
                Some(node) => Some(&mut **node),
            },
        }
    }
}

impl<T> Drop for Stack<T> {
    /// Frees the nodes one at a time, so that a long stack is not torn down
    /// by a chain of nested drops.
    fn drop(&mut self)
        opens_invariants none
        no_unwind
    {
        let mut cur: Option<Box<Node<T>>> = None;
        std::mem::swap(&mut cur, &mut self.top);
        loop
            decreases elems_from(cur).len(),
        {
            match cur {
                None => break,
                Some(mut boxed_node) => {
                    let mut rest: Option<Box<Node<T>>> = None;
                    std::mem::swap(&mut rest, &mut boxed_node.next);
                    cur = rest;
                },
            }
        }
    }
}

/// The elements of a stack, handed out by value, top first.
pub struct IntoIter<T>(Stack<T>);

impl<T> View for IntoIter<T> {
    type V = Seq<T>;

    /// The elements not yet handed out, in the order they will come.
    closed spec fn view(&self) -> Seq<T> {
        self.0@
    }
}

impl<T> IntoIter<T> {
    /// The next element; `None` once all are handed out.
    pub fn next(&mut self) -> (r: Option<T>)
        ensures
            old(self)@.len() == 0 ==> r is None && final(self)@ == old(self)@,
            old(self)@.len() > 0 ==> r == Some(old(self)@[0]) && final(self)@ == old(self)@.drop_first(),
    {
        self.0.pop()
    }
}

/// Shared references to the elements of a stack, top first.
pub struct Iter<'a, T: 'a> {
    next: Option<&'a Node<T>>,
}

impl<'a, T> View for Iter<'a, T> {
    type V = Seq<T>;

    /// The elements not yet visited, in the order they will come.
    closed spec fn view(&self) -> Seq<T> {
        match self.next {
            None => Seq::empty(),
            Some(node) => seq![node.elem] + elems_from(node.next),
        }
    }
}

impl<'a, T> Iter<'a, T> {
    /// A reference to the next element; `None` once all are visited.
    pub fn next(&mut self) -> (r: Option<&'a T>)
        ensures
            old(self)@.len() == 0 ==> r is None && final(self)@ == old(self)@,
            old(self)@.len() > 0 ==> r == Some(&old(self)@[0]) && final(self)@ == old(self)@.drop_first(),
    {
        match self.next {
            None => None,
            Some(node) => {
                self.next = match &node.next {
                    None => None,
                    Some(next) => Some(&**next),
                };
                proof {
                    assert(old(self)@.drop_first() =~= self@);
                }
                Some(&node.elem)
            },
        }
    }
}

/// Mutable references to the elements of a stack, top first.
pub struct IterMut<'a, T: 'a> {
    next: Option<&'a mut Node<T>>,
}

impl<'a, T> View for IterMut<'a, T> {
    type V = Seq<T>;

    /// The elements not yet visited, as they are now, in the order they will come.
    closed spec fn view(&self) -> Seq<T> {
        match self.next {
            None => Seq::empty(),
            Some(node) => seq![node.elem] + elems_from(node.next),
        }
    }
}

impl<'a, T> IterMut<'a, T> {
    /// A mutable reference to the next element; `None` once all are visited.
    pub fn next(&mut self) -> (r: Option<&'a mut T>)
        ensures
            old(self)@.len() == 0 ==> r is None && final(self)@ == old(self)@,
            old(self)@.len() > 0 ==> {
                &&& r is Some
                &&& *r.unwrap() == old(self)@[0]
                &&& final(self)@ == old(self)@.drop_first()
            },
    {
        match self.next.take() {
            None => None,
            Some(node) => {
                self.next = match &mut node.next {
                    None => None,
                    Some(next) => Some(&mut **next),
                };
                proof {
                    assert(old(self)@.drop_first() =~= self@);
                }
                Some(&mut node.elem)
            },
        }
    }
}

} // verus!
