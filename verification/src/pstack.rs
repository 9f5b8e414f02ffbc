use vstd::prelude::*;
use std::rc::Rc;

verus! {

/// A shared handle to a stack element.
pub struct PRef<T> {
    pub value: Rc<T>,
}

impl<T> PRef<T> {
    pub fn get(&self) -> (r: &T)
        ensures
            *r == self.value,
    {
        &*self.value
    }
}

/// One immutable cell of the stack, sharing its tail.
pub struct Node<T> {
    pub prev: Option<Rc<Node<T>>>,
    pub value: Rc<T>,
}

/// The stack contents, bottom first.
pub open spec fn seq_of<T>(n: Option<Rc<Node<T>>>) -> Seq<T>
    decreases n,
{
    match n {
        None => Seq::empty(),
        Some(node) => seq_of(node.prev).push(*node.value),
    }
}

/// A persistent stack: pushing and popping leave every older version
/// intact, sharing the cells.
pub struct PStack<T> {
    pub len: usize,
    pub head: Option<Rc<Node<T>>>,
}

/// The remaining elements of an iteration, top first when read from the
/// back.
pub struct PIter<T> {
    pub head: Option<Rc<Node<T>>>,
}

impl<T> PIter<T> {
    pub open spec fn view(self) -> Seq<T> {
        seq_of(self.head)
    }

    /// The next element from the top, or nothing when the walk is done.
    pub fn next(&mut self) -> (r: Option<Rc<T>>)
        ensures
            old(self)@.len() == 0 ==> r is None && final(self)@ == old(self)@,
            old(self)@.len() > 0 ==> {
                &&& r is Some
                &&& r.unwrap() == old(self)@.last()
                &&& final(self)@ == old(self)@.drop_last()
            },
    {
        match &self.head {
            None => None,
            Some(node) => {
                let value = Rc::clone(&node.value);
                let prev = match &node.prev {
                    Some(p) => Some(Rc::clone(p)),
                    None => None,
                };
                self.head = prev;
                Some(value)
            },
        }
    }
}

impl<T> PStack<T> {
    pub open spec fn view(self) -> Seq<T> {
        seq_of(self.head)
    }

    pub open spec fn wf(self) -> bool {
        self.len == self@.len()
    }

    pub fn new() -> (r: Self)
        ensures
            r.wf(),
            r@ == Seq::<T>::empty(),
    {
        PStack { head: None, len: 0 }
    }

    /// A new stack with `value` on top; the old stack stays usable.
    pub fn push(&self, value: T) -> (r: Self)
        requires
            self.wf(),
            self.len < usize::MAX,
        ensures
            r.wf(),
            r@ == self@.push(value),
    {
        match &self.head {
            None => PStack {
                len: 1,
                head: Some(Rc::new(Node { value: Rc::new(value), prev: None })),
            },
            Some(h) => PStack {
                len: self.len + 1,
                head: Some(Rc::new(Node { value: Rc::new(value), prev: Some(Rc::clone(h)) })),
            },
        }
    }

    /// The top element and the stack below it, or nothing when empty.
    pub fn pop(&self) -> (r: Option<(Rc<T>, Self)>)
        requires
            self.wf(),
        ensures
            self@.len() == 0 <==> r is None,
            r is Some ==> {
                &&& r.unwrap().0 == self@.last()
                &&& r.unwrap().1@ == self@.drop_last()
                &&& r.unwrap().1.wf()
            },
    {
        match &self.head {
            None => None,
            Some(h) => {
                let value = Rc::clone(&h.value);
                match &h.prev {
                    None => Some((value, PStack { len: self.len - 1, head: None })),
                    Some(prev) => Some(
                        (value, PStack { len: self.len - 1, head: Some(Rc::clone(prev)) }),
                    ),
                }
            },
        }
    }

    pub fn len(&self) -> (r: usize)
        requires
            self.wf(),
        ensures
            r == self@.len(),
    {
        self.len
    }

    pub fn is_empty(&self) -> (r: bool)
        requires
            self.wf(),
        ensures
            r == (self@.len() == 0),
    {
        self.len == 0
    }

    /// Walks the stack from the top without consuming it.
    pub fn iter(&self) -> (r: PIter<T>)
        ensures
            r@ == self@,
    {
        match &self.head {
            None => PIter { head: None },
            Some(h) => PIter { head: Some(Rc::clone(h)) },
        }
    }
}

impl<T> Clone for PStack<T> {
    /// Cloning shares the cells: the clone has the same contents.
    fn clone(&self) -> (r: Self) {
        match &self.head {
            None => PStack { len: self.len, head: None },
            Some(h) => PStack { len: self.len, head: Some(Rc::clone(h)) },
        }
    }
}

impl<T> Default for PStack<T> {
    fn default() -> (r: Self)
        ensures
            r.wf(),
            r@ == Seq::<T>::empty(),
    {
        PStack { head: None, len: 0 }
    }
}

} // verus!
