//! A persistent singly-linked list with structural sharing.
//!
//! `cons` is O(1): the tail of the new list is shared, behind a
//! reference count, with every other list that was built from it.

use std::rc::Rc;
use vstd::prelude::*;

verus! {

/// An immutable linked list: either a node holding a value and a shared
/// tail, or the empty list.
#[derive(Debug, Clone, PartialEq)]
pub enum List<T> {
    Cons(T, Rc<List<T>>),
    Nil,
}

/// Walks a list, handing out each successive suffix: the first item is
/// the whole list, the next is its tail, and so on until the list is empty.
pub struct ListIterator<T> {
    list: Rc<List<T>>,
}

pub open spec fn seq_of<T>(l: List<T>) -> Seq<T>
    decreases l,
{
    match l {
        List::Nil => Seq::empty(),
        List::Cons(h, t) => seq![h] + seq_of(*t),
    }
}

impl<T> View for List<T> {
    type V = Seq<T>;

    open spec fn view(&self) -> Seq<T> {
        seq_of(*self)
    }
}

impl<T> List<T> {
    /// The empty list.
    pub fn new() -> (r: List<T>)
        ensures
            r@ == Seq::<T>::empty(),
    {
        List::Nil
    }

    /// Prepend one value; the old list becomes the shared tail.
    pub fn cons(self, tp: T) -> (r: List<T>)
        ensures
            r@ == seq![tp] + self@,
    {
        List::Cons(tp, Rc::new(self))
    }

    /// The first element, if there is one.
    pub fn head(&self) -> (r: Option<&T>)
        ensures
            match r {
                Some(v) => self@.len() > 0 && *v == self@[0],
                None => self@.len() == 0,
            },
    {
        match self {
            List::Nil => None,
            List::Cons(tp, _) => Some(tp),
        }
    }

    /// Everything after the first element; the empty list stays empty.
    pub fn tail(&self) -> (r: &List<T>)
        ensures
            self@.len() == 0 ==> r@ == self@,
            self@.len() > 0 ==> r@ == self@.drop_first(),
    {
        match self {
            List::Nil => self,
            List::Cons(_, t) => &**t,
        }
    }

    /// The number of elements, by walking the chain.
    pub fn len(&self) -> (r: u32)
        requires
            self@.len() <= u32::MAX,
        ensures
            r == self@.len(),
        decreases *self,
    {
        match self {
            List::Nil => 0,
            List::Cons(_, t) => (**t).len() + 1,
        }
    }

    /// Start walking the suffixes of this list.
    pub fn into_iter(self) -> (r: ListIterator<T>)
        ensures
            r@ == self@,
    {
        ListIterator { list: Rc::new(self) }
    }
}

impl<T: Clone> List<T> {
    /// A new list holding clones of this list's elements in reverse
    /// order; the original is left untouched.
    pub fn reverse(&self) -> (r: List<T>)
        ensures
            r@.len() == self@.len(),
            forall|j: int|
                0 <= j < self@.len() ==> cloned::<T>(self@[self@.len() - 1 - j], #[trigger] r@[j]),
    {
        Self::reverse_(self, List::new())
    }

    fn reverse_(rest: &List<T>, acc: List<T>) -> (r: List<T>)
        ensures
            r@.len() == rest@.len() + acc@.len(),
            forall|j: int|
                0 <= j < rest@.len() ==> cloned::<T>(rest@[rest@.len() - 1 - j], #[trigger] r@[j]),
            forall|j: int| rest@.len() <= j < r@.len() ==> #[trigger] r@[j] == acc@[j - rest@.len()],
        decreases *rest,
    {
        match rest {
            List::Nil => acc,
            List::Cons(hd, t) => Self::reverse_(&**t, acc.cons(hd.clone())),
        }
    }
}

impl<T> View for ListIterator<T> {
    type V = Seq<T>;

    closed spec fn view(&self) -> Seq<T> {
        seq_of(*self.list)
    }
}

impl<T> ListIterator<T> {
    /// Hand out the current suffix and step past its first element;
    /// `None` once the remaining suffix is empty.
    pub fn next(&mut self) -> (r: Option<Rc<List<T>>>)
        ensures
            match r {
                Some(suffix) => old(self)@.len() > 0 && seq_of(*suffix) == old(self)@
                    && final(self)@ == old(self)@.drop_first(),
                None => old(self)@.len() == 0 && final(self)@ == old(self)@,
            },
    {
        let cur = self.list.clone();
        match &*cur {
            List::Nil => None,
            List::Cons(_, t) => {
                self.list = t.clone();
                Some(cur)
            },
        }
    }
}

} // verus!
