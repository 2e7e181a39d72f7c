//! A stack whose earlier versions stay valid after a push or a pop.

use crate::shared::share;
use std::rc::Rc;
use vstd::prelude::*;

verus! {

/// A version of the stack: the top element and the version below it, or the empty stack.
#[derive(Debug)]
pub enum PersistentStack {
    Cons(usize, Rc<PersistentStack>),
    Nil,
}

impl Clone for PersistentStack {
    fn clone(&self) -> (stack: Self)
        ensures
            stack == *self,
    {
        match self {
            PersistentStack::Cons(value, prev) => PersistentStack::Cons(*value, share(prev)),
            PersistentStack::Nil => PersistentStack::Nil,
        }
    }
}

impl PersistentStack {
    /// The elements, the top first.
    pub open spec fn view(&self) -> Seq<usize>
        decreases self,
    {
        match self {
            PersistentStack::Cons(value, prev) => seq![*value] + prev.view(),
            PersistentStack::Nil => Seq::empty(),
        }
    }

    /// Makes the empty stack.
    pub fn new() -> (stack: PersistentStack)
        ensures
            stack@ == Seq::<usize>::empty(),
    {
        PersistentStack::Nil
    }

    /// Returns the top element, or `None` for the empty stack.
    pub fn top(&self) -> (value: Option<usize>)
        ensures
            value == if self@.len() == 0 {
                None
            } else {
                Some(self@[0])
            },
    {
        match self {
            PersistentStack::Cons(value, _prev) => Some(*value),
            PersistentStack::Nil => None,
        }
    }

    /// Returns the version with `x` on top of this one, which stays as it is.
    pub fn push(self: &Rc<PersistentStack>, x: usize) -> (next: Rc<PersistentStack>)
        ensures
            next@ == seq![x] + self@,
    {
        Rc::new(PersistentStack::Cons(x, share(self)))
    }

    /// Returns the version below the top element, or `None` for the empty stack.
    pub fn pop(&self) -> (below: Option<Rc<PersistentStack>>)
        ensures
            self@.len() == 0 <==> below.is_none(),
            self@.len() > 0 ==> below.unwrap()@ == self@.skip(1),
    {
        match self {
            PersistentStack::Cons(_value, prev) => {
                proof {
                    assert(self@.skip(1) =~= prev@);
                }
                Some(share(prev))
            },
            PersistentStack::Nil => None,
        }
    }
}

} // verus!
