//! An array of numbers, all 0 at first, whose earlier versions stay valid after a change.

use crate::shared::share;
use std::rc::Rc;
use vstd::prelude::*;

verus! {

/// A version of the array: a tree with twenty branches at every node. The node at the root
/// holds the number at index 0; the number at another index `i` lies in the branch `i % 20`,
/// there at index `i / 20`.
#[derive(Debug)]
pub enum PersistentArray {
    Cons(usize, Vec<Rc<PersistentArray>>),
    Nil,
}

impl Clone for PersistentArray {
    fn clone(&self) -> (array: Self)
        ensures
            array.wf() == self.wf(),
            forall|i: nat| array.at(i) == self.at(i),
    {
        match self {
            PersistentArray::Cons(value, children) => {
                let copies = PersistentArray::share_all(children);
                PersistentArray::Cons(*value, copies)
            },
            PersistentArray::Nil => PersistentArray::Nil,
        }
    }
}

impl PersistentArray {
    /// Whether every node has its twenty branches.
    pub open spec fn wf(&self) -> bool
        decreases self,
    {
        match self {
            PersistentArray::Cons(_, children) => children@.len() == 20 && forall|k: int|
                0 <= k < children@.len() ==> (#[trigger] children@[k]).wf(),
            PersistentArray::Nil => true,
        }
    }

    /// The number at `index`.
    pub open spec fn at(&self, index: nat) -> usize
        decreases self,
    {
        match self {
            PersistentArray::Cons(value, children) => if index == 0 {
                *value
            } else if index % 20 < children@.len() {
                children@[(index % 20) as int].at(index / 20)
            } else {
                0
            },
            PersistentArray::Nil => 0,
        }
    }

    fn share_all(children: &Vec<Rc<PersistentArray>>) -> (copies: Vec<Rc<PersistentArray>>)
        ensures
            copies@ == children@,
    {
        let mut copies: Vec<Rc<PersistentArray>> = Vec::new();
        let mut k: usize = 0;
        while k < children.len()
            invariant
                k <= children@.len(),
                copies@ == children@.take(k as int),
            decreases children@.len() - k,
        {
            copies.push(share(&children[k]));
            proof {
                assert(copies@ =~= children@.take(k + 1));
            }
            k += 1;
        }
        proof {
            assert(children@.take(k as int) =~= children@);
        }
        copies
    }

    /// Makes the array that holds 0 everywhere.
    pub fn new() -> (array: Rc<PersistentArray>)
        ensures
            array.wf(),
            forall|i: nat| array.at(i) == 0,
    {
        Rc::new(PersistentArray::Nil)
    }

    /// Returns the version that holds `value` at `index` and is this one everywhere else;
    /// this one stays as it is.
    pub fn set(&self, index: usize, value: usize) -> (next: Rc<PersistentArray>)
        requires
            self.wf(),
        ensures
            next.wf(),
            forall|i: nat|
                #[trigger] next.at(i) == if i == index {
                    value
                } else {
                    self.at(i)
                },
        decreases index,
    {
        let mut new_value: usize = 0;
        let mut new_children: Vec<Rc<PersistentArray>> = Vec::new();
        match self {
            PersistentArray::Cons(prev_value, prev_children) => {
                new_value = *prev_value;
                new_children = PersistentArray::share_all(prev_children);
            },
            PersistentArray::Nil => {
                let mut k: usize = 0;
                while k < 20
                    invariant
                        k <= 20,
                        new_children@.len() == k,
                        forall|j: int|
                            0 <= j < k ==> (#[trigger] new_children@[j]) == PersistentArray::Nil,
                    decreases 20 - k,
                {
                    new_children.push(Rc::new(PersistentArray::Nil));
                    k += 1;
                }
            },
        }
        let ghost before = new_children@;
        proof {
            assert forall|k: int| 0 <= k < 20 implies (#[trigger] before[k]).wf() by {}
            assert forall|i: nat| i != 0 implies #[trigger] before[(i % 20) as int].at(i / 20)
                == self.at(i) by {}
        }
        let ghost root = new_value;
        proof {
            assert(root == self.at(0));
        }
        if index == 0 {
            new_value = value;
        } else {
            let branch = new_children[index % 20].set(index / 20, value);
            new_children.set(index % 20, branch);
        }
        let ghost after = new_children@;
        let next = Rc::new(PersistentArray::Cons(new_value, new_children));
        proof {
            assert forall|k: int| 0 <= k < 20 implies (#[trigger] after[k]).wf() by {
                if index == 0 || k != index % 20 {
                    assert(after[k] == before[k]);
                }
            }
            assert forall|i: nat|
                #[trigger] next.at(i) == if i == index {
                    value
                } else {
                    self.at(i)
                } by {
                if i != 0 {
                    let k = (i % 20) as int;
                    assert(next.at(i) == after[k].at(i / 20));
                    assert(before[k].at(i / 20) == self.at(i));
                    if index != 0 && k == index % 20 {
                        let branch = after[k];
                        assert(branch.at(i / 20) == if i / 20 == index / 20 {
                            value
                        } else {
                            before[k].at(i / 20)
                        });
                        if i / 20 == index / 20 {
                            assert(i == index);
                        }
                    } else {
                        assert(after[k] == before[k]);
                    }
                }
            }
        }
        next
    }

    /// Returns the number at `index`.
    pub fn get(&self, index: usize) -> (value: usize)
        requires
            self.wf(),
        ensures
            value == self.at(index as nat),
        decreases index,
    {
        match self {
            PersistentArray::Cons(value, children) => {
                if index == 0 {
                    *value
                } else {
                    children[index % 20].get(index / 20)
                }
            },
            PersistentArray::Nil => 0,
        }
    }
}

} // verus!
