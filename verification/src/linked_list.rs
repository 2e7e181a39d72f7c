//! A singly linked list of numbers.

use crate::shared::push_char;
use vstd::prelude::*;

verus! {

/// A list of numbers, the newest in front.
#[derive(Debug)]
pub enum LinkedList {
    Cons(usize, Box<LinkedList>),
    Nil,
}

/// The character that stands for the digit `d`.
pub open spec fn digit_of(d: int) -> char {
    if d == 0 {
        '0'
    } else if d == 1 {
        '1'
    } else if d == 2 {
        '2'
    } else if d == 3 {
        '3'
    } else if d == 4 {
        '4'
    } else if d == 5 {
        '5'
    } else if d == 6 {
        '6'
    } else if d == 7 {
        '7'
    } else if d == 8 {
        '8'
    } else {
        '9'
    }
}

/// The decimal digits of `n`, without leading zeros.
pub open spec fn decimal(n: nat) -> Seq<char>
    decreases n,
{
    if n < 10 {
        seq![digit_of(n as int)]
    } else {
        decimal(n / 10).push(digit_of((n % 10) as int))
    }
}

/// The text of a list: every element in decimal, each followed by a comma and a space, and
/// the word `Nil` at the end.
pub open spec fn rendering(items: Seq<usize>) -> Seq<char>
    decreases items.len(),
{
    if items.len() == 0 {
        seq!['N', 'i', 'l']
    } else {
        decimal(items[0] as nat) + seq![',', ' '] + rendering(items.skip(1))
    }
}

fn digit_char(d: usize) -> (c: char)
    requires
        d < 10,
    ensures
        c == digit_of(d as int),
{
    if d == 0 {
        '0'
    } else if d == 1 {
        '1'
    } else if d == 2 {
        '2'
    } else if d == 3 {
        '3'
    } else if d == 4 {
        '4'
    } else if d == 5 {
        '5'
    } else if d == 6 {
        '6'
    } else if d == 7 {
        '7'
    } else if d == 8 {
        '8'
    } else {
        '9'
    }
}

fn push_decimal(text: &mut String, n: usize)
    ensures
        final(text)@ == old(text)@ + decimal(n as nat),
    decreases n,
{
    if n >= 10 {
        push_decimal(text, n / 10);
    }
    push_char(text, digit_char(n % 10));
    proof {
        if n >= 10 {
            assert(text@ =~= old(text)@ + decimal(n as nat));
        } else {
            assert(text@ =~= old(text)@ + decimal(n as nat));
        }
    }
}

impl Clone for LinkedList {
    fn clone(&self) -> (list: Self)
        ensures
            list == *self,
        decreases self,
    {
        match self {
            LinkedList::Cons(head, tail) => LinkedList::Cons(
                *head,
                Box::new((&**tail).clone()),
            ),
            LinkedList::Nil => LinkedList::Nil,
        }
    }
}

impl LinkedList {
    /// The elements, the newest first.
    pub open spec fn view(&self) -> Seq<usize>
        decreases self,
    {
        match self {
            LinkedList::Cons(head, tail) => seq![*head] + tail.view(),
            LinkedList::Nil => Seq::empty(),
        }
    }

    /// Makes the empty list.
    pub fn new() -> (list: LinkedList)
        ensures
            list@ == Seq::<usize>::empty(),
    {
        LinkedList::Nil
    }

    /// Puts `element` in front of the list.
    pub fn prepend(self, element: usize) -> (list: LinkedList)
        ensures
            list@ == seq![element] + self@,
    {
        LinkedList::Cons(element, Box::new(self))
    }

    /// Returns the number of elements.
    pub fn len(&self) -> (n: usize)
        requires
            self@.len() <= usize::MAX,
        ensures
            n == self@.len(),
        decreases self,
    {
        match self {
            LinkedList::Cons(_, tail) => 1 + tail.len(),
            LinkedList::Nil => 0,
        }
    }

    fn render_into(&self, text: &mut String)
        ensures
            final(text)@ == old(text)@ + rendering(self@),
        decreases self,
    {
        match self {
            LinkedList::Cons(head, tail) => {
                push_decimal(text, *head);
                push_char(text, ',');
                push_char(text, ' ');
                tail.render_into(text);
                proof {
                    assert(self@.skip(1) =~= tail@);
                    assert(text@ =~= old(text)@ + rendering(self@));
                }
            },
            LinkedList::Nil => {
                push_char(text, 'N');
                push_char(text, 'i');
                push_char(text, 'l');
                proof {
                    assert(text@ =~= old(text)@ + rendering(self@));
                }
            },
        }
    }

    /// Returns the list as text: every element in decimal, each followed by a comma and a
    /// space, and the word `Nil` at the end.
    pub fn stringify(&self) -> (text: String)
        ensures
            text@ == rendering(self@),
    {
        let mut text = String::new();
        self.render_into(&mut text);
        proof {
            assert(text@ =~= rendering(self@));
        }
        text
    }
}

} // verus!
