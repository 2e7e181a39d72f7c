//! What the library takes from the standard library on trust.

use std::rc::Rc;
use vstd::prelude::*;

verus! {

/// `Rc::clone`: another pointer to the same value, which is not copied.
#[verifier::external_body]
pub(crate) fn share<T>(pointer: &Rc<T>) -> (same: Rc<T>)
    ensures
        same == *pointer,
{
    Rc::clone(pointer)
}

/// `String::push`: appends one character to the end of the text.
#[verifier::external_body]
pub(crate) fn push_char(text: &mut String, c: char)
    ensures
        final(text)@ == old(text)@.push(c),
{
    text.push(c)
}

} // verus!
