//! Handing out waiter ids from a counter.

use vstd::prelude::*;

verus! {

/// The id after `n`: one more, wrapping to 0 at the top of `usize`.
pub open spec fn next_id(n: usize) -> usize {
    if n == usize::MAX {
        0
    } else {
        (n + 1) as usize
    }
}

/// Takes the counter's value as the new id and moves the counter on by
/// one, wrapping at the top of `usize`.
pub fn take_id(counter: &mut usize) -> (id: usize)
    ensures
        id == *old(counter),
        *final(counter) == next_id(*old(counter)),
{
    let id = *counter;
    *counter = if id == usize::MAX {
        0
    } else {
        id + 1
    };
    id
}

} // verus!
