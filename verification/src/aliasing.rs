//! Two small demonstrations of what Rust's aliasing rules let a caller
//! conclude about writes made through references.

use vstd::prelude::*;

verus! {

/// Because `input` and `output` cannot alias, at most one of the two
/// conditional writes happens: the result is 2 exactly when `*input == 1`,
/// and 3 otherwise.
pub fn noalias(input: &i32, output: &mut i32)
    ensures
        *input == 1 ==> *final(output) == 2,
        *input != 1 ==> *final(output) == 3,
{
    if *input == 1 {
        *output = 2;
    }
    if *input != 1 {
        *output = 3;
    }
}

/// Exchanges the value behind an exclusive reference for a fresh box
/// holding 84, and checks that what came out is not itself 84. The
/// precondition guarantees that, so the check is a proof rather than a
/// runtime abort.
pub fn replace_with_84(s: &mut Box<i32>)
    requires
        **old(s) != 84,
    ensures
        **final(s) == 84,
{
    let mut r = Box::new(84);
    core::mem::swap(s, &mut r);
    assert(*r != 84);
}

} // verus!
