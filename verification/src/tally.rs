//! Counting how often each outcome of a simulation comes.
use vstd::prelude::*;

verus! {

/// The count of an outcome after one more sample of it: one more than before, or `first`
/// for an outcome not seen yet.
pub fn counted(previous: Option<usize>, first: usize) -> (r: usize)
    requires
        previous matches Some(n) ==> n < usize::MAX,
    ensures
        r == match previous {
            Some(n) => n + 1,
            None => first as int,
        },
{
    match previous {
        Some(n) => n + 1,
        None => first,
    }
}

} // verus!
