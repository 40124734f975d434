//! Which of the boards that were found are shown to the user.

use vstd::prelude::*;

verus! {

/// The number of boards to show out of `found`: all of them, or the first
/// one alone, if there is one, where only the first was asked for.
pub open spec fn shown(found: nat, first_only: bool) -> nat {
    if !first_only {
        found
    } else if found > 0 {
        1
    } else {
        0
    }
}

/// The number of boards to show out of `found`, counted from the first.
pub fn shown_count(found: usize, first_only: bool) -> (count: usize)
    ensures
        count == shown(found as nat, first_only),
        count <= found,
{
    if !first_only {
        found
    } else if found > 0 {
        1
    } else {
        0
    }
}

} // verus!
