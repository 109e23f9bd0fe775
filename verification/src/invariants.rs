//! Invariants that must hold at a point of the program.

use vstd::prelude::*;

verus! {

/// States an invariant that must hold here. Callers prove `cond`; the
/// message says what the invariant is.
pub fn assert_invariant(cond: bool, msg: &str)
    requires
        cond,
{
}

} // verus!
