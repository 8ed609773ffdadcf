//! Retained for callers of the first scaffold.

use vstd::prelude::*;

verus! {

/// Placeholder function returning a greeting.
pub fn hello() -> (res: &'static str)
    ensures
        res@ == "hello from fleet-midi"@,
{
    "hello from fleet-midi"
}

} // verus!
