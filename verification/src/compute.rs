use vstd::prelude::*;

verus! {

/// Adds two machine integers. Inputs whose exact sum does not fit in `i32`
/// are not accepted.
pub fn compute(x: i32, y: i32) -> (result: i32)
    requires
        i32::MIN <= x + y <= i32::MAX,
    ensures
        result == x + y,
{
    x + y
}

} // verus!
