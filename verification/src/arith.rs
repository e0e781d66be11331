//! Checked integer helpers.

use vstd::prelude::*;

verus! {

/// Adds two integers. The sum must fit in an `i32`.
pub fn my_add(a: i32, b: i32) -> (sum: i32)
    requires
        i32::MIN <= a + b <= i32::MAX,
    ensures
        sum == a + b,
{
    a + b
}

} // verus!
