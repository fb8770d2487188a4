//! Conversions between the ids used at the call boundary (`usize`) and the
//! ids used by the row storage (`i32`).

use vstd::prelude::*;

verus! {

/// Narrows a `usize` id to the `i32` representation a relational row uses.
pub fn usize_to_i32(n: usize) -> (r: i32)
    requires
        n <= i32::MAX as usize,
    ensures
        r == n as i32,
        r >= 0,
{
    n as i32
}

/// Widens a non-negative `i32` row id back to a `usize`.
pub fn i32_to_usize(n: i32) -> (r: usize)
    requires
        n >= 0,
    ensures
        r == n as usize,
        r as int == n as int,
{
    n as usize
}

} // verus!
