//! Small helpers: the smaller and the larger of two values, and swapping two
//! values in place.
use vstd::prelude::*;

verus! {

/// The smaller of two values (the second one when they are equal).
pub fn min(x: i64, y: i64) -> (r: i64)
    ensures
        r == (if x < y { x } else { y }),
{
    if x < y {
        x
    } else {
        y
    }
}

/// The larger of two values (the second one when they are equal).
pub fn max(x: i64, y: i64) -> (r: i64)
    ensures
        r == (if x > y { x } else { y }),
{
    if x > y {
        x
    } else {
        y
    }
}

/// Swaps two `u8` values in place.
pub fn swap_char(a: &mut u8, b: &mut u8)
    ensures
        *final(a) == *old(b),
        *final(b) == *old(a),
{
    std::mem::swap(a, b);
}

/// Swaps two `i32` values in place.
pub fn swap_int(a: &mut i32, b: &mut i32)
    ensures
        *final(a) == *old(b),
        *final(b) == *old(a),
{
    std::mem::swap(a, b);
}

} // verus!
