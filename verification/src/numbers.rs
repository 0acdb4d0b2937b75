//! The larger and the smaller of two numbers.

use vstd::prelude::*;

verus! {

/// The larger of two numbers.
pub open spec fn larger(a: int, b: int) -> int {
    if a >= b {
        a
    } else {
        b
    }
}

/// The smaller of two numbers.
pub open spec fn smaller(a: int, b: int) -> int {
    if a <= b {
        a
    } else {
        b
    }
}

/// The larger of two numbers.
pub fn max_of(a: i32, b: i32) -> (m: i32)
    ensures
        m == larger(a as int, b as int),
{
    if a >= b {
        a
    } else {
        b
    }
}

/// The smaller of two numbers.
pub fn min_of(a: i32, b: i32) -> (m: i32)
    ensures
        m == smaller(a as int, b as int),
{
    if a <= b {
        a
    } else {
        b
    }
}

/// The larger of two numbers is one of them and not less than either; the smaller is one of
/// them and not more than either.
pub proof fn law_one_of_two_is_taken(a: int, b: int)
    ensures
        larger(a, b) == a || larger(a, b) == b,
        larger(a, b) >= a,
        larger(a, b) >= b,
        smaller(a, b) == a || smaller(a, b) == b,
        smaller(a, b) <= a,
        smaller(a, b) <= b,
{
}

}
