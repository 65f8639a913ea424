//! Exact integer arithmetic used by the engine.
//!
//! Factor values are 64-bit signed integers. All engine arithmetic
//! saturates at the `i64` range instead of overflowing; the spec functions
//! here state that behaviour exactly so contracts can talk about it.

use vstd::prelude::*;

verus! {

/// Clamp a mathematical integer into the `i64` range.
pub open spec fn sat64(x: int) -> int {
    if x > i64::MAX as int {
        i64::MAX as int
    } else if x < i64::MIN as int {
        i64::MIN as int
    } else {
        x
    }
}

/// Saturating addition on the `i64` range.
pub open spec fn sat_add(a: int, b: int) -> int {
    sat64(a + b)
}

/// Sum of a sequence of integers.
pub open spec fn sum_of(s: Seq<int>) -> int
    decreases s.len(),
{
    if s.len() == 0 {
        0
    } else {
        sum_of(s.drop_last()) + s.last()
    }
}

/// Division truncating toward zero, for a positive divisor. This is the
/// rounding rule hardware division uses; `int` division in specifications
/// is Euclidean, so the negative case is spelled out via magnitudes.
pub open spec fn tdiv(a: int, b: int) -> int {
    if a >= 0 {
        a / b
    } else {
        -((-a) / b)
    }
}

/// Clamp `x` into the interval `[lo, hi]`.
pub open spec fn clamp3(x: int, lo: int, hi: int) -> int {
    if x < lo {
        lo
    } else if x > hi {
        hi
    } else {
        x
    }
}

/// Exact executable counterpart of [`sat_add`].
pub fn saturating_add_i64(a: i64, b: i64) -> (r: i64)
    ensures
        r as int == sat_add(a as int, b as int),
{
    let wide: i128 = a as i128 + b as i128;
    if wide > i64::MAX as i128 {
        i64::MAX
    } else if wide < i64::MIN as i128 {
        i64::MIN
    } else {
        wide as i64
    }
}

/// Additivity of stored updates: applying two deltas one after the other
/// leaves the same value as applying their sum at once, as long as no
/// intermediate result saturates. (At the ends of the `i64` range the
/// saturating update is not additive: from 0, adding `i64::MAX` and then
/// `-1` differs from adding `i64::MAX - 1` only when the first step
/// saturates.)
pub proof fn lemma_sat_add_additive(v: int, d1: int, d2: int)
    requires
        i64::MIN <= v + d1 <= i64::MAX,
        i64::MIN <= v + d1 + d2 <= i64::MAX,
    ensures
        sat_add(sat_add(v, d1), d2) == sat_add(v, d1 + d2),
{
}

} // verus!
