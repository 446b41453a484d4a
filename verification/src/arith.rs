//! Saturating arithmetic on costs.

use vstd::prelude::*;

verus! {

/// `x` brought into the range of `i64`.
pub open spec fn clamp(x: int) -> i64 {
    if x > i64::MAX {
        i64::MAX
    } else if x < i64::MIN {
        i64::MIN
    } else {
        x as i64
    }
}

/// The sum of two costs; a sum out of range stays at the end of the range.
pub open spec fn plus(a: i64, b: i64) -> i64 {
    clamp(a + b)
}

/// The difference of two costs; out of range it stays at the end of the range.
pub open spec fn minus(a: i64, b: i64) -> i64 {
    clamp(a - b)
}

/// The sum of a list of costs, from the first to the last.
pub open spec fn total(s: Seq<i64>) -> i64
    decreases s.len(),
{
    if s.len() == 0 {
        0
    } else {
        plus(total(s.drop_last()), s.last())
    }
}

pub fn sat_add(a: i64, b: i64) -> (r: i64)
    ensures
        r == plus(a, b),
{
    match a.checked_add(b) {
        Some(s) => s,
        None => if b > 0 {
            i64::MAX
        } else {
            i64::MIN
        },
    }
}

pub fn sat_sub(a: i64, b: i64) -> (r: i64)
    ensures
        r == minus(a, b),
{
    match a.checked_sub(b) {
        Some(s) => s,
        None => if b < 0 {
            i64::MAX
        } else {
            i64::MIN
        },
    }
}

/// The product of two costs; out of range it stays at the end of the range.
pub open spec fn times(a: i64, b: i64) -> i64 {
    clamp(a * b)
}

/// Division that rounds towards zero.
pub open spec fn quotient(a: i64, b: int) -> i64 {
    if a >= 0 {
        (a as int / b) as i64
    } else {
        (-((-a) / b)) as i64
    }
}

/// A length as a cost.
pub open spec fn count(n: nat) -> i64 {
    clamp(n as int)
}

pub fn sat_mul(a: i64, b: i64) -> (r: i64)
    ensures
        r == times(a, b),
{
    match a.checked_mul(b) {
        Some(p) => p,
        None => {
            proof {
                assert(a * b > 0 <==> ((a > 0 && b > 0) || (a < 0 && b < 0))) by (nonlinear_arith);
                assert(a == 0 || b == 0 ==> a * b == 0) by (nonlinear_arith);
            }
            if (a > 0) == (b > 0) {
                i64::MAX
            } else {
                i64::MIN
            }
        },
    }
}

pub fn count_of(n: usize) -> (r: i64)
    ensures
        r == count(n as nat),
{
    let m: u128 = n as u128;
    if m > 0x7FFF_FFFF_FFFF_FFFF {
        i64::MAX
    } else {
        n as i64
    }
}

/// Sums, differences and products are exact where 64 bits hold them, and stay at the
/// end of the range where they do not.
pub proof fn results_stay_in_range(a: i64, b: i64)
    ensures
        i64::MIN <= a + b <= i64::MAX ==> plus(a, b) == a + b,
        a + b > i64::MAX ==> plus(a, b) == i64::MAX,
        a + b < i64::MIN ==> plus(a, b) == i64::MIN,
        i64::MIN <= a - b <= i64::MAX ==> minus(a, b) == a - b,
        a - b > i64::MAX ==> minus(a, b) == i64::MAX,
        a - b < i64::MIN ==> minus(a, b) == i64::MIN,
        i64::MIN <= a * b <= i64::MAX ==> times(a, b) == a * b,
        a * b > i64::MAX ==> times(a, b) == i64::MAX,
        a * b < i64::MIN ==> times(a, b) == i64::MIN,
{
}

/// A list of costs sums to what the costs before the last sum to, and the last.
pub proof fn totals_grow_by_the_last(s: Seq<i64>, x: i64)
    ensures
        total(s.push(x)) == plus(total(s), x),
        total(Seq::empty()) == 0,
{
    assert(s.push(x).drop_last() =~= s);
}

} // verus!
