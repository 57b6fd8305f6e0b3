//! Mathematical floor and ceiling division on `i64`.
//!
//! Window indices are found by dividing (possibly negative) millisecond
//! offsets by a positive window stride, rounding toward minus infinity;
//! window counts round toward plus infinity. Language-native truncating
//! division rounds toward zero and would misplace every pre-alignment
//! window, so these helpers carry exact contracts.

use vstd::prelude::*;

verus! {

/// Floor of `n / d` for positive `d`. Verus's mathematical `/` on `int` is
/// Euclidean division, which coincides with flooring when the divisor is
/// positive.
pub open spec fn floor_div(n: int, d: int) -> int
    recommends
        d > 0,
{
    n / d
}

/// Ceiling of `n / d` for positive `d`, via the identity
/// `ceil(n / d) == floor((n + d - 1) / d)`.
pub open spec fn ceil_div(n: int, d: int) -> int
    recommends
        d > 0,
{
    (n + d - 1) / d
}

/// The defining property of flooring division: `d * floor_div(n, d)` is the
/// largest multiple of `d` that is at most `n`.
pub proof fn lemma_floor_div_bounds(n: int, d: int)
    requires
        d > 0,
    ensures
        d * floor_div(n, d) <= n,
        n < d * floor_div(n, d) + d,
{
    vstd::arithmetic::div_mod::lemma_fundamental_div_mod(n, d);
    vstd::arithmetic::div_mod::lemma_mod_bound(n, d);
}

/// The defining property of ceiling division: `d * ceil_div(n, d)` is the
/// smallest multiple of `d` that is at least `n`.
pub proof fn lemma_ceil_div_bounds(n: int, d: int)
    requires
        d > 0,
    ensures
        n <= d * ceil_div(n, d),
        d * ceil_div(n, d) < n + d,
{
    lemma_floor_div_bounds(n + d - 1, d);
}

/// Flooring division of `i64` values by a positive divisor.
pub fn div_floor_i64(n: i64, d: i64) -> (q: i64)
    requires
        d > 0,
    ensures
        q == floor_div(n as int, d as int),
{
    proof {
        lemma_floor_div_bounds(n as int, d as int);
        assert(i64::MIN <= n as int / d as int <= i64::MAX) by (nonlinear_arith)
            requires
                d > 0,
                i64::MIN <= n <= i64::MAX,
        ;
    }
    match n.checked_div_euclid(d) {
        Some(q) => q,
        None => 0,
    }
}

/// Ceiling division relates to flooring division by a bump of one whenever
/// the divisor does not divide the dividend evenly.
pub proof fn lemma_ceil_div_from_floor(n: int, d: int)
    requires
        d > 0,
    ensures
        ceil_div(n, d) == floor_div(n, d) + if n % d == 0 { 0int } else { 1int },
{
    vstd::arithmetic::div_mod::lemma_fundamental_div_mod(n, d);
    vstd::arithmetic::div_mod::lemma_mod_bound(n, d);
    let q = n / d;
    let r = n % d;
    if r == 0 {
        assert(n + d - 1 == q * d + (d - 1)) by (nonlinear_arith)
            requires
                n == d * q + r,
                r == 0,
        ;
        vstd::arithmetic::div_mod::lemma_fundamental_div_mod_converse(n + d - 1, d, q, d - 1);
    } else {
        assert(n + d - 1 == (q + 1) * d + (r - 1)) by (nonlinear_arith)
            requires
                n == d * q + r,
        ;
        vstd::arithmetic::div_mod::lemma_fundamental_div_mod_converse(n + d - 1, d, q + 1, r - 1);
    }
}

/// Ceiling division of `i64` values by a positive divisor.
pub fn div_ceil_i64(n: i64, d: i64) -> (q: i64)
    requires
        d > 0,
        ceil_div(n as int, d as int) <= i64::MAX,
    ensures
        q == ceil_div(n as int, d as int),
{
    proof {
        lemma_ceil_div_from_floor(n as int, d as int);
        vstd::arithmetic::div_mod::lemma_mod_bound(n as int, d as int);
    }
    let fq = div_floor_i64(n, d);
    let rem = match n.checked_rem_euclid(d) {
        Some(r) => r,
        None => 0,
    };
    if rem == 0 {
        fq
    } else {
        fq + 1
    }
}

} // verus!
