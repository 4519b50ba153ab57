//! Floor division on wide integers.
//!
//! Spec-level division on `int` rounds toward negative infinity when the
//! divisor is positive; this module provides an executable division with
//! exactly that meaning, so contracts can state quotients directly.

use vstd::prelude::*;

verus! {

use vstd::arithmetic::div_mod::lemma_div_is_ordered;
use vstd::arithmetic::div_mod::lemma_div_multiples_vanish;
use vstd::arithmetic::div_mod::lemma_fundamental_div_mod;
use vstd::arithmetic::div_mod::lemma_fundamental_div_mod_converse;

/// Multiplying both sides of an inequality by a nonnegative factor keeps it.
pub proof fn lemma_scale_le(n: int, m: int, c: int)
    requires
        n <= m,
        0 <= c,
    ensures
        n * c <= m * c,
{
    assert(n * c <= m * c) by (nonlinear_arith)
        requires
            n <= m,
            0 <= c,
    ;
}

/// Floor division by a positive divisor keeps a symmetric magnitude bound.
pub proof fn lemma_div_floor_bounded(a: int, d: int, c: int)
    requires
        0 < d,
        0 <= c,
        -(d * c) <= a <= d * c,
    ensures
        -c <= a / d <= c,
{
    lemma_div_is_ordered(a, d * c, d);
    lemma_div_is_ordered(-(d * c), a, d);
    lemma_div_multiples_vanish(c, d);
    lemma_div_multiples_vanish(-c, d);
    assert(d * (-c) == -(d * c)) by (nonlinear_arith);
}

/// Magnitude of an integer.
pub open spec fn abs_i(x: int) -> int {
    if x < 0 {
        -x
    } else {
        x
    }
}

/// Smaller of two integers.
pub open spec fn min_i(a: int, b: int) -> int {
    if a < b {
        a
    } else {
        b
    }
}

/// Larger of two integers.
pub open spec fn max_i(a: int, b: int) -> int {
    if a > b {
        a
    } else {
        b
    }
}

/// Quotient of `a` by `d`, rounded toward negative infinity.
pub fn div_floor(a: i128, d: i128) -> (r: i128)
    requires
        0 < d,
        -i128::MAX <= a,
    ensures
        r == a as int / d as int,
{
    if a >= 0 {
        let q: u128 = (a as u128) / (d as u128);
        q as i128
    } else {
        let n: u128 = (-a) as u128;
        let du: u128 = d as u128;
        let q: u128 = n / du;
        let rem: u128 = n % du;
        proof {
            lemma_fundamental_div_mod(n as int, du as int);
        }
        if rem == 0 {
            proof {
                assert(a as int == (-(q as int)) * d as int + 0) by (nonlinear_arith)
                    requires
                        n as int == du as int * (q as int) + rem as int,
                        rem == 0,
                        a as int == -(n as int),
                        du == d,
                ;
                lemma_fundamental_div_mod_converse(a as int, d as int, -(q as int), 0);
            }
            -(q as i128)
        } else {
            proof {
                assert(a as int == (-(q as int) - 1) * d as int + (d as int - rem as int))
                    by (nonlinear_arith)
                    requires
                        n as int == du as int * (q as int) + rem as int,
                        a as int == -(n as int),
                        du == d,
                ;
                lemma_fundamental_div_mod_converse(
                    a as int,
                    d as int,
                    -(q as int) - 1,
                    d as int - rem as int,
                );
            }
            -(q as i128) - 1
        }
    }
}

} // verus!
