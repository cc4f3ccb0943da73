//! Planar coordinates and the exact integer arithmetic the pipeline uses.

use vstd::prelude::*;

verus! {

/// A planar coordinate in the library's fixed-point units.
#[derive(Clone, Copy, PartialEq, Eq, Structural, Debug)]
pub struct Coord {
    pub x: i64,
    pub y: i64,
}

/// Largest coordinate magnitude the transform pipeline accepts.
/// Products of two in-range differences then fit comfortably in `i128`.
pub const COORD_LIMIT: i64 = 0x2000_0000_0000;

/// A scalar small enough for the transform pipeline.
pub open spec fn scalar_in_range(v: int) -> bool {
    -(COORD_LIMIT as int) <= v <= COORD_LIMIT as int
}

/// Both components of `c` are small enough for the transform pipeline.
pub open spec fn coord_in_range(c: Coord) -> bool {
    scalar_in_range(c.x as int) && scalar_in_range(c.y as int)
}

/// Quotient of `n / d` rounded toward zero, the rounding a hardware
/// division performs; the pipeline states all its divisions with it.
pub open spec fn div_trunc(n: int, d: int) -> int
    recommends
        d != 0,
{
    let q = (vstd::math::abs(n) / vstd::math::abs(d)) as int;
    if (n < 0) != (d < 0) {
        -q
    } else {
        q
    }
}

/// `n / d` rounded toward zero.
pub fn div_i128(n: i128, d: i128) -> (r: i128)
    requires
        d != 0,
        n != i128::MIN,
        d != i128::MIN,
    ensures
        r == div_trunc(n as int, d as int),
        vstd::math::abs(r as int) <= vstd::math::abs(n as int),
{
    let nn: u128 = if n < 0 {
        (-n) as u128
    } else {
        n as u128
    };
    let dd: u128 = if d < 0 {
        (-d) as u128
    } else {
        d as u128
    };
    let q: u128 = nn / dd;
    proof {
        assert(nn == vstd::math::abs(n as int));
        assert(dd == vstd::math::abs(d as int));
        vstd::arithmetic::div_mod::lemma_div_basics_5(nn as int, dd as int);
        assert(q <= nn);
    }
    if (n < 0) != (d < 0) {
        -(q as i128)
    } else {
        q as i128
    }
}

/// Exact cancellation: dividing `d * k` by `d` gives back `k`.
pub proof fn lemma_div_trunc_cancel(d: int, k: int)
    requires
        d != 0,
    ensures
        div_trunc(d * k, d) == k,
{
    let n = d * k;
    if d > 0 {
        if k >= 0 {
            vstd::arithmetic::mul::lemma_mul_nonnegative(d, k);
            assert(vstd::math::abs(n) == d * k);
            vstd::arithmetic::div_mod::lemma_div_multiples_vanish(k, d);
        } else {
            vstd::arithmetic::mul::lemma_mul_strictly_positive(d, -k);
            assert(d * (-k) == -(d * k)) by (nonlinear_arith);
            assert(vstd::math::abs(n) == d * (-k));
            vstd::arithmetic::div_mod::lemma_div_multiples_vanish(-k, d);
            assert(vstd::math::abs(n) / vstd::math::abs(d) == -k);
        }
    } else {
        let e = -d;
        assert(e > 0);
        if k >= 0 {
            vstd::arithmetic::mul::lemma_mul_nonnegative(e, k);
            assert(e * k == -(d * k)) by (nonlinear_arith)
                requires
                    e == -d,
            ;
            assert(vstd::math::abs(n) == e * k);
            vstd::arithmetic::div_mod::lemma_div_multiples_vanish(k, e);
            assert(vstd::math::abs(n) / vstd::math::abs(d) == k);
            if k == 0 {
                assert(div_trunc(n, d) == 0);
            } else {
                assert(n < 0) by (nonlinear_arith)
                    requires
                        d < 0,
                        k > 0,
                        n == d * k,
                ;
            }
        } else {
            vstd::arithmetic::mul::lemma_mul_strictly_positive(e, -k);
            assert(e * (-k) == d * k) by (nonlinear_arith)
                requires
                    e == -d,
            ;
            assert(n > 0);
            assert(vstd::math::abs(n) == e * (-k));
            vstd::arithmetic::div_mod::lemma_div_multiples_vanish(-k, e);
            assert(vstd::math::abs(n) / vstd::math::abs(d) == -k);
        }
    }
}

/// Division by a positive amount keeps order.
pub proof fn lemma_div_trunc_ordered(a: int, b: int, d: int)
    requires
        a <= b,
        0 < d,
    ensures
        div_trunc(a, d) <= div_trunc(b, d),
{
    if 0 <= a {
        vstd::arithmetic::div_mod::lemma_div_is_ordered(a, b, d);
    } else if b < 0 {
        vstd::arithmetic::div_mod::lemma_div_is_ordered(-b, -a, d);
    } else {
        vstd::arithmetic::div_mod::lemma_div_pos_is_pos(-a, d);
        vstd::arithmetic::div_mod::lemma_div_pos_is_pos(b, d);
    }
}

} // verus!
