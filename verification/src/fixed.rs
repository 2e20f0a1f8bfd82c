//! Small fixed-point arithmetic helpers on the [`crate::UNIT`] scale.

use vstd::prelude::*;

use crate::UNIT;

verus! {

/// Quotient of two non-negative numbers.
pub(crate) fn udiv(a: i64, b: i64) -> (r: i64)
    requires
        0 <= a,
        1 <= b,
    ensures
        r == a as int / b as int,
        0 <= r <= a,
{
    proof {
        vstd::arithmetic::div_mod::lemma_div_nonincreasing(a as int, b as int);
        vstd::arithmetic::div_mod::lemma_div_pos_is_pos(a as int, b as int);
    }
    ((a as u64) / (b as u64)) as i64
}

/// Floor quotient of a possibly negative number by a positive one.
pub(crate) fn div_floor(a: i64, b: i64) -> (r: i64)
    requires
        1 <= b,
        -1_000_000_000_000_000_000 <= a <= 1_000_000_000_000_000_000,
    ensures
        r == a as int / b as int,
        a >= 0 ==> 0 <= r <= a,
        a < 0 ==> a <= r <= 0,
{
    if a >= 0 {
        udiv(a, b)
    } else {
        let n = -a;
        proof {
            vstd::arithmetic::div_mod::lemma_fundamental_div_mod(n as int, b as int);
            vstd::arithmetic::div_mod::lemma_mod_pos_bound(n as int, b as int);
            vstd::arithmetic::div_mod::lemma_div_nonincreasing(n as int, b as int);
            vstd::arithmetic::div_mod::lemma_div_pos_is_pos(n as int, b as int);
        }
        let q0 = ((n as u64) / (b as u64)) as i64;
        let m = ((n as u64) % (b as u64)) as i64;
        if m == 0 {
            proof {
                assert(n as int == b * (q0 as int) + m);
                assert((-(q0 as int)) * b == -(b * (q0 as int))) by (nonlinear_arith);
                vstd::arithmetic::div_mod::lemma_fundamental_div_mod_converse(
                    a as int, b as int, -(q0 as int), 0);
                assert(a as int <= -(q0 as int)) by (nonlinear_arith)
                    requires
                        a as int == (-(q0 as int)) * b,
                        1 <= b,
                        q0 >= 0,
                ;
            }
            -q0
        } else {
            proof {
                assert(n as int == b * (q0 as int) + m);
                assert((-(q0 as int) - 1) * b == -(b * (q0 as int)) - b) by (nonlinear_arith);
                vstd::arithmetic::div_mod::lemma_fundamental_div_mod_converse(
                    a as int, b as int, -(q0 as int) - 1, b - m);
                assert(a as int <= -(q0 as int) - 1) by (nonlinear_arith)
                    requires
                        a as int == (-(q0 as int) - 1) * b + (b - m),
                        1 <= b,
                        0 < m < b,
                        q0 >= 0,
                        a < 0,
                ;
            }
            -(q0 + 1)
        }
    }
}

/// `a` scaled by the gain `w / UNIT`, rounding the magnitude down.
pub open spec fn scale_spec(a: int, w: int) -> int {
    if w >= 0 {
        a * w / (UNIT as int)
    } else {
        -((a * -w) / (UNIT as int))
    }
}

/// The scaled value never exceeds `a` in magnitude.
pub proof fn lemma_scale_bound(a: int, w: int)
    requires
        0 <= a,
        -UNIT <= w <= UNIT,
    ensures
        -a <= scale_spec(a, w) <= a,
{
    if w >= 0 {
        assert(a * w <= a * UNIT) by (nonlinear_arith)
            requires
                0 <= a,
                w <= UNIT,
        ;
        assert(a * w >= 0) by (nonlinear_arith)
            requires
                0 <= a,
                0 <= w,
        ;
        vstd::arithmetic::div_mod::lemma_div_is_ordered(a * w, a * UNIT, UNIT as int);
        vstd::arithmetic::div_mod::lemma_div_by_multiple(a, UNIT as int);
        vstd::arithmetic::div_mod::lemma_div_pos_is_pos(a * w, UNIT as int);
    } else {
        assert(a * -w <= a * UNIT) by (nonlinear_arith)
            requires
                0 <= a,
                -w <= UNIT,
        ;
        assert(a * -w >= 0) by (nonlinear_arith)
            requires
                0 <= a,
                0 <= -w,
        ;
        vstd::arithmetic::div_mod::lemma_div_is_ordered(a * -w, a * UNIT, UNIT as int);
        vstd::arithmetic::div_mod::lemma_div_by_multiple(a, UNIT as int);
        vstd::arithmetic::div_mod::lemma_div_pos_is_pos(a * -w, UNIT as int);
    }
}

/// Scaling by a gain of at most 1 never grows a sample's magnitude.
pub proof fn lemma_scale_bound_wide(a: int, w: int)
    requires
        0 <= a <= UNIT,
    ensures
        w >= 0 ==> 0 <= scale_spec(a, w) <= w,
        w < 0 ==> w <= scale_spec(a, w) <= 0,
{
    if w >= 0 {
        assert(0 <= a * w && a * w <= UNIT * w) by (nonlinear_arith)
            requires
                0 <= a <= UNIT,
                0 <= w,
        ;
        vstd::arithmetic::div_mod::lemma_div_is_ordered(a * w, UNIT * w, UNIT as int);
        vstd::arithmetic::div_mod::lemma_div_multiples_vanish(w, UNIT as int);
        vstd::arithmetic::div_mod::lemma_div_pos_is_pos(a * w, UNIT as int);
    } else {
        assert(0 <= a * -w && a * -w <= UNIT * (-w)) by (nonlinear_arith)
            requires
                0 <= a <= UNIT,
                w < 0,
        ;
        vstd::arithmetic::div_mod::lemma_div_is_ordered(a * -w, UNIT * (-w), UNIT as int);
        vstd::arithmetic::div_mod::lemma_div_multiples_vanish(-w, UNIT as int);
        vstd::arithmetic::div_mod::lemma_div_pos_is_pos(a * -w, UNIT as int);
    }
}

/// Scale the gain `a / UNIT` onto a sample `w` of larger magnitude.
pub fn scale_wide(a: i64, w: i64) -> (r: i64)
    requires
        0 <= a <= UNIT,
        -1_000_000_000_000 <= w <= 1_000_000_000_000,
    ensures
        r == scale_spec(a as int, w as int),
        -1_000_000_000_000 <= r <= 1_000_000_000_000,
        w >= 0 ==> 0 <= r <= w,
        w < 0 ==> w <= r <= 0,
{
    proof {
        if w >= 0 {
            assert(0 <= a * w && a * w <= UNIT * w) by (nonlinear_arith)
                requires
                    0 <= a <= UNIT,
                    0 <= w,
            ;
            vstd::arithmetic::div_mod::lemma_div_is_ordered(a * w, UNIT * w, UNIT as int);
            vstd::arithmetic::div_mod::lemma_div_multiples_vanish(w as int, UNIT as int);
            vstd::arithmetic::div_mod::lemma_div_pos_is_pos(a * w, UNIT as int);
        } else {
            assert(0 <= a * -w && a * -w <= UNIT * (-w)) by (nonlinear_arith)
                requires
                    0 <= a <= UNIT,
                    w < 0,
            ;
            vstd::arithmetic::div_mod::lemma_div_is_ordered(a * -w, UNIT * (-w), UNIT as int);
            vstd::arithmetic::div_mod::lemma_div_multiples_vanish(-w as int, UNIT as int);
            vstd::arithmetic::div_mod::lemma_div_pos_is_pos(a * -w, UNIT as int);
        }
    }
    if w >= 0 {
        udiv(a * w, UNIT)
    } else {
        -udiv(a * -w, UNIT)
    }
}

/// Scale `a` (a non-negative value up to [`UNIT`]) by the gain `w / UNIT`.
pub fn scale_gain(a: i64, w: i64) -> (r: i64)
    requires
        0 <= a <= UNIT,
        -UNIT <= w <= UNIT,
    ensures
        r == scale_spec(a as int, w as int),
        -a <= r <= a,
{
    proof {
        lemma_scale_bound(a as int, w as int);
        assert(a * w <= UNIT * UNIT && a * w >= -(UNIT * UNIT) && a * -w <= UNIT
            * UNIT) by (nonlinear_arith)
            requires
                0 <= a <= UNIT,
                -UNIT <= w <= UNIT,
        ;
    }
    if w >= 0 {
        udiv(a * w, UNIT)
    } else {
        -udiv(a * -w, UNIT)
    }
}

} // verus!
