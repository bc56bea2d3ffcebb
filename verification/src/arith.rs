//! Truncating signed division and remainder — what the executable `/`
//! and `%` compute on signed integers — modeled over the Euclidean
//! operators of specification arithmetic, with the basic algebra the
//! other modules need.

use vstd::prelude::*;
use vstd::arithmetic::div_mod::{
    lemma_fundamental_div_mod, lemma_basic_div, lemma_small_mod, lemma_mod_pos_bound,
    lemma_div_multiples_vanish, lemma_mod_multiples_basic, lemma_div_nonincreasing,
    lemma_div_non_zero, lemma_div_pos_is_pos,
};
use vstd::arithmetic::mul::{lemma_mul_unary_negation, lemma_mul_by_zero_is_zero};

verus! {

/// The magnitude of `x`: `x` itself when nonnegative, `-x` otherwise.
pub open spec fn mag(x: int) -> int {
    if x >= 0 {
        x
    } else {
        -x
    }
}

/// Truncating division: the value the executable `/` returns on signed
/// integers, with the quotient rounded toward zero.
pub open spec fn tdiv(a: int, b: int) -> int {
    if a >= 0 {
        a / b
    } else {
        -((-a) / b)
    }
}

/// Truncating remainder: the value the executable `%` returns on signed
/// integers; its sign follows the dividend.
pub open spec fn tmod(a: int, b: int) -> int {
    if a >= 0 {
        a % b
    } else {
        -((-a) % b)
    }
}

/// Euclidean division of a nonnegative integer by a negated positive
/// divisor flips the quotient and keeps the remainder.
proof fn lemma_div_neg_divisor(x: int, b: int)
    requires
        0 <= x,
        0 < b,
    ensures
        x / (-b) == -(x / b),
        x % (-b) == x % b,
{
    assert(x / (-b) == -(x / b) && x % (-b) == x % b) by (nonlinear_arith)
        requires
            0 <= x,
            0 < b,
    ;
}

/// Truncating division and remainder expressed by magnitudes: the
/// quotient's magnitude is `mag(a) / mag(b)`, its sign is the product of
/// the operands' signs, and the remainder's magnitude is
/// `mag(a) % mag(b)` with the dividend's sign.
pub proof fn lemma_trunc_by_mag(a: int, b: int)
    requires
        b != 0,
    ensures
        tdiv(a, b) == if (a >= 0) == (b >= 0) {
            mag(a) / mag(b)
        } else {
            -(mag(a) / mag(b))
        },
        tmod(a, b) == if a >= 0 {
            mag(a) % mag(b)
        } else {
            -(mag(a) % mag(b))
        },
{
    if b < 0 {
        if a >= 0 {
            lemma_div_neg_divisor(a, -b);
        } else {
            lemma_div_neg_divisor(-a, -b);
        }
    }
}

/// The fundamental identity of truncating division:
/// `a == b * tdiv(a, b) + tmod(a, b)`, with the remainder's magnitude
/// strictly below the divisor's.
pub proof fn lemma_trunc_fundamental(a: int, b: int)
    requires
        b != 0,
    ensures
        a == b * tdiv(a, b) + tmod(a, b),
        mag(tmod(a, b)) < mag(b),
        0 <= mag(tdiv(a, b)) <= mag(a),
{
    lemma_trunc_by_mag(a, b);
    lemma_fundamental_div_mod(mag(a), mag(b));
    lemma_mod_pos_bound(mag(a), mag(b));
    lemma_div_pos_is_pos(mag(a), mag(b));
    lemma_div_nonincreasing(mag(a), mag(b));
    let q = mag(a) / mag(b);
    let r = mag(a) % mag(b);
    assert(mag(a) == mag(b) * q + r);
    if a >= 0 {
        if b >= 0 {
            assert(a == b * q + r);
        } else {
            assert(b * (-q) == -(b * q)) by {
                lemma_mul_unary_negation(b, q);
            }
            assert((-b) * q == -(b * q)) by {
                lemma_mul_unary_negation(b, q);
            }
            assert(a == b * (-q) + r);
        }
    } else {
        if b >= 0 {
            assert(b * (-q) == -(b * q)) by {
                lemma_mul_unary_negation(b, q);
            }
            assert(a == b * (-q) + (-r));
        } else {
            assert((-b) * q == -(b * q)) by {
                lemma_mul_unary_negation(b, q);
            }
            assert(a == b * q + (-r));
        }
    }
}

/// Dividing by a strictly larger magnitude truncates to zero and leaves
/// the dividend as the remainder.
pub proof fn lemma_trunc_small(a: int, b: int)
    requires
        b != 0,
        mag(a) < mag(b),
    ensures
        tdiv(a, b) == 0,
        tmod(a, b) == a,
{
    lemma_trunc_by_mag(a, b);
    lemma_basic_div(mag(a), mag(b));
    lemma_small_mod(mag(a) as nat, mag(b) as nat);
}

/// An exact multiple divides back to its cofactor with remainder zero:
/// `tdiv(t * b, b) == t` and `tmod(t * b, b) == 0`.
pub proof fn lemma_trunc_exact(t: int, b: int)
    requires
        b != 0,
    ensures
        tdiv(t * b, b) == t,
        tmod(t * b, b) == 0,
{
    lemma_trunc_by_mag(t * b, b);
    assert(mag(t * b) == mag(t) * mag(b)) by (nonlinear_arith);
    assert(((t > 0 && b > 0) || (t < 0 && b < 0)) ==> t * b > 0) by (nonlinear_arith);
    assert(((t > 0 && b < 0) || (t < 0 && b > 0)) ==> t * b < 0) by (nonlinear_arith);
    assert(t == 0 ==> t * b == 0) by {
        lemma_mul_by_zero_is_zero(b);
    }
    lemma_div_multiples_vanish(mag(t), mag(b));
    assert((mag(b) * mag(t)) / mag(b) == mag(t));
    assert(mag(b) * mag(t) == mag(t) * mag(b)) by {
        vstd::arithmetic::mul::lemma_mul_is_commutative(mag(b), mag(t));
    }
    assert(mag(t * b) / mag(b) == mag(t));
    lemma_mod_multiples_basic(mag(t), mag(b));
    assert((mag(t) * mag(b)) % mag(b) == 0);
    if t == 0 {
        assert(tdiv(t * b, b) == t);
    } else if t > 0 {
        if b > 0 {
            assert(t * b > 0);
            assert(tdiv(t * b, b) == mag(t * b) / mag(b));
        } else {
            assert(t * b < 0);
            assert(tdiv(t * b, b) == mag(t * b) / mag(b));
        }
    } else {
        if b > 0 {
            assert(t * b < 0);
            assert(tdiv(t * b, b) == -(mag(t * b) / mag(b)));
            assert(tdiv(t * b, b) == -mag(t));
        } else {
            assert(t * b > 0);
            assert(tdiv(t * b, b) == -(mag(t * b) / mag(b)));
            assert(tdiv(t * b, b) == -mag(t));
        }
    }
}

/// A remainder of zero means the divisor measures the dividend exactly:
/// the dividend is the divisor times the truncated quotient.
pub proof fn lemma_trunc_divides(a: int, b: int)
    requires
        b != 0,
        tmod(a, b) == 0,
    ensures
        a == b * tdiv(a, b),
{
    lemma_trunc_fundamental(a, b);
}

/// A quotient of magnitude at least one: dividing by a divisor no larger
/// in magnitude than the (nonzero) dividend cannot reach zero.
pub proof fn lemma_trunc_quotient_nonzero(a: int, b: int)
    requires
        b != 0,
        a != 0,
        mag(b) <= mag(a),
    ensures
        mag(tdiv(a, b)) >= 1,
        tdiv(a, b) != 0,
{
    lemma_trunc_by_mag(a, b);
    lemma_div_non_zero(mag(a), mag(b));
}

} // verus!
