//! Fraction reduction: a coefficient/numerator/denominator triple is
//! simplified by extracting a whole-number coefficient and dividing out
//! the largest common factor smaller than the denominator, in a
//! recursive and an iterative form that share one exact contract.

use vstd::prelude::*;
use crate::arith::{
    mag, tdiv, tmod, lemma_trunc_fundamental, lemma_trunc_small, lemma_trunc_exact,
    lemma_trunc_quotient_nonzero,
};

verus! {

/// A basic expression: a coefficient together with a fraction `n / d`.
#[derive(Debug, Default, PartialEq, Eq, Structural, Copy, Clone)]
pub struct Expr {
    /// The coefficient
    pub c: i64,
    /// The numerator of the fraction
    pub n: i64,
    /// The denominator of the fraction
    pub d: i64,
}

impl Expr {
    /// Builds the expression with the given coefficient, numerator and
    /// denominator.
    pub fn new(c: i64, n: i64, d: i64) -> (e: Expr)
        ensures
            e.c == c && e.n == n && e.d == d,
    {
        Expr { c, n, d }
    }
}

/// The mathematical value of a reduction result: coefficient, numerator
/// and denominator as unbounded integers.
pub struct Reduced {
    /// The coefficient
    pub c: int,
    /// The numerator
    pub n: int,
    /// The denominator
    pub d: int,
}

/// The coefficient that the improper-fraction extraction step pulls
/// out: the truncated quotient `n / d`, clamped below at 1.
pub open spec fn extracted_coeff(n: int, d: int) -> int {
    if tdiv(n, d) >= 1 {
        tdiv(n, d)
    } else {
        1
    }
}

/// The largest integer in `[2, m]` that divides both `n` and `d` with
/// no remainder, or 1 when none does.
pub open spec fn largest_common_factor(n: int, d: int, m: int) -> int
    decreases m,
{
    if m < 2 {
        1
    } else if tmod(n, m) == 0 && tmod(d, m) == 0 {
        m
    } else {
        largest_common_factor(n, d, m - 1)
    }
}

/// The whole reduction as a function of the input triple. A zero
/// denominator passes through; an equal numerator and denominator give
/// the unit expression; otherwise the coefficient is extracted, a
/// denominator that is an exact multiple of the numerator
/// short-circuits to a unit numerator, and otherwise the largest common
/// factor smaller than the denominator, if any, is divided out of both.
pub open spec fn reduce_spec(c: int, n: int, d: int) -> Reduced {
    if d == 0 {
        Reduced { c: c, n: n, d: d }
    } else if n == d {
        Reduced { c: 1, n: 1, d: 1 }
    } else {
        let c1 = extracted_coeff(n, d);
        let n1 = tdiv(n, c1);
        if tmod(d, n1) == 0 {
            Reduced { c: c1, n: 1, d: tdiv(d, n1) }
        } else {
            let g = largest_common_factor(n1, d, d - 1);
            if g >= 2 {
                Reduced { c: c1, n: tdiv(n1, g), d: tdiv(d, g) }
            } else {
                Reduced { c: c1, n: n1, d: d }
            }
        }
    }
}

/// The inputs the reduction accepts: a numerator of zero is only
/// allowed alongside a zero (pass-through) or equal denominator, and
/// the two divisions whose quotient could leave the 64-bit range are
/// ruled out.
pub open spec fn reduce_defined(e: Expr) -> bool {
    &&& (e.d != 0 && e.n != e.d ==> e.n != 0)
    &&& !(e.n == i64::MIN && e.d == -1)
    &&& !(e.d == i64::MIN && e.n == -1)
}

/// Whether `r` is `e` with the reduction's contract satisfied.
pub open spec fn reduces_to(e: Expr, r: Expr) -> bool {
    let red = reduce_spec(e.c as int, e.n as int, e.d as int);
    r.c == red.c && r.n == red.n && r.d == red.d
}

/// The truncated quotient and remainder of 64-bit values stay inside
/// the 64-bit range whenever the division itself is defined.
proof fn lemma_trunc_fits(a: i64, b: i64)
    requires
        b != 0,
        !(a == i64::MIN && b == -1),
    ensures
        i64::MIN <= tdiv(a as int, b as int) <= i64::MAX,
        i64::MIN <= tmod(a as int, b as int) <= i64::MAX,
{
    lemma_trunc_fundamental(a as int, b as int);
    let q = tdiv(a as int, b as int);
    if b == 1 {
        assert(a * 1 == a);
        lemma_trunc_exact(a as int, 1);
    } else if b == -1 {
        assert((-(a as int)) * (-1) == a as int) by (nonlinear_arith);
        lemma_trunc_exact(-(a as int), -1);
    } else {
        assert(mag(b as int) >= 2);
        lemma_trunc_mag_product(a as int, b as int);
        assert(2 * mag(q) <= mag(a as int)) by (nonlinear_arith)
            requires
                mag(q) * mag(b as int) <= mag(a as int),
                mag(b as int) >= 2,
                mag(q) >= 0,
        ;
    }
}

/// The magnitude of the truncated quotient, multiplied back by the
/// divisor's magnitude, does not exceed the dividend's magnitude.
proof fn lemma_trunc_mag_product(a: int, b: int)
    requires
        b != 0,
    ensures
        mag(tdiv(a, b)) * mag(b) <= mag(a),
{
    vstd::arithmetic::div_mod::lemma_fundamental_div_mod(mag(a), mag(b));
    vstd::arithmetic::div_mod::lemma_mod_pos_bound(mag(a), mag(b));
    vstd::arithmetic::div_mod::lemma_div_pos_is_pos(mag(a), mag(b));
    crate::arith::lemma_trunc_by_mag(a, b);
    let q = mag(a) / mag(b);
    assert(mag(a) == mag(b) * q + mag(a) % mag(b));
    assert(mag(tdiv(a, b)) == q);
    assert(q * mag(b) == mag(b) * q) by {
        vstd::arithmetic::mul::lemma_mul_is_commutative(q, mag(b));
    }
}

/// Facts about the extraction step for a nonzero numerator and
/// denominator: the clamped coefficient lies between 1 and the
/// numerator's magnitude, the reduced numerator is nonzero and no
/// larger in magnitude, and a numerator smaller in magnitude than the
/// denominator survives the step unchanged.
proof fn lemma_extraction(n: int, d: int)
    requires
        d != 0,
        n != 0,
    ensures
        1 <= extracted_coeff(n, d) <= mag(n),
        tdiv(n, extracted_coeff(n, d)) != 0,
        mag(tdiv(n, extracted_coeff(n, d))) <= mag(n),
        mag(n) < mag(d) ==> extracted_coeff(n, d) == 1 && tdiv(n, extracted_coeff(n, d)) == n,
{
    lemma_trunc_fundamental(n, d);
    let c1 = extracted_coeff(n, d);
    assert(1 <= c1 <= mag(n));
    lemma_trunc_quotient_nonzero(n, c1);
    lemma_trunc_fundamental(n, c1);
    if mag(n) < mag(d) {
        lemma_trunc_small(n, d);
        assert(n * 1 == n);
        lemma_trunc_exact(n, 1);
    }
}

/// A largest-common-factor value other than 1 lies in `[2, m]` and
/// divides both arguments.
pub(crate) proof fn lemma_lcf_found(n: int, d: int, m: int)
    ensures
        largest_common_factor(n, d, m) == 1 || (2 <= largest_common_factor(n, d, m) <= m
            && tmod(n, largest_common_factor(n, d, m)) == 0 && tmod(
            d,
            largest_common_factor(n, d, m),
        ) == 0),
    decreases m,
{
    if m >= 2 && !(tmod(n, m) == 0 && tmod(d, m) == 0) {
        lemma_lcf_found(n, d, m - 1);
    }
}

/// No qualifying factor is missed: any `k` in `[2, m]` dividing both
/// arguments bounds the largest common factor from below.
pub(crate) proof fn lemma_lcf_ge(n: int, d: int, m: int, k: int)
    requires
        2 <= k <= m,
        tmod(n, k) == 0,
        tmod(d, k) == 0,
    ensures
        largest_common_factor(n, d, m) >= k,
    decreases m,
{
    if m > k && !(tmod(n, m) == 0 && tmod(d, m) == 0) {
        lemma_lcf_ge(n, d, m - 1, k);
    }
}

/// What the factor scan leaves behind: the final division step of the
/// reduction applied to the already-extracted expression `e`.
spec fn search_result(e: Expr, r: Expr) -> bool {
    let g = largest_common_factor(e.n as int, e.d as int, e.d as int - 1);
    if g >= 2 {
        r.c == e.c && r.n == tdiv(e.n as int, g) && r.d == tdiv(e.d as int, g)
    } else {
        r == e
    }
}

/// Applies the best factor found by a finished scan: divides the
/// fraction by `gm` when `gm` is a common factor smaller than the
/// denominator, and returns the expression unchanged otherwise.
fn apply_factor(e: Expr, gm: i64) -> (r: Expr)
    requires
        2 <= gm,
        gm == (if largest_common_factor(e.n as int, e.d as int, e.d as int - 1) >= 2 {
            largest_common_factor(e.n as int, e.d as int, e.d as int - 1)
        } else {
            2
        }),
    ensures
        search_result(e, r),
{
    let mut e2 = e;
    let ghost g = largest_common_factor(e.n as int, e.d as int, e.d as int - 1);
    proof {
        lemma_lcf_found(e.n as int, e.d as int, e.d as int - 1);
        lemma_trunc_fundamental(e.n as int, gm as int);
        lemma_trunc_fundamental(e.d as int, gm as int);
    }
    if e2.n % gm == 0 && e2.d % gm == 0 && gm < e2.d {
        proof {
            if g < 2 {
                lemma_lcf_ge(e.n as int, e.d as int, e.d as int - 1, gm as int);
            }
            lemma_trunc_fits(e2.n, gm);
            lemma_trunc_fits(e2.d, gm);
        }
        e2.n = e2.n / gm;
        e2.d = e2.d / gm;
        e2
    } else {
        e2
    }
}

/// The upward scan for the largest common factor, recursively: `m` runs
/// over `[2, d)` while `gm` keeps the best factor seen so far, and the
/// finished scan applies it.
fn search(e: Expr, m: i64, gm: i64) -> (r: Expr)
    requires
        2 <= m,
        e.d >= 2 ==> m <= e.d,
        e.d < 2 ==> m == 2,
        gm == (if largest_common_factor(e.n as int, e.d as int, m as int - 1) >= 2 {
            largest_common_factor(e.n as int, e.d as int, m as int - 1)
        } else {
            2
        }),
    ensures
        search_result(e, r),
    decreases e.d as int - m as int,
{
    if m < e.d {
        proof {
            lemma_trunc_fundamental(e.n as int, m as int);
            lemma_trunc_fundamental(e.d as int, m as int);
        }
        if e.n % m == 0 && e.d % m == 0 {
            search(e, m + 1, m)
        } else {
            search(e, m + 1, gm)
        }
    } else {
        apply_factor(e, gm)
    }
}

/// Recursively reduces the expression: a zero denominator passes
/// through; an equal numerator and denominator give `1(1/1)`; otherwise
/// the whole-number coefficient is extracted and the fraction is
/// simplified by the exact contract of [`reduce_spec`].
pub fn recursive(e: Expr) -> (r: Expr)
    requires
        reduce_defined(e),
    ensures
        reduces_to(e, r),
{
    let mut e2 = e;
    if e2.d == 0 {
        e2
    } else if e2.n == e2.d {
        Expr::new(1, 1, 1)
    } else {
        let ghost n0 = e.n as int;
        let ghost d0 = e.d as int;
        proof {
            lemma_extraction(n0, d0);
            lemma_trunc_fits(e2.n, e2.d);
        }
        let q = e2.n / e2.d;
        e2.c = if q < 1 {
            1
        } else {
            q
        };
        proof {
            assert(e2.c as int == extracted_coeff(n0, d0));
            lemma_trunc_fits(e2.n, e2.c);
        }
        e2.n = e2.n / e2.c;
        let ghost n1 = tdiv(n0, extracted_coeff(n0, d0));
        proof {
            assert(e2.n as int == n1);
            if e2.d == i64::MIN {
                assert(mag(n0) < mag(d0));
            }
            lemma_trunc_fits(e2.d, e2.n);
            lemma_trunc_fundamental(d0, n1);
        }
        if e2.d % e2.n == 0 {
            e2.d = e2.d / e2.n;
            e2.n = 1;
            e2
        } else {
            search(e2, 2, 2)
        }
    }
}

/// Iteratively reduces the expression: the identical contract as
/// [`recursive`], so the two variants provably agree on every accepted
/// input.
pub fn iterative(e: Expr) -> (r: Expr)
    requires
        reduce_defined(e),
    ensures
        reduces_to(e, r),
{
    let mut e2 = e;
    if e2.d == 0 {
        return e2;
    }
    if e2.n == e2.d {
        Expr::new(1, 1, 1)
    } else {
        let ghost n0 = e.n as int;
        let ghost d0 = e.d as int;
        proof {
            lemma_extraction(n0, d0);
            lemma_trunc_fits(e2.n, e2.d);
        }
        let q = e2.n / e2.d;
        e2.c = if q < 1 {
            1
        } else {
            q
        };
        proof {
            assert(e2.c as int == extracted_coeff(n0, d0));
            lemma_trunc_fits(e2.n, e2.c);
        }
        e2.n = e2.n / e2.c;
        let ghost n1 = tdiv(n0, extracted_coeff(n0, d0));
        proof {
            assert(e2.n as int == n1);
            if e2.d == i64::MIN {
                assert(mag(n0) < mag(d0));
            }
            lemma_trunc_fits(e2.d, e2.n);
            lemma_trunc_fundamental(d0, n1);
        }
        if e2.d % e2.n == 0 {
            e2.d = e2.d / e2.n;
            e2.n = 1;
            e2
        } else if e2.d > 1 {
            let mut m: i64 = 2;
            let mut gm: i64 = 2;
            while m < e2.d
                invariant
                    2 <= m,
                    e2.d >= 2,
                    m <= e2.d,
                    e2.n as int == n1,
                    e2.d as int == d0,
                    e2.c as int == extracted_coeff(n0, d0),
                    gm == (if largest_common_factor(n1, d0, m as int - 1) >= 2 {
                        largest_common_factor(n1, d0, m as int - 1)
                    } else {
                        2
                    }),
                decreases e2.d as int - m as int,
            {
                proof {
                    lemma_trunc_fundamental(n1, m as int);
                    lemma_trunc_fundamental(d0, m as int);
                }
                if e2.n % m == 0 && e2.d % m == 0 {
                    gm = m;
                }
                m = m + 1;
            }
            apply_factor(e2, gm)
        } else {
            proof {
                assert(largest_common_factor(n1, d0, d0 - 1) == 1);
            }
            e2
        }
    }
}

} // verus!
