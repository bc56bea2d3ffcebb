//! The reduction laws: families of inputs on which the exact value of
//! `reduce_spec` — and so of both executable reduction forms — is
//! pinned down in closed form.

use vstd::prelude::*;
use crate::arith::{mag, tdiv, tmod, lemma_trunc_small, lemma_trunc_exact};
use crate::lcd::{
    Reduced, reduce_spec, extracted_coeff, largest_common_factor, lemma_lcf_found, lemma_lcf_ge,
};
use crate::factors::{
    divides, gcd, is_prime, lemma_tmod_divides, lemma_common_divisor_divides_gcd, lemma_gcd_scale,
    lemma_divisor_le, lemma_distinct_primes_coprime,
};

verus! {

/// A zero denominator passes the whole expression through unchanged.
pub proof fn lemma_reduce_zero_denominator(c: int, n: int)
    ensures
        reduce_spec(c, n, 0) == (Reduced { c: c, n: n, d: 0 }),
{
}

/// An equal nonzero numerator and denominator reduce to the unit
/// expression `1(1/1)`.
pub proof fn lemma_reduce_equal_terms(c: int, k: int)
    requires
        k != 0,
    ensures
        reduce_spec(c, k, k) == (Reduced { c: 1, n: 1, d: 1 }),
{
}

/// Scaling a unit numerator: for any nonzero `i` and `m`, the fraction
/// `m / (i * m)` reduces to `1(1/i)`.
pub proof fn lemma_reduce_scaled_unit(c: int, i: int, m: int)
    requires
        i != 0,
        m != 0,
    ensures
        reduce_spec(c, m, i * m) == (Reduced { c: 1, n: 1, d: i }),
{
    let d = i * m;
    assert(d != 0) by (nonlinear_arith)
        requires
            i != 0,
            m != 0,
            d == i * m,
    ;
    if m == d {
        assert(i == 1) by (nonlinear_arith)
            requires
                m == i * m,
                m != 0,
        ;
    } else {
        if i == -1 {
            assert(m == (-1) * d) by (nonlinear_arith)
                requires
                    d == i * m,
                    i == -1,
            ;
            lemma_trunc_exact(-1, d);
            assert(tdiv(m, d) == -1);
        } else {
            assert(mag(d) > mag(m)) by (nonlinear_arith)
                requires
                    d == i * m,
                    m != 0,
                    i != 0,
                    i != 1,
                    i != -1,
            ;
            lemma_trunc_small(m, d);
        }
        assert(extracted_coeff(m, d) == 1);
        assert(m * 1 == m);
        lemma_trunc_exact(m, 1);
        lemma_trunc_exact(i, m);
        assert(tmod(d, m) == 0);
        assert(tdiv(d, m) == i);
    }
}

/// Extracting the coefficient: for nonzero `i` and positive `m`, the
/// fraction `(i * m) / i` reduces to the whole number `m` — the triple
/// `m(1/1)`.
pub proof fn lemma_reduce_whole_multiple(c: int, i: int, m: int)
    requires
        i != 0,
        m >= 1,
    ensures
        reduce_spec(c, i * m, i) == (Reduced { c: m, n: 1, d: 1 }),
{
    let n = i * m;
    if n == i {
        assert(m == 1) by (nonlinear_arith)
            requires
                i * m == i,
                i != 0,
        ;
    } else {
        assert(i * 1 == i);
        assert(m >= 2);
        assert(i * m == m * i) by (nonlinear_arith);
        lemma_trunc_exact(m, i);
        assert(tdiv(n, i) == m);
        assert(extracted_coeff(n, i) == m);
        lemma_trunc_exact(i, m);
        assert(tdiv(n, m) == i);
        assert(1int * i == i);
        lemma_trunc_exact(1, i);
        assert(tmod(i, i) == 0);
        assert(tdiv(i, i) == 1);
    }
}

/// Scaling a reduced prime fraction: for distinct primes `p < q` and
/// any positive common factor `m`, the fraction `(p * m) / (q * m)`
/// reduces back to `1(p/q)`.
pub proof fn lemma_reduce_prime_scale(c: int, p: int, q: int, m: int)
    requires
        is_prime(p),
        is_prime(q),
        p < q,
        m >= 1,
    ensures
        reduce_spec(c, p * m, q * m) == (Reduced { c: 1, n: p, d: q }),
{
    let n = p * m;
    let d = q * m;
    assert(n >= 2 && d > n) by (nonlinear_arith)
        requires
            2 <= p < q,
            m >= 1,
            n == p * m,
            d == q * m,
    ;
    lemma_trunc_small(n, d);
    assert(extracted_coeff(n, d) == 1);
    assert(n * 1 == n);
    lemma_trunc_exact(n, 1);
    assert(tdiv(n, 1) == n);
    if tmod(d, n) == 0 {
        lemma_tmod_divides(d, n);
        let t = choose|t: int| d == #[trigger] (n * t);
        assert(q == p * t) by (nonlinear_arith)
            requires
                d == n * t,
                n == p * m,
                d == q * m,
                m >= 1,
        ;
        assert(divides(p, q));
    } else {
        let g = largest_common_factor(n, d, d - 1);
        lemma_distinct_primes_coprime(p, q);
        lemma_gcd_scale(p, q, m);
        assert(1int * m == m);
        assert(gcd(n, d) == m);
        if m >= 2 {
            assert(n == m * p && d == m * q) by (nonlinear_arith)
                requires
                    n == p * m,
                    d == q * m,
            ;
            lemma_tmod_divides(n, m);
            lemma_tmod_divides(d, m);
            assert(d >= 2 * m) by (nonlinear_arith)
                requires
                    d == q * m,
                    q >= 2,
                    m >= 1,
            ;
            lemma_lcf_ge(n, d, d - 1, m);
            lemma_lcf_found(n, d, d - 1);
            lemma_tmod_divides(n, g);
            lemma_tmod_divides(d, g);
            lemma_common_divisor_divides_gcd(n, d, g);
            lemma_divisor_le(g, m);
            assert(g == m);
            lemma_trunc_exact(p, m);
            lemma_trunc_exact(q, m);
            assert(tdiv(n, g) == p && tdiv(d, g) == q);
        } else {
            lemma_lcf_found(n, d, d - 1);
            if g >= 2 {
                lemma_tmod_divides(n, g);
                lemma_tmod_divides(d, g);
                lemma_common_divisor_divides_gcd(n, d, g);
                lemma_divisor_le(g, m);
            }
            assert(g == 1);
            assert(p * 1 == p);
            assert(q * 1 == q);
            assert(n == p && d == q);
        }
    }
}

} // verus!
