//! Divisibility, greatest common divisors and primes: the number
//! theory behind the reduction laws.

use vstd::prelude::*;
use vstd::arithmetic::div_mod::lemma_fundamental_div_mod;
use vstd::arithmetic::div_mod::lemma_truncate_middle;
use crate::arith::{tmod, lemma_trunc_divides, lemma_trunc_exact};

verus! {

/// Whether `f` measures `a` exactly: some integer cofactor `t` gives
/// `a == f * t`.
pub open spec fn divides(f: int, a: int) -> bool {
    exists|t: int| a == #[trigger] (f * t)
}

/// The greatest common divisor of two nonnegative integers, by
/// Euclid's recursion on the second argument.
pub open spec fn gcd(a: int, b: int) -> int
    decreases (if b > 0 {
        b
    } else {
        0
    }),
{
    if b <= 0 {
        a
    } else {
        gcd(b, a % b)
    }
}

/// Whether `p` is prime: at least 2, and measured by no integer in
/// `[2, p)`.
pub open spec fn is_prime(p: int) -> bool {
    p >= 2 && forall|k: int| 2 <= k < p ==> !divides(k, p)
}

/// A zero truncating remainder is exact divisibility, and conversely.
pub proof fn lemma_tmod_divides(a: int, f: int)
    requires
        f != 0,
    ensures
        tmod(a, f) == 0 <==> divides(f, a),
{
    if tmod(a, f) == 0 {
        lemma_trunc_divides(a, f);
        assert(a == f * crate::arith::tdiv(a, f));
    }
    if divides(f, a) {
        let t = choose|t: int| a == #[trigger] (f * t);
        assert(f * t == t * f) by (nonlinear_arith);
        lemma_trunc_exact(t, f);
    }
}

/// The greatest common divisor measures both of its arguments.
pub proof fn lemma_gcd_divides(a: int, b: int)
    requires
        a >= 0,
        b >= 0,
    ensures
        divides(gcd(a, b), a),
        divides(gcd(a, b), b),
        gcd(a, b) >= 0,
    decreases b,
{
    if b == 0 {
        assert(a == a * 1);
        assert(0int == a * 0);
    } else {
        lemma_gcd_divides(b, a % b);
        let g = gcd(b, a % b);
        let t1 = choose|t: int| b == #[trigger] (g * t);
        let t2 = choose|t: int| (a % b) == #[trigger] (g * t);
        lemma_fundamental_div_mod(a, b);
        assert(a == g * (t1 * (a / b) + t2)) by (nonlinear_arith)
            requires
                a == b * (a / b) + (a % b),
                b == g * t1,
                (a % b) == g * t2,
        ;
    }
}

/// Any common divisor of two nonnegative integers measures their
/// greatest common divisor as well.
pub proof fn lemma_common_divisor_divides_gcd(a: int, b: int, k: int)
    requires
        a >= 0,
        b >= 0,
        divides(k, a),
        divides(k, b),
    ensures
        divides(k, gcd(a, b)),
    decreases b,
{
    if b > 0 {
        let t1 = choose|t: int| a == #[trigger] (k * t);
        let t2 = choose|t: int| b == #[trigger] (k * t);
        lemma_fundamental_div_mod(a, b);
        assert((a % b) == k * (t1 - t2 * (a / b))) by (nonlinear_arith)
            requires
                a == b * (a / b) + (a % b),
                a == k * t1,
                b == k * t2,
        ;
        lemma_common_divisor_divides_gcd(b, a % b, k);
    }
}

/// The greatest common divisor scales with a common positive factor:
/// `gcd(a * m, b * m) == gcd(a, b) * m`.
pub proof fn lemma_gcd_scale(a: int, b: int, m: int)
    requires
        a >= 0,
        b >= 0,
        m > 0,
    ensures
        gcd(a * m, b * m) == gcd(a, b) * m,
    decreases b,
{
    if b == 0 {
        assert(b * m == 0) by (nonlinear_arith)
            requires
                b == 0,
        ;
    } else {
        assert(b * m > 0) by (nonlinear_arith)
            requires
                b > 0,
                m > 0,
        ;
        lemma_truncate_middle(a, m, b);
        assert((m * a) % (m * b) == m * (a % b));
        assert(m * a == a * m && m * b == b * m && m * (a % b) == (a % b) * m) by (nonlinear_arith);
        assert((a * m) % (b * m) == (a % b) * m);
        lemma_gcd_scale(b, a % b, m);
        assert(gcd(a * m, b * m) == gcd(b * m, (a % b) * m));
    }
}

/// A positive divisor of a positive integer is no larger than it.
pub proof fn lemma_divisor_le(k: int, a: int)
    requires
        divides(k, a),
        a > 0,
        k >= 1,
    ensures
        k <= a,
{
    let t = choose|t: int| a == #[trigger] (k * t);
    assert(k <= k * t) by (nonlinear_arith)
        requires
            a == k * t,
            a > 0,
            k >= 1,
    ;
}

/// Two distinct primes share no factor: their greatest common divisor
/// is 1.
pub proof fn lemma_distinct_primes_coprime(p: int, q: int)
    requires
        is_prime(p),
        is_prime(q),
        p != q,
    ensures
        gcd(p, q) == 1,
{
    let g = gcd(p, q);
    lemma_gcd_divides(p, q);
    if g == 0 {
        let t = choose|t: int| p == #[trigger] (g * t);
        assert(p == 0) by (nonlinear_arith)
            requires
                p == g * t,
                g == 0,
        ;
    }
    lemma_divisor_le(g, p);
    if g >= 2 {
        if g < p {
            assert(!divides(g, p));
        } else {
            assert(g == p);
            lemma_divisor_le(p, q);
            assert(p < q);
            assert(!divides(p, q));
        }
    }
}

} // verus!
