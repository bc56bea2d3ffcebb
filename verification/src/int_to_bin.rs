//! Binary decomposition of a signed 64-bit integer into 64 booleans:
//! entries 0..=62 are the binary digits of the magnitude, least
//! significant first, and entry 63 is the sign flag.

use vstd::prelude::*;
use vstd::arithmetic::power2::{pow2, lemma_pow2_pos, lemma_pow2_unfold, lemma2_to64, lemma2_to64_rest};
use vstd::arithmetic::div_mod::{lemma_breakdown, lemma_small_mod, lemma_mod_pos_bound, lemma_div_pos_is_pos};
use crate::arith::mag;

verus! {

/// Whether digit `i` is set in the binary representation of the
/// nonnegative integer `m`.
pub open spec fn bit_set(m: int, i: int) -> bool {
    (m / pow2(i as nat) as int) % 2 == 1
}

/// The 64-entry boolean encoding of `x`: entries 0..=62 hold the binary
/// digits of the magnitude of `x`, least significant first, and entry 63
/// holds the sign flag (true exactly when `x` is negative).
pub open spec fn bin_spec(x: int) -> Seq<bool> {
    Seq::new(64, |i: int| if i == 63 { x < 0 } else { bit_set(mag(x), i) })
}

/// The magnitude encoded by the first `k` entries of a digit sequence:
/// the sum of `pow2(i)` over the set positions `i` below `k`.
pub open spec fn mag_value(s: Seq<bool>, k: int) -> int
    decreases k,
{
    if k <= 0 {
        0
    } else {
        mag_value(s, k - 1) + if s[k - 1] {
            pow2((k - 1) as nat) as int
        } else {
            0
        }
    }
}

/// One step of the greedy most-significant-first scan: a remainder that
/// equals `m` modulo `pow2(i + 1)` decides digit `i` of `m` by comparison
/// with `pow2(i)`, and shrinks to `m` modulo `pow2(i)`.
proof fn lemma_bit_step(m: int, rem: int, i: int)
    requires
        0 <= m,
        0 <= i,
        rem == m % (pow2((i + 1) as nat) as int),
    ensures
        pow2(i as nat) <= rem ==> bit_set(m, i) && rem - pow2(i as nat) == m % (pow2(i as nat) as int),
        rem < pow2(i as nat) ==> !bit_set(m, i) && rem == m % (pow2(i as nat) as int),
{
    let p = pow2(i as nat) as int;
    lemma_pow2_pos(i as nat);
    lemma_pow2_unfold((i + 1) as nat);
    assert(pow2((i + 1) as nat) == 2 * pow2(i as nat));
    lemma_breakdown(m, p, 2);
    assert(m % (p * 2) == p * ((m / p) % 2) + m % p);
    lemma_div_pos_is_pos(m, p);
    lemma_mod_pos_bound(m / p, 2);
    lemma_mod_pos_bound(m, p);
    let b = (m / p) % 2;
    assert(rem == p * b + m % p);
    if b == 1 {
        assert(p * b == p);
    } else {
        assert(p * b == 0);
    }
}

/// The first `k` digits of the binary representation of `m` encode
/// exactly `m` modulo `pow2(k)`.
proof fn lemma_mag_value_bits(s: Seq<bool>, m: int, k: int)
    requires
        0 <= m,
        0 <= k,
        forall|j: int| 0 <= j < k ==> s[j] == bit_set(m, j),
    ensures
        mag_value(s, k) == m % (pow2(k as nat) as int),
    decreases k,
{
    if k == 0 {
        lemma2_to64();
        assert(m % 1 == 0) by {
            lemma_small_mod(0, 1);
            lemma_mod_pos_bound(m, 1);
        }
    } else {
        lemma_mag_value_bits(s, m, k - 1);
        let p = pow2((k - 1) as nat) as int;
        lemma_pow2_pos((k - 1) as nat);
        lemma_pow2_unfold(k as nat);
        lemma_breakdown(m, p, 2);
        lemma_div_pos_is_pos(m, p);
        lemma_mod_pos_bound(m / p, 2);
        let b = (m / p) % 2;
        if b == 1 {
            assert(p * b == p);
        } else {
            assert(p * b == 0);
        }
    }
}

/// The set digits of the 64-entry encoding reconstruct the magnitude of
/// the encoded integer: summing `pow2(i)` over the set positions
/// `i` in `0..63` gives back `mag(x)` for every `x` whose magnitude fits
/// in 63 binary digits.
pub proof fn lemma_bits_reconstruct(x: int)
    requires
        -(pow2(63) as int) < x < pow2(63) as int,
    ensures
        mag_value(bin_spec(x), 63) == mag(x),
{
    lemma_mag_value_bits(bin_spec(x), mag(x), 63);
    lemma_pow2_pos(63);
    lemma_small_mod(mag(x) as nat, pow2(63));
}

/// Recursive digit scan from position `i` down to 0: decides each digit
/// of `m` greedily, leaving the digits above `i` untouched.
fn scan_down(x: i64, r: &mut [bool; 64], i: usize, p: i64, Ghost(m): Ghost<int>)
    requires
        i < 63,
        0 <= m,
        0 <= x,
        x as int == m % (pow2((i + 1) as nat) as int),
        p as int == pow2(i as nat),
        forall|j: int| 0 <= j <= i ==> old(r)@[j] == false,
        forall|j: int| i < j < 63 ==> old(r)@[j] == bit_set(m, j),
    ensures
        forall|j: int| 0 <= j < 63 ==> final(r)@[j] == bit_set(m, j),
        final(r)@[63] == old(r)@[63],
    decreases i,
{
    proof {
        lemma_bit_step(m, x as int, i as int);
        lemma_pow2_pos(i as nat);
        if i > 0 {
            lemma_pow2_unfold(i as nat);
        }
    }
    let y = x - p;
    if y >= 0 {
        r[i] = true;
        if i > 0 {
            scan_down(y, r, i - 1, p / 2, Ghost(m));
        }
    } else if i > 0 {
        scan_down(x, r, i - 1, p / 2, Ghost(m));
    }
}

/// Recursively writes `x` in binary: 64 booleans, digits of the
/// magnitude at entries 0..=62 (least significant first) and the sign
/// flag at entry 63.
pub fn recursive(x: i64) -> (r: [bool; 64])
    requires
        x != i64::MIN,
    ensures
        r@ == bin_spec(x as int),
{
    if x == 0 {
        let res = [false; 64];
        proof {
            assert forall|i: int| 0 <= i < 63 implies !bit_set(0, i) by {
                lemma_pow2_pos(i as nat);
                assert(0int / (pow2(i as nat) as int) == 0) by {
                    vstd::arithmetic::div_mod::lemma_div_of0(pow2(i as nat) as int);
                }
            }
            assert(res@ =~= bin_spec(0));
        }
        res
    } else {
        let mut res = [false; 64];
        res[63] = x < 0;
        let m: i64 = if x < 0 {
            -x
        } else {
            x
        };
        proof {
            lemma2_to64_rest();
            lemma_pow2_pos(63);
            lemma_small_mod(m as nat, pow2(63));
        }
        scan_down(m, &mut res, 62, 0x4000_0000_0000_0000, Ghost(m as int));
        proof {
            assert(res@ =~= bin_spec(x as int));
        }
        res
    }
}

/// Iteratively writes `x` in binary: same encoding as [`recursive`], and
/// the identical contract, so the two variants provably agree on every
/// accepted input.
pub fn iterative(x: i64) -> (r: [bool; 64])
    requires
        x != i64::MIN,
    ensures
        r@ == bin_spec(x as int),
{
    let mut res = [false; 64];
    res[63] = x < 0;
    let mut rem: i64 = if x < 0 {
        -x
    } else {
        x
    };
    let ghost m: int = rem as int;
    proof {
        lemma2_to64_rest();
        lemma_pow2_pos(63);
        lemma_small_mod(m as nat, pow2(63));
    }
    let mut k: usize = 63;
    let mut p: i64 = 0x4000_0000_0000_0000;
    while k > 0
        invariant
            k <= 63,
            0 <= m,
            0 <= rem,
            rem as int == m % (pow2(k as nat) as int),
            k > 0 ==> p as int == pow2((k - 1) as nat),
            forall|j: int| 0 <= j < k ==> res@[j] == false,
            forall|j: int| k <= j < 63 ==> res@[j] == bit_set(m, j),
            res@[63] == (x < 0),
        decreases k,
    {
        let j = k - 1;
        proof {
            lemma_bit_step(m, rem as int, j as int);
            lemma_pow2_pos(j as nat);
            if j > 0 {
                lemma_pow2_unfold(j as nat);
            }
        }
        let y = rem - p;
        if y >= 0 {
            res[j] = true;
            rem = y;
        }
        p = p / 2;
        k = j;
    }
    proof {
        assert(res@ =~= bin_spec(x as int));
    }
    res
}

} // verus!
