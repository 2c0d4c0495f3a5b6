//! Exact integer descriptions of the floating-point steps that number
//! formatting takes: converting an integer to `f64`, dividing, and rounding
//! to a fixed number of decimals.

use vstd::prelude::*;
use vstd::arithmetic::power2::{lemma2_to64, lemma2_to64_rest, lemma_pow2_pos, lemma_pow2_strictly_increases, lemma_pow2_unfold, pow2};

verus! {

/// Number of binary digits of `n` (0 for 0).
pub open spec fn bit_length(n: nat) -> nat
    decreases n,
{
    if n == 0 {
        0
    } else {
        1 + bit_length(n / 2)
    }
}

/// `num / den` rounded to the nearest integer, ties to the even one.
pub open spec fn round_half_even(num: nat, den: nat) -> nat
    recommends
        den > 0,
{
    let q = num / den;
    let r = num % den;
    if 2 * r > den || (2 * r == den && q % 2 == 1) {
        q + 1
    } else {
        q
    }
}

/// The value of `n as f64`: `n` rounded to 53 significant bits, ties to even.
pub open spec fn as_f64(n: nat) -> nat {
    if n < pow2(53) {
        n
    } else {
        let p = pow2((bit_length(n) - 53) as nat);
        round_half_even(n, p) * p
    }
}

/// The `f64` quotient of `v / d` for `v >= d > 0`, as a mantissa `q` and a
/// scale `s` with value `q / 2^s` (`q * 2^-s` when `s` is negative): the
/// quotient rounded to 53 significant bits, ties to even.
pub open spec fn float_quotient(v: nat, d: nat) -> (nat, int) {
    let s = 52 - (bit_length(v / d) - 1);
    if s >= 0 {
        (round_half_even(v * pow2(s as nat), d), s)
    } else {
        (round_half_even(v, d * pow2((-s) as nat)), s)
    }
}

/// Rounding `num / den` to the nearest integer misses by at most half.
pub proof fn lemma_round_half_even_close(num: nat, den: nat)
    requires
        den > 0,
    ensures
        -(den as int) <= 2 * (den * round_half_even(num, den) - num) <= den,
{
    let q = num / den;
    let r = num % den;
    vstd::arithmetic::div_mod::lemma_fundamental_div_mod(num as int, den as int);
    vstd::arithmetic::div_mod::lemma_mod_bound(num as int, den as int);
    assert(den * (q + 1) == den * q + den) by (nonlinear_arith);
}

/// Powers of two grow with the exponent.
pub proof fn lemma_pow2_monotone(a: nat, b: nat)
    requires
        a <= b,
    ensures
        pow2(a) <= pow2(b),
{
    if a < b {
        lemma_pow2_strictly_increases(a, b);
    }
}

/// A number of `k` binary digits lies between `2^(k-1)` and `2^k`.
pub proof fn lemma_bit_length_bounds(n: nat)
    ensures
        n > 0 ==> pow2((bit_length(n) - 1) as nat) <= n,
        n < pow2(bit_length(n)),
    decreases n,
{
    lemma_pow2_pos(bit_length(n));
    if n > 0 {
        lemma_bit_length_bounds(n / 2);
        lemma_pow2_unfold(bit_length(n));
        if n / 2 == 0 {
            assert(n == 1);
            lemma2_to64();
        } else {
            lemma_pow2_unfold((bit_length(n) - 1) as nat);
        }
    }
}

/// Rounding to an `f64` keeps a number of at least `2^53` at least `2^52`:
/// large counts stay large.
pub proof fn lemma_as_f64_large(n: nat)
    requires
        n >= pow2(53),
    ensures
        as_f64(n) >= pow2(52),
{
    lemma_bit_length_bounds(n);
    lemma_bit_length_range(n, 53);
    let b = bit_length(n);
    let p = pow2((b - 53) as nat);
    lemma_pow2_pos((b - 53) as nat);
    vstd::arithmetic::power2::lemma_pow2_adds(52, (b - 53) as nat);
    assert(pow2((b - 1) as nat) == pow2(52) * p);
    vstd::arithmetic::div_mod::lemma_div_by_multiple(pow2(52) as int, p as int);
    vstd::arithmetic::div_mod::lemma_div_is_ordered((pow2(52) * p) as int, n as int, p as int);
    let q = round_half_even(n, p);
    assert(q >= n / p);
    assert(q >= pow2(52));
    vstd::arithmetic::mul::lemma_mul_inequality(pow2(52) as int, q as int, p as int);
    assert(pow2(52) * 1 <= pow2(52) * p) by {
        vstd::arithmetic::mul::lemma_mul_inequality(1, p as int, pow2(52) as int);
    }
}

/// The bit length grows with the number.
pub proof fn lemma_bit_length_range(n: nat, k: nat)
    ensures
        n < pow2(k) ==> bit_length(n) <= k,
        n >= pow2(k) ==> bit_length(n) >= k + 1,
    decreases k,
{
    lemma_bit_length_bounds(n);
    if n < pow2(k) && bit_length(n) > k {
        lemma_pow2_monotone(k, (bit_length(n) - 1) as nat);
    }
    if n >= pow2(k) && bit_length(n) < k + 1 {
        lemma_pow2_monotone(bit_length(n), k);
    }
}

pub(crate) fn pow2_exec(e: u32) -> (r: u128)
    requires
        e <= 64,
    ensures
        r == pow2(e as nat),
        r > 0,
{
    let mut p: u128 = 1;
    let mut k: u32 = 0;
    proof {
        lemma2_to64();
    }
    while k < e
        invariant
            k <= e <= 64,
            p == pow2(k as nat),
            p > 0,
            pow2(64) == 0x10000000000000000,
        decreases e - k,
    {
        proof {
            lemma_pow2_monotone((k + 1) as nat, 64);
            lemma_pow2_unfold((k + 1) as nat);
        }
        p = p * 2;
        k = k + 1;
    }
    p
}

fn bit_length_exec(n: u128) -> (r: u32)
    ensures
        r == bit_length(n as nat),
{
    let mut m = n;
    let mut k: u32 = 0;
    proof {
        lemma_bit_length_range(n as nat, 128);
        assert(pow2(128) > u128::MAX) by {
            lemma2_to64();
            vstd::arithmetic::power2::lemma_pow2_adds(64, 64);
        }
    }
    while m > 0
        invariant
            bit_length(n as nat) == k + bit_length(m as nat),
            k + bit_length(m as nat) <= 128,
        decreases m,
    {
        m = m / 2;
        k = k + 1;
    }
    k
}

/// `num / den` rounded to the nearest integer, ties to the even one.
pub fn round_half_even_exec(num: u128, den: u128) -> (r: u128)
    requires
        den > 0,
        num < u128::MAX,
    ensures
        r == round_half_even(num as nat, den as nat),
        r <= num / den + 1,
{
    let q = num / den;
    let rem = num % den;
    if rem > den - rem || (rem == den - rem && q % 2 == 1) {
        proof {
            assert(q * den <= num) by (nonlinear_arith)
                requires
                    q == num / den,
                    den > 0,
            ;
            assert(q < u128::MAX) by (nonlinear_arith)
                requires
                    q == num / den,
                    den > 0,
                    num < u128::MAX,
            ;
        }
        q + 1
    } else {
        q
    }
}

/// The value of `n as f64`.
pub fn as_f64_exec(n: u64) -> (r: u128)
    ensures
        r == as_f64(n as nat),
        r <= n + 2048,
        r + 2048 >= n,
{
    proof {
        lemma2_to64();
        lemma2_to64_rest();
    }
    if (n as u128) < 0x20000000000000u128 {
        return n as u128;
    }
    let bl = bit_length_exec(n as u128);
    proof {
        lemma_bit_length_range(n as nat, 53);
        lemma_bit_length_range(n as nat, 64);
    }
    let p = pow2_exec(bl - 53);
    proof {
        lemma_pow2_monotone((bl - 53) as nat, 11);
    }
    let wide = n as u128;
    let q = round_half_even_exec(wide, p);
    proof {
        assert(q * p <= wide + p) by (nonlinear_arith)
            requires
                q <= wide / p + 1,
                p > 0,
        ;
        assert(q >= wide / p);
        assert(q * p + p >= wide) by (nonlinear_arith)
            requires
                q >= wide / p,
                p > 0,
        ;
    }
    q * p
}

/// The `f64` quotient of `v / 1000` for `1000 <= v <= 2^64 + 2048`, as
/// mantissa and scale.
pub fn thousandth_f64(v: u128) -> (r: (u128, i32))
    requires
        1000 <= v <= 0x10000000000000800u128,
    ensures
        (r.0 as nat, r.1 as int) == float_quotient(v as nat, 1000),
        -2 <= r.1 <= 52,
        r.0 <= 0x100000000000000000000000000000u128,
{
    proof {
        lemma2_to64();
        lemma2_to64_rest();
    }
    let t = v / 1000;
    let bl = bit_length_exec(t);
    proof {
        lemma_bit_length_range(t as nat, 0);
        lemma_bit_length_range(t as nat, 55);
        assert(t < 0x80000000000000u128);
        vstd::arithmetic::power2::lemma_pow2_adds(52, 3);
    }
    let s: i32 = 53 - (bl as i32);
    if s >= 0 {
        let p = pow2_exec(s as u32);
        proof {
            lemma_pow2_monotone(s as nat, 52);
            assert(v * p <= 0x10000000000000800u128 * 0x10000000000000u128) by (nonlinear_arith)
                requires
                    v <= 0x10000000000000800u128,
                    p <= 0x10000000000000u128,
            ;
        }
        let q = round_half_even_exec(v * p, 1000);
        (q, s)
    } else {
        let p = pow2_exec((-s) as u32);
        proof {
            assert(p <= 4) by {
                if s == -1 {
                } else {
                    assert(s == -2);
                }
            }
        }
        let q = round_half_even_exec(v, 1000 * p);
        (q, s)
    }
}

} // verus!
