//! Rounding of dyadic numbers to single precision.
//!
//! A magnitude is written `m * 2^e` and measured in units of the smallest positive
//! single-precision number, `2^-149`. In these units the value of every finite
//! single-precision number is an integer.
use vstd::arithmetic::div_mod::lemma_fundamental_div_mod;
use vstd::arithmetic::div_mod::lemma_fundamental_div_mod_converse;
use vstd::arithmetic::mul::lemma_mul_is_associative;
use vstd::arithmetic::power2::lemma2_to64;
use vstd::arithmetic::power2::lemma_pow2_adds;
use vstd::arithmetic::power2::lemma_pow2_pos;
use vstd::arithmetic::power2::lemma_pow2_strictly_increases;
use vstd::arithmetic::power2::lemma_pow2_unfold;
use vstd::arithmetic::power2::pow2;
use vstd::prelude::*;

verus! {

/// The encoding of positive infinity.
pub const INF_BITS: u32 = 0x7f80_0000;

/// The number of binary digits of `n`; none for zero.
pub open spec fn bit_len(n: nat) -> nat
    decreases n,
{
    if n == 0 {
        0
    } else {
        1 + bit_len(n / 2)
    }
}

/// The integer nearest to `m / 2^k`; of two that are equally near, the even one.
pub open spec fn round_even(m: nat, k: nat) -> nat {
    let q = m / pow2(k);
    let r = m % pow2(k);
    if 2 * r > pow2(k) || (2 * r == pow2(k) && q % 2 == 1) {
        q + 1
    } else {
        q
    }
}

/// The exponent, in units, of the spacing of the single-precision numbers around `m * 2^e`:
/// 24 binary digits are kept, but none below one unit.
pub open spec fn quantum(m: nat, e: int) -> nat {
    if bit_len(m) + e > 24 {
        (bit_len(m) + e - 24) as nat
    } else {
        0
    }
}

/// The multiple of the spacing that is nearest to `m * 2^e`.
pub open spec fn quanta(m: nat, e: int) -> nat {
    let k = quantum(m, e);
    if k <= e {
        m * pow2((e - k) as nat)
    } else {
        round_even(m, (k - e) as nat)
    }
}

/// The encoding, without its sign, of the single-precision number nearest to `m * 2^e` units;
/// of two that are equally near, the one with the even encoding. What is too large becomes
/// infinity.
#[verifier::opaque]
pub open spec fn round_dyadic(m: nat, e: int) -> nat {
    let b = quantum(m, e) * 0x80_0000 + quanta(m, e);
    if m == 0 {
        0
    } else if b < INF_BITS {
        b
    } else {
        INF_BITS as nat
    }
}

/// A positive number lies between the powers of two that its number of digits gives.
pub proof fn lemma_bit_len_bounds(n: nat)
    requires
        n > 0,
    ensures
        bit_len(n) > 0,
        pow2((bit_len(n) - 1) as nat) <= n < pow2(bit_len(n)),
    decreases n,
{
    lemma2_to64();
    if n > 1 {
        lemma_bit_len_bounds(n / 2);
        lemma_pow2_unfold(bit_len(n));
        lemma_pow2_unfold((bit_len(n) - 1) as nat);
    } else {
        assert(bit_len(0) == 0);
    }
}

/// The powers of two around a positive number give its number of digits.
pub proof fn lemma_bit_len_unique(n: nat, l: nat)
    requires
        l > 0,
        pow2((l - 1) as nat) <= n < pow2(l),
    ensures
        bit_len(n) == l,
{
    lemma_pow2_pos((l - 1) as nat);
    lemma_bit_len_bounds(n);
    if bit_len(n) < l {
        if bit_len(n) < l - 1 {
            lemma_pow2_strictly_increases(bit_len(n), (l - 1) as nat);
        }
    } else if bit_len(n) > l {
        if l < bit_len(n) - 1 {
            lemma_pow2_strictly_increases(l, (bit_len(n) - 1) as nat);
        }
    }
}

/// Multiplying by `2^j` and adding less than `2^j` appends `j` digits.
pub proof fn lemma_bit_len_shift(m: nat, j: nat, r: nat)
    requires
        m > 0,
        r < pow2(j),
    ensures
        bit_len(m * pow2(j) + r) == bit_len(m) + j,
        m * pow2(j) + r > 0,
{
    lemma_bit_len_bounds(m);
    let l = bit_len(m);
    lemma_pow2_adds((l - 1) as nat, j);
    lemma_pow2_adds(l, j);
    lemma_pow2_pos(j);
    let p = pow2(j);
    let a = pow2((l - 1) as nat);
    let b = pow2(l);
    assert(a * p <= m * p) by (nonlinear_arith)
        requires
            a <= m,
    ;
    assert(m * p + r < b * p) by (nonlinear_arith)
        requires
            m + 1 <= b,
            r < p,
    ;
    lemma_pow2_pos((l - 1) as nat);
    assert(a * p > 0) by (nonlinear_arith)
        requires
            a > 0,
            p > 0,
    ;
    lemma_bit_len_unique(m * p + r, l + j);
}

/// Rounding `m * 2^j` at `j` more digits rounds `m`.
proof fn lemma_round_even_shift(m: nat, k: nat, j: nat)
    ensures
        round_even(m * pow2(j), k + j) == round_even(m, k),
{
    let p = pow2(j);
    let d = pow2(k);
    lemma_pow2_adds(k, j);
    lemma_pow2_pos(k);
    lemma_pow2_pos(j);
    let q = m / d;
    let r = m % d;
    lemma_fundamental_div_mod(m as int, d as int);
    assert(m * p == q * (d * p) + r * p) by (nonlinear_arith)
        requires
            m == d * q + r,
    ;
    assert(0 <= r * p < d * p) by (nonlinear_arith)
        requires
            0 <= r < d,
            p > 0,
    ;
    lemma_fundamental_div_mod_converse((m * p) as int, (d * p) as int, q as int, (r * p) as int);
    assert(2 * (r * p) > d * p <==> 2 * r > d) by (nonlinear_arith)
        requires
            p > 0,
    ;
    assert(2 * (r * p) == d * p <==> 2 * r == d) by (nonlinear_arith)
        requires
            p > 0,
    ;
}

/// A multiple of `2^k` is not changed by rounding at `k` digits.
proof fn lemma_round_even_exact(m: nat, k: nat)
    ensures
        round_even(m * pow2(k), k) == m,
{
    lemma_pow2_pos(k);
    lemma_fundamental_div_mod_converse((m * pow2(k)) as int, pow2(k) as int, m as int, 0);
}

/// Rounding depends on the number `m * 2^e` alone, not on how it is written.
pub proof fn lemma_round_dyadic_shift(m: nat, e: int, j: nat)
    ensures
        round_dyadic(m * pow2(j), e - j) == round_dyadic(m, e),
{
    reveal(round_dyadic);
    lemma_pow2_pos(j);
    if m == 0 {
        assert(m * pow2(j) == 0);
    } else {
        lemma_bit_len_shift(m, j, 0);
        let k = quantum(m, e);
        assert(quantum(m * pow2(j), e - j) == k);
        if k <= e - j {
            let t = (e - j - k) as nat;
            lemma_pow2_adds(j, t);
            lemma_mul_is_associative(m as int, pow2(j) as int, pow2(t) as int);
        } else if k <= e {
            let t = (k - e + j) as nat;
            let u = (e - k) as nat;
            lemma_pow2_adds(u, t);
            lemma_mul_is_associative(m as int, pow2(u) as int, pow2(t) as int);
            lemma_round_even_exact(m * pow2(u), t);
        } else {
            lemma_round_even_shift(m, (k - e) as nat, j);
        }
    }
}

/// Far below the digits that are kept, only whether anything is left there matters: the
/// remainder `r` may be replaced by one half of its range.
pub proof fn lemma_round_dyadic_sticky(a: nat, j: nat, r: nat, e: int)
    requires
        a >= 0x100_0000,
        0 < r < pow2(j),
    ensures
        round_dyadic(a * pow2(j) + r, e) == round_dyadic(2 * a + 1, e + j - 1),
{
    reveal(round_dyadic);
    lemma2_to64();
    if j == 0 {
        assert(false);
    }
    lemma_bit_len_shift(a, j, r);
    lemma_bit_len_shift(a, 1, 1);
    lemma_bit_len_bounds(a);
    assert(bit_len(a) >= 25) by {
        if bit_len(a) < 24 {
            lemma_pow2_strictly_increases(bit_len(a), 24);
        }
    }
    let n = a * pow2(j) + r;
    let k = quantum(n, e);
    assert(a * pow2(1) + 1 == 2 * a + 1);
    assert(quantum(2 * a + 1, e + j - 1) == k);
    let t = (k - e - j) as nat;
    assert(k - e - j >= 1);
    let p = pow2(j);
    let d = pow2(t);
    lemma_pow2_pos(j);
    lemma_pow2_pos(t);
    lemma_pow2_adds(t, j);
    lemma_pow2_adds(t, 1);
    lemma_pow2_unfold(t);
    let q = a / d;
    let h = a % d;
    lemma_fundamental_div_mod(a as int, d as int);
    assert(n == q * (d * p) + (h * p + r)) by (nonlinear_arith)
        requires
            n == a * p + r,
            a == d * q + h,
    ;
    assert(0 <= h * p + r < d * p) by (nonlinear_arith)
        requires
            0 <= h,
            h + 1 <= d,
            0 < r < p,
    ;
    lemma_fundamental_div_mod_converse(n as int, (d * p) as int, q as int, (h * p + r) as int);
    assert(2 * a + 1 == q * (d * 2) + (2 * h + 1)) by (nonlinear_arith)
        requires
            a == d * q + h,
    ;
    lemma_fundamental_div_mod_converse(
        (2 * a + 1) as int,
        (d * 2) as int,
        q as int,
        (2 * h + 1) as int,
    );
    let d2 = pow2((t - 1) as nat);
    assert(d == 2 * d2);
    if h >= d2 {
        assert(2 * (h * p + r) > d * p) by (nonlinear_arith)
            requires
                h >= d2,
                d == 2 * d2,
                r > 0,
                p > 0,
        ;
    } else {
        assert(2 * (h * p + r) < d * p) by (nonlinear_arith)
            requires
                h + 1 <= d2,
                d == 2 * d2,
                r < p,
        ;
    }
    assert((k - e) as nat == t + j);
    assert((k - (e + j - 1)) as nat == t + 1);
}

/// `2^k`.
pub fn two_to(k: u32) -> (p: u128)
    requires
        k < 128,
    ensures
        p == pow2(k as nat),
{
    proof {
        lemma2_to64();
    }
    let mut p: u128 = 1;
    let mut i: u32 = 0;
    while i < k
        invariant
            i <= k < 128,
            p == pow2(i as nat),
        decreases k - i,
    {
        proof {
            lemma_pow2_unfold((i + 1) as nat);
            lemma_pow2_128();
            lemma_pow2_strictly_increases((i + 1) as nat, 128);
        }
        p = p * 2;
        i = i + 1;
    }
    p
}

/// The first power of two that 128 bits do not hold.
proof fn lemma_pow2_128()
    ensures
        pow2(128) == u128::MAX + 1,
{
    lemma2_to64();
    lemma_pow2_adds(64, 64);
    assert(0x1_0000_0000_0000_0000 * 0x1_0000_0000_0000_0000 == u128::MAX + 1);
}

/// The number of binary digits of `m`.
fn digits(m: u128) -> (l: u32)
    ensures
        l == bit_len(m as nat),
        l <= 128,
{
    proof {
        lemma_pow2_128();
        if m > 0 {
            lemma_bit_len_bounds(m as nat);
            if bit_len(m as nat) > 128 {
                if bit_len(m as nat) > 129 {
                    lemma_pow2_strictly_increases(128, (bit_len(m as nat) - 1) as nat);
                }
            }
        }
    }
    let mut l: u32 = 0;
    let mut n: u128 = m;
    while n > 0
        invariant
            l + bit_len(n as nat) == bit_len(m as nat),
            bit_len(m as nat) <= 128,
        decreases n,
    {
        n = n / 2;
        l = l + 1;
    }
    l
}

/// `m / 2^k`, rounded to the nearest integer, to the even one of two.
fn nearest_quotient(m: u128, k: u32) -> (q: u128)
    requires
        m < 0x4000_0000_0000_0000_0000_0000_0000_0000,
    ensures
        q == round_even(m as nat, k as nat),
        q <= m + 1,
{
    proof {
        lemma_pow2_128();
        lemma_pow2_unfold(128);
        lemma_pow2_pos(k as nat);
        if k > 128 {
            lemma_pow2_strictly_increases(128, k as nat);
        } else if k < 127 {
            lemma_pow2_strictly_increases(k as nat, 127);
        }
    }
    if k >= 128 {
        proof {
            lemma_fundamental_div_mod_converse(m as int, pow2(k as nat) as int, 0, m as int);
        }
        return 0;
    }
    let p: u128 = two_to(k);
    let q: u128 = m / p;
    let r: u128 = m % p;
    assert(q <= m) by (nonlinear_arith)
        requires
            q == m / p,
            p > 0,
    ;
    if 2 * r > p || (2 * r == p && q % 2 == 1) {
        q + 1
    } else {
        q
    }
}

/// The encoding, without its sign, of the single-precision number nearest to `m * 2^e` units.
pub fn round(m: u128, e: i32) -> (b: u32)
    requires
        m < 0x4000_0000_0000_0000_0000_0000_0000_0000,
        -1000 <= e <= 1000,
    ensures
        b == round_dyadic(m as nat, e as int),
        b <= INF_BITS,
{
    reveal(round_dyadic);
    if m == 0 {
        return 0;
    }
    let l: i32 = digits(m) as i32;
    let k: i32 = if l + e > 24 {
        l + e - 24
    } else {
        0
    };
    if k >= 255 {
        return INF_BITS;
    }
    let q: u128 = if k <= e {
        proof {
            let t = (e - k) as nat;
            lemma_pow2_pos(t);
            lemma_bit_len_shift(m as nat, t, 0);
            lemma_bit_len_bounds(m as nat * pow2(t));
            lemma2_to64();
            if bit_len(m as nat * pow2(t)) < 24 {
                lemma_pow2_strictly_increases(bit_len(m as nat * pow2(t)), 24);
            }
        }
        m * two_to((e - k) as u32)
    } else {
        nearest_quotient(m, (k - e) as u32)
    };
    let b: u128 = k as u128 * 0x80_0000 + q;
    if b < INF_BITS as u128 {
        b as u32
    } else {
        INF_BITS
    }
}

} // verus!
