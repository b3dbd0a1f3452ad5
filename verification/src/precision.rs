//! What rounding to single precision means.
use crate::float::clamped;
use crate::float::floor_root;
use crate::float::greater;
use crate::float::is_floor_root;
use crate::float::lemma_has_floor_root;
use crate::float::lemma_units_increase;
use crate::float::nearest;
use crate::float::negation;
use crate::float::product;
use crate::float::root;
use crate::float::signed;
use crate::float::sum;
use crate::float::truncated;
use crate::float::units;
use crate::float::F32;
use crate::rounding::bit_len;
use crate::rounding::lemma_bit_len_bounds;
use crate::rounding::lemma_round_dyadic_shift;
use crate::rounding::quanta;
use crate::rounding::quantum;
use crate::rounding::round_dyadic;
use crate::rounding::round_even;
use crate::rounding::INF_BITS;
use vstd::arithmetic::div_mod::lemma_fundamental_div_mod;
use vstd::arithmetic::div_mod::lemma_fundamental_div_mod_converse;
use vstd::arithmetic::power2::lemma2_to64;
use vstd::arithmetic::power2::lemma_pow2_adds;
use vstd::arithmetic::power2::lemma_pow2_pos;
use vstd::arithmetic::power2::lemma_pow2_strictly_increases;
use vstd::arithmetic::power2::lemma_pow2_unfold;
use vstd::arithmetic::power2::pow2;
use vstd::prelude::*;

verus! {

/// The distance of two numbers.
pub open spec fn apart(a: int, b: int) -> int {
    if a >= b {
        a - b
    } else {
        b - a
    }
}

/// Rounding to a multiple of `2^k` finds the nearest one; of two, the even one.
proof fn lemma_round_even_nearest(m: nat, k: nat, x: int)
    ensures
        apart((round_even(m, k) * pow2(k)) as int, m as int) <= apart(x * pow2(k), m as int),
        apart((round_even(m, k) * pow2(k)) as int, m as int) == apart(x * pow2(k), m as int) && x
            != round_even(m, k) ==> round_even(m, k) % 2 == 0,
        2 * apart((round_even(m, k) * pow2(k)) as int, m as int) <= pow2(k),
{
    let p = pow2(k) as int;
    let q = (m / pow2(k)) as int;
    let r = (m % pow2(k)) as int;
    lemma_pow2_pos(k);
    lemma_fundamental_div_mod(m as int, p);
    assert(m == q * p + r) by (nonlinear_arith)
        requires
            m == p * q + r,
    ;
    assert((q + 1) * p == q * p + p) by (nonlinear_arith);
    if x <= q {
        assert(x * p <= q * p) by (nonlinear_arith)
            requires
                x <= q,
                p > 0,
        ;
        if x < q {
            assert(x * p <= (q - 1) * p) by (nonlinear_arith)
                requires
                    x <= q - 1,
                    p > 0,
            ;
            assert((q - 1) * p == q * p - p) by (nonlinear_arith);
        }
    } else {
        assert(x * p >= (q + 1) * p) by (nonlinear_arith)
            requires
                x >= q + 1,
                p > 0,
        ;
        if x > q + 1 {
            assert(x * p >= (q + 2) * p) by (nonlinear_arith)
                requires
                    x >= q + 2,
                    p > 0,
            ;
            assert((q + 2) * p == q * p + 2 * p) by (nonlinear_arith);
        }
    }
}

/// The encoding made of a spacing and a multiple of it stands for that multiple.
proof fn lemma_units_of_quanta(k: nat, q: nat)
    requires
        q <= 0x100_0000,
        k > 0 ==> q >= 0x80_0000,
    ensures
        units(k * 0x80_0000 + q) == q * pow2(k),
{
    reveal(units);
    lemma2_to64();
    let mag = k * 0x80_0000 + q;
    let p = pow2(k);
    if q == 0x100_0000 {
        assert(mag / 0x80_0000 == k + 2 && mag % 0x80_0000 == 0);
        lemma_pow2_unfold(k + 1);
        assert(0x80_0000 * (2 * p) == 0x100_0000 * p) by (nonlinear_arith);
    } else if q >= 0x80_0000 {
        assert(mag / 0x80_0000 == k + 1 && mag % 0x80_0000 == q - 0x80_0000);
    } else {
        assert(k == 0);
        assert(q * p == q);
    }
}

/// An encoding at or above the first one with a spacing stands for a multiple of the spacing.
proof fn lemma_multiple_of_spacing(g: nat, k: nat) -> (x: nat)
    requires
        k > 0 ==> g >= (k + 1) * 0x80_0000,
    ensures
        units(g) == x * pow2(k),
{
    reveal(units);
    lemma2_to64();
    let e = g / 0x80_0000;
    let f = g % 0x80_0000;
    if k == 0 {
        assert(units(g) * pow2(0) == units(g));
        units(g)
    } else {
        assert(e >= k + 1);
        let t = (e - 1 - k) as nat;
        lemma_pow2_adds(t, k);
        let a = pow2(t);
        let b = pow2(k);
        assert((0x80_0000 + f) * (a * b) == ((0x80_0000 + f) * a) * b) by (nonlinear_arith);
        (0x80_0000 + f) * a
    }
}

/// Half of a number that was rounded up is a single-precision number too.
pub proof fn lemma_half_of_rounded(n: nat) -> (g: nat)
    requires
        n < units(round_dyadic(n, 0)),
        round_dyadic(n, 0) < INF_BITS,
    ensures
        2 * units(g) == units(round_dyadic(n, 0)),
        g < round_dyadic(n, 0),
{
    reveal(round_dyadic);
    lemma2_to64();
    assert(units(0) == 0) by {
        reveal(units);
    }
    let k = quantum(n, 0);
    let q = quanta(n, 0);
    lemma_quanta(n, 0);
    lemma_units_of_quanta(k, q);
    if k == 0 {
        // Nothing was rounded.
        assert(n * pow2(0) == n);
        assert(false);
    }
    let j = (k - 1) as nat;
    lemma_units_of_quanta(j, q);
    lemma_pow2_unfold(k);
    let p = pow2(j);
    assert(q * (2 * p) == 2 * (q * p)) by (nonlinear_arith);
    j * 0x80_0000 + q
}

/// How `n / 2^s` units are rounded: to a multiple of the spacing, which is `2^k` units, and
/// unless they are fewer than the subnormal numbers reach, there are at least `2^23` of it.
proof fn lemma_quanta(n: nat, s: nat)
    requires
        n > 0,
    ensures
        ({
            let k = quantum(n, -s);
            let q = quanta(n, -s);
            &&& q == round_even(n, k + s)
            &&& q <= 0x100_0000
            &&& k > 0 ==> q >= 0x80_0000
            &&& k > 0 ==> 0x80_0000 * pow2(k + s) <= n
            &&& n < 0x100_0000 * pow2(k + s)
        }),
{
    lemma2_to64();
    let k = quantum(n, -s);
    let q = quanta(n, -s);
    let l = bit_len(n);
    let big = (k + s) as nat;
    let p = pow2(big);
    lemma_bit_len_bounds(n);
    lemma_pow2_pos(big);
    if k == 0 && s == 0 {
        assert(n * pow2(0) == n);
        assert(round_even(n, 0) == n) by {
            assert(n / 1 == n && n % 1 == 0);
        }
    }
    assert(n < 0x100_0000 * p) by {
        lemma_pow2_adds(24, big);
        if l < 24 + big {
            lemma_pow2_strictly_increases(l, 24 + big);
        }
    }
    if k > 0 {
        lemma_pow2_adds(23, big);
        assert((l - 1) as nat == 23 + big);
    }
    lemma_round_even_nearest(n, big, 0x100_0000);
    lemma_round_even_nearest(n, big, 0x80_0000);
    assert(q <= 0x100_0000) by {
        if q > 0x100_0000 {
            assert(q * p >= (0x100_0000 + 1) * p) by (nonlinear_arith)
                requires
                    q >= 0x100_0000 + 1,
                    p > 0,
            ;
            assert((0x100_0000 + 1) * p == 0x100_0000 * p + p) by (nonlinear_arith);
        }
    }
    if k > 0 && q < 0x80_0000 {
        assert(q * p <= (0x80_0000 - 1) * p) by (nonlinear_arith)
            requires
                q <= 0x80_0000 - 1,
                p > 0,
        ;
        assert((0x80_0000 - 1) * p == 0x80_0000 * p - p) by (nonlinear_arith);
    }
}

/// Rounding finds the nearest single-precision number: no encoding `g` stands for one that is
/// nearer to `n / 2^s` units than the rounded one, and where another one is as near, the
/// rounded one has the even encoding.
pub proof fn lemma_round_nearest(n: nat, s: nat, g: nat)
    requires
        round_dyadic(n, -s) < INF_BITS,
    ensures
        ({
            let b = round_dyadic(n, -s);
            let here = apart((units(b) * pow2(s)) as int, n as int);
            let there = apart((units(g) * pow2(s)) as int, n as int);
            &&& here <= there
            &&& here == there && b != g ==> b % 2 == 0
        }),
{
    reveal(round_dyadic);
    let b = round_dyadic(n, -s);
    let ps = pow2(s);
    lemma_pow2_pos(s);
    if n == 0 {
        assert(units(0) == 0) by {
            reveal(units);
        }
        assert(units(b) * ps == 0) by (nonlinear_arith)
            requires
                units(b) == 0,
        ;
        if g > 0 {
            lemma_units_increase(0, g);
            assert(units(g) * ps > 0) by (nonlinear_arith)
                requires
                    units(g) > 0,
                    ps > 0,
            ;
        }
    } else {
        let k = quantum(n, -s);
        let q = quanta(n, -s);
        let pk = pow2(k);
        let p = pow2(k + s);
        lemma_pow2_adds(k, s);
        lemma_pow2_pos(k + s);
        lemma_quanta(n, s);
        lemma_units_of_quanta(k, q);
        assert((q * pk) * ps == q * (pk * ps)) by (nonlinear_arith);
        if k == 0 || g >= (k + 1) * 0x80_0000 {
            let x = lemma_multiple_of_spacing(g, k);
            assert((x * pk) * ps == x * (pk * ps)) by (nonlinear_arith);
            lemma_round_even_nearest(n, k + s, x as int);
            if x == q && b != g {
                if b < g {
                    lemma_units_increase(b, g);
                } else {
                    lemma_units_increase(g, b);
                }
            }
        } else {
            // `g` stands for less than the first multiple that is worth considering.
            let first: nat = (k + 1) * 0x80_0000;
            lemma_units_of_quanta(k, 0x80_0000);
            lemma_units_increase(g, first);
            lemma_round_even_nearest(n, k + s, 0x80_0000);
            assert((0x80_0000 * pk) * ps == 0x80_0000 * (pk * ps)) by (nonlinear_arith);
            assert(units(g) * ps < (0x80_0000 * pk) * ps) by (nonlinear_arith)
                requires
                    units(g) < 0x80_0000 * pk,
                    ps > 0,
            ;
        }
    }
}

/// What is rounded to infinity: everything from halfway between the greatest finite number and
/// the next multiple of its spacing.
pub proof fn lemma_round_overflow(n: nat, s: nat)
    ensures
        round_dyadic(n, -s) <= INF_BITS,
        round_dyadic(n, -s) == INF_BITS <==> n >= 0x1ff_ffff * pow2(252 + s),
{
    reveal(round_dyadic);
    let h = pow2(252 + s);
    lemma_pow2_pos(252 + s);
    if n == 0 {
        assert(0x1ff_ffff * h > 0) by (nonlinear_arith)
            requires
                h > 0,
        ;
    } else {
        let k = quantum(n, -s);
        let q = quanta(n, -s);
        let p = pow2(k + s);
        lemma_quanta(n, s);
        if k >= 254 {
            lemma_pow2_unfold(253 + s);
            lemma_pow2_unfold(254 + s);
            if k > 254 {
                lemma_pow2_strictly_increases(254 + s, k + s);
            }
            assert(0x80_0000 * p >= 0x1ff_ffff * h) by (nonlinear_arith)
                requires
                    p >= 4 * h,
                    h > 0,
            ;
        } else if k <= 252 {
            if k < 252 {
                lemma_pow2_strictly_increases(k + s, 252 + s);
            }
            assert(0x100_0000 * p <= 0x1ff_ffff * h) by (nonlinear_arith)
                requires
                    p <= h,
                    h > 0,
            ;
        } else {
            lemma_pow2_unfold(253 + s);
            lemma_round_even_nearest(n, k + s, 0x100_0000);
            lemma_round_even_nearest(n, k + s, 0xff_ffff);
            assert(0x100_0000 * p == 0x200_0000 * h && 0xff_ffff * p == 0x1ff_fffe * h)
                by (nonlinear_arith)
                requires
                    p == 2 * h,
            ;
            if q < 0xff_ffff {
                assert(q * p <= 0xff_fffe * p) by (nonlinear_arith)
                    requires
                        q <= 0xff_fffe,
                        p > 0,
                ;
                assert(0xff_fffe * p == 0x1ff_fffc * h) by (nonlinear_arith)
                    requires
                        p == 2 * h,
                ;
            }
        }
    }
}

/// A single-precision number is not changed by rounding.
pub proof fn lemma_round_exact(n: nat, s: nat, g: nat)
    requires
        g < INF_BITS,
        units(g) * pow2(s) == n,
    ensures
        round_dyadic(n, -s) == g,
{
    lemma_round_bounds(n, s, g);
}

/// Rounding does not go beyond a single-precision number: what is at most such a number is
/// rounded to at most that number, and what is at least, to at least.
pub proof fn lemma_round_bounds(n: nat, s: nat, g: nat)
    requires
        g < INF_BITS,
    ensures
        n <= units(g) * pow2(s) ==> round_dyadic(n, -s) <= g,
        n >= units(g) * pow2(s) ==> round_dyadic(n, -s) >= g,
{
    let ps = pow2(s);
    let b = round_dyadic(n, -s);
    lemma_pow2_pos(s);
    lemma_round_overflow(n, s);
    if b < INF_BITS {
        lemma_round_nearest(n, s, g);
        if b < g {
            lemma_units_increase(b, g);
            assert(units(b) * ps < units(g) * ps) by (nonlinear_arith)
                requires
                    units(b) < units(g),
                    ps > 0,
            ;
        } else if b > g {
            lemma_units_increase(g, b);
            assert(units(b) * ps > units(g) * ps) by (nonlinear_arith)
                requires
                    units(b) > units(g),
                    ps > 0,
            ;
        }
    } else {
        lemma_finite_below_overflow(g, s);
    }
}

/// The finite numbers lie below what is rounded to infinity.
proof fn lemma_finite_below_overflow(g: nat, s: nat)
    requires
        g < INF_BITS,
    ensures
        units(g) * pow2(s) < 0x1ff_ffff * pow2(252 + s),
{
    let top: nat = 0x7f7f_ffff;
    let ps = pow2(s);
    lemma_pow2_pos(s);
    assert(units(top) == 0xff_ffff * pow2(253)) by {
        reveal(units);
    }
    if g < top {
        lemma_units_increase(g, top);
    }
    lemma_pow2_unfold(253);
    lemma_pow2_adds(252, s);
    lemma_pow2_pos(252);
    let h = pow2(252);
    assert(units(g) * ps < 0x1ff_ffff * (h * ps)) by (nonlinear_arith)
        requires
            units(g) <= 0xff_ffff * (2 * h),
            h > 0,
            ps > 0,
    ;
}

/// The integers of up to 24 binary digits are single-precision numbers.
proof fn lemma_integer_encoding(n: nat) -> (g: nat)
    requires
        n <= 0x100_0000,
    ensures
        g < INF_BITS,
        units(g) == n * pow2(149),
{
    lemma2_to64();
    if n == 0 {
        lemma_units_of_quanta(0, 0);
        assert(0 * pow2(149) == 0 && 0 * pow2(0) == 0);
        0
    } else if n == 0x100_0000 {
        lemma_units_of_quanta(149, 0x100_0000);
        149 * 0x80_0000 + 0x100_0000
    } else {
        let l = bit_len(n);
        lemma_bit_len_bounds(n);
        if l > 24 {
            if l > 25 {
                lemma_pow2_strictly_increases(24, (l - 1) as nat);
            }
            assert(false);
        }
        let j = (24 - l) as nat;
        let k = (149 - j) as nat;
        lemma_pow2_adds((l - 1) as nat, j);
        lemma_pow2_adds(l, j);
        lemma_pow2_adds(j, k);
        lemma_pow2_pos(j);
        let a = pow2((l - 1) as nat);
        let b = pow2(l);
        let p = pow2(j);
        let q = n * p;
        assert(a * p <= q && q < b * p) by (nonlinear_arith)
            requires
                a <= n < b,
                p > 0,
                q == n * p,
        ;
        let r = pow2(k);
        assert(n * (p * r) == (n * p) * r) by (nonlinear_arith);
        lemma_units_of_quanta(k, q);
        k * 0x80_0000 + q
    }
}

/// Integers of up to 24 binary digits, such as the coordinates of any screen, are converted
/// exactly, and converted back to what they were.
pub proof fn lemma_integers_are_exact(x: int)
    requires
        -0x100_0000 <= x <= 0x100_0000,
    ensures
        nearest(x).is_finite(),
        nearest(x).value() == x * pow2(149),
        truncated(nearest(x)) == x,
{
    reveal(nearest);
    reveal(truncated);
    let n = apart(x, 0) as nat;
    let one = pow2(149);
    let g = lemma_integer_encoding(n);
    lemma2_to64();
    lemma_pow2_pos(149);
    lemma_round_dyadic_shift(n, 149, 149);
    assert(units(g) * pow2(0) == units(g));
    lemma_round_exact(n * one, 0, g);
    assert(nearest(x).mag() == g);
    assert((-n) * one == -(n * one)) by (nonlinear_arith);
    lemma_fundamental_div_mod_converse((n * one) as int, one as int, n as int, 0);
    if x < 0 {
        assert(x == -n);
    }
}

/// No 32-bit integer is too large for a single-precision number.
pub proof fn lemma_integers_are_finite(x: int)
    requires
        i32::MIN <= x <= i32::MAX,
    ensures
        nearest(x).is_finite(),
{
    reveal(nearest);
    let n = apart(x, 0) as nat;
    lemma2_to64();
    lemma_round_dyadic_shift(n, 149, 149);
    lemma_round_overflow(n * pow2(149), 0);
    lemma_pow2_adds(32, 149);
    lemma_pow2_adds(103, 149);
    lemma_pow2_strictly_increases(32, 103);
    let one = pow2(149);
    lemma_pow2_pos(149);
    assert(n * one < 0x1ff_ffff * (pow2(103) * one)) by (nonlinear_arith)
        requires
            n < 0x1_0000_0000 <= pow2(103),
            one > 0,
    ;
}

/// The square root is rounded to the nearest number. In units, it is the root of `n`; and of
/// the midpoint between the result and any other number `g`, this root lies on the side of the
/// result.
pub proof fn lemma_root_nearest(a: F32, g: nat)
    requires
        a.is_finite(),
        !a.negative(),
        a.mag() > 0,
    ensures
        ({
            let n = units(a.mag()) * pow2(149);
            let b = root(a).mag();
            let twice = units(b) + units(g);
            &&& root(a).is_finite() && !root(a).negative()
            &&& g > b ==> 4 * n <= twice * twice
            &&& g < b ==> twice * twice <= 4 * n
        }),
{
    reveal(root);
    let u = units(a.mag());
    let n = u * pow2(149);
    let r = floor_root(n);
    lemma_has_floor_root(n);
    lemma2_to64();
    assert(units(0) == 0) by {
        reveal(units);
    }
    lemma_units_increase(0, a.mag());
    assert(u <= 0x80_0000 * pow2(254)) by {
        lemma_units_increase(a.mag(), INF_BITS as nat);
        reveal(units);
    }
    lemma_pow2_adds(23, 254);
    lemma_pow2_adds(277, 149);
    lemma_pow2_adds(213, 213);
    lemma_pow2_pos(149);
    let one = pow2(149);
    let limit = pow2(213);
    assert(n <= limit * limit) by (nonlinear_arith)
        requires
            n == u * one,
            u <= pow2(277),
            pow2(277) * one == limit * limit,
            one > 0,
    ;
    assert(r <= limit) by (nonlinear_arith)
        requires
            r * r <= n,
            n <= limit * limit,
            r >= 0,
            limit >= 0,
    ;
    // The root has so many digits that all numbers around it are even.
    assert(n >= one) by (nonlinear_arith)
        requires
            n == u * one,
            u >= 1,
    ;
    lemma_pow2_adds(74, 74);
    lemma_pow2_unfold(149);
    lemma_pow2_strictly_increases(32, 74);
    assert(r >= 0x1000_0000) by (nonlinear_arith)
        requires
            n < (r + 1) * (r + 1),
            n >= pow2(74) * pow2(74),
            pow2(74) >= 0x1000_0001,
            r >= 0,
    ;
    lemma_pow2_strictly_increases(213, 252);
    lemma_pow2_unfold(253);
    let top = pow2(252);
    assert(2 * r + 1 < 0x1ff_ffff * (2 * top) && r < 0x1ff_ffff * top);
    let b = root(a).mag();
    let ub = units(b);
    let ug = units(g);
    let twice = ub + ug;
    if g > b {
        lemma_units_increase(b, g);
    } else if g < b {
        lemma_units_increase(g, b);
    }
    if r * r == n {
        lemma_round_overflow(r, 0);
        lemma_round_nearest(r, 0, g);
        assert(ub * pow2(0) == ub && ug * pow2(0) == ug);
        if g > b {
            assert(twice >= 2 * r);
            assert(4 * n <= twice * twice) by (nonlinear_arith)
                requires
                    twice >= 2 * r,
                    r >= 0,
                    r * r == n,
            ;
        } else if g < b {
            assert(twice <= 2 * r);
            assert(4 * n >= twice * twice) by (nonlinear_arith)
                requires
                    0 <= twice <= 2 * r,
                    r * r == n,
            ;
        }
    } else {
        let c = 2 * r + 1;
        lemma_round_overflow(c, 1);
        lemma_round_nearest(c, 1, g);
        assert(b == round_dyadic(c, -1));
        assert(ub * pow2(1) == 2 * ub && ug * pow2(1) == 2 * ug);
        // The number 2^24 shows that the root is not rounded to anything below it.
        let low: nat = 2 * 0x80_0000;
        lemma_units_of_quanta(1, 0x80_0000);
        assert(units(low) == 0x100_0000);
        lemma_round_nearest(c, 1, low);
        lemma_round_bounds(c, 1, low);
        assert(0x100_0000 * pow2(1) == 0x200_0000);
        let x = lemma_multiple_of_spacing(b, 1);
        assert(ub == 2 * x);
        if g >= low {
            let y = lemma_multiple_of_spacing(g, 1);
            assert(ug == 2 * y);
        } else {
            lemma_units_increase(g, low);
        }
        assert(twice != c);
        if g > b {
            assert(twice >= 2 * r + 2);
            assert(4 * n <= twice * twice) by (nonlinear_arith)
                requires
                    twice >= 2 * r + 2,
                    r >= 0,
                    n < (r + 1) * (r + 1),
            ;
        } else if g < b {
            assert(twice <= 2 * r);
            assert(4 * n >= twice * twice) by (nonlinear_arith)
                requires
                    0 <= twice <= 2 * r,
                    r * r <= n,
            ;
        }
    }
}

/// How encodings count units: one by one up to `2^24`, and twice as far with every further
/// exponent.
pub proof fn lemma_units_scale(m: nat)
    ensures
        m <= 0x100_0000 ==> units(m) == m,
        m >= 0x80_0000 ==> units(m + 0x80_0000) == 2 * units(m),
{
    reveal(units);
    lemma2_to64();
    let e = m / 0x80_0000;
    let f = m % 0x80_0000;
    if e == 1 {
        assert((0x80_0000 + f) * pow2(0) == 0x80_0000 + f);
    }
    if m == 0x100_0000 {
        assert(e == 2 && f == 0);
        assert(0x80_0000 * pow2(1) == 0x100_0000);
    }
    if m >= 0x80_0000 {
        assert((m + 0x80_0000) / 0x80_0000 == e + 1 && (m + 0x80_0000) % 0x80_0000 == f);
        lemma_pow2_unfold(e);
        let p = pow2((e - 1) as nat);
        assert((0x80_0000 + f) * (2 * p) == 2 * ((0x80_0000 + f) * p)) by (nonlinear_arith);
    }
}

/// Rounding changes a number by no more than one part in `2^24`, or by half a unit.
pub proof fn lemma_round_error(n: nat, s: nat)
    requires
        round_dyadic(n, -s) < INF_BITS,
    ensures
        apart((units(round_dyadic(n, -s)) * pow2(s)) as int, n as int) * 0x100_0000 <= n + (
        if s == 0 {
            0
        } else {
            0x80_0000 * pow2(s)
        }),
{
    reveal(round_dyadic);
    lemma_pow2_pos(s);
    if n == 0 {
        assert(units(0) == 0) by {
            reveal(units);
        }
        assert(0 * pow2(s) == 0);
    } else {
        let k = quantum(n, -s);
        let q = quanta(n, -s);
        let b = round_dyadic(n, -s);
        lemma_quanta(n, s);
        lemma_units_of_quanta(k, q);
        lemma_pow2_adds(k, s);
        lemma2_to64();
        let pk = pow2(k);
        let ps = pow2(s);
        assert((q * pk) * ps == q * (pk * ps)) by (nonlinear_arith);
        lemma_round_even_nearest(n, k + s, 0);
        let err = apart((units(b) * ps) as int, n as int);
        assert(2 * err <= pow2(k + s));
        if k == 0 {
            if s == 0 {
                assert(2 * err <= 1);
            }
        }
    }
}

/// A smaller number is not rounded to a greater one.
pub proof fn lemma_round_increases(n: nat, m: nat, s: nat)
    requires
        n <= m,
    ensures
        round_dyadic(n, -s) <= round_dyadic(m, -s),
{
    lemma_round_overflow(n, s);
    lemma_round_overflow(m, s);
    let a = round_dyadic(n, -s);
    let b = round_dyadic(m, -s);
    if a > b {
        lemma_units_increase(b, a);
        lemma_pow2_pos(s);
        let p = pow2(s);
        assert(units(b) * p < units(a) * p) by (nonlinear_arith)
            requires
                units(b) < units(a),
                p > 0,
        ;
        if a < INF_BITS {
            lemma_round_nearest(n, s, b);
            lemma_round_nearest(m, s, a);
        }
    }
}

/// Whether a number is exactly the integer `n`.
pub open spec fn whole(a: F32, n: int) -> bool {
    a.is_finite() && a.value() == n * pow2(149)
}

/// The sum of two finite numbers is the number nearest to their exact sum, of two the one with
/// the even encoding; it is infinite only where that is too large.
pub proof fn lemma_sum_nearest(a: F32, b: F32, g: F32)
    requires
        a.is_finite(),
        b.is_finite(),
        g.is_finite(),
    ensures
        ({
            let s = a.value() + b.value();
            let r = sum(a, b);
            &&& !r.is_nan()
            &&& r.is_infinite() <==> apart(s, 0) >= 0x1ff_ffff * pow2(252)
            &&& s > 0 ==> !r.negative()
            &&& s < 0 ==> r.negative()
            &&& s == 0 ==> r.value() == 0 && r.negative() == (a.negative() && b.negative())
            &&& r.is_finite() ==> {
                &&& apart(r.value(), s) <= apart(g.value(), s)
                &&& apart(r.value(), s) == apart(g.value(), s) && r.value() != g.value()
                    ==> r.mag() % 2 == 0
                &&& apart(r.value(), s) * 0x100_0000 <= apart(s, 0)
            }
        }),
{
    reveal(sum);
    lemma2_to64();
    lemma_pow2_pos(252);
    let s = a.value() + b.value();
    let n = apart(s, 0) as nat;
    let r = sum(a, b);
    lemma_round_overflow(n, 0);
    assert(units(0) == 0) by {
        reveal(units);
    }
    if s != 0 {
        assert(r.mag() == round_dyadic(n, 0));
        if r.is_finite() {
            lemma_round_nearest(n, 0, g.mag());
            lemma_round_nearest(n, 0, 0);
            lemma_round_error(n, 0);
            assert(units(r.mag()) * pow2(0) == units(r.mag()));
            assert(units(g.mag()) * pow2(0) == units(g.mag()));
            assert(units(0) * pow2(0) == 0);
        }
    }
}

/// What becomes of the special values in a sum.
pub proof fn lemma_sum_special(a: F32, b: F32)
    ensures
        a.is_nan() || b.is_nan() ==> sum(a, b).is_nan(),
        a.is_infinite() && !b.is_nan() && (b.is_finite() || a.negative() == b.negative()) ==> sum(
            a,
            b,
        ) == a,
        b.is_infinite() && !a.is_nan() && (a.is_finite() || a.negative() == b.negative()) ==> sum(
            a,
            b,
        ) == b,
        a.is_infinite() && b.is_infinite() && a.negative() != b.negative() ==> sum(a, b).is_nan(),
        sum(a, b) == sum(b, a),
{
    reveal(sum);
}

/// The product of two finite numbers is the number nearest to their exact product, of two the
/// one with the even encoding; it is infinite only where that is too large.
pub proof fn lemma_product_nearest(a: F32, b: F32, g: F32)
    requires
        a.is_finite(),
        b.is_finite(),
        g.is_finite(),
    ensures
        ({
            let n = a.value() * b.value();
            let r = product(a, b);
            let one = pow2(149);
            &&& !r.is_nan()
            &&& r.negative() == (a.negative() != b.negative())
            &&& r.is_infinite() <==> apart(n, 0) >= 0x1ff_ffff * pow2(401)
            &&& r.is_finite() ==> {
                &&& apart(r.value() * one, n) <= apart(g.value() * one, n)
                &&& apart(r.value() * one, n) == apart(g.value() * one, n) && r.value() != g.value()
                    ==> r.mag() % 2 == 0
                &&& apart(r.value() * one, n) * 0x100_0000 <= apart(n, 0) + 0x80_0000 * one
            }
        }),
{
    reveal(product);
    let one = pow2(149);
    lemma_pow2_pos(149);
    let ua = units(a.mag());
    let ub = units(b.mag());
    let m = ua * ub;
    let n = a.value() * b.value();
    assert(m >= 0) by (nonlinear_arith)
        requires
            ua >= 0,
            ub >= 0,
            m == ua * ub,
    ;
    assert((-ua) * ub == -(ua * ub) && ua * (-ub) == -(ua * ub) && (-ua) * (-ub) == ua * ub)
        by (nonlinear_arith);
    assert(apart(n, 0) == m);
    let r = product(a, b);
    lemma_round_overflow(m, 149);
    assert(r.mag() == round_dyadic(m, -149));
    if r.is_finite() {
        lemma_round_nearest(m, 149, g.mag());
        lemma_round_nearest(m, 149, 0);
        lemma_round_error(m, 149);
        assert(units(0) == 0) by {
            reveal(units);
        }
        let ur = units(r.mag());
        let ug = units(g.mag());
        assert((-ur) * one == -(ur * one) && (-ug) * one == -(ug * one)) by (nonlinear_arith);
        assert(0 * one == 0);
        assert(ur * one >= 0 && ug * one >= 0) by (nonlinear_arith)
            requires
                ur >= 0,
                ug >= 0,
                one > 0,
        ;
        if r.mag() == 0 {
            assert(ur == 0);
        }
        if ur * one == 0 {
            assert(ur == 0) by (nonlinear_arith)
                requires
                    ur * one == 0,
                    one > 0,
            ;
        }
    }
}

/// What becomes of the special values in a product.
pub proof fn lemma_product_special(a: F32, b: F32)
    ensures
        a.is_nan() || b.is_nan() ==> product(a, b).is_nan(),
        a.is_infinite() && b.mag() == 0 || b.is_infinite() && a.mag() == 0 ==> product(
            a,
            b,
        ).is_nan(),
        (a.is_infinite() && !b.is_nan() && b.mag() != 0) || (b.is_infinite() && !a.is_nan()
            && a.mag() != 0) ==> product(a, b).is_infinite() && product(a, b).negative() == (
        a.negative() != b.negative()),
{
    reveal(product);
}

/// What becomes of the special values in a root.
pub proof fn lemma_root_special(a: F32)
    ensures
        a.is_nan() ==> root(a).is_nan(),
        a.mag() == 0 ==> root(a) == a,
        a.negative() && a.mag() != 0 ==> root(a).is_nan(),
        a.is_infinite() && !a.negative() ==> root(a) == a,
{
    reveal(root);
}

/// An integer is converted to the number nearest to it, of two to the one with the even
/// encoding.
pub proof fn lemma_conversion_nearest(x: int, g: F32)
    requires
        i32::MIN <= x <= i32::MAX,
        g.is_finite(),
    ensures
        ({
            let n = x * pow2(149);
            let r = nearest(x);
            &&& r.is_finite()
            &&& r.negative() == (x < 0)
            &&& apart(r.value(), n) <= apart(g.value(), n)
            &&& apart(r.value(), n) == apart(g.value(), n) && r.value() != g.value() ==> r.mag() % 2
                == 0
            &&& apart(r.value(), n) * 0x100_0000 <= apart(n, 0)
        }),
{
    reveal(nearest);
    lemma_integers_are_finite(x);
    lemma2_to64();
    let one = pow2(149);
    lemma_pow2_pos(149);
    let m = apart(x, 0) as nat;
    lemma_round_dyadic_shift(m, 149, 149);
    let n = m * one;
    assert((-m) * one == -(m * one)) by (nonlinear_arith);
    assert(n >= 0) by (nonlinear_arith)
        requires
            m >= 0,
            one > 0,
            n == m * one,
    ;
    let r = nearest(x);
    lemma_round_overflow(n, 0);
    assert(r.mag() == round_dyadic(n, 0));
    lemma_round_nearest(n, 0, g.mag());
    lemma_round_nearest(n, 0, 0);
    lemma_round_error(n, 0);
    assert(units(0) == 0) by {
        reveal(units);
    }
    assert(units(r.mag()) * pow2(0) == units(r.mag()));
    assert(units(g.mag()) * pow2(0) == units(g.mag()));
    assert(units(0) * pow2(0) == 0);
}

/// The integer part is the integer just below the magnitude, with the number's sign; where it
/// has no 32 bits, the nearest that has.
pub proof fn lemma_truncation(a: F32)
    ensures
        ({
            let one = pow2(149);
            let u = units(a.mag());
            let t = apart(truncated(a), 0);
            &&& a.is_nan() ==> truncated(a) == 0
            &&& !a.is_nan() && !a.negative() ==> {
                &&& 0 <= truncated(a) <= i32::MAX
                &&& t * one <= u
                &&& u < (t + 1) * one || t == i32::MAX
            }
            &&& !a.is_nan() && a.negative() ==> {
                &&& i32::MIN <= truncated(a) <= 0
                &&& t * one <= u
                &&& u < (t + 1) * one || t == -i32::MIN
            }
        }),
{
    reveal(truncated);
    let one = pow2(149) as int;
    lemma_pow2_pos(149);
    let u = units(a.mag()) as int;
    let t = u / one;
    lemma_fundamental_div_mod(u, one);
    assert(t >= 0 && t * one <= u && u < (t + 1) * one) by (nonlinear_arith)
        requires
            u == one * t + u % one,
            0 <= u % one < one,
            u >= 0,
            one > 0,
    ;
    let c = apart(truncated(a), 0);
    assert(c <= t ==> c * one <= t * one) by (nonlinear_arith)
        requires
            one > 0,
    ;
}

/// Numbers are compared by their values; a NaN compares with nothing.
pub proof fn lemma_comparisons(a: F32, b: F32)
    ensures
        a.is_nan() || b.is_nan() ==> !a.below(b) && !a.at_most(b),
        !a.is_nan() && !b.is_nan() ==> {
            &&& a.below(b) <==> !b.at_most(a)
            &&& a.below(b) <==> a.value() < b.value()
            &&& a.mag() < b.mag() <==> units(a.mag()) < units(b.mag())
        },
        units(0) == 0,
{
    assert(units(0) == 0) by {
        reveal(units);
    }
    if a.mag() < b.mag() {
        lemma_units_increase(a.mag(), b.mag());
    } else if b.mag() < a.mag() {
        lemma_units_increase(b.mag(), a.mag());
    }
}

/// The greater of two numbers is one of them and at least either; a clamped number is the one
/// of the range that is nearest to it.
pub proof fn lemma_greater_and_clamped(a: F32, b: F32, lo: F32, hi: F32)
    ensures
        !a.is_nan() && !b.is_nan() ==> {
            let m = greater(a, b);
            (m == a || m == b) && a.at_most(m) && b.at_most(m)
        },
        a.is_nan() ==> greater(a, b) == b,
        b.is_nan() && !a.is_nan() ==> greater(a, b) == a,
        lo.at_most(hi) ==> {
            let c = clamped(a, lo, hi);
            &&& a.is_nan() ==> c == a
            &&& a.below(lo) ==> c == lo
            &&& hi.below(a) ==> c == hi
            &&& lo.at_most(a) && a.at_most(hi) ==> c == a
            &&& !a.is_nan() ==> lo.at_most(c) && c.at_most(hi)
        },
{
}

/// Sums and products of integers of up to 24 binary digits are exact as long as they have no
/// more digits themselves, and integers are compared as such.
pub proof fn lemma_whole_arithmetic(a: F32, n: int, b: F32, m: int)
    requires
        whole(a, n),
        whole(b, m),
    ensures
        -0x100_0000 <= n + m <= 0x100_0000 ==> whole(sum(a, b), n + m),
        -0x100_0000 <= n * m <= 0x100_0000 ==> whole(product(a, b), n * m),
        a.below(b) <==> n < m,
        a.at_most(b) <==> n <= m,
{
    let one = pow2(149);
    lemma_pow2_pos(149);
    assert((n + m) * one == n * one + m * one) by (nonlinear_arith);
    assert(n < m <==> n * one < m * one) by (nonlinear_arith)
        requires
            one > 0,
    ;
    assert(n == m <==> n * one == m * one) by (nonlinear_arith)
        requires
            one > 0,
    ;
    if -0x100_0000 <= n + m <= 0x100_0000 {
        lemma_integers_are_exact(n + m);
        lemma_sum_nearest(a, b, nearest(n + m));
        lemma_small_is_finite(n + m);
    }
    if -0x100_0000 <= n * m <= 0x100_0000 {
        lemma_integers_are_exact(n * m);
        lemma_product_nearest(a, b, nearest(n * m));
        assert((n * one) * (m * one) == ((n * m) * one) * one) by (nonlinear_arith);
        lemma_small_is_finite(n * m);
        lemma_pow2_adds(252, 149);
        let r = product(a, b).value();
        let x = (n * m) * one;
        let k = apart(x, 0);
        let big = pow2(252);
        assert(apart(x * one, 0) < 0x1ff_ffff * (big * one)) by (nonlinear_arith)
            requires
                apart(x, 0) < 0x1ff_ffff * big,
                one > 0,
                apart(x, 0) == (if x >= 0 {
                    x
                } else {
                    -x
                }),
                apart(x * one, 0) == (if x * one >= 0 {
                    x * one
                } else {
                    -(x * one)
                }),
        ;
        assert(r * one == x * one ==> r == x) by (nonlinear_arith)
            requires
                one > 0,
        ;
    }
}

/// An integer of 32 bits is far below what is rounded to infinity.
proof fn lemma_small_is_finite(n: int)
    requires
        -0x1_0000_0000 <= n <= 0x1_0000_0000,
    ensures
        apart(n * pow2(149), 0) < 0x1ff_ffff * pow2(252),
{
    lemma2_to64();
    lemma_pow2_adds(103, 149);
    lemma_pow2_strictly_increases(32, 103);
    lemma_pow2_pos(149);
    let one = pow2(149);
    let p = pow2(103);
    let m = apart(n, 0);
    assert(m * one < 0x1ff_ffff * (p * one)) by (nonlinear_arith)
        requires
            m <= p,
            one > 0,
            p > 0,
    ;
    assert((-n) * one == -(n * one)) by (nonlinear_arith);
    assert(m * one >= 0) by (nonlinear_arith)
        requires
            m >= 0,
            one > 0,
    ;
}

/// The square of a longer way is not smaller.
pub proof fn lemma_square_increases(a: F32, b: F32)
    requires
        a.mag() <= b.mag(),
        !b.is_nan(),
    ensures
        product(a, a).mag() <= product(b, b).mag() <= INF_BITS,
        !product(a, a).negative(),
        !product(b, b).negative(),
{
    reveal(product);
    if a.mag() < b.mag() {
        lemma_units_increase(a.mag(), b.mag());
    }
    let ua = units(a.mag());
    let ub = units(b.mag());
    assert(ua * ua <= ub * ub) by (nonlinear_arith)
        requires
            0 <= ua <= ub,
    ;
    lemma_round_increases(ua * ua, ub * ub, 149);
    lemma_round_overflow(ub * ub, 149);
    lemma_round_overflow(ua * ua, 149);
}

/// The sum of greater positive numbers is not smaller.
pub proof fn lemma_sum_increases(a: F32, b: F32, c: F32, d: F32)
    requires
        !a.negative() && !b.negative() && !c.negative() && !d.negative(),
        a.mag() <= c.mag() <= INF_BITS,
        b.mag() <= d.mag() <= INF_BITS,
    ensures
        sum(a, b).mag() <= sum(c, d).mag() <= INF_BITS,
        !sum(a, b).negative(),
        !sum(c, d).negative(),
{
    reveal(sum);
    lemma_comparisons(a, c);
    lemma_comparisons(b, d);
    let s = a.value() + b.value();
    let t = c.value() + d.value();
    lemma_round_increases(s as nat, t as nat, 0);
    lemma_round_overflow(s as nat, 0);
    lemma_round_overflow(t as nat, 0);
}

/// What the root of `n` is rounded as: twice its integer part, and one more if anything is left.
proof fn lemma_root_as_doubled(a: F32) -> (c: nat)
    requires
        a.is_finite(),
        !a.negative(),
        a.mag() > 0,
    ensures
        root(a) == signed(false, round_dyadic(c, -1)),
        ({
            let n = units(a.mag()) * pow2(149);
            let r = floor_root(n);
            is_floor_root(n, r) && c == (if r * r == n {
                2 * r
            } else {
                2 * r + 1
            })
        }),
{
    reveal(root);
    let n = units(a.mag()) * pow2(149);
    let r = floor_root(n);
    lemma_has_floor_root(n);
    lemma2_to64();
    if r * r == n {
        lemma_round_dyadic_shift(r, 0, 1);
        2 * r
    } else {
        2 * r + 1
    }
}

/// The root of a greater number is not smaller.
pub proof fn lemma_root_increases(a: F32, b: F32)
    requires
        !a.negative(),
        !b.negative(),
        a.mag() <= b.mag() <= INF_BITS,
    ensures
        root(a).mag() <= root(b).mag() <= INF_BITS,
        !root(a).negative(),
        !root(b).negative(),
{
    lemma_root_special(a);
    lemma_root_special(b);
    if b.is_finite() && b.mag() > 0 {
        let d = lemma_root_as_doubled(b);
        lemma_round_overflow(d, 1);
        if a.mag() > 0 {
            let c = lemma_root_as_doubled(a);
            lemma_round_overflow(c, 1);
            if a.mag() < b.mag() {
                lemma_units_increase(a.mag(), b.mag());
            }
            let one = pow2(149);
            let n = units(a.mag()) * one;
            let m = units(b.mag()) * one;
            assert(n <= m) by (nonlinear_arith)
                requires
                    units(a.mag()) <= units(b.mag()),
                    n == units(a.mag()) * one,
                    m == units(b.mag()) * one,
                    one >= 0,
            ;
            let r = floor_root(n);
            let q = floor_root(m);
            assert(r <= q) by (nonlinear_arith)
                requires
                    r * r <= n,
                    n <= m,
                    m < (q + 1) * (q + 1),
                    r >= 0,
                    q >= 0,
            ;
            lemma_round_increases(c, d, 1);
        }
    } else if a.is_finite() && a.mag() > 0 {
        let c = lemma_root_as_doubled(a);
        lemma_round_overflow(c, 1);
    }
}

/// An encoding is a sign bit and a magnitude of 31 bits; the numbers end at that of infinity.
pub proof fn lemma_encoding(a: F32, negative: bool, mag: nat)
    requires
        mag < 0x8000_0000,
    ensures
        a.mag() < 0x8000_0000,
        a.bits == a.mag() + (if a.negative() {
            0x8000_0000int
        } else {
            0
        }),
        a.is_finite() <==> a.mag() < 0x7f80_0000,
        a.is_infinite() <==> a.mag() == 0x7f80_0000,
        a.is_nan() <==> a.mag() > 0x7f80_0000,
        signed(negative, mag).negative() == negative,
        signed(negative, mag).mag() == mag,
        a.negative() ==> a.value() == -units(a.mag()),
        !a.negative() ==> a.value() == units(a.mag()),
        negation(a).mag() == a.mag() && negation(a).negative() != a.negative(),
        negation(a).value() == -a.value(),
{
}

} // verus!
