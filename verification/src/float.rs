//! Single-precision floating-point numbers, held as their encodings.
//!
//! A value is measured in units of `2^-149`, the smallest positive single-precision number:
//! every finite value is then an integer, and an arithmetic operation is the exact operation on
//! integers followed by one rounding.
use crate::rounding::lemma_round_dyadic_shift;
use crate::rounding::lemma_round_dyadic_sticky;
use crate::rounding::round;
use crate::rounding::round_dyadic;
use crate::rounding::two_to;
use crate::rounding::INF_BITS;
use vstd::arithmetic::div_mod::lemma_fundamental_div_mod;
use vstd::arithmetic::div_mod::lemma_fundamental_div_mod_converse;
use vstd::arithmetic::power2::lemma2_to64;
use vstd::arithmetic::power2::lemma_pow2_adds;
use vstd::arithmetic::power2::lemma_pow2_pos;
use vstd::arithmetic::power2::lemma_pow2_strictly_increases;
use vstd::arithmetic::power2::lemma_pow2_unfold;
use vstd::arithmetic::power2::pow2;
use vstd::prelude::*;

verus! {

/// The sign bit of an encoding.
pub const SIGN_BIT: u32 = 0x8000_0000;

/// The encoding that an operation without a result gives.
pub const NAN_BITS: u32 = 0x7fc0_0000;

/// A single-precision number, held as its IEEE 754 encoding. `==` compares encodings.
#[derive(Clone, Copy, Debug, PartialEq, Eq, Structural)]
pub struct F32 {
    pub bits: u32,
}

/// The magnitude, in units, that an encoding without its sign bit stands for. The encoding of
/// infinity stands for the first magnitude beyond the finite ones.
#[verifier::opaque]
pub open spec fn units(mag: nat) -> nat {
    let exponent = mag / 0x80_0000;
    let fraction = mag % 0x80_0000;
    if exponent == 0 {
        fraction
    } else {
        (0x80_0000 + fraction) * pow2((exponent - 1) as nat)
    }
}

/// The number with this sign and this encoding of its magnitude.
pub open spec fn signed(negative: bool, mag: nat) -> F32 {
    F32 {
        bits: if negative {
            (mag + SIGN_BIT) as u32
        } else {
            mag as u32
        },
    }
}

/// Not a number.
pub open spec fn nan() -> F32 {
    F32 { bits: NAN_BITS }
}

impl F32 {
    /// Whether the sign bit is set.
    pub open spec fn negative(self) -> bool {
        self.bits >= SIGN_BIT
    }

    /// The encoding without the sign bit.
    pub open spec fn mag(self) -> nat {
        (self.bits % SIGN_BIT) as nat
    }

    pub open spec fn is_nan(self) -> bool {
        self.mag() > INF_BITS
    }

    pub open spec fn is_infinite(self) -> bool {
        self.mag() == INF_BITS
    }

    pub open spec fn is_finite(self) -> bool {
        self.mag() < INF_BITS
    }

    /// The value in units; infinities count as the first value beyond the finite ones.
    pub open spec fn value(self) -> int {
        if self.negative() {
            -units(self.mag())
        } else {
            units(self.mag()) as int
        }
    }

    /// Whether `self` is less than `other`; a NaN is less than nothing.
    pub open spec fn below(self, other: F32) -> bool {
        !self.is_nan() && !other.is_nan() && self.value() < other.value()
    }

    /// Whether `self` is at most `other`; a NaN is at most nothing.
    pub open spec fn at_most(self, other: F32) -> bool {
        !self.is_nan() && !other.is_nan() && self.value() <= other.value()
    }
}

/// `a + b`, rounded once.
#[verifier::opaque]
pub open spec fn sum(a: F32, b: F32) -> F32 {
    if a.is_nan() || b.is_nan() {
        nan()
    } else if a.is_infinite() {
        if b.is_infinite() && a != b {
            nan()
        } else {
            a
        }
    } else if b.is_infinite() {
        b
    } else {
        let s = a.value() + b.value();
        if s > 0 {
            signed(false, round_dyadic(s as nat, 0))
        } else if s < 0 {
            signed(true, round_dyadic((-s) as nat, 0))
        } else {
            signed(a.negative() && b.negative(), 0)
        }
    }
}

/// The number with the opposite sign.
pub open spec fn negation(a: F32) -> F32 {
    signed(!a.negative(), a.mag())
}

/// `a - b`, rounded once.
pub open spec fn difference(a: F32, b: F32) -> F32 {
    sum(a, negation(b))
}

/// `a * b`, rounded once. The product of two units is `2^-149` units.
#[verifier::opaque]
pub open spec fn product(a: F32, b: F32) -> F32 {
    let negative = a.negative() != b.negative();
    if a.is_nan() || b.is_nan() {
        nan()
    } else if a.is_infinite() || b.is_infinite() {
        if a.mag() == 0 || b.mag() == 0 {
            nan()
        } else {
            signed(negative, INF_BITS as nat)
        }
    } else {
        signed(negative, round_dyadic(units(a.mag()) * units(b.mag()), -149))
    }
}

/// Whether `r` is the integer part of the square root of `n`.
pub open spec fn is_floor_root(n: nat, r: nat) -> bool {
    r * r <= n < (r + 1) * (r + 1)
}

/// The integer part of the square root of `n`.
pub open spec fn floor_root(n: nat) -> nat {
    choose|r: nat| is_floor_root(n, r)
}

/// The square root, rounded once; of a negative number, NaN.
///
/// The root of `n` units is the root of `n * 2^149`, in units. Its integer part `r` has more
/// than 24 digits, so a root that is no integer may be rounded as `r` and a half.
#[verifier::opaque]
pub open spec fn root(a: F32) -> F32 {
    if a.is_nan() {
        nan()
    } else if a.mag() == 0 {
        a
    } else if a.negative() {
        nan()
    } else if a.is_infinite() {
        a
    } else {
        let n = units(a.mag()) * pow2(149);
        let r = floor_root(n);
        if r * r == n {
            signed(false, round_dyadic(r, 0))
        } else {
            signed(false, round_dyadic(2 * r + 1, -1))
        }
    }
}

/// The single-precision number nearest to an integer.
#[verifier::opaque]
pub open spec fn nearest(x: int) -> F32 {
    if x >= 0 {
        signed(false, round_dyadic(x as nat, 149))
    } else {
        signed(true, round_dyadic((-x) as nat, 149))
    }
}

/// The integer part, towards zero, and the nearest `i32` where it is none; zero of a NaN.
#[verifier::opaque]
pub open spec fn truncated(a: F32) -> int {
    let t = (units(a.mag()) / pow2(149)) as int;
    if a.is_nan() {
        0
    } else if a.negative() {
        if -t < i32::MIN {
            i32::MIN as int
        } else {
            -t
        }
    } else {
        if t > i32::MAX {
            i32::MAX as int
        } else {
            t
        }
    }
}

/// The greater of two numbers; of a number and a NaN, the number.
pub open spec fn greater(a: F32, b: F32) -> F32 {
    if a.is_nan() {
        b
    } else if b.is_nan() || b.below(a) {
        a
    } else {
        b
    }
}

/// `a`, or the nearer end of the range from `lo` to `hi` where `a` lies outside of it.
pub open spec fn clamped(a: F32, lo: F32, hi: F32) -> F32 {
    if a.below(lo) {
        lo
    } else if hi.below(a) {
        hi
    } else {
        a
    }
}

/// Greater encodings stand for greater magnitudes.
pub proof fn lemma_units_increase(a: nat, b: nat)
    requires
        a < b,
    ensures
        units(a) < units(b),
{
    reveal(units);
    let ea = a / 0x80_0000;
    let eb = b / 0x80_0000;
    let fa = a % 0x80_0000;
    let fb = b % 0x80_0000;
    if eb > 0 {
        let q = pow2((eb - 1) as nat);
        lemma_pow2_pos((eb - 1) as nat);
        if ea == 0 {
            assert((0x80_0000 + fb) * q >= 0x80_0000) by (nonlinear_arith)
                requires
                    q >= 1,
                    fb >= 0,
            ;
        } else {
            let p = pow2((ea - 1) as nat);
            lemma_pow2_pos((ea - 1) as nat);
            if ea == eb {
                assert((0x80_0000 + fa) * p < (0x80_0000 + fb) * p) by (nonlinear_arith)
                    requires
                        fa < fb,
                        p > 0,
                ;
            } else {
                lemma_pow2_unfold(ea);
                if ea < eb - 1 {
                    lemma_pow2_strictly_increases(ea, (eb - 1) as nat);
                }
                assert((0x80_0000 + fa) * p < (0x80_0000 + fb) * q) by (nonlinear_arith)
                    requires
                        fa < 0x80_0000,
                        fb >= 0,
                        2 * p <= q,
                        p > 0,
                ;
            }
        }
    }
}

/// Comparing encodings compares values.
proof fn lemma_units_order(a: nat, b: nat)
    ensures
        a < b <==> units(a) < units(b),
        a == b <==> units(a) == units(b),
        a == 0 <==> units(a) == 0,
{
    reveal(units);
    if a < b {
        lemma_units_increase(a, b);
    } else if b < a {
        lemma_units_increase(b, a);
    }
    if a > 0 {
        lemma_units_increase(0, a);
    }
}

impl F32 {
    /// The number with this encoding.
    pub fn from_bits(bits: u32) -> (r: F32)
        ensures
            r.bits == bits,
    {
        F32 { bits }
    }

    /// The encoding.
    pub fn to_bits(self) -> (bits: u32)
        ensures
            bits == self.bits,
    {
        self.bits
    }

    /// The position of the value among all values: positive above, negative below zero.
    fn rank(self) -> (r: i64)
        ensures
            r == (if self.negative() {
                -self.mag()
            } else {
                self.mag() as int
            }),
    {
        if self.bits >= SIGN_BIT {
            -((self.bits - SIGN_BIT) as i64)
        } else {
            self.bits as i64
        }
    }

    /// Whether the number is NaN.
    pub fn isnan(self) -> (r: bool)
        ensures
            r == self.is_nan(),
    {
        self.bits % SIGN_BIT > INF_BITS
    }

    /// `self < other`.
    pub fn lt(self, other: F32) -> (r: bool)
        ensures
            r == self.below(other),
    {
        proof {
            lemma_units_order(self.mag(), other.mag());
            lemma_units_order(other.mag(), self.mag());
        }
        !self.isnan() && !other.isnan() && self.rank() < other.rank()
    }

    /// `self <= other`.
    pub fn le(self, other: F32) -> (r: bool)
        ensures
            r == self.at_most(other),
    {
        proof {
            lemma_units_order(self.mag(), other.mag());
            lemma_units_order(other.mag(), self.mag());
        }
        !self.isnan() && !other.isnan() && self.rank() <= other.rank()
    }
}

/// The encoding of the sum, or of the difference where `same_sign` does not hold, of
/// `mh * 2^eh` and the not greater `ml * 2^el`.
fn combine(mh: u32, eh: u32, ml: u32, el: u32, same_sign: bool) -> (b: u32)
    requires
        mh < 0x100_0000,
        ml < 0x100_0000,
        el <= eh < 255,
        el < eh ==> mh >= 0x80_0000,
        mh * pow2(eh as nat) >= ml * pow2(el as nat),
    ensures
        same_sign ==> b == round_dyadic(
            (mh * pow2(eh as nat) + ml * pow2(el as nat)) as nat,
            0,
        ),
        !same_sign ==> b == round_dyadic(
            (mh * pow2(eh as nat) - ml * pow2(el as nat)) as nat,
            0,
        ),
        b <= INF_BITS,
{
    let ghost ph = pow2(eh as nat);
    let ghost pl = pow2(el as nat);
    if ml == 0 {
        proof {
            lemma_round_dyadic_shift(mh as nat, eh as int, eh as nat);
            assert(ml * pl == 0) by (nonlinear_arith)
                requires
                    ml == 0,
            ;
        }
        return round(mh as u128, eh as i32);
    }
    let d: u32 = eh - el;
    let ghost pd = pow2(d as nat);
    proof {
        lemma_pow2_adds(d as nat, el as nat);
        lemma_pow2_pos(el as nat);
        lemma_pow2_pos(d as nat);
        assert(ph == pd * pl);
        lemma2_to64();
    }
    if d <= 64 {
        let p: u128 = two_to(d);
        proof {
            if d < 64 {
                lemma_pow2_strictly_increases(d as nat, 64);
            }
            assert(0 <= mh * p < 0x100_0000 * 0x1_0000_0000_0000_0000) by (nonlinear_arith)
                requires
                    0 <= mh < 0x100_0000,
                    0 < p <= 0x1_0000_0000_0000_0000,
            ;
            assert(mh * p >= ml) by (nonlinear_arith)
                requires
                    mh * ph >= ml * pl,
                    ph == p * pl,
                    pl > 0,
            ;
            assert(mh * ph + ml * pl == (mh * p + ml) * pl) by (nonlinear_arith)
                requires
                    ph == p * pl,
            ;
            assert(mh * ph - ml * pl == (mh * p - ml) * pl) by (nonlinear_arith)
                requires
                    ph == p * pl,
            ;
            lemma_round_dyadic_shift((mh * p + ml) as nat, el as int, el as nat);
            lemma_round_dyadic_shift((mh * p - ml) as nat, el as int, el as nat);
        }
        if same_sign {
            round(mh as u128 * p + ml as u128, el as i32)
        } else {
            round(mh as u128 * p - ml as u128, el as i32)
        }
    } else {
        let g: u32 = d - 40;
        let ghost pg = pow2(g as nat);
        let ghost a: nat = (mh * 0x100_0000_0000) as nat;
        proof {
            lemma_pow2_adds(40, g as nat);
            lemma_pow2_strictly_increases(24, g as nat);
            lemma_pow2_adds(32, 8);
            assert(pow2(40) == 0x100_0000_0000);
            assert(mh * ph + ml * pl == (a * pg + ml) * pl) by (nonlinear_arith)
                requires
                    ph == pd * pl,
                    pd == 0x100_0000_0000 * pg,
                    a == mh * 0x100_0000_0000,
            ;
            assert(mh * ph - ml * pl == ((a - 1) * pg + (pg - ml)) * pl) by (nonlinear_arith)
                requires
                    ph == pd * pl,
                    pd == 0x100_0000_0000 * pg,
                    a == mh * 0x100_0000_0000,
            ;
            assert((a - 1) * pg >= 0) by (nonlinear_arith)
                requires
                    a >= 1,
                    pg >= 0,
            ;
            assert(a * pg >= 0) by (nonlinear_arith)
                requires
                    a >= 1,
                    pg >= 0,
            ;
            lemma_round_dyadic_shift((a * pg + ml) as nat, el as int, el as nat);
            lemma_round_dyadic_sticky(a, g as nat, ml as nat, el as int);
            lemma_round_dyadic_shift(((a - 1) * pg + (pg - ml)) as nat, el as int, el as nat);
            lemma_round_dyadic_sticky((a - 1) as nat, g as nat, (pg - ml) as nat, el as int);
        }
        let top: u128 = mh as u128 * 0x100_0000_0000;
        if same_sign {
            round(2 * top + 1, el as i32 + g as i32 - 1)
        } else {
            round(2 * (top - 1) + 1, el as i32 + g as i32 - 1)
        }
    }
}

impl F32 {
    /// The magnitude in units as `m * 2^e`, with `m` of 24 digits wherever `e` is not zero.
    fn parts(self) -> (r: (u32, u32))
        requires
            self.is_finite(),
        ensures
            units(self.mag()) == r.0 * pow2(r.1 as nat),
            r.0 < 0x100_0000,
            r.1 < 254,
            r.1 > 0 ==> r.0 >= 0x80_0000,
            r.0 >= 0x80_0000 ==> r.1 == self.mag() / 0x80_0000 - 1,
            r.0 < 0x80_0000 ==> self.mag() < 0x80_0000,
    {
        proof {
            lemma2_to64();
            reveal(units);
        }
        let mag: u32 = self.bits % SIGN_BIT;
        let exponent: u32 = mag / 0x80_0000;
        let fraction: u32 = mag % 0x80_0000;
        if exponent == 0 {
            assert(fraction * pow2(0) == fraction);
            (fraction, 0)
        } else {
            (0x80_0000 + fraction, exponent - 1)
        }
    }

    /// The number with this sign and this encoding of its magnitude.
    fn with_sign(negative: bool, mag: u32) -> (r: F32)
        requires
            mag < SIGN_BIT,
        ensures
            r == signed(negative, mag as nat),
    {
        if negative {
            F32 { bits: mag + SIGN_BIT }
        } else {
            F32 { bits: mag }
        }
    }

    /// `self + other`.
    pub fn plus(self, other: F32) -> (r: F32)
        ensures
            r == sum(self, other),
    {
        reveal(sum);
        let a: u32 = self.bits % SIGN_BIT;
        let b: u32 = other.bits % SIGN_BIT;
        let na: bool = self.bits >= SIGN_BIT;
        let nb: bool = other.bits >= SIGN_BIT;
        if a > INF_BITS || b > INF_BITS {
            return F32 { bits: NAN_BITS };
        }
        if a == INF_BITS {
            if b == INF_BITS && self.bits != other.bits {
                return F32 { bits: NAN_BITS };
            }
            return self;
        }
        if b == INF_BITS {
            return other;
        }
        proof {
            lemma_units_order(a as nat, b as nat);
            lemma_units_order(b as nat, a as nat);
        }
        if a == b && na != nb {
            return F32 { bits: 0 };
        }
        if a == 0 && b == 0 {
            return F32::with_sign(na, 0);
        }
        let (ma, ea) = self.parts();
        let (mb, eb) = other.parts();
        if a >= b {
            F32::with_sign(na, combine(ma, ea, mb, eb, na == nb))
        } else {
            F32::with_sign(nb, combine(mb, eb, ma, ea, na == nb))
        }
    }

    /// `-self`.
    pub fn neg(self) -> (r: F32)
        ensures
            r == negation(self),
    {
        F32::with_sign(self.bits < SIGN_BIT, self.bits % SIGN_BIT)
    }

    /// `self - other`.
    pub fn minus(self, other: F32) -> (r: F32)
        ensures
            r == difference(self, other),
    {
        self.plus(other.neg())
    }
}

/// There is only one integer part of a square root.
proof fn lemma_floor_root(n: nat, r: nat)
    requires
        is_floor_root(n, r),
    ensures
        floor_root(n) == r,
{
    let s = floor_root(n);
    assert(is_floor_root(n, s));
    assert(r == s) by (nonlinear_arith)
        requires
            r * r <= n,
            n < (r + 1) * (r + 1),
            s * s <= n,
            n < (s + 1) * (s + 1),
            r >= 0,
            s >= 0,
    ;
}

/// Every number has an integer part of its square root.
proof fn lemma_floor_root_exists(n: nat) -> (r: nat)
    ensures
        is_floor_root(n, r),
    decreases n,
{
    if n == 0 {
        assert(is_floor_root(0, 0)) by (nonlinear_arith);
        0
    } else {
        let r = lemma_floor_root_exists((n - 1) as nat);
        if n < (r + 1) * (r + 1) {
            r
        } else {
            assert((r + 1) * (r + 1) <= n && n < (r + 2) * (r + 2)) by (nonlinear_arith)
                requires
                    n >= (r + 1) * (r + 1),
                    n - 1 < (r + 1) * (r + 1),
                    r >= 0,
            ;
            r + 1
        }
    }
}

/// The integer part of a square root is what it says.
pub proof fn lemma_has_floor_root(n: nat)
    ensures
        is_floor_root(n, floor_root(n)),
{
    let r = lemma_floor_root_exists(n);
    lemma_floor_root(n, r);
}

/// The integer part of the square root of `m`.
fn integer_root(m: u128) -> (r: u128)
    requires
        m < 0x4000_0000_0000_0000_0000_0000_0000_0000,
    ensures
        is_floor_root(m as nat, r as nat),
        r < 0x8000_0000_0000_0000,
{
    let mut r: u128 = 0;
    let mut step: u128 = 0x8000_0000_0000_0000;
    assert(m < (r + step) * (r + step)) by (nonlinear_arith)
        requires
            m < 0x4000_0000_0000_0000_0000_0000_0000_0000,
            r == 0,
            step == 0x8000_0000_0000_0000,
    ;
    assert(r * r <= m) by (nonlinear_arith)
        requires
            r == 0,
            m >= 0,
    ;
    let mut k: u32 = 63;
    proof {
        lemma2_to64();
        lemma_pow2_unfold(64);
    }
    while k > 0
        invariant
            k <= 63,
            step == pow2(k as nat),
            step <= 0x8000_0000_0000_0000,
            r + step <= 0x8000_0000_0000_0000,
            r * r <= m < (r + step) * (r + step),
            pow2(0) == 1,
        decreases k,
    {
        proof {
            lemma_pow2_unfold(k as nat);
            lemma_pow2_pos((k - 1) as nat);
        }
        step = step / 2;
        k = k - 1;
        let next: u128 = r + step;
        assert(next * next < 0x4000_0000_0000_0000_0000_0000_0000_0000) by (nonlinear_arith)
            requires
                0 <= next < 0x8000_0000_0000_0000,
        ;
        if next * next <= m {
            r = next;
        }
    }
    r
}

/// Any nonnegative `2^j` that the root of `m` is multiplied by leaves the rounded root alone.
proof fn lemma_root_rounding(m: nat, r: nat, j: nat)
    requires
        is_floor_root(m, r),
        r >= 0x100_0000,
    ensures
        ({
            let n = m * pow2(2 * j);
            let s = floor_root(n);
            let rounded = if s * s == n {
                round_dyadic(s, 0)
            } else {
                round_dyadic(2 * s + 1, -1)
            };
            rounded == if r * r == m {
                round_dyadic(r, j as int)
            } else {
                round_dyadic(2 * r + 1, j - 1)
            }
        }),
{
    let n = m * pow2(2 * j);
    let s = lemma_floor_root_exists(n);
    lemma_floor_root(n, s);
    let p = pow2(j);
    lemma_pow2_adds(j, j);
    lemma_pow2_adds(j, 1);
    lemma_pow2_pos(j);
    lemma2_to64();
    assert(n == m * (p * p));
    if r * r == m {
        assert((r * p) * (r * p) == n) by (nonlinear_arith)
            requires
                r * r == m,
                n == m * (p * p),
        ;
        assert(n < (r * p + 1) * (r * p + 1)) by (nonlinear_arith)
            requires
                (r * p) * (r * p) == n,
                r * p >= 0,
        ;
        lemma_floor_root(n, r * p);
        lemma_round_dyadic_shift(r, j as int, j);
    } else {
        assert(s >= r * p) by {
            assert((r * p) * (r * p) == (r * r) * (p * p)) by (nonlinear_arith);
            assert((r * r) * (p * p) <= m * (p * p)) by (nonlinear_arith)
                requires
                    r * r <= m,
                    p > 0,
            ;
            assert(r * p < s + 1) by (nonlinear_arith)
                requires
                    (r * p) * (r * p) < (s + 1) * (s + 1),
                    r * p >= 0,
                    s >= 0,
            ;
        }
        assert(s < (r + 1) * p) by {
            assert(n < ((r + 1) * p) * ((r + 1) * p)) by (nonlinear_arith)
                requires
                    m < (r + 1) * (r + 1),
                    n == m * (p * p),
                    p > 0,
            ;
            assert(s < (r + 1) * p) by (nonlinear_arith)
                requires
                    s * s < ((r + 1) * p) * ((r + 1) * p),
                    (r + 1) * p >= 0,
                    s >= 0,
            ;
        }
        assert(s == r * p ==> s * s != n) by {
            assert((r * p) * (r * p) < n) by (nonlinear_arith)
                requires
                    r * r < m,
                    n == m * (p * p),
                    p > 0,
            ;
        }
        let x: nat = if s * s == n {
            2 * s
        } else {
            2 * s + 1
        };
        let rest: nat = (x - r * (p * 2)) as nat;
        assert(r * (p * 2) == 2 * (r * p)) by (nonlinear_arith);
        assert((r + 1) * p == r * p + p) by (nonlinear_arith);
        lemma_round_dyadic_sticky(r, (j + 1) as nat, rest, -1);
        if s * s == n {
            lemma_round_dyadic_shift(s, 0, 1);
        }
    }
}

impl F32 {
    /// `self * other`.
    pub fn times(self, other: F32) -> (r: F32)
        ensures
            r == product(self, other),
    {
        reveal(product);
        let a: u32 = self.bits % SIGN_BIT;
        let b: u32 = other.bits % SIGN_BIT;
        let negative: bool = (self.bits >= SIGN_BIT) != (other.bits >= SIGN_BIT);
        if a > INF_BITS || b > INF_BITS {
            return F32 { bits: NAN_BITS };
        }
        if a == INF_BITS || b == INF_BITS {
            if a == 0 || b == 0 {
                return F32 { bits: NAN_BITS };
            }
            return F32::with_sign(negative, INF_BITS);
        }
        let (ma, ea) = self.parts();
        let (mb, eb) = other.parts();
        proof {
            let pa = pow2(ea as nat);
            let pb = pow2(eb as nat);
            lemma_pow2_adds(ea as nat, eb as nat);
            assert((ma * pa) * (mb * pb) == (ma * mb) * (pa * pb)) by (nonlinear_arith);
            assert(0 <= ma * mb < 0x100_0000 * 0x100_0000) by (nonlinear_arith)
                requires
                    0 <= ma < 0x100_0000,
                    0 <= mb < 0x100_0000,
            ;
            lemma_round_dyadic_shift((ma * mb) as nat, ea + eb - 149, (ea + eb) as nat);
        }
        F32::with_sign(negative, round(ma as u128 * mb as u128, ea as i32 + eb as i32 - 149))
    }

    /// The square root.
    pub fn sqrt(self) -> (r: F32)
        ensures
            r == root(self),
    {
        reveal(root);
        let a: u32 = self.bits % SIGN_BIT;
        if a > INF_BITS {
            return F32 { bits: NAN_BITS };
        }
        if a == 0 {
            return self;
        }
        if self.bits >= SIGN_BIT {
            return F32 { bits: NAN_BITS };
        }
        if a == INF_BITS {
            return self;
        }
        let (m, e) = self.parts();
        let odd: u32 = (e + 149) % 2;
        let shift: u32 = 100 + odd;
        let j: u32 = (e + 149 - shift) / 2;
        let p: u128 = two_to(shift);
        proof {
            lemma_units_order(a as nat, 0);
            assert(m > 0) by (nonlinear_arith)
                requires
                    m * pow2(e as nat) > 0,
                    m >= 0,
            ;
            lemma2_to64();
            lemma_pow2_adds(64, 36);
            lemma_pow2_adds(32, 4);
            lemma_pow2_unfold(101);
            assert(pow2(100) == 0x10_0000_0000_0000_0000_0000_0000);
            assert(0 < m * p < 0x100_0000 * 0x20_0000_0000_0000_0000_0000_0001) by (nonlinear_arith)
                requires
                    0 < m < 0x100_0000,
                    0 < p <= 0x20_0000_0000_0000_0000_0000_0000,
            ;
            assert(m * p >= 0x10_0000_0000_0000_0000_0000_0000) by (nonlinear_arith)
                requires
                    0 < m,
                    p >= 0x10_0000_0000_0000_0000_0000_0000,
            ;
        }
        let n: u128 = m as u128 * p;
        let r: u128 = integer_root(n);
        proof {
            assert(r >= 0x100_0000) by (nonlinear_arith)
                requires
                    n < (r + 1) * (r + 1),
                    n >= 0x10_0000_0000_0000_0000_0000_0000,
                    r >= 0,
            ;
            lemma_root_rounding(n as nat, r as nat, j as nat);
            lemma_pow2_adds(shift as nat, 2 * j as nat);
            lemma_pow2_adds(e as nat, 149);
            let pe = pow2(e as nat);
            let pq = pow2(149);
            let pj = pow2(2 * j as nat);
            assert((m * pe) * pq == m * (pe * pq)) by (nonlinear_arith);
            assert((m * p) * pj == m * (p * pj)) by (nonlinear_arith);
            assert(r * r < 0x8000_0000_0000_0000 * 0x8000_0000_0000_0000) by (nonlinear_arith)
                requires
                    0 <= r < 0x8000_0000_0000_0000,
            ;
        }
        if r * r == n {
            F32::with_sign(false, round(r, j as i32))
        } else {
            F32::with_sign(false, round(2 * r + 1, j as i32 - 1))
        }
    }

    /// The number nearest to `x`.
    pub fn from_i32(x: i32) -> (r: F32)
        ensures
            r == nearest(x as int),
    {
        reveal(nearest);
        if x >= 0 {
            F32::with_sign(false, round(x as u128, 149))
        } else {
            let m: i64 = -(x as i64);
            F32::with_sign(true, round(m as u128, 149))
        }
    }

    /// The integer part of the magnitude of a finite number.
    fn whole(self) -> (t: u128)
        requires
            self.is_finite(),
        ensures
            t == units(self.mag()) / pow2(149),
    {
        let (m, e) = self.parts();
        let ghost n: nat = (m * pow2(e as nat)) as nat;
        proof {
            lemma2_to64();
            lemma_pow2_pos(e as nat);
            lemma_pow2_pos(149);
        }
        if e >= 149 {
            let k: u32 = e - 149;
            let p: u128 = two_to(k);
            proof {
                lemma_pow2_pos(k as nat);
                lemma_pow2_adds(k as nat, 149);
                lemma_pow2_adds(64, 40);
                lemma_pow2_adds(32, 8);
                assert(pow2(104) == 0x100_0000_0000_0000_0000_0000_0000);
                if k < 104 {
                    lemma_pow2_strictly_increases(k as nat, 104);
                }
                assert(0 <= m * p < 0x100_0000 * 0x100_0000_0000_0000_0000_0000_0000)
                    by (nonlinear_arith)
                    requires
                        0 <= m < 0x100_0000,
                        0 < p <= 0x100_0000_0000_0000_0000_0000_0000,
                ;
                let one = pow2(149);
                assert(m * (p * one) == (m * p) * one) by (nonlinear_arith);
                lemma_fundamental_div_mod_converse(n as int, one as int, m * p, 0);
            }
            m as u128 * p
        } else if e <= 125 {
            proof {
                if e < 125 {
                    lemma_pow2_strictly_increases(e as nat, 125);
                }
                lemma_pow2_adds(24, 125);
                let one = pow2(149);
                let p = pow2(125);
                assert(m * pow2(e as nat) < 0x100_0000 * p) by (nonlinear_arith)
                    requires
                        0 <= m < 0x100_0000,
                        0 < pow2(e as nat) <= p,
                ;
                assert(m * pow2(e as nat) >= 0) by (nonlinear_arith)
                    requires
                        0 <= m,
                        0 < pow2(e as nat),
                ;
                lemma_fundamental_div_mod_converse(n as int, one as int, 0, n as int);
            }
            0
        } else {
            let k: u32 = 149 - e;
            let p: u128 = two_to(k);
            let q: u128 = m as u128 / p;
            proof {
                lemma_pow2_adds(k as nat, e as nat);
                lemma_pow2_pos(k as nat);
                let s = pow2(e as nat);
                let r: int = m as int % p as int;
                lemma_fundamental_div_mod(m as int, p as int);
                assert(m * s == q * (p * s) + r * s) by (nonlinear_arith)
                    requires
                        m == p * q + r,
                ;
                assert(0 <= r * s < p * s) by (nonlinear_arith)
                    requires
                        0 <= r < p,
                        s > 0,
                ;
                lemma_fundamental_div_mod_converse(n as int, pow2(149) as int, q as int, r * s);
            }
            q
        }
    }

    /// The integer part, towards zero, and the nearest `i32` where it is none; zero of a NaN.
    pub fn to_i32(self) -> (r: i32)
        ensures
            r == truncated(self),
    {
        reveal(truncated);
        let a: u32 = self.bits % SIGN_BIT;
        if a > INF_BITS {
            return 0;
        }
        let t: u128 = if a == INF_BITS {
            proof {
                reveal(units);
                lemma2_to64();
                lemma_pow2_adds(149, 105);
                lemma_pow2_adds(32, 73);
                lemma_pow2_pos(149);
                lemma_pow2_pos(73);
                let one = pow2(149);
                let p = pow2(105);
                assert(0x80_0000 * (one * p) == (0x80_0000 * p) * one) by (nonlinear_arith);
                lemma_fundamental_div_mod_converse(
                    units(a as nat) as int,
                    one as int,
                    (0x80_0000 * p) as int,
                    0,
                );
                assert(0x1_0000_0000 * pow2(73) >= 0x1_0000_0000) by (nonlinear_arith)
                    requires
                        pow2(73) >= 1,
                ;
            }
            0x1_0000_0000
        } else {
            self.whole()
        };
        if self.bits >= SIGN_BIT {
            if t > 0x8000_0000 {
                i32::MIN
            } else {
                (-(t as i64)) as i32
            }
        } else {
            if t > 0x7fff_ffff {
                i32::MAX
            } else {
                t as i32
            }
        }
    }

    /// The greater of two numbers; of a number and a NaN, the number.
    pub fn max(self, other: F32) -> (r: F32)
        ensures
            r == greater(self, other),
    {
        if self.isnan() {
            other
        } else if other.isnan() || other.lt(self) {
            self
        } else {
            other
        }
    }

    /// The number brought into the range from `lo` to `hi`.
    pub fn clamp(self, lo: F32, hi: F32) -> (r: F32)
        requires
            lo.at_most(hi),
        ensures
            r == clamped(self, lo, hi),
    {
        if self.lt(lo) {
            lo
        } else if hi.lt(self) {
            hi
        } else {
            self
        }
    }

    /// The magnitude.
    pub fn abs(self) -> (r: F32)
        ensures
            r == signed(false, self.mag()),
    {
        F32 { bits: self.bits % SIGN_BIT }
    }
}

} // verus!
