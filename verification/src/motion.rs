//! How the cat moves, in pixels.
use crate::cat::cat_side;
use crate::cat::chase_radius;
use crate::cat::eased;
use crate::cat::easing;
use crate::cat::move_threshold;
use crate::cat::room;
use crate::cat::straight_ratio;
use crate::cat::turn_threshold;
use crate::cat::zero;
use crate::cat::Cat;
use crate::float::difference;
use crate::float::lemma_units_increase;
use crate::float::nearest;
use crate::float::negation;
use crate::float::product;
use crate::float::root;
use crate::float::sum;
use crate::float::units;
use crate::float::F32;
use crate::precision::apart;
use crate::precision::lemma_comparisons;
use crate::precision::lemma_greater_and_clamped;
use crate::precision::lemma_integers_are_exact;
use crate::precision::lemma_product_nearest;
use crate::precision::lemma_product_special;
use crate::precision::lemma_root_increases;
use crate::precision::lemma_root_nearest;
use crate::precision::lemma_root_special;
use crate::precision::lemma_square_increases;
use crate::precision::lemma_sum_increases;
use crate::precision::lemma_sum_nearest;
use crate::precision::lemma_sum_special;
use crate::precision::lemma_whole_arithmetic;
use crate::precision::whole;
use crate::rounding::INF_BITS;
use vstd::arithmetic::power2::lemma2_to64;
use vstd::arithmetic::power2::lemma_pow2_adds;
use vstd::arithmetic::power2::lemma_pow2_pos;
use vstd::arithmetic::power2::pow2;
use vstd::prelude::*;

verus! {

/// One pixel, in units.
pub open spec fn pixel() -> int {
    pow2(149) as int
}

/// The numbers of the cat's rules: thresholds in pixels, and three tenths, to one part in ten
/// millions.
pub proof fn lemma_rules()
    ensures
        whole(zero(), 0),
        whole(turn_threshold(), 1),
        whole(move_threshold(), 2),
        whole(straight_ratio(), 2),
        whole(cat_side(), 32),
        whole(chase_radius(), 150),
        easing().is_finite() && !easing().negative(),
        3 * pixel() <= 10 * easing().value(),
        (10 * easing().value() - 3 * pixel()) * 10_000_000 <= 3 * pixel(),
        easing().value() == 0x99_999a * pow2(124),
        pixel() == 0x200_0000 * pow2(124),
        pixel() > 0,
{
    reveal(units);
    lemma2_to64();
    lemma_pow2_pos(124);
    lemma_pow2_adds(25, 124);
    lemma_pow2_adds(26, 124);
    lemma_pow2_adds(30, 124);
    lemma_pow2_adds(32, 124);
    lemma_pow2_adds(2, 124);
    lemma_pow2_adds(3, 124);
    lemma_pow2_adds(7, 124);
    lemma_pow2_adds(9, 124);
    let q = pow2(124);
    assert(0 * pow2(149) == 0);
    assert(pow2(126) == 4 * q && pow2(127) == 8 * q && pow2(131) == 128 * q && pow2(133) == 512 * q);
    assert(turn_threshold().mag() / 0x80_0000 == 127 && turn_threshold().mag() % 0x80_0000 == 0);
    assert(move_threshold().mag() / 0x80_0000 == 128 && move_threshold().mag() % 0x80_0000 == 0);
    assert(cat_side().mag() / 0x80_0000 == 132 && cat_side().mag() % 0x80_0000 == 0);
    assert(chase_radius().mag() / 0x80_0000 == 134 && chase_radius().mag() % 0x80_0000
        == 0x16_0000);
    assert(easing().mag() / 0x80_0000 == 125 && easing().mag() % 0x80_0000 == 0x19_999a);
    assert(pow2(149) == 0x200_0000 * q);
    assert(units(turn_threshold().mag()) == 0x80_0000 * pow2(126));
    assert(units(move_threshold().mag()) == 0x80_0000 * pow2(127));
    assert(units(cat_side().mag()) == 0x80_0000 * pow2(131));
    assert(units(chase_radius().mag()) == 0x96_0000 * pow2(133));
    assert(1 * pow2(149) == 0x200_0000 * q);
    assert(2 * pow2(149) == 0x400_0000 * q);
    assert(32 * pow2(149) == 0x4000_0000 * q);
    assert(150 * pow2(149) == 0x1_2c00_0000 * q);
}

/// The greatest position in an area that is `w` pixels wide: the cat needs 32 of them.
pub proof fn lemma_room_in_pixels(extent: F32, w: int)
    requires
        whole(extent, w),
        -0x100_0000 <= w <= 0x100_0000,
    ensures
        whole(
            room(extent),
            if w >= 32 {
                w - 32
            } else {
                0
            },
        ),
{
    lemma_rules();
    let less = negation(cat_side());
    let one = pixel();
    assert((-32) * one == -(32 * one)) by (nonlinear_arith);
    assert(whole(less, -32));
    lemma_whole_arithmetic(extent, w, less, -32);
    lemma_sum_nearest(extent, less, zero());
    let d = difference(extent, cat_side());
    assert((w - 32) * one == w * one - 32 * one) by (nonlinear_arith);
    assert(w < 32 ==> (w - 32) * one < 0) by (nonlinear_arith)
        requires
            one > 0,
    ;
    assert(w >= 32 ==> (w - 32) * one >= 0) by (nonlinear_arith)
        requires
            one > 0,
    ;
    assert(0 * one == 0);
    lemma_comparisons(d, zero());
    lemma_greater_and_clamped(d, zero(), zero(), zero());
    if w < 32 {
        assert(d.negative() && !d.is_nan());
        assert(d.value() <= 0);
    }
}

/// Where a cat at `from` that runs towards `cursor` may be after a tick, if it can go as far as
/// `top`: within rounding at seven tenths of where it was and three tenths of where the cursor
/// is, or at the edge that lies before that place.
pub open spec fn ran(from: int, cursor: int, top: int, to: int) -> bool {
    let goal = 7 * from + 3 * cursor;
    let slack = 11 * (apart(from, 0) + apart(cursor, 0)) + 0x800_0000;
    &&& 0 <= to <= top
    &&& 10 * to * 0x80_0000 <= goal * 0x80_0000 + slack || to == 0
    &&& 10 * to * 0x80_0000 >= goal * 0x80_0000 - slack || to == top
}

/// What the slack comes to: the errors of the three operations, in units, for a way `d` that is
/// rounded to `w`, the stride `s`, and the place `r` that it leads to.
proof fn lemma_slack(p: int, c: int, w: int, s: int, r: int)
    requires
        apart(w, c - p) * 0x100_0000 <= apart(c - p, 0),
        apart(s * 0x200_0000, w * 0x99_999a) * 0x100_0000 <= apart(w * 0x99_999a, 0)
            + 0x80_0000 * 0x200_0000,
        apart(r, p + s) * 0x100_0000 <= apart(p + s, 0),
    ensures
        apart(10 * r, 7 * p + 3 * c) * 0x80_0000 <= 11 * (apart(p, 0) + apart(c, 0)) + 0x800_0000,
{
}

/// The stride of three tenths, rounded.
proof fn lemma_stride(way: F32)
    requires
        way.is_finite(),
    ensures
        ({
            let w = way.value();
            let stride = product(way, easing());
            &&& stride.is_finite()
            &&& apart(stride.value() * 0x200_0000, w * 0x99_999a) * 0x100_0000 <= apart(
                w * 0x99_999a,
                0,
            ) + 0x80_0000 * 0x200_0000
        }),
{
    lemma_rules();
    let w = way.value();
    let stride = product(way, easing());
    let q = pow2(124) as int;
    let one = pixel();
    lemma_pow2_pos(124);
    lemma_product_nearest(way, easing(), zero());
    lemma_comparisons(way, F32 { bits: INF_BITS });
    lemma_units_increase(way.mag(), INF_BITS as nat);
    let n = w * easing().value();
    let k = w * 0x99_999a;
    assert(n == k * q) by (nonlinear_arith)
        requires
            n == w * easing().value(),
            easing().value() == 0x99_999a * q,
            k == w * 0x99_999a,
    ;
    assert(apart(n, 0) == apart(k, 0) * q) by {
        assert(k >= 0 ==> k * q >= 0) by (nonlinear_arith)
            requires
                q > 0,
        ;
        assert(k <= 0 ==> k * q <= 0) by (nonlinear_arith)
            requires
                q > 0,
        ;
        assert((-k) * q == -(k * q)) by (nonlinear_arith);
    }
    assert(stride.is_finite()) by {
        reveal(units);
        let top = units(INF_BITS as nat);
        assert(INF_BITS as nat / 0x80_0000 == 255 && INF_BITS as nat % 0x80_0000 == 0);
        lemma2_to64();
        lemma_pow2_adds(254, 147);
        lemma_pow2_adds(124, 23);
        let a = apart(w, 0);
        let b = pow2(254) as int;
        let f = pow2(147) as int;
        lemma_pow2_pos(254);
        lemma_pow2_pos(147);
        assert(f == 0x80_0000 * q);
        assert(apart(k, 0) == a * 0x99_999a);
        assert(a < 0x80_0000 * b);
        assert((a * 0x99_999a) * q < 0x1ff_ffff * (b * f)) by (nonlinear_arith)
            requires
                0 <= a < 0x80_0000 * b,
                f == 0x80_0000 * q,
                q > 0,
                b > 0,
        ;
    }
    let s = stride.value();
    let m = s * 0x200_0000;
    assert(s * one == m * q) by (nonlinear_arith)
        requires
            one == 0x200_0000 * q,
            m == s * 0x200_0000,
    ;
    let e = apart(m, k);
    assert(apart(s * one, n) == e * q) by {
        assert(m * q - k * q == (m - k) * q) by (nonlinear_arith);
        assert(m >= k ==> (m - k) * q >= 0) by (nonlinear_arith)
            requires
                q > 0,
        ;
        assert(m <= k ==> (m - k) * q <= 0) by (nonlinear_arith)
            requires
                q > 0,
        ;
        assert((k - m) * q == -((m - k) * q)) by (nonlinear_arith);
    }
    let t = apart(k, 0) + 0x80_0000 * 0x200_0000;
    assert(e * 0x100_0000 <= t) by (nonlinear_arith)
        requires
            (e * q) * 0x100_0000 <= apart(k, 0) * q + 0x80_0000 * (0x200_0000 * q),
            t == apart(k, 0) + 0x80_0000 * 0x200_0000,
            q > 0,
    ;
}

/// Where three tenths of the way lead to, before the edges of the area count.
proof fn lemma_reach(position: F32, cursor: F32)
    requires
        position.is_finite(),
        cursor.is_finite(),
        apart(position.value(), 0) + apart(cursor.value(), 0) <= pow2(276),
    ensures
        ({
            let reach = sum(position, product(difference(cursor, position), easing()));
            let p = position.value();
            let c = cursor.value();
            &&& reach.is_finite()
            &&& apart(10 * reach.value(), 7 * p + 3 * c) * 0x80_0000 <= 11 * (apart(p, 0) + apart(
                c,
                0,
            )) + 0x800_0000
        }),
{
    lemma_rules();
    lemma2_to64();
    let less = negation(position);
    let way = difference(cursor, position);
    let stride = product(way, easing());
    let reach = sum(position, stride);
    let p = position.value();
    let c = cursor.value();
    assert(less.value() == -p);
    lemma_pow2_adds(24, 252);
    lemma_pow2_pos(252);
    let h = pow2(252) as int;
    assert(pow2(276) == 0x100_0000 * h);
    lemma_sum_nearest(cursor, less, zero());
    assert(apart(c - p, 0) <= 0x100_0000 * h);
    lemma_stride(way);
    lemma_sum_nearest(position, stride, zero());
    lemma_small_stride(c - p, way.value(), stride.value());
    assert(apart(p + stride.value(), 0) < 0x1ff_ffff * h);
    lemma_slack(p, c, way.value(), stride.value(), reach.value());
}

/// A cat runs three tenths of the way to the cursor, as far as its area goes. Only ways of more
/// than `2^127` pixels are left out.
pub proof fn lemma_eased_runs(position: F32, cursor: F32, extent: F32)
    requires
        position.is_finite(),
        cursor.is_finite(),
        apart(position.value(), 0) + apart(cursor.value(), 0) <= pow2(276),
    ensures
        eased(position, cursor, extent).is_finite(),
        ran(
            position.value(),
            cursor.value(),
            room(extent).value(),
            eased(position, cursor, extent).value(),
        ),
{
    lemma_rules();
    lemma_reach(position, cursor);
    let reach = sum(position, product(difference(cursor, position), easing()));
    let top = room(extent);
    assert(0 * pixel() == 0);
    lemma_room_near(extent);
    lemma_comparisons(zero(), top);
    lemma_units_increase(0, INF_BITS as nat);
    lemma_comparisons(reach, top);
    lemma_comparisons(top, reach);
    lemma_greater_and_clamped(reach, zero(), zero(), top);
    if top.is_infinite() {
        lemma_units_increase(reach.mag(), INF_BITS as nat);
    }
}

/// A stride is much shorter than the way.
proof fn lemma_small_stride(d: int, w: int, s: int)
    requires
        apart(w, d) * 0x100_0000 <= apart(d, 0),
        apart(s * 0x200_0000, w * 0x99_999a) * 0x100_0000 <= apart(w * 0x99_999a, 0)
            + 0x80_0000 * 0x200_0000,
    ensures
        2 * apart(s, 0) <= apart(d, 0) + 2,
{
}

/// What running three tenths of the way means for a cat within a million pixels of the origin:
/// where the cursor is more than a pixel away and no edge is in between, the cat comes nearer,
/// and does not run past the cursor.
pub proof fn lemma_comes_nearer(from: int, cursor: int, top: int, to: int)
    requires
        ran(from, cursor, top, to),
        0 <= from <= top,
        from <= 0x10_0000 * pixel(),
    ensures
        cursor > from + pixel() && from < top ==> from < to < cursor,
        cursor < from - pixel() && from > 0 ==> cursor < to < from,
{
    lemma_rules();
    let q = pow2(124) as int;
    lemma2_to64();
    lemma_pow2_adds(32, 92);
    lemma_pow2_pos(92);
    assert(q >= 0x1_0000_0000) by (nonlinear_arith)
        requires
            q == 0x1_0000_0000 * pow2(92),
            pow2(92) >= 1,
    ;
}

/// The greatest position in any other area: 32 pixels less than its extent, within rounding,
/// but not less than zero.
pub proof fn lemma_room_near(extent: F32)
    ensures
        extent.is_finite() ==> {
            let left = extent.value() - 32 * pixel();
            let r = room(extent);
            &&& left <= 0 ==> r.value() == 0
            &&& left > 0 && left < 0x1ff_ffff * pow2(252) ==> r.is_finite() && apart(
                r.value(),
                left,
            ) * 0x100_0000 <= left
            &&& r.is_finite() && 0 <= r.value()
        },
        extent.is_nan() ==> room(extent) == zero(),
        extent.is_infinite() && extent.negative() ==> room(extent) == zero(),
        extent.is_infinite() && !extent.negative() ==> room(extent) == extent,
{
    lemma_rules();
    let less = negation(cat_side());
    let d = difference(extent, cat_side());
    assert(0 * pixel() == 0);
    assert(less.value() == -(32 * pixel()) && less.is_finite());
    lemma_sum_special(extent, less);
    lemma_comparisons(d, zero());
    lemma_comparisons(zero(), extent);
    lemma_greater_and_clamped(d, zero(), zero(), zero());
    if extent.is_finite() {
        lemma_sum_nearest(extent, less, zero());
        lemma_sum_nearest(extent, less, extent);
        lemma_finite_is_small(extent);
    } else if extent.is_infinite() {
        lemma_units_increase(0, INF_BITS as nat);
    }
}

/// A finite number is far enough below what is rounded to infinity.
proof fn lemma_finite_is_small(a: F32)
    requires
        a.is_finite(),
    ensures
        apart(a.value(), 0) < 0x1ff_ffff * pow2(252),
{
    let zero_sum = sum(a, zero());
    lemma_rules();
    assert(0 * pixel() == 0);
    lemma_sum_nearest(a, zero(), a);
    let top: nat = 0x7f7f_ffff;
    lemma2_to64();
    lemma_pow2_pos(252);
    lemma_pow2_adds(252, 1);
    assert(units(top) == 0xff_ffff * pow2(253)) by {
        reveal(units);
    }
    if a.mag() < top {
        lemma_units_increase(a.mag(), top);
    }
}

/// A cat that minds the cursor and is not frozen runs three tenths of the way on either axis,
/// whatever the other axis and the area are like; and the area lets it go as far as its extent
/// in pixels less the cat's own 32. Where the cursor is more than a pixel away on an axis and no
/// edge is in between, the cat comes nearer on that axis.
pub proof fn lemma_chase_in_pixels(
    cat: Cat,
    rng: u32,
    x: F32,
    y: F32,
    bounds: (F32, F32),
    w: int,
    h: int,
)
    requires
        !cat.frozen,
        cat.minds(x, y),
        cat.win_x.is_finite() && cat.win_y.is_finite() && x.is_finite() && y.is_finite(),
        apart(cat.win_x.value(), 0) + apart(x.value(), 0) <= pow2(276),
        apart(cat.win_y.value(), 0) + apart(y.value(), 0) <= pow2(276),
        whole(bounds.0, w) && whole(bounds.1, h),
        -0x100_0000 <= w <= 0x100_0000,
        -0x100_0000 <= h <= 0x100_0000,
    ensures
        ({
            let after = cat.moved(rng, x, y, bounds);
            let (px, py) = (cat.win_x.value(), cat.win_y.value());
            let (qx, qy) = (after.win_x.value(), after.win_y.value());
            let right = if w >= 32 {
                (w - 32) * pixel()
            } else {
                0
            };
            let bottom = if h >= 32 {
                (h - 32) * pixel()
            } else {
                0
            };
            &&& after.win_x.is_finite() && ran(px, x.value(), right, qx)
            &&& after.win_y.is_finite() && ran(py, y.value(), bottom, qy)
            &&& 0 <= px <= right && px <= 0x10_0000 * pixel() ==> {
                &&& x.value() > px + pixel() && px < right ==> px < qx < x.value()
                &&& x.value() < px - pixel() && px > 0 ==> x.value() < qx < px
            }
            &&& 0 <= py <= bottom && py <= 0x10_0000 * pixel() ==> {
                &&& y.value() > py + pixel() && py < bottom ==> py < qy < y.value()
                &&& y.value() < py - pixel() && py > 0 ==> y.value() < qy < py
            }
        }),
{
    let after = cat.moved(rng, x, y, bounds);
    lemma_rules();
    lemma_room_in_pixels(bounds.0, w);
    lemma_room_in_pixels(bounds.1, h);
    let right = if w >= 32 {
        (w - 32) * pixel()
    } else {
        0
    };
    let bottom = if h >= 32 {
        (h - 32) * pixel()
    } else {
        0
    };
    assert(0 * pixel() == 0);
    assert(room(bounds.0).value() == right && room(bounds.1).value() == bottom);
    lemma_room_near(bounds.0);
    lemma_room_near(bounds.1);
    lemma_eased_runs(cat.win_x, x, bounds.0);
    lemma_eased_runs(cat.win_y, y, bounds.1);
    if 0 <= cat.win_x.value() <= right && cat.win_x.value() <= 0x10_0000 * pixel() {
        lemma_comes_nearer(cat.win_x.value(), x.value(), right, after.win_x.value());
    }
    if 0 <= cat.win_y.value() <= bottom && cat.win_y.value() <= 0x10_0000 * pixel() {
        lemma_comes_nearer(cat.win_y.value(), y.value(), bottom, after.win_y.value());
    }
}

/// The same in areas of any other extent.
pub proof fn lemma_chase_anywhere(cat: Cat, rng: u32, x: F32, y: F32, bounds: (F32, F32))
    requires
        !cat.frozen,
        cat.minds(x, y),
        cat.win_x.is_finite() && cat.win_y.is_finite() && x.is_finite() && y.is_finite(),
        apart(cat.win_x.value(), 0) + apart(x.value(), 0) <= pow2(276),
        apart(cat.win_y.value(), 0) + apart(y.value(), 0) <= pow2(276),
    ensures
        ({
            let after = cat.moved(rng, x, y, bounds);
            &&& after.win_x.is_finite() && ran(
                cat.win_x.value(),
                x.value(),
                room(bounds.0).value(),
                after.win_x.value(),
            )
            &&& after.win_y.is_finite() && ran(
                cat.win_y.value(),
                y.value(),
                room(bounds.1).value(),
                after.win_y.value(),
            )
        }),
{
    lemma_rules();
    assert(0 * pixel() == 0);
    lemma_room_near(bounds.0);
    lemma_room_near(bounds.1);
    lemma_eased_runs(cat.win_x, x, bounds.0);
    lemma_eased_runs(cat.win_y, y, bounds.1);
}

/// A cat that is frozen, or does not mind the cursor, stays where it is and looks where it did.
pub proof fn lemma_stays_put(cat: Cat, rng: u32, x: F32, y: F32, bounds: (F32, F32))
    requires
        cat.frozen || !cat.minds(x, y),
    ensures
        ({
            let after = cat.moved(rng, x, y, bounds);
            after.win_x == cat.win_x && after.win_y == cat.win_y && after.dir == cat.dir
        }),
{
}

/// The root of a square is what was squared.
proof fn lemma_root_of_square(a: F32, n: int)
    requires
        0 < n <= 4096,
        whole(a, n * n),
    ensures
        whole(root(a), n),
        !root(a).negative(),
{
    lemma_rules();
    let one = pixel();
    assert(n * n > 0 && n * n <= 0x100_0000) by (nonlinear_arith)
        requires
            0 < n <= 4096,
    ;
    assert((n * n) * one > 0) by (nonlinear_arith)
        requires
            n * n > 0,
            one > 0,
    ;
    lemma_comparisons(zero(), a);
    lemma_integers_are_exact(n);
    let g = nearest(n);
    assert(n * one > 0) by (nonlinear_arith)
        requires
            n > 0,
            one > 0,
    ;
    lemma_root_nearest(a, g.mag());
    let b = root(a).mag();
    let ub = units(b) as int;
    let ug = n * one;
    let m = (n * n) * one * one;
    assert(m == ug * ug) by (nonlinear_arith)
        requires
            m == (n * n) * one * one,
            ug == n * one,
    ;
    if b < g.mag() {
        lemma_units_increase(b, g.mag());
        assert((ub + ug) * (ub + ug) < 4 * (ug * ug)) by (nonlinear_arith)
            requires
                0 <= ub < ug,
        ;
    } else if b > g.mag() {
        lemma_units_increase(g.mag(), b);
        assert((ub + ug) * (ub + ug) > 4 * (ug * ug)) by (nonlinear_arith)
            requires
                0 < ug < ub,
        ;
    }
}

/// The first integer whose root is more than 150.
proof fn lemma_root_beyond(a: F32)
    requires
        whole(a, 22501),
    ensures
        chase_radius().below(root(a)),
{
    lemma_rules();
    let one = pixel();
    lemma_comparisons(zero(), a);
    assert(22501 * one > 0);
    let g: nat = 0x4316_0001;
    let z = pow2(133) as int;
    lemma2_to64();
    lemma_pow2_adds(16, 133);
    lemma_pow2_pos(133);
    assert(one == 0x1_0000 * z);
    assert(units(g) == 0x96_0001 * z) by {
        reveal(units);
        assert(g / 0x80_0000 == 134 && g % 0x80_0000 == 0x16_0001);
    }
    lemma_root_nearest(a, g);
    let b = root(a);
    let ub = units(b.mag()) as int;
    lemma_comparisons(chase_radius(), b);
    if !chase_radius().below(b) {
        assert(ub <= 0x96_0000 * z);
        lemma_comparisons(b, F32 { bits: 0x4316_0001 });
        assert(b.mag() < g);
        let twice = ub + 0x96_0001 * z;
        let m = 22501 * one * one;
        assert(twice * twice < 4 * m) by (nonlinear_arith)
            requires
                0 <= twice <= 0x12c_0001 * z,
                z > 0,
                one == 0x1_0000 * z,
                m == 22501 * one * one,
        ;
    }
}

/// The length of a way of `dx` and `dy` pixels, compared with the chase radius.
proof fn lemma_length(a: F32, dx: int, b: F32, dy: int)
    requires
        whole(a, dx),
        whole(b, dy),
        -0x100_0000 <= dx <= 0x100_0000,
        -0x100_0000 <= dy <= 0x100_0000,
    ensures
        root(sum(product(a, a), product(b, b))).at_most(chase_radius()) <==> dx * dx + dy * dy
            <= 150 * 150,
{
    lemma_rules();
    let one = pixel();
    let s = sum(product(a, a), product(b, b));
    let len = root(s);
    lemma_square_increases(a, a);
    lemma_square_increases(b, b);
    lemma_sum_increases(product(a, a), product(b, b), product(a, a), product(b, b));
    lemma_root_increases(s, s);
    let limit = nearest(22500);
    let beyond = nearest(22501);
    lemma_integers_are_exact(22500);
    lemma_integers_are_exact(22501);
    assert(150 * 150 == 22500);
    lemma_root_of_square(limit, 150);
    lemma_root_beyond(beyond);
    assert(22500 * one > 0 && 22501 * one > 0);
    lemma_comparisons(limit, s);
    lemma_comparisons(s, beyond);
    lemma_comparisons(zero(), limit);
    lemma_comparisons(zero(), beyond);
    assert(0 * one == 0);
    if -150 <= dx <= 150 && -150 <= dy <= 150 {
        let n = dx * dx + dy * dy;
        assert(0 <= dx * dx <= 22500 && 0 <= dy * dy <= 22500) by (nonlinear_arith)
            requires
                -150 <= dx <= 150,
                -150 <= dy <= 150,
        ;
        lemma_whole_arithmetic(a, dx, a, dx);
        lemma_whole_arithmetic(b, dy, b, dy);
        lemma_whole_arithmetic(product(a, a), dx * dx, product(b, b), dy * dy);
        assert(whole(s, n));
        lemma_whole_arithmetic(s, n, limit, 22500);
        lemma_whole_arithmetic(beyond, 22501, s, n);
        if n <= 22500 {
            lemma_root_increases(s, limit);
            lemma_comparisons(len, root(limit));
            lemma_comparisons(root(limit), chase_radius());
        } else {
            lemma_root_increases(beyond, s);
            lemma_comparisons(root(beyond), len);
            lemma_comparisons(chase_radius(), len);
        }
    } else {
        assert(dx * dx + dy * dy > 22500) by (nonlinear_arith)
            requires
                dx > 150 || dx < -150 || dy > 150 || dy < -150,
        ;
        let far = if -150 <= dx <= 150 {
            b
        } else {
            a
        };
        let d = if -150 <= dx <= 150 {
            dy
        } else {
            dx
        };
        let edge = nearest(151);
        lemma_integers_are_exact(151);
        lemma_comparisons(edge, far);
        lemma_comparisons(zero(), edge);
        assert(apart(d, 0) * one >= 151 * one) by (nonlinear_arith)
            requires
                apart(d, 0) >= 151,
                one > 0,
        ;
        assert((-d) * one == -(d * one)) by (nonlinear_arith);
        assert(units(far.mag()) == apart(d, 0) * one);
        assert(151 * one > 0);
        lemma_comparisons(far, edge);
        lemma_square_increases(edge, far);
        lemma_whole_arithmetic(edge, 151, edge, 151);
        lemma_whole_arithmetic(zero(), 0, zero(), 0);
        lemma_whole_arithmetic(product(edge, edge), 22801, product(zero(), zero()), 0);
        lemma_whole_arithmetic(product(zero(), zero()), 0, product(edge, edge), 22801);
        lemma_comparisons(zero(), a);
        lemma_comparisons(zero(), b);
        lemma_square_increases(zero(), a);
        lemma_square_increases(zero(), b);
        let least = sum(product(edge, edge), product(zero(), zero()));
        lemma_sum_special(product(edge, edge), product(zero(), zero()));
        if -150 <= dx <= 150 {
            lemma_sum_increases(
                product(zero(), zero()),
                product(edge, edge),
                product(a, a),
                product(b, b),
            );
        } else {
            lemma_sum_increases(
                product(edge, edge),
                product(zero(), zero()),
                product(a, a),
                product(b, b),
            );
        }
        assert(least.mag() <= s.mag());
        lemma_whole_arithmetic(beyond, 22501, least, 22801);
        lemma_comparisons(beyond, least);
        lemma_root_increases(beyond, s);
        lemma_comparisons(root(beyond), len);
        lemma_comparisons(chase_radius(), len);
    }
}

/// What a cat minds, in pixels: while it is chasing, every cursor; at rest, a cursor that is at
/// most 150 pixels away.
pub proof fn lemma_minds_in_pixels(cat: Cat, x: F32, y: F32, dx: int, dy: int)
    requires
        x.is_finite() && y.is_finite() && cat.win_x.is_finite() && cat.win_y.is_finite(),
        x.value() - cat.win_x.value() == dx * pixel(),
        y.value() - cat.win_y.value() == dy * pixel(),
        -0x100_0000 <= dx <= 0x100_0000,
        -0x100_0000 <= dy <= 0x100_0000,
    ensures
        cat.minds(x, y) <==> cat.idle_ticks < 3 || dx * dx + dy * dy <= 150 * 150,
{
    lemma_way_in_pixels(x, cat.win_x, dx);
    lemma_way_in_pixels(y, cat.win_y, dy);
    lemma_length(difference(x, cat.win_x), dx, difference(y, cat.win_y), dy);
}

/// A way that is an integer number of pixels is exact.
pub proof fn lemma_way_in_pixels(to: F32, from: F32, d: int)
    requires
        to.is_finite() && from.is_finite(),
        to.value() - from.value() == d * pixel(),
        -0x100_0000 <= d <= 0x100_0000,
    ensures
        whole(difference(to, from), d),
{
    lemma_integers_are_exact(d);
    lemma_sum_nearest(to, negation(from), nearest(d));
    lemma_whole_is_small(d);
}

/// An integer of 24 binary digits is far below what is rounded to infinity.
proof fn lemma_whole_is_small(d: int)
    requires
        -0x100_0000 <= d <= 0x100_0000,
    ensures
        apart(d * pixel(), 0) < 0x1ff_ffff * pow2(252),
{
    lemma_integers_are_exact(d);
    lemma_finite_is_small(nearest(d));
}

/// A cat that minds a cursor minds every cursor that is not farther away on either axis.
pub proof fn lemma_minds_nearer(cat: Cat, x: F32, y: F32, nearer_x: F32, nearer_y: F32)
    requires
        cat.minds(x, y),
        !difference(x, cat.win_x).is_nan(),
        !difference(y, cat.win_y).is_nan(),
        difference(nearer_x, cat.win_x).mag() <= difference(x, cat.win_x).mag(),
        difference(nearer_y, cat.win_y).mag() <= difference(y, cat.win_y).mag(),
    ensures
        cat.minds(nearer_x, nearer_y),
{
    let (a, b) = (difference(nearer_x, cat.win_x), difference(nearer_y, cat.win_y));
    let (c, d) = (difference(x, cat.win_x), difference(y, cat.win_y));
    lemma_rules();
    lemma_square_increases(a, c);
    lemma_square_increases(b, d);
    lemma_sum_increases(product(a, a), product(b, b), product(c, c), product(d, d));
    let s = sum(product(a, a), product(b, b));
    let t = sum(product(c, c), product(d, d));
    lemma_root_increases(s, t);
    lemma_comparisons(root(s), root(t));
}

/// A cat at rest does not mind a cursor that is nowhere.
pub proof fn lemma_nowhere_is_not_minded(cat: Cat, x: F32, y: F32)
    requires
        cat.idle_ticks >= 3,
        difference(x, cat.win_x).is_nan() || difference(y, cat.win_y).is_nan(),
    ensures
        !cat.minds(x, y),
{
    let (a, b) = (difference(x, cat.win_x), difference(y, cat.win_y));
    lemma_product_special(a, a);
    lemma_product_special(b, b);
    lemma_sum_special(product(a, a), product(b, b));
    lemma_root_special(sum(product(a, a), product(b, b)));
}

/// A cursor that is infinitely far away draws a running cat to the edge at once.
pub proof fn lemma_infinitely_far(cat: Cat, rng: u32, x: F32, y: F32, bounds: (F32, F32))
    requires
        !cat.frozen,
        cat.minds(x, y),
        cat.win_x.is_finite() && cat.win_y.is_finite(),
    ensures
        ({
            let after = cat.moved(rng, x, y, bounds);
            &&& x.is_infinite() ==> after.win_x == if x.negative() {
                zero()
            } else {
                room(bounds.0)
            }
            &&& y.is_infinite() ==> after.win_y == if y.negative() {
                zero()
            } else {
                room(bounds.1)
            }
        }),
{
    if x.is_infinite() {
        lemma_eased_to_edge(cat.win_x, x, bounds.0);
    }
    if y.is_infinite() {
        lemma_eased_to_edge(cat.win_y, y, bounds.1);
    }
}

/// The same on one axis.
proof fn lemma_eased_to_edge(position: F32, cursor: F32, extent: F32)
    requires
        position.is_finite(),
        cursor.is_infinite(),
    ensures
        eased(position, cursor, extent) == if cursor.negative() {
            zero()
        } else {
            room(extent)
        },
{
    lemma_rules();
    let less = negation(position);
    lemma_sum_special(cursor, less);
    let way = difference(cursor, position);
    assert(way == cursor);
    assert(easing().mag() != 0 && easing().is_finite());
    lemma_product_special(way, easing());
    let stride = product(way, easing());
    lemma_sum_special(position, stride);
    let reach = sum(position, stride);
    assert(reach == stride);
    lemma_room_near(extent);
    let top = room(extent);
    lemma_comparisons(reach, zero());
    lemma_comparisons(zero(), reach);
    lemma_comparisons(top, reach);
    lemma_units_increase(0, INF_BITS as nat);
    assert(0 * pixel() == 0);
    if top.is_finite() {
        lemma_units_increase(top.mag(), INF_BITS as nat);
    } else {
        assert(top == extent);
        assert(reach.negative() || reach.bits == top.bits);
    }
}

} // verus!
