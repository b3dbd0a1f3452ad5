//! What holds of the cat, its pictures and its monitors whatever happens.
use crate::canvas::BLACK;
use crate::canvas::WHITE;
use crate::cat::cat_side;
use crate::cat::chase_radius;
use crate::cat::direction;
use crate::cat::eased;
use crate::cat::easing;
use crate::cat::move_threshold;
use crate::cat::room;
use crate::cat::state_after;
use crate::cat::straight_ratio;
use crate::cat::zero;
use crate::cat::Cat;
use crate::cat::CatState;
use crate::cat::Dir;
use crate::cat::DrawState;
use crate::cat::SIT_AFTER;
use crate::desktop::pressed;
use crate::desktop::spawned;
use crate::desktop::stepped_all;
use crate::desktop::Action;
use crate::desktop::App;
use crate::desktop::CatSurface;
use crate::desktop::Change;
use crate::desktop::Handle;
use crate::desktop::PointerEvent;
use crate::desktop::BTN_LEFT;
use crate::float::difference;
use crate::float::lemma_units_increase;
use crate::float::nearest;
use crate::float::negation;
use crate::float::product;
use crate::float::signed;
use crate::float::sum;
use crate::float::truncated;
use crate::float::units;
use crate::float::F32;
use crate::font::glyph;
use crate::font::GLYPH_W;
use crate::frame::bubble_layer;
use crate::frame::bubble_left;
use crate::frame::bubble_width;
use crate::frame::frame;
use crate::frame::frame_pixel;
use crate::frame::BUBBLE_BOX_H;
use crate::frame::BUBBLE_TOP;
use crate::frame::CANVAS_W;
use crate::frame::CAT_X_OFFSET;
use crate::frame::CAT_Y_OFFSET;
use crate::frame::PAD;
use crate::moments::lemma_moment_text_in_font;
use crate::moments::lemma_moment_text_len;
use crate::moments::moment_text;
use crate::moments::MOMENT_COUNT;
use crate::precision::lemma_half_of_rounded;
use crate::precision::lemma_integers_are_finite;
use crate::precision::lemma_round_bounds;
use crate::precision::lemma_round_exact;
use crate::precision::lemma_round_nearest;
use crate::precision::lemma_round_overflow;
use crate::rounding::lemma_round_dyadic_shift;
use crate::rounding::round_dyadic;
use crate::rounding::INF_BITS;
use crate::search::first_where;
use crate::search::last_where;
use crate::search::lemma_first_where;
use crate::search::lemma_first_where_found;
use crate::search::lemma_first_where_is_first;
use crate::service::CatService;
use crate::service::Monitor;
use crate::sprites::SpriteSheet;
use crate::text::advance;
use crate::text::text_layer;
use vstd::arithmetic::power2::lemma2_to64;
use vstd::arithmetic::power2::lemma_pow2_adds;
use vstd::arithmetic::power2::lemma_pow2_pos;
use vstd::arithmetic::power2::lemma_pow2_unfold;
use vstd::arithmetic::power2::pow2;
use vstd::prelude::*;

verus! {

/// Twice a magnitude is exact, unless it is too large.
proof fn lemma_double(a: F32)
    requires
        !a.is_nan(),
        !a.negative(),
    ensures
        ({
            let d = product(a, straight_ratio());
            &&& !d.negative() && !d.is_nan()
            &&& d.is_finite() ==> units(d.mag()) == 2 * units(a.mag())
            &&& d.is_infinite() ==> 2 * units(a.mag()) >= units(INF_BITS as nat)
        }),
{
    reveal(product);
    lemma2_to64();
    let u = units(a.mag());
    let two = straight_ratio();
    assert(units(INF_BITS as nat) == 0x80_0000 * pow2(254)) by {
        reveal(units);
    }
    lemma_pow2_pos(254);
    if a.is_infinite() {
        assert(u == units(INF_BITS as nat));
        assert(!two.is_infinite() && two.mag() != 0);
    } else {
        assert(units(two.mag()) == pow2(150)) by {
            reveal(units);
            lemma_pow2_adds(23, 127);
        }
        lemma_round_dyadic_shift(u, 1, 150);
        lemma_round_dyadic_shift(u, 1, 1);
        let b = round_dyadic(2 * u, 0);
        assert(round_dyadic(u * pow2(150), -149) == b);
        lemma_round_overflow(2 * u, 0);
        lemma_pow2_unfold(253);
        lemma_pow2_unfold(254);
        if a.mag() < 0x80_0000 {
            let g = 2 * a.mag();
            assert(units(g) == 2 * u) by {
                reveal(units);
                let f = g % 0x80_0000;
                assert((0x80_0000 + f) * pow2(0) == 0x80_0000 + f);
            }
            lemma_round_exact(2 * u, 0, g);
        } else {
            let g = a.mag() + 0x80_0000;
            assert(units(g) == 2 * u) by {
                reveal(units);
                let e = a.mag() / 0x80_0000;
                let f = a.mag() % 0x80_0000;
                assert(g / 0x80_0000 == e + 1 && g % 0x80_0000 == f);
                lemma_pow2_unfold(e);
                let p = pow2((e - 1) as nat);
                assert((0x80_0000 + f) * (2 * p) == 2 * ((0x80_0000 + f) * p))
                    by (nonlinear_arith);
            }
            if g < INF_BITS {
                lemma_round_exact(2 * u, 0, g);
            } else if g > INF_BITS {
                lemma_units_increase(INF_BITS as nat, g);
            }
        }
    }
}

/// The cat runs straight along an axis exactly if the offset along it is more than twice as
/// long as the other one.
pub proof fn lemma_direction_is_straight(dx: F32, dy: F32)
    requires
        !dx.is_nan(),
        !dy.is_nan(),
    ensures
        ({
            let dir = direction(dx, dy);
            let adx = units(dx.mag());
            let ady = units(dy.mag());
            &&& dir == Dir::E <==> adx > 2 * ady && dx.value() > 0
            &&& dir == Dir::W <==> adx > 2 * ady && dx.value() < 0
            &&& dir == Dir::S <==> ady > 2 * adx && dy.value() > 0
            &&& dir == Dir::N <==> ady > 2 * adx && dy.value() < 0
            &&& dir == Dir::NE <==> adx <= 2 * ady && ady <= 2 * adx && dx.value() >= 0
                && dy.value() <= 0
            &&& dir == Dir::NW <==> adx <= 2 * ady && ady <= 2 * adx && dx.value() < 0
                && dy.value() <= 0
            &&& dir == Dir::SE <==> adx <= 2 * ady && ady <= 2 * adx && dx.value() >= 0
                && dy.value() > 0
            &&& dir == Dir::SW <==> adx <= 2 * ady && ady <= 2 * adx && dx.value() < 0
                && dy.value() > 0
        }),
{
    let ax = signed(false, dx.mag());
    let ay = signed(false, dy.mag());
    assert(units(0) == 0) by {
        reveal(units);
    }
    assert(ax.mag() == dx.mag() && ay.mag() == dy.mag());
    lemma_double(ax);
    lemma_double(ay);
    if dx.mag() < INF_BITS {
        lemma_units_increase(dx.mag(), INF_BITS as nat);
    }
    if dy.mag() < INF_BITS {
        lemma_units_increase(dy.mag(), INF_BITS as nat);
    }
}

/// Whether a number lies between two others.
pub open spec fn between(p: F32, a: F32, b: F32) -> bool {
    (a.at_most(p) && p.at_most(b)) || (b.at_most(p) && p.at_most(a))
}

/// Whether a position is one of an area of this extent: the cat is all inside.
pub open spec fn inside(position: F32, extent: F32) -> bool {
    position.is_finite() && zero().at_most(position) && position.at_most(room(extent))
}

/// Whether this is positive infinity.
pub open spec fn endless(a: F32) -> bool {
    a.is_infinite() && !a.negative()
}

/// Whether a cat in an area of this extent can run towards the cursor: the cursor is somewhere,
/// and not infinitely far away in an infinitely large area.
pub open spec fn reachable(cursor: F32, extent: F32) -> bool {
    !cursor.is_nan() && !(endless(cursor) && endless(extent))
}

/// The greatest position in an area is finite, unless the area is endless.
proof fn lemma_room(extent: F32)
    ensures
        zero().at_most(room(extent)),
        if endless(extent) {
            endless(room(extent))
        } else {
            room(extent).is_finite()
        },
{
    reveal(sum);
    assert(units(0) == 0) by {
        reveal(units);
    }
    lemma_order(extent, zero());
    let d = difference(extent, cat_side());
    let less = negation(cat_side());
    let s = extent.value() + less.value();
    if extent.is_nan() || extent.is_infinite() {
        assert(d.is_nan() || d == extent);
    } else if s > 0 {
        assert(less.value() <= 0);
        lemma2_to64();
        lemma_round_bounds(s as nat, 0, extent.mag());
        assert(units(extent.mag()) * pow2(0) == units(extent.mag()));
    } else if s < 0 {
        lemma_round_overflow((-s) as nat, 0);
    }
}

/// The step of a cat, rounded, is not longer than its way.
proof fn lemma_step_length(n: nat)
    ensures
        ({
            let b = round_dyadic(n, 0);
            let t = round_dyadic(units(b) * units(easing().mag()), -149);
            b < INF_BITS ==> t < INF_BITS && units(t) <= n
        }),
{
    let b = round_dyadic(n, 0);
    if b < INF_BITS {
        let r = units(b);
        let e = units(easing().mag());
        let one = pow2(149);
        lemma2_to64();
        lemma_pow2_pos(124);
        assert(units(0) == 0) by {
            reveal(units);
        }
        assert(2 * e <= one && e >= 0) by {
            reveal(units);
            lemma_pow2_adds(25, 124);
            assert(easing().mag() / 0x80_0000 == 125 && easing().mag() % 0x80_0000 == 0x19_999a);
            let p = pow2(124);
            assert(2 * (0x99_999a * p) <= 0x200_0000 * p) by (nonlinear_arith)
                requires
                    p > 0,
            ;
        }
        // The rounded way is at most twice the way: zero is a number too.
        assert(r <= 2 * n) by {
            lemma_round_nearest(n, 0, 0);
            assert(r * pow2(0) == r && units(0) * pow2(0) == 0);
        }
        if r <= n {
            assert(r * e <= r * one) by (nonlinear_arith)
                requires
                    e <= one,
                    e >= 0,
                    r >= 0,
            ;
            lemma_round_bounds(r * e, 149, b);
            let t = round_dyadic(r * e, -149);
            if t < b {
                lemma_units_increase(t, b);
            }
        } else {
            let g = lemma_half_of_rounded(n);
            let h = units(g);
            assert(r * e <= h * one) by (nonlinear_arith)
                requires
                    2 * e <= one,
                    r == 2 * h,
                    h >= 0,
            ;
            lemma_round_bounds(r * e, 149, g);
            let t = round_dyadic(r * e, -149);
            if t < g {
                lemma_units_increase(t, g);
            }
        }
    }
}

/// Whether a position is a place at all: a finite one, not left of or above the area.
pub open spec fn placed(position: F32) -> bool {
    position.is_finite() && zero().at_most(position)
}

/// Wherever a cat starts from, it ends up in its area, even if that has shrunk. A cat in its
/// area comes nearer to the cursor, or at least not farther away from it, on either axis: it
/// neither turns back nor runs past the cursor.
pub proof fn lemma_eased_between(position: F32, cursor: F32, extent: F32)
    requires
        placed(position),
        reachable(cursor, extent),
    ensures
        inside(eased(position, cursor, extent), extent),
        inside(position, extent) ==> between(
            eased(position, cursor, extent),
            position,
            cursor,
        ),
{
    reveal(sum);
    reveal(product);
    lemma2_to64();
    lemma_room(extent);
    assert(units(0) == 0) by {
        reveal(units);
    }
    let top = room(extent);
    let way = difference(cursor, position);
    let stride = product(way, easing());
    let reach = sum(position, stride);
    lemma_order(position, top);
    lemma_order(reach, top);
    let p = position.value();
    let c = cursor.value();
    let d = c - p;
    assert(negation(position).value() == -p);
    assert(easing().mag() != 0 && easing().is_finite() && !easing().negative());
    if cursor.is_infinite() {
        assert(way == cursor && stride == cursor && reach == cursor);
        lemma_order(top, cursor);
        lemma_order(cursor, zero());
    } else if d != 0 {
        let n: nat = if d > 0 {
            d as nat
        } else {
            (-d) as nat
        };
        let b = round_dyadic(n, 0);
        lemma_round_overflow(n, 0);
        lemma_step_length(n);
        if d > 0 {
            lemma_round_bounds(n, 0, cursor.mag());
            assert(units(cursor.mag()) * pow2(0) == units(cursor.mag()));
        }
        if b < INF_BITS {
            let t = round_dyadic(units(b) * units(easing().mag()), -149);
            assert(way.mag() == b && way.negative() == (d < 0));
            assert(stride.mag() == t && stride.negative() == (d < 0));
            let s = p + stride.value();
            lemma_round_bounds(
                (if s >= 0 {
                    s
                } else {
                    -s
                }) as nat,
                0,
                position.mag(),
            );
            lemma_round_bounds(
                (if s >= 0 {
                    s
                } else {
                    -s
                }) as nat,
                0,
                cursor.mag(),
            );
            assert(units(position.mag()) * pow2(0) == units(position.mag()));
            assert(units(cursor.mag()) * pow2(0) == units(cursor.mag()));
            lemma_order(reach, position);
            lemma_order(reach, cursor);
        } else {
            lemma_round_bounds(n, 0, position.mag());
            assert(units(position.mag()) * pow2(0) == units(position.mag()));
            assert(c < 0);
            assert(reach == signed(true, INF_BITS as nat));
            lemma_order(reach, zero());
        }
    } else {
        assert(way.mag() == 0);
        lemma_round_zero();
        assert(units(0) * units(easing().mag()) == 0) by (nonlinear_arith)
            requires
                units(0) == 0,
        ;
        assert(stride.mag() == 0);
        lemma_round_exact(units(position.mag()), 0, position.mag());
        assert(units(position.mag()) * pow2(0) == units(position.mag()));
    }
}

/// Greater encodings stand for greater magnitudes, and equal ones for equal magnitudes.
proof fn lemma_order(a: F32, b: F32)
    ensures
        a.mag() < b.mag() <==> units(a.mag()) < units(b.mag()),
        a.mag() == b.mag() <==> units(a.mag()) == units(b.mag()),
        a.mag() == 0 <==> units(a.mag()) == 0,
{
    assert(units(0) == 0) by {
        reveal(units);
    }
    if a.mag() < b.mag() {
        lemma_units_increase(a.mag(), b.mag());
    } else if b.mag() < a.mag() {
        lemma_units_increase(b.mag(), a.mag());
    }
    if a.mag() > 0 {
        lemma_units_increase(0, a.mag());
    }
}

/// Zero is not changed by rounding.
proof fn lemma_round_zero()
    ensures
        round_dyadic(0, -149) == 0,
{
    reveal(round_dyadic);
}

/// Whether a cat is somewhere, and its moment, if it has one, is one of the table.
pub open spec fn well(cat: Cat) -> bool {
    &&& placed(cat.win_x)
    &&& placed(cat.win_y)
    &&& cat.active_moment is Some ==> cat.active_moment->0 < MOMENT_COUNT
}

/// Whether a cat is all inside its area.
pub open spec fn at_home(cat: Cat, bounds: (F32, F32)) -> bool {
    inside(cat.win_x, bounds.0) && inside(cat.win_y, bounds.1)
}

/// A cat appears inside of its area, wherever the cursor is.
pub proof fn lemma_appears_inside(x: F32, y: F32, bounds: (F32, F32))
    requires
        reachable(x, bounds.0),
        reachable(y, bounds.1),
    ensures
        well(Cat::appeared_at(x, y, bounds)),
        at_home(Cat::appeared_at(x, y, bounds), bounds),
{
    lemma_room(bounds.0);
    lemma_room(bounds.1);
    lemma_order(x, zero());
    lemma_order(y, zero());
    lemma_order(x, room(bounds.0));
    lemma_order(y, room(bounds.1));
    assert(units(0) == 0) by {
        reveal(units);
    }
}

/// A cat that is inside of its area stays there, whatever the cursor does. One that is not, for
/// its area was another one before, is back inside as soon as it runs.
pub proof fn lemma_stays_inside(cat: Cat, rng: u32, x: F32, y: F32, bounds: (F32, F32))
    requires
        well(cat),
        reachable(x, bounds.0),
        reachable(y, bounds.1),
    ensures
        ({
            let after = cat.moved(rng, x, y, bounds);
            &&& well(after)
            &&& at_home(cat, bounds) ==> at_home(after, bounds)
            &&& !cat.frozen && cat.minds(x, y) ==> at_home(after, bounds)
        }),
{
    lemma_eased_between(cat.win_x, x, bounds.0);
    lemma_eased_between(cat.win_y, y, bounds.1);
}

/// A cat can always be ticked, as long as its counter does not overflow.
pub proof fn lemma_can_be_ticked(cat: Cat, x: F32, y: F32, bounds: (F32, F32))
    requires
        well(cat),
        cat.idle_ticks < u32::MAX,
        reachable(x, bounds.0),
        reachable(y, bounds.1),
    ensures
        cat.tickable(x, y, bounds),
{
    lemma_eased_between(cat.win_x, x, bounds.0);
    lemma_eased_between(cat.win_y, y, bounds.1);
    lemma_truncated_is_positive(cat.win_x);
    lemma_truncated_is_positive(cat.win_y);
    lemma_truncated_is_positive(eased(cat.win_x, x, bounds.0));
    lemma_truncated_is_positive(eased(cat.win_y, y, bounds.1));
}

/// The integer part of a number that is not negative is not negative.
proof fn lemma_truncated_is_positive(a: F32)
    requires
        zero().at_most(a),
    ensures
        truncated(a) >= 0,
{
    reveal(truncated);
    assert(units(0) == 0) by {
        reveal(units);
    }
    lemma_pow2_pos(149);
    let one = pow2(149);
    assert(0nat / one == 0) by (nonlinear_arith)
        requires
            one > 0,
    ;
}

/// An integer part is a 32-bit integer.
proof fn lemma_truncated_is_i32(a: F32)
    ensures
        i32::MIN <= truncated(a) <= i32::MAX,
{
    reveal(truncated);
    lemma_pow2_pos(149);
    let u = units(a.mag());
    let one = pow2(149);
    assert(u / one >= 0) by (nonlinear_arith)
        requires
            one > 0,
    ;
}

/// One tick's cursor and area.
pub ghost struct Sight {
    pub x: F32,
    pub y: F32,
    pub bounds: (F32, F32),
}

impl Sight {
    /// Whether a cat can run towards the cursor.
    pub open spec fn reachable(self) -> bool {
        reachable(self.x, self.bounds.0) && reachable(self.y, self.bounds.1)
    }
}

/// The cat and the random generator after ticks with these sights, one after another.
pub open spec fn run(cat: Cat, rng: u32, sights: Seq<Sight>, sheet: SpriteSheet) -> (Cat, u32)
    decreases sights.len(),
{
    if sights.len() == 0 {
        (cat, rng)
    } else {
        let before = run(cat, rng, sights.drop_last(), sheet);
        let now = sights.last();
        let moved = before.0.moved(before.1, now.x, now.y, now.bounds);
        (
            moved.reported(moved.shown(sheet)),
            before.0.looked(now.x, now.y).rng_after(before.1),
        )
    }
}

/// However long the cat is ticked, it can be ticked again, for as many ticks as its counter can
/// count; and as long as its area stays the same, it never leaves it.
pub proof fn lemma_run_goes_on(
    cat: Cat,
    rng: u32,
    sights: Seq<Sight>,
    sheet: SpriteSheet,
    next: Sight,
)
    requires
        well(cat),
        cat.idle_ticks + sights.len() < u32::MAX,
        forall|i: int| 0 <= i < sights.len() ==> (#[trigger] sights[i]).reachable(),
        next.reachable(),
    ensures
        ({
            let after = run(cat, rng, sights, sheet).0;
            &&& well(after)
            &&& after.idle_ticks <= cat.idle_ticks + sights.len()
            &&& after.tickable(next.x, next.y, next.bounds)
            &&& at_home(cat, next.bounds) && (forall|i: int|
                0 <= i < sights.len() ==> (#[trigger] sights[i]).bounds == next.bounds) ==> at_home(
                after,
                next.bounds,
            )
        }),
    decreases sights.len(),
{
    if sights.len() > 0 {
        let now = sights.last();
        let rest = sights.drop_last();
        assert(now == sights[sights.len() - 1]);
        assert forall|i: int| 0 <= i < rest.len() implies (#[trigger] rest[i]).reachable() by {
            assert(rest[i] == sights[i]);
        }
        assert((forall|i: int|
            0 <= i < sights.len() ==> (#[trigger] sights[i]).bounds == next.bounds) ==> (forall|
            i: int,
        |
            0 <= i < rest.len() ==> (#[trigger] rest[i]).bounds == now.bounds) && now.bounds
            == next.bounds) by {
            assert(forall|i: int| 0 <= i < rest.len() ==> #[trigger] rest[i] == sights[i]);
        }
        lemma_run_goes_on(cat, rng, rest, sheet, now);
        let before = run(cat, rng, rest, sheet);
        lemma_stays_inside(before.0, before.1, now.x, now.y, now.bounds);
    }
    let after = run(cat, rng, sights, sheet).0;
    lemma_can_be_ticked(after, next.x, next.y, next.bounds);
}

/// The service's cat appears on the monitor with the cursor, and however the monitors change
/// from tick to tick, it can be ticked again, and is somewhere, as long as its counter does not
/// overflow.
pub proof fn lemma_service_goes_on(service: CatService, x: int, y: int, monitor: Monitor)
    requires
        service.cat is Some ==> well(service.cat->0) && service.cat->0.idle_ticks < u32::MAX,
        i32::MIN <= x - monitor.x <= i32::MAX,
        i32::MIN <= y - monitor.y <= i32::MAX,
    ensures
        service.cat is None ==> at_home(service.cat_at(x, y, monitor), monitor.bounds()),
        service.cat_at(x, y, monitor).tickable(
            nearest(x - monitor.x),
            nearest(y - monitor.y),
            monitor.bounds(),
        ),
        well(service.moved(x, y, monitor)),
{
    let at = (nearest(x - monitor.x), nearest(y - monitor.y));
    let bounds = monitor.bounds();
    let cat = service.cat_at(x, y, monitor);
    lemma_integers_are_finite(x - monitor.x);
    lemma_integers_are_finite(y - monitor.y);
    lemma_integers_are_finite(monitor.w as int);
    lemma_integers_are_finite(monitor.h as int);
    lemma_appears_inside(at.0, at.1, bounds);
    lemma_can_be_ticked(cat, at.0, at.1, bounds);
    lemma_stays_inside(cat, service.rng_state, at.0, at.1, bounds);
}

/// A frozen cat stays where it is and keeps its direction. It never chases, but it still sits,
/// washes and sleeps.
pub proof fn lemma_frozen_stays(cat: Cat, rng: u32, x: F32, y: F32, bounds: (F32, F32))
    requires
        cat.frozen,
    ensures
        ({
            let after = cat.moved(rng, x, y, bounds);
            &&& after.win_x == cat.win_x && after.win_y == cat.win_y && after.dir == cat.dir
            &&& after.frozen
            &&& after.state() != CatState::Chasing
            &&& after.idle_ticks >= SIT_AFTER ==> after.state() == state_after(
                after.idle_ticks as int,
            )
        }),
{
}

/// A second click undoes the first.
pub proof fn lemma_click_twice(cat: Cat)
    ensures
        cat.clicked().clicked() == cat,
        cat.clicked().frozen != cat.frozen,
{
}

/// A cat at rest does not mind what the cursor does outside of the chase radius: it stays where
/// it is and goes on resting.
pub proof fn lemma_far_cursor_is_ignored(
    cat: Cat,
    rng: u32,
    x: F32,
    y: F32,
    bounds: (F32, F32),
)
    requires
        SIT_AFTER <= cat.idle_ticks < u32::MAX,
        !cat.distance(x, y).at_most(chase_radius()),
    ensures
        ({
            let after = cat.moved(rng, x, y, bounds);
            &&& after.win_x == cat.win_x && after.win_y == cat.win_y && after.dir == cat.dir
            &&& after.idle_ticks == cat.idle_ticks + 1
            &&& after.state() != CatState::Chasing
        }),
{
}

/// A cat that is chasing does not give up however far away the cursor is: as long as the cursor
/// moves on, it goes on chasing.
pub proof fn lemma_chase_goes_on(cat: Cat, rng: u32, x: F32, y: F32, bounds: (F32, F32))
    requires
        cat.state() == CatState::Chasing,
        move_threshold().below(
            signed(false, difference(x, cat.last_cursor.0).mag()),
        ) || move_threshold().below(signed(false, difference(y, cat.last_cursor.1).mag())),
    ensures
        cat.minds(x, y),
        cat.moved(rng, x, y, bounds).idle_ticks == 0,
        cat.moved(rng, x, y, bounds).state() == CatState::Chasing,
{
}

/// The order of what a cat does: chasing, sitting, washing, sleeping.
pub open spec fn rank(state: CatState) -> int {
    match state {
        CatState::Chasing => 0,
        CatState::Sitting => 1,
        CatState::Washing => 2,
        CatState::Sleeping => 3,
    }
}

/// While it does not see the cursor move, a cat goes through its states in order and skips
/// none; when it sees the cursor move, it chases, unless it is frozen.
pub proof fn lemma_states_in_order(cat: Cat, rng: u32, x: F32, y: F32, bounds: (F32, F32))
    requires
        cat.idle_ticks < u32::MAX,
    ensures
        ({
            let after = cat.moved(rng, x, y, bounds).state();
            &&& !cat.sees_move(x, y) ==> rank(cat.state()) <= rank(after) <= rank(cat.state()) + 1
            &&& cat.sees_move(x, y) && !cat.frozen ==> after == CatState::Chasing
            &&& cat.sees_move(x, y) && cat.frozen ==> after == CatState::Sitting
        }),
{
}

/// Moments begin only while the cat is idle. They last for 6 to 10 ticks, and the next one
/// is 240 to 800 idle ticks away.
pub proof fn lemma_moments(cat: Cat, rng: u32)
    ensures
        ({
            let after = cat.amused(rng);
            &&& cat.moment_begins() ==> {
                &&& cat.state() != CatState::Chasing
                &&& after.active_moment is Some && after.active_moment->0 < MOMENT_COUNT
                &&& 6 <= after.moment_ticks_remaining <= 10
                &&& 240 <= after.next_moment_in <= 800
            }
            &&& !cat.moment_begins() && cat.moment_ticks_remaining == 0
                ==> after.active_moment is None
            &&& cat.moment_ticks_remaining > 0 ==> {
                &&& after.active_moment == cat.active_moment
                &&& after.moment_ticks_remaining == cat.moment_ticks_remaining - 1
            }
        }),
{
}

/// A cat that has reported a picture does not report it again, and one that has reported
/// nothing yet reports whatever there is to be seen.
pub proof fn lemma_reports_once(cat: Cat, picture: DrawState)
    ensures
        !cat.reported(picture).is_news(picture),
        cat.last_drawn is None ==> cat.is_news(picture),
{
}

/// Where the cat reports nothing, the picture is, byte for byte and at the same place, the one
/// that it reported last.
pub proof fn lemma_silence_means_same_picture(cat: Cat, picture: DrawState)
    requires
        !cat.is_news(picture),
    ensures
        cat.last_drawn is Some,
        ({
            let last = cat.last_drawn->0;
            &&& last.margin_left == picture.margin_left && last.margin_top == picture.margin_top
            &&& frame(last.sprite@, last.mask@, last.bubble_text@) == frame(
                picture.sprite@,
                picture.mask@,
                picture.bubble_text@,
            )
        }),
{
}

/// The bubble stays above the cat: whatever the text, the rows of the cat look as they do
/// without one.
pub proof fn lemma_bubble_is_above_cat(
    sprite: Seq<u8>,
    mask: Seq<u8>,
    text: Seq<char>,
    x: int,
    y: int,
)
    requires
        y >= CAT_Y_OFFSET,
    ensures
        frame_pixel(sprite, mask, text, x, y) == frame_pixel(sprite, mask, Seq::empty(), x, y),
{
}

/// However large the frame around it is, the cat in it stands at its own position.
pub proof fn lemma_margins_follow_cat(cat: Cat, sheet: SpriteSheet)
    requires
        truncated(cat.win_x) - CAT_X_OFFSET >= i32::MIN,
        truncated(cat.win_y) - CAT_Y_OFFSET >= i32::MIN,
    ensures
        cat.shown(sheet).margin_left + CAT_X_OFFSET == truncated(cat.win_x),
        cat.shown(sheet).margin_top + CAT_Y_OFFSET == truncated(cat.win_y),
{
    lemma_truncated_is_i32(cat.win_x);
    lemma_truncated_is_i32(cat.win_y);
}

/// A frame has no colours but black and white; what is neither is transparent.
pub proof fn lemma_frame_colours(
    sprite: Seq<u8>,
    mask: Seq<u8>,
    text: Seq<char>,
    x: int,
    y: int,
)
    ensures
        ({
            let argb = frame_pixel(sprite, mask, text, x, y);
            argb == BLACK || argb == WHITE || argb == 0
        }),
{
}

/// The bubble of a text of up to eleven characters has room in a frame above the cat, and its
/// letters stand inside of its border.
pub proof fn lemma_bubble_fits(text: Seq<char>, x: int, y: int)
    requires
        0 < text.len() <= 11,
    ensures
        ({
            let w = CANVAS_W as int;
            let left = bubble_left(w, text.len() as int);
            &&& bubble_layer(text, w)(x, y) is Some ==> 0 <= x < w && 0 <= y < CAT_Y_OFFSET
            &&& text_layer(text, left + PAD, BUBBLE_TOP + PAD, 1)(x, y) is Some ==> left < x < left
                + bubble_width(text.len() as int) - 1 && BUBBLE_TOP < y < BUBBLE_TOP + BUBBLE_BOX_H
                - 1
        }),
{
    let n = text.len() as int;
    let left = bubble_left(CANVAS_W as int, n);
    assert(bubble_width(n) == 6 * n + 3) by (nonlinear_arith)
        requires
            bubble_width(n) == n * (GLYPH_W + 1) - 1 + 2 * PAD,
            GLYPH_W == 5,
            PAD == 2,
    ;
    assert(advance(1) == 6);
}

/// Every moment's bubble has room in a frame, and every character of it has a shape.
pub proof fn lemma_moments_fit(i: int, x: int, y: int)
    requires
        moment_text(i)@.len() > 0,
        bubble_layer(moment_text(i)@, CANVAS_W as int)(x, y) is Some,
    ensures
        0 <= x < CANVAS_W && 0 <= y < CAT_Y_OFFSET,
        forall|k: int|
            0 <= k < moment_text(i)@.len() ==> glyph(#[trigger] moment_text(i)@[k]) is Some,
{
    lemma_moment_text_len(i);
    lemma_bubble_fits(moment_text(i)@, x, y);
    assert forall|k: int| 0 <= k < moment_text(i)@.len() implies glyph(
        #[trigger] moment_text(i)@[k],
    ) is Some by {
        lemma_moment_text_in_font(i, k);
    }
}

/// After a step, a surface that may be drawn on shows its cat exactly if it is on the monitor
/// with the cursor.
pub proof fn lemma_only_active_cat_is_shown(
    cats: Seq<CatSurface>,
    active: Option<u32>,
    rng: u32,
    x: F32,
    y: F32,
    sheet: SpriteSheet,
    k: int,
)
    requires
        0 <= k < cats.len(),
        cats[k].configured,
    ensures
        stepped_all(cats, active, rng, x, y, sheet)[k].visible <==> active == Some(
            cats[k].output_id,
        ),
{
}

/// A step leaves a cat that is not on the monitor with the cursor where it is and as it is; it
/// only forgets what was drawn when it is hidden.
pub proof fn lemma_other_cats_wait(
    surface: CatSurface,
    active: Option<u32>,
    rng: u32,
    x: F32,
    y: F32,
    sheet: SpriteSheet,
)
    requires
        active != Some(surface.output_id),
    ensures
        ({
            let after = surface.stepped(active, rng, x, y, sheet);
            &&& after.state == surface.state || after.state == (Cat {
                last_drawn: None,
                ..surface.state
            })
            &&& surface.rng_after(active, rng, x, y) == rng
        }),
{
}

/// A cat that was hidden is drawn as soon as the cursor comes back to its monitor, even if it
/// looks as before.
pub proof fn lemma_hidden_cat_is_drawn_again(
    surface: CatSurface,
    away: Option<u32>,
    rng: u32,
    x: F32,
    y: F32,
    later_rng: u32,
    later_x: F32,
    later_y: F32,
    sheet: SpriteSheet,
)
    requires
        surface.configured,
        surface.visible,
        away != Some(surface.output_id),
    ensures
        ({
            let hidden = surface.stepped(away, rng, x, y, sheet);
            &&& surface.action(away, rng, x, y, sheet) == Some(
                Action { surface: surface.surface, change: Change::Hide },
            )
            &&& hidden.action(Some(surface.output_id), later_rng, later_x, later_y, sheet) == Some(
                Action {
                    surface: surface.surface,
                    change: Change::Draw(hidden.moved(later_rng, later_x, later_y).shown(sheet)),
                },
            )
        }),
{
}

/// Where the cursor is on no monitor, the one that it was on last stays the active one; where
/// it is on one, that one is.
pub proof fn lemma_active_monitor(app: App, x: F32, y: F32)
    ensures
        (forall|k: int| 0 <= k < app.cats@.len() ==> !(#[trigger] app.cats@[k]).contains(x, y))
            ==> app.active_for(x, y) == app.active_output_id,
        (exists|k: int| 0 <= k < app.cats@.len() && (#[trigger] app.cats@[k]).contains(x, y))
            ==> exists|k: int|
            0 <= k < app.cats@.len() && (#[trigger] app.cats@[k]).contains(x, y)
                && app.active_for(x, y) == Some(app.cats@[k].output_id),
{
    let p = |c: CatSurface| c.contains(x, y);
    let cats = app.cats@;
    if exists|k: int| 0 <= k < cats.len() && (#[trigger] cats[k]).contains(x, y) {
        let k = choose|k: int| 0 <= k < cats.len() && (#[trigger] cats[k]).contains(x, y);
        lemma_first_where_found(cats, p, k);
        let f = first_where(cats, p);
        assert(cats[f].contains(x, y));
    } else {
        assert forall|j: int| 0 <= j < cats.len() implies !p(#[trigger] cats[j]) by {}
        lemma_first_where(cats, p, cats.len() as int);
    }
}

/// A second press on the same cat undoes the first.
pub proof fn lemma_press_twice(cats: Seq<CatSurface>, event: PointerEvent)
    ensures
        pressed(pressed(cats, event), event) == cats,
{
    let p = |c: CatSurface| c.meant_by(Handle::Surface(event.surface));
    let k = first_where(cats, p);
    if event.press == Some(BTN_LEFT) && k < cats.len() {
        lemma_first_where_is_first(cats, p);
        let once = pressed(cats, event);
        assert forall|j: int| 0 <= j < k implies !p(#[trigger] once[j]) by {
            assert(once[j] == cats[j]);
        }
        assert(p(cats[k]));
        assert(p(once[k]));
        lemma_first_where(once, p, k);
        assert(pressed(once, event) =~= cats);
    }
}

/// Whether a surface's cat is somewhere, and its monitor is not endless.
pub open spec fn fit(surface: CatSurface) -> bool {
    &&& well(surface.state)
    &&& !endless(surface.logical_size.0)
    &&& !endless(surface.logical_size.1)
}

/// A cursor that is somewhere is somewhere on every monitor's plane.
proof fn lemma_local_is_reachable(x: F32, position: int, extent: F32)
    requires
        !x.is_nan(),
        i32::MIN <= position <= i32::MAX,
        !endless(extent),
    ensures
        reachable(difference(x, nearest(position)), extent),
{
    reveal(sum);
    lemma_integers_are_finite(position);
    let origin = negation(nearest(position));
    let d = x.value() + origin.value();
    lemma_round_overflow(
        (if d >= 0 {
            d
        } else {
            -d
        }) as nat,
        0,
    );
}

/// The surface of a new monitor is fit, and its cat is all on that monitor.
pub proof fn lemma_new_monitor_is_fit(
    output: u32,
    surface: u32,
    output_id: u32,
    position: (i32, i32),
    size: (i32, i32),
    cursor: (F32, F32),
)
    requires
        !cursor.0.is_nan(),
        !cursor.1.is_nan(),
    ensures
        ({
            let extent = (nearest(size.0 as int), nearest(size.1 as int));
            let new = spawned(output, surface, output_id, position, extent, cursor);
            fit(new) && at_home(new.state, extent)
        }),
{
    lemma_integers_are_finite(size.0 as int);
    lemma_integers_are_finite(size.1 as int);
    let extent = (nearest(size.0 as int), nearest(size.1 as int));
    lemma_local_is_reachable(cursor.0, position.0 as int, extent.0);
    lemma_local_is_reachable(cursor.1, position.1 as int, extent.1);
    lemma_appears_inside(
        difference(cursor.0, nearest(position.0 as int)),
        difference(cursor.1, nearest(position.1 as int)),
        extent,
    );
}

/// A fit surface stays fit, whatever becomes of its monitor's place and extent, whoever clicks
/// on its cat, and whatever steps are made.
pub proof fn lemma_surface_stays_fit(
    surface: CatSurface,
    position: (i32, i32),
    size: (i32, i32),
    active: Option<u32>,
    rng: u32,
    x: F32,
    y: F32,
    sheet: SpriteSheet,
)
    requires
        fit(surface),
        !x.is_nan(),
        !y.is_nan(),
    ensures
        fit(
            CatSurface {
                logical_position: position,
                logical_size: (nearest(size.0 as int), nearest(size.1 as int)),
                ..surface
            },
        ),
        fit(CatSurface { state: surface.state.clicked(), ..surface }),
        fit(surface.stepped(active, rng, x, y, sheet)),
{
    lemma_integers_are_finite(size.0 as int);
    lemma_integers_are_finite(size.1 as int);
    let at = surface.local(x, y);
    lemma_local_is_reachable(x, surface.logical_position.0 as int, surface.logical_size.0);
    lemma_local_is_reachable(y, surface.logical_position.1 as int, surface.logical_size.1);
    lemma_stays_inside(surface.state, rng, at.0, at.1, surface.logical_size);
}

/// As long as all surfaces are fit and no counter overflows, a step can always be made.
pub proof fn lemma_step_can_be_made(app: App, x: F32, y: F32)
    requires
        forall|k: int| 0 <= k < app.cats@.len() ==> fit(#[trigger] app.cats@[k]),
        forall|k: int|
            0 <= k < app.cats@.len() ==> (#[trigger] app.cats@[k]).state.idle_ticks < u32::MAX,
        !x.is_nan(),
        !y.is_nan(),
    ensures
        app.steppable(x, y),
{
    assert forall|k: int| 0 <= k < app.cats@.len() implies (#[trigger] app.cats@[k]).tickable(
        x,
        y,
    ) by {
        let surface = app.cats@[k];
        let at = surface.local(x, y);
        lemma_local_is_reachable(x, surface.logical_position.0 as int, surface.logical_size.0);
        lemma_local_is_reachable(y, surface.logical_position.1 as int, surface.logical_size.1);
        lemma_can_be_ticked(surface.state, at.0, at.1, surface.logical_size);
    }
}

/// What is kept of a sequence where all is to be kept.
proof fn lemma_filter_keeps_all(cats: Seq<CatSurface>, keep: spec_fn(CatSurface) -> bool)
    requires
        forall|k: int| 0 <= k < cats.len() ==> keep(#[trigger] cats[k]),
    ensures
        cats.filter(keep) == cats,
    decreases cats.len(),
{
    reveal(Seq::filter);
    if cats.len() > 0 {
        lemma_filter_keeps_all(cats.drop_last(), keep);
        assert(cats.drop_last().push(cats.last()) =~= cats);
    }
}

/// A monitor that appears and goes again leaves the other surfaces as they were, and it is the
/// one that is taken for the one that has gone.
pub proof fn lemma_monitor_comes_and_goes(cats: Seq<CatSurface>, new: CatSurface, handle: Handle)
    requires
        new.meant_by(handle),
        forall|k: int| 0 <= k < cats.len() ==> !(#[trigger] cats[k]).meant_by(handle),
    ensures
        cats.push(new).filter(|c: CatSurface| !c.meant_by(handle)) == cats,
        last_where(cats.push(new), |c: CatSurface| c.meant_by(handle)) == Some(new),
{
    reveal(Seq::filter);
    let keep = |c: CatSurface| !c.meant_by(handle);
    lemma_filter_keeps_all(cats, keep);
    assert(cats.push(new).drop_last() =~= cats);
}

/// What a sequence with one more element contains.
proof fn lemma_push_contains(cats: Seq<CatSurface>, new: CatSurface, surface: CatSurface)
    ensures
        cats.push(new).contains(surface) <==> cats.contains(surface) || surface == new,
{
    let more = cats.push(new);
    if cats.contains(surface) {
        let k = choose|k: int| 0 <= k < cats.len() && cats[k] == surface;
        assert(more[k] == surface);
    }
    assert(more[cats.len() as int] == new);
}

/// When surfaces are removed, those that are meant are gone, and all others are left.
pub proof fn lemma_removed_surfaces_are_gone(
    cats: Seq<CatSurface>,
    handle: Handle,
    surface: CatSurface,
)
    ensures
        cats.filter(|c: CatSurface| !c.meant_by(handle)).contains(surface) <==> cats.contains(
            surface,
        ) && !surface.meant_by(handle),
    decreases cats.len(),
{
    reveal(Seq::filter);
    let keep = |c: CatSurface| !c.meant_by(handle);
    if cats.len() > 0 {
        let rest = cats.drop_last();
        lemma_removed_surfaces_are_gone(rest, handle, surface);
        assert(rest.push(cats.last()) =~= cats);
        lemma_push_contains(rest, cats.last(), surface);
        lemma_push_contains(rest.filter(keep), cats.last(), surface);
    }
}

} // verus!
