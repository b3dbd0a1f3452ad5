//! Monitors and the cats on them, in pixels.
use crate::cat::room;
use crate::cat::zero;
use crate::cat::Cat;
use crate::desktop::actions_of;
use crate::desktop::pressed;
use crate::desktop::pressed_all;
use crate::desktop::rng_at;
use crate::desktop::spawned;
use crate::desktop::stepped_all;
use crate::desktop::Action;
use crate::desktop::App;
use crate::desktop::CatSurface;
use crate::desktop::Change;
use crate::desktop::Handle;
use crate::desktop::PointerEvent;
use crate::float::difference;
use crate::float::nearest;
use crate::float::negation;
use crate::float::sum;
use crate::float::F32;
use crate::habits::appears;
use crate::habits::lemma_appearance;
use crate::habits::lemma_place_of_frame;
use crate::laws::between;
use crate::laws::inside;
use crate::laws::lemma_appears_inside;
use crate::laws::lemma_eased_between;
use crate::laws::lemma_service_goes_on;
use crate::laws::lemma_stays_inside;
use crate::laws::well;
use crate::motion::lemma_chase_in_pixels;
use crate::motion::lemma_room_in_pixels;
use crate::motion::lemma_room_near;
use crate::motion::lemma_rules;
use crate::motion::pixel;
use crate::motion::ran;
use crate::precision::apart;
use crate::precision::lemma_conversion_nearest;
use crate::precision::lemma_integers_are_exact;
use crate::precision::lemma_integers_are_finite;
use crate::precision::lemma_sum_nearest;
use crate::precision::lemma_whole_arithmetic;
use crate::precision::whole;
use crate::search::first_where;
use crate::search::last_where;
use crate::search::lemma_first_where;
use crate::search::lemma_first_where_is_first;
use crate::service::CatService;
use crate::service::Monitor;
use crate::sprites::SpriteSheet;
use vstd::arithmetic::power2::lemma2_to64;
use vstd::arithmetic::power2::lemma_pow2_adds;
use vstd::arithmetic::power2::lemma_pow2_pos;
use vstd::arithmetic::power2::lemma_pow2_strictly_increases;
use vstd::arithmetic::power2::pow2;
use vstd::prelude::*;

verus! {

/// The greatest position of a cat along an axis of `w` pixels, in pixels.
pub open spec fn last_place(w: int) -> int {
    if w >= 32 {
        w - 32
    } else {
        0
    }
}

/// The place from 0 to `top` that is nearest to `n`.
pub open spec fn confined(n: int, top: int) -> int {
    if n < 0 {
        0
    } else if n > top {
        top
    } else {
        n
    }
}

/// A position inside an area, in pixels.
proof fn lemma_inside_in_pixels(position: F32, extent: F32, w: int)
    requires
        whole(extent, w),
        -0x100_0000 <= w <= 0x100_0000,
    ensures
        inside(position, extent) <==> position.is_finite() && 0 <= position.value() <= last_place(w)
            * pixel(),
{
    lemma_rules();
    lemma_room_in_pixels(extent, w);
    assert(0 * pixel() == 0);
}

/// The area of the service's cat is its monitor, as wide and as high as that is, upright or not:
/// a cat that appears, or that runs, or that was on the monitor before, is all on it after a
/// tick. A cat that appears stands at the cursor, to the pixel, or at the edges that are nearest
/// to it. And a cat that runs goes three tenths of the way to the cursor's place on the monitor.
pub proof fn lemma_service_in_pixels(service: CatService, x: int, y: int, monitor: Monitor)
    requires
        -0x100_0000 <= monitor.w <= 0x100_0000,
        -0x100_0000 <= monitor.h <= 0x100_0000,
        -0x100_0000 <= x - monitor.x <= 0x100_0000,
        -0x100_0000 <= y - monitor.y <= 0x100_0000,
        service.cat is Some ==> well(service.cat->0),
    ensures
        ({
            let after = service.moved(x, y, monitor);
            let right = last_place(monitor.w as int);
            let bottom = last_place(monitor.h as int);
            let (dx, dy) = (x - monitor.x, y - monitor.y);
            let runs = service.cat is Some && !service.cat->0.frozen && service.cat->0.minds(
                nearest(dx),
                nearest(dy),
            );
            let was_there = service.cat is Some && service.cat->0.win_x.value() <= right * pixel()
                && service.cat->0.win_y.value() <= bottom * pixel();
            &&& service.cat is None || runs || was_there ==> {
                &&& after.win_x.is_finite() && 0 <= after.win_x.value() <= right * pixel()
                &&& after.win_y.is_finite() && 0 <= after.win_y.value() <= bottom * pixel()
            }
            &&& service.cat is None ==> {
                &&& whole(after.win_x, confined(dx, right))
                &&& whole(after.win_y, confined(dy, bottom))
            }
            &&& runs && service.cat->0.win_x.value() <= pow2(275) && service.cat->0.win_y.value()
                <= pow2(275) ==> {
                let cat = service.cat->0;
                &&& ran(cat.win_x.value(), dx * pixel(), right * pixel(), after.win_x.value())
                &&& ran(cat.win_y.value(), dy * pixel(), bottom * pixel(), after.win_y.value())
            }
        }),
{
    let (dx, dy) = (x - monitor.x, y - monitor.y);
    let (w, h) = (monitor.w as int, monitor.h as int);
    let at = (nearest(dx), nearest(dy));
    let bounds = (nearest(w), nearest(h));
    lemma_rules();
    lemma_integers_are_exact(dx);
    lemma_integers_are_exact(dy);
    lemma_integers_are_exact(w);
    lemma_integers_are_exact(h);
    assert(0 * pixel() == 0);
    let cat = service.cat_at(x, y, monitor);
    let after = service.moved(x, y, monitor);
    lemma_appears_inside(at.0, at.1, bounds);
    lemma_stays_inside(cat, service.rng_state, at.0, at.1, bounds);
    lemma_inside_in_pixels(after.win_x, bounds.0, w);
    lemma_inside_in_pixels(after.win_y, bounds.1, h);
    lemma_inside_in_pixels(cat.win_x, bounds.0, w);
    lemma_inside_in_pixels(cat.win_y, bounds.1, h);
    if service.cat is None {
        lemma_appearance(at.0, at.1, bounds, w, h);
        lemma_eased_between(cat.win_x, at.0, bounds.0);
        lemma_eased_between(cat.win_y, at.1, bounds.1);
        lemma_confined_in_pixels(at.0, dx, w, cat.win_x);
        lemma_confined_in_pixels(at.1, dy, h, cat.win_y);
        lemma_stays_confined(cat.win_x, at.0, after.win_x, dx, w);
        lemma_stays_confined(cat.win_y, at.1, after.win_y, dy, h);
    } else if !cat.frozen && cat.minds(at.0, at.1) && cat.win_x.value() <= pow2(275)
        && cat.win_y.value() <= pow2(275) {
        lemma_pow2_adds(275, 1);
        lemma2_to64();
        lemma_pixels_are_short(dx);
        lemma_pixels_are_short(dy);
        lemma_chase_in_pixels(cat, service.rng_state, at.0, at.1, bounds, w, h);
    }
}

/// Integers of 24 binary digits are short ways.
proof fn lemma_pixels_are_short(n: int)
    requires
        -0x100_0000 <= n <= 0x100_0000,
    ensures
        apart(n * pixel(), 0) <= pow2(275),
{
    lemma_rules();
    lemma2_to64();
    lemma_pow2_adds(24, 149);
    lemma_pow2_strictly_increases(173, 275);
    let one = pixel();
    assert(apart(n, 0) * one <= 0x100_0000 * one) by (nonlinear_arith)
        requires
            apart(n, 0) <= 0x100_0000,
            one > 0,
    ;
    assert((-n) * one == -(n * one)) by (nonlinear_arith);
}

/// Where a cat appears with the cursor at a whole pixel.
proof fn lemma_confined_in_pixels(x: F32, n: int, w: int, p: F32)
    requires
        whole(x, n),
        appears(x, w, p),
    ensures
        whole(p, confined(n, last_place(w))),
{
    lemma_rules();
    let one = pixel();
    let top = last_place(w);
    assert(0 * one == 0);
    assert(n < 0 <==> n * one < 0) by (nonlinear_arith)
        requires
            one > 0,
    ;
    assert(n > top <==> n * one > top * one) by (nonlinear_arith)
        requires
            one > 0,
    ;
}

/// A cat at the place nearest to the cursor stays there.
proof fn lemma_stays_confined(p: F32, x: F32, q: F32, n: int, w: int)
    requires
        whole(x, n),
        whole(p, confined(n, last_place(w))),
        between(q, p, x),
        q.is_finite(),
        0 <= q.value() <= last_place(w) * pixel(),
    ensures
        whole(q, confined(n, last_place(w))),
{
    lemma_rules();
    let one = pixel();
    let top = last_place(w);
    assert(0 * one == 0);
    assert(n < 0 <==> n * one < 0) by (nonlinear_arith)
        requires
            one > 0,
    ;
    assert(n > top <==> n * one > top * one) by (nonlinear_arith)
        requires
            one > 0,
    ;
}

/// A tick of the service is a tick of its cat, or of one that appears, with the cursor's place
/// on the monitor and the monitor's width and height.
pub proof fn lemma_service_ticks_its_cat(service: CatService, x: int, y: int, monitor: Monitor)
    ensures
        service.cat is Some ==> service.cat_at(x, y, monitor) == service.cat->0,
        service.cat is None ==> service.cat_at(x, y, monitor) == Cat::appeared_at(
            nearest(x - monitor.x),
            nearest(y - monitor.y),
            (nearest(monitor.w as int), nearest(monitor.h as int)),
        ),
        service.moved(x, y, monitor) == service.cat_at(x, y, monitor).moved(
            service.rng_state,
            nearest(x - monitor.x),
            nearest(y - monitor.y),
            (nearest(monitor.w as int), nearest(monitor.h as int)),
        ),
{
}

/// A monitor contains the cursor exactly if the cursor is not left of or above its corner, and
/// less than its width right of it and less than its height below it, wherever on the desktop
/// the monitor is.
pub proof fn lemma_monitor_in_pixels(surface: CatSurface, x: F32, y: F32, w: int, h: int)
    requires
        !x.is_nan() && !y.is_nan(),
        whole(surface.logical_size.0, w) && whole(surface.logical_size.1, h),
        -0x100_0000 <= surface.logical_position.0 <= 0x100_0000,
        -0x100_0000 <= surface.logical_position.1 <= 0x100_0000,
        -0x100_0000 <= surface.logical_position.0 + w <= 0x100_0000,
        -0x100_0000 <= surface.logical_position.1 + h <= 0x100_0000,
    ensures
        ({
            let (lx, ly) = (surface.logical_position.0, surface.logical_position.1);
            &&& surface.contains(x, y) <==> {
                &&& lx * pixel() <= x.value() < (lx + w) * pixel()
                &&& ly * pixel() <= y.value() < (ly + h) * pixel()
            }
            &&& forall|i: int, j: int| #[trigger]
                whole(x, i) && #[trigger] whole(y, j) ==> (surface.contains(x, y) <==> lx <= i < lx
                    + w && ly <= j < ly + h)
        }),
{
    let (lx, ly) = (surface.logical_position.0 as int, surface.logical_position.1 as int);
    let (left, top) = (nearest(lx), nearest(ly));
    lemma_rules();
    lemma_integers_are_exact(lx);
    lemma_integers_are_exact(ly);
    lemma_whole_arithmetic(left, lx, surface.logical_size.0, w);
    lemma_whole_arithmetic(top, ly, surface.logical_size.1, h);
    assert forall|i: int, j: int| #[trigger] whole(x, i) && #[trigger] whole(y, j) implies (
    surface.contains(x, y) <==> lx <= i < lx + w && ly <= j < ly + h) by {
        lemma_whole_arithmetic(left, lx, x, i);
        lemma_whole_arithmetic(top, ly, y, j);
        lemma_whole_arithmetic(x, i, sum(left, surface.logical_size.0), lx + w);
        lemma_whole_arithmetic(y, j, sum(top, surface.logical_size.1), ly + h);
    }
}

/// A cursor that is nowhere is on no monitor.
pub proof fn lemma_nowhere_is_on_no_monitor(surface: CatSurface, x: F32, y: F32)
    requires
        x.is_nan() || y.is_nan(),
    ensures
        !surface.contains(x, y),
{
}

/// The upper left corner of a monitor is on it.
pub proof fn lemma_corner_is_on_monitor(surface: CatSurface, w: int, h: int)
    requires
        whole(surface.logical_size.0, w) && whole(surface.logical_size.1, h),
        w > 0 && h > 0,
        -0x100_0000 <= surface.logical_position.0 <= 0x100_0000 - w,
        -0x100_0000 <= surface.logical_position.1 <= 0x100_0000 - h,
    ensures
        surface.contains(
            nearest(surface.logical_position.0 as int),
            nearest(surface.logical_position.1 as int),
        ),
{
    let (lx, ly) = (surface.logical_position.0 as int, surface.logical_position.1 as int);
    lemma_integers_are_exact(lx);
    lemma_integers_are_exact(ly);
    lemma_monitor_in_pixels(surface, nearest(lx), nearest(ly), w, h);
    assert(whole(nearest(lx), lx) && whole(nearest(ly), ly));
}

/// The edges of a monitor at any place of 32 bits, within rounding.
proof fn lemma_edges(lx: int, size: F32) -> (slack: int)
    requires
        i32::MIN <= lx <= i32::MAX,
        size.is_finite(),
        apart(size.value(), 0) <= pow2(275),
    ensures
        slack == 3 * apart(lx, 0) * pixel() + apart(size.value(), 0),
        nearest(lx).is_finite(),
        sum(nearest(lx), size).is_finite(),
        apart(nearest(lx).value(), lx * pixel()) * 0x100_0000 <= slack,
        apart(sum(nearest(lx), size).value(), lx * pixel() + size.value()) * 0x100_0000 <= slack,
{
    lemma_rules();
    let one = pixel();
    let left = nearest(lx);
    let u = lx * one;
    let a = apart(lx, 0) * one;
    assert((-lx) * one == -(lx * one)) by (nonlinear_arith);
    assert(a >= 0) by (nonlinear_arith)
        requires
            apart(lx, 0) >= 0,
            one > 0,
            a == apart(lx, 0) * one,
    ;
    assert(apart(u, 0) == a);
    assert(3 * apart(lx, 0) * one == 3 * a) by (nonlinear_arith)
        requires
            a == apart(lx, 0) * one,
    ;
    lemma_conversion_nearest(lx, zero());
    lemma_sum_nearest(left, size, zero());
    lemma2_to64();
    lemma_pow2_adds(32, 149);
    lemma_pow2_strictly_increases(181, 252);
    lemma_pow2_adds(23, 252);
    lemma_pow2_pos(252);
    let big = pow2(252) as int;
    assert(a <= 0x1_0000_0000 * one) by (nonlinear_arith)
        requires
            a == apart(lx, 0) * one,
            apart(lx, 0) <= 0x1_0000_0000,
            one > 0,
    ;
    assert(a < big);
    assert(pow2(275) == 0x80_0000 * big);
    assert(apart(left.value() + size.value(), 0) < 0x1ff_ffff * big);
    3 * apart(lx, 0) * pixel() + apart(size.value(), 0)
}

/// A monitor at any place that 32 bits can tell contains the cursor if that is well within its
/// edges, and does not if it is well outside: what rounding leaves open are three parts in
/// `2^24` of the corner's coordinate and one of the extent.
pub proof fn lemma_monitor_near(surface: CatSurface, x: F32, y: F32)
    requires
        !x.is_nan() && !y.is_nan(),
        surface.logical_size.0.is_finite() && surface.logical_size.1.is_finite(),
        apart(surface.logical_size.0.value(), 0) <= pow2(275),
        apart(surface.logical_size.1.value(), 0) <= pow2(275),
    ensures
        ({
            let (lx, ly) = (surface.logical_position.0, surface.logical_position.1);
            let (u, v) = (lx * pixel(), ly * pixel());
            let (w, h) = (surface.logical_size.0.value(), surface.logical_size.1.value());
            let s = 3 * apart(lx as int, 0) * pixel() + apart(w, 0);
            let t = 3 * apart(ly as int, 0) * pixel() + apart(h, 0);
            let (a, b) = (x.value(), y.value());
            let n = 0x100_0000int;
            &&& u * n + s <= a * n < (u + w) * n - s && v * n + t <= b * n < (v + h) * n - t
                ==> surface.contains(x, y)
            &&& surface.contains(x, y) ==> u * n - s <= a * n < (u + w) * n + s && v * n - t <= b
                * n < (v + h) * n + t
        }),
{
    let s = lemma_edges(surface.logical_position.0 as int, surface.logical_size.0);
    let t = lemma_edges(surface.logical_position.1 as int, surface.logical_size.1);
}

/// The monitor with the cursor is the first one that contains it.
pub proof fn lemma_first_monitor_is_active(app: App, x: F32, y: F32, k: int)
    requires
        0 <= k < app.cats@.len(),
        app.cats@[k].contains(x, y),
        forall|j: int| 0 <= j < k ==> !(#[trigger] app.cats@[j]).contains(x, y),
    ensures
        app.active_for(x, y) == Some(app.cats@[k].output_id),
{
    let p = |c: CatSurface| c.contains(x, y);
    assert forall|j: int| 0 <= j < k implies !p(#[trigger] app.cats@[j]) by {}
    lemma_first_where(app.cats@, p, k);
}

/// A cursor at a whole pixel of the desktop is at a whole pixel of every monitor.
pub proof fn lemma_local_in_pixels(surface: CatSurface, x: F32, y: F32, i: int, j: int)
    requires
        whole(x, i) && whole(y, j),
        -0x100_0000 <= surface.logical_position.0 <= 0x100_0000,
        -0x100_0000 <= surface.logical_position.1 <= 0x100_0000,
        -0x100_0000 <= i - surface.logical_position.0 <= 0x100_0000,
        -0x100_0000 <= j - surface.logical_position.1 <= 0x100_0000,
    ensures
        whole(surface.local(x, y).0, i - surface.logical_position.0),
        whole(surface.local(x, y).1, j - surface.logical_position.1),
{
    lemma_from_origin(x, i, surface.logical_position.0 as int);
    lemma_from_origin(y, j, surface.logical_position.1 as int);
}

/// The distance of a whole pixel from an origin at one.
proof fn lemma_from_origin(x: F32, i: int, origin: int)
    requires
        whole(x, i),
        -0x100_0000 <= origin <= 0x100_0000,
        -0x100_0000 <= i - origin <= 0x100_0000,
    ensures
        whole(difference(x, nearest(origin)), i - origin),
{
    lemma_integers_are_exact(origin);
    let less = negation(nearest(origin));
    assert((-origin) * pixel() == -(origin * pixel())) by (nonlinear_arith);
    assert(whole(less, -origin));
    lemma_whole_arithmetic(x, i, less, -origin);
}

/// The cat of a monitor that appears stands at the cursor, to the pixel, or at the edges of the
/// monitor that are nearest to it; its surface waits to be configured.
pub proof fn lemma_spawned_in_pixels(
    output: u32,
    surface: u32,
    output_id: u32,
    position: (i32, i32),
    size: (i32, i32),
    cursor: (F32, F32),
    i: int,
    j: int,
)
    requires
        whole(cursor.0, i) && whole(cursor.1, j),
        -0x100_0000 <= position.0 <= 0x100_0000,
        -0x100_0000 <= position.1 <= 0x100_0000,
        -0x100_0000 <= size.0 <= 0x100_0000,
        -0x100_0000 <= size.1 <= 0x100_0000,
        -0x100_0000 <= i - position.0 <= 0x100_0000,
        -0x100_0000 <= j - position.1 <= 0x100_0000,
    ensures
        ({
            let extent = (nearest(size.0 as int), nearest(size.1 as int));
            let new = spawned(output, surface, output_id, position, extent, cursor);
            &&& whole(new.state.win_x, confined(i - position.0, last_place(size.0 as int)))
            &&& whole(new.state.win_y, confined(j - position.1, last_place(size.1 as int)))
            &&& new.state.last_cursor == (new.state.win_x, new.state.win_y)
            &&& new.state.idle_ticks == 0 && !new.state.frozen && new.state.next_moment_in == 300
            &&& new.output == output && new.surface == surface && new.output_id == output_id
            &&& !new.configured && new.visible
            &&& new.logical_position == position && new.logical_size == extent
        }),
{
    lemma_from_origin(cursor.0, i, position.0 as int);
    lemma_from_origin(cursor.1, j, position.1 as int);
    lemma_integers_are_exact(size.0 as int);
    lemma_integers_are_exact(size.1 as int);
    let extent = (nearest(size.0 as int), nearest(size.1 as int));
    let x = difference(cursor.0, nearest(position.0 as int));
    let y = difference(cursor.1, nearest(position.1 as int));
    let cat = Cat::appeared_at(x, y, extent);
    lemma_appearance(x, y, extent, size.0 as int, size.1 as int);
    lemma_confined_in_pixels(x, i - position.0, size.0 as int, cat.win_x);
    lemma_confined_in_pixels(y, j - position.1, size.1 as int, cat.win_y);
}

/// The same of a monitor and a cursor at any place.
pub proof fn lemma_spawned_anywhere(
    output: u32,
    surface: u32,
    output_id: u32,
    position: (i32, i32),
    extent: (F32, F32),
    cursor: (F32, F32),
)
    ensures
        ({
            let new = spawned(output, surface, output_id, position, extent, cursor);
            &&& new.state == Cat::appeared_at(
                difference(cursor.0, nearest(position.0 as int)),
                difference(cursor.1, nearest(position.1 as int)),
                extent,
            )
            &&& new.output == output && new.surface == surface && new.output_id == output_id
            &&& !new.configured && new.visible
            &&& new.logical_position == position && new.logical_size == extent
        }),
{
}

/// A step ticks the cat of a configured surface on the active monitor, with the cursor's place
/// on that monitor, and has it drawn if there is news; it hides every other configured surface
/// that is visible; and it leaves the rest alone. It never changes what monitor a surface is for.
pub proof fn lemma_step_of_a_surface(
    surface: CatSurface,
    active: Option<u32>,
    rng: u32,
    x: F32,
    y: F32,
    sheet: SpriteSheet,
)
    ensures
        ({
            let after = surface.stepped(active, rng, x, y, sheet);
            let action = surface.action(active, rng, x, y, sheet);
            let (i, j) = (
                difference(x, nearest(surface.logical_position.0 as int)),
                difference(y, nearest(surface.logical_position.1 as int)),
            );
            let ticked = surface.state.moved(rng, i, j, surface.logical_size);
            let picture = ticked.shown(sheet);
            &&& after.output == surface.output && after.surface == surface.surface
            &&& after.output_id == surface.output_id && after.configured == surface.configured
            &&& after.logical_position == surface.logical_position
            &&& after.logical_size == surface.logical_size
            &&& action is Some ==> action->0.surface == surface.surface
            &&& if !surface.configured {
                after == surface && action is None && surface.rng_after(active, rng, x, y) == rng
            } else if active == Some(surface.output_id) {
                &&& after.visible
                &&& after.state == ticked.reported(picture)
                &&& ticked.is_news(picture) ==> action == Some(
                    Action { surface: surface.surface, change: Change::Draw(picture) },
                )
                &&& !ticked.is_news(picture) ==> action is None
                &&& surface.rng_after(active, rng, x, y) == surface.state.looked(i, j).rng_after(rng)
            } else {
                &&& !after.visible
                &&& after.state == if surface.visible {
                    (Cat { last_drawn: None, ..surface.state })
                } else {
                    surface.state
                }
                &&& surface.visible ==> action == Some(
                    Action { surface: surface.surface, change: Change::Hide },
                )
                &&& !surface.visible ==> action is None
                &&& surface.rng_after(active, rng, x, y) == rng
            }
        }),
{
}

/// A step makes every surface's own step, one after another with one random generator.
pub proof fn lemma_step_of_all(
    cats: Seq<CatSurface>,
    active: Option<u32>,
    rng: u32,
    x: F32,
    y: F32,
    sheet: SpriteSheet,
    k: int,
)
    requires
        0 <= k < cats.len(),
    ensures
        stepped_all(cats, active, rng, x, y, sheet).len() == cats.len(),
        stepped_all(cats, active, rng, x, y, sheet)[k] == cats[k].stepped(
            active,
            rng_at(cats, k, active, rng, x, y),
            x,
            y,
            sheet,
        ),
        rng_at(cats, 0, active, rng, x, y) == rng,
        rng_at(cats, k + 1, active, rng, x, y) == cats[k].rng_after(
            active,
            rng_at(cats, k, active, rng, x, y),
            x,
            y,
        ),
{
}

/// What a step asks for is what its surfaces ask for, in their order: the actions of the first
/// `n` surfaces are those of the first `k` of them with more behind, and the next one of a
/// surface that asks for something is that.
pub proof fn lemma_actions_in_order(
    cats: Seq<CatSurface>,
    n: int,
    active: Option<u32>,
    rng: u32,
    x: F32,
    y: F32,
    sheet: SpriteSheet,
    k: int,
)
    requires
        0 <= k < n <= cats.len(),
    ensures
        ({
            let all = actions_of(cats, n, active, rng, x, y, sheet);
            let some = actions_of(cats, k, active, rng, x, y, sheet);
            let next = cats[k].action(active, rng_at(cats, k, active, rng, x, y), x, y, sheet);
            &&& some.len() <= k
            &&& some.len() <= all.len() <= some.len() + (n - k)
            &&& forall|i: int| 0 <= i < some.len() ==> #[trigger] all[i] == some[i]
            &&& next is Some ==> all.len() > some.len() && all[some.len() as int] == next->0
            &&& next is None && n == k + 1 ==> all == some
        }),
    decreases n,
{
    if n > k + 1 {
        lemma_actions_in_order(cats, n - 1, active, rng, x, y, sheet, k);
    }
    lemma_actions_are_few(cats, k, active, rng, x, y, sheet);
}

/// There is at most one action for each surface.
proof fn lemma_actions_are_few(
    cats: Seq<CatSurface>,
    n: int,
    active: Option<u32>,
    rng: u32,
    x: F32,
    y: F32,
    sheet: SpriteSheet,
)
    requires
        0 <= n <= cats.len(),
    ensures
        actions_of(cats, n, active, rng, x, y, sheet).len() <= n,
    decreases n,
{
    if n > 0 {
        lemma_actions_are_few(cats, n - 1, active, rng, x, y, sheet);
    }
}

/// A press of the left button (0x110) on a surface changes whether its cat is frozen, and nothing
/// else; no other event changes anything.
pub proof fn lemma_press(cats: Seq<CatSurface>, event: PointerEvent, k: int)
    requires
        0 <= k < cats.len(),
    ensures
        ({
            let after = pressed(cats, event);
            let hit = event.press == Some(0x110u32) && cats[k].surface == event.surface && forall|
                j: int,
            |
                0 <= j < k ==> (#[trigger] cats[j]).surface != event.surface;
            &&& after.len() == cats.len()
            &&& hit ==> after[k] == (CatSurface {
                state: Cat { frozen: !cats[k].state.frozen, ..cats[k].state },
                ..cats[k]
            })
            &&& !hit ==> after[k] == cats[k]
        }),
{
    let p = |c: CatSurface| c.meant_by(Handle::Surface(event.surface));
    lemma_first_where_is_first(cats, p);
    let f = first_where(cats, p);
    if cats[k].surface == event.surface && forall|j: int|
        0 <= j < k ==> (#[trigger] cats[j]).surface != event.surface {
        assert forall|j: int| 0 <= j < k implies !p(#[trigger] cats[j]) by {}
        lemma_first_where(cats, p, k);
    } else if f == k {
        assert(p(cats[k]));
        assert forall|j: int| 0 <= j < k implies (#[trigger] cats[j]).surface != event.surface by {
            assert(!p(cats[j]));
        }
    }
}

/// Pointer events are taken one after another.
pub proof fn lemma_presses(cats: Seq<CatSurface>, events: Seq<PointerEvent>, event: PointerEvent)
    ensures
        pressed_all(cats, Seq::empty()) == cats,
        pressed_all(cats, events.push(event)) == pressed(pressed_all(cats, events), event),
{
    assert(events.push(event).drop_last() =~= events);
}

/// How a surface is meant: by its monitor's object, by itself, or by its monitor's number.
pub proof fn lemma_handles(surface: CatSurface, key: u32)
    ensures
        surface.meant_by(Handle::Output(key)) <==> surface.output == key,
        surface.meant_by(Handle::Surface(key)) <==> surface.surface == key,
        surface.meant_by(Handle::OutputId(key)) <==> surface.output_id == key,
{
}

/// The last surface with a property is one that has it, and none behind it has.
pub proof fn lemma_last_where(cats: Seq<CatSurface>, p: spec_fn(CatSurface) -> bool, k: int)
    requires
        0 <= k < cats.len(),
        p(cats[k]),
        forall|j: int| k < j < cats.len() ==> !p(#[trigger] cats[j]),
    ensures
        last_where(cats, p) == Some(cats[k]),
    decreases cats.len(),
{
    if k < cats.len() - 1 {
        let rest = cats.drop_last();
        assert forall|j: int| k < j < rest.len() implies !p(#[trigger] rest[j]) by {
            assert(rest[j] == cats[j]);
        }
        assert(!p(cats[cats.len() - 1]));
        lemma_last_where(rest, p, k);
    }
}

/// Where no surface has a property, there is no last one.
pub proof fn lemma_no_last_where(cats: Seq<CatSurface>, p: spec_fn(CatSurface) -> bool)
    requires
        forall|j: int| 0 <= j < cats.len() ==> !p(#[trigger] cats[j]),
    ensures
        last_where(cats, p) is None,
    decreases cats.len(),
{
    if cats.len() > 0 {
        let rest = cats.drop_last();
        assert forall|j: int| 0 <= j < rest.len() implies !p(#[trigger] rest[j]) by {
            assert(rest[j] == cats[j]);
        }
        assert(!p(cats[cats.len() - 1]));
        lemma_no_last_where(rest, p);
    }
}

/// A tick of the service can be served with every monitor on a desktop of up to `2^30` pixels,
/// as long as its cat is within them and its counter does not overflow.
pub proof fn lemma_service_can_tick(
    service: CatService,
    x: int,
    y: int,
    monitor: Monitor,
    sheet: SpriteSheet,
)
    requires
        -0x4000_0000 <= monitor.x <= 0x3000_0000,
        -0x4000_0000 <= monitor.y <= 0x3000_0000,
        monitor.w <= 0x100_0000,
        monitor.h <= 0x100_0000,
        -0x4000_0000 <= x <= 0x3000_0000,
        -0x4000_0000 <= y <= 0x3000_0000,
        service.cat is Some ==> {
            let cat = service.cat->0;
            &&& well(cat)
            &&& cat.idle_ticks < u32::MAX
            &&& cat.win_x.value() <= 0x1000_0000 * pixel()
            &&& cat.win_y.value() <= 0x1000_0000 * pixel()
        },
    ensures
        service.tickable(x, y, monitor, sheet),
{
    lemma_service_goes_on(service, x, y, monitor);
    let (dx, dy) = (x - monitor.x, y - monitor.y);
    let bounds = (nearest(monitor.w as int), nearest(monitor.h as int));
    let cat = service.cat_at(x, y, monitor);
    let after = service.moved(x, y, monitor);
    lemma_rules();
    assert(0 * pixel() == 0);
    lemma_integers_are_finite(dx);
    lemma_integers_are_finite(dy);
    lemma_integers_are_finite(monitor.w as int);
    lemma_integers_are_finite(monitor.h as int);
    lemma_appears_inside(nearest(dx), nearest(dy), bounds);
    lemma_eased_between(cat.win_x, nearest(dx), bounds.0);
    lemma_eased_between(cat.win_y, nearest(dy), bounds.1);
    lemma_room_is_small(monitor.w as int);
    lemma_room_is_small(monitor.h as int);
    let one = pixel();
    assert(after.win_x.value() <= 0x1000_0000 * one && after.win_y.value() <= 0x1000_0000 * one);
    lemma_place_of_frame(after, sheet);
    let left = after.shown(sheet).margin_left + 20;
    let top = after.shown(sheet).margin_top + 16;
    assert(-1 < left <= 0x1000_0000) by (nonlinear_arith)
        requires
            left * one <= 0x1000_0000 * one,
            0 < (left + 1) * one,
            one > 0,
    ;
    assert(-1 < top <= 0x1000_0000) by (nonlinear_arith)
        requires
            top * one <= 0x1000_0000 * one,
            0 < (top + 1) * one,
            one > 0,
    ;
}

/// There is not too much room on a monitor.
proof fn lemma_room_is_small(w: int)
    requires
        i32::MIN <= w <= 0x100_0000,
    ensures
        room(nearest(w)).value() <= 0x1000_0000 * pixel(),
{
    lemma_rules();
    assert(0 * pixel() == 0);
    lemma_integers_are_finite(w);
    if w >= 0 {
        lemma_integers_are_exact(w);
        lemma_room_in_pixels(nearest(w), w);
        let one = pixel();
        let p = last_place(w);
        assert(p * one <= 0x1000_0000 * one) by (nonlinear_arith)
            requires
                p <= 0x1000_0000,
                one > 0,
        ;
    } else {
        lemma_conversion_nearest(w, zero());
        lemma_room_near(nearest(w));
    }
}

} // verus!
