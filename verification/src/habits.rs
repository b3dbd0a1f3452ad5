//! What the cat does, and which picture shows it.
use crate::cat::direction;
use crate::cat::room;
use crate::cat::straight_ratio;
use crate::cat::zero;
use crate::cat::Cat;
use crate::cat::CatState;
use crate::cat::Dir;
use crate::cat::DrawState;
use crate::float::difference;
use crate::float::signed;
use crate::float::truncated;
use crate::float::units;
use crate::float::F32;
use crate::laws::lemma_direction_is_straight;
use crate::moments::moment_text;
use crate::motion::lemma_room_in_pixels;
use crate::motion::lemma_rules;
use crate::motion::pixel;
use crate::precision::lemma_comparisons;
use crate::precision::lemma_product_special;
use crate::precision::lemma_truncation;
use crate::precision::whole;
use crate::rng::xorshift;
use crate::sprites::Sprite;
use crate::sprites::SpriteSheet;
use vstd::prelude::*;

verus! {

/// A tick notes where the cursor is and changes between the two pictures of a pose. The count of
/// idle ticks begins anew if the cat minds the cursor and that has moved by more than two pixels
/// on either axis; else it goes on.
pub proof fn lemma_idle_ticks(cat: Cat, rng: u32, x: F32, y: F32, bounds: (F32, F32))
    ensures
        ({
            let after = cat.moved(rng, x, y, bounds);
            let mx = difference(x, cat.last_cursor.0);
            let my = difference(y, cat.last_cursor.1);
            let far = (!mx.is_nan() && units(mx.mag()) > 2 * pixel()) || (!my.is_nan() && units(
                my.mag(),
            ) > 2 * pixel());
            &&& after.last_cursor == (x, y)
            &&& after.frame == !cat.frame
            &&& after.frozen == cat.frozen
            &&& after.last_drawn == cat.last_drawn
            &&& cat.minds(x, y) && far ==> after.idle_ticks == 0
            &&& !(cat.minds(x, y) && far) && cat.idle_ticks < u32::MAX ==> after.idle_ticks
                == cat.idle_ticks + 1
        }),
{
    lemma_rules();
}

/// What a cat does, by the ticks since the cursor moved: at first it chases, unless it is
/// frozen; from the third tick on it sits, from the tenth it washes, and from the twentieth it
/// sleeps, however long that lasts.
pub proof fn lemma_state_by_ticks(cat: Cat)
    ensures
        cat.state() == CatState::Chasing <==> cat.idle_ticks < 3 && !cat.frozen,
        cat.state() == CatState::Sitting <==> (cat.idle_ticks < 3 && cat.frozen) || 3
            <= cat.idle_ticks < 10,
        cat.state() == CatState::Washing <==> 10 <= cat.idle_ticks < 20,
        cat.state() == CatState::Sleeping <==> cat.idle_ticks >= 20,
{
}

/// A running cat looks where the cursor is, if that is more than a pixel away on either axis:
/// along an axis exactly if the way on it is more than twice as long as on the other one.
pub proof fn lemma_looks_at_cursor(cat: Cat, rng: u32, x: F32, y: F32, bounds: (F32, F32))
    requires
        !cat.frozen,
        cat.minds(x, y),
        !difference(x, cat.win_x).is_nan(),
        !difference(y, cat.win_y).is_nan(),
    ensures
        ({
            let dir = cat.moved(rng, x, y, bounds).dir;
            let dx = difference(x, cat.win_x).value();
            let dy = difference(y, cat.win_y).value();
            let adx = units(difference(x, cat.win_x).mag());
            let ady = units(difference(y, cat.win_y).mag());
            &&& adx <= pixel() && ady <= pixel() ==> dir == cat.dir
            &&& adx > pixel() || ady > pixel() ==> {
                &&& dir == Dir::E <==> adx > 2 * ady && dx > 0
                &&& dir == Dir::W <==> adx > 2 * ady && dx < 0
                &&& dir == Dir::S <==> ady > 2 * adx && dy > 0
                &&& dir == Dir::N <==> ady > 2 * adx && dy < 0
                &&& dir == Dir::NE <==> adx <= 2 * ady && ady <= 2 * adx && dx >= 0 && dy <= 0
                &&& dir == Dir::NW <==> adx <= 2 * ady && ady <= 2 * adx && dx < 0 && dy <= 0
                &&& dir == Dir::SE <==> adx <= 2 * ady && ady <= 2 * adx && dx >= 0 && dy > 0
                &&& dir == Dir::SW <==> adx <= 2 * ady && ady <= 2 * adx && dx < 0 && dy > 0
            }
        }),
{
    lemma_rules();
    lemma_direction_is_straight(difference(x, cat.win_x), difference(y, cat.win_y));
}

/// A way that is nowhere is neither longer nor shorter than another one, so its direction is a
/// diagonal; it counts as one to the left, or downwards.
pub proof fn lemma_direction_of_nowhere(dx: F32, dy: F32)
    requires
        dx.is_nan() || dy.is_nan(),
    ensures
        direction(dx, dy) == if !dx.is_nan() && dx.value() >= 0 {
            Dir::SE
        } else if !dy.is_nan() && dy.value() <= 0 {
            Dir::NW
        } else {
            Dir::SW
        },
{
    lemma_rules();
    assert(0 * pixel() == 0);
    let adx = signed(false, dx.mag());
    let ady = signed(false, dy.mag());
    lemma_product_special(adx, straight_ratio());
    lemma_product_special(ady, straight_ratio());
}

/// The course of the moments. A moment that is not over goes on, and nothing else counts. In
/// between, the wait counts down while the cat rests. When it is over, three random numbers say
/// which of the twelve moments begins, how long it lasts, and how long the next wait is.
pub proof fn lemma_course_of_moments(cat: Cat, rng: u32, x: F32, y: F32, bounds: (F32, F32))
    ensures
        ({
            let after = cat.moved(rng, x, y, bounds);
            let rng_then = cat.looked(x, y).rng_after(rng);
            let rests = after.idle_ticks >= 3 || cat.frozen;
            let first = xorshift(rng);
            let second = xorshift(first);
            let third = xorshift(second);
            if cat.moment_ticks_remaining > 0 {
                &&& after.moment_ticks_remaining == cat.moment_ticks_remaining - 1
                &&& after.active_moment == cat.active_moment
                &&& after.next_moment_in == cat.next_moment_in
                &&& rng_then == rng
            } else if !rests {
                &&& after.moment_ticks_remaining == 0
                &&& after.active_moment is None
                &&& after.next_moment_in == cat.next_moment_in
                &&& rng_then == rng
            } else if cat.next_moment_in > 0 {
                &&& after.moment_ticks_remaining == 0
                &&& after.active_moment is None
                &&& after.next_moment_in == cat.next_moment_in - 1
                &&& rng_then == rng
            } else {
                &&& after.active_moment is Some && after.active_moment->0 == first % 12
                &&& after.moment_ticks_remaining == 6 + second % 5
                &&& after.next_moment_in == 240 + third % 561
                &&& rng_then == third
            }
        }),
{
}

/// The picture of a cat without a moment. Asleep, it has two, which change every fourth tick as
/// long as it sleeps; washing and running, it has two that change at every tick; sitting, one;
/// and it says nothing.
pub proof fn lemma_pictures_of_poses(cat: Cat, sheet: SpriteSheet)
    requires
        cat.active_moment is None,
    ensures
        ({
            let shown = Sprite {
                image: cat.shown(sheet).sprite,
                mask: cat.shown(sheet).mask,
            };
            let idle = cat.idle_ticks;
            &&& cat.shown(sheet).bubble_text@ == Seq::<char>::empty()
            &&& idle >= 20 && (idle / 4) % 2 == 0 ==> shown == sheet.sleeping_1
            &&& idle >= 20 && (idle / 4) % 2 == 1 ==> shown == sheet.sleeping_2
            &&& 10 <= idle < 20 && cat.frame ==> shown == sheet.washing_1
            &&& 10 <= idle < 20 && !cat.frame ==> shown == sheet.washing_2
            &&& 3 <= idle < 10 ==> shown == sheet.sitting
            &&& idle < 3 && cat.frozen ==> shown == sheet.sitting
            &&& idle < 3 && !cat.frozen && cat.frame ==> {
                &&& cat.dir == Dir::N ==> shown == sheet.up_1
                &&& cat.dir == Dir::NE ==> shown == sheet.ne_1
                &&& cat.dir == Dir::E ==> shown == sheet.right_1
                &&& cat.dir == Dir::SE ==> shown == sheet.se_1
                &&& cat.dir == Dir::S ==> shown == sheet.down_1
                &&& cat.dir == Dir::SW ==> shown == sheet.sw_1
                &&& cat.dir == Dir::W ==> shown == sheet.left_1
                &&& cat.dir == Dir::NW ==> shown == sheet.nw_1
            }
            &&& idle < 3 && !cat.frozen && !cat.frame ==> {
                &&& cat.dir == Dir::N ==> shown == sheet.up_2
                &&& cat.dir == Dir::NE ==> shown == sheet.ne_2
                &&& cat.dir == Dir::E ==> shown == sheet.right_2
                &&& cat.dir == Dir::SE ==> shown == sheet.se_2
                &&& cat.dir == Dir::S ==> shown == sheet.down_2
                &&& cat.dir == Dir::SW ==> shown == sheet.sw_2
                &&& cat.dir == Dir::W ==> shown == sheet.left_2
                &&& cat.dir == Dir::NW ==> shown == sheet.nw_2
            }
        }),
{
    reveal_strlit("");
}

/// The cat with its moment and without.
pub open spec fn without_moment(cat: Cat) -> Cat {
    Cat { active_moment: None, ..cat }
}

/// A moment changes what the cat says, and two of them change its picture; it stays where it is.
pub proof fn lemma_pictures_of_moments(cat: Cat, sheet: SpriteSheet)
    requires
        cat.active_moment is Some,
    ensures
        ({
            let i = cat.active_moment->0;
            let shown = cat.shown(sheet);
            let usual = without_moment(cat).shown(sheet);
            &&& shown.margin_left == usual.margin_left && shown.margin_top == usual.margin_top
            &&& i < 10 ==> shown.sprite == usual.sprite && shown.mask == usual.mask
            &&& i == 10 ==> shown.sprite == sheet.stretch.image && shown.mask == sheet.stretch.mask
            &&& i == 11 ==> shown.sprite == sheet.tailflick.image && shown.mask
                == sheet.tailflick.mask
            &&& i < 12 ==> shown.bubble_text@ == said(i as int)
        }),
{
    lemma_what_is_said(cat.active_moment->0 as int);
}

/// What the cat says in its twelve moments, letter by letter.
pub open spec fn said(i: int) -> Seq<char> {
    seq![
        seq!['m', 'e', 'o', 'w'],
        seq!['m', 'e', 'o', 'w', '?'],
        seq!['m', 'e', 'o', 'w', '!'],
        seq!['m', 'r', 'o', 'w'],
        seq!['p', 'u', 'r', 'r', 'r', '~'],
        seq!['n', 'y', 'a', '~'],
        seq!['m', 'e', 'w'],
        seq!['z', 'z', 'z'],
        seq!['h', 'i', 's', 's', '!'],
        seq!['?', '!'],
        seq!['*', 's', 't', 'r', 'e', 't', 'c', 'h', '*'],
        Seq::empty(),
    ][i]
}

/// The texts of the moments are these.
proof fn lemma_what_is_said(i: int)
    ensures
        0 <= i < 12 ==> moment_text(i)@ == said(i),
{
    reveal_strlit("meow");
    reveal_strlit("meow?");
    reveal_strlit("meow!");
    reveal_strlit("mrow");
    reveal_strlit("purrr~");
    reveal_strlit("nya~");
    reveal_strlit("mew");
    reveal_strlit("zzz");
    reveal_strlit("hiss!");
    reveal_strlit("?!");
    reveal_strlit("*stretch*");
    reveal_strlit("");
    if 0 <= i < 12 {
        assert(moment_text(i)@ =~= said(i));
    }
}

/// A frame is placed 20 pixels left of the cat and 16 above it, the cat's place being cut down
/// to whole pixels.
pub proof fn lemma_place_of_frame(cat: Cat, sheet: SpriteSheet)
    requires
        cat.win_x.is_finite() && 0 <= cat.win_x.value() < 0x7fff_ffff * pixel(),
        cat.win_y.is_finite() && 0 <= cat.win_y.value() < 0x7fff_ffff * pixel(),
    ensures
        ({
            let left = cat.shown(sheet).margin_left + 20;
            let top = cat.shown(sheet).margin_top + 16;
            &&& left * pixel() <= cat.win_x.value() < (left + 1) * pixel()
            &&& top * pixel() <= cat.win_y.value() < (top + 1) * pixel()
        }),
{
    lemma_rules();
    lemma_whole_part(cat.win_x);
    lemma_whole_part(cat.win_y);
}

/// The integer part of a number that is not negative and has one of 31 binary digits.
proof fn lemma_whole_part(a: F32)
    requires
        a.is_finite() && 0 <= a.value() < 0x7fff_ffff * pixel(),
    ensures
        0 <= truncated(a) <= 0x7fff_ffff,
        truncated(a) * pixel() <= a.value() < (truncated(a) + 1) * pixel(),
{
    lemma_rules();
    lemma_truncation(a);
    let one = pixel();
    assert(0 * one == 0 && 1 * one == one);
    let t = truncated(a);
    if a.negative() {
        assert(t == 0) by (nonlinear_arith)
            requires
                t <= 0,
                (-t) * one <= 0,
                one > 0,
        ;
    } else {
        assert(t != i32::MAX);
    }
}

/// A picture is news exactly if none was reported yet, or the last one differs from it in its
/// place, a byte of its picture or mask, or its text. Reporting it changes nothing but what is
/// known to be drawn, and only if it is news.
pub proof fn lemma_news(cat: Cat, picture: DrawState)
    ensures
        ({
            let after = cat.reported(picture);
            let same = cat.last_drawn is Some && {
                let last = cat.last_drawn->0;
                &&& last.margin_left == picture.margin_left
                &&& last.margin_top == picture.margin_top
                &&& last.bubble_text@ == picture.bubble_text@
                &&& forall|k: int| 0 <= k < 128 ==> #[trigger] last.sprite@[k] == picture.sprite@[k]
                &&& forall|k: int| 0 <= k < 128 ==> #[trigger] last.mask@[k] == picture.mask@[k]
            };
            &&& cat.is_news(picture) <==> !same
            &&& !same ==> after == (Cat { last_drawn: Some(picture), ..cat })
            &&& same ==> after == cat
        }),
{
    if cat.last_drawn is Some {
        let last = cat.last_drawn->0;
        if forall|k: int| 0 <= k < 128 ==> #[trigger] last.sprite@[k] == picture.sprite@[k] {
            assert(last.sprite@ =~= picture.sprite@);
        }
        if forall|k: int| 0 <= k < 128 ==> #[trigger] last.mask@[k] == picture.mask@[k] {
            assert(last.mask@ =~= picture.mask@);
        }
    }
}

/// A cat that appears stands at the cursor where its area allows that, and else at the edge that
/// is nearest to it; it is awake, looks east, is free and silent, and has 300 idle ticks to go
/// until its first moment.
pub proof fn lemma_appearance(x: F32, y: F32, bounds: (F32, F32), w: int, h: int)
    requires
        !x.is_nan() && !y.is_nan(),
        whole(bounds.0, w) && whole(bounds.1, h),
        -0x100_0000 <= w <= 0x100_0000,
        -0x100_0000 <= h <= 0x100_0000,
    ensures
        ({
            let cat = Cat::appeared_at(x, y, bounds);
            &&& appears(x, w, cat.win_x)
            &&& appears(y, h, cat.win_y)
            &&& cat.last_cursor == (cat.win_x, cat.win_y)
            &&& cat.dir == Dir::E && !cat.frame && cat.idle_ticks == 0 && !cat.frozen
            &&& cat.next_moment_in == 300 && cat.moment_ticks_remaining == 0
            &&& cat.active_moment is None && cat.last_drawn is None
        }),
{
    lemma_rules();
    lemma_room_in_pixels(bounds.0, w);
    lemma_room_in_pixels(bounds.1, h);
    assert(0 * pixel() == 0);
    assert(w >= 32 ==> (w - 32) * pixel() >= 0) by (nonlinear_arith)
        requires
            pixel() > 0,
    ;
    assert(h >= 32 ==> (h - 32) * pixel() >= 0) by (nonlinear_arith)
        requires
            pixel() > 0,
    ;
    lemma_comparisons(x, zero());
    lemma_comparisons(y, zero());
    lemma_comparisons(room(bounds.0), x);
    lemma_comparisons(room(bounds.1), y);
}

/// Whether `p` is where a cat appears along an axis of `w` pixels with the cursor at `x`.
pub open spec fn appears(x: F32, w: int, p: F32) -> bool {
    let top = if w >= 32 {
        (w - 32) * pixel()
    } else {
        0
    };
    &&& p.is_finite()
    &&& 0 <= x.value() <= top ==> p == x
    &&& x.value() < 0 ==> p.value() == 0
    &&& x.value() > top ==> p.value() == top
}

/// A cat is where it is put, awake, looking east, free and silent.
pub proof fn lemma_new_cat(win_x: F32, win_y: F32)
    ensures
        ({
            let cat = Cat::appeared(win_x, win_y);
            &&& cat.win_x == win_x && cat.win_y == win_y && cat.last_cursor == (win_x, win_y)
            &&& cat.dir == Dir::E && !cat.frame && cat.idle_ticks == 0 && !cat.frozen
            &&& cat.next_moment_in == 300 && cat.moment_ticks_remaining == 0
            &&& cat.active_moment is None && cat.last_drawn is None
        }),
{
}

/// A click freezes a free cat and frees a frozen one, and changes nothing else.
pub proof fn lemma_click(cat: Cat)
    ensures
        ({
            let after = cat.clicked();
            &&& after.frozen == !cat.frozen
            &&& after.win_x == cat.win_x && after.win_y == cat.win_y && after.dir == cat.dir
            &&& after.last_cursor == cat.last_cursor && after.frame == cat.frame
            &&& after.idle_ticks == cat.idle_ticks && after.next_moment_in == cat.next_moment_in
            &&& after.moment_ticks_remaining == cat.moment_ticks_remaining
            &&& after.active_moment == cat.active_moment && after.last_drawn == cat.last_drawn
        }),
{
}

} // verus!
