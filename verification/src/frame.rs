//! Frames: the cat's sprite with a speech bubble above it.
use crate::canvas::addressable;
use crate::canvas::colour_byte;
use crate::canvas::dot;
use crate::canvas::fill_rect;
use crate::canvas::lemma_overlay_nothing;
use crate::canvas::lemma_overlay_over;
use crate::canvas::lemma_overlay_same;
use crate::canvas::over;
use crate::canvas::overlay;
use crate::canvas::put_pixel;
use crate::canvas::rect;
use crate::canvas::Layer;
use crate::canvas::BLACK;
use crate::canvas::WHITE;
use crate::font::bit;
use crate::font::bit_is_set;
use crate::font::GLYPH_H;
use crate::font::GLYPH_W;
use crate::text::advance;
use crate::text::draw_text;
use crate::text::drawable;
use crate::text::text_layer;
use crate::text::text_width;
use vstd::prelude::*;

verus! {

/// Width and height of the cat.
pub const SIZE: u32 = 32;

/// Width of a frame.
pub const CANVAS_W: u32 = 72;

/// Height of the space for the speech bubble.
pub const BUBBLE_H: u32 = 16;

/// Height of a frame: the space for the bubble, and the cat below it.
pub const CANVAS_H: u32 = SIZE + BUBBLE_H;

/// Left edge of the cat in a frame: it stands in the middle.
pub const CAT_X_OFFSET: i32 = 20;

/// Upper edge of the cat in a frame.
pub const CAT_Y_OFFSET: i32 = 16;

/// The empty margin around the text of a bubble.
pub const PAD: i32 = 2;

/// Upper edge of the bubble.
pub const BUBBLE_TOP: i32 = 1;

/// Height of the bubble without its tip.
pub const BUBBLE_BOX_H: i32 = 11;

/// Half of a number, towards zero.
pub open spec fn half(n: int) -> int {
    if n >= 0 {
        n / 2
    } else {
        -((-n) / 2)
    }
}

/// Width of the bubble around a text of `len` characters.
pub open spec fn bubble_width(len: int) -> int {
    len * (GLYPH_W + 1) - 1 + 2 * PAD
}

/// Left edge of the bubble on a canvas of width `w`.
pub open spec fn bubble_left(w: int, len: int) -> int {
    half(w - bubble_width(len))
}

/// A white box with a black border of one pixel.
pub open spec fn box_layer(x: int, y: int, width: int, height: int) -> Layer {
    |px: int, py: int|
        if x <= px < x + width && y <= py < y + height {
            if px == x || px == x + width - 1 || py == y || py == y + height - 1 {
                Some(BLACK)
            } else {
                Some(WHITE)
            }
        } else {
            None
        }
}

/// The tip below the box: three pixels in the middle of the canvas, and one below them.
pub open spec fn tip_layer(w: int) -> Layer {
    let y = BUBBLE_TOP + BUBBLE_BOX_H;
    |px: int, py: int|
        if (py == y && half(w) - 1 <= px <= half(w) + 1) || (py == y + 1 && px == half(w)) {
            Some(BLACK)
        } else {
            None
        }
}

/// The bubble that says `text`, in the middle of a canvas of width `w`.
pub open spec fn bubble_layer(text: Seq<char>, w: int) -> Layer {
    let left = bubble_left(w, text.len() as int);
    over(
        text_layer(text, left + PAD, BUBBLE_TOP + PAD, 1),
        over(
            tip_layer(w),
            box_layer(
                left,
                BUBBLE_TOP as int,
                bubble_width(text.len() as int),
                BUBBLE_BOX_H as int,
            ),
        ),
    )
}

/// Draws the bubble that says `text`.
pub fn draw_bubble(canvas: &mut [u8], canvas_w: usize, text: &str)
    requires
        bubble_width(text@.len() as int) <= i32::MAX,
        canvas_w as i32 - bubble_width(text@.len() as int) >= i32::MIN,
        drawable(canvas_w, bubble_layer(text@, canvas_w as i32 as int)),
    ensures
        final(canvas)@ == overlay(
            old(canvas)@,
            canvas_w as int,
            bubble_layer(text@, canvas_w as i32 as int),
        ),
{
    let ghost before = canvas@;
    let ghost w = canvas_w as int;
    let ghost layer = bubble_layer(text@, canvas_w as i32 as int);
    let ghost n = text@.len() as int;
    proof {
        assert(n * (GLYPH_W + 1) == 6 * n) by (nonlinear_arith)
            requires
                GLYPH_W == 5,
        ;
    }
    let text_w: i32 = text_width(text, 1);
    let box_w: i32 = text_w + PAD * 2;
    let box_h: i32 = GLYPH_H as i32 + PAD * 2;
    let box_x0: i32 = (canvas_w as i32 - box_w) / 2;
    let nub_x: i32 = canvas_w as i32 / 2;
    let nub_y0: i32 = BUBBLE_TOP + box_h;
    assert(box_x0 == bubble_left(canvas_w as i32 as int, n));
    assert(nub_x == half(canvas_w as i32 as int));
    let ghost x0 = box_x0 as int;
    let ghost whole = rect(x0, 1, box_w as int, 11, BLACK);
    let ghost inner = rect(x0 + 1, 2, box_w - 2, 9, WHITE);
    let ghost bar = rect(nub_x - 1, 12, 3, 1, BLACK);
    let ghost point = rect(nub_x as int, 13, 1, 1, BLACK);
    let ghost letters = text_layer(text@, x0 + PAD, BUBBLE_TOP + PAD, 1);
    let ghost frame = box_layer(x0, 1, box_w as int, 11);
    let ghost tip = tip_layer(canvas_w as i32 as int);
    proof {
        assert(layer == over(letters, over(tip, frame)));
        assert forall|x: int, y: int|
            (letters(x, y) is Some || tip(x, y) is Some || frame(x, y) is Some) implies x
            <= i32::MAX && y <= i32::MAX && #[trigger] addressable(canvas_w, x, y) by {
            assert(layer(x, y) is Some);
        }
    }
    fill_rect(canvas, canvas_w, box_x0, BUBBLE_TOP, box_w, box_h, BLACK);
    fill_rect(canvas, canvas_w, box_x0 + 1, BUBBLE_TOP + 1, box_w - 2, box_h - 2, WHITE);
    proof {
        lemma_overlay_over(before, w, whole, inner);
        lemma_overlay_same(before, w, over(inner, whole), frame);
    }
    fill_rect(canvas, canvas_w, nub_x - 1, nub_y0, 3, 1, BLACK);
    fill_rect(canvas, canvas_w, nub_x, nub_y0 + 1, 1, 1, BLACK);
    proof {
        lemma_overlay_over(before, w, frame, bar);
        lemma_overlay_over(before, w, over(bar, frame), point);
        lemma_overlay_same(before, w, over(point, over(bar, frame)), over(tip, frame));
    }
    proof {
        assert(advance(1) == 6);
        assert(n * advance(1) == 6 * n);
        assert forall|x: int, y: int| (#[trigger] letters(x, y)) is Some implies x <= i32::MAX && y
            <= i32::MAX && addressable(canvas_w, x, y) by {}
    }
    draw_text(canvas, canvas_w, text, box_x0 + PAD, BUBBLE_TOP + PAD, 1);
    proof {
        lemma_overlay_over(before, w, over(tip, frame), letters);
    }
}

/// The cat in a frame. A sprite and its mask have four bytes for each row, the leftmost pixel
/// in the least significant bit. Where the mask is set, the cat is black or, where the sprite
/// is not set, white; elsewhere it is transparent.
pub open spec fn sprite_layer(sprite: Seq<u8>, mask: Seq<u8>) -> Layer {
    |x: int, y: int|
        {
            let cx = x - CAT_X_OFFSET;
            let cy = y - CAT_Y_OFFSET;
            if 0 <= cx < SIZE && 0 <= cy < SIZE {
                let k = cy * 4 + cx / 8;
                if bit(mask[k], cx % 8) {
                    if bit(sprite[k], cx % 8) {
                        Some(BLACK)
                    } else {
                        Some(WHITE)
                    }
                } else {
                    Some(0)
                }
            } else {
                None
            }
        }
}

/// The cat and, where there is a text, the bubble that says it.
pub open spec fn frame_layer(sprite: Seq<u8>, mask: Seq<u8>, text: Seq<char>) -> Layer {
    if text.len() == 0 {
        sprite_layer(sprite, mask)
    } else {
        over(bubble_layer(text, CANVAS_W as int), sprite_layer(sprite, mask))
    }
}

/// The colour of a pixel of a frame; transparent where nothing is drawn.
pub open spec fn frame_pixel(
    sprite: Seq<u8>,
    mask: Seq<u8>,
    text: Seq<char>,
    x: int,
    y: int,
) -> u32 {
    match frame_layer(sprite, mask, text)(x, y) {
        Some(argb) => argb,
        None => 0,
    }
}

/// A frame: its pixels row by row, four bytes each.
pub open spec fn frame(sprite: Seq<u8>, mask: Seq<u8>, text: Seq<char>) -> Seq<u8> {
    Seq::new(
        (CANVAS_W * CANVAS_H * 4) as nat,
        |k: int|
            colour_byte(
                frame_pixel(sprite, mask, text, k / 4 % CANVAS_W as int, k / 4 / CANVAS_W as int),
                k % 4,
            ),
    )
}

/// The first `rows` rows of the cat and the first `cols` pixels of the next row.
spec fn part_of_sprite(sprite: Seq<u8>, mask: Seq<u8>, rows: int, cols: int) -> Layer {
    |x: int, y: int|
        if y < CAT_Y_OFFSET + rows || (y == CAT_Y_OFFSET + rows && x < CAT_X_OFFSET + cols) {
            sprite_layer(sprite, mask)(x, y)
        } else {
            None
        }
}

/// Draws the cat.
fn draw_sprite(canvas: &mut [u8], sprite: &[u8; 128], mask: &[u8; 128])
    ensures
        final(canvas)@ == overlay(old(canvas)@, CANVAS_W as int, sprite_layer(sprite@, mask@)),
{
    let ghost before = canvas@;
    let ghost w = CANVAS_W as int;
    proof {
        lemma_overlay_nothing(before, w, part_of_sprite(sprite@, mask@, 0, 0));
    }
    let mut y: usize = 0;
    while y < SIZE as usize
        invariant
            y <= SIZE,
            w == CANVAS_W,
            canvas@ == overlay(before, w, part_of_sprite(sprite@, mask@, y as int, 0)),
        decreases SIZE - y,
    {
        let mut x: usize = 0;
        while x < SIZE as usize
            invariant
                x <= SIZE,
                y < SIZE,
                w == CANVAS_W,
                canvas@ == overlay(before, w, part_of_sprite(sprite@, mask@, y as int, x as int)),
            decreases SIZE - x,
        {
            let k: usize = y * 4 + x / 8;
            let n: u32 = (x % 8) as u32;
            let px: u32 = if bit_is_set(mask[k], n) {
                if bit_is_set(sprite[k], n) {
                    BLACK
                } else {
                    WHITE
                }
            } else {
                0
            };
            put_pixel(
                canvas,
                CANVAS_W as usize,
                x as i32 + CAT_X_OFFSET,
                y as i32 + CAT_Y_OFFSET,
                px,
            );
            proof {
                let f = part_of_sprite(sprite@, mask@, y as int, x as int);
                let g = dot(x + CAT_X_OFFSET, y + CAT_Y_OFFSET, px);
                lemma_overlay_over(before, w, f, g);
                lemma_overlay_same(
                    before,
                    w,
                    over(g, f),
                    part_of_sprite(sprite@, mask@, y as int, x + 1),
                );
            }
            x = x + 1;
        }
        proof {
            lemma_overlay_same(
                before,
                w,
                part_of_sprite(sprite@, mask@, y as int, x as int),
                part_of_sprite(sprite@, mask@, y + 1, 0),
            );
        }
        y = y + 1;
    }
    proof {
        lemma_overlay_same(
            before,
            w,
            part_of_sprite(sprite@, mask@, y as int, 0),
            sprite_layer(sprite@, mask@),
        );
    }
}

/// Renders one frame: the cat, and above it the bubble that says `text`, if there is one.
pub fn render_frame(sprite: &[u8; 128], mask: &[u8; 128], text: &str) -> (r: Vec<u8>)
    requires
        bubble_width(text@.len() as int) <= i32::MAX,
    ensures
        r@ == frame(sprite@, mask@, text@),
{
    let mut canvas: Vec<u8> = vec![0u8; (CANVAS_W * CANVAS_H * 4) as usize];
    let ghost blank = canvas@;
    let ghost w = CANVAS_W as int;
    draw_sprite(canvas.as_mut_slice(), sprite, mask);
    if !text.is_empty() {
        draw_bubble(canvas.as_mut_slice(), CANVAS_W as usize, text);
        proof {
            lemma_overlay_over(
                blank,
                w,
                sprite_layer(sprite@, mask@),
                bubble_layer(text@, CANVAS_W as int),
            );
        }
    }
    assert(canvas@ =~= frame(sprite@, mask@, text@));
    canvas
}

} // verus!
