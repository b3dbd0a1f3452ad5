//! What is drawn, pixel by pixel.
use crate::canvas::addressable;
use crate::canvas::colour_byte;
use crate::canvas::dot;
use crate::canvas::over;
use crate::canvas::overlay;
use crate::canvas::rect;
use crate::canvas::Layer;
use crate::font::bit;
use crate::font::glyph;
use crate::frame::bubble_layer;
use crate::frame::frame;
use crate::frame::frame_pixel;
use crate::text::drawable;
use crate::text::text_layer;
use vstd::arithmetic::div_mod::lemma_fundamental_div_mod;
use vstd::arithmetic::div_mod::lemma_fundamental_div_mod_converse;
use vstd::prelude::*;

verus! {

/// The four bytes of a colour make it up, the least significant one first.
pub proof fn lemma_colour_bytes(argb: u32)
    ensures
        argb == colour_byte(argb, 0) + 0x100 * colour_byte(argb, 1) + 0x1_0000 * colour_byte(argb, 2)
            + 0x100_0000 * colour_byte(argb, 3),
{
}

/// Drawing a layer gives each pixel of a canvas the colour that the layer has there, in the four
/// bytes from `4 * (y * w + x)` on, and leaves the pixels alone where the layer has none.
pub proof fn lemma_overlay_at(canvas: Seq<u8>, w: int, layer: Layer, x: int, y: int, i: int)
    requires
        0 <= x < w,
        0 <= y,
        0 <= i < 4,
        4 * (y * w + x) + 4 <= canvas.len(),
    ensures
        ({
            let k = 4 * (y * w + x) + i;
            let after = overlay(canvas, w, layer);
            &&& after.len() == canvas.len()
            &&& 0 <= k < canvas.len()
            &&& layer(x, y) is Some ==> after[k] == colour_byte(layer(x, y)->0, i)
            &&& layer(x, y) is None ==> after[k] == canvas[k]
        }),
{
    assert(0 <= y * w) by (nonlinear_arith)
        requires
            0 <= y,
            0 < w,
    ;
    lemma_fundamental_div_mod_converse(y * w + x, w, y, x);
}

/// Bytes that are of no whole pixel, or of a canvas without width, are left alone.
pub proof fn lemma_overlay_rest(canvas: Seq<u8>, w: int, layer: Layer, k: int)
    requires
        0 <= k < canvas.len(),
        w <= 0 || k >= canvas.len() - canvas.len() % 4,
    ensures
        overlay(canvas, w, layer)[k] == canvas[k],
{
}

/// A single pixel changes its own four bytes, if they are on the canvas, and no others.
pub proof fn lemma_single_pixel(canvas: Seq<u8>, w: int, x: int, y: int, argb: u32, k: int)
    requires
        0 <= k < canvas.len(),
    ensures
        ({
            let after = overlay(canvas, w, dot(x, y, argb));
            let start = 4 * (y * w + x);
            let on = 0 <= x < w && 0 <= y && start + 4 <= canvas.len();
            &&& after.len() == canvas.len()
            &&& on && k == start ==> after[k] == argb % 0x100
            &&& on && k == start + 1 ==> after[k] == (argb / 0x100) % 0x100
            &&& on && k == start + 2 ==> after[k] == (argb / 0x1_0000) % 0x100
            &&& on && k == start + 3 ==> after[k] == argb / 0x100_0000
            &&& !on || k < start || k > start + 3 ==> after[k] == canvas[k]
        }),
{
    let start = 4 * (y * w + x);
    let p = k / 4;
    if 0 <= x < w && 0 <= y && start <= k <= start + 3 {
        lemma_fundamental_div_mod_converse(y * w + x, w, y, x);
        assert(p == y * w + x);
    } else if w > 0 && p % w == x && p / w == y {
        lemma_fundamental_div_mod(p, w);
        assert(w * (p / w) == y * w) by (nonlinear_arith)
            requires
                p / w == y,
        ;
        assert(p / w >= 0) by (nonlinear_arith)
            requires
                p >= 0,
                w > 0,
        ;
    }
}

/// A rectangle covers what is in it, and what is drawn on top hides what is below.
pub proof fn lemma_rect_and_over(
    x: int,
    y: int,
    width: int,
    height: int,
    argb: u32,
    below: Layer,
    px: int,
    py: int,
)
    ensures
        ({
            let r = rect(x, y, width, height, argb);
            let within = px >= x && px - x < width && py >= y && py - y < height;
            &&& r(px, py) == if within {
                Some(argb)
            } else {
                None
            }
            &&& over(r, below)(px, py) == if within {
                Some(argb)
            } else {
                below(px, py)
            }
        }),
{
}

/// A letter of a text: letter `i` begins `6 * i` columns from the left. In each of its five
/// columns and seven rows it is black where its shape has ink, with squares of `scale` pixels;
/// the sixth column, and all other rows, are empty.
pub proof fn lemma_letter_pixels(
    text: Seq<char>,
    x0: int,
    y0: int,
    scale: int,
    i: int,
    col: int,
    row: int,
    sx: int,
    sy: int,
)
    requires
        scale > 0,
        0 <= i < text.len(),
        0 <= col < 6,
        0 <= sx < scale,
        0 <= sy < scale,
    ensures
        ({
            let at = text_layer(text, x0, y0, scale)(
                x0 + (6 * i + col) * scale + sx,
                y0 + row * scale + sy,
            );
            let ink = glyph(text[i]) is Some && col < 5 && 0 <= row < 7 && bit(
                glyph(text[i])->0[row],
                4 - col,
            );
            at == if ink {
                Some(0xFF00_0000u32)
            } else {
                None
            }
        }),
{
    let a = 6 * scale;
    let x = x0 + (6 * i + col) * scale + sx;
    let y = y0 + row * scale + sy;
    assert((6 * i + col) * scale == i * a + col * scale) by (nonlinear_arith)
        requires
            a == 6 * scale,
    ;
    assert(0 <= col * scale <= 5 * scale) by (nonlinear_arith)
        requires
            0 <= col <= 5,
            scale > 0,
    ;
    lemma_fundamental_div_mod_converse(x - x0, a, i, col * scale + sx);
    lemma_fundamental_div_mod_converse(x - (x0 + i * a), scale, col, sx);
    lemma_fundamental_div_mod_converse(y - y0, scale, row, sy);
}

/// Left of its first letter and right of its last one, a text has no ink, nor has one without
/// size.
pub proof fn lemma_text_outside(text: Seq<char>, x0: int, y0: int, scale: int, x: int, y: int)
    requires
        scale <= 0 || x < x0 || x >= x0 + 6 * text.len() * scale,
    ensures
        text_layer(text, x0, y0, scale)(x, y) is None,
{
    if scale > 0 {
        let a = 6 * scale;
        let i = (x - x0) / a;
        let n = text.len() as int;
        lemma_fundamental_div_mod(x - x0, a);
        assert(6 * n * scale == n * a) by (nonlinear_arith)
            requires
                a == 6 * scale,
        ;
        if x < x0 {
            assert(i < 0) by (nonlinear_arith)
                requires
                    x - x0 == a * i + (x - x0) % a,
                    (x - x0) % a >= 0,
                    x - x0 < 0,
                    a > 0,
            ;
        } else {
            assert(i >= n) by (nonlinear_arith)
                requires
                    x - x0 == a * i + (x - x0) % a,
                    (x - x0) % a < a,
                    x - x0 >= n * a,
                    a > 0,
            ;
        }
    }
}

/// A speech bubble, pixel by pixel. Its box is `6 * n + 3` pixels wide for `n` letters, stands in
/// the middle, and reaches from row 1 to row 11, black at its border and white in it; below it
/// there is a tip of three pixels and one of one, in the middle; and the letters, black, begin two
/// columns and two rows into the box.
pub proof fn lemma_bubble_pixels(text: Seq<char>, w: int, x: int, y: int)
    requires
        w >= 0,
    ensures
        ({
            let n = text.len();
            let width = 6 * n + 3;
            let left = if w >= width {
                (w - width) / 2
            } else {
                -((width - w) / 2)
            };
            let black = Some(0xFF00_0000u32);
            let at = bubble_layer(text, w)(x, y);
            let boxed = left <= x < left + width && 1 <= y <= 11;
            if text_layer(text, left + 2, 3, 1)(x, y) is Some {
                at == black
            } else if boxed {
                if x == left || x == left + width - 1 || y == 1 || y == 11 {
                    at == black
                } else {
                    at == Some(0xFFFF_FFFFu32)
                }
            } else if (y == 12 && w / 2 - 1 <= x <= w / 2 + 1) || (y == 13 && x == w / 2) {
                at == black
            } else {
                at is None
            }
        }),
{
    let n = text.len();
    assert(n * (5 + 1) == 6 * n) by (nonlinear_arith);
}

/// A frame, pixel by pixel: 72 by 48 of them, four bytes each. The cat has the 32 by 32 from
/// column 20 and row 16 on: black where mask and bitmap are set, white where only the mask is,
/// and transparent elsewhere; bit `n` of byte `k` of a row stands for column `8 * k + n`. Above
/// it, if there is a text, there is its bubble; all else is transparent.
pub proof fn lemma_frame_bytes(
    sprite: Seq<u8>,
    mask: Seq<u8>,
    text: Seq<char>,
    x: int,
    y: int,
    i: int,
)
    requires
        0 <= x < 72,
        0 <= y < 48,
        0 <= i < 4,
    ensures
        ({
            let all = frame(sprite, mask, text);
            let argb = frame_pixel(sprite, mask, text, x, y);
            let bubble = bubble_layer(text, 72)(x, y);
            let k = (y - 16) * 4 + (x - 20) / 8;
            let n = (x - 20) % 8;
            &&& all.len() == 72 * 48 * 4
            &&& all[4 * (72 * y + x) + i] == colour_byte(argb, i)
            &&& if text.len() > 0 && bubble is Some {
                argb == bubble->0
            } else if 20 <= x < 52 && 16 <= y {
                if bit(mask[k], n) {
                    argb == if bit(sprite[k], n) {
                        0xFF00_0000u32
                    } else {
                        0xFFFF_FFFFu32
                    }
                } else {
                    argb == 0
                }
            } else {
                argb == 0
            }
        }),
{
    let q = 4 * (72 * y + x) + i;
    assert(q / 4 == 72 * y + x && q % 4 == i);
    assert(q / 4 % 72 == x && q / 4 / 72 == y);
}

/// Where a pixel can be drawn: wherever its bytes can be counted, and anywhere off the canvas.
pub proof fn lemma_addressable(w: usize, x: int, y: int)
    ensures
        addressable(w, x, y) <==> x < 0 || x >= w || y < 0 || 4 * (y * w + x) + 4 <= usize::MAX,
{
}

/// A text that ends before the `i32` coordinates do can be drawn on a canvas whose rows can be
/// counted as far down as the text reaches.
pub proof fn lemma_text_can_be_drawn(text: Seq<char>, x0: int, y0: int, scale: int, w: usize, h: int)
    requires
        scale > 0,
        h >= 0,
        x0 + 6 * text.len() * scale <= i32::MAX,
        y0 + 7 * scale <= h <= i32::MAX,
        4 * (h * w) <= usize::MAX,
    ensures
        drawable(w, text_layer(text, x0, y0, scale)),
{
    let layer = text_layer(text, x0, y0, scale);
    assert forall|x: int, y: int| (#[trigger] layer(x, y)) is Some implies x <= i32::MAX && y
        <= i32::MAX && addressable(w, x, y) by {
        if x >= x0 + 6 * text.len() * scale {
            lemma_text_outside(text, x0, y0, scale, x, y);
        }
        let row = (y - y0) / scale;
        lemma_fundamental_div_mod(y - y0, scale);
        assert(row < 7);
        assert(y < y0 + 7 * scale) by (nonlinear_arith)
            requires
                y - y0 == scale * row + (y - y0) % scale,
                (y - y0) % scale < scale,
                row <= 6,
                scale > 0,
        ;
        if 0 <= x < w && 0 <= y {
            let v = w as int;
            assert(y * v + x + 1 <= h * v) by (nonlinear_arith)
                requires
                    0 <= x < v,
                    0 <= y < h,
            ;
        }
    }
}

} // verus!
