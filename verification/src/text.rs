//! Text on a canvas.
use crate::canvas::addressable;
use crate::canvas::fill_rect;
use crate::canvas::lemma_overlay_nothing;
use crate::canvas::lemma_overlay_over;
use crate::canvas::lemma_overlay_same;
use crate::canvas::over;
use crate::canvas::overlay;
use crate::canvas::rect;
use crate::canvas::same_layer;
use crate::canvas::Layer;
use crate::canvas::BLACK;
use crate::font::bit;
use crate::font::bit_is_set;
use crate::font::glyph;
use crate::font::glyph_for;
use crate::font::GLYPH_H;
use crate::font::GLYPH_W;
use vstd::arithmetic::div_mod::lemma_fundamental_div_mod;
use vstd::arithmetic::div_mod::lemma_fundamental_div_mod_converse;
use vstd::prelude::*;

verus! {

/// Whether a shape has ink in a column and a row of its cell.
pub open spec fn shape_ink(rows: Seq<u8>, col: int, row: int) -> bool {
    0 <= col < GLYPH_W && 0 <= row < GLYPH_H && bit(rows[row], GLYPH_W - 1 - col)
}

/// A shape with its cell's corner at `(x0, y0)`, each of its pixels a square of side `scale`.
pub open spec fn shape_layer(rows: Seq<u8>, x0: int, y0: int, scale: int) -> Layer {
    |x: int, y: int|
        if scale > 0 && shape_ink(rows, (x - x0) / scale, (y - y0) / scale) {
            Some(BLACK)
        } else {
            None
        }
}

/// The distance from one character to the next.
pub open spec fn advance(scale: int) -> int {
    (GLYPH_W + 1) * scale
}

/// A character with its cell's corner at `(x0, y0)`; nothing where the font does not have it.
pub open spec fn char_layer(c: char, x0: int, y0: int, scale: int) -> Layer {
    |x: int, y: int|
        match glyph(c) {
            Some(rows) => shape_layer(rows, x0, y0, scale)(x, y),
            None => None,
        }
}

/// Characters one after another, the first one at `(x0, y0)`.
pub open spec fn text_layer(text: Seq<char>, x0: int, y0: int, scale: int) -> Layer {
    |x: int, y: int|
        {
            let i = (x - x0) / advance(scale);
            if scale > 0 && 0 <= i < text.len() {
                char_layer(text[i], x0 + i * advance(scale), y0, scale)(x, y)
            } else {
                None
            }
        }
}

/// Whether every place that a layer draws at has coordinates of 32 bits and, on the canvas, an
/// offset.
pub open spec fn drawable(w: usize, layer: Layer) -> bool {
    forall|x: int, y: int|
        (#[trigger] layer(x, y)) is Some ==> x <= i32::MAX && y <= i32::MAX && addressable(w, x, y)
}

/// The width of `text`, without the gap behind its last character.
pub fn text_width(text: &str, scale: i32) -> (r: i32)
    requires
        text@.len() * (GLYPH_W + 1) <= i32::MAX,
        i32::MIN <= text@.len() * (GLYPH_W + 1) * scale <= i32::MAX,
        i32::MIN <= text@.len() * (GLYPH_W + 1) * scale - scale <= i32::MAX,
    ensures
        r == text@.len() * (GLYPH_W + 1) * scale - scale,
{
    let n: usize = text.unicode_len();
    assert(n <= n * (GLYPH_W + 1)) by (nonlinear_arith)
        requires
            n >= 0,
            GLYPH_W == 5,
    ;
    n as i32 * (GLYPH_W as i32 + 1) * scale - scale
}

/// Division by a positive number, by the range that it comes from.
proof fn lemma_cell(u: int, c: int, s: int)
    requires
        s > 0,
    ensures
        u / s == c <==> c * s <= u < c * s + s,
{
    if c * s <= u < c * s + s {
        lemma_fundamental_div_mod_converse(u, s, c, u - c * s);
    } else if u / s == c {
        lemma_fundamental_div_mod(u, s);
        assert(s * (u / s) == c * s) by (nonlinear_arith)
            requires
                u / s == c,
        ;
    }
}

/// The ink of a shape in its first `r` rows and in the first `c` columns of the next row.
spec fn part_of_shape(rows: Seq<u8>, x0: int, y0: int, scale: int, r: int, c: int) -> Layer {
    |x: int, y: int|
        if shape_ink(rows, (x - x0) / scale, (y - y0) / scale) && ((y - y0) / scale < r || ((y - y0)
            / scale == r && (x - x0) / scale < c)) {
            Some(BLACK)
        } else {
            None
        }
}

/// Draws one shape.
fn draw_shape(
    canvas: &mut [u8],
    canvas_w: usize,
    rows: &[u8; GLYPH_H],
    x0: i32,
    y0: i32,
    scale: i32,
)
    requires
        scale > 0,
        advance(scale as int) <= i32::MAX,
        drawable(canvas_w, shape_layer(rows@, x0 as int, y0 as int, scale as int)),
    ensures
        final(canvas)@ == overlay(
            old(canvas)@,
            canvas_w as int,
            shape_layer(rows@, x0 as int, y0 as int, scale as int),
        ),
{
    let ghost before = canvas@;
    let ghost w = canvas_w as int;
    let ghost (gx, gy, s) = (x0 as int, y0 as int, scale as int);
    proof {
        assert forall|x: int, y: int| 0 <= x < w && 0 <= y implies #[trigger] part_of_shape(
            rows@,
            gx,
            gy,
            s,
            0,
            0,
        )(x, y) == None::<u32> by {}
        lemma_overlay_nothing(before, w, part_of_shape(rows@, gx, gy, s, 0, 0));
    }
    let mut row: usize = 0;
    while row < GLYPH_H
        invariant
            row <= GLYPH_H,
            w == canvas_w,
            gx == x0,
            gy == y0,
            s == scale,
            scale > 0,
            advance(s) <= i32::MAX,
            drawable(canvas_w, shape_layer(rows@, gx, gy, s)),
            canvas@ == overlay(before, w, part_of_shape(rows@, gx, gy, s, row as int, 0)),
        decreases GLYPH_H - row,
    {
        let bits: u8 = rows[row];
        let mut col: usize = 0;
        while col < GLYPH_W
            invariant
                col <= GLYPH_W,
                row < GLYPH_H,
                bits == rows@[row as int],
                w == canvas_w,
                gx == x0,
                gy == y0,
                s == scale,
                scale > 0,
                advance(s) <= i32::MAX,
                drawable(canvas_w, shape_layer(rows@, gx, gy, s)),
                canvas@ == overlay(
                    before,
                    w,
                    part_of_shape(rows@, gx, gy, s, row as int, col as int),
                ),
            decreases GLYPH_W - col,
        {
            let ghost f = part_of_shape(rows@, gx, gy, s, row as int, col as int);
            let ghost g = part_of_shape(rows@, gx, gy, s, row as int, col + 1);
            if bit_is_set(bits, (GLYPH_W - 1 - col) as u32) {
                let ghost block = rect(gx + col * s, gy + row * s, s, s, BLACK);
                proof {
                    assert(0 <= col * s <= 4 * s && 0 <= row * s <= 6 * s) by (nonlinear_arith)
                        requires
                            0 <= col <= 4,
                            0 <= row <= 6,
                            s > 0,
                    ;
                    assert forall|x: int, y: int|
                        gx + col * s <= x < gx + col * s + s && gy + row * s <= y < gy + row * s
                            + s implies #[trigger] addressable(canvas_w, x, y) && x <= i32::MAX && y
                        <= i32::MAX by {
                        lemma_cell(x - gx, col as int, s);
                        lemma_cell(y - gy, row as int, s);
                        assert(shape_layer(rows@, gx, gy, s)(x, y) is Some);
                    }
                    assert(addressable(canvas_w, gx + col * s + s - 1, gy + row * s + s - 1));
                }
                fill_rect(
                    canvas,
                    canvas_w,
                    x0 + col as i32 * scale,
                    y0 + row as i32 * scale,
                    scale,
                    scale,
                    BLACK,
                );
                proof {
                    lemma_overlay_over(before, w, f, block);
                    assert forall|x: int, y: int| 0 <= x < w && 0 <= y implies #[trigger] over(
                        block,
                        f,
                    )(x, y) == g(x, y) by {
                        lemma_cell(x - gx, col as int, s);
                        lemma_cell(y - gy, row as int, s);
                    }
                    lemma_overlay_same(before, w, over(block, f), g);
                }
            } else {
                proof {
                    lemma_overlay_same(before, w, f, g);
                }
            }
            col = col + 1;
        }
        proof {
            lemma_overlay_same(
                before,
                w,
                part_of_shape(rows@, gx, gy, s, row as int, col as int),
                part_of_shape(rows@, gx, gy, s, row + 1, 0),
            );
        }
        row = row + 1;
    }
    proof {
        lemma_overlay_same(
            before,
            w,
            part_of_shape(rows@, gx, gy, s, row as int, 0),
            shape_layer(rows@, gx, gy, s),
        );
    }
}

/// Appending a character to a text draws that character beside the text.
proof fn lemma_text_push(text: Seq<char>, n: int, x0: int, y0: int, scale: int, w: int)
    requires
        0 <= n < text.len(),
        scale > 0,
    ensures
        same_layer(
            w,
            over(
                char_layer(text[n], x0 + n * advance(scale), y0, scale),
                text_layer(text.take(n), x0, y0, scale),
            ),
            text_layer(text.take(n + 1), x0, y0, scale),
        ),
{
    let a = advance(scale);
    let c = char_layer(text[n], x0 + n * a, y0, scale);
    let f = text_layer(text.take(n), x0, y0, scale);
    let g = text_layer(text.take(n + 1), x0, y0, scale);
    assert(a == 6 * scale);
    assert forall|x: int, y: int| 0 <= x < w && 0 <= y implies #[trigger] over(c, f)(x, y) == g(
        x,
        y,
    ) by {
        let i = (x - x0) / a;
        lemma_cell(x - x0, n, a);
        if i == n {
            assert(f(x, y) is None);
        } else {
            // A character's ink lies in its own cell.
            assert(c(x, y) is None) by {
                let col = (x - (x0 + n * a)) / scale;
                if 0 <= col < 5 {
                    lemma_cell(x - (x0 + n * a), col, scale);
                    assert(0 <= col * scale <= 4 * scale) by (nonlinear_arith)
                        requires
                            0 <= col <= 4,
                            scale > 0,
                    ;
                }
            }
            if 0 <= i < n {
                assert(text.take(n)[i] == text.take(n + 1)[i]);
            }
        }
    }
}

/// Draws `text` in black, its first character at `(x0, y0)`, each pixel of the font a square
/// of side `scale`. Characters that the font does not have leave a gap.
pub fn draw_text(canvas: &mut [u8], canvas_w: usize, text: &str, x0: i32, y0: i32, scale: i32)
    requires
        text@.len() > 0 ==> i32::MIN <= advance(scale as int) <= i32::MAX,
        i32::MIN <= x0 + text@.len() * advance(scale as int) <= i32::MAX,
        drawable(canvas_w, text_layer(text@, x0 as int, y0 as int, scale as int)),
    ensures
        final(canvas)@ == overlay(
            old(canvas)@,
            canvas_w as int,
            text_layer(text@, x0 as int, y0 as int, scale as int),
        ),
{
    let ghost before = canvas@;
    let ghost w = canvas_w as int;
    let ghost (gx, gy, s) = (x0 as int, y0 as int, scale as int);
    let n: usize = text.unicode_len();
    let mut cx: i32 = x0;
    let mut i: usize = 0;
    proof {
        lemma_overlay_nothing(before, w, text_layer(text@.take(0), gx, gy, s));
    }
    while i < n
        invariant
            i <= n == text@.len(),
            w == canvas_w,
            gx == x0,
            gy == y0,
            s == scale,
            cx == gx + i * advance(s),
            i32::MIN <= gx <= i32::MAX,
            n > 0 ==> i32::MIN <= advance(s) <= i32::MAX,
            i32::MIN <= gx + n * advance(s) <= i32::MAX,
            drawable(canvas_w, text_layer(text@, gx, gy, s)),
            canvas@ == overlay(before, w, text_layer(text@.take(i as int), gx, gy, s)),
        decreases n - i,
    {
        let c: char = text.get_char(i);
        let ghost whole = text_layer(text@, gx, gy, s);
        let ghost f = text_layer(text@.take(i as int), gx, gy, s);
        let ghost g = text_layer(text@.take(i + 1), gx, gy, s);
        let ghost one = char_layer(c, cx as int, gy, s);
        proof {
            if s > 0 {
                lemma_text_push(text@, i as int, gx, gy, s, w);
            }
        }
        if scale > 0 {
            match glyph_for(c) {
                Some(rows) => {
                    proof {
                        let shape = shape_layer(rows@, cx as int, gy, s);
                        assert forall|x: int, y: int| (#[trigger] shape(x, y)) is Some implies x
                            <= i32::MAX && y <= i32::MAX && addressable(canvas_w, x, y) by {
                            lemma_text_ink(text@, i as int, gx, gy, s, x, y);
                            assert(whole(x, y) is Some);
                        }
                    }
                    draw_shape(canvas, canvas_w, rows, cx, y0, scale);
                    proof {
                        let shape = shape_layer(rows@, cx as int, gy, s);
                        lemma_overlay_same(overlay(before, w, f), w, shape, one);
                    }
                },
                None => {
                    proof {
                        lemma_overlay_nothing(canvas@, w, one);
                    }
                },
            }
            proof {
                lemma_overlay_over(before, w, f, one);
                lemma_overlay_same(before, w, over(one, f), g);
            }
        } else {
            proof {
                lemma_overlay_same(before, w, f, g);
            }
        }
        proof {
            lemma_pen(gx, i as int, n as int, advance(s));
        }
        cx = cx + (GLYPH_W as i32 + 1) * scale;
        i = i + 1;
    }
    assert(text@.take(n as int) =~= text@);
}

/// A character's ink is ink of the text.
proof fn lemma_text_ink(text: Seq<char>, n: int, x0: int, y0: int, scale: int, x: int, y: int)
    requires
        0 <= n < text.len(),
        scale > 0,
        char_layer(text[n], x0 + n * advance(scale), y0, scale)(x, y) is Some,
    ensures
        text_layer(text, x0, y0, scale)(x, y) is Some,
{
    let a = advance(scale);
    let col = (x - (x0 + n * a)) / scale;
    lemma_cell(x - (x0 + n * a), col, scale);
    assert(0 <= col * scale <= 4 * scale) by (nonlinear_arith)
        requires
            0 <= col <= 4,
            scale > 0,
    ;
    lemma_cell(x - x0, n, a);
}

/// The pen positions lie between the first one and the last one.
proof fn lemma_pen(x0: int, i: int, n: int, a: int)
    requires
        0 <= i < n,
        i32::MIN <= x0 <= i32::MAX,
        i32::MIN <= x0 + n * a <= i32::MAX,
    ensures
        i32::MIN <= x0 + (i + 1) * a <= i32::MAX,
        x0 + (i + 1) * a == x0 + i * a + a,
{
    assert((i + 1) * a == i * a + a) by (nonlinear_arith);
    if a >= 0 {
        assert(0 <= (i + 1) * a <= n * a) by (nonlinear_arith)
            requires
                0 <= i + 1 <= n,
                a >= 0,
        ;
    } else {
        assert(n * a <= (i + 1) * a <= 0) by (nonlinear_arith)
            requires
                0 <= i + 1 <= n,
                a < 0,
        ;
    }
}

} // verus!
