//! Pixel buffers and what is drawn on them.
use vstd::arithmetic::div_mod::lemma_fundamental_div_mod;
use vstd::arithmetic::div_mod::lemma_fundamental_div_mod_converse;
use vstd::prelude::*;

verus! {

/// Opaque black.
pub const BLACK: u32 = 0xFF00_0000;

/// Opaque white.
pub const WHITE: u32 = 0xFFFF_FFFF;

/// What is drawn at a place: a colour, or nothing.
pub type Layer = spec_fn(int, int) -> Option<u32>;

/// Byte `i` of a colour, the least significant byte first.
pub open spec fn colour_byte(argb: u32, i: int) -> u8 {
    if i == 0 {
        (argb % 0x100) as u8
    } else if i == 1 {
        (argb / 0x100 % 0x100) as u8
    } else if i == 2 {
        (argb / 0x1_0000 % 0x100) as u8
    } else {
        (argb / 0x100_0000) as u8
    }
}

/// A canvas of pixels in rows of `w`, four bytes each, after drawing `layer` on it. Bytes at
/// the end that make no whole pixel stay as they are.
pub open spec fn overlay(canvas: Seq<u8>, w: int, layer: Layer) -> Seq<u8> {
    Seq::new(
        canvas.len(),
        |k: int|
            {
                let p = k / 4;
                if w > 0 && 4 * p + 4 <= canvas.len() {
                    match layer(p % w, p / w) {
                        Some(argb) => colour_byte(argb, k % 4),
                        None => canvas[k],
                    }
                } else {
                    canvas[k]
                }
            },
    )
}

/// One pixel.
pub open spec fn dot(x: int, y: int, argb: u32) -> Layer {
    |px: int, py: int|
        if px == x && py == y {
            Some(argb)
        } else {
            None
        }
}

/// `top` drawn over `below`.
pub open spec fn over(top: Layer, below: Layer) -> Layer {
    |x: int, y: int|
        match top(x, y) {
            Some(argb) => Some(argb),
            None => below(x, y),
        }
}

/// Whether the byte offset of a pixel of the canvas can be computed.
pub open spec fn addressable(w: usize, x: int, y: int) -> bool {
    0 <= x < w && 0 <= y ==> (y * w + x) * 4 + 4 <= usize::MAX
}

/// Whether two layers agree wherever a canvas with rows of `w` has pixels.
pub open spec fn same_layer(w: int, f: Layer, g: Layer) -> bool {
    forall|x: int, y: int| 0 <= x < w && 0 <= y ==> #[trigger] f(x, y) == g(x, y)
}

/// Layers that agree on the canvas draw the same.
pub proof fn lemma_overlay_same(canvas: Seq<u8>, w: int, f: Layer, g: Layer)
    requires
        same_layer(w, f, g),
    ensures
        overlay(canvas, w, f) == overlay(canvas, w, g),
{
    assert forall|k: int| 0 <= k < canvas.len() implies overlay(canvas, w, f)[k] == overlay(
        canvas,
        w,
        g,
    )[k] by {
        let p = k / 4;
        if w > 0 {
            lemma_fundamental_div_mod(p, w);
            assert(0 <= p % w < w && 0 <= p / w) by (nonlinear_arith)
                requires
                    p >= 0,
                    w > 0,
            ;
            assert(f(p % w, p / w) == g(p % w, p / w));
        }
    }
    assert(overlay(canvas, w, f) =~= overlay(canvas, w, g));
}

/// Drawing one layer and then another draws the second over the first.
pub proof fn lemma_overlay_over(canvas: Seq<u8>, w: int, f: Layer, g: Layer)
    ensures
        overlay(overlay(canvas, w, f), w, g) == overlay(canvas, w, over(g, f)),
{
    assert(overlay(overlay(canvas, w, f), w, g) =~= overlay(canvas, w, over(g, f)));
}

/// Draws one pixel; outside of the canvas, nothing.
pub fn put_pixel(canvas: &mut [u8], canvas_w: usize, x: i32, y: i32, argb: u32)
    requires
        addressable(canvas_w, x as int, y as int),
    ensures
        final(canvas)@ == overlay(old(canvas)@, canvas_w as int, dot(x as int, y as int, argb)),
{
    let ghost before = canvas@;
    let ghost layer = dot(x as int, y as int, argb);
    let ghost w = canvas_w as int;
    if x < 0 || y < 0 || x as usize >= canvas_w {
        proof {
            assert forall|px: int, py: int| 0 <= px < w && 0 <= py implies #[trigger] layer(px, py)
                == None::<u32> by {}
            lemma_overlay_nothing(before, w, layer);
        }
        return;
    }
    let idx: usize = (y as usize * canvas_w + x as usize) * 4;
    if idx + 4 <= canvas.len() {
        canvas[idx] = (argb % 0x100) as u8;
        canvas[idx + 1] = (argb / 0x100 % 0x100) as u8;
        canvas[idx + 2] = (argb / 0x1_0000 % 0x100) as u8;
        canvas[idx + 3] = (argb / 0x100_0000) as u8;
    }
    proof {
        assert forall|k: int| 0 <= k < before.len() implies canvas@[k] == #[trigger] overlay(
            before,
            w,
            layer,
        )[k] by {
            let p = k / 4;
            lemma_fundamental_div_mod(p, w);
            if p == y * w + x {
                lemma_fundamental_div_mod_converse(p, w, y as int, x as int);
            } else if p % w == x && p / w == y {
                assert(w * (p / w) == y * w) by (nonlinear_arith)
                    requires
                        p / w == y,
                ;
            }
        }
        assert(canvas@ =~= overlay(before, w, layer));
    }
}

/// Drawing nothing changes nothing.
pub proof fn lemma_overlay_nothing(canvas: Seq<u8>, w: int, f: Layer)
    requires
        forall|x: int, y: int| 0 <= x < w && 0 <= y ==> #[trigger] f(x, y) == None::<u32>,
    ensures
        overlay(canvas, w, f) == canvas,
{
    let none: Layer = |x: int, y: int| None::<u32>;
    lemma_overlay_same(canvas, w, f, none);
    assert(overlay(canvas, w, none) =~= canvas);
}

/// A rectangle of one colour.
pub open spec fn rect(x: int, y: int, width: int, height: int, argb: u32) -> Layer {
    |px: int, py: int|
        if x <= px < x + width && y <= py < y + height {
            Some(argb)
        } else {
            None
        }
}

/// The first `rows` rows of a rectangle and the first `cols` pixels of the next row.
spec fn part_of_rect(
    x: int,
    y: int,
    width: int,
    height: int,
    argb: u32,
    rows: int,
    cols: int,
) -> Layer {
    |px: int, py: int|
        if x <= px < x + width && y <= py < y + height && (py < y + rows || (py == y + rows && px
            < x + cols)) {
            Some(argb)
        } else {
            None
        }
}

/// Draws a rectangle of one colour.
pub fn fill_rect(
    canvas: &mut [u8],
    canvas_w: usize,
    x: i32,
    y: i32,
    width: i32,
    height: i32,
    argb: u32,
)
    requires
        width > 0 && height > 0 ==> x + width - 1 <= i32::MAX && y + height - 1 <= i32::MAX,
        forall|px: int, py: int|
            x <= px < x + width && y <= py < y + height ==> #[trigger] addressable(
                canvas_w,
                px,
                py,
            ),
    ensures
        final(canvas)@ == overlay(
            old(canvas)@,
            canvas_w as int,
            rect(x as int, y as int, width as int, height as int, argb),
        ),
{
    let ghost before = canvas@;
    let ghost w = canvas_w as int;
    let ghost (gx, gy, gw, gh) = (x as int, y as int, width as int, height as int);
    if width <= 0 || height <= 0 {
        proof {
            lemma_overlay_nothing(before, w, rect(gx, gy, gw, gh, argb));
        }
        return;
    }
    let mut sy: i32 = 0;
    proof {
        lemma_overlay_nothing(before, w, part_of_rect(gx, gy, gw, gh, argb, 0, 0));
    }
    while sy < height
        invariant
            gx == x,
            gy == y,
            gw == width,
            gh == height,
            w == canvas_w,
            0 < width,
            0 <= sy <= height,
            x + width - 1 <= i32::MAX,
            y + height - 1 <= i32::MAX,
            forall|px: int, py: int|
                x <= px < x + width && y <= py < y + height ==> #[trigger] addressable(
                    canvas_w,
                    px,
                    py,
                ),
            canvas@ == overlay(before, w, part_of_rect(gx, gy, gw, gh, argb, sy as int, 0)),
        decreases height - sy,
    {
        let mut sx: i32 = 0;
        while sx < width
            invariant
                gx == x,
                gy == y,
                gw == width,
                gh == height,
                w == canvas_w,
                0 <= sx <= width,
                0 <= sy < height,
                x + width - 1 <= i32::MAX,
                y + height - 1 <= i32::MAX,
                forall|px: int, py: int|
                    x <= px < x + width && y <= py < y + height ==> #[trigger] addressable(
                        canvas_w,
                        px,
                        py,
                    ),
                canvas@ == overlay(
                    before,
                    w,
                    part_of_rect(gx, gy, gw, gh, argb, sy as int, sx as int),
                ),
            decreases width - sx,
        {
            assert(addressable(canvas_w, x + sx, y + sy));
            put_pixel(canvas, canvas_w, x + sx, y + sy, argb);
            proof {
                let f = part_of_rect(gx, gy, gw, gh, argb, sy as int, sx as int);
                let g = dot(x + sx, y + sy, argb);
                lemma_overlay_over(before, w, f, g);
                lemma_overlay_same(
                    before,
                    w,
                    over(g, f),
                    part_of_rect(gx, gy, gw, gh, argb, sy as int, sx + 1),
                );
            }
            sx = sx + 1;
        }
        proof {
            lemma_overlay_same(
                before,
                w,
                part_of_rect(gx, gy, gw, gh, argb, sy as int, sx as int),
                part_of_rect(gx, gy, gw, gh, argb, sy + 1, 0),
            );
        }
        sy = sy + 1;
    }
    proof {
        lemma_overlay_same(
            before,
            w,
            part_of_rect(gx, gy, gw, gh, argb, sy as int, 0),
            rect(gx, gy, gw, gh, argb),
        );
    }
}

} // verus!
