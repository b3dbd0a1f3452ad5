use oneko::canvas::{fill_rect, put_pixel, BLACK, WHITE};
use oneko::font::{bit_is_set, glyph_for, GLYPH_H, GLYPH_W};
use oneko::frame::{
    draw_bubble, render_frame, BUBBLE_H, CANVAS_H, CANVAS_W, CAT_X_OFFSET, CAT_Y_OFFSET, SIZE,
};
use oneko::text::{draw_text, text_width};

fn pixel(canvas: &[u8], w: usize, x: usize, y: usize) -> u32 {
    let k = (y * w + x) * 4;
    u32::from_le_bytes([canvas[k], canvas[k + 1], canvas[k + 2], canvas[k + 3]])
}

// A picture of a canvas: `#` for black, `o` for white, `.` for transparent.
fn rows(canvas: &[u8], w: usize) -> Vec<String> {
    let h = canvas.len() / 4 / w;
    (0..h)
        .map(|y| {
            (0..w)
                .map(|x| match pixel(canvas, w, x, y) {
                    BLACK => '#',
                    WHITE => 'o',
                    0 => '.',
                    other => panic!("colour {other:#x}"),
                })
                .collect()
        })
        .collect()
}

#[test]
fn sizes_fit_together() {
    assert_eq!((SIZE, CANVAS_W, BUBBLE_H, CANVAS_H), (32, 72, 16, 48));
    assert_eq!(CAT_X_OFFSET, ((CANVAS_W - SIZE) / 2) as i32);
    assert_eq!(CAT_Y_OFFSET, BUBBLE_H as i32);
    assert_eq!((GLYPH_W, GLYPH_H), (5, 7));
}

#[test]
fn pixel_bytes_are_little_endian() {
    let mut canvas = vec![7u8; 16];
    put_pixel(&mut canvas, 2, 1, 1, 0x1122_3344);
    assert_eq!(canvas, [7, 7, 7, 7, 7, 7, 7, 7, 7, 7, 7, 7, 0x44, 0x33, 0x22, 0x11]);
}

#[test]
fn pixels_outside_are_clipped() {
    let blank = vec![0u8; 2 * 3 * 4];
    for (x, y) in [(-1, 0), (0, -1), (2, 0), (0, 3), (1, 3), (i32::MIN, 0), (i32::MAX, 2), (0, 1000)] {
        let mut canvas = blank.clone();
        put_pixel(&mut canvas, 2, x, y, BLACK);
        assert_eq!(canvas, blank, "({x}, {y})");
    }
    // A last pixel that is not whole is not drawn.
    let mut short = vec![0u8; 7];
    put_pixel(&mut short, 2, 1, 0, WHITE);
    assert_eq!(short, vec![0u8; 7]);
    put_pixel(&mut short, 2, 0, 0, WHITE);
    assert_eq!(short, [255, 255, 255, 255, 0, 0, 0]);
    // A canvas without width has no pixels.
    put_pixel(&mut short, 0, 0, 0, BLACK);
    assert_eq!(short, [255, 255, 255, 255, 0, 0, 0]);
}

#[test]
fn rectangles_are_clipped() {
    let mut canvas = vec![0u8; 4 * 3 * 4];
    fill_rect(&mut canvas, 4, -1, 1, 3, 5, WHITE);
    assert_eq!(rows(&canvas, 4), ["....", "oo..", "oo.."]);
    fill_rect(&mut canvas, 4, 1, 1, 0, 2, BLACK);
    fill_rect(&mut canvas, 4, 1, 1, 2, -2, BLACK);
    assert_eq!(rows(&canvas, 4), ["....", "oo..", "oo.."]);
}

#[test]
fn bits_of_a_byte() {
    for byte in 0..=255u8 {
        for n in 0..8 {
            assert_eq!(bit_is_set(byte, n), byte & (1 << n) != 0);
        }
    }
}

#[test]
fn font_has_the_letters_it_needs() {
    let known = "meowz!?~*rpunyahisct";
    for n in 0..0x3000u32 {
        if let Some(c) = char::from_u32(n) {
            assert_eq!(glyph_for(c).is_some(), known.contains(c), "{c:?}");
        }
    }
    assert_eq!(glyph_for('z'), Some(&[31, 2, 4, 8, 16, 31, 0]));
    assert_eq!(glyph_for('~'), Some(&[0, 0, 9, 22, 0, 0, 0]));
    assert_eq!(glyph_for('c'), Some(&[15, 16, 16, 16, 16, 15, 0]));
    assert_eq!(glyph_for('i'), Some(&[4, 0, 4, 4, 4, 4, 0]));
}

#[test]
fn text_widths() {
    assert_eq!(text_width("meow", 1), 23);
    assert_eq!(text_width("*stretch*", 1), 53);
    assert_eq!(text_width("", 1), -1);
    assert_eq!(text_width("é!", 3), 33);
    assert_eq!(text_width("ab", 0), 0);
    assert_eq!(text_width("ab", -1), -11);
}

#[test]
fn text_is_drawn_letter_by_letter() {
    let mut canvas = vec![0u8; 13 * 8 * 4];
    draw_text(&mut canvas, 13, "i!", 1, 0, 1);
    assert_eq!(
        rows(&canvas, 13),
        [
            "...#.....#...",
            ".........#...",
            "...#.....#...",
            "...#.....#...",
            "...#.........",
            "...#.....#...",
            ".............",
            ".............",
        ]
    );
}

#[test]
fn unknown_letters_leave_gaps() {
    let mut with = vec![0u8; 20 * 7 * 4];
    draw_text(&mut with, 20, "qi", 0, 0, 1);
    let mut without = vec![0u8; 20 * 7 * 4];
    draw_text(&mut without, 20, "i", 6, 0, 1);
    assert_eq!(with, without);
}

#[test]
fn scaled_text_has_larger_pixels() {
    let mut canvas = vec![0u8; 10 * 14 * 4];
    draw_text(&mut canvas, 10, "~", 0, 0, 2);
    let picture = rows(&canvas, 10);
    assert_eq!(picture[3], "..........");
    assert_eq!(picture[4], "..##....##");
    assert_eq!(picture[5], "..##....##");
    assert_eq!(picture[6], "##..####..");
    assert_eq!(picture[7], "##..####..");
    assert_eq!(picture[8], "..........");
    // Without a positive size nothing is drawn.
    let mut blank = vec![0u8; 10 * 14 * 4];
    draw_text(&mut blank, 10, "mew", 5, 0, 0);
    draw_text(&mut blank, 10, "mew", 5, 0, -1);
    assert_eq!(blank, vec![0u8; 10 * 14 * 4]);
}

#[test]
fn bubble_around_a_short_text() {
    let mut canvas = vec![0u8; 21 * 16 * 4];
    draw_bubble(&mut canvas, 21, "?!");
    assert_eq!(
        rows(&canvas, 21),
        [
            ".....................",
            "...###############...",
            "...#ooooooooooooo#...",
            "...#oo###oooo#ooo#...",
            "...#o#ooo#ooo#ooo#...",
            "...#oooo#oooo#ooo#...",
            "...#ooo#ooooo#ooo#...",
            "...#ooooooooooooo#...",
            "...#ooo#ooooo#ooo#...",
            "...#ooooooooooooo#...",
            "...#ooooooooooooo#...",
            "...###############...",
            ".........###.........",
            "..........#..........",
            ".....................",
            ".....................",
        ]
    );
}

// The pixel that belongs at a place of the cat.
fn cat_pixel(sprite: &[u8; 128], mask: &[u8; 128], x: usize, y: usize) -> u32 {
    let (byte, bit) = (y * 4 + x / 8, 1u8 << (x % 8));
    match (mask[byte] & bit != 0, sprite[byte] & bit != 0) {
        (true, true) => BLACK,
        (true, false) => WHITE,
        _ => 0,
    }
}

fn bitmaps() -> ([u8; 128], [u8; 128]) {
    let mut sprite = [0u8; 128];
    let mut mask = [0u8; 128];
    for k in 0..128usize {
        sprite[k] = (k * 37 + 11) as u8;
        mask[k] = (k * 91 + 5) as u8;
    }
    (sprite, mask)
}

#[test]
fn frame_without_text_is_the_cat() {
    let (sprite, mask) = bitmaps();
    let frame = render_frame(&sprite, &mask, "");
    assert_eq!(frame.len(), 72 * 48 * 4);
    for y in 0..48 {
        for x in 0..72 {
            let expected = if (20..52).contains(&x) && y >= 16 {
                cat_pixel(&sprite, &mask, x - 20, y - 16)
            } else {
                0
            };
            assert_eq!(pixel(&frame, 72, x, y), expected, "({x}, {y})");
        }
    }
}

#[test]
fn bubble_leaves_the_cat_alone() {
    let (sprite, mask) = bitmaps();
    let silent = render_frame(&sprite, &mask, "");
    for text in ["meow", "*stretch*", "purrr~", "eleven char", "far too long for any bubble"] {
        let frame = render_frame(&sprite, &mask, text);
        assert_eq!(frame[72 * 16 * 4..], silent[72 * 16 * 4..], "{text}");
        assert_ne!(frame, silent);
    }
}

#[test]
fn bubbles_of_eleven_letters_fit() {
    let (sprite, mask) = bitmaps();
    let frame = render_frame(&sprite, &mask, "eleven char");
    let picture = rows(&frame, 72);
    // The box is 69 pixels wide: from column 1 to column 69.
    assert_eq!(picture[1], format!(".{}..", "#".repeat(69)));
    assert_eq!(picture[2], format!(".#{}#..", "o".repeat(67)));
    assert_eq!(picture[11], format!(".{}..", "#".repeat(69)));
    assert_eq!(picture[12], format!("{}###{}", ".".repeat(35), ".".repeat(34)));
    assert_eq!(picture[13], format!("{}#{}", ".".repeat(36), ".".repeat(35)));
    assert_eq!(picture[14], ".".repeat(72));
    // With one letter more, the sides are cut off.
    let wide = rows(&render_frame(&sprite, &mask, "twelve chars"), 72);
    assert_eq!(wide[1], "#".repeat(72));
    assert_eq!(wide[2], "o".repeat(72));
}

#[test]
fn whole_frame_of_a_mew() {
    let (sprite, mask) = ([0u8; 128], [0u8; 128]);
    let picture = rows(&render_frame(&sprite, &mask, "mew"), 72);
    let left = (72 - 21) / 2;
    let row = |inner: &str| format!("{}{}{}", ".".repeat(left), inner, ".".repeat(72 - left - 21));
    assert_eq!(picture[0], ".".repeat(72));
    assert_eq!(picture[1], row("#####################"));
    assert_eq!(picture[2], row("#ooooooooooooooooooo#"));
    assert_eq!(picture[3], row("#o#ooo#o####oo#ooo#o#"));
    assert_eq!(picture[4], row("#o##o##o#ooooo#ooo#o#"));
    assert_eq!(picture[5], row("#o#o#o#o####oo#o#o#o#"));
    assert_eq!(picture[6], row("#o#o#o#o#ooooo#o#o#o#"));
    assert_eq!(picture[7], row("#o#ooo#o#ooooo##o##o#"));
    assert_eq!(picture[8], row("#o#ooo#o####oo#ooo#o#"));
    assert_eq!(picture[9], row("#ooooooooooooooooooo#"));
    assert_eq!(picture[10], row("#ooooooooooooooooooo#"));
    assert_eq!(picture[11], row("#####################"));
}
