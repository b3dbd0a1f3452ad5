//! The pixel font of the speech bubbles.
use vstd::prelude::*;

verus! {

/// Width of a character cell, in pixels.
pub const GLYPH_W: usize = 5;

/// Height of a character cell, in pixels.
pub const GLYPH_H: usize = 7;

/// The value of binary place `n` of a byte.
pub open spec fn place(n: int) -> int {
    if n == 0 {
        1
    } else if n == 1 {
        2
    } else if n == 2 {
        4
    } else if n == 3 {
        8
    } else if n == 4 {
        16
    } else if n == 5 {
        32
    } else if n == 6 {
        64
    } else {
        128
    }
}

/// Whether bit `n` of a byte is set, counting from the least significant one.
pub open spec fn bit(byte: u8, n: int) -> bool {
    (byte as int / place(n)) % 2 == 1
}

/// Whether bit `n` of a byte is set.
pub fn bit_is_set(byte: u8, n: u32) -> (r: bool)
    requires
        n < 8,
    ensures
        r == bit(byte, n as int),
{
    proof {
        assert(byte & (1u8 << 0u32) != 0 <==> (byte / 1) % 2 == 1) by (bit_vector);
        assert(byte & (1u8 << 1u32) != 0 <==> (byte / 2) % 2 == 1) by (bit_vector);
        assert(byte & (1u8 << 2u32) != 0 <==> (byte / 4) % 2 == 1) by (bit_vector);
        assert(byte & (1u8 << 3u32) != 0 <==> (byte / 8) % 2 == 1) by (bit_vector);
        assert(byte & (1u8 << 4u32) != 0 <==> (byte / 16) % 2 == 1) by (bit_vector);
        assert(byte & (1u8 << 5u32) != 0 <==> (byte / 32) % 2 == 1) by (bit_vector);
        assert(byte & (1u8 << 6u32) != 0 <==> (byte / 64) % 2 == 1) by (bit_vector);
        assert(byte & (1u8 << 7u32) != 0 <==> (byte / 128) % 2 == 1) by (bit_vector);
    }
    byte & (1u8 << n) != 0
}

/// The font: of each character that has a shape, its rows from the top, the leftmost pixel in
/// bit 4.
pub open spec fn glyph(c: char) -> Option<Seq<u8>> {
    match c {
        'm' => Some(seq![0b10001u8, 0b11011, 0b10101, 0b10101, 0b10001, 0b10001, 0b00000]),
        'e' => Some(seq![0b11110u8, 0b10000, 0b11110, 0b10000, 0b10000, 0b11110, 0b00000]),
        'o' => Some(seq![0b01110u8, 0b10001, 0b10001, 0b10001, 0b10001, 0b01110, 0b00000]),
        'w' => Some(seq![0b10001u8, 0b10001, 0b10101, 0b10101, 0b11011, 0b10001, 0b00000]),
        'z' => Some(seq![0b11111u8, 0b00010, 0b00100, 0b01000, 0b10000, 0b11111, 0b00000]),
        '!' => Some(seq![0b00100u8, 0b00100, 0b00100, 0b00100, 0b00000, 0b00100, 0b00000]),
        '?' => Some(seq![0b01110u8, 0b10001, 0b00010, 0b00100, 0b00000, 0b00100, 0b00000]),
        '~' => Some(seq![0b00000u8, 0b00000, 0b01001, 0b10110, 0b00000, 0b00000, 0b00000]),
        '*' => Some(seq![0b00000u8, 0b10101, 0b01110, 0b11111, 0b01110, 0b10101, 0b00000]),
        'r' => Some(seq![0b11110u8, 0b10001, 0b10001, 0b11110, 0b10010, 0b10001, 0b00000]),
        'p' => Some(seq![0b11110u8, 0b10001, 0b10001, 0b11110, 0b10000, 0b10000, 0b00000]),
        'u' => Some(seq![0b10001u8, 0b10001, 0b10001, 0b10001, 0b10001, 0b01110, 0b00000]),
        'n' => Some(seq![0b10001u8, 0b11001, 0b10101, 0b10101, 0b10011, 0b10001, 0b00000]),
        'y' => Some(seq![0b10001u8, 0b10001, 0b01010, 0b00100, 0b00100, 0b00100, 0b00000]),
        'a' => Some(seq![0b01110u8, 0b10001, 0b10001, 0b11111, 0b10001, 0b10001, 0b00000]),
        'h' => Some(seq![0b10001u8, 0b10001, 0b10001, 0b11111, 0b10001, 0b10001, 0b00000]),
        'i' => Some(seq![0b00100u8, 0b00000, 0b00100, 0b00100, 0b00100, 0b00100, 0b00000]),
        's' => Some(seq![0b01111u8, 0b10000, 0b01110, 0b00001, 0b00001, 0b11110, 0b00000]),
        'c' => Some(seq![0b01111u8, 0b10000, 0b10000, 0b10000, 0b10000, 0b01111, 0b00000]),
        't' => Some(seq![0b11111u8, 0b00100, 0b00100, 0b00100, 0b00100, 0b00100, 0b00000]),
        _ => None,
    }
}

/// The shape of a character, or none where the font does not have it.
pub fn glyph_for(c: char) -> (r: Option<&'static [u8; GLYPH_H]>)
    ensures
        match r {
            Some(rows) => glyph(c) == Some(rows@),
            None => glyph(c) is None,
        },
{
    match c {
        'm' => Some(&[0b10001, 0b11011, 0b10101, 0b10101, 0b10001, 0b10001, 0b00000]),
        'e' => Some(&[0b11110, 0b10000, 0b11110, 0b10000, 0b10000, 0b11110, 0b00000]),
        'o' => Some(&[0b01110, 0b10001, 0b10001, 0b10001, 0b10001, 0b01110, 0b00000]),
        'w' => Some(&[0b10001, 0b10001, 0b10101, 0b10101, 0b11011, 0b10001, 0b00000]),
        'z' => Some(&[0b11111, 0b00010, 0b00100, 0b01000, 0b10000, 0b11111, 0b00000]),
        '!' => Some(&[0b00100, 0b00100, 0b00100, 0b00100, 0b00000, 0b00100, 0b00000]),
        '?' => Some(&[0b01110, 0b10001, 0b00010, 0b00100, 0b00000, 0b00100, 0b00000]),
        '~' => Some(&[0b00000, 0b00000, 0b01001, 0b10110, 0b00000, 0b00000, 0b00000]),
        '*' => Some(&[0b00000, 0b10101, 0b01110, 0b11111, 0b01110, 0b10101, 0b00000]),
        'r' => Some(&[0b11110, 0b10001, 0b10001, 0b11110, 0b10010, 0b10001, 0b00000]),
        'p' => Some(&[0b11110, 0b10001, 0b10001, 0b11110, 0b10000, 0b10000, 0b00000]),
        'u' => Some(&[0b10001, 0b10001, 0b10001, 0b10001, 0b10001, 0b01110, 0b00000]),
        'n' => Some(&[0b10001, 0b11001, 0b10101, 0b10101, 0b10011, 0b10001, 0b00000]),
        'y' => Some(&[0b10001, 0b10001, 0b01010, 0b00100, 0b00100, 0b00100, 0b00000]),
        'a' => Some(&[0b01110, 0b10001, 0b10001, 0b11111, 0b10001, 0b10001, 0b00000]),
        'h' => Some(&[0b10001, 0b10001, 0b10001, 0b11111, 0b10001, 0b10001, 0b00000]),
        'i' => Some(&[0b00100, 0b00000, 0b00100, 0b00100, 0b00100, 0b00100, 0b00000]),
        's' => Some(&[0b01111, 0b10000, 0b01110, 0b00001, 0b00001, 0b11110, 0b00000]),
        'c' => Some(&[0b01111, 0b10000, 0b10000, 0b10000, 0b10000, 0b01111, 0b00000]),
        't' => Some(&[0b11111, 0b00100, 0b00100, 0b00100, 0b00100, 0b00100, 0b00000]),
        _ => None,
    }
}

/// The letters, row by row from the top, each row read as a binary number.
pub proof fn lemma_letters()
    ensures
        glyph('m') == Some(seq![17u8, 27, 21, 21, 17, 17, 0]),
        glyph('e') == Some(seq![30u8, 16, 30, 16, 16, 30, 0]),
        glyph('o') == Some(seq![14u8, 17, 17, 17, 17, 14, 0]),
        glyph('w') == Some(seq![17u8, 17, 21, 21, 27, 17, 0]),
        glyph('z') == Some(seq![31u8, 2, 4, 8, 16, 31, 0]),
        glyph('!') == Some(seq![4u8, 4, 4, 4, 0, 4, 0]),
        glyph('?') == Some(seq![14u8, 17, 2, 4, 0, 4, 0]),
        glyph('~') == Some(seq![0u8, 0, 9, 22, 0, 0, 0]),
        glyph('*') == Some(seq![0u8, 21, 14, 31, 14, 21, 0]),
        glyph('r') == Some(seq![30u8, 17, 17, 30, 18, 17, 0]),
        glyph('p') == Some(seq![30u8, 17, 17, 30, 16, 16, 0]),
        glyph('u') == Some(seq![17u8, 17, 17, 17, 17, 14, 0]),
        glyph('n') == Some(seq![17u8, 25, 21, 21, 19, 17, 0]),
        glyph('y') == Some(seq![17u8, 17, 10, 4, 4, 4, 0]),
        glyph('a') == Some(seq![14u8, 17, 17, 31, 17, 17, 0]),
        glyph('h') == Some(seq![17u8, 17, 17, 31, 17, 17, 0]),
        glyph('i') == Some(seq![4u8, 0, 4, 4, 4, 4, 0]),
        glyph('s') == Some(seq![15u8, 16, 14, 1, 1, 30, 0]),
        glyph('c') == Some(seq![15u8, 16, 16, 16, 16, 15, 0]),
        glyph('t') == Some(seq![31u8, 4, 4, 4, 4, 4, 0]),
{
}

/// The characters that have a shape.
pub open spec fn alphabet() -> Seq<char> {
    seq![
        'm', 'e', 'o', 'w', 'z', '!', '?', '~', '*', 'r', 'p', 'u', 'n', 'y', 'a', 'h', 'i', 's',
        'c', 't',
    ]
}

/// Only these characters have a shape: seven rows, of which the last one is empty, in five
/// columns, with some ink.
pub proof fn lemma_alphabet(c: char)
    ensures
        glyph(c) is Some <==> alphabet().contains(c),
        glyph(c) is Some ==> {
            let rows = glyph(c)->0;
            &&& rows.len() == 7
            &&& forall|k: int| 0 <= k < 7 ==> #[trigger] rows[k] < 32
            &&& rows[6] == 0
            &&& rows[2] != 0
        },
{
    if glyph(c) is Some {
        lemma_place_in_alphabet(c);
    }
}

/// Where a character with a shape stands in the alphabet.
proof fn lemma_place_in_alphabet(c: char)
    requires
        glyph(c) is Some,
    ensures
        alphabet().contains(c),
{
    let s = alphabet();
    assert(s[0] == 'm' && s[1] == 'e' && s[2] == 'o' && s[3] == 'w' && s[4] == 'z' && s[5] == '!'
        && s[6] == '?' && s[7] == '~' && s[8] == '*' && s[9] == 'r' && s[10] == 'p' && s[11] == 'u'
        && s[12] == 'n' && s[13] == 'y' && s[14] == 'a' && s[15] == 'h' && s[16] == 'i' && s[17]
        == 's' && s[18] == 'c' && s[19] == 't');
}

/// Different characters have different shapes: a text can be read.
pub proof fn lemma_letters_differ(c: char, d: char)
    requires
        c != d,
        glyph(c) is Some,
        glyph(d) is Some,
    ensures
        glyph(c) != glyph(d),
{
    let (r, s) = (glyph(c)->0, glyph(d)->0);
    assert(r[0] != s[0] || r[1] != s[1] || r[2] != s[2] || r[3] != s[3] || r[4] != s[4] || r[5]
        != s[5]);
}

/// The bits of a byte, each worth twice the one before, make up the byte.
pub proof fn lemma_bits_make_byte(byte: u8)
    ensures
        byte == worth(byte, 0, 1) + worth(byte, 1, 2) + worth(byte, 2, 4) + worth(byte, 3, 8)
            + worth(byte, 4, 16) + worth(byte, 5, 32) + worth(byte, 6, 64) + worth(byte, 7, 128),
{
    assert(byte == (byte / 1) % 2 + 2 * ((byte / 2) % 2) + 4 * ((byte / 4) % 2) + 8 * ((byte / 8)
        % 2) + 16 * ((byte / 16) % 2) + 32 * ((byte / 32) % 2) + 64 * ((byte / 64) % 2) + 128 * ((
    byte / 128) % 2)) by (bit_vector);
    assert(bit(byte, 0) == ((byte / 1) % 2 == 1));
    assert(bit(byte, 1) == ((byte / 2) % 2 == 1));
    assert(bit(byte, 2) == ((byte / 4) % 2 == 1));
    assert(bit(byte, 3) == ((byte / 8) % 2 == 1));
    assert(bit(byte, 4) == ((byte / 16) % 2 == 1));
    assert(bit(byte, 5) == ((byte / 32) % 2 == 1));
    assert(bit(byte, 6) == ((byte / 64) % 2 == 1));
    assert(bit(byte, 7) == ((byte / 128) % 2 == 1));
}

/// What bit `n` adds to a byte if it is worth `w`.
pub open spec fn worth(byte: u8, n: int, w: int) -> int {
    if bit(byte, n) {
        w
    } else {
        0
    }
}

} // verus!
