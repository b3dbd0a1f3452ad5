//! What the cat says and does now and then while it is idle.
use crate::font::glyph;
use crate::sprites::Sprite;
use crate::sprites::SpriteSheet;
use vstd::prelude::*;

verus! {

/// The number of moments.
pub const MOMENT_COUNT: usize = 12;

/// A moment: what the cat says, and the picture that it shows instead of its usual one. Without
/// a text there is no bubble.
#[derive(Clone, Copy, Debug)]
pub struct Moment {
    pub text: &'static str,
    pub quirk: Option<Sprite>,
}

/// What the cat says in moment `i`.
pub open spec fn moment_text(i: int) -> &'static str {
    if i == 0 {
        "meow"
    } else if i == 1 {
        "meow?"
    } else if i == 2 {
        "meow!"
    } else if i == 3 {
        "mrow"
    } else if i == 4 {
        "purrr~"
    } else if i == 5 {
        "nya~"
    } else if i == 6 {
        "mew"
    } else if i == 7 {
        "zzz"
    } else if i == 8 {
        "hiss!"
    } else if i == 9 {
        "?!"
    } else if i == 10 {
        "*stretch*"
    } else {
        ""
    }
}

/// The picture that the cat shows in moment `i`, if it is a special one.
pub open spec fn moment_quirk(sheet: SpriteSheet, i: int) -> Option<Sprite> {
    if i == 10 {
        Some(sheet.stretch)
    } else if i == 11 {
        Some(sheet.tailflick)
    } else {
        None
    }
}

/// Moment `i`.
pub fn moment(sheet: &SpriteSheet, i: usize) -> (r: Moment)
    requires
        i < MOMENT_COUNT,
    ensures
        r.text == moment_text(i as int),
        r.quirk == moment_quirk(*sheet, i as int),
{
    match i {
        0 => Moment { text: "meow", quirk: None },
        1 => Moment { text: "meow?", quirk: None },
        2 => Moment { text: "meow!", quirk: None },
        3 => Moment { text: "mrow", quirk: None },
        4 => Moment { text: "purrr~", quirk: None },
        5 => Moment { text: "nya~", quirk: None },
        6 => Moment { text: "mew", quirk: None },
        7 => Moment { text: "zzz", quirk: None },
        8 => Moment { text: "hiss!", quirk: None },
        9 => Moment { text: "?!", quirk: None },
        10 => Moment { text: "*stretch*", quirk: Some(sheet.stretch) },
        _ => Moment { text: "", quirk: Some(sheet.tailflick) },
    }
}

/// No text of a moment has more than nine characters.
pub proof fn lemma_moment_text_len(i: int)
    ensures
        moment_text(i)@.len() <= 9,
{
    reveal_strlit("meow");
    reveal_strlit("meow?");
    reveal_strlit("meow!");
    reveal_strlit("mrow");
    reveal_strlit("purrr~");
    reveal_strlit("nya~");
    reveal_strlit("mew");
    reveal_strlit("zzz");
    reveal_strlit("hiss!");
    reveal_strlit("?!");
    reveal_strlit("*stretch*");
    reveal_strlit("");
}

/// The font has every character of every moment's text.
pub proof fn lemma_moment_text_in_font(i: int, k: int)
    requires
        0 <= k < moment_text(i)@.len(),
    ensures
        glyph(moment_text(i)@[k]) is Some,
{
    reveal_strlit("meow");
    reveal_strlit("meow?");
    reveal_strlit("meow!");
    reveal_strlit("mrow");
    reveal_strlit("purrr~");
    reveal_strlit("nya~");
    reveal_strlit("mew");
    reveal_strlit("zzz");
    reveal_strlit("hiss!");
    reveal_strlit("?!");
    reveal_strlit("*stretch*");
    reveal_strlit("");
}

} // verus!
