//! The cat's pictures.
use vstd::prelude::*;

verus! {

/// A picture of the cat: a bitmap of 32 by 32 pixels, and the mask of the pixels that belong to
/// the cat. Each row has four bytes, the leftmost pixel in the least significant bit.
#[derive(Clone, Copy, Debug)]
pub struct Sprite {
    pub image: &'static [u8; 128],
    pub mask: &'static [u8; 128],
}

/// A picture for each pose; two for each pose that moves.
#[derive(Clone, Copy, Debug)]
pub struct SpriteSheet {
    pub sitting: Sprite,
    pub washing_1: Sprite,
    pub washing_2: Sprite,
    pub sleeping_1: Sprite,
    pub sleeping_2: Sprite,
    pub right_1: Sprite,
    pub right_2: Sprite,
    pub left_1: Sprite,
    pub left_2: Sprite,
    pub up_1: Sprite,
    pub up_2: Sprite,
    pub down_1: Sprite,
    pub down_2: Sprite,
    pub ne_1: Sprite,
    pub ne_2: Sprite,
    pub nw_1: Sprite,
    pub nw_2: Sprite,
    pub se_1: Sprite,
    pub se_2: Sprite,
    pub sw_1: Sprite,
    pub sw_2: Sprite,
    pub stretch: Sprite,
    pub tailflick: Sprite,
}

} // verus!
