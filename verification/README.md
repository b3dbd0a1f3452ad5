# oneko

A pixel-art cat that chases the cursor around the desktop. When the cursor rests, the cat sits
down, washes and falls asleep; now and then it says something. A click freezes it, another one
lets it go.

`src/` is a library verified with Verus: everything the cat does and looks like. `app/` connects
it to a desktop. Without an argument the program draws the cat itself, on an overlay surface for
each monitor of a Wayland compositor (the cursor comes from `hyprctl cursorpos`). With the
argument `daemon` it serves the cat over D-Bus to a GNOME Shell extension. Both read the cat's
pictures from the directory that `ONEKO_SPRITES` names: for each field of `SpriteSheet` a bitmap
`<name>.bin` and a mask `<name>_mask.bin`, 128 bytes each.

| Module | What it holds |
| --- | --- |
| `cat` | one cat: its state, one tick of the animation, what is to be drawn |
| `moments`, `sprites` | what it says and shows now and then; its pictures |
| `frame`, `text`, `font`, `canvas` | pixels: the frame, the speech bubble, letters, drawing |
| `desktop` | one cat for each monitor, and which of them is shown |
| `service` | one cat for the whole desktop, driven by calls |
| `pointer` | the text that tells where the cursor is |
| `rng`, `search` | random numbers; first and last elements |
| `float`, `rounding`, `precision` | single-precision arithmetic on encodings, and what it promises |
| `laws` | what holds of the cat, its pictures and its monitors whatever happens |

## Numbers

Positions are single-precision numbers. `float::F32` holds the encoding of one and computes with
integers, so that every step of the cat's way is proved, to the last bit: a sum, product or root
is the exact one, rounded once to the nearest number. An operation without a result gives one
fixed NaN.

## What must hold of the input

The functions that tick a cat ask for counters and coordinates in range. `Cat::can_tick`,
`CatService::can_tick` and `App::can_step` tell whether they are. The laws say when a cat, or all
cats of a desktop, can be ticked again: whatever the cursor does, as long as its position is not
NaN and no cat has been idle for `u32::MAX` ticks.
