//! One cat for the whole desktop, driven by calls from outside.
use crate::cat::tick;
use crate::cat::Cat;
use crate::cat::DrawState;
use crate::float::nearest;
use crate::float::F32;
use crate::frame::frame;
use crate::frame::render_frame;
use crate::frame::CANVAS_H;
use crate::frame::CANVAS_W;
use crate::moments::lemma_moment_text_len;
use crate::sprites::SpriteSheet;
use vstd::prelude::*;

verus! {

/// The cat, once it has appeared, and the random generator.
#[derive(Clone, Copy, Debug)]
pub struct CatService {
    pub cat: Option<Cat>,
    pub rng_state: u32,
}

/// A monitor: its place on the desktop, and its extent.
#[derive(Clone, Copy, Debug, PartialEq, Eq, Structural)]
pub struct Monitor {
    pub x: i32,
    pub y: i32,
    pub w: i32,
    pub h: i32,
}

impl Monitor {
    /// The extent as the cat's area.
    pub open spec fn bounds(self) -> (F32, F32) {
        (nearest(self.w as int), nearest(self.h as int))
    }
}

impl CatService {
    /// The cat that the next tick is for: at the first tick, one that appears at the cursor.
    pub open spec fn cat_at(self, x: int, y: int, monitor: Monitor) -> Cat {
        match self.cat {
            Some(cat) => cat,
            None => Cat::appeared_at(
                nearest(x - monitor.x),
                nearest(y - monitor.y),
                monitor.bounds(),
            ),
        }
    }

    /// The cat after a tick, before it reports its picture.
    pub open spec fn moved(self, x: int, y: int, monitor: Monitor) -> Cat {
        self.cat_at(x, y, monitor).moved(
            self.rng_state,
            nearest(x - monitor.x),
            nearest(y - monitor.y),
            monitor.bounds(),
        )
    }

    /// Whether a tick can be served: the cursor's place on the monitor, the cat, and the place
    /// of a new picture on the desktop must be in range.
    pub open spec fn tickable(self, x: int, y: int, monitor: Monitor, sheet: SpriteSheet) -> bool {
        let cat = self.cat_at(x, y, monitor);
        let moved = self.moved(x, y, monitor);
        let picture = moved.shown(sheet);
        &&& i32::MIN <= x - monitor.x <= i32::MAX
        &&& i32::MIN <= y - monitor.y <= i32::MAX
        &&& cat.tickable(nearest(x - monitor.x), nearest(y - monitor.y), monitor.bounds())
        &&& moved.is_news(picture) ==> {
            &&& i32::MIN <= monitor.x + picture.margin_left <= i32::MAX
            &&& i32::MIN <= monitor.y + picture.margin_top <= i32::MAX
        }
    }

    /// A service whose cat has not appeared yet.
    pub fn new(seed: u32) -> (r: CatService)
        ensures
            r.cat is None,
            r.rng_state == seed,
    {
        CatService { cat: None, rng_state: seed }
    }

    /// The cat that the next tick is for.
    fn current(&self, local_x: F32, local_y: F32, bounds: (F32, F32)) -> (r: Cat)
        ensures
            r == match self.cat {
                Some(cat) => cat,
                None => Cat::appeared_at(local_x, local_y, bounds),
            },
    {
        match &self.cat {
            Some(cat) => *cat,
            None => Cat::new_at(local_x, local_y, bounds),
        }
    }

    /// Whether a tick can be served.
    pub fn can_tick(
        &self,
        x: i32,
        y: i32,
        monitor_x: i32,
        monitor_y: i32,
        monitor_w: i32,
        monitor_h: i32,
        sheet: &SpriteSheet,
    ) -> (r: bool)
        ensures
            r == self.tickable(
                x as int,
                y as int,
                (Monitor { x: monitor_x, y: monitor_y, w: monitor_w, h: monitor_h }),
                *sheet,
            ),
    {
        let (dx, dy) = match (x.checked_sub(monitor_x), y.checked_sub(monitor_y)) {
            (Some(dx), Some(dy)) => (dx, dy),
            _ => {
                return false;
            },
        };
        let local_x: F32 = F32::from_i32(dx);
        let local_y: F32 = F32::from_i32(dy);
        let bounds: (F32, F32) = (F32::from_i32(monitor_w), F32::from_i32(monitor_h));
        let mut cat: Cat = self.current(local_x, local_y, bounds);
        if !cat.can_tick(local_x, local_y, bounds) {
            return false;
        }
        let mut rng: u32 = self.rng_state;
        match tick(&mut rng, local_x, local_y, bounds, &mut cat, sheet) {
            Some(picture) => monitor_x.checked_add(picture.margin_left).is_some()
                && monitor_y.checked_add(picture.margin_top).is_some(),
            None => true,
        }
    }

    /// Serves a tick: the cursor is at `(x, y)` on the desktop, on the given monitor. Returns
    /// whether there is a new picture and, if so, where on the desktop it belongs, its size and
    /// its pixels.
    pub fn tick(
        &mut self,
        x: i32,
        y: i32,
        monitor_x: i32,
        monitor_y: i32,
        monitor_w: i32,
        monitor_h: i32,
        sheet: &SpriteSheet,
    ) -> (r: (bool, i32, i32, u32, u32, Vec<u8>))
        requires
            old(self).tickable(
                x as int,
                y as int,
                (Monitor { x: monitor_x, y: monitor_y, w: monitor_w, h: monitor_h }),
                *sheet,
            ),
        ensures
            ({
                let monitor = Monitor { x: monitor_x, y: monitor_y, w: monitor_w, h: monitor_h };
                let moved = old(self).moved(x as int, y as int, monitor);
                let picture = moved.shown(*sheet);
                let looked = old(self).cat_at(x as int, y as int, monitor).looked(
                    nearest(x - monitor_x),
                    nearest(y - monitor_y),
                );
                &&& final(self).cat == Some(moved.reported(picture))
                &&& final(self).rng_state == looked.rng_after(old(self).rng_state)
                &&& r.0 == moved.is_news(picture)
                &&& r.0 ==> {
                    &&& r.1 == monitor_x + picture.margin_left
                    &&& r.2 == monitor_y + picture.margin_top
                    &&& r.3 == CANVAS_W
                    &&& r.4 == CANVAS_H
                    &&& r.5@ == frame(picture.sprite@, picture.mask@, picture.bubble_text@)
                }
                &&& !r.0 ==> {
                    &&& r.1 == 0
                    &&& r.2 == 0
                    &&& r.3 == 0
                    &&& r.4 == 0
                    &&& r.5@ == Seq::<u8>::empty()
                }
            }),
    {
        let local_x: F32 = F32::from_i32(x - monitor_x);
        let local_y: F32 = F32::from_i32(y - monitor_y);
        let bounds: (F32, F32) = (F32::from_i32(monitor_w), F32::from_i32(monitor_h));
        let mut cat: Cat = self.current(local_x, local_y, bounds);
        let news: Option<DrawState> = tick(
            &mut self.rng_state,
            local_x,
            local_y,
            bounds,
            &mut cat,
            sheet,
        );
        self.cat = Some(cat);
        match news {
            Some(picture) => {
                let actor_x: i32 = monitor_x + picture.margin_left;
                let actor_y: i32 = monitor_y + picture.margin_top;
                proof {
                    lemma_shown_text_len(cat, *sheet);
                }
                let pixels: Vec<u8> = render_frame(
                    picture.sprite,
                    picture.mask,
                    picture.bubble_text,
                );
                (true, actor_x, actor_y, CANVAS_W, CANVAS_H, pixels)
            },
            None => (false, 0, 0, 0, 0, Vec::new()),
        }
    }

    /// Takes a click on the cat: freezes it, or lets it go. Before the cat has appeared,
    /// nothing happens.
    pub fn click(&mut self)
        ensures
            final(self).rng_state == old(self).rng_state,
            final(self).cat == match old(self).cat {
                Some(cat) => Some(cat.clicked()),
                None => None,
            },
    {
        if let Some(cat) = &mut self.cat {
            cat.click();
        }
    }
}

/// No bubble's text has more than nine characters.
pub proof fn lemma_shown_text_len(cat: Cat, sheet: SpriteSheet)
    ensures
        cat.shown(sheet).bubble_text@.len() <= 9,
{
    reveal_strlit("");
    match cat.active_moment {
        Some(i) => {
            lemma_moment_text_len(i as int);
        },
        None => {},
    }
}

} // verus!
