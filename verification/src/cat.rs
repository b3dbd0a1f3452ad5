//! The cat: where it is, what it does, and which picture shows it.
use crate::float::clamped;
use crate::float::difference;
use crate::float::greater;
use crate::float::product;
use crate::float::root;
use crate::float::signed;
use crate::float::sum;
use crate::float::truncated;
use crate::float::F32;
use crate::frame::CAT_X_OFFSET;
use crate::frame::CAT_Y_OFFSET;
use crate::moments::moment;
use crate::moments::moment_quirk;
use crate::moments::moment_text;
use crate::moments::MOMENT_COUNT;
use crate::rng::next_u32;
use crate::rng::xorshift;
use crate::sprites::Sprite;
use crate::sprites::SpriteSheet;
use vstd::prelude::*;

verus! {

/// The cursor must be within this distance for a cat at rest to notice it: 150.
#[verifier::allow_in_spec]
pub fn chase_radius() -> F32
    returns
        (F32 { bits: 0x4316_0000 }),
{
    F32 { bits: 0x4316_0000 }
}

/// How far the cursor must move in one tick to count as moving: 2.
#[verifier::allow_in_spec]
pub fn move_threshold() -> F32
    returns
        (F32 { bits: 0x4000_0000 }),
{
    F32 { bits: 0x4000_0000 }
}

/// How far away the cursor must be for the cat to turn towards it: 1.
#[verifier::allow_in_spec]
pub fn turn_threshold() -> F32
    returns
        (F32 { bits: 0x3f80_0000 }),
{
    F32 { bits: 0x3f80_0000 }
}

/// How often one offset must be longer than the other to make the direction a straight one: 2.
#[verifier::allow_in_spec]
pub fn straight_ratio() -> F32
    returns
        (F32 { bits: 0x4000_0000 }),
{
    F32 { bits: 0x4000_0000 }
}

/// The part of its way that the cat runs in one tick: 0.3.
#[verifier::allow_in_spec]
pub fn easing() -> F32
    returns
        (F32 { bits: 0x3e99_999a }),
{
    F32 { bits: 0x3e99_999a }
}

/// The side of the cat as a number: 32.
#[verifier::allow_in_spec]
pub fn cat_side() -> F32
    returns
        (F32 { bits: 0x4200_0000 }),
{
    F32 { bits: 0x4200_0000 }
}

/// Zero.
#[verifier::allow_in_spec]
pub fn zero() -> F32
    returns
        (F32 { bits: 0 }),
{
    F32 { bits: 0 }
}

/// Ticks without movement after which the cat sits down.
pub const SIT_AFTER: u32 = 3;

/// Ticks without movement after which the cat washes.
pub const WASH_AFTER: u32 = 10;

/// Ticks without movement after which the cat sleeps.
pub const SLEEP_AFTER: u32 = 20;

/// What the cat is doing.
#[derive(Clone, Copy, Debug, PartialEq, Eq, Structural)]
pub enum CatState {
    Chasing,
    Sitting,
    Washing,
    Sleeping,
}

/// The direction that the cat faces.
#[derive(Clone, Copy, Debug, PartialEq, Eq, Structural)]
pub enum Dir {
    N,
    NE,
    E,
    SE,
    S,
    SW,
    W,
    NW,
}

/// Everything that the picture on the screen depends on. The margins place the upper left
/// corner of the frame, so that the cat in it stands at its own position.
#[derive(Clone, Copy, Debug)]
pub struct DrawState {
    pub margin_top: i32,
    pub margin_left: i32,
    pub sprite: &'static [u8; 128],
    pub mask: &'static [u8; 128],
    pub bubble_text: &'static str,
}

/// A cat.
#[derive(Clone, Copy, Debug)]
pub struct Cat {
    /// Left edge of the cat in its area.
    pub win_x: F32,
    /// Upper edge of the cat in its area.
    pub win_y: F32,
    /// Where the cursor was at the last tick.
    pub last_cursor: (F32, F32),
    /// The direction that the cat faces.
    pub dir: Dir,
    /// Changes at every tick, to choose between the two pictures of a pose.
    pub frame: bool,
    /// Ticks since the cursor last moved.
    pub idle_ticks: u32,
    /// Whether the cat was told to stay where it is.
    pub frozen: bool,
    /// Idle ticks until the next moment.
    pub next_moment_in: u32,
    /// Ticks left of the present moment.
    pub moment_ticks_remaining: u32,
    /// The present moment, if there is one.
    pub active_moment: Option<usize>,
    /// What was last reported to be drawn; nothing, to have the next tick report.
    pub last_drawn: Option<DrawState>,
}

impl DrawState {
    /// Whether two states show the same picture at the same place.
    pub open spec fn same(self, other: DrawState) -> bool {
        &&& self.margin_top == other.margin_top
        &&& self.margin_left == other.margin_left
        &&& self.sprite@ == other.sprite@
        &&& self.mask@ == other.mask@
        &&& self.bubble_text@ == other.bubble_text@
    }

    /// Whether two states show the same picture at the same place.
    pub fn same_frame(&self, other: &DrawState) -> (r: bool)
        ensures
            r == self.same(*other),
    {
        self.margin_top == other.margin_top && self.margin_left == other.margin_left && same_bytes(
            self.sprite,
            other.sprite,
        ) && same_bytes(self.mask, other.mask) && same_text(self.bubble_text, other.bubble_text)
    }
}

/// Whether two bitmaps are equal.
fn same_bytes(a: &[u8; 128], b: &[u8; 128]) -> (r: bool)
    ensures
        r == (a@ == b@),
{
    let mut i: usize = 0;
    while i < 128
        invariant
            i <= 128,
            forall|k: int| 0 <= k < i ==> a@[k] == b@[k],
        decreases 128 - i,
    {
        if a[i] != b[i] {
            return false;
        }
        i = i + 1;
    }
    assert(a@ =~= b@);
    true
}

/// Whether two texts are equal.
fn same_text(a: &str, b: &str) -> (r: bool)
    ensures
        r == (a@ == b@),
{
    let n: usize = a.unicode_len();
    if n != b.unicode_len() {
        return false;
    }
    let mut i: usize = 0;
    while i < n
        invariant
            i <= n == a@.len() == b@.len(),
            forall|k: int| 0 <= k < i ==> a@[k] == b@[k],
        decreases n - i,
    {
        if a.get_char(i) != b.get_char(i) {
            return false;
        }
        i = i + 1;
    }
    assert(a@ =~= b@);
    true
}

/// The direction of an offset, `dy` counting downwards. It is a straight one where one of the
/// two is more than twice as long as the other.
pub open spec fn direction(dx: F32, dy: F32) -> Dir {
    let adx = signed(false, dx.mag());
    let ady = signed(false, dy.mag());
    if product(ady, straight_ratio()).below(adx) {
        if zero().below(dx) {
            Dir::E
        } else {
            Dir::W
        }
    } else if product(adx, straight_ratio()).below(ady) {
        if zero().below(dy) {
            Dir::S
        } else {
            Dir::N
        }
    } else {
        match (zero().at_most(dx), dy.at_most(zero())) {
            (true, true) => Dir::NE,
            (false, true) => Dir::NW,
            (true, false) => Dir::SE,
            (false, false) => Dir::SW,
        }
    }
}

/// The direction of an offset, `dy` counting downwards.
pub fn dir_from_delta(dx: F32, dy: F32) -> (r: Dir)
    ensures
        r == direction(dx, dy),
{
    let adx: F32 = dx.abs();
    let ady: F32 = dy.abs();
    if ady.times(straight_ratio()).lt(adx) {
        if zero().lt(dx) {
            Dir::E
        } else {
            Dir::W
        }
    } else if adx.times(straight_ratio()).lt(ady) {
        if zero().lt(dy) {
            Dir::S
        } else {
            Dir::N
        }
    } else {
        match (zero().le(dx), dy.le(zero())) {
            (true, true) => Dir::NE,
            (false, true) => Dir::NW,
            (true, false) => Dir::SE,
            (false, false) => Dir::SW,
        }
    }
}

/// What a cat does after `idle` ticks without movement.
pub open spec fn state_after(idle: int) -> CatState {
    if idle >= SLEEP_AFTER {
        CatState::Sleeping
    } else if idle >= WASH_AFTER {
        CatState::Washing
    } else if idle >= SIT_AFTER {
        CatState::Sitting
    } else {
        CatState::Chasing
    }
}

impl Cat {
    /// A cat that has just appeared at `(win_x, win_y)`: facing east, awake, and silent.
    pub open spec fn appeared(win_x: F32, win_y: F32) -> Cat {
        Cat {
            win_x,
            win_y,
            last_cursor: (win_x, win_y),
            dir: Dir::E,
            frame: false,
            idle_ticks: 0,
            frozen: false,
            next_moment_in: 300,
            moment_ticks_remaining: 0,
            active_moment: None,
            last_drawn: None,
        }
    }

    /// A cat that has just appeared at the cursor, or as near to it as its area allows.
    pub open spec fn appeared_at(x: F32, y: F32, bounds: (F32, F32)) -> Cat {
        Cat::appeared(
            clamped(x, zero(), room(bounds.0)),
            clamped(y, zero(), room(bounds.1)),
        )
    }

    /// The cat after a click on it: frozen, or free again.
    pub open spec fn clicked(self) -> Cat {
        Cat { frozen: !self.frozen, ..self }
    }

    /// The distance of the cursor.
    pub open spec fn distance(self, x: F32, y: F32) -> F32 {
        let dx = difference(x, self.win_x);
        let dy = difference(y, self.win_y);
        root(sum(product(dx, dx), product(dy, dy)))
    }

    /// Whether the cat minds the cursor: a cat that is chasing always does, a cat at rest only
    /// within the chase radius.
    pub open spec fn minds(self, x: F32, y: F32) -> bool {
        self.idle_ticks < SIT_AFTER || self.distance(x, y).at_most(chase_radius())
    }

    /// Whether the cat sees the cursor move.
    pub open spec fn sees_move(self, x: F32, y: F32) -> bool {
        let mx = difference(x, self.last_cursor.0);
        let my = difference(y, self.last_cursor.1);
        self.minds(x, y) && (move_threshold().below(signed(false, mx.mag())) || move_threshold().below(
            signed(false, my.mag()),
        ))
    }

    /// The cat after it has looked at the cursor.
    pub open spec fn looked(self, x: F32, y: F32) -> Cat {
        Cat {
            last_cursor: (x, y),
            idle_ticks: if self.sees_move(x, y) {
                0
            } else {
                (self.idle_ticks + 1) as u32
            },
            ..self
        }
    }

    /// What the cat is doing. A frozen cat does not chase.
    pub open spec fn state(self) -> CatState {
        if self.frozen && self.idle_ticks < SIT_AFTER {
            state_after(SIT_AFTER as int)
        } else {
            state_after(self.idle_ticks as int)
        }
    }

    /// Whether a moment begins at this tick: none is left, the cat is idle, and the wait is over.
    pub open spec fn moment_begins(self) -> bool {
        self.moment_ticks_remaining == 0 && self.state() != CatState::Chasing
            && self.next_moment_in == 0
    }

    /// The cat one tick further in its moments, with random numbers from `rng` where one begins.
    pub open spec fn amused(self, rng: u32) -> Cat {
        let a = xorshift(rng);
        let b = xorshift(a);
        let c = xorshift(b);
        if self.moment_ticks_remaining > 0 {
            Cat { moment_ticks_remaining: (self.moment_ticks_remaining - 1) as u32, ..self }
        } else if self.state() == CatState::Chasing {
            Cat { active_moment: None, ..self }
        } else if self.next_moment_in == 0 {
            Cat {
                active_moment: Some((a % MOMENT_COUNT as u32) as usize),
                moment_ticks_remaining: (6 + b % 5) as u32,
                next_moment_in: (240 + c % 561) as u32,
                ..self
            }
        } else {
            Cat {
                active_moment: None,
                next_moment_in: (self.next_moment_in - 1) as u32,
                ..self
            }
        }
    }

    /// The generator after that: a beginning moment takes three numbers.
    pub open spec fn rng_after(self, rng: u32) -> u32 {
        if self.moment_begins() {
            xorshift(xorshift(xorshift(rng)))
        } else {
            rng
        }
    }
}

/// The greatest position of a cat in an area of this extent.
pub open spec fn room(extent: F32) -> F32 {
    greater(difference(extent, cat_side()), zero())
}

/// The position a tick later of a cat that runs towards the cursor.
pub open spec fn eased(position: F32, cursor: F32, extent: F32) -> F32 {
    clamped(
        sum(position, product(difference(cursor, position), easing())),
        zero(),
        room(extent),
    )
}

impl Cat {
    /// The cat after it has run towards the cursor.
    pub open spec fn chased(self, x: F32, y: F32, bounds: (F32, F32)) -> Cat {
        let dx = difference(x, self.win_x);
        let dy = difference(y, self.win_y);
        let turns = turn_threshold().below(signed(false, dx.mag())) || turn_threshold().below(
            signed(false, dy.mag()),
        );
        Cat {
            win_x: eased(self.win_x, x, bounds.0),
            win_y: eased(self.win_y, y, bounds.1),
            dir: if turns {
                direction(dx, dy)
            } else {
                self.dir
            },
            ..self
        }
    }

    /// The picture of the pose.
    pub open spec fn pose(self, sheet: SpriteSheet) -> Sprite {
        match self.state() {
            CatState::Sitting => sheet.sitting,
            CatState::Washing => if self.frame {
                sheet.washing_1
            } else {
                sheet.washing_2
            },
            CatState::Sleeping => if (self.idle_ticks / 4) % 2 == 0 {
                sheet.sleeping_1
            } else {
                sheet.sleeping_2
            },
            CatState::Chasing => match (self.dir, self.frame) {
                (Dir::E, true) => sheet.right_1,
                (Dir::E, false) => sheet.right_2,
                (Dir::W, true) => sheet.left_1,
                (Dir::W, false) => sheet.left_2,
                (Dir::N, true) => sheet.up_1,
                (Dir::N, false) => sheet.up_2,
                (Dir::S, true) => sheet.down_1,
                (Dir::S, false) => sheet.down_2,
                (Dir::NE, true) => sheet.ne_1,
                (Dir::NE, false) => sheet.ne_2,
                (Dir::NW, true) => sheet.nw_1,
                (Dir::NW, false) => sheet.nw_2,
                (Dir::SE, true) => sheet.se_1,
                (Dir::SE, false) => sheet.se_2,
                (Dir::SW, true) => sheet.sw_1,
                (Dir::SW, false) => sheet.sw_2,
            },
        }
    }

    /// What is to be seen of the cat: its pose, or what its moment puts in place of it.
    pub open spec fn shown(self, sheet: SpriteSheet) -> DrawState {
        let usual = self.pose(sheet);
        let sprite = match self.active_moment {
            Some(i) => match moment_quirk(sheet, i as int) {
                Some(quirk) => quirk,
                None => usual,
            },
            None => usual,
        };
        DrawState {
            margin_top: (truncated(self.win_y) - CAT_Y_OFFSET) as i32,
            margin_left: (truncated(self.win_x) - CAT_X_OFFSET) as i32,
            sprite: sprite.image,
            mask: sprite.mask,
            bubble_text: match self.active_moment {
                Some(i) => moment_text(i as int),
                None => "",
            },
        }
    }

    /// The cat after a tick, before its picture is reported.
    pub open spec fn moved(self, rng: u32, x: F32, y: F32, bounds: (F32, F32)) -> Cat {
        let amused = self.looked(x, y).amused(rng);
        let placed = if !self.frozen && self.minds(x, y) {
            amused.chased(x, y, bounds)
        } else {
            amused
        };
        Cat { frame: !self.frame, ..placed }
    }

    /// Whether a picture differs from the one that was reported last.
    pub open spec fn is_news(self, picture: DrawState) -> bool {
        match self.last_drawn {
            Some(last) => !last.same(picture),
            None => true,
        }
    }

    /// The cat after it has reported its picture, if that is a new one.
    pub open spec fn reported(self, picture: DrawState) -> Cat {
        if self.is_news(picture) {
            Cat { last_drawn: Some(picture), ..self }
        } else {
            self
        }
    }

    /// Whether the cat can be ticked: its tick counter, its moment's number and its margins
    /// must be in range.
    pub open spec fn tickable(self, x: F32, y: F32, bounds: (F32, F32)) -> bool {
        let placed = if !self.frozen && self.minds(x, y) {
            self.chased(x, y, bounds)
        } else {
            self
        };
        &&& self.sees_move(x, y) || self.idle_ticks < u32::MAX
        &&& self.moment_ticks_remaining > 0 && self.active_moment is Some
            ==> self.active_moment->0 < MOMENT_COUNT
        &&& truncated(placed.win_x) - CAT_X_OFFSET >= i32::MIN
        &&& truncated(placed.win_y) - CAT_Y_OFFSET >= i32::MIN
    }
}

/// The greatest position of a cat in an area of this extent.
pub fn room_in(extent: F32) -> (r: F32)
    ensures
        r == room(extent),
        zero().at_most(r),
{
    extent.minus(cat_side()).max(zero())
}

/// The position a tick later of a cat that runs towards the cursor.
fn ease(position: F32, cursor: F32, extent: F32) -> (r: F32)
    ensures
        r == eased(position, cursor, extent),
{
    let max: F32 = room_in(extent);
    position.plus(cursor.minus(position).times(easing())).clamp(zero(), max)
}

impl Cat {
    /// A cat that has just appeared at `(win_x, win_y)`: facing east, awake, and silent.
    pub fn new(win_x: F32, win_y: F32) -> (r: Cat)
        ensures
            r == Cat::appeared(win_x, win_y),
    {
        Cat {
            win_x,
            win_y,
            last_cursor: (win_x, win_y),
            dir: Dir::E,
            frame: false,
            idle_ticks: 0,
            frozen: false,
            next_moment_in: 300,
            moment_ticks_remaining: 0,
            active_moment: None,
            last_drawn: None,
        }
    }

    /// A cat that has just appeared at the cursor, or as near to it as its area allows.
    pub fn new_at(x: F32, y: F32, bounds: (F32, F32)) -> (r: Cat)
        ensures
            r == Cat::appeared_at(x, y, bounds),
    {
        Cat::new(x.clamp(zero(), room_in(bounds.0)), y.clamp(zero(), room_in(bounds.1)))
    }

    /// Takes a click: freezes the cat, or lets it go.
    pub fn click(&mut self)
        ensures
            *final(self) == old(self).clicked(),
    {
        self.frozen = !self.frozen;
    }

    /// Whether the cat minds the cursor.
    fn notices(&self, x: F32, y: F32) -> (r: bool)
        ensures
            r == self.minds(x, y),
    {
        let dx: F32 = x.minus(self.win_x);
        let dy: F32 = y.minus(self.win_y);
        let dist: F32 = dx.times(dx).plus(dy.times(dy)).sqrt();
        self.idle_ticks < SIT_AFTER || dist.le(chase_radius())
    }

    /// Whether the cat sees the cursor move.
    fn notices_move(&self, x: F32, y: F32) -> (r: bool)
        ensures
            r == self.sees_move(x, y),
    {
        self.notices(x, y) && (move_threshold().lt(x.minus(self.last_cursor.0).abs())
            || move_threshold().lt(y.minus(self.last_cursor.1).abs()))
    }

    /// Looks at the cursor: remembers where it is and counts the ticks since it moved.
    fn look(&mut self, x: F32, y: F32)
        requires
            old(self).sees_move(x, y) || old(self).idle_ticks < u32::MAX,
        ensures
            *final(self) == old(self).looked(x, y),
    {
        let seen: bool = self.notices_move(x, y);
        self.last_cursor = (x, y);
        if seen {
            self.idle_ticks = 0;
        } else {
            self.idle_ticks = self.idle_ticks + 1;
        }
    }

    /// What the cat is doing.
    pub fn activity(&self) -> (r: CatState)
        ensures
            r == self.state(),
    {
        let idle: u32 = if self.frozen && self.idle_ticks < SIT_AFTER {
            SIT_AFTER
        } else {
            self.idle_ticks
        };
        if idle >= SLEEP_AFTER {
            CatState::Sleeping
        } else if idle >= WASH_AFTER {
            CatState::Washing
        } else if idle >= SIT_AFTER {
            CatState::Sitting
        } else {
            CatState::Chasing
        }
    }

    /// Goes one tick further in the moments.
    pub fn amuse(&mut self, rng_state: &mut u32)
        ensures
            *final(self) == old(self).amused(*old(rng_state)),
            *final(rng_state) == old(self).rng_after(*old(rng_state)),
    {
        let state: CatState = self.activity();
        if self.moment_ticks_remaining > 0 {
            self.moment_ticks_remaining = self.moment_ticks_remaining - 1;
        } else {
            self.active_moment = None;
            if state != CatState::Chasing {
                if self.next_moment_in == 0 {
                    let idx: usize = (next_u32(rng_state) as usize) % MOMENT_COUNT;
                    self.active_moment = Some(idx);
                    self.moment_ticks_remaining = 6 + next_u32(rng_state) % 5;
                    self.next_moment_in = 240 + next_u32(rng_state) % 561;
                } else {
                    self.next_moment_in = self.next_moment_in - 1;
                }
            }
        }
    }

    /// Runs towards the cursor.
    fn chase(&mut self, x: F32, y: F32, bounds: (F32, F32))
        ensures
            *final(self) == old(self).chased(x, y, bounds),
    {
        let dx: F32 = x.minus(self.win_x);
        let dy: F32 = y.minus(self.win_y);
        if turn_threshold().lt(dx.abs()) || turn_threshold().lt(dy.abs()) {
            self.dir = dir_from_delta(dx, dy);
        }
        self.win_x = ease(self.win_x, x, bounds.0);
        self.win_y = ease(self.win_y, y, bounds.1);
    }

    /// The picture of the pose.
    fn pose_sprite(&self, sheet: &SpriteSheet) -> (r: Sprite)
        ensures
            r == self.pose(*sheet),
    {
        match self.activity() {
            CatState::Sitting => sheet.sitting,
            CatState::Washing => if self.frame {
                sheet.washing_1
            } else {
                sheet.washing_2
            },
            CatState::Sleeping => if (self.idle_ticks / 4) % 2 == 0 {
                sheet.sleeping_1
            } else {
                sheet.sleeping_2
            },
            CatState::Chasing => match (self.dir, self.frame) {
                (Dir::E, true) => sheet.right_1,
                (Dir::E, false) => sheet.right_2,
                (Dir::W, true) => sheet.left_1,
                (Dir::W, false) => sheet.left_2,
                (Dir::N, true) => sheet.up_1,
                (Dir::N, false) => sheet.up_2,
                (Dir::S, true) => sheet.down_1,
                (Dir::S, false) => sheet.down_2,
                (Dir::NE, true) => sheet.ne_1,
                (Dir::NE, false) => sheet.ne_2,
                (Dir::NW, true) => sheet.nw_1,
                (Dir::NW, false) => sheet.nw_2,
                (Dir::SE, true) => sheet.se_1,
                (Dir::SE, false) => sheet.se_2,
                (Dir::SW, true) => sheet.sw_1,
                (Dir::SW, false) => sheet.sw_2,
            },
        }
    }

    /// What is to be seen of the cat.
    pub fn picture(&self, sheet: &SpriteSheet) -> (r: DrawState)
        requires
            self.active_moment is Some ==> self.active_moment->0 < MOMENT_COUNT,
            truncated(self.win_x) - CAT_X_OFFSET >= i32::MIN,
            truncated(self.win_y) - CAT_Y_OFFSET >= i32::MIN,
        ensures
            r == self.shown(*sheet),
    {
        let mut sprite: Sprite = self.pose_sprite(sheet);
        let mut bubble_text: &'static str = "";
        if let Some(i) = self.active_moment {
            let now = moment(sheet, i);
            bubble_text = now.text;
            if let Some(quirk) = now.quirk {
                sprite = quirk;
            }
        }
        DrawState {
            margin_top: self.win_y.to_i32() - CAT_Y_OFFSET,
            margin_left: self.win_x.to_i32() - CAT_X_OFFSET,
            sprite: sprite.image,
            mask: sprite.mask,
            bubble_text,
        }
    }

    /// Whether the cat can be ticked: its tick counter, its moment's number and its margins
    /// must be in range.
    pub fn can_tick(&self, x: F32, y: F32, bounds: (F32, F32)) -> (r: bool)
        ensures
            r == self.tickable(x, y, bounds),
    {
        let mut placed: Cat = *self;
        if !self.frozen && self.notices(x, y) {
            placed.chase(x, y, bounds);
        }
        let counts: bool = self.idle_ticks < u32::MAX || self.notices_move(x, y);
        let known: bool = match self.active_moment {
            Some(i) => self.moment_ticks_remaining == 0 || i < MOMENT_COUNT,
            None => true,
        };
        counts && known && placed.win_x.to_i32() >= i32::MIN + CAT_X_OFFSET
            && placed.win_y.to_i32() >= i32::MIN + CAT_Y_OFFSET
    }
}

/// Ticks the cat once. The cursor is at `(cursor_x, cursor_y)` in the cat's area, whose extent
/// is `bounds`. Returns what is to be drawn, or nothing if that is what was drawn last.
pub fn tick(
    rng_state: &mut u32,
    cursor_x: F32,
    cursor_y: F32,
    bounds: (F32, F32),
    cat: &mut Cat,
    sheet: &SpriteSheet,
) -> (r: Option<DrawState>)
    requires
        old(cat).tickable(cursor_x, cursor_y, bounds),
    ensures
        ({
            let moved = old(cat).moved(*old(rng_state), cursor_x, cursor_y, bounds);
            let picture = moved.shown(*sheet);
            &&& *final(cat) == moved.reported(picture)
            &&& r == if moved.is_news(picture) {
                Some(picture)
            } else {
                None
            }
        }),
        *final(rng_state) == old(cat).looked(cursor_x, cursor_y).rng_after(*old(rng_state)),
{
    let near: bool = cat.notices(cursor_x, cursor_y);
    cat.look(cursor_x, cursor_y);
    cat.amuse(rng_state);
    if !cat.frozen && near {
        cat.chase(cursor_x, cursor_y, bounds);
    }
    cat.frame = !cat.frame;
    let picture: DrawState = cat.picture(sheet);
    let news: bool = match &cat.last_drawn {
        Some(last) => !last.same_frame(&picture),
        None => true,
    };
    if news {
        cat.last_drawn = Some(picture);
        Some(picture)
    } else {
        None
    }
}

} // verus!
