//! One cat for each monitor, of which only the one with the cursor is shown.
use crate::cat::tick;
use crate::cat::Cat;
use crate::cat::DrawState;
use crate::float::difference;
use crate::float::nearest;
use crate::float::sum;
use crate::float::F32;
use crate::search::first_where;
use crate::search::last_where;
use crate::search::lemma_first_where;
use crate::sprites::SpriteSheet;
use vstd::prelude::*;

verus! {

/// The left mouse button.
pub const BTN_LEFT: u32 = 0x110;

/// The width of a monitor that does not tell it.
pub const DEFAULT_WIDTH: i32 = 1920;

/// The height of a monitor that does not tell it.
pub const DEFAULT_HEIGHT: i32 = 1080;

/// A monitor's overlay surface with its cat.
#[derive(Clone, Copy, Debug)]
pub struct CatSurface {
    /// Identifies the monitor's protocol object.
    pub output: u32,
    /// Identifies the overlay surface.
    pub surface: u32,
    /// The monitor's number.
    pub output_id: u32,
    /// Whether the surface may be drawn on.
    pub configured: bool,
    /// Whether the cat is shown on this monitor.
    pub visible: bool,
    /// Where the monitor is on the desktop.
    pub logical_position: (i32, i32),
    /// The monitor's extent.
    pub logical_size: (F32, F32),
    /// The cat.
    pub state: Cat,
}

/// A way to tell which surface is meant.
#[derive(Clone, Copy, Debug, PartialEq, Eq, Structural)]
pub enum Handle {
    Output(u32),
    Surface(u32),
    OutputId(u32),
}

/// A pointer event: the button, if it is a press, and the surface that it is for.
#[derive(Clone, Copy, Debug, PartialEq, Eq, Structural)]
pub struct PointerEvent {
    pub press: Option<u32>,
    pub surface: u32,
}

/// What is to be done with a surface.
#[derive(Clone, Copy, Debug)]
pub enum Change {
    Draw(DrawState),
    Hide,
}

/// What is to be done with which surface.
#[derive(Clone, Copy, Debug)]
pub struct Action {
    pub surface: u32,
    pub change: Change,
}

/// All monitors.
#[derive(Debug)]
pub struct App {
    pub cats: Vec<CatSurface>,
    /// The number of the monitor with the cursor.
    pub active_output_id: Option<u32>,
    pub rng_state: u32,
    /// Whether there is a pointer to receive clicks from.
    pub has_pointer: bool,
}

impl CatSurface {
    /// Whether this surface is meant.
    pub open spec fn meant_by(self, handle: Handle) -> bool {
        match handle {
            Handle::Output(key) => self.output == key,
            Handle::Surface(key) => self.surface == key,
            Handle::OutputId(key) => self.output_id == key,
        }
    }

    /// Whether the cursor is on this monitor: its left and upper edges belong to it, its right
    /// and lower edges do not.
    pub open spec fn contains(self, x: F32, y: F32) -> bool {
        let left = nearest(self.logical_position.0 as int);
        let top = nearest(self.logical_position.1 as int);
        &&& left.at_most(x)
        &&& x.below(sum(left, self.logical_size.0))
        &&& top.at_most(y)
        &&& y.below(sum(top, self.logical_size.1))
    }

    /// The cursor's place on this monitor.
    pub open spec fn local(self, x: F32, y: F32) -> (F32, F32) {
        (
            difference(x, nearest(self.logical_position.0 as int)),
            difference(y, nearest(self.logical_position.1 as int)),
        )
    }

    /// Whether the cat is ticked while `active` is the monitor with the cursor.
    pub open spec fn is_active(self, active: Option<u32>) -> bool {
        self.configured && active == Some(self.output_id)
    }

    /// The cat after a tick, before it reports its picture.
    pub open spec fn moved(self, rng: u32, x: F32, y: F32) -> Cat {
        let at = self.local(x, y);
        self.state.moved(rng, at.0, at.1, self.logical_size)
    }

    /// Whether the cat can be ticked.
    pub open spec fn tickable(self, x: F32, y: F32) -> bool {
        let at = self.local(x, y);
        self.state.tickable(at.0, at.1, self.logical_size)
    }

    /// The surface after a step.
    pub open spec fn stepped(
        self,
        active: Option<u32>,
        rng: u32,
        x: F32,
        y: F32,
        sheet: SpriteSheet,
    ) -> CatSurface {
        if self.is_active(active) {
            let moved = self.moved(rng, x, y);
            CatSurface { state: moved.reported(moved.shown(sheet)), visible: true, ..self }
        } else if self.configured && self.visible {
            CatSurface {
                state: Cat { last_drawn: None, ..self.state },
                visible: false,
                ..self
            }
        } else {
            self
        }
    }

    /// The random generator after that step.
    pub open spec fn rng_after(self, active: Option<u32>, rng: u32, x: F32, y: F32) -> u32 {
        if self.is_active(active) {
            let at = self.local(x, y);
            self.state.looked(at.0, at.1).rng_after(rng)
        } else {
            rng
        }
    }

    /// What a step has to do with the surface, if anything.
    pub open spec fn action(
        self,
        active: Option<u32>,
        rng: u32,
        x: F32,
        y: F32,
        sheet: SpriteSheet,
    ) -> Option<Action> {
        if self.is_active(active) {
            let moved = self.moved(rng, x, y);
            let picture = moved.shown(sheet);
            if moved.is_news(picture) {
                Some(Action { surface: self.surface, change: Change::Draw(picture) })
            } else {
                None
            }
        } else if self.configured && self.visible {
            Some(Action { surface: self.surface, change: Change::Hide })
        } else {
            None
        }
    }
}

/// The surface of a monitor that has just appeared. Its cat stands at the cursor, or as near to
/// it as the monitor allows.
pub open spec fn spawned(
    output: u32,
    surface: u32,
    output_id: u32,
    logical_position: (i32, i32),
    logical_size: (F32, F32),
    cursor: (F32, F32),
) -> CatSurface {
    CatSurface {
        output,
        surface,
        output_id,
        configured: false,
        visible: true,
        logical_position,
        logical_size,
        state: Cat::appeared_at(
            difference(cursor.0, nearest(logical_position.0 as int)),
            difference(cursor.1, nearest(logical_position.1 as int)),
            logical_size,
        ),
    }
}

/// The random generator after the first `n` surfaces have been stepped.
pub open spec fn rng_at(
    cats: Seq<CatSurface>,
    n: int,
    active: Option<u32>,
    rng: u32,
    x: F32,
    y: F32,
) -> u32
    decreases n,
{
    if n <= 0 {
        rng
    } else {
        cats[n - 1].rng_after(active, rng_at(cats, n - 1, active, rng, x, y), x, y)
    }
}

/// The surfaces after a step.
pub open spec fn stepped_all(
    cats: Seq<CatSurface>,
    active: Option<u32>,
    rng: u32,
    x: F32,
    y: F32,
    sheet: SpriteSheet,
) -> Seq<CatSurface> {
    Seq::new(
        cats.len(),
        |k: int| cats[k].stepped(active, rng_at(cats, k, active, rng, x, y), x, y, sheet),
    )
}

/// What is to be done with the first `n` surfaces, in order.
pub open spec fn actions_of(
    cats: Seq<CatSurface>,
    n: int,
    active: Option<u32>,
    rng: u32,
    x: F32,
    y: F32,
    sheet: SpriteSheet,
) -> Seq<Action>
    decreases n,
{
    if n <= 0 {
        Seq::empty()
    } else {
        let before = actions_of(cats, n - 1, active, rng, x, y, sheet);
        match cats[n - 1].action(active, rng_at(cats, n - 1, active, rng, x, y), x, y, sheet) {
            Some(action) => before.push(action),
            None => before,
        }
    }
}

/// The surfaces after a pointer event: a press of the left button on a cat freezes it, or lets
/// it go.
pub open spec fn pressed(cats: Seq<CatSurface>, event: PointerEvent) -> Seq<CatSurface> {
    let k = first_where(cats, |c: CatSurface| c.meant_by(Handle::Surface(event.surface)));
    if event.press == Some(BTN_LEFT) && k < cats.len() {
        let cat = cats[k];
        cats.update(k, CatSurface { state: cat.state.clicked(), ..cat })
    } else {
        cats
    }
}

/// The surfaces after some pointer events.
pub open spec fn pressed_all(cats: Seq<CatSurface>, events: Seq<PointerEvent>) -> Seq<CatSurface>
    decreases events.len(),
{
    if events.len() == 0 {
        cats
    } else {
        pressed(pressed_all(cats, events.drop_last()), events.last())
    }
}

impl App {
    /// The number of the monitor with the cursor; where the cursor is on none, the last one
    /// that it was on.
    pub open spec fn active_for(self, x: F32, y: F32) -> Option<u32> {
        let k = first_where(self.cats@, |c: CatSurface| c.contains(x, y));
        if k < self.cats@.len() {
            Some(self.cats@[k].output_id)
        } else {
            self.active_output_id
        }
    }

    /// Whether a step can be made: each cat that it ticks can be ticked.
    pub open spec fn steppable(self, x: F32, y: F32) -> bool {
        forall|k: int|
            0 <= k < self.cats@.len() && (#[trigger] self.cats@[k]).is_active(self.active_for(x, y))
                ==> self.cats@[k].tickable(x, y)
    }
}

impl CatSurface {
    /// Whether this surface is meant.
    fn is_meant_by(&self, handle: Handle) -> (r: bool)
        ensures
            r == self.meant_by(handle),
    {
        match handle {
            Handle::Output(key) => self.output == key,
            Handle::Surface(key) => self.surface == key,
            Handle::OutputId(key) => self.output_id == key,
        }
    }

    /// Whether the cursor is on this monitor.
    pub fn has_cursor(&self, x: F32, y: F32) -> (r: bool)
        ensures
            r == self.contains(x, y),
    {
        let left: F32 = F32::from_i32(self.logical_position.0);
        let top: F32 = F32::from_i32(self.logical_position.1);
        left.le(x) && x.lt(left.plus(self.logical_size.0)) && top.le(y) && y.lt(
            top.plus(self.logical_size.1),
        )
    }

    /// The cursor's place on this monitor.
    fn local_cursor(&self, x: F32, y: F32) -> (r: (F32, F32))
        ensures
            r == self.local(x, y),
    {
        (
            x.minus(F32::from_i32(self.logical_position.0)),
            y.minus(F32::from_i32(self.logical_position.1)),
        )
    }

    /// Hides the cat. Whatever it looks like when it is shown again, it is to be drawn.
    pub fn conceal(&mut self)
        ensures
            *final(self) == (CatSurface {
                state: Cat { last_drawn: None, ..old(self).state },
                visible: false,
                ..*old(self)
            }),
    {
        self.state.last_drawn = None;
        self.visible = false;
    }
}

/// The surface of a monitor that has just appeared.
pub fn spawn_cat_surface(
    output: u32,
    surface: u32,
    output_id: u32,
    logical_position: (i32, i32),
    logical_size: (F32, F32),
    init_cursor: (F32, F32),
) -> (r: CatSurface)
    ensures
        r == spawned(output, surface, output_id, logical_position, logical_size, init_cursor),
{
    let x: F32 = init_cursor.0.minus(F32::from_i32(logical_position.0));
    let y: F32 = init_cursor.1.minus(F32::from_i32(logical_position.1));
    CatSurface {
        output,
        surface,
        output_id,
        configured: false,
        visible: true,
        logical_position,
        logical_size,
        state: Cat::new_at(x, y, logical_size),
    }
}

/// Ticks the cat of the monitor with the cursor, which is at `(local_x, local_y)` on it.
/// Returns what is to be drawn, if anything.
pub fn tick_active(
    rng_state: &mut u32,
    local_x: F32,
    local_y: F32,
    cat: &mut CatSurface,
    sheet: &SpriteSheet,
) -> (r: Option<DrawState>)
    requires
        old(cat).state.tickable(local_x, local_y, old(cat).logical_size),
    ensures
        ({
            let moved = old(cat).state.moved(
                *old(rng_state),
                local_x,
                local_y,
                old(cat).logical_size,
            );
            let picture = moved.shown(*sheet);
            &&& *final(cat) == (CatSurface { state: moved.reported(picture), ..*old(cat) })
            &&& r == if moved.is_news(picture) {
                Some(picture)
            } else {
                None
            }
        }),
        *final(rng_state) == old(cat).state.looked(local_x, local_y).rng_after(*old(rng_state)),
{
    let mut state: Cat = cat.state;
    let news: Option<DrawState> = tick(
        rng_state,
        local_x,
        local_y,
        cat.logical_size,
        &mut state,
        sheet,
    );
    cat.state = state;
    news
}

impl CatSurface {
    /// One step of the animation for this surface.
    fn step(
        &mut self,
        active: Option<u32>,
        rng_state: &mut u32,
        x: F32,
        y: F32,
        sheet: &SpriteSheet,
    ) -> (r: Option<Action>)
        requires
            old(self).is_active(active) ==> old(self).tickable(x, y),
        ensures
            *final(self) == old(self).stepped(active, *old(rng_state), x, y, *sheet),
            *final(rng_state) == old(self).rng_after(active, *old(rng_state), x, y),
            r == old(self).action(active, *old(rng_state), x, y, *sheet),
    {
        if !self.configured {
            return None;
        }
        if Some(self.output_id) == active {
            let at: (F32, F32) = self.local_cursor(x, y);
            let news: Option<DrawState> = tick_active(rng_state, at.0, at.1, self, sheet);
            self.visible = true;
            match news {
                Some(picture) => Some(
                    Action { surface: self.surface, change: Change::Draw(picture) },
                ),
                None => None,
            }
        } else if self.visible {
            self.conceal();
            Some(Action { surface: self.surface, change: Change::Hide })
        } else {
            None
        }
    }
}

impl App {
    /// No monitors yet.
    pub fn new(seed: u32) -> (r: App)
        ensures
            r.cats@ == Seq::<CatSurface>::empty(),
            r.active_output_id is None,
            r.rng_state == seed,
            !r.has_pointer,
    {
        App { cats: Vec::new(), active_output_id: None, rng_state: seed, has_pointer: false }
    }

    /// The index of the first surface that is meant; their number, if none is.
    fn find(&self, handle: Handle) -> (k: usize)
        ensures
            k == first_where(self.cats@, |c: CatSurface| c.meant_by(handle)),
            k <= self.cats@.len(),
    {
        let ghost p = |c: CatSurface| c.meant_by(handle);
        let mut k: usize = 0;
        while k < self.cats.len()
            invariant
                k <= self.cats@.len(),
                p == (|c: CatSurface| c.meant_by(handle)),
                forall|j: int| 0 <= j < k ==> !p(#[trigger] self.cats@[j]),
            decreases self.cats@.len() - k,
        {
            if self.cats[k].is_meant_by(handle) {
                proof {
                    lemma_first_where(self.cats@, p, k as int);
                }
                return k;
            }
            k = k + 1;
        }
        proof {
            lemma_first_where(self.cats@, p, k as int);
        }
        k
    }

    /// A monitor has appeared. One that does not tell its place is taken to be at the origin,
    /// and one that does not tell its extent to have the usual one.
    pub fn new_output(
        &mut self,
        output: u32,
        surface: u32,
        output_id: u32,
        logical_position: Option<(i32, i32)>,
        logical_size: Option<(i32, i32)>,
        init_cursor: (F32, F32),
    )
        ensures
            ({
                let position = match logical_position {
                    Some(p) => p,
                    None => (0, 0),
                };
                let size = match logical_size {
                    Some(s) => s,
                    None => (DEFAULT_WIDTH, DEFAULT_HEIGHT),
                };
                final(self).cats@ == old(self).cats@.push(
                    spawned(
                        output,
                        surface,
                        output_id,
                        position,
                        (nearest(size.0 as int), nearest(size.1 as int)),
                        init_cursor,
                    ),
                )
            }),
            final(self).active_output_id == old(self).active_output_id,
            final(self).rng_state == old(self).rng_state,
            final(self).has_pointer == old(self).has_pointer,
    {
        let position: (i32, i32) = match logical_position {
            Some(p) => p,
            None => (0, 0),
        };
        let size: (i32, i32) = match logical_size {
            Some(s) => s,
            None => (DEFAULT_WIDTH, DEFAULT_HEIGHT),
        };
        self.cats.push(
            spawn_cat_surface(
                output,
                surface,
                output_id,
                position,
                (F32::from_i32(size.0), F32::from_i32(size.1)),
                init_cursor,
            ),
        );
    }

    /// A monitor has changed. What it does not tell stays as it is.
    pub fn update_output(
        &mut self,
        output_id: u32,
        logical_position: Option<(i32, i32)>,
        logical_size: Option<(i32, i32)>,
    )
        ensures
            ({
                let before = old(self).cats@;
                let k = first_where(before, |c: CatSurface| c.meant_by(Handle::OutputId(output_id)));
                final(self).cats@ == if k < before.len() {
                    before.update(
                        k,
                        CatSurface {
                            logical_position: match logical_position {
                                Some(p) => p,
                                None => before[k].logical_position,
                            },
                            logical_size: match logical_size {
                                Some(s) => (nearest(s.0 as int), nearest(s.1 as int)),
                                None => before[k].logical_size,
                            },
                            ..before[k]
                        },
                    )
                } else {
                    before
                }
            }),
            final(self).active_output_id == old(self).active_output_id,
            final(self).rng_state == old(self).rng_state,
            final(self).has_pointer == old(self).has_pointer,
    {
        let k: usize = self.find(Handle::OutputId(output_id));
        if k < self.cats.len() {
            let mut cat: CatSurface = self.cats[k];
            if let Some(position) = logical_position {
                cat.logical_position = position;
            }
            if let Some(size) = logical_size {
                cat.logical_size = (F32::from_i32(size.0), F32::from_i32(size.1));
            }
            self.cats[k] = cat;
        }
    }

    /// Removes the surfaces that are meant. If the last one of them was on the monitor with the
    /// cursor, there is no such monitor any more.
    fn remove(&mut self, handle: Handle)
        ensures
            final(self).cats@ == old(self).cats@.filter(|c: CatSurface| !c.meant_by(handle)),
            final(self).active_output_id == match last_where(
                old(self).cats@,
                |c: CatSurface| c.meant_by(handle),
            ) {
                Some(cat) if old(self).active_output_id == Some(cat.output_id) => None,
                _ => old(self).active_output_id,
            },
            final(self).rng_state == old(self).rng_state,
            final(self).has_pointer == old(self).has_pointer,
    {
        let ghost before = self.cats@;
        let ghost keep = |c: CatSurface| !c.meant_by(handle);
        let ghost gone = |c: CatSurface| c.meant_by(handle);
        let mut kept: Vec<CatSurface> = Vec::new();
        let mut removed: Option<u32> = None;
        let mut k: usize = 0;
        proof {
            assert(before.take(0).filter(keep) =~= Seq::<CatSurface>::empty()) by {
                reveal(Seq::filter);
            }
        }
        while k < self.cats.len()
            invariant
                k <= self.cats@.len(),
                self.cats@ == before,
                keep == (|c: CatSurface| !c.meant_by(handle)),
                gone == (|c: CatSurface| c.meant_by(handle)),
                kept@ == before.take(k as int).filter(keep),
                removed == match last_where(before.take(k as int), gone) {
                    Some(cat) => Some(cat.output_id),
                    None => None,
                },
            decreases before.len() - k,
        {
            let cat: CatSurface = self.cats[k];
            proof {
                assert(before.take(k + 1).drop_last() =~= before.take(k as int));
                assert(before.take(k + 1).last() == cat);
                reveal(Seq::filter);
            }
            if cat.is_meant_by(handle) {
                removed = Some(cat.output_id);
            } else {
                kept.push(cat);
            }
            k = k + 1;
        }
        proof {
            assert(before.take(k as int) =~= before);
        }
        self.cats = kept;
        if let Some(id) = removed {
            if self.active_output_id == Some(id) {
                self.active_output_id = None;
            }
        }
    }

    /// A monitor has gone.
    pub fn output_destroyed(&mut self, output: u32)
        ensures
            final(self).cats@ == old(self).cats@.filter(
                |c: CatSurface| !c.meant_by(Handle::Output(output)),
            ),
            final(self).active_output_id == match last_where(
                old(self).cats@,
                |c: CatSurface| c.meant_by(Handle::Output(output)),
            ) {
                Some(cat) if old(self).active_output_id == Some(cat.output_id) => None,
                _ => old(self).active_output_id,
            },
            final(self).rng_state == old(self).rng_state,
            final(self).has_pointer == old(self).has_pointer,
    {
        self.remove(Handle::Output(output));
    }

    /// A surface was closed.
    pub fn closed(&mut self, surface: u32)
        ensures
            final(self).cats@ == old(self).cats@.filter(
                |c: CatSurface| !c.meant_by(Handle::Surface(surface)),
            ),
            final(self).active_output_id == match last_where(
                old(self).cats@,
                |c: CatSurface| c.meant_by(Handle::Surface(surface)),
            ) {
                Some(cat) if old(self).active_output_id == Some(cat.output_id) => None,
                _ => old(self).active_output_id,
            },
            final(self).rng_state == old(self).rng_state,
            final(self).has_pointer == old(self).has_pointer,
    {
        self.remove(Handle::Surface(surface));
    }

    /// A surface may be drawn on from now on.
    pub fn configure(&mut self, surface: u32)
        ensures
            ({
                let before = old(self).cats@;
                let k = first_where(before, |c: CatSurface| c.meant_by(Handle::Surface(surface)));
                final(self).cats@ == if k < before.len() {
                    before.update(k, CatSurface { configured: true, ..before[k] })
                } else {
                    before
                }
            }),
            final(self).active_output_id == old(self).active_output_id,
            final(self).rng_state == old(self).rng_state,
            final(self).has_pointer == old(self).has_pointer,
    {
        let k: usize = self.find(Handle::Surface(surface));
        if k < self.cats.len() {
            let mut cat: CatSurface = self.cats[k];
            cat.configured = true;
            self.cats[k] = cat;
        }
    }

    /// Takes pointer events: each press of the left button on a cat freezes it, or lets it go.
    pub fn pointer_frame(&mut self, events: &[PointerEvent])
        ensures
            final(self).cats@ == pressed_all(old(self).cats@, events@),
            final(self).active_output_id == old(self).active_output_id,
            final(self).rng_state == old(self).rng_state,
            final(self).has_pointer == old(self).has_pointer,
    {
        let ghost before = self.cats@;
        let mut i: usize = 0;
        while i < events.len()
            invariant
                i <= events@.len(),
                self.cats@ == pressed_all(before, events@.take(i as int)),
                self.active_output_id == old(self).active_output_id,
                self.rng_state == old(self).rng_state,
                self.has_pointer == old(self).has_pointer,
            decreases events@.len() - i,
        {
            let event: PointerEvent = events[i];
            proof {
                assert(events@.take(i + 1).drop_last() =~= events@.take(i as int));
            }
            if let Some(button) = event.press {
                if button == BTN_LEFT {
                    let k: usize = self.find(Handle::Surface(event.surface));
                    if k < self.cats.len() {
                        let mut cat: CatSurface = self.cats[k];
                        cat.state.click();
                        self.cats[k] = cat;
                    }
                }
            }
            i = i + 1;
        }
        assert(events@.take(i as int) =~= events@);
    }

    /// The number of the monitor with the cursor, or of the last one that it was on.
    fn active_output(&self, x: F32, y: F32) -> (r: Option<u32>)
        ensures
            r == self.active_for(x, y),
    {
        let ghost p = |c: CatSurface| c.contains(x, y);
        let mut k: usize = 0;
        while k < self.cats.len()
            invariant
                k <= self.cats@.len(),
                p == (|c: CatSurface| c.contains(x, y)),
                forall|j: int| 0 <= j < k ==> !p(#[trigger] self.cats@[j]),
            decreases self.cats@.len() - k,
        {
            if self.cats[k].has_cursor(x, y) {
                proof {
                    lemma_first_where(self.cats@, p, k as int);
                }
                return Some(self.cats[k].output_id);
            }
            k = k + 1;
        }
        proof {
            lemma_first_where(self.cats@, p, k as int);
        }
        self.active_output_id
    }

    /// Whether a step can be made.
    pub fn can_step(&self, x: F32, y: F32) -> (r: bool)
        ensures
            r == self.steppable(x, y),
    {
        let active: Option<u32> = self.active_output(x, y);
        let mut k: usize = 0;
        while k < self.cats.len()
            invariant
                k <= self.cats@.len(),
                active == self.active_for(x, y),
                forall|j: int|
                    0 <= j < k && (#[trigger] self.cats@[j]).is_active(active)
                        ==> self.cats@[j].tickable(x, y),
            decreases self.cats@.len() - k,
        {
            let cat: CatSurface = self.cats[k];
            if cat.configured && Some(cat.output_id) == active {
                let at: (F32, F32) = cat.local_cursor(x, y);
                if !cat.state.can_tick(at.0, at.1, cat.logical_size) {
                    assert(self.cats@[k as int].is_active(active));
                    return false;
                }
            }
            k = k + 1;
        }
        true
    }

    /// One step of the animation, with the cursor at `(cursor_x, cursor_y)` on the desktop: the
    /// cat on the cursor's monitor is ticked, and the others are hidden. Returns what is to be
    /// done with the surfaces, in order.
    pub fn step(&mut self, cursor_x: F32, cursor_y: F32, sheet: &SpriteSheet) -> (r: Vec<Action>)
        requires
            old(self).steppable(cursor_x, cursor_y),
        ensures
            ({
                let before = old(self).cats@;
                let n = before.len() as int;
                let active = old(self).active_for(cursor_x, cursor_y);
                let rng = old(self).rng_state;
                &&& final(self).active_output_id == active
                &&& final(self).cats@ == stepped_all(
                    before,
                    active,
                    rng,
                    cursor_x,
                    cursor_y,
                    *sheet,
                )
                &&& final(self).rng_state == rng_at(before, n, active, rng, cursor_x, cursor_y)
                &&& r@ == actions_of(before, n, active, rng, cursor_x, cursor_y, *sheet)
            }),
            final(self).has_pointer == old(self).has_pointer,
    {
        let ghost before = self.cats@;
        let ghost rng = self.rng_state;
        let active: Option<u32> = self.active_output(cursor_x, cursor_y);
        self.active_output_id = active;
        let mut actions: Vec<Action> = Vec::new();
        let mut k: usize = 0;
        while k < self.cats.len()
            invariant
                k <= self.cats@.len() == before.len(),
                self.active_output_id == active,
                forall|j: int|
                    0 <= j < before.len() && (#[trigger] before[j]).is_active(active)
                        ==> before[j].tickable(cursor_x, cursor_y),
                self.has_pointer == old(self).has_pointer,
                self.rng_state == rng_at(before, k as int, active, rng, cursor_x, cursor_y),
                actions@ == actions_of(
                    before,
                    k as int,
                    active,
                    rng,
                    cursor_x,
                    cursor_y,
                    *sheet,
                ),
                forall|j: int| k <= j < before.len() ==> #[trigger] self.cats@[j] == before[j],
                forall|j: int|
                    0 <= j < k ==> #[trigger] self.cats@[j] == before[j].stepped(
                        active,
                        rng_at(before, j, active, rng, cursor_x, cursor_y),
                        cursor_x,
                        cursor_y,
                        *sheet,
                    ),
            decreases before.len() - k,
        {
            let mut cat: CatSurface = self.cats[k];
            assert(cat == before[k as int]);
            let action: Option<Action> = cat.step(
                active,
                &mut self.rng_state,
                cursor_x,
                cursor_y,
                sheet,
            );
            match action {
                Some(action) => {
                    actions.push(action);
                },
                None => {},
            }
            self.cats[k] = cat;
            k = k + 1;
        }
        assert(self.cats@ =~= stepped_all(before, active, rng, cursor_x, cursor_y, *sheet));
        actions
    }

    /// A seat has gained a capability. Returns whether a pointer is to be bound: there was none.
    pub fn new_capability(&mut self, is_pointer: bool) -> (bind: bool)
        ensures
            bind == (is_pointer && !old(self).has_pointer),
            final(self).has_pointer == (old(self).has_pointer || is_pointer),
            final(self).cats == old(self).cats,
            final(self).active_output_id == old(self).active_output_id,
            final(self).rng_state == old(self).rng_state,
    {
        if is_pointer && !self.has_pointer {
            self.has_pointer = true;
            true
        } else {
            false
        }
    }

    /// A seat has lost a capability. Returns whether the pointer is to be released.
    pub fn remove_capability(&mut self, is_pointer: bool) -> (release: bool)
        ensures
            release == (is_pointer && old(self).has_pointer),
            final(self).has_pointer == (old(self).has_pointer && !is_pointer),
            final(self).cats == old(self).cats,
            final(self).active_output_id == old(self).active_output_id,
            final(self).rng_state == old(self).rng_state,
    {
        if is_pointer && self.has_pointer {
            self.has_pointer = false;
            true
        } else {
            false
        }
    }
}

} // verus!
