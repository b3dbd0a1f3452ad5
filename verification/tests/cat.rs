use oneko::cat::{
    cat_side, chase_radius, dir_from_delta, easing, move_threshold, room_in, straight_ratio, tick,
    turn_threshold, zero, Cat, CatState, Dir, DrawState,
};
use oneko::float::F32;
use oneko::moments::{moment, MOMENT_COUNT};
use oneko::rng::next_u32;
use oneko::sprites::{Sprite, SpriteSheet};

fn num(x: f32) -> F32 {
    F32::from_bits(x.to_bits())
}

fn float(x: F32) -> f32 {
    f32::from_bits(x.to_bits())
}

// Pictures that are told apart by their first bytes.
fn picture(n: u8) -> Sprite {
    let mut image = [0u8; 128];
    let mut mask = [0u8; 128];
    image[0] = n;
    mask[127] = n;
    Sprite { image: Box::leak(Box::new(image)), mask: Box::leak(Box::new(mask)) }
}

fn sheet() -> SpriteSheet {
    SpriteSheet {
        sitting: picture(1),
        washing_1: picture(2),
        washing_2: picture(3),
        sleeping_1: picture(4),
        sleeping_2: picture(5),
        right_1: picture(6),
        right_2: picture(7),
        left_1: picture(8),
        left_2: picture(9),
        up_1: picture(10),
        up_2: picture(11),
        down_1: picture(12),
        down_2: picture(13),
        ne_1: picture(14),
        ne_2: picture(15),
        nw_1: picture(16),
        nw_2: picture(17),
        se_1: picture(18),
        se_2: picture(19),
        sw_1: picture(20),
        sw_2: picture(21),
        stretch: picture(22),
        tailflick: picture(23),
    }
}

fn shown(draw: &DrawState) -> u8 {
    assert_eq!(draw.sprite[0], draw.mask[127]);
    draw.sprite[0]
}

// Ticks a cat that stands still under a cursor that stands still.
fn rest(cat: &mut Cat, rng: &mut u32, sheet: &SpriteSheet) -> Option<DrawState> {
    let (x, y) = cat.last_cursor;
    tick(rng, x, y, (num(1920.0), num(1080.0)), cat, sheet)
}

#[test]
fn constants_are_the_numbers_they_say() {
    assert_eq!(float(chase_radius()), 150.0);
    assert_eq!(float(move_threshold()), 2.0);
    assert_eq!(float(turn_threshold()), 1.0);
    assert_eq!(float(straight_ratio()), 2.0);
    assert_eq!(float(easing()), 0.3);
    assert_eq!(float(cat_side()), 32.0);
    assert_eq!(zero().to_bits(), 0.0f32.to_bits());
}

#[test]
fn new_cats_are_awake_and_silent() {
    let cat = Cat::new(num(3.0), num(4.5));
    assert_eq!((float(cat.win_x), float(cat.win_y)), (3.0, 4.5));
    assert_eq!((float(cat.last_cursor.0), float(cat.last_cursor.1)), (3.0, 4.5));
    assert_eq!(cat.dir, Dir::E);
    assert!(!cat.frame && !cat.frozen);
    assert_eq!((cat.idle_ticks, cat.next_moment_in, cat.moment_ticks_remaining), (0, 300, 0));
    assert!(cat.active_moment.is_none() && cat.last_drawn.is_none());
    assert_eq!(cat.activity(), CatState::Chasing);
}

#[test]
fn cats_appear_at_the_cursor_or_near_it() {
    let bounds = (num(100.0), num(20.0));
    let cat = Cat::new_at(num(50.0), num(-3.0), bounds);
    assert_eq!((float(cat.win_x), float(cat.win_y)), (50.0, 0.0));
    let cat = Cat::new_at(num(99.0), num(19.0), bounds);
    // There is no room at all in an area that is lower than the cat.
    assert_eq!((float(cat.win_x), float(cat.win_y)), (68.0, 0.0));
    assert_eq!(float(room_in(num(100.0))), 68.0);
    assert_eq!(float(room_in(num(20.0))), 0.0);
    assert_eq!(float(room_in(num(f32::NAN))), 0.0);
    assert_eq!(float(room_in(num(f32::INFINITY))), f32::INFINITY);
}

#[test]
fn directions() {
    let dir = |x: f32, y: f32| dir_from_delta(num(x), num(y));
    assert_eq!(dir(10.0, 0.0), Dir::E);
    assert_eq!(dir(-10.0, 4.9), Dir::W);
    assert_eq!(dir(0.0, 3.0), Dir::S);
    assert_eq!(dir(1.0, -3.0), Dir::N);
    assert_eq!(dir(5.0, -5.0), Dir::NE);
    assert_eq!(dir(-5.0, -5.0), Dir::NW);
    assert_eq!(dir(5.0, 5.0), Dir::SE);
    assert_eq!(dir(-5.0, 5.0), Dir::SW);
    // Exactly twice as long is not straight yet.
    assert_eq!(dir(10.0, 5.0), Dir::SE);
    assert_eq!(dir(10.000001, 5.0), Dir::E);
    assert_eq!(dir(-5.0, -10.0), Dir::NW);
    assert_eq!(dir(0.0, 0.0), Dir::NE);
    assert_eq!(dir(-0.0, -0.0), Dir::NE);
    assert_eq!(dir(f32::NAN, 0.0), Dir::NW);
    assert_eq!(dir(0.0, f32::NAN), Dir::SE);
    assert_eq!(dir(f32::INFINITY, 1.0e38), Dir::E);
}

#[test]
fn states_follow_each_other() {
    let mut cat = Cat::new(num(0.0), num(0.0));
    for idle in 0..40 {
        cat.idle_ticks = idle;
        let expected = match idle {
            0..=2 => CatState::Chasing,
            3..=9 => CatState::Sitting,
            10..=19 => CatState::Washing,
            _ => CatState::Sleeping,
        };
        cat.frozen = false;
        assert_eq!(cat.activity(), expected);
        cat.frozen = true;
        assert_eq!(cat.activity(), if idle < 3 { CatState::Sitting } else { expected });
    }
}

#[test]
fn one_tick_runs_three_tenths_of_the_way() {
    let sheet = sheet();
    let mut rng = 1;
    let mut cat = Cat::new(num(100.0), num(100.0));
    let bounds = (num(1920.0), num(1080.0));
    let draw = tick(&mut rng, num(200.0), num(50.0), bounds, &mut cat, &sheet).unwrap();
    assert_eq!((float(cat.win_x), float(cat.win_y)), (130.0, 85.0));
    assert_eq!((draw.margin_left, draw.margin_top), (110, 69));
    // Exactly 2 : 1 is diagonal.
    assert_eq!(cat.dir, Dir::NE);
    assert_eq!(shown(&draw), 14);
    assert_eq!(draw.bubble_text, "");
    assert!(cat.frame);
    assert_eq!(cat.idle_ticks, 0);
    let draw = tick(&mut rng, num(400.0), num(50.0), bounds, &mut cat, &sheet).unwrap();
    assert_eq!(float(cat.win_x), 130.0 + 270.0 * 0.3f32);
    assert_eq!(cat.dir, Dir::E);
    assert_eq!(shown(&draw), 7);
    assert_eq!(rng, 1);
}

#[test]
fn cat_does_not_turn_for_less_than_a_pixel() {
    let sheet = sheet();
    let mut rng = 1;
    let mut cat = Cat::new(num(100.0), num(100.0));
    cat.dir = Dir::S;
    tick(&mut rng, num(101.0), num(99.0), (num(500.0), num(500.0)), &mut cat, &sheet);
    assert_eq!(cat.dir, Dir::S);
    assert_eq!(float(cat.win_x), 100.0 + 0.3f32);
    tick(&mut rng, num(102.0), num(99.9), (num(500.0), num(500.0)), &mut cat, &sheet);
    assert_eq!(cat.dir, Dir::E);
}

#[test]
fn cat_never_leaves_its_area() {
    let sheet = sheet();
    let mut rng = 77;
    for (w, h) in [(1920.0f32, 1080.0f32), (32.0, 33.0), (10.0, -5.0), (100.5, 64.25)] {
        let bounds = (num(w), num(h));
        let mut cat = Cat::new_at(num(40.0), num(40.0), bounds);
        let (max_x, max_y) = ((w - 32.0).max(0.0), (h - 32.0).max(0.0));
        for _ in 0..400 {
            let x = num((next_u32(&mut rng) % 8000) as f32 / 2.0 - 1000.0);
            let y = num((next_u32(&mut rng) % 8000) as f32 / 2.0 - 1000.0);
            let (before_x, before_y) = (float(cat.win_x), float(cat.win_y));
            assert!(cat.can_tick(x, y, bounds));
            let mut other = 5;
            tick(&mut other, x, y, bounds, &mut cat, &sheet);
            let (now_x, now_y) = (float(cat.win_x), float(cat.win_y));
            assert!((0.0..=max_x).contains(&now_x) && (0.0..=max_y).contains(&now_y));
            // It comes nearer and does not run past the cursor.
            let (x, y) = (float(x), float(y));
            assert!(now_x >= before_x.min(x) && now_x <= before_x.max(x));
            assert!(now_y >= before_y.min(y) && now_y <= before_y.max(y));
        }
        // Not even for a cursor that is infinitely far away.
        tick(&mut rng, num(f32::INFINITY), num(f32::NEG_INFINITY), bounds, &mut cat, &sheet);
        cat.idle_ticks = 0;
        tick(&mut rng, num(f32::INFINITY), num(f32::NEG_INFINITY), bounds, &mut cat, &sheet);
        assert_eq!((float(cat.win_x), float(cat.win_y)), (max_x, 0.0));
    }
}

#[test]
fn cat_comes_back_into_an_area_that_shrank() {
    let sheet = sheet();
    let mut rng = 1;
    let mut cat = Cat::new_at(num(1500.0), num(900.0), (num(1920.0), num(1080.0)));
    tick(&mut rng, num(500.0), num(400.0), (num(800.0), num(600.0)), &mut cat, &sheet);
    assert_eq!((float(cat.win_x), float(cat.win_y)), (768.0, 568.0));
}

#[test]
fn resting_cat_ignores_a_far_cursor() {
    let sheet = sheet();
    let mut rng = 1;
    let bounds = (num(1920.0), num(1080.0));
    let mut cat = Cat::new(num(100.0), num(100.0));
    cat.idle_ticks = 3;
    // 151 pixels away.
    for k in 0..5 {
        tick(&mut rng, num(251.0 + k as f32 * 30.0), num(100.0), bounds, &mut cat, &sheet);
        assert_eq!(cat.idle_ticks, 4 + k);
        assert_eq!((float(cat.win_x), float(cat.win_y)), (100.0, 100.0));
        assert_eq!(cat.activity(), CatState::Sitting);
    }
    // 150 pixels away: 90 and 120 make a right triangle.
    tick(&mut rng, num(190.0), num(220.0), bounds, &mut cat, &sheet);
    assert_eq!(cat.idle_ticks, 0);
    assert_eq!((float(cat.win_x), float(cat.win_y)), (127.0, 136.0));
}

#[test]
fn chasing_cat_does_not_give_up() {
    let sheet = sheet();
    let mut rng = 1;
    let bounds = (num(100_000.0), num(1080.0));
    let mut cat = Cat::new(num(0.0), num(100.0));
    let mut last = 0.0;
    for k in 1..50 {
        let x = 2000.0 * k as f32;
        tick(&mut rng, num(x), num(100.0), bounds, &mut cat, &sheet);
        assert_eq!(cat.activity(), CatState::Chasing);
        assert!(float(cat.win_x) > last && x - float(cat.win_x) > 150.0);
        last = float(cat.win_x);
    }
}

#[test]
fn small_movements_do_not_count() {
    let sheet = sheet();
    let mut rng = 1;
    let bounds = (num(500.0), num(500.0));
    let mut cat = Cat::new(num(100.0), num(100.0));
    tick(&mut rng, num(102.0), num(98.0), bounds, &mut cat, &sheet);
    assert_eq!(cat.idle_ticks, 1);
    tick(&mut rng, num(102.0), num(100.5), bounds, &mut cat, &sheet);
    assert_eq!(cat.idle_ticks, 0);
}

#[test]
fn idle_cat_sits_washes_and_sleeps() {
    let sheet = sheet();
    let mut rng = 1;
    let mut cat = Cat::new(num(10.0), num(10.0));
    let mut pictures = Vec::new();
    for _ in 0..32 {
        pictures.push(rest(&mut cat, &mut rng, &sheet).map(|d| shown(&d)));
    }
    let mut expected = vec![Some(6), Some(7), Some(1)];
    expected.extend(vec![None; 6]);
    // Washing changes at every tick.
    expected.extend([3, 2, 3, 2, 3, 2, 3, 2, 3, 2].map(Some));
    // Sleeping changes every fourth tick: 20 / 4 is odd.
    expected.extend([Some(5), None, None, None, Some(4), None, None, None]);
    expected.extend([Some(5), None, None, None, Some(4)]);
    assert_eq!(pictures, expected);
    assert_eq!(cat.idle_ticks, 32);
    assert_eq!(cat.next_moment_in, 300 - 30);
}

#[test]
fn frozen_cat_stays_but_still_rests() {
    let sheet = sheet();
    let mut rng = 1;
    let bounds = (num(500.0), num(500.0));
    let mut cat = Cat::new(num(100.0), num(100.0));
    cat.click();
    assert!(cat.frozen);
    for k in 0..30 {
        let x = num(if k < 5 { 100.0 + 20.0 * k as f32 } else { 300.0 });
        tick(&mut rng, x, num(100.0), bounds, &mut cat, &sheet);
        assert_eq!((float(cat.win_x), float(cat.win_y)), (100.0, 100.0));
        assert_ne!(cat.activity(), CatState::Chasing);
    }
    assert_eq!(cat.activity(), CatState::Sleeping);
    cat.click();
    assert!(!cat.frozen);
    tick(&mut rng, num(120.0), num(100.0), bounds, &mut cat, &sheet);
    assert_eq!(float(cat.win_x), 106.0);
}

#[test]
fn second_click_undoes_the_first() {
    let mut cat = Cat::new(num(1.0), num(2.0));
    cat.idle_ticks = 7;
    cat.click();
    cat.click();
    assert!(!cat.frozen && cat.idle_ticks == 7 && float(cat.win_x) == 1.0);
}

#[test]
fn moments_begin_last_and_end() {
    let sheet = sheet();
    let mut rng = 1;
    let mut cat = Cat::new(num(10.0), num(10.0));
    cat.idle_ticks = 50;
    cat.next_moment_in = 0;
    let draw = rest(&mut cat, &mut rng, &sheet).unwrap();
    // The generator gives 270369, 67634689 and 2647435461.
    assert_eq!(cat.active_moment, Some(9));
    assert_eq!(cat.moment_ticks_remaining, 10);
    assert_eq!(cat.next_moment_in, 405);
    assert_eq!(rng, 2_647_435_461);
    assert_eq!(draw.bubble_text, "?!");
    let wait = cat.next_moment_in;
    for left in (0..10).rev() {
        rest(&mut cat, &mut rng, &sheet);
        assert_eq!(cat.moment_ticks_remaining, left);
        assert_eq!(cat.active_moment, Some(9));
        assert_eq!(cat.next_moment_in, wait);
    }
    let draw = rest(&mut cat, &mut rng, &sheet).unwrap();
    assert_eq!(draw.bubble_text, "");
    assert_eq!(cat.active_moment, None);
    assert_eq!(cat.next_moment_in, wait - 1);
}

#[test]
fn moments_wait_for_an_idle_cat() {
    let sheet = sheet();
    let mut rng = 1;
    let bounds = (num(5000.0), num(5000.0));
    let mut cat = Cat::new(num(10.0), num(10.0));
    cat.next_moment_in = 0;
    for k in 0..20 {
        tick(&mut rng, num(10.0 * k as f32), num(10.0), bounds, &mut cat, &sheet);
        cat.idle_ticks = 0;
        assert_eq!((cat.next_moment_in, cat.active_moment), (0, None));
    }
    assert_eq!(rng, 1);
    // One that has begun goes on while the cat chases, and its pictures too.
    cat.active_moment = Some(10);
    cat.moment_ticks_remaining = 2;
    let draw = tick(&mut rng, num(900.0), num(10.0), bounds, &mut cat, &sheet).unwrap();
    assert_eq!((shown(&draw), draw.bubble_text), (22, "*stretch*"));
    assert_eq!(cat.moment_ticks_remaining, 1);
}

#[test]
fn moment_lengths_stay_in_range() {
    let mut rng = 12345;
    let mut seen = [false; MOMENT_COUNT];
    for _ in 0..2000 {
        let mut cat = Cat::new(num(0.0), num(0.0));
        cat.idle_ticks = 5;
        cat.next_moment_in = 0;
        cat.amuse(&mut rng);
        assert!((6..=10).contains(&cat.moment_ticks_remaining));
        assert!((240..=800).contains(&cat.next_moment_in));
        seen[cat.active_moment.unwrap()] = true;
    }
    assert_eq!(seen, [true; MOMENT_COUNT]);
}

#[test]
fn table_of_moments() {
    let sheet = sheet();
    let texts: Vec<&str> = (0..MOMENT_COUNT).map(|i| moment(&sheet, i).text).collect();
    assert_eq!(
        texts,
        [
            "meow", "meow?", "meow!", "mrow", "purrr~", "nya~", "mew", "zzz", "hiss!", "?!",
            "*stretch*", ""
        ]
    );
    for i in 0..MOMENT_COUNT {
        let quirk = moment(&sheet, i).quirk.map(|q| q.image[0]);
        assert_eq!(quirk, if i == 10 { Some(22) } else if i == 11 { Some(23) } else { None });
        assert!(texts[i].chars().all(|c| oneko::font::glyph_for(c).is_some()));
    }
}

#[test]
fn same_picture_is_reported_once() {
    let sheet = sheet();
    let mut rng = 1;
    let mut cat = Cat::new(num(10.0), num(10.0));
    cat.idle_ticks = 4;
    assert!(rest(&mut cat, &mut rng, &sheet).is_some());
    assert!(rest(&mut cat, &mut rng, &sheet).is_none());
    cat.last_drawn = None;
    assert!(rest(&mut cat, &mut rng, &sheet).is_some());
    // Pictures are compared by what they show, not by where they are kept.
    let mut again = self::sheet();
    assert!(rest(&mut cat, &mut rng, &again).is_none());
    again.sitting = picture(99);
    assert_eq!(rest(&mut cat, &mut rng, &again).map(|d| shown(&d)), Some(99));
}

#[test]
fn pictures_differ_in_any_part() {
    let sheet = sheet();
    let mut cat = Cat::new(num(10.0), num(10.0));
    let base = cat.picture(&sheet);
    assert!(base.same_frame(&base));
    assert!(!base.same_frame(&DrawState { margin_top: 0, ..base }));
    assert!(!base.same_frame(&DrawState { margin_left: 0, ..base }));
    assert!(!base.same_frame(&DrawState { sprite: sheet.stretch.image, ..base }));
    assert!(!base.same_frame(&DrawState { mask: sheet.stretch.mask, ..base }));
    assert!(!base.same_frame(&DrawState { bubble_text: "mew", ..base }));
    assert!(!(DrawState { bubble_text: "mew", ..base })
        .same_frame(&DrawState { bubble_text: "meo", ..base }));
    cat.win_x = num(10.9);
    assert!(base.same_frame(&cat.picture(&sheet)));
}

#[test]
fn ticks_that_cannot_be_made() {
    let bounds = (num(500.0), num(500.0));
    let mut cat = Cat::new(num(10.0), num(10.0));
    cat.idle_ticks = u32::MAX;
    assert!(!cat.can_tick(num(10.0), num(10.0), bounds));
    assert!(cat.can_tick(num(60.0), num(10.0), bounds));
    assert!(!cat.can_tick(num(200.0), num(10.0), bounds));
    let mut cat = Cat::new(num(10.0), num(10.0));
    cat.active_moment = Some(12);
    assert!(cat.can_tick(num(10.0), num(10.0), bounds));
    cat.moment_ticks_remaining = 1;
    assert!(!cat.can_tick(num(10.0), num(10.0), bounds));
    let mut cat = Cat::new(num(-3.0e9), num(0.0));
    cat.frozen = true;
    assert!(!cat.can_tick(num(10.0), num(10.0), bounds));
    cat.frozen = false;
    assert!(cat.can_tick(num(10.0), num(10.0), bounds));
}

// The cat in plain floating-point numbers.
#[derive(Clone)]
struct Model {
    win: (f32, f32),
    last_cursor: (f32, f32),
    dir: Dir,
    frame: bool,
    idle_ticks: u32,
    frozen: bool,
    next_moment_in: u32,
    moment_ticks_remaining: u32,
    active_moment: Option<usize>,
    last: Option<(i32, i32, u8, &'static str)>,
}

fn model_dir(dx: f32, dy: f32) -> Dir {
    let (adx, ady) = (dx.abs(), dy.abs());
    if adx > ady * 2.0 {
        if dx > 0.0 { Dir::E } else { Dir::W }
    } else if ady > adx * 2.0 {
        if dy > 0.0 { Dir::S } else { Dir::N }
    } else {
        match (dx >= 0.0, dy <= 0.0) {
            (true, true) => Dir::NE,
            (false, true) => Dir::NW,
            (true, false) => Dir::SE,
            (false, false) => Dir::SW,
        }
    }
}

impl Model {
    fn tick(&mut self, rng: &mut u32, x: f32, y: f32, bounds: (f32, f32)) -> Option<(i32, i32, u8, &'static str)> {
        let dist = ((x - self.win.0).powi(2) + (y - self.win.1).powi(2)).sqrt();
        let near = self.idle_ticks < 3 || dist <= 150.0;
        let moved = near
            && ((x - self.last_cursor.0).abs() > 2.0 || (y - self.last_cursor.1).abs() > 2.0);
        self.last_cursor = (x, y);
        self.idle_ticks = if moved { 0 } else { self.idle_ticks + 1 };
        let idle = if self.frozen { self.idle_ticks.max(3) } else { self.idle_ticks };
        if self.moment_ticks_remaining > 0 {
            self.moment_ticks_remaining -= 1;
        } else {
            self.active_moment = None;
            if idle >= 3 {
                if self.next_moment_in == 0 {
                    self.active_moment = Some(next_u32(rng) as usize % 12);
                    self.moment_ticks_remaining = 6 + next_u32(rng) % 5;
                    self.next_moment_in = 240 + next_u32(rng) % 561;
                } else {
                    self.next_moment_in -= 1;
                }
            }
        }
        if !self.frozen && near {
            let (dx, dy) = (x - self.win.0, y - self.win.1);
            if dx.abs() > 1.0 || dy.abs() > 1.0 {
                self.dir = model_dir(dx, dy);
            }
            self.win.0 = (self.win.0 + dx * 0.3).clamp(0.0, (bounds.0 - 32.0).max(0.0));
            self.win.1 = (self.win.1 + dy * 0.3).clamp(0.0, (bounds.1 - 32.0).max(0.0));
        }
        self.frame = !self.frame;
        let second = !self.frame as u8;
        let mut sprite = match idle {
            0..=2 => {
                second
                    + match self.dir {
                        Dir::E => 6,
                        Dir::W => 8,
                        Dir::N => 10,
                        Dir::S => 12,
                        Dir::NE => 14,
                        Dir::NW => 16,
                        Dir::SE => 18,
                        Dir::SW => 20,
                    }
            }
            3..=9 => 1,
            10..=19 => 2 + second,
            _ => 4 + (self.idle_ticks / 4 % 2) as u8,
        };
        let mut text = "";
        if let Some(i) = self.active_moment {
            text = [
                "meow", "meow?", "meow!", "mrow", "purrr~", "nya~", "mew", "zzz", "hiss!", "?!",
                "*stretch*", "",
            ][i];
            if i >= 10 {
                sprite = 12 + i as u8;
            }
        }
        let now = (self.win.1 as i32 - 16, self.win.0 as i32 - 20, sprite, text);
        if self.last == Some(now) {
            None
        } else {
            self.last = Some(now);
            Some(now)
        }
    }
}

#[test]
fn long_runs_agree_with_floating_point() {
    let sheet = sheet();
    let mut dice = 4711;
    for round in 0..60 {
        let start = ((next_u32(&mut dice) % 1900) as f32, (next_u32(&mut dice) % 1000) as f32 / 3.0);
        let mut cat = Cat::new(num(start.0), num(start.1));
        let mut model = Model {
            win: start,
            last_cursor: start,
            dir: Dir::E,
            frame: false,
            idle_ticks: 0,
            frozen: false,
            next_moment_in: 300,
            moment_ticks_remaining: 0,
            active_moment: None,
            last: None,
        };
        if round % 3 == 0 {
            cat.next_moment_in = 5;
            model.next_moment_in = 5;
        }
        let bounds = if round % 4 == 0 { (333.3, 20.0) } else { (1920.0, 1080.0) };
        let (mut ours, mut theirs) = (round + 1, round + 1);
        let (mut x, mut y) = start;
        for _ in 0..500 {
            match next_u32(&mut dice) % 40 {
                0 => {
                    x = (next_u32(&mut dice) % 4000) as f32 - 1000.0;
                    y = (next_u32(&mut dice) % 2000) as f32 - 500.0;
                }
                1..=4 => {
                    x += (next_u32(&mut dice) % 700) as f32 / 10.0 - 35.0;
                    y += (next_u32(&mut dice) % 700) as f32 / 10.0 - 35.0;
                }
                5 => x = model.win.0 + 90.0 + (next_u32(&mut dice) % 3) as f32 * 1.0e-5,
                6 => y += (next_u32(&mut dice) % 5) as f32 - 2.0,
                7 if next_u32(&mut dice) % 4 == 0 => {
                    cat.click();
                    model.frozen = !model.frozen;
                }
                8 if next_u32(&mut dice) % 100 == 0 => x = f32::INFINITY,
                _ => {}
            }
            assert!(cat.can_tick(num(x), num(y), (num(bounds.0), num(bounds.1))));
            let draw = tick(&mut ours, num(x), num(y), (num(bounds.0), num(bounds.1)), &mut cat, &sheet)
                .map(|d| (d.margin_top, d.margin_left, shown(&d), d.bubble_text));
            assert_eq!(draw, model.tick(&mut theirs, x, y, bounds));
            assert_eq!(ours, theirs);
            assert_eq!(cat.win_x.to_bits(), model.win.0.to_bits());
            assert_eq!(cat.win_y.to_bits(), model.win.1.to_bits());
            assert_eq!(cat.dir, model.dir);
            assert_eq!(cat.idle_ticks, model.idle_ticks);
            assert_eq!(cat.frame, model.frame);
            assert_eq!(cat.active_moment, model.active_moment);
            assert_eq!(cat.next_moment_in, model.next_moment_in);
        }
    }
}
