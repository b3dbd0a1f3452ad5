use oneko::cat::DrawState;
use oneko::desktop::{
    spawn_cat_surface, tick_active, Action, App, CatSurface, Change, PointerEvent, BTN_LEFT,
};
use oneko::float::F32;
use oneko::sprites::{Sprite, SpriteSheet};

fn num(x: f32) -> F32 {
    F32::from_bits(x.to_bits())
}

fn float(x: F32) -> f32 {
    f32::from_bits(x.to_bits())
}

fn at(x: f32, y: f32) -> (F32, F32) {
    (num(x), num(y))
}

fn sheet() -> SpriteSheet {
    let plain = Sprite { image: &[1; 128], mask: &[255; 128] };
    let other = Sprite { image: &[2; 128], mask: &[255; 128] };
    SpriteSheet {
        sitting: other,
        washing_1: plain,
        washing_2: other,
        sleeping_1: plain,
        sleeping_2: other,
        right_1: plain,
        right_2: other,
        left_1: plain,
        left_2: other,
        up_1: plain,
        up_2: other,
        down_1: plain,
        down_2: other,
        ne_1: plain,
        ne_2: other,
        nw_1: plain,
        nw_2: other,
        se_1: plain,
        se_2: other,
        sw_1: plain,
        sw_2: other,
        stretch: plain,
        tailflick: other,
    }
}

fn drawn(action: &Action) -> &DrawState {
    match &action.change {
        Change::Draw(picture) => picture,
        Change::Hide => panic!("hidden"),
    }
}

fn step(app: &mut App, x: f32, y: f32) -> Vec<Action> {
    assert!(app.can_step(num(x), num(y)));
    app.step(num(x), num(y), &sheet())
}

// Two monitors side by side, both ready.
fn two_monitors() -> App {
    let mut app = App::new(1);
    app.new_output(10, 20, 1, Some((0, 0)), Some((1920, 1080)), at(100.0, 100.0));
    app.new_output(11, 21, 2, Some((1920, 100)), Some((1280, 720)), at(100.0, 100.0));
    app.configure(20);
    app.configure(21);
    app
}

#[test]
fn new_monitors_get_a_cat() {
    let app = two_monitors();
    assert_eq!(app.cats.len(), 2);
    let (a, b) = (&app.cats[0], &app.cats[1]);
    assert_eq!((a.output, a.surface, a.output_id), (10, 20, 1));
    assert_eq!((float(a.state.win_x), float(a.state.win_y)), (100.0, 100.0));
    // The cursor is left of the second monitor, at its upper edge.
    assert_eq!((float(b.state.win_x), float(b.state.win_y)), (0.0, 0.0));
    assert!(a.visible && b.visible && a.configured && b.configured);
    assert_eq!(app.active_output_id, None);
    assert_eq!(app.rng_state, 1);
}

#[test]
fn monitors_that_tell_nothing_get_defaults() {
    let mut app = App::new(1);
    app.new_output(1, 2, 3, None, None, at(5000.0, 5000.0));
    let cat = &app.cats[0];
    assert_eq!(cat.logical_position, (0, 0));
    assert_eq!((float(cat.logical_size.0), float(cat.logical_size.1)), (1920.0, 1080.0));
    assert_eq!((float(cat.state.win_x), float(cat.state.win_y)), (1888.0, 1048.0));
    assert!(!cat.configured && cat.visible);
}

#[test]
fn spawned_surface() {
    let cat = spawn_cat_surface(1, 2, 3, (-100, 50), at(400.0, 300.0), at(0.0, 60.5));
    assert_eq!((float(cat.state.win_x), float(cat.state.win_y)), (100.0, 10.5));
    assert_eq!(cat.logical_position, (-100, 50));
    assert_eq!(cat.state.next_moment_in, 300);
}

#[test]
fn updates_keep_what_is_not_told() {
    let mut app = two_monitors();
    app.update_output(2, Some((0, 1080)), None);
    assert_eq!(app.cats[1].logical_position, (0, 1080));
    assert_eq!(float(app.cats[1].logical_size.0), 1280.0);
    app.update_output(2, None, Some((640, 480)));
    assert_eq!(app.cats[1].logical_position, (0, 1080));
    assert_eq!((float(app.cats[1].logical_size.0), float(app.cats[1].logical_size.1)), (640.0, 480.0));
    app.update_output(99, Some((7, 7)), Some((7, 7)));
    assert_eq!(app.cats[0].logical_position, (0, 0));
    assert_eq!(app.cats[1].logical_position, (0, 1080));
}

#[test]
fn edges_belong_to_one_monitor() {
    let app = two_monitors();
    let on = |c: &CatSurface, x: f32, y: f32| c.has_cursor(num(x), num(y));
    assert!(on(&app.cats[0], 0.0, 0.0) && on(&app.cats[0], 1919.9, 1079.9));
    assert!(!on(&app.cats[0], 1920.0, 500.0) && on(&app.cats[1], 1920.0, 500.0));
    assert!(!on(&app.cats[0], -0.1, 0.0) && !on(&app.cats[0], 0.0, 1080.0));
    assert!(!on(&app.cats[1], 1920.0, 99.9) && on(&app.cats[1], 1920.0, 100.0));
    assert!(!on(&app.cats[1], 3200.0, 100.0) && !on(&app.cats[1], 1920.0, 820.0));
    assert!(!on(&app.cats[0], f32::NAN, 0.0));
}

#[test]
fn only_the_cursors_monitor_shows_the_cat() {
    let mut app = two_monitors();
    let actions = step(&mut app, 110.0, 100.0);
    assert_eq!(actions.len(), 2);
    assert_eq!((actions[0].surface, actions[1].surface), (20, 21));
    assert_eq!((drawn(&actions[0]).margin_left, drawn(&actions[0]).margin_top), (83, 84));
    assert!(matches!(actions[1].change, Change::Hide));
    assert!(app.cats[0].visible && !app.cats[1].visible);
    assert_eq!(app.active_output_id, Some(1));
    // Once hidden, the other one needs nothing more.
    let actions = step(&mut app, 120.0, 100.0);
    assert_eq!(actions.len(), 1);
    assert_eq!(actions[0].surface, 20);
}

#[test]
fn cat_is_handed_over() {
    let mut app = two_monitors();
    step(&mut app, 110.0, 100.0);
    let waiting = app.cats[0].state.win_x;
    let actions = step(&mut app, 2000.0, 200.0);
    assert_eq!(actions.len(), 2);
    assert!(matches!(actions[0].change, Change::Hide));
    assert_eq!((drawn(&actions[1]).margin_left, drawn(&actions[1]).margin_top), (4, 14));
    assert!(!app.cats[0].visible && app.cats[1].visible);
    assert_eq!(app.active_output_id, Some(2));
    // The first cat waits where it was.
    for _ in 0..10 {
        step(&mut app, 2000.0, 200.0);
    }
    assert_eq!(app.cats[0].state.win_x, waiting);
    assert_eq!(app.cats[0].state.idle_ticks, 0);
    // Outside of all monitors the last one stays active.
    step(&mut app, 2000.0, 50.0);
    assert_eq!(app.active_output_id, Some(2));
    assert!(app.cats[1].visible);
}

#[test]
fn hidden_cat_is_drawn_again() {
    let mut app = two_monitors();
    app.cats[0].state.idle_ticks = 4;
    step(&mut app, 100.0, 100.0);
    assert!(step(&mut app, 100.0, 100.0).is_empty());
    step(&mut app, 2000.0, 200.0);
    assert!(app.cats[0].state.last_drawn.is_none());
    // It looks as before, but has to be drawn.
    let actions = step(&mut app, 100.0, 100.0);
    assert_eq!(actions.len(), 2);
    assert_eq!((drawn(&actions[0]).margin_left, drawn(&actions[0]).margin_top), (80, 84));
}

#[test]
fn surfaces_wait_for_their_configuration() {
    let mut app = App::new(1);
    app.new_output(1, 2, 3, Some((0, 0)), Some((800, 600)), at(10.0, 10.0));
    assert!(step(&mut app, 10.0, 10.0).is_empty());
    assert_eq!(app.active_output_id, Some(3));
    assert!(!app.cats[0].state.frame && app.cats[0].visible);
    app.configure(77);
    assert!(!app.cats[0].configured);
    app.configure(2);
    assert_eq!(step(&mut app, 10.0, 10.0).len(), 1);
}

#[test]
fn monitors_come_and_go() {
    let mut app = two_monitors();
    step(&mut app, 2000.0, 200.0);
    app.output_destroyed(99);
    assert_eq!((app.cats.len(), app.active_output_id), (2, Some(2)));
    app.output_destroyed(11);
    assert_eq!((app.cats.len(), app.active_output_id), (1, None));
    assert_eq!(app.cats[0].output, 10);
    assert!(step(&mut app, 2000.0, 200.0).is_empty());
    app.new_output(12, 22, 2, Some((1920, 100)), Some((1280, 720)), at(2000.0, 200.0));
    app.configure(22);
    assert_eq!(step(&mut app, 2000.0, 200.0).len(), 1);
    assert_eq!(app.active_output_id, Some(2));
    // The other one goes: the active one stays.
    app.output_destroyed(10);
    assert_eq!((app.cats.len(), app.active_output_id), (1, Some(2)));
    app.closed(22);
    assert_eq!((app.cats.len(), app.active_output_id), (0, None));
    app.closed(22);
    assert!(step(&mut app, 0.0, 0.0).is_empty());
}

#[test]
fn closed_surface_is_dropped() {
    let mut app = two_monitors();
    step(&mut app, 10.0, 10.0);
    app.closed(21);
    assert_eq!((app.cats.len(), app.active_output_id), (1, Some(1)));
    app.closed(20);
    assert_eq!((app.cats.len(), app.active_output_id), (0, None));
}

#[test]
fn last_of_several_removed_surfaces_decides() {
    let mut app = App::new(1);
    for (surface, id) in [(1, 5), (2, 6)] {
        app.new_output(9, surface, id, None, None, at(0.0, 0.0));
    }
    app.active_output_id = Some(5);
    app.output_destroyed(9);
    assert_eq!((app.cats.len(), app.active_output_id), (0, Some(5)));
}

#[test]
fn left_button_freezes_the_cat_under_it() {
    let mut app = two_monitors();
    let press = |button: u32, surface: u32| PointerEvent { press: Some(button), surface };
    app.pointer_frame(&[press(BTN_LEFT, 21)]);
    assert!(!app.cats[0].state.frozen && app.cats[1].state.frozen);
    app.pointer_frame(&[press(BTN_LEFT, 21)]);
    assert!(!app.cats[1].state.frozen);
    app.pointer_frame(&[
        press(BTN_LEFT, 20),
        press(0x111, 21),
        PointerEvent { press: None, surface: 21 },
        press(BTN_LEFT, 99),
    ]);
    assert!(app.cats[0].state.frozen && !app.cats[1].state.frozen);
    app.pointer_frame(&[press(BTN_LEFT, 20), press(BTN_LEFT, 20)]);
    assert!(app.cats[0].state.frozen);
    app.pointer_frame(&[]);
    assert!(app.cats[0].state.frozen);
}

#[test]
fn one_pointer_is_bound() {
    let mut app = App::new(1);
    assert!(!app.new_capability(false));
    assert!(!app.remove_capability(true));
    assert!(app.new_capability(true));
    assert!(!app.new_capability(true));
    assert!(!app.remove_capability(false));
    assert!(app.has_pointer);
    assert!(app.remove_capability(true));
    assert!(!app.has_pointer);
    assert!(app.new_capability(true));
}

#[test]
fn active_tick_reports_news_only() {
    let sheet = sheet();
    let mut rng = 1;
    let mut cat = spawn_cat_surface(1, 2, 3, (0, 0), at(400.0, 300.0), at(50.0, 50.0));
    cat.state.idle_ticks = 4;
    assert!(tick_active(&mut rng, num(50.0), num(50.0), &mut cat, &sheet).is_some());
    assert!(tick_active(&mut rng, num(50.0), num(50.0), &mut cat, &sheet).is_none());
    cat.conceal();
    assert!(!cat.visible);
    assert!(tick_active(&mut rng, num(50.0), num(50.0), &mut cat, &sheet).is_some());
}

#[test]
fn steps_that_cannot_be_made() {
    let mut app = two_monitors();
    app.cats[1].state.idle_ticks = u32::MAX;
    assert!(app.can_step(num(10.0), num(10.0)));
    assert!(!app.can_step(num(3000.0), num(700.0)));
    app.cats[1].configured = false;
    assert!(app.can_step(num(3000.0), num(700.0)));
}
