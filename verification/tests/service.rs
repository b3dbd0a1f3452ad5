use oneko::cat::{Cat, CatState};
use oneko::float::F32;
use oneko::frame::render_frame;
use oneko::rng::seed;
use oneko::service::CatService;
use oneko::sprites::{Sprite, SpriteSheet};

fn float(x: F32) -> f32 {
    f32::from_bits(x.to_bits())
}

fn sheet() -> SpriteSheet {
    let plain = Sprite { image: &[0x55; 128], mask: &[0xFF; 128] };
    let other = Sprite { image: &[0x0F; 128], mask: &[0xF3; 128] };
    SpriteSheet {
        sitting: other,
        washing_1: plain,
        washing_2: other,
        sleeping_1: plain,
        sleeping_2: other,
        right_1: plain,
        right_2: other,
        left_1: plain,
        left_2: other,
        up_1: plain,
        up_2: other,
        down_1: plain,
        down_2: other,
        ne_1: plain,
        ne_2: other,
        nw_1: plain,
        nw_2: other,
        se_1: plain,
        se_2: other,
        sw_1: plain,
        sw_2: other,
        stretch: plain,
        tailflick: other,
    }
}

#[test]
fn first_tick_brings_the_cat() {
    let sheet = sheet();
    let mut service = CatService::new(1);
    assert!(service.cat.is_none());
    assert_eq!(service.rng_state, 1);
    assert!(service.can_tick(700, 310, 640, 300, 800, 600, &sheet));
    let (changed, x, y, w, h, pixels) = service.tick(700, 310, 640, 300, 800, 600, &sheet);
    assert!(changed);
    // The cat stands at (60, 10) on its monitor, the frame 20 to the left and 16 above.
    assert_eq!((x, y, w, h), (680, 294, 72, 48));
    assert_eq!(pixels, render_frame(&[0x55; 128], &[0xFF; 128], ""));
    let cat = service.cat.unwrap();
    assert_eq!((float(cat.win_x), float(cat.win_y)), (60.0, 10.0));
}

#[test]
fn cat_appears_on_its_monitor() {
    let sheet = sheet();
    let mut service = CatService::new(1);
    service.tick(1439, 899, 640, 300, 800, 600, &sheet);
    let cat = service.cat.unwrap();
    assert_eq!((float(cat.win_x), float(cat.win_y)), (768.0, 568.0));
    assert_eq!((float(cat.last_cursor.0), float(cat.last_cursor.1)), (799.0, 599.0));
}

#[test]
fn nothing_new_gives_nothing() {
    let sheet = sheet();
    let mut service = CatService::new(1);
    let mut changes = Vec::new();
    for _ in 0..9 {
        let (changed, x, y, w, h, pixels) = service.tick(100, 100, 0, 0, 800, 600, &sheet);
        if !changed {
            assert_eq!((x, y, w, h, pixels.len()), (0, 0, 0, 0, 0));
        }
        changes.push(changed);
    }
    // Two running pictures; the sitting one looks like the second of them.
    assert_eq!(changes, [true, true, false, false, false, false, false, false, false]);
    assert_eq!(service.cat.unwrap().activity(), CatState::Sitting);
}

#[test]
fn clicks_freeze_and_free_the_cat() {
    let sheet = sheet();
    let mut service = CatService::new(1);
    service.click();
    assert!(service.cat.is_none());
    service.tick(100, 100, 0, 0, 800, 600, &sheet);
    service.click();
    assert!(service.cat.unwrap().frozen);
    service.tick(200, 100, 0, 0, 800, 600, &sheet);
    assert_eq!(float(service.cat.unwrap().win_x), 100.0);
    service.click();
    assert!(!service.cat.unwrap().frozen);
    service.tick(220, 100, 0, 0, 800, 600, &sheet);
    assert_eq!(float(service.cat.unwrap().win_x), 100.0 + 120.0 * 0.3f32);
}

#[test]
fn moments_come_with_a_bubble() {
    let sheet = sheet();
    let mut service = CatService::new(seed(None));
    let mut cat = Cat::new(F32::from_i32(100), F32::from_i32(100));
    cat.idle_ticks = 4;
    cat.next_moment_in = 0;
    service.cat = Some(cat);
    let (changed, _, _, _, _, pixels) = service.tick(100, 100, 0, 0, 800, 600, &sheet);
    assert!(changed);
    let moment = service.cat.unwrap().active_moment.unwrap();
    let drawn = service.cat.unwrap().last_drawn.unwrap();
    assert_eq!(drawn.bubble_text, oneko::moments::moment(&sheet, moment).text);
    assert_eq!(pixels, render_frame(drawn.sprite, drawn.mask, drawn.bubble_text));
    assert_ne!(service.rng_state, seed(None));
}

#[test]
fn cat_goes_over_to_the_next_monitor() {
    let sheet = sheet();
    let mut service = CatService::new(1);
    service.tick(1900, 500, 0, 0, 1920, 1080, &sheet);
    assert_eq!(float(service.cat.unwrap().win_x), 1888.0);
    // On a smaller monitor to the right, the cat is brought inside as it runs.
    let (changed, x, y, _, _, _) = service.tick(2000, 500, 1920, 0, 1280, 720, &sheet);
    assert!(changed);
    let cat = service.cat.unwrap();
    assert_eq!(float(cat.win_x), 1248.0);
    assert_eq!((x, y), (1920 + 1248 - 20, 500 - 16));
}

#[test]
fn service_never_stops() {
    let sheet = sheet();
    let mut service = CatService::new(seed(Some(99)));
    let mut dice = 5;
    for _ in 0..3000 {
        let n = oneko::rng::next_u32(&mut dice);
        let (mx, my, w, h) = if n % 7 < 4 { (0, 0, 1920, 1080) } else { (-1280, 200, 1280, 720) };
        let x = mx + (n >> 8) as i32 % w;
        let y = my + (n >> 9) as i32 % h;
        if n % 50 == 0 {
            service.click();
        }
        assert!(service.can_tick(x, y, mx, my, w, h, &sheet));
        service.tick(x, y, mx, my, w, h, &sheet);
        let cat = service.cat.unwrap();
        assert!((0.0..=1888.0).contains(&float(cat.win_x)));
        assert!((0.0..=1048.0).contains(&float(cat.win_y)));
    }
}

#[test]
fn ticks_out_of_range_cannot_be_served() {
    let sheet = sheet();
    let service = CatService::new(1);
    assert!(!service.can_tick(i32::MAX, 0, -1, 0, 100, 100, &sheet));
    assert!(!service.can_tick(0, i32::MIN, 0, 1, 100, 100, &sheet));
    assert!(service.can_tick(i32::MAX, 0, 0, 0, 100, 100, &sheet));
    // The frame would stand left of all coordinates.
    assert!(!service.can_tick(i32::MIN, 0, i32::MIN, 0, 100, 100, &sheet));
    assert!(service.can_tick(i32::MIN + 40, 0, i32::MIN, 0, 100, 100, &sheet));
    let mut service = CatService::new(1);
    let mut cat = Cat::new(F32::from_i32(0), F32::from_i32(0));
    cat.idle_ticks = u32::MAX;
    service.cat = Some(cat);
    assert!(!service.can_tick(0, 0, 0, 0, 100, 100, &sheet));
}
