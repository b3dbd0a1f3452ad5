use oneko::rng::{next_u32, seed};

#[test]
fn first_numbers_from_one() {
    let mut state: u32 = 1;
    assert_eq!(next_u32(&mut state), 270_369);
    assert_eq!(state, 270_369);
    assert_eq!(next_u32(&mut state), 67_634_689);
    assert_eq!(next_u32(&mut state), 2_647_435_461);
    assert_eq!(state, 2_647_435_461);
}

#[test]
fn zero_is_a_trap_and_nothing_else_leads_there() {
    let mut state: u32 = 0;
    assert_eq!(next_u32(&mut state), 0);
    let mut state: u32 = 0x9E37_79B9;
    for _ in 0..100_000 {
        assert_ne!(next_u32(&mut state), 0);
    }
}

#[test]
fn different_states_have_different_successors() {
    let mut seen = Vec::new();
    for start in 0..20_000u32 {
        let mut state = start;
        seen.push(next_u32(&mut state));
    }
    seen.sort();
    seen.dedup();
    assert_eq!(seen.len(), 20_000);
}

#[test]
fn seeds_are_odd() {
    assert_eq!(seed(None), 0x9E37_79B9);
    assert_eq!(seed(Some(0)), 1);
    assert_eq!(seed(Some(0x1_0000_0002)), 3);
    assert_eq!(seed(Some(0x7_FFFF_FFFF)), 0xFFFF_FFFF);
    assert_eq!(seed(Some(u128::MAX - 1)), u32::MAX);
    assert_eq!(seed(Some(1_700_000_000_123_456_788)), 1_700_000_000_123_456_788u128 as u32 | 1);
}
