use minesweeper_rs::util::{
    get_tick_count, lo_word, ticks_from_clock, LegacyRandomNumberGenerator, ModernRandomNumberGenerator,
    RandomNumberGenerator,
};

#[test]
fn legacy_draws_stay_below_bound() {
    let mut rng = LegacyRandomNumberGenerator::new();
    for bound in [1u32, 9, 16, 24, 30] {
        for _ in 0..100_000 {
            assert!(rng.random_u32(bound) < bound as usize);
        }
    }
}

#[test]
fn modern_draws_stay_below_bound() {
    let mut rng = ModernRandomNumberGenerator::new();
    for bound in [1u32, 9, 16, 24, 30] {
        for _ in 0..100_000 {
            assert!(rng.random_u32(bound) < bound as usize);
        }
    }
}

#[test]
fn modern_draws_reach_every_value_below_bound() {
    let mut rng = ModernRandomNumberGenerator::new();
    let mut seen = [false; 9];
    for _ in 0..100_000 {
        seen[rng.random_u32(9)] = true;
    }
    assert!(seen.iter().all(|s| *s));
}

#[test]
fn legacy_sequence_matches_classic_generator() {
    let mut rng = LegacyRandomNumberGenerator::from_seed(1);
    assert_eq!(rng.next_raw(), 16838);
    assert_eq!(rng.next_raw(), 5758);
    assert_eq!(rng.next_raw(), 10113);
}

#[test]
fn legacy_is_reproducible_from_seed() {
    let mut a = LegacyRandomNumberGenerator::from_seed(777);
    let mut b = LegacyRandomNumberGenerator::from_seed(777);
    for _ in 0..1000 {
        assert_eq!(a.random_u32(30), b.random_u32(30));
    }
}

#[test]
fn legacy_reduces_modulo_bound() {
    let mut a = LegacyRandomNumberGenerator::from_seed(1);
    assert_eq!(a.random_u32(9), 16838 % 9);
}

#[test]
fn lo_word_keeps_low_sixteen_bits() {
    assert_eq!(lo_word(0x1234_5678), 0x5678);
    assert_eq!(lo_word(0xffff), 0xffff);
}

#[test]
fn tick_count_is_monotonic_over_a_short_span() {
    let a = get_tick_count();
    let b = get_tick_count();
    assert!(b.wrapping_sub(a) < 1000);
}

#[test]
fn legacy_draw_is_next_state_reduced() {
    let mut a = LegacyRandomNumberGenerator::from_seed(1);
    assert_eq!(a.random_u32(9), 16838 % 9);
    assert_eq!(a.random_u32(30), 5758 % 30);
    assert_eq!(a.random_u32(16), 10113 % 16);
}

#[test]
fn ticks_from_clock_readings() {
    assert_eq!(ticks_from_clock(None), 0);
    assert_eq!(ticks_from_clock(Some((0, 0))), 0);
    assert_eq!(ticks_from_clock(Some((2, 345_678_901))), 2345);
    assert_eq!(ticks_from_clock(Some((4_294_968, 0))), 704);
    assert_eq!(ticks_from_clock(Some((1, 999_999_999))), 1999);
}
