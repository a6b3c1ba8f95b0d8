use radiswap_ticks::bitmap::TickBitmap;
use radiswap_ticks::error::TickError;
use radiswap_ticks::ledger::Ledger;

#[test]
fn position_splits_and_rebuilds_compressed_ticks() {
    for t in [0i32, 1, 255, 256, 257, -1, -255, -256, -257, 887272, -887272, i32::MAX, i32::MIN] {
        let (word_pos, bit_pos) = TickBitmap::position(t);
        assert_eq!(word_pos as i64 * 256 + bit_pos as i64, t as i64);
    }
    assert_eq!(TickBitmap::position(-1), (-1, 255));
    assert_eq!(TickBitmap::position(-256), (-1, 0));
    assert_eq!(TickBitmap::position(-257), (-2, 255));
    assert_eq!(TickBitmap::position(300), (1, 44));
}

#[test]
fn flip_twice_restores_the_bitmap() {
    let mut bitmap = TickBitmap::instantiate_bitmap();
    assert_eq!(bitmap.flip_tick(120, 60), Ok(()));
    assert!(bitmap.is_initialized_at(2));
    assert_eq!(bitmap.flip_tick(-600, 60), Ok(()));
    assert_eq!(bitmap.flip_tick(120, 60), Ok(()));
    assert!(!bitmap.is_initialized_at(2));
    assert!(bitmap.is_initialized_at(-10));
    assert_eq!(bitmap.flip_tick(-600, 60), Ok(()));
    for c in -300..300 {
        assert!(!bitmap.is_initialized_at(c));
    }
}

#[test]
fn flip_rejects_tick_off_the_spacing() {
    let mut bitmap = TickBitmap::instantiate_bitmap();
    assert_eq!(bitmap.flip_tick(61, 60), Err(TickError::InvalidTickSpacing));
    assert_eq!(bitmap.flip_tick(-1, 60), Err(TickError::InvalidTickSpacing));
    for c in -5..5 {
        assert!(!bitmap.is_initialized_at(c));
    }
}

#[test]
fn search_in_empty_word_reports_word_bounds() {
    let bitmap = TickBitmap::instantiate_bitmap();
    // compressed 10 sits in word 0 at bit 10
    assert_eq!(bitmap.next_initialized_tick_within_one_word(600, 60, true), (0, false));
    assert_eq!(bitmap.next_initialized_tick_within_one_word(600, 60, false), (255 * 60, false));
    // compressed -2 (floor of -61 / 60) sits in word -1 at bit 254
    assert_eq!(bitmap.next_initialized_tick_within_one_word(-61, 60, true), (-256 * 60, false));
    assert_eq!(bitmap.next_initialized_tick_within_one_word(-61, 60, false), (-60, false));
}

#[test]
fn search_at_or_below_finds_the_flipped_tick() {
    let mut bitmap = TickBitmap::instantiate_bitmap();
    assert_eq!(bitmap.flip_tick(-120, 60), Ok(()));
    assert_eq!(bitmap.next_initialized_tick_within_one_word(-120, 60, true), (-120, true));
    assert_eq!(bitmap.next_initialized_tick_within_one_word(-1, 60, true), (-120, true));
    assert_eq!(bitmap.next_initialized_tick_within_one_word(-121, 60, true), (-256 * 60, false));
}

#[test]
fn search_above_finds_the_flipped_tick() {
    let mut bitmap = TickBitmap::instantiate_bitmap();
    assert_eq!(bitmap.flip_tick(300, 60), Ok(()));
    assert_eq!(bitmap.next_initialized_tick_within_one_word(240, 60, false), (300, true));
    assert_eq!(bitmap.next_initialized_tick_within_one_word(0, 60, false), (300, true));
    assert_eq!(bitmap.next_initialized_tick_within_one_word(300, 60, false), (255 * 60, false));
}

#[test]
fn search_above_from_the_previous_word() {
    let mut bitmap = TickBitmap::instantiate_bitmap();
    assert_eq!(bitmap.flip_tick(256 * 60, 60), Ok(()));
    assert_eq!(bitmap.next_initialized_tick_within_one_word(255 * 60, 60, false), (256 * 60, true));
    assert_eq!(bitmap.next_initialized_tick_within_one_word(256 * 60, 60, true), (256 * 60, true));
    assert_eq!(bitmap.next_initialized_tick_within_one_word(255 * 60, 60, true), (0, false));
}

#[test]
fn search_picks_the_nearest_of_several() {
    let mut bitmap = TickBitmap::instantiate_bitmap();
    for t in [5, 9, 200, 255] {
        assert_eq!(bitmap.flip_tick(t, 1), Ok(()));
    }
    assert_eq!(bitmap.next_initialized_tick_within_one_word(150, 1, true), (9, true));
    assert_eq!(bitmap.next_initialized_tick_within_one_word(9, 1, true), (9, true));
    assert_eq!(bitmap.next_initialized_tick_within_one_word(8, 1, true), (5, true));
    assert_eq!(bitmap.next_initialized_tick_within_one_word(4, 1, true), (0, false));
    assert_eq!(bitmap.next_initialized_tick_within_one_word(9, 1, false), (200, true));
    assert_eq!(bitmap.next_initialized_tick_within_one_word(200, 1, false), (255, true));
    assert_eq!(bitmap.next_initialized_tick_within_one_word(255, 1, false), (511, false));
}

#[test]
fn search_across_the_upper_half_of_a_word() {
    let mut bitmap = TickBitmap::instantiate_bitmap();
    assert_eq!(bitmap.flip_tick(130, 1), Ok(()));
    assert_eq!(bitmap.flip_tick(250, 1), Ok(()));
    assert_eq!(bitmap.next_initialized_tick_within_one_word(249, 1, true), (130, true));
    assert_eq!(bitmap.next_initialized_tick_within_one_word(130, 1, false), (250, true));
    assert_eq!(bitmap.next_initialized_tick_within_one_word(10, 1, false), (130, true));
}

#[test]
fn mint_scenario_with_spacing_sixty() {
    let mut ledger = Ledger::new();
    let mut bitmap = TickBitmap::instantiate_bitmap();
    assert!(ledger.update_ticks(-60, 1_000_000));
    assert!(ledger.update_ticks(120, 1_000_000));
    assert_eq!(bitmap.flip_tick(-60, 60), Ok(()));
    assert_eq!(bitmap.flip_tick(120, 60), Ok(()));
    assert!(bitmap.is_initialized_at(-1));
    assert!(bitmap.is_initialized_at(2));
    assert_eq!(bitmap.next_initialized_tick_within_one_word(-60, 60, true), (-60, true));
    assert_eq!(bitmap.next_initialized_tick_within_one_word(60, 60, false), (120, true));
}

#[test]
fn search_near_the_limits_of_i32() {
    let bitmap = TickBitmap::instantiate_bitmap();
    assert_eq!(bitmap.next_initialized_tick_within_one_word(0, 8_388_608, true), (0, false));
    assert_eq!(bitmap.next_initialized_tick_within_one_word(0, 1 << 30, true), (0, false));
    assert_eq!(bitmap.next_initialized_tick_within_one_word(i32::MIN, 1, true), (i32::MIN, false));
    assert_eq!(bitmap.next_initialized_tick_within_one_word(i32::MAX - 1, 1, false), (i32::MAX, false));
}
