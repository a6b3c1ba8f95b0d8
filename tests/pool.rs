use radiswap_ticks::error::TickError;
use radiswap_ticks::ledger::TicksInfo;
use radiswap_ticks::pool::{RadiswapV3, MAX_TICK, MIN_TICK};

#[test]
fn mint_updates_ticks_position_bitmap_and_liquidity() {
    let mut pool = RadiswapV3::new();
    let owner = vec![9u8; 30];
    assert_eq!(pool.mint(&owner, -60, 120, 1_000_000), Ok(()));
    assert_eq!(pool.liquidity(), 1_000_000);
    assert_eq!(pool.ledger().tick(-60), TicksInfo { initialized: true, liquidity: 1_000_000 });
    assert_eq!(pool.ledger().tick(120), TicksInfo { initialized: true, liquidity: 1_000_000 });
    assert_eq!(pool.ledger().position(&owner, -60, 120), 1_000_000);
    assert!(pool.tick_bitmap().is_initialized_at(-60));
    assert!(pool.tick_bitmap().is_initialized_at(120));
    assert!(!pool.tick_bitmap().is_initialized_at(0));
    assert_eq!(pool.tick_bitmap().next_initialized_tick_within_one_word(-1, 1, true), (-60, true));

    assert_eq!(pool.mint(&owner, -60, 240, 5), Ok(()));
    assert_eq!(pool.liquidity(), 1_000_005);
    assert_eq!(pool.ledger().tick(-60).liquidity, 1_000_005);
    assert_eq!(pool.ledger().tick(240).liquidity, 5);
    assert_eq!(pool.ledger().position(&owner, -60, 120), 1_000_000);
    assert_eq!(pool.ledger().position(&owner, -60, 240), 5);
    assert!(pool.tick_bitmap().is_initialized_at(240));
}

#[test]
fn mint_rejects_invalid_ranges() {
    let mut pool = RadiswapV3::new();
    let owner = vec![1u8];
    assert_eq!(pool.mint(&owner, 120, 120, 10), Err(TickError::TickRangeInvalid));
    assert_eq!(pool.mint(&owner, 120, 60, 10), Err(TickError::TickRangeInvalid));
    assert_eq!(pool.mint(&owner, MIN_TICK - 1, 0, 10), Err(TickError::TickRangeInvalid));
    assert_eq!(pool.mint(&owner, 0, MAX_TICK + 1, 10), Err(TickError::TickRangeInvalid));
    assert_eq!(pool.mint(&owner, 120, 120, 0), Err(TickError::TickRangeInvalid));
    assert_eq!(pool.liquidity(), 0);
    assert_eq!(pool.ledger().tick(120).liquidity, 0);
}

#[test]
fn mint_rejects_zero_liquidity() {
    let mut pool = RadiswapV3::new();
    let owner = vec![1u8];
    assert_eq!(pool.mint(&owner, -60, 60, 0), Err(TickError::ZeroLiquidityRequest));
    assert_eq!(pool.liquidity(), 0);
    assert!(!pool.tick_bitmap().is_initialized_at(-60));
}

#[test]
fn mint_at_the_tick_limits() {
    let mut pool = RadiswapV3::new();
    let owner = vec![2u8];
    assert_eq!(pool.mint(&owner, MIN_TICK, MAX_TICK, 3), Ok(()));
    assert!(pool.tick_bitmap().is_initialized_at(MIN_TICK));
    assert!(pool.tick_bitmap().is_initialized_at(MAX_TICK));
    assert_eq!(pool.ledger().position(&owner, MIN_TICK, MAX_TICK), 3);
}
