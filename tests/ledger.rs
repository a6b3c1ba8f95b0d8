use radiswap_ticks::ledger::{Ledger, TicksInfo};

#[test]
fn fresh_tick_flips_once() {
    let mut ledger = Ledger::new();
    assert_eq!(ledger.tick(7), TicksInfo { initialized: false, liquidity: 0 });
    assert!(ledger.update_ticks(7, 500));
    assert_eq!(ledger.tick(7), TicksInfo { initialized: true, liquidity: 500 });
    assert!(!ledger.update_ticks(7, 250));
    assert_eq!(ledger.tick(7), TicksInfo { initialized: true, liquidity: 750 });
    assert_eq!(ledger.tick(8), TicksInfo { initialized: false, liquidity: 0 });
}

#[test]
fn zero_delta_on_fresh_tick_does_not_flip() {
    let mut ledger = Ledger::new();
    assert!(!ledger.update_ticks(-3, 0));
    assert_eq!(ledger.tick(-3), TicksInfo { initialized: false, liquidity: 0 });
}

#[test]
fn positions_accumulate_per_key() {
    let mut ledger = Ledger::new();
    let alice = vec![1u8, 2, 3];
    let bob = vec![1u8, 2, 4];
    ledger.update_position(&alice, -60, 120, 100);
    ledger.update_position(&alice, -60, 120, 50);
    ledger.update_position(&bob, -60, 120, 7);
    ledger.update_position(&alice, -60, 180, 9);
    assert_eq!(ledger.position(&alice, -60, 120), 150);
    assert_eq!(ledger.position(&bob, -60, 120), 7);
    assert_eq!(ledger.position(&alice, -60, 180), 9);
    assert_eq!(ledger.position(&bob, 0, 60), 0);
    assert_eq!(ledger.position(&vec![1u8, 2], -60, 120), 0);
}

#[test]
fn large_tick_liquidity_adds_exactly() {
    let mut ledger = Ledger::new();
    assert!(ledger.update_ticks(0, u128::MAX - 1));
    assert!(!ledger.update_ticks(0, 1));
    assert_eq!(ledger.tick(0).liquidity, u128::MAX);
}
