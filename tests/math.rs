use radiswap_ticks::math::{calc_amount0_delta, div_rounding_up, mulDivRoundingUp};

#[test]
fn div_rounding_up_values() {
    assert_eq!(div_rounding_up(7, 2), 4);
    assert_eq!(div_rounding_up(8, 2), 4);
    assert_eq!(div_rounding_up(0, 5), 0);
    assert_eq!(div_rounding_up(1, 5), 1);
    assert_eq!(div_rounding_up(u128::MAX, 1), u128::MAX);
    assert_eq!(div_rounding_up(u128::MAX, 2), 1u128 << 127);
}

#[test]
fn mul_div_rounding_up_values() {
    assert_eq!(mulDivRoundingUp(3, 5, 4), 4);
    assert_eq!(mulDivRoundingUp(4, 5, 4), 5);
    assert_eq!(mulDivRoundingUp(0, 5, 4), 0);
    assert_eq!(mulDivRoundingUp(u128::MAX, u128::MAX, u128::MAX), u128::MAX);
    assert_eq!(mulDivRoundingUp(1u128 << 100, 1u128 << 100, 1u128 << 120), 1u128 << 80);
    assert_eq!(mulDivRoundingUp((1u128 << 100) + 1, 1u128 << 100, 1u128 << 120), (1u128 << 80) + 1);
    assert_eq!(mulDivRoundingUp(u128::MAX, 3, 7), 145835300108973627198589117470757804910);
}

#[test]
fn amount0_delta_values() {
    let q96: u128 = 1 << 96;
    assert_eq!(calc_amount0_delta(1, 2, 1), 1u128 << 95);
    assert_eq!(calc_amount0_delta(2, 1, 1), 1u128 << 95);
    assert_eq!(calc_amount0_delta(10, 20, 100), 5 * q96);
    assert_eq!(calc_amount0_delta(20, 10, 100), 5 * q96);
    assert_eq!(calc_amount0_delta(3, 7, 10), 150910785741455881130559905402);
    assert_eq!(calc_amount0_delta(5, 5, 1000), 0);
    // prices 1.0 and 2.0 in Q64.96
    assert_eq!(calc_amount0_delta(q96, 2 * q96, 1_000_000), 500_000);
}
