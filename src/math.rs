//! Rounded-up division helpers for token amounts.
use vstd::prelude::*;
use vstd::arithmetic::div_mod::{lemma_fundamental_div_mod, lemma_fundamental_div_mod_converse};
use vstd::arithmetic::power2::{
    lemma2_to64, lemma_pow2_adds, lemma_pow2_pos, lemma_pow2_strictly_increases, lemma_pow2_unfold,
    pow2,
};

verus! {

/// `n / d` rounded up, for `n >= 0` and `d > 0`.
pub open spec fn ceil_div(n: int, d: int) -> int {
    (n + d - 1) / d
}

proof fn lemma_shr_step(b: u128, s: u128)
    by (bit_vector)
    requires
        s < 127,
    ensures
        b >> s == 2 * (b >> (s + 1)) + ((b >> s) & 1u128),
        b >> s <= b,
        (b >> s) & 1u128 <= 1u128,
{
}

proof fn lemma_shr_top(b: u128)
    by (bit_vector)
    ensures
        b >> 127u128 == (b >> 127u128) & 1u128,
        (b >> 127u128) & 1u128 <= 1u128,
        b >> 127u128 <= b,
        b >> 0u128 == b,
{
}

/// Quotient and remainder plus one rounded up: `q * d + m == n` with
/// `0 <= m < d` gives `ceil_div(n, d) == q + (m > 0)`.
proof fn lemma_ceil_from_parts(n: int, d: int, q: int, m: int)
    requires
        d > 0,
        0 <= m < d,
        n == q * d + m,
    ensures
        m == 0 ==> ceil_div(n, d) == q,
        m > 0 ==> ceil_div(n, d) == q + 1,
{
    if m == 0 {
        lemma_fundamental_div_mod_converse(n + d - 1, d, q, d - 1);
    } else {
        assert(n + d - 1 == (q + 1) * d + (m - 1)) by (nonlinear_arith)
            requires
                n == q * d + m,
        ;
        lemma_fundamental_div_mod_converse(n + d - 1, d, q + 1, m - 1);
    }
}

/// `numerator / denominator`, rounded up.
pub fn div_rounding_up(numerator: u128, denominator: u128) -> (r: u128)
    requires
        denominator > 0,
    ensures
        r == ceil_div(numerator as int, denominator as int),
{
    let quotient = numerator / denominator;
    let remainder = numerator % denominator;
    proof {
        lemma_fundamental_div_mod(numerator as int, denominator as int);
        lemma_ceil_from_parts(numerator as int, denominator as int, quotient as int, remainder as int);
    }
    if remainder > 0 {
        proof {
            assert(quotient < u128::MAX) by (nonlinear_arith)
                requires
                    numerator == denominator * quotient + remainder,
                    0 < remainder < denominator,
                    numerator <= u128::MAX,
            ;
        }
        quotient + 1
    } else {
        quotient
    }
}

/// The fixed-point scale of square-root prices, `2^96`.
pub open spec fn q96() -> int {
    0x1_0000_0000_0000_0000_0000_0000
}

/// Floor and remainder of `a * b * 2^shift / d`, with the full-width
/// product: the bits of `b` are taken from the top, doubling the running
/// product and adding `a` for each set bit, then the product is doubled
/// `shift` more times, all kept as quotient and remainder.
fn mul_div_mod(a: u128, b: u128, shift: u32, d: u128) -> (res: (u128, u128))
    requires
        d > 0,
        (a * b * pow2(shift as nat)) / (d as int) <= u128::MAX,
    ensures
        res.0 * d + res.1 == a * b * pow2(shift as nat),
        res.1 < d,
{
    let ghost total: int = a * b * pow2(shift as nat);
    let qa = a / d;
    let ra = a % d;
    proof {
        lemma_fundamental_div_mod(a as int, d as int);
        lemma_fundamental_div_mod(total, d as int);
        lemma_pow2_pos(shift as nat);
        assert(a * b <= total) by (nonlinear_arith)
            requires
                total == a * b * pow2(shift as nat),
                pow2(shift as nat) > 0,
                a * b >= 0,
        ;
    }
    let mut q: u128 = 0;
    let mut rm: u128 = 0;
    let mut i: u128 = 0;
    let ghost mut p: int = 0;
    while i < 128
        invariant
            i <= 128,
            d > 0,
            a == d * qa + ra,
            ra < d,
            total == d * (total / (d as int)) + total % (d as int),
            0 <= total % (d as int) < d,
            total / (d as int) <= u128::MAX,
            a * b <= total,
            q * d + rm == a * p,
            rm < d,
            i == 0 ==> p == 0,
            0 < i ==> p == b >> ((128 - i) as u128),
            0 <= p <= b,
        decreases 128 - i,
    {
        let s: u128 = 127 - i;
        let bit: u128 = (b >> s) & 1;
        let ghost p_next: int = (b >> s) as int;
        proof {
            if i == 0 {
                lemma_shr_top(b);
            } else {
                lemma_shr_step(b, s);
            }
            assert(p_next == 2 * p + bit);
        }
        let (c1, rm2): (u128, u128) = if rm >= d - rm {
            (1, rm - (d - rm))
        } else {
            (0, rm + rm)
        };
        let (c2, rm3): (u128, u128) = if bit == 1 {
            if rm2 >= d - ra {
                (1, rm2 - (d - ra))
            } else {
                (0, rm2 + ra)
            }
        } else {
            (0, rm2)
        };
        let ghost q_next: int = 2 * q + c1 + bit * qa + c2;
        proof {
            if bit == 1 {
                assert(bit * ra == ra && bit * qa == qa) by (nonlinear_arith)
                    requires
                        bit == 1,
                ;
            } else {
                assert(bit == 0);
                assert(bit * ra == 0 && bit * qa == 0) by (nonlinear_arith)
                    requires
                        bit == 0,
                ;
            }
            assert(q_next * d + rm3 == a * p_next) by (nonlinear_arith)
                requires
                    q * d + rm == a * p,
                    a == d * qa + ra,
                    p_next == 2 * p + bit,
                    2 * rm == c1 * d + rm2,
                    rm2 + bit * ra == c2 * d + rm3,
                    q_next == 2 * q + c1 + bit * qa + c2,
            ;
            assert(a * p_next <= a * b) by (nonlinear_arith)
                requires
                    0 <= p_next <= b,
                    a >= 0,
            ;
            assert(q_next <= total / (d as int)) by (nonlinear_arith)
                requires
                    q_next * d + rm3 == a * p_next,
                    a * p_next <= total,
                    rm3 >= 0,
                    d > 0,
                    total == d * (total / (d as int)) + total % (d as int),
                    total % (d as int) < d,
            ;
            assert(0 <= bit * qa <= qa);
        }
        let mut next: u128 = q + q + c1;
        if bit == 1 {
            next = next + qa;
        }
        next = next + c2;
        q = next;
        rm = rm3;
        i = i + 1;
        proof {
            p = p_next;
        }
    }
    proof {
        lemma_shr_top(b);
        lemma2_to64();
    }
    let mut j: u32 = 0;
    while j < shift
        invariant
            j <= shift,
            d > 0,
            total == a * b * pow2(shift as nat),
            total == d * (total / (d as int)) + total % (d as int),
            0 <= total % (d as int) < d,
            total / (d as int) <= u128::MAX,
            q * d + rm == a * b * pow2(j as nat),
            rm < d,
        decreases shift - j,
    {
        let (c1, rm2): (u128, u128) = if rm >= d - rm {
            (1, rm - (d - rm))
        } else {
            (0, rm + rm)
        };
        let ghost q_next: int = 2 * q + c1;
        proof {
            lemma_pow2_unfold((j + 1) as nat);
            if j + 1 < shift {
                lemma_pow2_strictly_increases((j + 1) as nat, shift as nat);
            }
            let e = pow2((j + 1) as nat);
            assert(q_next * d + rm2 == a * b * e) by (nonlinear_arith)
                requires
                    q * d + rm == a * b * pow2(j as nat),
                    e == 2 * pow2(j as nat),
                    2 * rm == c1 * d + rm2,
                    q_next == 2 * q + c1,
            ;
            assert(a * b * e <= total) by (nonlinear_arith)
                requires
                    total == a * b * pow2(shift as nat),
                    e <= pow2(shift as nat),
                    a * b >= 0,
            ;
            assert(q_next <= total / (d as int)) by (nonlinear_arith)
                requires
                    q_next * d + rm2 == a * b * e,
                    a * b * e <= total,
                    rm2 >= 0,
                    d > 0,
                    total == d * (total / (d as int)) + total % (d as int),
                    total % (d as int) < d,
            ;
        }
        q = q + q + c1;
        rm = rm2;
        j = j + 1;
    }
    (q, rm)
}

/// `a * b * 2^shift / denominator`, rounded up.
fn mul_shift_div_rounding_up(a: u128, b: u128, shift: u32, denominator: u128) -> (r: u128)
    requires
        denominator > 0,
        ceil_div(a * b * pow2(shift as nat), denominator as int) <= u128::MAX,
    ensures
        r == ceil_div(a * b * pow2(shift as nat), denominator as int),
{
    let ghost n: int = a * b * pow2(shift as nat);
    proof {
        lemma_pow2_pos(shift as nat);
        assert(n >= 0) by (nonlinear_arith)
            requires
                n == a * b * pow2(shift as nat),
                pow2(shift as nat) > 0,
        ;
        lemma_fundamental_div_mod(n, denominator as int);
        lemma_ceil_from_parts(n, denominator as int, n / (denominator as int), n % (denominator as int));
    }
    let (result, remainder) = mul_div_mod(a, b, shift, denominator);
    proof {
        lemma_fundamental_div_mod_converse(n, denominator as int, result as int, remainder as int);
    }
    if remainder > 0 {
        result + 1
    } else {
        result
    }
}

/// `a * b / denominator`, rounded up, computed without overflow of the
/// intermediate product.
#[allow(non_snake_case)]
pub fn mulDivRoundingUp(a: u128, b: u128, denominator: u128) -> (r: u128)
    requires
        denominator > 0,
        ceil_div(a * b, denominator as int) <= u128::MAX,
    ensures
        r == ceil_div(a * b, denominator as int),
{
    proof {
        lemma2_to64();
        assert(a * b * pow2(0) == a * b);
    }
    mul_shift_div_rounding_up(a, b, 0, denominator)
}

/// The amount of token0 held by `liquidity` between two square-root prices
/// in Q64.96 fixed point (the prices may be given in either order):
/// `(liquidity << 96) * (upper - lower) / upper / lower`, with both
/// divisions rounded up.
pub fn calc_amount0_delta(sqrt_price_ax96: u128, sqrt_price_bx96: u128, liquidity: u128) -> (r: u128)
    requires
        sqrt_price_ax96 > 0,
        sqrt_price_bx96 > 0,
        ({
            let lower = if sqrt_price_ax96 <= sqrt_price_bx96 { sqrt_price_ax96 } else { sqrt_price_bx96 } as int;
            let upper = if sqrt_price_ax96 <= sqrt_price_bx96 { sqrt_price_bx96 } else { sqrt_price_ax96 } as int;
            ceil_div(liquidity * q96() * (upper - lower), upper) <= u128::MAX
        }),
    ensures
        ({
            let lower = if sqrt_price_ax96 <= sqrt_price_bx96 { sqrt_price_ax96 } else { sqrt_price_bx96 } as int;
            let upper = if sqrt_price_ax96 <= sqrt_price_bx96 { sqrt_price_bx96 } else { sqrt_price_ax96 } as int;
            r == ceil_div(ceil_div(liquidity * q96() * (upper - lower), upper), lower)
        }),
{
    let (lower, upper) = if sqrt_price_ax96 > sqrt_price_bx96 {
        (sqrt_price_bx96, sqrt_price_ax96)
    } else {
        (sqrt_price_ax96, sqrt_price_bx96)
    };
    proof {
        lemma2_to64();
        lemma_pow2_adds(64, 32);
        assert(pow2(96) == q96());
        assert(liquidity * (upper - lower) * pow2(96) == liquidity * q96() * (upper - lower)) by (nonlinear_arith)
            requires
                pow2(96) == q96(),
        ;
    }
    let scaled = mul_shift_div_rounding_up(liquidity, upper - lower, 96, upper);
    div_rounding_up(scaled, lower)
}

} // verus!
