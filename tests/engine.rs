use uniswap_v3_sim::full_math::{mul_div, I256, U256};
use uniswap_v3_sim::liquidity_math::{add_delta, sub_delta, MathError};
use uniswap_v3_sim::sqrt_price_math::{
    get_amount0_delta, get_amount1_delta, get_next_sqrt_price_from_input,
    get_next_sqrt_price_from_output,
};
use uniswap_v3_sim::swap::{cross_tick, swap, Slot0, SwapError};
use uniswap_v3_sim::swap_math::compute_swap_step;
use uniswap_v3_sim::tick_bitmap::{next_initialized_tick_within_one_word, TickBitmap, TickInfo, TickTable};
use uniswap_v3_sim::tick_math::{
    get_sqrt_ratio_at_tick, get_tick_at_sqrt_ratio, MAX_TICK, MIN_SQRT_RATIO, MIN_TICK,
};

fn u(x: u128) -> U256 {
    U256 { hi: 0, lo: x }
}

fn pos(x: u128) -> I256 {
    I256::from_parts(false, u(x))
}

fn neg(x: u128) -> I256 {
    I256::from_parts(true, u(x))
}

const Q96: u128 = 1 << 96;
const PRICE_60: u128 = 79466191966197645195421774833;
const L: u128 = 1_000_000_000_000_000_000;

fn pool_with_tick_60() -> (TickTable, TickBitmap) {
    let info = TickInfo { index: 60, l_gross: L / 2, l_net: -((L / 2) as i128) };
    let table = TickTable::from_ticks(&vec![info]);
    let bitmap = TickBitmap::from_words(&vec![(0i16, u(0b10))]);
    (table, bitmap)
}

#[test]
fn add_delta_adds_and_fails_on_bounds() {
    assert_eq!(add_delta(10, -3), Ok(7));
    assert_eq!(add_delta(10, 5), Ok(15));
    assert_eq!(add_delta(1, -2), Err(MathError::LiquidityUnderflow));
    assert_eq!(add_delta(u128::MAX, 1), Err(MathError::LiquidityOverflow));
    assert_eq!(sub_delta(10, 3), Ok(7));
    assert_eq!(sub_delta(10, i128::MIN), Ok(10 + (1u128 << 127)));
}

#[test]
fn mul_div_rounds_and_reports_errors() {
    assert_eq!(mul_div(&u(7), &u(3), &u(2), false), Ok(u(10)));
    assert_eq!(mul_div(&u(7), &u(3), &u(2), true), Ok(u(11)));
    assert_eq!(mul_div(&u(6), &u(3), &u(2), true), Ok(u(9)));
    assert_eq!(mul_div(&u(7), &u(3), &u(0), false), Err(MathError::DivideByZero));
    let big = U256 { hi: u128::MAX, lo: u128::MAX };
    assert_eq!(mul_div(&big, &u(2), &u(1), false), Err(MathError::Overflow));
    // (2^256 - 1) * 2^128 / 2^129 needs the 512-bit intermediate.
    let q129 = U256 { hi: 2, lo: 0 };
    assert_eq!(
        mul_div(&big, &U256 { hi: 1, lo: 0 }, &q129, false),
        Ok(U256 { hi: u128::MAX >> 1, lo: u128::MAX })
    );
}

#[test]
fn sqrt_ratio_at_known_ticks() {
    assert_eq!(get_sqrt_ratio_at_tick(0), Ok(u(Q96)));
    assert_eq!(get_sqrt_ratio_at_tick(MIN_TICK), Ok(u(MIN_SQRT_RATIO)));
    assert_eq!(get_sqrt_ratio_at_tick(60), Ok(u(PRICE_60)));
    let max = get_sqrt_ratio_at_tick(MAX_TICK).unwrap();
    assert_eq!(max, U256 { hi: 4294805859, lo: 0xefd1_fc6a_5064_8849_5d95_1d52_6398_8d26 });
    assert_eq!(get_sqrt_ratio_at_tick(MAX_TICK + 1), Err(MathError::TickOutOfRange));
    assert_eq!(get_sqrt_ratio_at_tick(MIN_TICK - 1), Err(MathError::TickOutOfRange));
}

#[test]
fn tick_at_sqrt_ratio_is_greatest_tick_below() {
    assert_eq!(get_tick_at_sqrt_ratio(&u(PRICE_60)), Ok(60));
    assert_eq!(get_tick_at_sqrt_ratio(&u(PRICE_60 - 1)), Ok(59));
    assert_eq!(get_tick_at_sqrt_ratio(&u(Q96)), Ok(0));
    assert_eq!(get_tick_at_sqrt_ratio(&u(MIN_SQRT_RATIO)), Ok(MIN_TICK));
    assert_eq!(get_tick_at_sqrt_ratio(&u(MIN_SQRT_RATIO - 1)), Err(MathError::TickOutOfRange));
}

#[test]
fn amount_deltas_between_tick_0_and_60() {
    assert_eq!(get_amount1_delta(&u(Q96), &u(PRICE_60), L, true), Ok(u(3004354062741926)));
    assert_eq!(get_amount1_delta(&u(PRICE_60), &u(Q96), L, true), Ok(u(3004354062741926)));
    assert_eq!(get_amount0_delta(&u(Q96), &u(PRICE_60), L, false), Ok(u(2995354955910780)));
    assert!(get_amount0_delta(&u(0), &u(PRICE_60), L, false).is_err());
}

#[test]
fn next_price_moves_in_trade_direction() {
    let up = get_next_sqrt_price_from_input(&u(Q96), L, &u(1_000_000), false).unwrap();
    assert_eq!(up, u(Q96 + 1_000_000 * Q96 / L));
    let down = get_next_sqrt_price_from_input(&u(Q96), L, &u(1_000_000_000_000), true).unwrap();
    assert!(down.lo < Q96);
    let out = get_next_sqrt_price_from_output(&u(Q96), L, &u(1_000_000_000_000), true).unwrap();
    assert!(out.lo < Q96);
    assert!(get_next_sqrt_price_from_input(&u(Q96), 0, &u(1), true).is_err());
}

#[test]
fn step_reaching_target_exact_input() {
    let (next, amount_in, amount_out, fee) =
        compute_swap_step(u(Q96), u(PRICE_60), L, pos(10_000_000_000_000_000), 3000).unwrap();
    assert_eq!(next, u(PRICE_60));
    assert_eq!(amount_in, u(3004354062741926));
    assert_eq!(amount_out, u(2995354955910780));
    assert_eq!(fee, u(9040182736436));
}

#[test]
fn step_exhausting_exact_input_spends_everything() {
    let budget: u128 = 1_000_000_000_000;
    let (next, amount_in, _out, fee) =
        compute_swap_step(u(Q96), u(PRICE_60), L, pos(budget), 3000).unwrap();
    assert!(next.lo > Q96 && next.lo < PRICE_60);
    assert_eq!(amount_in.lo + fee.lo, budget);
}

#[test]
fn step_exact_output_is_capped() {
    let owed: u128 = 1_000_000_000_000;
    let (next, _in, amount_out, _fee) =
        compute_swap_step(u(PRICE_60), u(Q96), L, neg(owed), 3000).unwrap();
    assert!(next.lo < PRICE_60 && next.lo > Q96);
    assert!(amount_out.lo <= owed);
}

#[test]
fn one_word_search_both_directions() {
    let bitmap = TickBitmap::from_words(&vec![(0i16, u(0b1010))]);
    assert_eq!(next_initialized_tick_within_one_word(&bitmap, 0, 60, false), (60, true));
    assert_eq!(next_initialized_tick_within_one_word(&bitmap, 60, 60, false), (180, true));
    assert_eq!(next_initialized_tick_within_one_word(&bitmap, 180, 60, false), (255 * 60, false));
    assert_eq!(next_initialized_tick_within_one_word(&bitmap, 60, 60, true), (60, true));
    assert_eq!(next_initialized_tick_within_one_word(&bitmap, 59, 60, true), (0, false));
    assert_eq!(next_initialized_tick_within_one_word(&bitmap, -1, 60, true), (-256 * 60, false));
}

#[test]
fn tick_table_lookup() {
    let (table, _) = pool_with_tick_60();
    assert_eq!(table.get(60).map(|t| t.l_net), Some(-((L / 2) as i128)));
    assert_eq!(table.get(0), None);
}

#[test]
fn crossing_applies_signed_net_delta() {
    let info = TickInfo { index: 60, l_gross: 5, l_net: -5 };
    assert_eq!(cross_tick(10, &info, false), Ok(5));
    assert_eq!(cross_tick(10, &info, true), Ok(15));
    assert_eq!(cross_tick(4, &info, false), Err(MathError::LiquidityUnderflow));
}

#[test]
fn zero_liquidity_pool_returns_zero_result() {
    let (table, bitmap) = pool_with_tick_60();
    let slot0 = Slot0 { sqrt_price: u(Q96), liquidity: 0, tick: 0 };
    let r = swap(&table, &bitmap, 60, false, pos(1_000_000), u(PRICE_60 * 2), &slot0, 3000).unwrap();
    assert_eq!(r.amount0_delta, I256::zero());
    assert_eq!(r.amount1_delta, I256::zero());
    assert_eq!(r.sqrt_price_after, u(Q96));
    assert_eq!(r.tick_after, 0);
}

#[test]
fn swap_crosses_initialized_tick() {
    let (table, bitmap) = pool_with_tick_60();
    let slot0 = Slot0 { sqrt_price: u(Q96), liquidity: L, tick: 0 };
    let amount: u128 = 3014394245478362;
    let r = swap(&table, &bitmap, 60, false, pos(amount), u(PRICE_60 * 2), &slot0, 3000).unwrap();
    assert_eq!(r.liquidity_after, L / 2);
    assert_eq!(r.tick_after, 60);
    assert_eq!(r.sqrt_price_after, u(79466349947153698638510936359));
    assert_eq!(r.amount1_delta, pos(amount));
    assert_eq!(r.amount0_delta, neg(2996345990148029));
}

#[test]
fn swap_stops_exactly_on_boundary() {
    let (table, bitmap) = pool_with_tick_60();
    let slot0 = Slot0 { sqrt_price: u(Q96), liquidity: L, tick: 0 };
    let amount: u128 = 3013394245478362;
    let r = swap(&table, &bitmap, 60, false, pos(amount), u(PRICE_60 * 2), &slot0, 3000).unwrap();
    assert_eq!(r.sqrt_price_after, u(PRICE_60));
    assert_eq!(r.amount1_delta, pos(amount));
    assert_eq!(r.amount0_delta, neg(2995354955910780));
    assert_eq!(r.liquidity_after, L / 2);
    assert_eq!(r.tick_after, 60);
}

#[test]
fn selling_asset0_lowers_price() {
    let (table, bitmap) = pool_with_tick_60();
    let slot0 = Slot0 { sqrt_price: u(Q96), liquidity: L, tick: 0 };
    let r = swap(&table, &bitmap, 60, true, pos(1_000_000_000), u(Q96 / 2), &slot0, 3000).unwrap();
    assert!(r.sqrt_price_after.lo < Q96);
    assert_eq!(r.amount0_delta, pos(1_000_000_000));
    assert!(r.amount1_delta.negative);
    assert_eq!(r.tick_after, -1);
}

#[test]
fn swap_rejects_bad_price_limits() {
    let (table, bitmap) = pool_with_tick_60();
    let slot0 = Slot0 { sqrt_price: u(Q96), liquidity: L, tick: 0 };
    assert_eq!(
        swap(&table, &bitmap, 60, true, pos(1), u(MIN_SQRT_RATIO), &slot0, 3000).err(),
        Some(SwapError::PriceLimitOutOfRange)
    );
    assert_eq!(
        swap(&table, &bitmap, 60, true, pos(1), u(Q96 + 1), &slot0, 3000).err(),
        Some(SwapError::PriceLimitNotBeyondCurrent)
    );
    assert_eq!(
        swap(&table, &bitmap, 60, false, pos(1), u(Q96), &slot0, 3000).err(),
        Some(SwapError::PriceLimitNotBeyondCurrent)
    );
}

#[test]
fn step_amounts_match_formulas_at_returned_price() {
    let (next, amount_in, amount_out, _fee) =
        compute_swap_step(u(Q96), u(PRICE_60), L, pos(1_000_000_000_000), 3000).unwrap();
    assert_eq!(get_amount1_delta(&u(Q96), &next, L, true), Ok(amount_in));
    assert_eq!(get_amount0_delta(&u(Q96), &next, L, false), Ok(amount_out));
}

#[test]
fn swap_walks_empty_words_until_limit() {
    let table = TickTable::from_ticks(&vec![]);
    let bitmap = TickBitmap::from_words(&vec![]);
    let slot0 = Slot0 { sqrt_price: u(Q96), liquidity: L, tick: 0 };
    let limit = get_sqrt_ratio_at_tick(-40_000).unwrap();
    let r = swap(&table, &bitmap, 60, true, pos(u64::MAX as u128), limit, &slot0, 3000).unwrap();
    assert_eq!(r.sqrt_price_after, limit);
    assert_eq!(r.liquidity_after, L);
    assert!(r.amount0_delta.magnitude.lo < u64::MAX as u128);
    assert!(r.amount1_delta.negative);
}

#[test]
fn swap_crosses_tick_60_up_to_the_global_limit() {
    let (table, bitmap) = pool_with_tick_60();
    let slot0 = Slot0 { sqrt_price: u(Q96), liquidity: L, tick: 0 };
    let max = get_sqrt_ratio_at_tick(MAX_TICK).unwrap();
    let limit = U256 { hi: max.hi, lo: max.lo - 1 };
    let amount: u128 = 3_020_000_000_000_000;
    let r = swap(&table, &bitmap, 60, false, pos(amount), limit, &slot0, 3000).unwrap();
    assert_eq!(r.liquidity_after, L / 2);
    assert_eq!(r.tick_after, 60);
    assert!(r.sqrt_price_after.lo > PRICE_60);
    assert_eq!(r.amount1_delta, pos(amount));
    assert!(r.amount0_delta.negative);
}

#[test]
fn swap_rejects_pool_tick_out_of_range() {
    let (table, bitmap) = pool_with_tick_60();
    let slot0 = Slot0 { sqrt_price: u(Q96), liquidity: L, tick: MAX_TICK + 1 };
    assert_eq!(
        swap(&table, &bitmap, 60, false, pos(1), u(PRICE_60), &slot0, 3000).err(),
        Some(SwapError::TickOutOfRange)
    );
}

#[test]
fn swap_reports_missing_tick_entry() {
    let table = TickTable::from_ticks(&vec![]);
    let bitmap = TickBitmap::from_words(&vec![(0i16, u(0b10))]);
    let slot0 = Slot0 { sqrt_price: u(Q96), liquidity: L, tick: 0 };
    assert_eq!(
        swap(&table, &bitmap, 60, false, pos(10_000_000_000_000_000), u(PRICE_60 * 2), &slot0, 3000).err(),
        Some(SwapError::TickNotFound)
    );
}
