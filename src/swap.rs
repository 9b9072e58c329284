use vstd::prelude::*;
use crate::full_math::{U256, I256, word};

use crate::liquidity_math::{MathError, add_delta, sub_delta};
use crate::swap_math::{compute_swap_step, step_res};
use crate::tick_bitmap::{
    TickBitmap, TickTable, TickInfo, bitmap_words, table_entries, lemma_next_in_word_side, next_in_word,
    next_initialized_tick_within_one_word,
};
use crate::tick_math::{
    MIN_TICK, MAX_TICK, MIN_SQRT_RATIO, MAX_SQRT_RATIO_HI, MAX_SQRT_RATIO_LO,
    get_sqrt_ratio_at_tick, get_tick_at_sqrt_ratio, lemma_extreme_ratios, max_sqrt_ratio, sqrt_ratio_at_tick, tick_res,
};
use crate::full_math::limb;

verus! {

/// The current state of a pool.
#[derive(Debug, Clone, Copy, PartialEq, Eq, Structural)]
pub struct Slot0 {
    pub sqrt_price: U256,
    pub liquidity: u128,
    pub tick: i32,
}

/// What a swap does to the pool: signed deltas of both assets (positive:
/// the pool receives) and the state it ends in.
#[derive(Debug, Clone, Copy, PartialEq, Eq, Structural)]
pub struct SwapResult {
    pub amount0_delta: I256,
    pub amount1_delta: I256,
    pub sqrt_price_after: U256,
    pub liquidity_after: u128,
    pub tick_after: i32,
}

#[derive(Debug, Clone, Copy, PartialEq, Eq, Structural)]
pub enum SwapError {
    /// The price limit lies outside the protocol's price range.
    PriceLimitOutOfRange,
    /// The price limit is not strictly beyond the current price in the trade direction.
    PriceLimitNotBeyondCurrent,
    /// The pool's tick lies outside the protocol's tick range.
    TickOutOfRange,
    /// A boundary marked initialized has no entry in the tick table.
    TickNotFound,
    Math(MathError),
}

pub open spec fn max_sqrt_ratio_value() -> nat {
    MAX_SQRT_RATIO_HI as nat * limb() + MAX_SQRT_RATIO_LO as nat
}

/// The price limit lies strictly inside the protocol's price range.
pub open spec fn limit_in_range(limit: nat) -> bool {
    MIN_SQRT_RATIO < limit < max_sqrt_ratio_value()
}

/// The price limit lies strictly beyond the current price in the trade direction.
pub open spec fn limit_beyond(zero_for_one: bool, limit: nat, price: nat) -> bool {
    if zero_for_one { limit < price } else { limit > price }
}

/// The outcome of `cross_tick` on values.
pub open spec fn cross_res(liquidity: nat, info: TickInfo, zero_for_one: bool) -> Result<nat, MathError> {
    let after = if zero_for_one { liquidity - info.l_net } else { liquidity + info.l_net };
    if after < 0 {
        Err(MathError::LiquidityUnderflow)
    } else if after > u128::MAX {
        Err(MathError::LiquidityOverflow)
    } else {
        Ok(after as nat)
    }
}

/// The state a swap carries from segment to segment: remaining amount,
/// calculated amount, price, tick and active liquidity.
pub type WalkState = (nat, nat, nat, int, nat);

/// The walk goes on while an amount remains, the price is short of the limit
/// and liquidity is active.
pub open spec fn walk_active(st: WalkState, limit: nat) -> bool {
    st.0 != 0 && st.2 != limit && st.4 != 0
}

/// The next boundary in the word (clamped to the tick range), whether it is
/// initialized, its price, and the price a segment heads for.
pub open spec fn walk_target(words: Map<i16, U256>, spacing: int, zero_for_one: bool, limit: nat, tick: int)
    -> (int, bool, nat, nat)
{
    let (found, initialized) = next_in_word(words, tick, spacing, zero_for_one);
    let tick_next = if found < MIN_TICK { MIN_TICK as int } else if found > MAX_TICK { MAX_TICK as int } else { found };
    let price_next = sqrt_ratio_at_tick(tick_next);
    let hit_limit = if zero_for_one { price_next < limit } else { limit < price_next };
    (tick_next, initialized, price_next, if hit_limit { limit } else { price_next })
}

/// The first half of a segment: find the next boundary, step toward it (or
/// the limit) and book the amounts. Gives the boundary tick, whether it is
/// initialized, its price, the price reached, and the new amounts.
pub open spec fn walk_move(
    words: Map<i16, U256>,
    spacing: int,
    zero_for_one: bool,
    exact_input: bool,
    limit: nat,
    fee: nat,
    st: WalkState,
) -> Result<(int, bool, nat, nat, nat, nat), SwapError> {
    let (remaining, calculated, price, tick, liquidity) = st;
    let (tick_next, initialized, price_next, target) = walk_target(words, spacing, zero_for_one, limit, tick);
    match step_res(price, target, liquidity, !exact_input, remaining, fee) {
        Err(e) => Err(SwapError::Math(e)),
        Ok((next, amount_in, amount_out, fee_amount)) => if amount_in + fee_amount >= word() {
            Err(SwapError::Math(MathError::Overflow))
        } else if exact_input {
            if calculated + amount_out >= word() {
                Err(SwapError::Math(MathError::Overflow))
            } else {
                Ok((tick_next, initialized, price_next, next, (remaining - (amount_in + fee_amount)) as nat,
                    calculated + amount_out))
            }
        } else if calculated + (amount_in + fee_amount) >= word() {
            Err(SwapError::Math(MathError::Overflow))
        } else {
            Ok((tick_next, initialized, price_next, next, (remaining - amount_out) as nat,
                calculated + (amount_in + fee_amount)))
        },
    }
}

/// The second half of a segment: cross the boundary if the price landed on
/// it, else place the tick by the new price.
pub open spec fn walk_land(
    ticks: Map<i32, TickInfo>,
    zero_for_one: bool,
    price: nat,
    tick: int,
    liquidity: nat,
    moved: (int, bool, nat, nat, nat, nat),
) -> Result<WalkState, SwapError> {
    let (tick_next, initialized, price_next, next, remaining, calculated) = moved;
    if next == price_next {
        let tick2 = if zero_for_one { tick_next - 1 } else { tick_next };
        if !initialized {
            Ok((remaining, calculated, next, tick2, liquidity))
        } else if !ticks.contains_key(tick_next as i32) {
            Err(SwapError::TickNotFound)
        } else {
            match cross_res(liquidity, ticks[tick_next as i32], zero_for_one) {
                Err(e) => Err(SwapError::Math(e)),
                Ok(l) => Ok((remaining, calculated, next, tick2, l)),
            }
        }
    } else if next != price {
        match tick_res(next) {
            Err(e) => Err(SwapError::Math(e)),
            Ok(t) => Ok((remaining, calculated, next, t, liquidity)),
        }
    } else {
        Ok((remaining, calculated, next, tick, liquidity))
    }
}

/// One segment of the walk.
pub open spec fn walk_step(
    ticks: Map<i32, TickInfo>,
    words: Map<i16, U256>,
    spacing: int,
    zero_for_one: bool,
    exact_input: bool,
    limit: nat,
    fee: nat,
    st: WalkState,
) -> Result<WalkState, SwapError> {
    match walk_move(words, spacing, zero_for_one, exact_input, limit, fee, st) {
        Err(e) => Err(e),
        Ok(m) => walk_land(ticks, zero_for_one, st.2, st.3, st.4, m),
    }
}

/// More segments than any walk takes: each segment that does not end the walk
/// moves the tick strictly toward the end of the tick range.
pub open spec fn walk_fuel() -> nat {
    3_549_092
}

/// The swap's walk from state `st`, segment by segment, for at most `fuel` segments.
pub open spec fn swap_walk(
    ticks: Map<i32, TickInfo>,
    words: Map<i16, U256>,
    spacing: int,
    zero_for_one: bool,
    exact_input: bool,
    limit: nat,
    fee: nat,
    st: WalkState,
    fuel: nat,
) -> Result<WalkState, SwapError>
    decreases fuel,
{
    if !walk_active(st, limit) {
        Ok(st)
    } else if fuel == 0 {
        Err(SwapError::Math(MathError::Overflow))
    } else {
        match walk_step(ticks, words, spacing, zero_for_one, exact_input, limit, fee, st) {
            Err(e) => Err(e),
            Ok(st2) => swap_walk(ticks, words, spacing, zero_for_one, exact_input, limit, fee, st2, (fuel - 1) as nat),
        }
    }
}

/// What `swap` returns, on values: the two deltas, the price, the liquidity
/// and the tick after the swap.
pub open spec fn swap_spec(
    ticks: Map<i32, TickInfo>,
    words: Map<i16, U256>,
    spacing: int,
    zero_for_one: bool,
    amount_specified: int,
    limit: nat,
    slot0: Slot0,
    fee: nat,
) -> Result<(int, int, nat, nat, int), SwapError> {
    if !limit_in_range(limit) {
        Err(SwapError::PriceLimitOutOfRange)
    } else if !limit_beyond(zero_for_one, limit, slot0.sqrt_price@) {
        Err(SwapError::PriceLimitNotBeyondCurrent)
    } else if !(MIN_TICK <= slot0.tick <= MAX_TICK) {
        Err(SwapError::TickOutOfRange)
    } else if slot0.liquidity == 0 {
        Ok((0, 0, slot0.sqrt_price@, 0, slot0.tick as int))
    } else {
        let exact_input = amount_specified > 0;
        let specified = (if amount_specified < 0 { -amount_specified } else { amount_specified }) as nat;
        let start = (specified, 0nat, slot0.sqrt_price@, slot0.tick as int, slot0.liquidity as nat);
        match swap_walk(ticks, words, spacing, zero_for_one, exact_input, limit, fee, start, walk_fuel()) {
            Err(e) => Err(e),
            Ok((remaining, calculated, price, tick, liquidity)) => {
                let used = specified - remaining;
                let specified_delta = if exact_input { used } else { -used };
                let calculated_delta = if exact_input { -(calculated as int) } else { calculated as int };
                if zero_for_one == exact_input {
                    Ok((specified_delta, calculated_delta, price, liquidity, tick))
                } else {
                    Ok((calculated_delta, specified_delta, price, liquidity, tick))
                }
            },
        }
    }
}

pub open spec fn result_view(r: SwapResult) -> (int, int, nat, nat, int) {
    (r.amount0_delta@, r.amount1_delta@, r.sqrt_price_after@, r.liquidity_after as nat, r.tick_after as int)
}

/// Active liquidity after crossing a boundary: its net delta is added when
/// the price rises and subtracted when it falls.
pub fn cross_tick(liquidity: u128, info: &TickInfo, zero_for_one: bool) -> (r: Result<u128, MathError>)
    ensures
        ({
            let after = if zero_for_one { liquidity - info.l_net } else { liquidity + info.l_net };
            &&& 0 <= after <= u128::MAX <==> r is Ok
            &&& r is Ok ==> r->Ok_0 == after
            &&& match r { Ok(l) => cross_res(liquidity as nat, *info, zero_for_one) == Ok::<nat, MathError>(l as nat),
                Err(e) => cross_res(liquidity as nat, *info, zero_for_one) == Err::<nat, MathError>(e) }
        }),
{
    if zero_for_one {
        sub_delta(liquidity, info.l_net)
    } else {
        add_delta(liquidity, info.l_net)
    }
}

/// How far a tick is from the end of the tick range in the trade direction.
pub open spec fn tick_distance(zero_for_one: bool, tick: int) -> int {
    if zero_for_one { tick - (MIN_TICK - 1) } else { MAX_TICK - tick }
}

/// Where a segment heads: the next boundary in the word (clamped to the tick
/// range), whether it is initialized, its price, and the target price.
fn segment_target(
    tick_bitmap: &TickBitmap,
    tick_spacing: i32,
    zero_for_one: bool,
    sqrt_price_limit: U256,
    tick: i32,
) -> (r: (i32, bool, U256, U256))
    requires
        MIN_TICK - 1 <= tick <= MAX_TICK,
        tick_spacing > 0,
        MIN_SQRT_RATIO < sqrt_price_limit@ < max_sqrt_ratio_value(),
    ensures
        ({
            let (found, initialized) = next_in_word(bitmap_words(*tick_bitmap), tick as int, tick_spacing as int, zero_for_one);
            let tick_next = if found < MIN_TICK { MIN_TICK as int } else if found > MAX_TICK { MAX_TICK as int } else { found };
            let price_next = sqrt_ratio_at_tick(tick_next);
            let hit_limit = if zero_for_one { price_next < sqrt_price_limit@ } else { sqrt_price_limit@ < price_next };
            &&& r.0 as int == tick_next
            &&& r.1 == initialized
            &&& r.2@ == price_next
            &&& r.3@ == if hit_limit { sqrt_price_limit@ } else { price_next }
            &&& (r.0 as int, r.1, r.2@, r.3@) == walk_target(bitmap_words(*tick_bitmap), tick_spacing as int,
                zero_for_one, sqrt_price_limit@, tick as int)
            &&& zero_for_one ==> r.3@ >= sqrt_price_limit@
            &&& !zero_for_one ==> r.3@ <= sqrt_price_limit@
            &&& r.2@ == r.3@ ==> (if zero_for_one { r.0 <= tick } else { r.0 > tick })
        }),
{
    let (found, initialized) = next_initialized_tick_within_one_word(tick_bitmap, tick, tick_spacing, zero_for_one);
    proof {
        lemma_next_in_word_side(bitmap_words(*tick_bitmap), tick as int, tick_spacing as int, zero_for_one);
        lemma_extreme_ratios();
    }
    let tick_next: i32 = if found < MIN_TICK as i64 {
        MIN_TICK
    } else if found > MAX_TICK as i64 {
        MAX_TICK
    } else {
        found as i32
    };
    let price_next = get_sqrt_ratio_at_tick(tick_next).unwrap();
    let hit_limit = if zero_for_one { price_next.lt(&sqrt_price_limit) } else { sqrt_price_limit.lt(&price_next) };
    let target = if hit_limit { sqrt_price_limit } else { price_next };
    (tick_next, initialized, price_next, target)
}

/// The first half of a segment, as `walk_move` describes it.
#[verifier::rlimit(100)]
fn segment_move(
    tick_bitmap: &TickBitmap,
    tick_spacing: i32,
    zero_for_one: bool,
    exact_input: bool,
    sqrt_price_limit: U256,
    fee: u32,
    remaining: U256,
    calculated: U256,
    sqrt_price: U256,
    tick: i32,
    liquidity: u128,
) -> (r: Result<(i32, bool, U256, U256, U256, U256), SwapError>)
    requires
        MIN_TICK - 1 <= tick <= MAX_TICK,
        tick_spacing > 0,
        fee < 1_000_000,
        remaining@ > 0,
        liquidity > 0,
        sqrt_price@ != sqrt_price_limit@,
        MIN_SQRT_RATIO < sqrt_price_limit@ < max_sqrt_ratio_value(),
        zero_for_one ==> sqrt_price@ >= sqrt_price_limit@,
        !zero_for_one ==> sqrt_price@ <= sqrt_price_limit@,
    ensures
        ({
            let st = (remaining@, calculated@, sqrt_price@, tick as int, liquidity as nat);
            let w = walk_move(bitmap_words(*tick_bitmap), tick_spacing as int, zero_for_one, exact_input,
                sqrt_price_limit@, fee as nat, st);
            match r {
                Err(e) => w == Err::<(int, bool, nat, nat, nat, nat), SwapError>(e),
                Ok((tn, init, pn, next, r2, c2)) => {
                    &&& w == Ok::<(int, bool, nat, nat, nat, nat), SwapError>((tn as int, init, pn@, next@, r2@, c2@))
                    &&& MIN_TICK <= tn <= MAX_TICK
                    &&& r2@ <= remaining@
                    &&& zero_for_one ==> next@ >= sqrt_price_limit@
                    &&& !zero_for_one ==> next@ <= sqrt_price_limit@
                    &&& next@ == pn@ ==> (if zero_for_one { tn <= tick } else { tn > tick })
                    &&& next@ != pn@ ==> next@ == sqrt_price_limit@ || r2@ == 0
                }
            }
        }),
{
    let mut remaining = remaining;
    let mut calculated = calculated;
    let mut sqrt_price = sqrt_price;
    let (tick_next, initialized, price_next, target) =
        segment_target(tick_bitmap, tick_spacing, zero_for_one, sqrt_price_limit, tick);
    let owed = I256::from_parts(!exact_input, remaining);
    let (price_after, amount_in, amount_out, fee_amount) =
        match compute_swap_step(sqrt_price, target, liquidity, owed, fee) {
            Ok(s) => s,
            Err(e) => { return Err(SwapError::Math(e)); }
        };
    sqrt_price = price_after;
    if exact_input {
        let spent = match amount_in.checked_add(&fee_amount) {
            Ok(v) => v,
            Err(e) => { return Err(SwapError::Math(e)); }
        };
        remaining = remaining.sub(&spent);
        calculated = match calculated.checked_add(&amount_out) {
            Ok(v) => v,
            Err(e) => { return Err(SwapError::Math(e)); }
        };
    } else {
        remaining = remaining.sub(&amount_out);
        let paid = match amount_in.checked_add(&fee_amount) {
            Ok(v) => v,
            Err(e) => { return Err(SwapError::Math(e)); }
        };
        calculated = match calculated.checked_add(&paid) {
            Ok(v) => v,
            Err(e) => { return Err(SwapError::Math(e)); }
        };
    }
    Ok((tick_next, initialized, price_next, sqrt_price, remaining, calculated))
}

/// One segment of a swap, as `walk_step` describes it.
fn swap_segment(
    ticks: &TickTable,
    tick_bitmap: &TickBitmap,
    tick_spacing: i32,
    zero_for_one: bool,
    exact_input: bool,
    sqrt_price_limit: U256,
    fee: u32,
    remaining: U256,
    calculated: U256,
    sqrt_price: U256,
    tick: i32,
    liquidity: u128,
) -> (r: Result<(U256, U256, U256, i32, u128), SwapError>)
    requires
        MIN_TICK - 1 <= tick <= MAX_TICK,
        tick_spacing > 0,
        fee < 1_000_000,
        remaining@ > 0,
        liquidity > 0,
        sqrt_price@ != sqrt_price_limit@,
        MIN_SQRT_RATIO < sqrt_price_limit@ < max_sqrt_ratio_value(),
        zero_for_one ==> sqrt_price@ >= sqrt_price_limit@,
        !zero_for_one ==> sqrt_price@ <= sqrt_price_limit@,
    ensures
        ({
            let st = (remaining@, calculated@, sqrt_price@, tick as int, liquidity as nat);
            let w = walk_step(table_entries(*ticks), bitmap_words(*tick_bitmap), tick_spacing as int, zero_for_one,
                exact_input, sqrt_price_limit@, fee as nat, st);
            match r {
                Err(e) => w == Err::<WalkState, SwapError>(e),
                Ok((r2, c2, p2, t2, l2)) => {
                    &&& w == Ok::<WalkState, SwapError>((r2@, c2@, p2@, t2 as int, l2 as nat))
                    &&& MIN_TICK - 1 <= t2 <= MAX_TICK
                    &&& r2@ <= remaining@
                    &&& zero_for_one ==> p2@ >= sqrt_price_limit@
                    &&& !zero_for_one ==> p2@ <= sqrt_price_limit@
                    &&& walk_active((r2@, c2@, p2@, t2 as int, l2 as nat), sqrt_price_limit@)
                        ==> tick_distance(zero_for_one, t2 as int) < tick_distance(zero_for_one, tick as int)
                }
            }
        }),
{
    let step_start = sqrt_price;
    let (tick_next, initialized, price_next, sqrt_price, remaining, calculated) =
        segment_move(tick_bitmap, tick_spacing, zero_for_one, exact_input, sqrt_price_limit, fee,
            remaining, calculated, sqrt_price, tick, liquidity)?;
    let mut tick = tick;
    let mut liquidity = liquidity;
    if sqrt_price.eq(&price_next) {
        if initialized {
            let info = match ticks.get(tick_next) {
                Some(i) => i,
                None => {
                    assert(!table_entries(*ticks).contains_key(tick_next));
                    return Err(SwapError::TickNotFound);
                }
            };
            liquidity = match cross_tick(liquidity, &info, zero_for_one) {
                Ok(l) => l,
                Err(e) => { return Err(SwapError::Math(e)); }
            };
        }
        tick = if zero_for_one { tick_next - 1 } else { tick_next };
    } else if !sqrt_price.eq(&step_start) {
        tick = match get_tick_at_sqrt_ratio(&sqrt_price) {
            Ok(t) => t,
            Err(e) => { return Err(SwapError::Math(e)); }
        };
    }
    Ok((remaining, calculated, sqrt_price, tick, liquidity))
}

/// Swaps against a pool snapshot: `amount_specified` positive is an exact
/// input, negative an exact output; `zero_for_one` sells asset 0. Stops when
/// the amount is used up, the price reaches `sqrt_price_limit`, or active
/// liquidity is zero.
#[verifier::rlimit(100)]
pub fn swap(
    ticks: &TickTable,
    tick_bitmap: &TickBitmap,
    tick_spacing: i32,
    zero_for_one: bool,
    amount_specified: I256,
    sqrt_price_limit: U256,
    slot0: &Slot0,
    fee: u32,
) -> (r: Result<SwapResult, SwapError>)
    requires
        tick_spacing > 0,
        fee < 1_000_000,
        amount_specified.wf(),
    ensures
        match r {
            Ok(res) => swap_spec(table_entries(*ticks), bitmap_words(*tick_bitmap), tick_spacing as int, zero_for_one,
                amount_specified@, sqrt_price_limit@, *slot0, fee as nat) == Ok::<(int, int, nat, nat, int), SwapError>(result_view(res)),
            Err(e) => swap_spec(table_entries(*ticks), bitmap_words(*tick_bitmap), tick_spacing as int, zero_for_one,
                amount_specified@, sqrt_price_limit@, *slot0, fee as nat) == Err::<(int, int, nat, nat, int), SwapError>(e),
        },
        r == Err::<SwapResult, SwapError>(SwapError::PriceLimitOutOfRange)
            <==> !limit_in_range(sqrt_price_limit@),
        r == Err::<SwapResult, SwapError>(SwapError::PriceLimitNotBeyondCurrent)
            <==> limit_in_range(sqrt_price_limit@) && !limit_beyond(zero_for_one, sqrt_price_limit@, slot0.sqrt_price@),
        r == Err::<SwapResult, SwapError>(SwapError::TickOutOfRange)
            <==> limit_in_range(sqrt_price_limit@) && limit_beyond(zero_for_one, sqrt_price_limit@, slot0.sqrt_price@)
                && !(MIN_TICK <= slot0.tick <= MAX_TICK),
        limit_in_range(sqrt_price_limit@) && limit_beyond(zero_for_one, sqrt_price_limit@, slot0.sqrt_price@)
            && MIN_TICK <= slot0.tick <= MAX_TICK && slot0.liquidity == 0 ==> r == Ok::<SwapResult, SwapError>(SwapResult {
                amount0_delta: I256 { negative: false, magnitude: U256 { hi: 0, lo: 0 } },
                amount1_delta: I256 { negative: false, magnitude: U256 { hi: 0, lo: 0 } },
                sqrt_price_after: slot0.sqrt_price,
                liquidity_after: 0,
                tick_after: slot0.tick,
            }),
        r is Ok ==> r->Ok_0.amount0_delta.wf() && r->Ok_0.amount1_delta.wf(),
        r is Ok ==> ({
            let res = r->Ok_0;
            let exact_input = amount_specified@ > 0;
            let (specified_delta, calculated_delta) = if zero_for_one == exact_input {
                (res.amount0_delta@, res.amount1_delta@)
            } else {
                (res.amount1_delta@, res.amount0_delta@)
            };
            &&& exact_input ==> 0 <= specified_delta <= amount_specified@ && calculated_delta <= 0
            &&& !exact_input ==> amount_specified@ <= specified_delta <= 0 && calculated_delta >= 0
            &&& specified_delta == amount_specified@ || res.sqrt_price_after == sqrt_price_limit
                || res.liquidity_after == 0
            &&& zero_for_one ==> res.sqrt_price_after@ >= sqrt_price_limit@
            &&& !zero_for_one ==> res.sqrt_price_after@ <= sqrt_price_limit@
            &&& MIN_TICK - 1 <= res.tick_after <= MAX_TICK
        }),
{
    let upper = max_sqrt_ratio();
    if sqrt_price_limit.le(&U256::from_u128(MIN_SQRT_RATIO)) || !sqrt_price_limit.lt(&upper) {
        return Err(SwapError::PriceLimitOutOfRange);
    }
    assert(upper@ == max_sqrt_ratio_value());
    if zero_for_one {
        if !sqrt_price_limit.lt(&slot0.sqrt_price) {
            return Err(SwapError::PriceLimitNotBeyondCurrent);
        }
    } else {
        if !slot0.sqrt_price.lt(&sqrt_price_limit) {
            return Err(SwapError::PriceLimitNotBeyondCurrent);
        }
    }
    if slot0.tick < MIN_TICK || slot0.tick > MAX_TICK {
        return Err(SwapError::TickOutOfRange);
    }
    if slot0.liquidity == 0 {
        return Ok(SwapResult {
            amount0_delta: I256::zero(),
            amount1_delta: I256::zero(),
            sqrt_price_after: slot0.sqrt_price,
            liquidity_after: 0,
            tick_after: slot0.tick,
        });
    }
    let exact_input = amount_specified.is_positive();
    let specified = amount_specified.magnitude;
    let mut remaining = specified;
    let mut calculated = U256::zero();
    let mut sqrt_price = slot0.sqrt_price;
    let mut tick = slot0.tick;
    let mut liquidity = slot0.liquidity;
    let ghost words = bitmap_words(*tick_bitmap);
    let ghost entries = table_entries(*ticks);
    let ghost start: WalkState = (specified@, 0nat, slot0.sqrt_price@, slot0.tick as int, slot0.liquidity as nat);
    assert(specified@ == (if amount_specified@ < 0 { -amount_specified@ } else { amount_specified@ }) as nat);
    assert(limit_in_range(sqrt_price_limit@));
    assert(limit_beyond(zero_for_one, sqrt_price_limit@, slot0.sqrt_price@));
    let ghost mut fuel: nat = walk_fuel();
    while !remaining.is_zero() && !sqrt_price.eq(&sqrt_price_limit) && liquidity != 0
        invariant
            MIN_TICK - 1 <= tick <= MAX_TICK,
            remaining@ <= specified@,
            tick_spacing > 0,
            fee < 1_000_000,
            exact_input == (amount_specified@ > 0),
            specified == amount_specified.magnitude,
            MIN_SQRT_RATIO < sqrt_price_limit@ < max_sqrt_ratio_value(),
            zero_for_one ==> sqrt_price_limit@ < slot0.sqrt_price@,
            !zero_for_one ==> sqrt_price_limit@ > slot0.sqrt_price@,
            slot0.liquidity > 0,
            MIN_TICK <= slot0.tick <= MAX_TICK,
            zero_for_one ==> sqrt_price@ >= sqrt_price_limit@,
            !zero_for_one ==> sqrt_price@ <= sqrt_price_limit@,
            words == bitmap_words(*tick_bitmap),
            entries == table_entries(*ticks),
            start == (specified@, 0nat, slot0.sqrt_price@, slot0.tick as int, slot0.liquidity as nat),
            specified@ == (if amount_specified@ < 0 { -amount_specified@ } else { amount_specified@ }) as nat,
            swap_walk(entries, words, tick_spacing as int, zero_for_one, exact_input, sqrt_price_limit@, fee as nat,
                (remaining@, calculated@, sqrt_price@, tick as int, liquidity as nat), fuel)
                == swap_walk(entries, words, tick_spacing as int, zero_for_one, exact_input, sqrt_price_limit@, fee as nat,
                start, walk_fuel()),
            walk_active((remaining@, calculated@, sqrt_price@, tick as int, liquidity as nat), sqrt_price_limit@)
                ==> fuel >= tick_distance(zero_for_one, tick as int) + 1,
        decreases
            (if remaining@ != 0 && sqrt_price@ != sqrt_price_limit@ && liquidity != 0 { 1int } else { 0int }),
            tick_distance(zero_for_one, tick as int),
    {
        let ghost st: WalkState = (remaining@, calculated@, sqrt_price@, tick as int, liquidity as nat);
        assert(walk_active(st, sqrt_price_limit@));
        assert(swap_walk(entries, words, tick_spacing as int, zero_for_one, exact_input, sqrt_price_limit@, fee as nat, st, fuel)
            == match walk_step(entries, words, tick_spacing as int, zero_for_one, exact_input, sqrt_price_limit@, fee as nat, st) {
                Err(e) => Err(e),
                Ok(st2) => swap_walk(entries, words, tick_spacing as int, zero_for_one, exact_input, sqrt_price_limit@,
                    fee as nat, st2, (fuel - 1) as nat),
            });
        match swap_segment(ticks, tick_bitmap, tick_spacing, zero_for_one, exact_input, sqrt_price_limit, fee,
            remaining, calculated, sqrt_price, tick, liquidity) {
            Err(e) => {
                assert(swap_walk(entries, words, tick_spacing as int, zero_for_one, exact_input, sqrt_price_limit@,
                    fee as nat, start, walk_fuel()) == Err::<WalkState, SwapError>(e));
                assert(swap_spec(entries, words, tick_spacing as int, zero_for_one, amount_specified@, sqrt_price_limit@,
                    *slot0, fee as nat) == Err::<(int, int, nat, nat, int), SwapError>(e));
                return Err(e);
            },
            Ok((r2, c2, p2, t2, l2)) => {
                remaining = r2;
                calculated = c2;
                sqrt_price = p2;
                tick = t2;
                liquidity = l2;
                proof {
                    fuel = (fuel - 1) as nat;
                }
            },
        }
    }
    let specified_delta = I256::from_parts(!exact_input, specified.sub(&remaining));
    let calculated_delta = I256::from_parts(exact_input, calculated);
    let (amount0_delta, amount1_delta) = if zero_for_one == exact_input {
        (specified_delta, calculated_delta)
    } else {
        (calculated_delta, specified_delta)
    };
    Ok(SwapResult {
        amount0_delta,
        amount1_delta,
        sqrt_price_after: sqrt_price,
        liquidity_after: liquidity,
        tick_after: tick,
    })
}

} // verus!
