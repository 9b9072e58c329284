use vstd::prelude::*;
use crate::full_math::{U256, I256, mul_div, mul_div_spec, mul_div_res, view_res, word, limb, lemma_view_bound};
use crate::sqrt_price_math::{
    q96, u160_bound, lemma_ceil_le, lemma_ceil_covers, lemma_amounts_fit, lemma_input0_small, lemma_output0_fits,
};
use crate::liquidity_math::MathError;
use crate::sqrt_price_math::{
    amount0_spec, amount1_spec, amount0_res, amount1_res, from_input_res, from_output_res, get_amount0_delta, get_amount1_delta,
    get_next_sqrt_price_from_input, get_next_sqrt_price_from_output,
    lemma_input0_stays_above_target, lemma_input1_stays_below_target,
    lemma_output0_stays_below_target, lemma_output1_stays_above_target,
};

verus! {

/// One million: fees are expressed in millionths of the notional.
pub open spec fn fee_unit() -> nat {
    1_000_000
}

pub open spec fn lower_of(a: nat, b: nat) -> nat {
    if a <= b { a } else { b }
}

pub open spec fn upper_of(a: nat, b: nat) -> nat {
    if a <= b { b } else { a }
}

/// The input the pool takes to move the price between `a` and `b`: asset 0
/// when selling asset 0, else asset 1; rounded up.
pub open spec fn input_amount(zero_for_one: bool, a: nat, b: nat, liquidity: nat) -> nat {
    if zero_for_one {
        amount0_spec(lower_of(a, b), upper_of(a, b), liquidity, true)
    } else {
        amount1_spec(lower_of(a, b), upper_of(a, b), liquidity, true)
    }
}

/// The output the pool pays when the price moves between `a` and `b`:
/// asset 1 when selling asset 0, else asset 0; rounded down.
pub open spec fn output_amount(zero_for_one: bool, a: nat, b: nat, liquidity: nat) -> nat {
    if zero_for_one {
        amount1_spec(lower_of(a, b), upper_of(a, b), liquidity, false)
    } else {
        amount0_spec(lower_of(a, b), upper_of(a, b), liquidity, false)
    }
}

fn input_delta(zero_for_one: bool, a: &U256, b: &U256, liquidity: u128) -> (r: Result<U256, MathError>)
    ensures
        view_res(r) == input_res(zero_for_one, a@, b@, liquidity as nat),
        r is Ok ==> r->Ok_0@ == input_amount(zero_for_one, a@, b@, liquidity as nat),
        zero_for_one && (a@ == 0 || b@ == 0) ==> r is Err,
        0 < a@ < u160_bound() && 0 < b@ < u160_bound() ==> r is Ok && r->Ok_0@ <= liquidity * q96(),
{
    proof {
        lemma_deltas_fit(a@, b@, liquidity as nat, true);
    }
    if zero_for_one {
        get_amount0_delta(a, b, liquidity, true)
    } else {
        get_amount1_delta(a, b, liquidity, true)
    }
}

fn output_delta(zero_for_one: bool, a: &U256, b: &U256, liquidity: u128) -> (r: Result<U256, MathError>)
    ensures
        view_res(r) == output_res(zero_for_one, a@, b@, liquidity as nat),
        r is Ok ==> r->Ok_0@ == output_amount(zero_for_one, a@, b@, liquidity as nat),
        !zero_for_one && (a@ == 0 || b@ == 0) ==> r is Err,
        0 < a@ < u160_bound() && 0 < b@ < u160_bound() ==> r is Ok && r->Ok_0@ <= liquidity * q96(),
{
    proof {
        lemma_deltas_fit(a@, b@, liquidity as nat, false);
    }
    if zero_for_one {
        get_amount1_delta(a, b, liquidity, false)
    } else {
        get_amount0_delta(a, b, liquidity, false)
    }
}

proof fn lemma_less_fee_le(owed: nat, fee_pips: nat)
    requires
        fee_pips < fee_unit(),
    ensures
        mul_div_spec(owed, (fee_unit() - fee_pips) as nat, fee_unit(), false) <= owed,
        mul_div_spec(owed, (fee_unit() - fee_pips) as nat, fee_unit(), false) * fee_unit()
            <= owed * (fee_unit() - fee_pips),
{
    let u = fee_unit() as int;
    let n = (owed * (fee_unit() - fee_pips) as nat) as int;
    vstd::arithmetic::div_mod::lemma_fundamental_div_mod(n, u);
    let q = n / u;
    assert(q * u <= n && q <= owed) by (nonlinear_arith)
        requires
            n == u * q + n % u,
            0 <= n % u,
            n == owed * (u - fee_pips),
            u > 0,
            fee_pips >= 0,
    ;
}

/// The input of a step that reaches its target plus the fee on it fits the
/// budget that the input was checked against.
proof fn lemma_fee_fits(owed: nat, amount_in: nat, fee_pips: nat)
    requires
        fee_pips < fee_unit(),
        amount_in <= mul_div_spec(owed, (fee_unit() - fee_pips) as nat, fee_unit(), false),
    ensures
        amount_in + mul_div_spec(amount_in, fee_pips, (fee_unit() - fee_pips) as nat, true) <= owed,
{
    lemma_less_fee_le(owed, fee_pips);
    let u = fee_unit() as int;
    let less = mul_div_spec(owed, (fee_unit() - fee_pips) as nat, fee_unit(), false) as int;
    assert(amount_in * fee_pips <= (owed - amount_in) * (u - fee_pips) && amount_in <= owed) by (nonlinear_arith)
        requires
            amount_in <= less,
            less * u <= owed * (u - fee_pips),
            fee_pips < u,
            fee_pips >= 0,
    ;
    lemma_ceil_le((amount_in * fee_pips) as int, u - fee_pips, owed - amount_in);
}

/// Priced back at the price it produced, an input of asset 1 costs no more
/// than the input it came from.
proof fn lemma_input1_round_trip(p: nat, l: nat, a: nat)
    requires
        l > 0,
    ensures
        input_amount(false, p, p + mul_div_spec(a, q96(), l, false), l) <= a,
{
    let q = q96() as int;
    let m = (a * q96()) as int;
    vstd::arithmetic::div_mod::lemma_fundamental_div_mod(m, l as int);
    let d = m / (l as int);
    assert(l * d <= a * q) by (nonlinear_arith)
        requires
            m == l * d + m % (l as int),
            0 <= m % (l as int),
            m == a * q,
    ;
    assert((p + d) - p == d);
    lemma_ceil_le(l * d, q, a as int);
}

/// Priced back at the price it produced, an input of asset 0 costs no more
/// than the input it came from.
proof fn lemma_input0_round_trip(p: nat, l: nat, a: nat, next: nat)
    requires
        0 < next <= p,
        next * (l * q96() + a * p) >= l * q96() * p,
    ensures
        input_amount(true, p, next, l) <= a,
{
    let n1 = l * q96();
    let x = (n1 * (p - next)) as int;
    assert(n1 * (p - next) == (l * q96()) * ((p - next) as nat));
    assert(x <= p * (a * next)) by (nonlinear_arith)
        requires
            next * (n1 + a * p) >= n1 * p,
            x == n1 * (p - next),
            next <= p,
    ;
    lemma_ceil_le(x, p as int, (a * next) as int);
    let c1 = mul_div_spec(n1, (p - next) as nat, p, true);
    assert(c1 * 1 == c1);
    lemma_ceil_le(c1 as int, next as int, a as int);
}

/// An output of asset 1, priced back at the price it produced, yields at
/// least the output asked for.
proof fn lemma_output1_round_trip(p: nat, l: nat, a: nat)
    requires
        l > 0,
        mul_div_spec(a, q96(), l, true) <= p,
    ensures
        output_amount(true, p, (p - mul_div_spec(a, q96(), l, true)) as nat, l) >= a,
{
    let q = q96() as int;
    let m = (a * q96()) as int;
    let c = mul_div_spec(a, q96(), l, true) as int;
    lemma_ceil_covers(m, l as int);
    assert(p - (p - c) == c);
    let n = (l * c) as int;
    assert(n >= a * q) by (nonlinear_arith) requires c * l >= m, m == a * q, n == l * c;
    vstd::arithmetic::div_mod::lemma_fundamental_div_mod(n, q);
    assert(n / q >= a) by (nonlinear_arith)
        requires
            n == q * (n / q) + n % q,
            n % q < q,
            n >= a * q,
            q > 0,
    ;
}

/// An output of asset 0, priced back at the price it produced, yields at
/// least the output asked for.
proof fn lemma_output0_round_trip(p: nat, l: nat, a: nat, next: nat)
    requires
        0 < p <= next,
        next * (l * q96() - a * p) >= l * q96() * p,
    ensures
        output_amount(false, p, next, l) >= a,
{
    let n1 = l * q96();
    let x = (n1 * (next - p)) as int;
    assert(n1 * (next - p) == (l * q96()) * ((next - p) as nat));
    assert(x >= next * (a * p)) by (nonlinear_arith)
        requires
            next * (n1 - a * p) >= n1 * p,
            x == n1 * (next - p),
    ;
    vstd::arithmetic::div_mod::lemma_fundamental_div_mod(x, next as int);
    let f1 = x / (next as int);
    assert(f1 >= a * p) by (nonlinear_arith)
        requires
            x == next * f1 + x % (next as int),
            x % (next as int) < next,
            x >= next * (a * p),
            next > 0,
    ;
    assert(f1 * 1 == f1);
    vstd::arithmetic::div_mod::lemma_fundamental_div_mod(f1, p as int);
    assert(f1 / (p as int) >= a) by (nonlinear_arith)
        requires
            f1 == p * (f1 / (p as int)) + f1 % (p as int),
            f1 % (p as int) < p,
            f1 >= a * p,
            p > 0,
    ;
}

proof fn lemma_deltas_fit(a: nat, b: nat, l: nat, round_up: bool)
    requires
        l < limb(),
    ensures
        0 < a < u160_bound() && 0 < b < u160_bound() ==> ({
            let (lo, hi) = (lower_of(a, b), upper_of(a, b));
            &&& mul_div_spec(l * q96(), (hi - lo) as nat, hi, round_up) < word()
            &&& amount0_spec(lo, hi, l, round_up) <= l * q96()
            &&& amount1_spec(lo, hi, l, round_up) <= l * q96()
            &&& l * q96() < word()
        }),
{
    assert(l * q96() < word()) by (nonlinear_arith) requires l < limb(), q96() < limb(), word() == limb() * limb();
    if 0 < a < u160_bound() && 0 < b < u160_bound() {
        lemma_amounts_fit(lower_of(a, b), upper_of(a, b), l, round_up);
    }
}

/// With no liquidity, no amount moves between two non-zero prices.
proof fn lemma_no_liquidity(a: nat, b: nat)
    requires
        a > 0,
        b > 0,
    ensures
        input_amount(true, a, b, 0) == 0,
        input_amount(false, a, b, 0) == 0,
        output_amount(true, a, b, 0) == 0,
        output_amount(false, a, b, 0) == 0,
{
    let (lo, hi) = (lower_of(a, b), upper_of(a, b));
    assert(0 * q96() == 0);
    assert(0nat * ((hi - lo) as nat) == 0);
    lemma_ceil_covers(0, hi as int);
    lemma_ceil_covers(0, lo as int);
    lemma_ceil_covers(0, q96() as int);
    assert(0nat * 1 == 0);
}

/// The outcome of the input-side amount formula on values.
pub open spec fn input_res(zero_for_one: bool, a: nat, b: nat, liquidity: nat) -> Result<nat, MathError> {
    if zero_for_one { amount0_res(a, b, liquidity, true) } else { amount1_res(a, b, liquidity, true) }
}

/// The outcome of the output-side amount formula on values.
pub open spec fn output_res(zero_for_one: bool, a: nat, b: nat, liquidity: nat) -> Result<nat, MathError> {
    if zero_for_one { amount1_res(a, b, liquidity, false) } else { amount0_res(a, b, liquidity, false) }
}

/// Where a step goes before its amounts are settled: the price reached,
/// with the input or output needed to reach the target.
pub open spec fn step_target_res(cur: nat, tgt: nat, liquidity: nat, negative: bool, owed: nat, fee: nat)
    -> Result<(nat, nat, nat), MathError>
{
    let zero_for_one = cur >= tgt;
    if !negative {
        let less = mul_div_spec(owed, (fee_unit() - fee) as nat, fee_unit(), false);
        match input_res(zero_for_one, tgt, cur, liquidity) {
            Err(e) => Err(e),
            Ok(a) => if a <= less {
                Ok((tgt, a, 0nat))
            } else {
                match from_input_res(cur, liquidity, less, zero_for_one) {
                    Err(e) => Err(e),
                    Ok(n) => Ok((n, a, 0nat)),
                }
            },
        }
    } else {
        match output_res(zero_for_one, tgt, cur, liquidity) {
            Err(e) => Err(e),
            Ok(a) => if a <= owed {
                Ok((tgt, 0nat, a))
            } else {
                match from_output_res(cur, liquidity, owed, zero_for_one) {
                    Err(e) => Err(e),
                    Ok(n) => Ok((n, 0nat, a)),
                }
            },
        }
    }
}

/// The outcome of `compute_swap_step` on values: new price, amount in,
/// amount out and fee.
pub open spec fn step_res(cur: nat, tgt: nat, liquidity: nat, negative: bool, owed: nat, fee: nat)
    -> Result<(nat, nat, nat, nat), MathError>
{
    let zero_for_one = cur >= tgt;
    match step_target_res(cur, tgt, liquidity, negative, owed, fee) {
        Err(e) => Err(e),
        Ok((next, in0, out0)) => {
            let max = next == tgt;
            let in_r = if max && !negative { Ok(in0) } else { input_res(zero_for_one, next, cur, liquidity) };
            match in_r {
                Err(e) => Err(e),
                Ok(amount_in) => {
                    let out_r = if max && negative { Ok(out0) } else { output_res(zero_for_one, next, cur, liquidity) };
                    match out_r {
                        Err(e) => Err(e),
                        Ok(out1) => {
                            let amount_out = if negative && owed < out1 { owed } else { out1 };
                            if !negative && !max {
                                Ok((next, amount_in, amount_out, (owed - amount_in) as nat))
                            } else {
                                match mul_div_res(amount_in, fee, (fee_unit() - fee) as nat, true) {
                                    Err(e) => Err(e),
                                    Ok(f) => Ok((next, amount_in, amount_out, f)),
                                }
                            }
                        },
                    }
                },
            }
        },
    }
}

/// A step's result seen on values.
pub open spec fn view_step(r: Result<(U256, U256, U256, U256), MathError>) -> Result<(nat, nat, nat, nat), MathError> {
    match r {
        Ok((a, b, c, d)) => Ok((a@, b@, c@, d@)),
        Err(e) => Err(e),
    }
}

/// One segment of a swap: moves the price from `sqrt_price_current` toward
/// `sqrt_price_target` as far as `amount_remaining` allows (positive: input
/// still to pay in; negative: output still owed) and returns the new price,
/// the amounts in and out, and the fee taken.
#[verifier::rlimit(100)]
pub fn compute_swap_step(
    sqrt_price_current: U256,
    sqrt_price_target: U256,
    liquidity: u128,
    amount_remaining: I256,
    fee_pips: u32,
) -> (r: Result<(U256, U256, U256, U256), MathError>)
    requires
        fee_pips < 1_000_000,
        amount_remaining.wf(),
    ensures
        r is Ok ==> ({
            let (next, amount_in, amount_out, fee_amount) = r->Ok_0;
            let zero_for_one = sqrt_price_current@ >= sqrt_price_target@;
            let exact_in = !amount_remaining.negative;
            let owed = amount_remaining.magnitude@;
            &&& zero_for_one ==> next@ <= sqrt_price_current@
            &&& !zero_for_one ==> next@ >= sqrt_price_current@
            &&& !zero_for_one ==> next@ <= sqrt_price_target@
            &&& zero_for_one ==> next@ >= sqrt_price_target@
            &&& amount_in@ == input_amount(zero_for_one, sqrt_price_current@, next@, liquidity as nat)
            &&& exact_in ==> amount_out@ == output_amount(zero_for_one, sqrt_price_current@, next@, liquidity as nat)
            &&& !exact_in ==> amount_out@ == lower_of(output_amount(zero_for_one, sqrt_price_current@, next@, liquidity as nat), owed)
            &&& exact_in ==> amount_in@ + fee_amount@ <= owed
            &&& exact_in && next != sqrt_price_target ==> amount_in@ + fee_amount@ == owed
            &&& !exact_in && next != sqrt_price_target ==> amount_out@ == owed
            &&& exact_in && input_amount(zero_for_one, sqrt_price_current@, sqrt_price_target@, liquidity as nat)
                <= mul_div_spec(owed, (fee_unit() - fee_pips) as nat, fee_unit(), false) ==> next == sqrt_price_target
            &&& !exact_in && output_amount(zero_for_one, sqrt_price_current@, sqrt_price_target@, liquidity as nat)
                <= owed ==> next == sqrt_price_target
            &&& !(exact_in && next != sqrt_price_target) ==> fee_amount@
                == mul_div_spec(amount_in@, fee_pips as nat, (fee_unit() - fee_pips) as nat, true)
        }),
        0 < sqrt_price_current@ < u160_bound() && 0 < sqrt_price_target@ < u160_bound() ==> r is Ok,
        view_step(r) == step_res(sqrt_price_current@, sqrt_price_target@, liquidity as nat,
            amount_remaining.negative, amount_remaining.magnitude@, fee_pips as nat),
{
    proof {
        if 0 < sqrt_price_current@ && 0 < sqrt_price_target@ {
            lemma_no_liquidity(sqrt_price_current@, sqrt_price_target@);
        }
        lemma_view_bound(amount_remaining.magnitude);
        lemma_less_fee_le(amount_remaining.magnitude@, fee_pips as nat);
        lemma_deltas_fit(sqrt_price_current@, sqrt_price_target@, liquidity as nat, true);
    }
    let zero_for_one = !sqrt_price_current.lt(&sqrt_price_target);
    let exact_in = !amount_remaining.negative;
    let owed = amount_remaining.magnitude;
    let unit = U256::from_u128(1_000_000);
    let sqrt_price_next: U256;
    let mut amount_in = U256::zero();
    let mut amount_out = U256::zero();
    let mut less_fee = U256::zero();
    if exact_in {
        less_fee = mul_div(&owed, &U256::from_u128((1_000_000 - fee_pips) as u128), &unit, false)?;
        amount_in = input_delta(zero_for_one, &sqrt_price_target, &sqrt_price_current, liquidity)?;
        if amount_in.le(&less_fee) {
            sqrt_price_next = sqrt_price_target;
        } else {
            proof {
                if 0 < sqrt_price_current@ < u160_bound() && 0 < sqrt_price_target@ < u160_bound() {
                    assert(liquidity > 0);
                    if zero_for_one {
                        let n1 = (liquidity * q96()) as int;
                        lemma_input0_small(sqrt_price_current@, sqrt_price_target@, liquidity as nat, less_fee@);
                        assert(less_fee@ < n1) by (nonlinear_arith)
                            requires less_fee@ * sqrt_price_target@ < n1, sqrt_price_target@ >= 1;
                        vstd::arithmetic::div_mod::lemma_div_is_ordered_by_denominator(n1, 1, sqrt_price_current@ as int);
                        vstd::arithmetic::div_mod::lemma_div_basics(n1);
                    } else {
                        lemma_input1_stays_below_target(sqrt_price_current@, sqrt_price_target@, liquidity as nat, less_fee@);
                    }
                }
            }
            sqrt_price_next = get_next_sqrt_price_from_input(&sqrt_price_current, liquidity, &less_fee, zero_for_one)?;
            proof {
                if zero_for_one {
                    lemma_input0_stays_above_target(sqrt_price_current@, sqrt_price_target@, liquidity as nat,
                        less_fee@, sqrt_price_next@);
                    lemma_input0_round_trip(sqrt_price_current@, liquidity as nat, less_fee@, sqrt_price_next@);
                } else {
                    lemma_input1_stays_below_target(sqrt_price_current@, sqrt_price_target@, liquidity as nat, less_fee@);
                    lemma_input1_round_trip(sqrt_price_current@, liquidity as nat, less_fee@);
                }
            }
        }
    } else {
        amount_out = output_delta(zero_for_one, &sqrt_price_target, &sqrt_price_current, liquidity)?;
        if amount_out.le(&owed) {
            sqrt_price_next = sqrt_price_target;
        } else {
            proof {
                if 0 < sqrt_price_current@ < u160_bound() && 0 < sqrt_price_target@ < u160_bound() {
                    assert(liquidity > 0);
                    if zero_for_one {
                        lemma_output1_stays_above_target(sqrt_price_current@, sqrt_price_target@, liquidity as nat, owed@);
                    } else {
                        lemma_output0_fits(sqrt_price_current@, sqrt_price_target@, liquidity as nat, owed@);
                    }
                }
            }
            sqrt_price_next = get_next_sqrt_price_from_output(&sqrt_price_current, liquidity, &owed, zero_for_one)?;
            proof {
                if zero_for_one {
                    lemma_output1_stays_above_target(sqrt_price_current@, sqrt_price_target@, liquidity as nat, owed@);
                    lemma_output1_round_trip(sqrt_price_current@, liquidity as nat, owed@);
                } else {
                    lemma_output0_stays_below_target(sqrt_price_current@, sqrt_price_target@, liquidity as nat,
                        owed@, sqrt_price_next@);
                    lemma_output0_round_trip(sqrt_price_current@, liquidity as nat, owed@, sqrt_price_next@);
                }
            }
        }
    }
    assert(step_target_res(sqrt_price_current@, sqrt_price_target@, liquidity as nat, amount_remaining.negative,
        owed@, fee_pips as nat) == Ok::<(nat, nat, nat), MathError>((sqrt_price_next@, amount_in@, amount_out@)));
    let max = sqrt_price_next.eq(&sqrt_price_target);
    if !(max && exact_in) {
        amount_in = input_delta(zero_for_one, &sqrt_price_next, &sqrt_price_current, liquidity)?;
        proof {
            if exact_in {
                lemma_less_fee_le(owed@, fee_pips as nat);
            }
        }
    }
    if !(max && !exact_in) {
        amount_out = output_delta(zero_for_one, &sqrt_price_next, &sqrt_price_current, liquidity)?;
    }
    if !exact_in && owed.lt(&amount_out) {
        amount_out = owed;
    }
    let fee_amount: U256;
    if exact_in && !max {
        fee_amount = owed.sub(&amount_in);
    } else {
        proof {
            let x = (amount_in@ * fee_pips) as int;
            let u = (fee_unit() - fee_pips) as int;
            assert(x <= u * x) by (nonlinear_arith) requires u >= 1, x >= 0;
            lemma_ceil_le(x, u, x);
            vstd::arithmetic::div_mod::lemma_div_is_ordered(x, x + u - 1, u);
            if 0 < sqrt_price_current@ < u160_bound() && 0 < sqrt_price_target@ < u160_bound() {
                assert(x < word()) by (nonlinear_arith)
                    requires
                        amount_in@ <= liquidity * q96(),
                        liquidity * q96() < 0x1_0000_0000_0000_0000_0000_0000_0000_0000_0000_0000_0000_0000_0000_0000,
                        fee_pips < 1_000_000,
                        x == amount_in@ * fee_pips,
                        word() == limb() * limb(),
                        limb() == 0x1_0000_0000_0000_0000_0000_0000_0000_0000nat,
                ;
            }
        }
        fee_amount = mul_div(&amount_in, &U256::from_u128(fee_pips as u128),
            &U256::from_u128((1_000_000 - fee_pips) as u128), true)?;
        proof {
            if exact_in {
                lemma_fee_fits(owed@, amount_in@, fee_pips as nat);
            }
        }
    }
    Ok((sqrt_price_next, amount_in, amount_out, fee_amount))
}

} // verus!
