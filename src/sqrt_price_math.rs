use vstd::prelude::*;
use crate::full_math::{
    U256, mul_div, mul_div_spec, mul_div_res, view_res, word, limb, lemma_ceil_div_le, lemma_view_bound,
};
use crate::liquidity_math::MathError;

verus! {

/// 2^96, the fixed-point scale of a square-root price.
pub open spec fn q96() -> nat {
    0x1_0000_0000_0000_0000_0000_0000nat
}

/// 2^160: square-root prices are 160-bit values.
pub open spec fn u160_bound() -> nat {
    0x1_0000_0000_0000_0000_0000_0000_0000_0000_0000_0000nat
}

pub fn q96_value() -> (r: U256)
    ensures
        r@ == q96(),
{
    U256 { hi: 0, lo: 0x1_0000_0000_0000_0000_0000_0000u128 }
}

/// Amount of asset 0 between two square-root prices (lower first) at constant liquidity.
pub open spec fn amount0_spec(lower: nat, upper: nat, liquidity: nat, round_up: bool) -> nat {
    mul_div_spec(mul_div_spec(liquidity * q96(), (upper - lower) as nat, upper, round_up), 1, lower, round_up)
}

/// Amount of asset 1 between two square-root prices (lower first) at constant liquidity.
pub open spec fn amount1_spec(lower: nat, upper: nat, liquidity: nat, round_up: bool) -> nat {
    mul_div_spec(liquidity, (upper - lower) as nat, q96(), round_up)
}

/// The outcome of `get_amount0_delta` on values.
pub open spec fn amount0_res(a: nat, b: nat, liquidity: nat, round_up: bool) -> Result<nat, MathError> {
    let (lo, hi) = if a <= b { (a, b) } else { (b, a) };
    if lo == 0 {
        Err(MathError::DivideByZero)
    } else {
        match mul_div_res(liquidity * q96(), (hi - lo) as nat, hi, round_up) {
            Err(e) => Err(e),
            Ok(t) => mul_div_res(t, 1, lo, round_up),
        }
    }
}

/// The outcome of `get_amount1_delta` on values.
pub open spec fn amount1_res(a: nat, b: nat, liquidity: nat, round_up: bool) -> Result<nat, MathError> {
    let (lo, hi) = if a <= b { (a, b) } else { (b, a) };
    mul_div_res(liquidity, (hi - lo) as nat, q96(), round_up)
}

/// The price after adding or removing an amount of asset 1, on values.
pub open spec fn next1_res(price: nat, liquidity: nat, amount: nat, add: bool) -> Result<nat, MathError> {
    if add {
        match mul_div_res(amount, q96(), liquidity, false) {
            Err(e) => Err(e),
            Ok(q) => if price + q >= u160_bound() { Err(MathError::Overflow) } else { Ok(price + q) },
        }
    } else {
        match mul_div_res(amount, q96(), liquidity, true) {
            Err(e) => Err(e),
            Ok(q) => if q >= price { Err(MathError::Overflow) } else { Ok((price - q) as nat) },
        }
    }
}

/// The price after adding or removing an amount of asset 0, on values.
pub open spec fn next0_res(price: nat, liquidity: nat, amount: nat, add: bool) -> Result<nat, MathError> {
    let n1 = liquidity * q96();
    if amount == 0 {
        Ok(price)
    } else if add {
        if amount * price < word() && n1 + amount * price < word() {
            mul_div_res(n1, price, n1 + amount * price, true)
        } else if n1 / price + amount >= word() {
            Err(MathError::Overflow)
        } else {
            mul_div_res(n1, 1, n1 / price + amount, true)
        }
    } else if amount * price >= word() || amount * price >= n1 {
        Err(MathError::Overflow)
    } else {
        mul_div_res(n1, price, (n1 - amount * price) as nat, true)
    }
}

/// The outcome of `get_next_sqrt_price_from_input` on values.
pub open spec fn from_input_res(price: nat, liquidity: nat, amount: nat, zero_for_one: bool) -> Result<nat, MathError> {
    if price == 0 || liquidity == 0 {
        Err(MathError::DivideByZero)
    } else if zero_for_one {
        next0_res(price, liquidity, amount, true)
    } else {
        next1_res(price, liquidity, amount, true)
    }
}

/// The outcome of `get_next_sqrt_price_from_output` on values.
pub open spec fn from_output_res(price: nat, liquidity: nat, amount: nat, zero_for_one: bool) -> Result<nat, MathError> {
    if price == 0 || liquidity == 0 {
        Err(MathError::DivideByZero)
    } else if zero_for_one {
        next1_res(price, liquidity, amount, false)
    } else {
        next0_res(price, liquidity, amount, false)
    }
}

/// `liquidity * 2^96`, which always fits 256 bits.
fn liquidity_shifted(liquidity: u128) -> (r: U256)
    ensures
        r@ == liquidity * q96(),
{
    let n1 = mul_div(&U256::from_u128(liquidity), &q96_value(), &U256::from_u128(1), false);
    proof {
        assert(liquidity * q96() < word()) by (nonlinear_arith)
            requires liquidity < limb(), q96() < limb(), word() == limb() * limb();
        assert(liquidity as nat * q96() * 1 == liquidity as nat * q96());
        vstd::arithmetic::div_mod::lemma_div_basics((liquidity * q96()) as int);
        assert(mul_div_spec(liquidity as nat, q96(), 1, false) == liquidity * q96());
    }
    n1.unwrap()
}

/// Quantity of asset 0 between two square-root prices at a given liquidity;
/// the two prices may come in either order.
pub fn get_amount0_delta(a: &U256, b: &U256, liquidity: u128, round_up: bool) -> (r: Result<U256, MathError>)
    ensures
        view_res(r) == amount0_res(a@, b@, liquidity as nat, round_up),
        ({
            let (lo, hi) = if a@ <= b@ { (a@, b@) } else { (b@, a@) };
            let t = mul_div_spec(liquidity as nat * q96(), (hi - lo) as nat, hi, round_up);
            &&& lo == 0 ==> r.is_err()
            &&& lo > 0 && t < word() ==> r == Ok::<U256, MathError>(r->Ok_0) && r->Ok_0@ == amount0_spec(lo, hi, liquidity as nat, round_up)
            &&& lo > 0 && t >= word() ==> r == Err::<U256, MathError>(MathError::Overflow)
        }),
{
    let (lo, hi) = if a.le(b) { (*a, *b) } else { (*b, *a) };
    if lo.is_zero() {
        return Err(MathError::DivideByZero);
    }
    let n1 = liquidity_shifted(liquidity);
    let t = mul_div(&n1, &hi.sub(&lo), &hi, round_up)?;
    proof {
        lemma_ceil_div_le(t@, lo@);
    }
    let r = mul_div(&t, &U256::from_u128(1), &lo, round_up);
    r
}

/// Quantity of asset 1 between two square-root prices at a given liquidity;
/// the two prices may come in either order.
pub fn get_amount1_delta(a: &U256, b: &U256, liquidity: u128, round_up: bool) -> (r: Result<U256, MathError>)
    ensures
        view_res(r) == amount1_res(a@, b@, liquidity as nat, round_up),
        ({
            let (lo, hi) = if a@ <= b@ { (a@, b@) } else { (b@, a@) };
            let v = amount1_spec(lo, hi, liquidity as nat, round_up);
            &&& v < word() ==> r == Ok::<U256, MathError>(r->Ok_0) && r->Ok_0@ == v
            &&& v >= word() ==> r == Err::<U256, MathError>(MathError::Overflow)
        }),
{
    let (lo, hi) = if a.le(b) { (*a, *b) } else { (*b, *a) };
    mul_div(&U256::from_u128(liquidity), &hi.sub(&lo), &q96_value(), round_up)
}

pub(crate) proof fn lemma_ceil_le(n: int, d: int, k: int)
    requires
        0 <= n <= d * k,
        d > 0,
    ensures
        (n + d - 1) / d <= k,
{
    vstd::arithmetic::div_mod::lemma_fundamental_div_mod(n + d - 1, d);
    let q = (n + d - 1) / d;
    let r = (n + d - 1) % d;
    assert(q <= k) by (nonlinear_arith)
        requires
            n + d - 1 == d * q + r,
            0 <= r < d,
            n <= d * k,
            d > 0,
    ;
}

pub(crate) proof fn lemma_ceil_covers(n: int, d: int)
    requires
        n >= 0,
        d > 0,
    ensures
        ((n + d - 1) / d) * d >= n,
        ((n + d - 1) / d - 1) * d < n || n == 0,
        (n + d - 1) / d >= 0,
        n == 0 ==> (n + d - 1) / d == 0,
{
    vstd::arithmetic::div_mod::lemma_fundamental_div_mod(n + d - 1, d);
    let c = (n + d - 1) / d;
    let r = (n + d - 1) % d;
    assert(c * d >= n && ((c - 1) * d < n || n == 0) && c >= 0 && (n == 0 ==> c == 0)) by (nonlinear_arith)
        requires
            n + d - 1 == d * c + r,
            0 <= r < d,
            n >= 0,
            d > 0,
    ;
}

proof fn lemma_floor_ge(n: int, d: int, k: int)
    requires
        n >= d * k,
        d > 0,
        k >= 0,
    ensures
        n / d >= k,
        (n + d - 1) / d >= k,
{
    vstd::arithmetic::div_mod::lemma_fundamental_div_mod(n, d);
    let q = n / d;
    let r = n % d;
    assert(q >= k) by (nonlinear_arith)
        requires
            n == d * q + r,
            0 <= r < d,
            n >= d * k,
            d > 0,
    ;
    vstd::arithmetic::div_mod::lemma_div_is_ordered(n, n + d - 1, d);
}

/// Next square-root price after adding (`add`) or removing an amount of
/// asset 1, rounding the price down.
fn next_price_from_amount1_rounding_down(price: &U256, liquidity: u128, amount: &U256, add: bool) -> (r: Result<U256, MathError>)
    ensures
        view_res(r) == next1_res(price@, liquidity as nat, amount@, add),
        r is Ok && add ==> r->Ok_0@ == price@ + mul_div_spec(amount@, q96(), liquidity as nat, false),
        r is Ok && !add ==> r->Ok_0@ == price@ - mul_div_spec(amount@, q96(), liquidity as nat, true),
        r is Ok && add ==> r->Ok_0@ < u160_bound(),
        liquidity == 0 ==> r.is_err(),
        liquidity > 0 && add && price@ + mul_div_spec(amount@, q96(), liquidity as nat, false) < u160_bound() ==> r is Ok,
        liquidity > 0 && !add && mul_div_spec(amount@, q96(), liquidity as nat, true) < price@ ==> r is Ok,
{
    let l = U256::from_u128(liquidity);
    if add {
        let quotient = mul_div(amount, &q96_value(), &l, false)?;
        let next = price.checked_add(&quotient)?;
        if !next.lt(&U256 { hi: 0x1_0000_0000, lo: 0 }) {
            return Err(MathError::Overflow);
        }
        Ok(next)
    } else {
        let quotient = mul_div(amount, &q96_value(), &l, true)?;
        if !quotient.lt(price) {
            return Err(MathError::Overflow);
        }
        Ok(price.sub(&quotient))
    }
}

/// Next square-root price after adding (`add`) or removing an amount of
/// asset 0, rounding the price up.
fn next_price_from_amount0_rounding_up(price: &U256, liquidity: u128, amount: &U256, add: bool) -> (r: Result<U256, MathError>)
    requires
        price@ > 0,
        liquidity > 0,
    ensures
        view_res(r) == next0_res(price@, liquidity as nat, amount@, add),
        r is Ok && add ==> r->Ok_0@ <= price@,
        r is Ok && add ==> r->Ok_0@ * (liquidity * q96() + amount@ * price@) >= liquidity * q96() * price@,
        add && amount@ * price@ + liquidity * q96() < word() ==> r is Ok
            && (r->Ok_0@ - 1) * (liquidity * q96() + amount@ * price@) < liquidity * q96() * price@,
        !add && amount@ * price@ < liquidity * q96()
            && mul_div_spec(liquidity as nat * q96(), price@, (liquidity * q96() - amount@ * price@) as nat, true) < word() ==> r is Ok,
        add && amount@ + liquidity * q96() / (price@ as int) < word() ==> r is Ok,
        r is Ok && !add ==> r->Ok_0@ >= price@,
        r is Ok && !add ==> amount@ * price@ < liquidity * q96()
            && (r->Ok_0@ - 1) * (liquidity * q96() - amount@ * price@) < liquidity * q96() * price@
            && r->Ok_0@ * (liquidity * q96() - amount@ * price@) >= liquidity * q96() * price@,
        amount@ == 0 ==> r == Ok::<U256, MathError>(*price),
{
    if amount.is_zero() {
        proof {
            assert(price@ * (liquidity * q96() + amount@ * price@) == liquidity * q96() * price@) by (nonlinear_arith)
                requires amount@ == 0;
            assert(liquidity * q96() > 0) by (nonlinear_arith) requires liquidity > 0;
            assert(amount@ * price@ == 0) by (nonlinear_arith) requires amount@ == 0;
            assert((price@ - 1) * (liquidity * q96() - amount@ * price@) < liquidity * q96() * price@) by (nonlinear_arith)
                requires amount@ * price@ == 0, liquidity * q96() > 0;
            assert(price@ * (liquidity * q96() - amount@ * price@) >= liquidity * q96() * price@) by (nonlinear_arith)
                requires amount@ * price@ == 0;
            assert((price@ - 1) * (liquidity * q96() + amount@ * price@) < liquidity * q96() * price@) by (nonlinear_arith)
                requires amount@ * price@ == 0, liquidity * q96() > 0;
        }
        return Ok(*price);
    }
    let one = U256::from_u128(1);
    let n1 = liquidity_shifted(liquidity);
    let product = mul_div(amount, price, &one, false);
    proof {
        assert((amount@ * price@) * 1 == amount@ * price@);
        vstd::arithmetic::div_mod::lemma_div_basics((amount@ * price@) as int);
    }
    if add {
        if let Ok(p) = product {
            if let Ok(den) = n1.checked_add(&p) {
                proof {
                    assert(n1@ * price@ <= den@ * price@) by (nonlinear_arith) requires n1@ <= den@;
                    lemma_ceil_le((n1@ * price@) as int, den@ as int, price@ as int);
                    lemma_ceil_covers((n1@ * price@) as int, den@ as int);
                    assert(n1@ * price@ > 0) by (nonlinear_arith) requires n1@ > 0, price@ > 0;
                    lemma_view_bound(*price);
                }
                return mul_div(&n1, price, &den, true);
            }
        }
        proof {
            assert(n1@ * 1 == n1@);
            lemma_ceil_div_le(n1@, price@);
            lemma_view_bound(n1);
        }
        let f = mul_div(&n1, &one, price, false)?;
        let den = f.checked_add(amount)?;
        proof {
            assert(n1@ * 1 == n1@);
            vstd::arithmetic::div_mod::lemma_fundamental_div_mod(n1@ as int, price@ as int);
            assert(f@ == n1@ / price@);
            assert(n1@ <= den@ * price@) by (nonlinear_arith)
                requires
                    price@ > 0,
                    n1@ == price@ * f@ + n1@ % price@,
                    n1@ % price@ < price@,
                    den@ == f@ + amount@,
                    amount@ >= 1,
            ;
            lemma_ceil_le(n1@ as int, den@ as int, price@ as int);
            lemma_ceil_covers(n1@ as int, den@ as int);
            lemma_ceil_div_le(n1@, den@);
            let c = (n1@ + den@ - 1) as int / den@ as int;
            assert(c * (n1@ + amount@ * price@) >= n1@ * price@) by (nonlinear_arith)
                requires
                    c * den@ >= n1@,
                    den@ == f@ + amount@,
                    price@ * f@ <= n1@,
                    price@ > 0,
                    c >= 0,
            ;
        }
        mul_div(&n1, &one, &den, true)
    } else {
        let p = product?;
        proof {
            lemma_view_bound(n1);
        }
        if !p.lt(&n1) {
            return Err(MathError::Overflow);
        }
        let den = n1.sub(&p);
        proof {
            assert(n1@ * price@ >= den@ * price@) by (nonlinear_arith) requires n1@ >= den@;
            lemma_floor_ge((n1@ * price@) as int, den@ as int, price@ as int);
            assert(n1@ * price@ > 0) by (nonlinear_arith) requires n1@ > 0, price@ > 0;
            lemma_ceil_covers((n1@ * price@) as int, den@ as int);
        }
        mul_div(&n1, price, &den, true)
    }
}

/// Square-root price reached by trading `amount_in` of the input asset from
/// `price`: asset 0 when `zero_for_one` (the price falls), else asset 1 (it rises).
pub fn get_next_sqrt_price_from_input(price: &U256, liquidity: u128, amount_in: &U256, zero_for_one: bool) -> (r: Result<U256, MathError>)
    ensures
        view_res(r) == from_input_res(price@, liquidity as nat, amount_in@, zero_for_one),
        price@ == 0 || liquidity == 0 ==> r.is_err(),
        r is Ok && zero_for_one ==> r->Ok_0@ <= price@,
        r is Ok && zero_for_one ==> r->Ok_0@ * (liquidity * q96() + amount_in@ * price@) >= liquidity * q96() * price@,
        price@ > 0 && liquidity > 0 && zero_for_one && amount_in@ * price@ + liquidity * q96() < word() ==> r is Ok
            && (r->Ok_0@ - 1) * (liquidity * q96() + amount_in@ * price@) < liquidity * q96() * price@,
        price@ > 0 && liquidity > 0 && zero_for_one && amount_in@ + liquidity * q96() / (price@ as int) < word() ==> r is Ok,
        price@ > 0 && liquidity > 0 && !zero_for_one
            && price@ + mul_div_spec(amount_in@, q96(), liquidity as nat, false) < u160_bound() ==> r is Ok,
        r is Ok && !zero_for_one ==> r->Ok_0@ == price@ + mul_div_spec(amount_in@, q96(), liquidity as nat, false),
{
    if price.is_zero() || liquidity == 0 {
        return Err(MathError::DivideByZero);
    }
    if zero_for_one {
        next_price_from_amount0_rounding_up(price, liquidity, amount_in, true)
    } else {
        next_price_from_amount1_rounding_down(price, liquidity, amount_in, true)
    }
}

/// Square-root price reached by taking `amount_out` of the output asset from
/// `price`: asset 1 when `zero_for_one` (the price falls), else asset 0 (it rises).
pub fn get_next_sqrt_price_from_output(price: &U256, liquidity: u128, amount_out: &U256, zero_for_one: bool) -> (r: Result<U256, MathError>)
    ensures
        view_res(r) == from_output_res(price@, liquidity as nat, amount_out@, zero_for_one),
        r is Ok && zero_for_one ==> mul_div_spec(amount_out@, q96(), liquidity as nat, true) < price@,
        price@ == 0 || liquidity == 0 ==> r.is_err(),
        r is Ok && zero_for_one ==> r->Ok_0@ == price@ - mul_div_spec(amount_out@, q96(), liquidity as nat, true),
        r is Ok && !zero_for_one ==> r->Ok_0@ >= price@,
        r is Ok && !zero_for_one ==> amount_out@ * price@ < liquidity * q96()
            && (r->Ok_0@ - 1) * (liquidity * q96() - amount_out@ * price@) < liquidity * q96() * price@
            && r->Ok_0@ * (liquidity * q96() - amount_out@ * price@) >= liquidity * q96() * price@,
        price@ > 0 && liquidity > 0 && zero_for_one && mul_div_spec(amount_out@, q96(), liquidity as nat, true) < price@
            ==> r is Ok,
        price@ > 0 && liquidity > 0 && !zero_for_one && amount_out@ * price@ < liquidity * q96()
            && mul_div_spec(liquidity as nat * q96(), price@, (liquidity * q96() - amount_out@ * price@) as nat, true) < word()
            ==> r is Ok,
{
    if price.is_zero() || liquidity == 0 {
        return Err(MathError::DivideByZero);
    }
    if zero_for_one {
        next_price_from_amount1_rounding_down(price, liquidity, amount_out, false)
    } else {
        next_price_from_amount0_rounding_up(price, liquidity, amount_out, false)
    }
}

/// An input of asset 1 that falls short of reaching price `t` from `p`
/// moves the price no further than `t`.
pub(crate) proof fn lemma_input1_stays_below_target(p: nat, t: nat, l: nat, a: nat)
    requires
        p < t,
        l > 0,
        a < mul_div_spec(l, (t - p) as nat, q96(), true),
    ensures
        p + mul_div_spec(a, q96(), l, false) <= t,
{
    let q = q96() as int;
    let n = (l * (t - p)) as int;
    vstd::arithmetic::div_mod::lemma_fundamental_div_mod(n + q - 1, q);
    let c = (n + q - 1) / q;
    assert(a * q < n) by (nonlinear_arith)
        requires
            n + q - 1 == q * c + (n + q - 1) % q,
            0 <= (n + q - 1) % q,
            a + 1 <= c,
            q > 0,
    ;
    let m = (a * q) as int;
    vstd::arithmetic::div_mod::lemma_fundamental_div_mod(m, l as int);
    let f = m / (l as int);
    assert(f <= t - p) by (nonlinear_arith)
        requires
            m == l * f + m % (l as int),
            0 <= m % (l as int),
            m < l * (t - p),
            l > 0,
    ;
}

/// An input of asset 0 that falls short of reaching price `t` from `p`
/// moves the price no further down than `t`.
pub(crate) proof fn lemma_input0_stays_above_target(p: nat, t: nat, l: nat, a: nat, next: nat)
    requires
        0 < t <= p,
        a < amount0_spec(t, p, l, true),
        next * (l * q96() + a * p) >= l * q96() * p,
    ensures
        next >= t,
{
    let x = (l * q96() * (p - t)) as int;
    let c1 = mul_div_spec(l * q96(), (p - t) as nat, p, true) as int;
    assert(l * q96() * (p - t) == (l * q96()) * ((p - t) as nat));
    lemma_ceil_covers(x, p as int);
    assert(c1 * 1 == c1);
    lemma_ceil_covers(c1, t as int);
    let c2 = (c1 + t - 1) / (t as int);
    assert(c1 > 0 && x > 0);
    assert(a * t < c1) by (nonlinear_arith)
        requires
            a + 1 <= c2,
            (c2 - 1) * t < c1,
            t > 0,
    ;
    assert(a * t * p < x) by (nonlinear_arith)
        requires
            a * t <= c1 - 1,
            (c1 - 1) * p < x,
            p > 0,
    ;
    let n1 = l * q96();
    assert(next >= t) by (nonlinear_arith)
        requires
            next * (n1 + a * p) >= n1 * p,
            a * t * p < n1 * (p - t),
            t <= p,
            n1 >= 0,
    ;
}

/// An output of asset 0 smaller than the whole output up to price `t` from
/// `p` moves the price no further up than `t`.
pub(crate) proof fn lemma_output0_stays_below_target(p: nat, t: nat, l: nat, a: nat, next: nat)
    requires
        0 < p <= t,
        a < amount0_spec(p, t, l, false),
        a * p < l * q96(),
        (next - 1) * (l * q96() - a * p) < l * q96() * p,
    ensures
        next <= t,
{
    let n1 = l * q96();
    let x = (n1 * (t - p)) as int;
    assert(n1 * (t - p) == (l * q96()) * ((t - p) as nat));
    let f1 = mul_div_spec(n1, (t - p) as nat, t, false) as int;
    vstd::arithmetic::div_mod::lemma_fundamental_div_mod(x, t as int);
    assert(f1 * 1 == f1);
    vstd::arithmetic::div_mod::lemma_fundamental_div_mod(f1, p as int);
    let f2 = f1 / (p as int);
    assert(a * p < f1) by (nonlinear_arith)
        requires
            a + 1 <= f2,
            f1 == p * f2 + f1 % (p as int),
            0 <= f1 % (p as int),
            p > 0,
    ;
    assert(a * p * t < x) by (nonlinear_arith)
        requires
            a * p < f1,
            x == t * f1 + x % (t as int),
            0 <= x % (t as int),
            t > 0,
    ;
    assert(next <= t) by (nonlinear_arith)
        requires
            (next - 1) * (n1 - a * p) < n1 * p,
            a * p * t < n1 * (t - p),
            a * p < n1,
            p <= t,
    ;
}

/// An output of asset 0 smaller than the whole output up to price `t` keeps
/// the inverse formula in range: the denominator stays positive and the
/// price it gives stays at or below `t`.
pub(crate) proof fn lemma_output0_fits(p: nat, t: nat, l: nat, a: nat)
    requires
        0 < p <= t,
        a < amount0_spec(p, t, l, false),
    ensures
        a * p < l * q96(),
        mul_div_spec(l * q96(), p, (l * q96() - a * p) as nat, true) <= t,
{
    let n1 = l * q96();
    let x = (n1 * (t - p)) as int;
    assert(n1 * (t - p) == (l * q96()) * ((t - p) as nat));
    let f1 = mul_div_spec(n1, (t - p) as nat, t, false) as int;
    vstd::arithmetic::div_mod::lemma_fundamental_div_mod(x, t as int);
    assert(f1 * 1 == f1);
    vstd::arithmetic::div_mod::lemma_fundamental_div_mod(f1, p as int);
    let f2 = f1 / (p as int);
    assert(a * p < f1) by (nonlinear_arith)
        requires
            a + 1 <= f2,
            f1 == p * f2 + f1 % (p as int),
            0 <= f1 % (p as int),
            p > 0,
    ;
    assert(a * p * t < x) by (nonlinear_arith)
        requires
            a * p < f1,
            x == t * f1 + x % (t as int),
            0 <= x % (t as int),
            t > 0,
    ;
    assert(a * p < n1 && n1 * p <= (n1 - a * p) * t) by (nonlinear_arith)
        requires
            a * p * t < n1 * (t - p),
            0 < p <= t,
    ;
    lemma_ceil_le((n1 * p) as int, (n1 - a * p) as int, t as int);
}

/// An input of asset 0 that falls short of reaching price `t` from `p` is
/// smaller than the liquidity scaled by 2^96 divided by `t`.
pub(crate) proof fn lemma_input0_small(p: nat, t: nat, l: nat, a: nat)
    requires
        0 < t <= p,
        a < amount0_spec(t, p, l, true),
    ensures
        a * t < l * q96(),
{
    let x = (l * q96() * (p - t)) as int;
    let c1 = mul_div_spec(l * q96(), (p - t) as nat, p, true) as int;
    assert(l * q96() * (p - t) == (l * q96()) * ((p - t) as nat));
    lemma_ceil_covers(x, p as int);
    assert(c1 * 1 == c1);
    lemma_ceil_covers(c1, t as int);
    let c2 = (c1 + t - 1) / (t as int);
    assert(c1 > 0 && x > 0);
    assert(a * t < c1) by (nonlinear_arith)
        requires
            a + 1 <= c2,
            (c2 - 1) * t < c1,
            t > 0,
    ;
    assert(a * t * p < x) by (nonlinear_arith)
        requires
            a * t <= c1 - 1,
            (c1 - 1) * p < x,
            p > 0,
    ;
    assert(a * t < l * q96()) by (nonlinear_arith)
        requires
            a * t * p < l * q96() * (p - t),
            0 < t <= p,
    ;
}

/// Between two non-zero 160-bit prices both amount formulas, and the
/// intermediate quotient of the asset-0 one, stay below `liquidity * 2^96`.
pub(crate) proof fn lemma_amounts_fit(lo: nat, hi: nat, l: nat, round_up: bool)
    requires
        0 < lo <= hi < u160_bound(),
    ensures
        mul_div_spec(l * q96(), (hi - lo) as nat, hi, round_up) <= l * q96(),
        amount0_spec(lo, hi, l, round_up) <= l * q96(),
        amount1_spec(lo, hi, l, round_up) <= l * q96(),
{
    let n1 = l * q96();
    assert(n1 * (hi - lo) <= hi * n1) by (nonlinear_arith) requires lo <= hi;
    lemma_ceil_le((n1 * (hi - lo)) as int, hi as int, n1 as int);
    vstd::arithmetic::div_mod::lemma_div_is_ordered((n1 * (hi - lo)) as int, (n1 * (hi - lo) + hi - 1) as int, hi as int);
    let t = mul_div_spec(n1, (hi - lo) as nat, hi, round_up);
    lemma_ceil_div_le(t, lo);
    assert(l * (hi - lo) <= q96() * n1) by (nonlinear_arith)
        requires hi - lo < u160_bound(), u160_bound() == q96() * 0x1_0000_0000_0000_0000nat, n1 == l * q96();
    lemma_ceil_le((l * (hi - lo)) as int, q96() as int, n1 as int);
    vstd::arithmetic::div_mod::lemma_div_is_ordered((l * (hi - lo)) as int, (l * (hi - lo) + q96() - 1) as int, q96() as int);
}

/// An output of asset 1 smaller than the whole output down to price `t`
/// from `p` moves the price no further than `t`.
pub(crate) proof fn lemma_output1_stays_above_target(p: nat, t: nat, l: nat, a: nat)
    requires
        t <= p,
        l > 0,
        a < mul_div_spec(l, (p - t) as nat, q96(), false),
    ensures
        mul_div_spec(a, q96(), l, true) <= p - t,
{
    if t == p {
        assert(l * 0 == 0);
        assert(mul_div_spec(l, 0, q96(), false) == 0);
    }
    let q = q96() as int;
    let n = (l * (p - t)) as int;
    vstd::arithmetic::div_mod::lemma_fundamental_div_mod(n, q);
    let f0 = n / q;
    assert(a * q <= l * (p - t)) by (nonlinear_arith)
        requires
            n == q * f0 + n % q,
            0 <= n % q,
            a + 1 <= f0,
            q > 0,
            n == l * (p - t),
    ;
    lemma_ceil_le((a * q) as int, l as int, (p - t) as int);
}

} // verus!
