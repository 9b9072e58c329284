use vstd::prelude::*;
use crate::full_math::{U256, mul_div, mul_div_spec, limb, word, lemma_view_bound, lemma_ceil_div_le};
use crate::liquidity_math::MathError;

verus! {

pub const MIN_TICK: i32 = -887272;
pub const MAX_TICK: i32 = 887272;

/// Square-root price at `MIN_TICK`.
pub const MIN_SQRT_RATIO: u128 = 4295128739;

/// Square-root price at `MAX_TICK`, as its high and low 128-bit limbs.
pub const MAX_SQRT_RATIO_HI: u128 = 4294805859;
pub const MAX_SQRT_RATIO_LO: u128 = 0xefd1_fc6a_5064_8849_5d95_1d52_6398_8d26;

pub fn max_sqrt_ratio() -> (r: U256)
    ensures
        r.hi == MAX_SQRT_RATIO_HI,
        r.lo == MAX_SQRT_RATIO_LO,
{
    U256 { hi: MAX_SQRT_RATIO_HI, lo: MAX_SQRT_RATIO_LO }
}

/// The factor `2^128 / sqrt(1.0001)^(2^i)`, rounded, for bit `i` of a tick.
pub open spec fn bit_factor(i: u32) -> nat {
    if i == 0 { 0xfffcb933bd6fad37aa2d162d1a594001 }
    else if i == 1 { 0xfff97272373d413259a46990580e213a }
    else if i == 2 { 0xfff2e50f5f656932ef12357cf3c7fdcc }
    else if i == 3 { 0xffe5caca7e10e4e61c3624eaa0941cd0 }
    else if i == 4 { 0xffcb9843d60f6159c9db58835c926644 }
    else if i == 5 { 0xff973b41fa98c081472e6896dfb254c0 }
    else if i == 6 { 0xff2ea16466c96a3843ec78b326b52861 }
    else if i == 7 { 0xfe5dee046a99a2a811c461f1969c3053 }
    else if i == 8 { 0xfcbe86c7900a88aedcffc83b479aa3a4 }
    else if i == 9 { 0xf987a7253ac413176f2b074cf7815e54 }
    else if i == 10 { 0xf3392b0822b70005940c7a398e4b70f3 }
    else if i == 11 { 0xe7159475a2c29b7443b29c7fa6e889d9 }
    else if i == 12 { 0xd097f3bdfd2022b8845ad8f792aa5825 }
    else if i == 13 { 0xa9f746462d870fdf8a65dc1f90e061e5 }
    else if i == 14 { 0x70d869a156d2a1b890bb3df62baf32f7 }
    else if i == 15 { 0x31be135f97d08fd981231505542fcfa6 }
    else if i == 16 { 0x9aa508b5b7a84e1c677de54f3e99bc9 }
    else if i == 17 { 0x5d6af8dedb81196699c329225ee604 }
    else if i == 18 { 0x2216e584f5fa1ea926041bedfe98 }
    else { 0x48a170391f7dc42444e8fa2 }
}

fn bit_factor_value(i: u32) -> (r: u128)
    ensures
        r == bit_factor(i),
{
    if i == 0 { 0xfffcb933bd6fad37aa2d162d1a594001 }
    else if i == 1 { 0xfff97272373d413259a46990580e213a }
    else if i == 2 { 0xfff2e50f5f656932ef12357cf3c7fdcc }
    else if i == 3 { 0xffe5caca7e10e4e61c3624eaa0941cd0 }
    else if i == 4 { 0xffcb9843d60f6159c9db58835c926644 }
    else if i == 5 { 0xff973b41fa98c081472e6896dfb254c0 }
    else if i == 6 { 0xff2ea16466c96a3843ec78b326b52861 }
    else if i == 7 { 0xfe5dee046a99a2a811c461f1969c3053 }
    else if i == 8 { 0xfcbe86c7900a88aedcffc83b479aa3a4 }
    else if i == 9 { 0xf987a7253ac413176f2b074cf7815e54 }
    else if i == 10 { 0xf3392b0822b70005940c7a398e4b70f3 }
    else if i == 11 { 0xe7159475a2c29b7443b29c7fa6e889d9 }
    else if i == 12 { 0xd097f3bdfd2022b8845ad8f792aa5825 }
    else if i == 13 { 0xa9f746462d870fdf8a65dc1f90e061e5 }
    else if i == 14 { 0x70d869a156d2a1b890bb3df62baf32f7 }
    else if i == 15 { 0x31be135f97d08fd981231505542fcfa6 }
    else if i == 16 { 0x9aa508b5b7a84e1c677de54f3e99bc9 }
    else if i == 17 { 0x5d6af8dedb81196699c329225ee604 }
    else if i == 18 { 0x2216e584f5fa1ea926041bedfe98 }
    else { 0x48a170391f7dc42444e8fa2 }
}

pub open spec fn tick_bit(abs_tick: u32, i: u32) -> bool {
    (abs_tick >> i) & 1u32 == 1u32
}

/// The Q128 ratio `1 / sqrt(1.0001)^abs_tick` built from bits `0 ..= i` of `abs_tick`.
pub open spec fn ratio_prefix(abs_tick: u32, i: u32) -> nat
    decreases i,
{
    if i == 0 {
        if tick_bit(abs_tick, 0) { bit_factor(0) } else { limb() }
    } else {
        let prev = ratio_prefix(abs_tick, (i - 1) as u32);
        if tick_bit(abs_tick, i) { mul_div_spec(prev, bit_factor(i), limb(), false) } else { prev }
    }
}

/// The square-root price at `tick`, as a Q64.96 fixed-point number.
pub open spec fn sqrt_ratio_at_tick(tick: int) -> nat {
    let abs_tick = (if tick < 0 { -tick } else { tick }) as u32;
    let ratio = ratio_prefix(abs_tick, 19);
    let ratio = if tick > 0 { ((word() - 1) as nat / ratio) as nat } else { ratio };
    mul_div_spec(ratio, 1, 0x1_0000_0000, true)
}

/// The least value that the ratio built from bits `0 ..= i` can take: the
/// one with every one of those bits set.
pub open spec fn ratio_floor(i: u32) -> nat {
    if i == 0 { 340265354078544963557816517032075149313 }
    else if i == 1 { 340231330945450418515964920540021147198 }
    else if i == 2 { 340163294884840501567246455576441303173 }
    else if i == 3 { 340027263576413978334042125129128142263 }
    else if i == 4 { 339755364134575681238502878529008278326 }
    else if i == 5 { 339212217342146842559531600927033253847 }
    else if i == 6 { 338128527259088467778511436198880488164 }
    else if i == 7 { 335971522311117552149334092109581418674 }
    else if i == 8 { 331698704829854243503582989311158516586 }
    else if i == 9 { 323315401242583425022802937239550140918 }
    else if i == 10 { 307179074178916392659402722612948179612 }
    else if i == 11 { 277282266700509388632609933215391170106 }
    else if i == 12 { 225934749830749445986089663015556949343 }
    else if i == 13 { 150004713758184102711002566140788444796 }
    else if i == 14 { 66122407008436832627027740713496573148 }
    else if i == 15 { 12848018414553970828728179856918040433 }
    else if i == 16 { 485077512873820763967752669154895175 }
    else if i == 17 { 691450548841240133896843047535567 }
    else if i == 18 { 1404950724947776134837143967 }
    else { 5800441176149320 }
}

proof fn lemma_ratio_floor_step(i: u32)
    requires
        1 <= i < 20,
    ensures
        ratio_floor(i) == mul_div_spec(ratio_floor((i - 1) as u32), bit_factor(i), limb(), false),
        ratio_floor(i) <= ratio_floor((i - 1) as u32),
        ratio_floor(i) > 0,
{
    if i == 1 {
        assert(ratio_floor(1) == mul_div_spec(ratio_floor(0), bit_factor(1), limb(), false));
    }
    if i == 2 {
        assert(ratio_floor(2) == mul_div_spec(ratio_floor(1), bit_factor(2), limb(), false));
    }
    if i == 3 {
        assert(ratio_floor(3) == mul_div_spec(ratio_floor(2), bit_factor(3), limb(), false));
    }
    if i == 4 {
        assert(ratio_floor(4) == mul_div_spec(ratio_floor(3), bit_factor(4), limb(), false));
    }
    if i == 5 {
        assert(ratio_floor(5) == mul_div_spec(ratio_floor(4), bit_factor(5), limb(), false));
    }
    if i == 6 {
        assert(ratio_floor(6) == mul_div_spec(ratio_floor(5), bit_factor(6), limb(), false));
    }
    if i == 7 {
        assert(ratio_floor(7) == mul_div_spec(ratio_floor(6), bit_factor(7), limb(), false));
    }
    if i == 8 {
        assert(ratio_floor(8) == mul_div_spec(ratio_floor(7), bit_factor(8), limb(), false));
    }
    if i == 9 {
        assert(ratio_floor(9) == mul_div_spec(ratio_floor(8), bit_factor(9), limb(), false));
    }
    if i == 10 {
        assert(ratio_floor(10) == mul_div_spec(ratio_floor(9), bit_factor(10), limb(), false));
    }
    if i == 11 {
        assert(ratio_floor(11) == mul_div_spec(ratio_floor(10), bit_factor(11), limb(), false));
    }
    if i == 12 {
        assert(ratio_floor(12) == mul_div_spec(ratio_floor(11), bit_factor(12), limb(), false));
    }
    if i == 13 {
        assert(ratio_floor(13) == mul_div_spec(ratio_floor(12), bit_factor(13), limb(), false));
    }
    if i == 14 {
        assert(ratio_floor(14) == mul_div_spec(ratio_floor(13), bit_factor(14), limb(), false));
    }
    if i == 15 {
        assert(ratio_floor(15) == mul_div_spec(ratio_floor(14), bit_factor(15), limb(), false));
    }
    if i == 16 {
        assert(ratio_floor(16) == mul_div_spec(ratio_floor(15), bit_factor(16), limb(), false));
    }
    if i == 17 {
        assert(ratio_floor(17) == mul_div_spec(ratio_floor(16), bit_factor(17), limb(), false));
    }
    if i == 18 {
        assert(ratio_floor(18) == mul_div_spec(ratio_floor(17), bit_factor(18), limb(), false));
    }
    if i == 19 {
        assert(ratio_floor(19) == mul_div_spec(ratio_floor(18), bit_factor(19), limb(), false));
    }
}

proof fn lemma_mul_div_monotone(a: nat, b: nat, f: nat)
    requires
        a >= b,
    ensures
        mul_div_spec(a, f, limb(), false) >= mul_div_spec(b, f, limb(), false),
{
    assert(a * f >= b * f) by (nonlinear_arith) requires a >= b;
    vstd::arithmetic::div_mod::lemma_div_is_ordered((b * f) as int, (a * f) as int, limb() as int);
}

proof fn lemma_factor_step(prev: nat, f: nat)
    requires
        prev <= limb(),
        f < limb(),
    ensures
        mul_div_spec(prev, f, limb(), false) <= limb(),
{
    let p = prev * f;
    assert(p <= limb() * limb()) by (nonlinear_arith) requires p == prev * f, prev <= limb(), f < limb();
    vstd::arithmetic::div_mod::lemma_div_is_ordered(p as int, (limb() * limb()) as int, limb() as int);
    vstd::arithmetic::div_mod::lemma_div_by_multiple(limb() as int, limb() as int);
}

/// Square-root price (Q64.96) at `tick`; `TickOutOfRange` beyond the global tick bounds.
pub fn get_sqrt_ratio_at_tick(tick: i32) -> (r: Result<U256, MathError>)
    ensures
        tick < MIN_TICK || tick > MAX_TICK <==> r == Err::<U256, MathError>(MathError::TickOutOfRange),
        r is Ok ==> r->Ok_0@ == sqrt_ratio_at_tick(tick as int),
        MIN_TICK <= tick <= MAX_TICK ==> r is Ok,
{
    if tick < MIN_TICK || tick > MAX_TICK {
        return Err(MathError::TickOutOfRange);
    }
    let abs_tick: u32 = if tick < 0 { (-tick) as u32 } else { tick as u32 };
    let q128 = U256 { hi: 1, lo: 0 };
    let mut ratio: U256 = if abs_tick & 1 != 0 { U256::from_u128(bit_factor_value(0)) } else { q128 };
    proof {
        assert(tick_bit(abs_tick, 0) == (abs_tick & 1 != 0)) by (bit_vector);
    }
    let mut i: u32 = 1;
    while i < 20
        invariant
            1 <= i <= 20,
            ratio@ == ratio_prefix(abs_tick, (i - 1) as u32),
            ratio@ <= limb(),
            ratio@ >= ratio_floor((i - 1) as u32),
            q128@ == limb(),
        decreases 20 - i,
    {
        proof {
            assert(((abs_tick >> i) & 1u32 != 0u32) == ((abs_tick >> i) & 1u32 == 1u32)) by (bit_vector);
        }
        if (abs_tick >> i) & 1 != 0 {
            let f = bit_factor_value(i);
            proof {
                lemma_factor_step(ratio@, f as nat);
                assert(tick_bit(abs_tick, i));
                lemma_ratio_floor_step(i);
                lemma_mul_div_monotone(ratio@, ratio_floor((i - 1) as u32), f as nat);
            }
            ratio = mul_div(&ratio, &U256::from_u128(f), &q128, false).unwrap();
        }
        proof {
            if (abs_tick >> i) & 1 == 0 {
                assert(!tick_bit(abs_tick, i));
            }
            lemma_ratio_floor_step(i);
        }
        i = i + 1;
    }
    proof {
        lemma_view_bound(ratio);
    }
    if tick > 0 {
        proof {
            if ratio@ > 0 {
                lemma_ceil_div_le(U256::max_value(), ratio@);
            }
            assert(U256::max_value() * 1 == U256::max_value());
        }
        ratio = mul_div(&U256::max(), &U256::from_u128(1), &ratio, false)?;
    }
    proof {
        lemma_ceil_div_le(ratio@, 0x1_0000_0000);
        lemma_view_bound(ratio);
    }
    mul_div(&ratio, &U256::from_u128(1), &U256::from_u128(0x1_0000_0000), true)
}

/// The binary search for the greatest tick in `[lo, hi)` whose price does not
/// exceed `price`.
pub open spec fn tick_search(lo: int, hi: int, price: nat) -> int
    decreases hi - lo,
{
    if hi - lo <= 1 {
        lo
    } else {
        let mid = lo + (hi - lo) / 2;
        if sqrt_ratio_at_tick(mid) <= price { tick_search(mid, hi, price) } else { tick_search(lo, mid, price) }
    }
}

/// The outcome of `get_tick_at_sqrt_ratio` on values.
pub open spec fn tick_res(price: nat) -> Result<int, MathError> {
    if price < MIN_SQRT_RATIO || price >= MAX_SQRT_RATIO_HI * limb() + MAX_SQRT_RATIO_LO {
        Err(MathError::TickOutOfRange)
    } else {
        Ok(tick_search(MIN_TICK as int, MAX_TICK + 1, price))
    }
}

/// The greatest tick whose square-root price does not exceed `price`.
/// `TickOutOfRange` when `price` lies outside `[MIN_SQRT_RATIO, MAX_SQRT_RATIO)`.
pub fn get_tick_at_sqrt_ratio(price: &U256) -> (r: Result<i32, MathError>)
    ensures
        price@ < MIN_SQRT_RATIO || price@ >= MAX_SQRT_RATIO_HI * limb() + MAX_SQRT_RATIO_LO
            ==> r == Err::<i32, MathError>(MathError::TickOutOfRange),
        MIN_SQRT_RATIO <= price@ < MAX_SQRT_RATIO_HI * limb() + MAX_SQRT_RATIO_LO ==> r is Ok,
        match r { Ok(t) => tick_res(price@) == Ok::<int, MathError>(t as int), Err(e) => tick_res(price@) == Err::<int, MathError>(e) },
        r is Ok ==> ({
            let t = r->Ok_0;
            &&& MIN_TICK <= t <= MAX_TICK
            &&& sqrt_ratio_at_tick(t as int) <= price@
            &&& t < MAX_TICK ==> price@ < sqrt_ratio_at_tick(t + 1)
        }),
{
    let upper = max_sqrt_ratio();
    if price.lt(&U256::from_u128(MIN_SQRT_RATIO)) || !price.lt(&upper) {
        return Err(MathError::TickOutOfRange);
    }
    assert(upper@ == MAX_SQRT_RATIO_HI * limb() + MAX_SQRT_RATIO_LO);
    let mut lo: i32 = MIN_TICK;
    let mut hi: i32 = MAX_TICK + 1;
    proof {
        lemma_extreme_ratios();
    }
    let lowest = get_sqrt_ratio_at_tick(lo)?;
    if !lowest.le(price) {
        return Err(MathError::TickOutOfRange);
    }
    while hi - lo > 1
        invariant
            MIN_TICK <= lo < hi <= MAX_TICK + 1,
            MIN_SQRT_RATIO <= price@ < MAX_SQRT_RATIO_HI * limb() + MAX_SQRT_RATIO_LO,
            sqrt_ratio_at_tick(lo as int) <= price@,
            hi <= MAX_TICK ==> price@ < sqrt_ratio_at_tick(hi as int),
            tick_search(lo as int, hi as int, price@) == tick_search(MIN_TICK as int, MAX_TICK + 1, price@),
        decreases hi - lo,
    {
        let mid: i32 = lo + (hi - lo) / 2;
        let at_mid = get_sqrt_ratio_at_tick(mid)?;
        if at_mid.le(price) {
            lo = mid;
        } else {
            hi = mid;
        }
    }
    Ok(lo)
}

/// The extreme ticks map to the bounds of the price range.
pub proof fn lemma_extreme_ratios()
    ensures
        sqrt_ratio_at_tick(MIN_TICK as int) == MIN_SQRT_RATIO,
        sqrt_ratio_at_tick(MAX_TICK as int) == MAX_SQRT_RATIO_HI * limb() + MAX_SQRT_RATIO_LO,
{
    let t: u32 = 887272;
    assert(!tick_bit(t, 0) && !tick_bit(t, 1) && !tick_bit(t, 2) && tick_bit(t, 3) && !tick_bit(t, 4) && tick_bit(t, 5) && tick_bit(t, 6) && tick_bit(t, 7) && tick_bit(t, 8) && !tick_bit(t, 9) && !tick_bit(t, 10) && tick_bit(t, 11) && !tick_bit(t, 12) && !tick_bit(t, 13) && !tick_bit(t, 14) && tick_bit(t, 15) && tick_bit(t, 16) && !tick_bit(t, 17) && tick_bit(t, 18) && tick_bit(t, 19)) by (bit_vector)
        requires t == 887272u32;
    assert(ratio_prefix(t, 0) == 340282366920938463463374607431768211456);
    assert(ratio_prefix(t, 1) == 340282366920938463463374607431768211456);
    assert(ratio_prefix(t, 2) == 340282366920938463463374607431768211456);
    assert(ratio_prefix(t, 3) == 340146287995602323631171512101879684304);
    assert(ratio_prefix(t, 4) == 340146287995602323631171512101879684304);
    assert(ratio_prefix(t, 5) == 339602516256333450911508783463471979131);
    assert(ratio_prefix(t, 6) == 338517579275194439321187592667164221528);
    assert(ratio_prefix(t, 7) == 336358092468829139771578271041138980598);
    assert(ratio_prefix(t, 8) == 332080358666931741096696533686537939851);
    assert(ratio_prefix(t, 9) == 332080358666931741096696533686537939851);
    assert(ratio_prefix(t, 10) == 332080358666931741096696533686537939851);
    assert(ratio_prefix(t, 11) == 299759984706031786325544380651874553391);
    assert(ratio_prefix(t, 12) == 299759984706031786325544380651874553391);
    assert(ratio_prefix(t, 13) == 299759984706031786325544380651874553391);
    assert(ratio_prefix(t, 14) == 299759984706031786325544380651874553391);
    assert(ratio_prefix(t, 15) == 58245335850494778643666308752178602959);
    assert(ratio_prefix(t, 16) == 2199055273679667890264176287186730611);
    assert(ratio_prefix(t, 17) == 2199055273679667890264176287186730611);
    assert(ratio_prefix(t, 18) == 4468236096036213022677869620526);
    assert(ratio_prefix(t, 19) == 18447437462383981825);
    assert(sqrt_ratio_at_tick(MIN_TICK as int) == MIN_SQRT_RATIO);
    assert(((word() - 1) as nat / 18447437462383981825nat) == 6276865796315986613307619852238232712866172378830071145882nat);
    assert(sqrt_ratio_at_tick(MAX_TICK as int) == MAX_SQRT_RATIO_HI * limb() + MAX_SQRT_RATIO_LO);
}

} // verus!
