use vstd::prelude::*;

verus! {

/// Errors raised by the fixed-point and liquidity arithmetic.
#[derive(Debug, Clone, Copy, PartialEq, Eq, Structural)]
pub enum MathError {
    Overflow,
    DivideByZero,
    LiquidityUnderflow,
    LiquidityOverflow,
    TickOutOfRange,
}

/// Adds a signed liquidity delta to an unsigned liquidity amount.
pub fn add_delta(x: u128, y: i128) -> (r: Result<u128, MathError>)
    ensures
        x + y < 0 <==> r == Err::<u128, MathError>(MathError::LiquidityUnderflow),
        x + y > u128::MAX <==> r == Err::<u128, MathError>(MathError::LiquidityOverflow),
        0 <= x + y <= u128::MAX <==> (r.is_ok() && r.unwrap() == x + y),
{
    if y < 0 {
        let m: u128 = if y == i128::MIN { 170141183460469231731687303715884105728u128 } else { (-y) as u128 };
        if m > x {
            Err(MathError::LiquidityUnderflow)
        } else {
            Ok(x - m)
        }
    } else {
        let m: u128 = y as u128;
        if x > u128::MAX - m {
            Err(MathError::LiquidityOverflow)
        } else {
            Ok(x + m)
        }
    }
}

/// Subtracts a signed liquidity delta from an unsigned liquidity amount.
pub fn sub_delta(x: u128, y: i128) -> (r: Result<u128, MathError>)
    ensures
        x - y < 0 <==> r == Err::<u128, MathError>(MathError::LiquidityUnderflow),
        x - y > u128::MAX <==> r == Err::<u128, MathError>(MathError::LiquidityOverflow),
        0 <= x - y <= u128::MAX <==> (r.is_ok() && r.unwrap() == x - y),
{
    if y > 0 {
        let m: u128 = y as u128;
        if m > x {
            Err(MathError::LiquidityUnderflow)
        } else {
            Ok(x - m)
        }
    } else {
        let m: u128 = if y == i128::MIN { 170141183460469231731687303715884105728u128 } else { (-y) as u128 };
        if x > u128::MAX - m {
            Err(MathError::LiquidityOverflow)
        } else {
            Ok(x + m)
        }
    }
}

} // verus!
