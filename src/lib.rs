//! Off-chain swap engine of a concentrated-liquidity market maker, in exact
//! fixed-point integer arithmetic.
//!
//! Leaf first: `full_math` (256-bit values and multiply-divide),
//! `liquidity_math` (signed liquidity deltas), `tick_math` (tick and price
//! conversion), `tick_bitmap` (initialized-tick lookup), `sqrt_price_math`
//! (price and amount formulas), `swap_math` (one segment) and `swap` (the loop).

pub mod full_math;
pub mod liquidity_math;
pub mod sqrt_price_math;
pub mod swap;
pub mod swap_math;
pub mod tick_bitmap;
pub mod tick_math;
