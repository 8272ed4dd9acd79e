//! Time-value-of-money analytics for fixed-rate coupon bonds with whole
//! coupon periods remaining, computed in checked decimal fixed-point
//! arithmetic.
//!
//! Every quantity is a [`fixed::Fixed`]: a signed integer count of
//! billionths. Formulas are evaluated step by step, each step rounded to the
//! nearest billionth, and a step whose result cannot be represented makes the
//! whole evaluation fail with an explicit error instead of a sentinel value.
//!
//! [`bonds::simple_bond::SimpleBond`] is the bond record. It prices a bond
//! from its yield, solves for the yield from a price by Newton's method, and
//! computes the current yield, the Macaulay and the modified duration and
//! the sensitivity of the price to a move of the yield.
//!
//! What each operation returns is stated exactly, as the value of a formula
//! of [`bonds::model`]. How far the rounded values can be from the values
//! of the formulas in exact arithmetic is stated too: see [`bonds::exact`],
//! [`bonds::accuracy`] and [`bonds::duration`].

pub mod bonds;
pub mod fixed;
