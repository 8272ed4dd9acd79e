//! Coupon bonds: the record, the formulas it is priced by, what can go
//! wrong, and what holds of the results.

pub mod accuracy;
pub mod duration;
pub mod error;
pub mod exact;
pub mod laws;
pub mod model;
pub mod simple_bond;
