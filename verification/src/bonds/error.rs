//! Failures of the bond analytics.

use crate::fixed::Fault;
use crate::fixed::Fixed;
use vstd::prelude::*;

verus! {

/// Why an operation on a bond produced no value.
#[derive(Clone, Copy, Debug, PartialEq, Eq, Structural)]
pub enum BondError {
    /// The terms do not describe a bond: a non-positive face value, frequency
    /// or maturity, a negative coupon, or a number of coupon periods that is
    /// not a whole number between one and `u32::MAX`.
    Validation,
    /// A formula divides by zero on these inputs, as pricing and duration do
    /// at a zero yield.
    Domain,
    /// Some step of a formula has a result too large to represent.
    OutOfRange,
    /// Newton's method stopped without meeting the tolerance: the slope of
    /// the residual was zero or below the guard, or the step budget ran out.
    Convergence {
        /// The iterate at which the search stopped.
        last_iterate: Fixed,
        /// The number of completed Newton steps.
        iterations: u32,
    },
}

/// The error that reports an arithmetic fault.
pub open spec fn fault_error(f: Fault) -> BondError {
    match f {
        Fault::DivisionByZero => BondError::Domain,
        Fault::Overflow => BondError::OutOfRange,
    }
}

/// A lifted raw value as the outcome of a public operation.
pub open spec fn surfaced(q: Result<int, Fault>) -> Result<int, BondError> {
    match q {
        Ok(x) => Ok(x),
        Err(f) => Err(fault_error(f)),
    }
}

/// The outcome of a public operation, with its number as a raw value.
pub open spec fn shown(r: Result<Fixed, BondError>) -> Result<int, BondError> {
    match r {
        Ok(x) => Ok(x@),
        Err(e) => Err(e),
    }
}

} // verus!
