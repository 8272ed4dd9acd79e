//! The mathematical model of a bond and of the formulas evaluated on it.
//!
//! All quantities here are raw values: integers counting billionths. A
//! formula is a tree of rounded operations; its value is the number it
//! evaluates to, or the first arithmetic fault met from left to right.

use crate::bonds::error::fault_error;
use crate::bonds::error::BondError;
use crate::fixed::difference;
use crate::fixed::magnitude;
use crate::fixed::power;
use crate::fixed::product;
use crate::fixed::quotient;
use crate::fixed::sum;
use crate::fixed::Fault;
use crate::fixed::Fixed;
use crate::fixed::SCALE;
use vstd::prelude::*;

verus! {

/// The terms of a bond as raw mathematical integers.
pub struct BondView {
    /// Redemption amount paid at maturity.
    pub face_value: int,
    /// Annual coupon rate as a fraction of the face value.
    pub coupon: int,
    /// Coupon payments per year.
    pub frequency: int,
    /// Years remaining to maturity.
    pub maturity: int,
    /// Annual yield to maturity.
    pub yield_to_maturity: int,
    /// Market price.
    pub price: int,
}

/// Whether the terms describe a bond: positive face value, frequency and
/// maturity, a non-negative coupon, and a whole number of coupon periods
/// between one and `u32::MAX`.
pub open spec fn valid_terms(v: BondView) -> bool {
    &&& v.face_value > 0
    &&& v.coupon >= 0
    &&& v.frequency > 0
    &&& v.maturity > 0
    &&& (v.frequency * v.maturity) % (SCALE * SCALE) == 0
    &&& v.frequency * v.maturity <= u32::MAX * (SCALE * SCALE)
}

/// The number of coupon periods remaining: frequency times maturity.
pub open spec fn periods(v: BondView) -> nat {
    (v.frequency * v.maturity / (SCALE * SCALE)) as nat
}

/// The terms of a bond with the conventions of a Treasury note: a face
/// value of one thousand and two coupon payments a year.
pub open spec fn treasury_terms(coupon: int, maturity: int, yield_to_maturity: int, price: int)
    -> BondView {
    BondView {
        face_value: 1000 * SCALE,
        coupon,
        frequency: 2 * SCALE,
        maturity,
        yield_to_maturity,
        price,
    }
}

/// A valid bond has at least one coupon period.
pub proof fn lemma_periods_positive(v: BondView)
    requires
        valid_terms(v),
    ensures
        1 <= periods(v) <= u32::MAX,
        periods(v) * (SCALE * SCALE) == v.frequency * v.maturity,
{
    let unit = SCALE * SCALE;
    let span = v.frequency * v.maturity;
    assert(span > 0) by (nonlinear_arith)
        requires
            span == v.frequency * v.maturity,
            v.frequency > 0,
            v.maturity > 0,
    ;
    assert(span == unit * (span / unit) + span % unit) by (nonlinear_arith)
        requires
            unit > 0,
    ;
    assert(span / unit <= u32::MAX && span / unit >= 1) by (nonlinear_arith)
        requires
            span == unit * (span / unit),
            span > 0,
            unit > 0,
            span <= u32::MAX * unit,
    ;
}

/// A raw value that is known exactly.
pub open spec fn known(x: int) -> Result<int, Fault> {
    Ok(x)
}

/// The number one.
pub open spec fn one() -> Result<int, Fault> {
    Ok(SCALE as int)
}

/// The growth factor `(1 + x / frequency)^n` of `n` periods at the annual
/// rate `x`.
pub open spec fn growth(v: BondView, x: int, n: nat) -> Result<int, Fault> {
    power(sum(one(), quotient(known(x), known(v.frequency))), n)
}

/// The discount factor `(1 + x / frequency)^(-n)`.
pub open spec fn discount(v: BondView, x: int, n: nat) -> Result<int, Fault> {
    quotient(one(), growth(v, x, n))
}

/// The coupon paid per year: `coupon * face_value`.
pub open spec fn coupon_amount(v: BondView) -> Result<int, Fault> {
    product(known(v.coupon), known(v.face_value))
}

/// The present value of the bond at its yield to maturity:
///
/// ```text
/// face / (1 + y/f)^n  +  (coupon * face / y) * (1 - 1 / (1 + y/f)^n)
/// ```
pub open spec fn price_of(v: BondView) -> Result<int, Fault> {
    let g = growth(v, v.yield_to_maturity, periods(v));
    let pv_principal = quotient(known(v.face_value), g);
    let pv_coupon = product(
        quotient(coupon_amount(v), known(v.yield_to_maturity)),
        difference(one(), quotient(one(), g)),
    );
    sum(pv_principal, pv_coupon)
}

/// The outcome of pricing: a domain error at a zero yield, otherwise the
/// value of [`price_of`] or the error that its fault stands for.
pub open spec fn priced(v: BondView) -> Result<int, BondError> {
    if v.yield_to_maturity == 0 {
        Err(BondError::Domain)
    } else {
        match price_of(v) {
            Ok(p) => Ok(p),
            Err(f) => Err(fault_error(f)),
        }
    }
}

/// The residual of the pricing equation at the trial yield `x`, zero at the
/// yield that reproduces the bond's price:
///
/// ```text
/// (face - coupon*face/x) * (1 + x/f)^(-n) + coupon*face/x - price
/// ```
pub open spec fn residual(v: BondView, x: int) -> Result<int, Fault> {
    let perpetuity = quotient(coupon_amount(v), known(x));
    difference(
        sum(
            product(difference(known(v.face_value), perpetuity), discount(v, x, periods(v))),
            perpetuity,
        ),
        known(v.price),
    )
}

/// The derivative of [`residual`] with respect to the trial yield:
///
/// ```text
/// (coupon*face/x^2) * (1 + x/f)^(-n)
///   - (face - coupon*face/x) * (f*m * (1 + x/f)^(-n-1)) / f
///   - coupon*face/x^2
/// ```
pub open spec fn residual_slope(v: BondView, x: int) -> Result<int, Fault> {
    let count = product(known(v.frequency), known(v.maturity));
    let level = quotient(coupon_amount(v), product(known(x), known(x)));
    let perpetuity = quotient(coupon_amount(v), known(x));
    difference(
        difference(
            product(level, discount(v, x, periods(v))),
            quotient(
                product(
                    difference(known(v.face_value), perpetuity),
                    product(count, discount(v, x, periods(v) + 1)),
                ),
                known(v.frequency),
            ),
        ),
        level,
    )
}

/// The Newton iterate that follows `x`: `x - residual(x) / slope(x)`.
pub open spec fn newton_next(v: BondView, x: int) -> Result<int, Fault> {
    difference(known(x), quotient(residual(v, x), residual_slope(v, x)))
}

/// Whether a slope is too flat to divide by: zero, or below the guard.
pub open spec fn too_flat(slope: int, epsilon: int) -> bool {
    slope == 0 || magnitude(slope) < epsilon
}

/// The report of a search that stopped at `x` after `taken` steps.
pub open spec fn stalled(x: int, taken: nat) -> BondError {
    BondError::Convergence { last_iterate: Fixed { raw: x as i64 }, iterations: taken as u32 }
}

/// The number of Newton steps that an iteration count of `iter` allows: the
/// initial guess counts as the first iterate.
pub open spec fn step_budget(iter: int) -> nat {
    if iter <= 1 {
        0
    } else {
        (iter - 1) as nat
    }
}

/// Newton's method from the iterate `x`, with `budget` steps left and
/// `taken` steps done.
///
/// Each step first evaluates the slope at `x` and stops without a root when
/// it is too flat. Otherwise it moves to the next iterate, and has found the
/// root when the move is no longer than `tolerance`. A fault in a step is
/// reported as the error it stands for; running out of budget stops the
/// search without a root.
pub open spec fn newton(
    v: BondView,
    x: int,
    budget: nat,
    taken: nat,
    tolerance: int,
    epsilon: int,
) -> Result<int, BondError>
    decreases budget,
{
    if budget == 0 {
        Err(stalled(x, taken))
    } else {
        match residual_slope(v, x) {
            Err(f) => Err(fault_error(f)),
            Ok(slope) => if too_flat(slope, epsilon) {
                Err(stalled(x, taken))
            } else {
                match newton_next(v, x) {
                    Err(f) => Err(fault_error(f)),
                    Ok(next) => if magnitude(next - x) <= tolerance {
                        Ok(next)
                    } else {
                        newton(v, next, (budget - 1) as nat, taken + 1, tolerance, epsilon)
                    },
                }
            },
        }
    }
}

/// The coupon income per year as a percentage of the price:
/// `face * coupon / price * 100`.
pub open spec fn current_yield_of(v: BondView) -> Result<int, Fault> {
    product(
        quotient(product(known(v.face_value), known(v.coupon)), known(v.price)),
        known(100 * SCALE),
    )
}

/// The Macaulay duration in years, by the closed formula for a level-coupon
/// bond with the coupon rate and the yield halved (`c = coupon / 2`,
/// `y = yield / 2`, `n = maturity * frequency`):
///
/// ```text
/// (1 + y) / (f*y)  -  (1 + y + n*(c - y)) / (f*c*((1 + y)^n - 1) + f*y)
/// ```
pub open spec fn macaulay_of(v: BondView) -> Result<int, Fault> {
    let two = known(2 * SCALE);
    let f = known(v.frequency);
    let n = product(known(v.maturity), f);
    let c = quotient(known(v.coupon), two);
    let y = quotient(known(v.yield_to_maturity), two);
    let one_y = sum(one(), y);
    difference(
        quotient(one_y, product(f, y)),
        quotient(
            sum(one_y, product(n, difference(c, y))),
            sum(
                product(product(f, c), difference(power(one_y, periods(v)), one())),
                product(f, y),
            ),
        ),
    )
}

/// The modified duration: `macaulay / (1 + yield / frequency)`.
pub open spec fn modified_of(v: BondView) -> Result<int, Fault> {
    quotient(macaulay_of(v), sum(one(), quotient(known(v.yield_to_maturity), known(v.frequency))))
}

/// The first-order change of the price when the yield moves from
/// `old_yield` to `new_yield`: `-modified * price * (new_yield - old_yield)`.
pub open spec fn sensitivity_of(v: BondView, old_yield: int, new_yield: int) -> Result<int, Fault> {
    product(
        product(product(known(-SCALE), modified_of(v)), known(v.price)),
        difference(known(new_yield), known(old_yield)),
    )
}

} // verus!
