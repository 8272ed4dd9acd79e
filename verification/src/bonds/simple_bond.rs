//! The bond record and the operations on it.

use crate::bonds::error::fault_error;
use crate::bonds::error::shown;
use crate::bonds::error::surfaced;
use crate::bonds::accuracy::lemma_current_yield_accuracy;
use crate::bonds::accuracy::lemma_price_accuracy_at;
use crate::bonds::accuracy::price_error_bound_at;
use crate::bonds::accuracy::price_is_bounded;
use crate::bonds::duration::duration_error_bound;
use crate::bonds::duration::lemma_macaulay_accuracy;
use crate::bonds::duration::lemma_modified_accuracy;
use crate::bonds::duration::lemma_sensitivity_accuracy;
use crate::bonds::duration::macaulay_denominator;
use crate::bonds::duration::macaulay_numerator;
use crate::bonds::duration::modified_denominator;
use crate::bonds::duration::modified_error_bound;
use crate::bonds::duration::modified_numerator;
use crate::bonds::duration::sensitivity_error_bound;
use crate::bonds::error::BondError;
use crate::bonds::exact::present_value_denominator;
use crate::bonds::exact::present_value_numerator;
use crate::bonds::laws::converged_step;
use crate::bonds::laws::lemma_converged_step_has_small_residual;
use crate::bonds::laws::lemma_duration_undefined_at_zero_yield;
use crate::bonds::laws::lemma_par_bond_priced_at_face_value;
use crate::bonds::model::coupon_amount;
use crate::bonds::model::current_yield_of;
use crate::bonds::model::discount;
use crate::bonds::model::growth;
use crate::bonds::model::macaulay_of;
use crate::bonds::model::modified_of;
use crate::bonds::model::newton;
use crate::bonds::model::periods;
use crate::bonds::model::priced;
use crate::bonds::model::residual;
use crate::bonds::model::residual_slope;
use crate::bonds::model::sensitivity_of;
use crate::bonds::model::stalled;
use crate::bonds::model::lemma_periods_positive;
use crate::bonds::model::step_budget;
use crate::bonds::model::too_flat;
use crate::bonds::model::treasury_terms;
use crate::bonds::model::valid_terms;
use crate::bonds::model::BondView;
use crate::fixed::magnitude;
use crate::fixed::Checked;
use crate::fixed::Fault;
use crate::fixed::Fixed;
use crate::fixed::SCALE;
use vstd::prelude::*;

verus! {

/// A basic coupon bond with complete coupon periods: no accrued interest.
///
/// Face value, coupon, frequency and maturity are fixed when the bond is
/// made. Price and yield to maturity can be set, and each can be solved for
/// from the other; a quantity that is not known yet is conventionally zero.
#[derive(Clone, Copy, Debug)]
pub struct SimpleBond {
    face_value: Fixed,
    coupon: Fixed,
    frequency: Fixed,
    maturity: Fixed,
    yield_to_maturity: Fixed,
    price: Fixed,
    periods: u32,
}

/// The outcome of a finished computation.
fn surface(c: Checked) -> (r: Result<Fixed, BondError>)
    ensures
        shown(r) == surfaced(c@),
{
    match c.value {
        Ok(x) => Ok(x),
        Err(Fault::DivisionByZero) => Err(BondError::Domain),
        Err(Fault::Overflow) => Err(BondError::OutOfRange),
    }
}

impl View for SimpleBond {
    type V = BondView;

    closed spec fn view(&self) -> BondView {
        BondView {
            face_value: self.face_value@,
            coupon: self.coupon@,
            frequency: self.frequency@,
            maturity: self.maturity@,
            yield_to_maturity: self.yield_to_maturity@,
            price: self.price@,
        }
    }
}

impl SimpleBond {
    #[verifier::type_invariant]
    spec fn well_formed(self) -> bool {
        &&& valid_terms(self@)
        &&& self.periods == periods(self@)
    }

    /// Makes a bond from its terms, or rejects them.
    ///
    /// The terms are rejected unless the face value, the frequency and the
    /// maturity are positive, the coupon is not negative, and frequency
    /// times maturity is a whole number of periods, at most `u32::MAX`. The
    /// yield and the price may be any numbers.
    pub fn new(
        face_value: Fixed,
        coupon: Fixed,
        frequency: Fixed,
        maturity: Fixed,
        yield_to_maturity: Fixed,
        price: Fixed,
    ) -> (r: Result<SimpleBond, BondError>)
        ensures
            ({
                let terms = BondView {
                    face_value: face_value@,
                    coupon: coupon@,
                    frequency: frequency@,
                    maturity: maturity@,
                    yield_to_maturity: yield_to_maturity@,
                    price: price@,
                };
                match r {
                    Ok(bond) => valid_terms(terms) && bond@ == terms,
                    Err(e) => e == BondError::Validation && !valid_terms(terms),
                }
            }),
    {
        if face_value.raw <= 0 || coupon.raw < 0 || frequency.raw <= 0 || maturity.raw <= 0 {
            return Err(BondError::Validation);
        }
        assert(0 < frequency.raw * maturity.raw <= 0x4000_0000_0000_0000_0000_0000_0000_0000)
            by (nonlinear_arith)
            requires
                0 < frequency.raw <= i64::MAX,
                0 < maturity.raw <= i64::MAX,
        ;
        let span: u128 = (frequency.raw as u128) * (maturity.raw as u128);
        let unit: u128 = 1_000_000_000_000_000_000;
        assert(unit == SCALE * SCALE);
        if span % unit != 0 || span / unit > u32::MAX as u128 {
            return Err(BondError::Validation);
        }
        let count: u32 = (span / unit) as u32;
        Ok(
            SimpleBond {
                face_value,
                coupon,
                frequency,
                maturity,
                yield_to_maturity,
                price,
                periods: count,
            },
        )
    }

    /// Redemption amount paid at maturity.
    pub fn face_value(&self) -> (r: Fixed)
        ensures
            r@ == self@.face_value,
    {
        self.face_value
    }

    /// Annual coupon rate as a fraction of the face value.
    pub fn coupon(&self) -> (r: Fixed)
        ensures
            r@ == self@.coupon,
    {
        self.coupon
    }

    /// Coupon payments per year.
    pub fn frequency(&self) -> (r: Fixed)
        ensures
            r@ == self@.frequency,
    {
        self.frequency
    }

    /// Years remaining to maturity.
    pub fn maturity(&self) -> (r: Fixed)
        ensures
            r@ == self@.maturity,
    {
        self.maturity
    }

    /// Annual yield to maturity, as last set or solved.
    pub fn yield_to_maturity(&self) -> (r: Fixed)
        ensures
            r@ == self@.yield_to_maturity,
    {
        self.yield_to_maturity
    }

    /// Market price, as last set or solved.
    pub fn price(&self) -> (r: Fixed)
        ensures
            r@ == self@.price,
    {
        self.price
    }

    /// The number of coupon periods remaining.
    pub fn periods(&self) -> (n: u32)
        ensures
            n == periods(self@),
            n >= 1,
            valid_terms(self@),
    {
        proof {
            use_type_invariant(self);
            lemma_periods_positive(self@);
        }
        self.periods
    }

    /// Records a known market price.
    pub fn set_price(&mut self, price: Fixed)
        ensures
            final(self)@ == (BondView { price: price@, ..old(self)@ }),
    {
        proof {
            use_type_invariant(&*self);
        }
        self.price = price;
    }

    /// Records a known yield to maturity.
    pub fn set_yield_to_maturity(&mut self, yield_to_maturity: Fixed)
        ensures
            final(self)@ == (BondView { yield_to_maturity: yield_to_maturity@, ..old(self)@ }),
    {
        proof {
            use_type_invariant(&*self);
        }
        self.yield_to_maturity = yield_to_maturity;
    }

    /// `(1 + x / frequency)^n`.
    fn growth_at(&self, x: Fixed, n: u64) -> (r: Checked)
        ensures
            r@ == growth(self@, x@, n as nat),
    {
        Checked::of(Fixed::one()).plus(Checked::of(x).over(Checked::of(self.frequency))).raised_to(n)
    }

    /// `coupon * face_value`.
    fn coupon_amount(&self) -> (r: Checked)
        ensures
            r@ == coupon_amount(self@),
    {
        Checked::of(self.coupon).times(Checked::of(self.face_value))
    }

    /// `(1 + x / frequency)^(-n)`.
    fn discount_at(&self, x: Fixed, n: u64) -> (r: Checked)
        ensures
            r@ == discount(self@, x@, n as nat),
    {
        Checked::of(Fixed::one()).over(self.growth_at(x, n))
    }

    /// Solves the pricing equation at the bond's yield to maturity and
    /// records the price.
    ///
    /// A zero yield is a domain error. Otherwise the price is the value of
    /// the present-value formula, each step rounded to the nearest
    /// billionth; a step that divides by zero is a domain error and a step
    /// whose result is too large an out-of-range error. On an error the bond
    /// is left as it was.
    ///
    /// With no more than a billion periods, and at a negative yield with a
    /// growth factor that has not shrunk to a few billionths, the price is
    /// within `price_error_bound_at` billionths of the exact present value
    /// of the bond's cash flows. Where the coupon rate equals the yield, the
    /// price is the face value up to rounding.
    pub fn solve_price(&mut self) -> (r: Result<Fixed, BondError>)
        ensures
            shown(r) == priced(old(self)@),
            match r {
                Ok(p) => final(self)@ == (BondView { price: p@, ..old(self)@ }),
                Err(_) => *final(self) == *old(self),
            },
            valid_terms(old(self)@),
            r matches Ok(p) ==> (price_is_bounded(old(self)@) ==> {
                let exact_numerator = present_value_numerator(old(self)@);
                let exact_denominator = present_value_denominator(old(self)@);
                &&& exact_denominator > 0
                &&& magnitude(p@ * exact_denominator - exact_numerator) <= price_error_bound_at(
                    old(self)@,
                ) * exact_denominator
            }),
            r matches Ok(p) ==> (old(self)@.coupon == old(self)@.yield_to_maturity ==> magnitude(
                p@ - old(self)@.face_value,
            ) <= (SCALE as int) / old(self)@.coupon + old(self)@.face_value / (SCALE as int) + 2),
    {
        proof {
            use_type_invariant(&*self);
        }
        if self.yield_to_maturity.raw == 0 {
            return Err(BondError::Domain);
        }
        let one = Checked::of(Fixed::one());
        let g = self.growth_at(self.yield_to_maturity, self.periods as u64);
        let pv_principal = Checked::of(self.face_value).over(g);
        let pv_coupon = self.coupon_amount().over(Checked::of(self.yield_to_maturity)).times(
            one.minus(one.over(g)),
        );
        let r = surface(pv_principal.plus(pv_coupon));
        match r {
            Ok(p) => {
                proof {
                    if price_is_bounded(self@) {
                        lemma_price_accuracy_at(self@, p@);
                    }
                    if self@.coupon == self@.yield_to_maturity {
                        lemma_par_bond_priced_at_face_value(self@, p@);
                    }
                }
                self.price = p;
            },
            Err(_) => {},
        }
        r
    }

    /// The residual of the pricing equation at the trial yield `x`.
    fn residual_at(&self, x: Fixed) -> (r: Checked)
        ensures
            r@ == residual(self@, x@),
    {
        proof {
            use_type_invariant(self);
        }
        let perpetuity = self.coupon_amount().over(Checked::of(x));
        Checked::of(self.face_value).minus(perpetuity).times(
            self.discount_at(x, self.periods as u64),
        ).plus(perpetuity).minus(Checked::of(self.price))
    }

    /// The slope of the residual at the trial yield `x`.
    fn residual_slope_at(&self, x: Fixed) -> (r: Checked)
        ensures
            r@ == residual_slope(self@, x@),
    {
        proof {
            use_type_invariant(self);
        }
        let count = Checked::of(self.frequency).times(Checked::of(self.maturity));
        let level = self.coupon_amount().over(Checked::of(x).times(Checked::of(x)));
        let perpetuity = self.coupon_amount().over(Checked::of(x));
        level.times(self.discount_at(x, self.periods as u64)).minus(
            Checked::of(self.face_value).minus(perpetuity).times(
                count.times(self.discount_at(x, self.periods as u64 + 1)),
            ).over(Checked::of(self.frequency)),
        ).minus(level)
    }

    /// Solves for the yield to maturity that reproduces the bond's price, by
    /// Newton's method from the guess `x0`, and records it.
    ///
    /// The guess counts as the first of `iter` iterates, so at most
    /// `iter - 1` Newton steps are taken. A step first evaluates the slope
    /// of the residual; when it is zero or smaller in magnitude than
    /// `epsilon` the search stops. Otherwise the step moves to
    /// `x - residual / slope`, and the search has converged when the move is
    /// no longer than `tolerance`.
    ///
    /// Only a converged yield is recorded and returned; at the iterate
    /// before it the residual is then no more than the slope times the
    /// tolerance and half a billionth. A search that stops
    /// at a flat slope or runs out of steps reports the last iterate and the
    /// number of completed steps; a step that cannot be evaluated reports a
    /// domain or out-of-range error. On an error the bond is left as it was.
    pub fn solve_yield_to_maturity(
        &mut self,
        x0: Fixed,
        iter: i32,
        tolerance: Fixed,
        epsilon: Fixed,
    ) -> (r: Result<Fixed, BondError>)
        ensures
            shown(r) == newton(
                old(self)@,
                x0@,
                step_budget(iter as int),
                0,
                tolerance@,
                epsilon@,
            ),
            match r {
                Ok(y) => final(self)@ == (BondView { yield_to_maturity: y@, ..old(self)@ }),
                Err(_) => *final(self) == *old(self),
            },
            valid_terms(old(self)@),
            r matches Ok(y) ==> exists|x: int|
                {
                    &&& #[trigger] converged_step(old(self)@, x, y@, tolerance@, epsilon@)
                    &&& 2 * (SCALE * magnitude(residual(old(self)@, x)->Ok_0)) <= magnitude(
                        residual_slope(old(self)@, x)->Ok_0,
                    ) * (2 * tolerance@ + 1)
                },
            iter <= 1 ==> r == Err::<Fixed, BondError>(
                BondError::Convergence { last_iterate: x0, iterations: 0 },
            ),
            iter >= 2 ==> match residual_slope(old(self)@, x0@) {
                Ok(slope) => too_flat(slope, epsilon@) ==> r == Err::<Fixed, BondError>(
                    BondError::Convergence { last_iterate: x0, iterations: 0 },
                ),
                Err(f) => r == Err::<Fixed, BondError>(fault_error(f)),
            },
    {
        proof {
            use_type_invariant(&*self);
        }
        let budget: u32 = if iter <= 1 {
            0
        } else {
            (iter - 1) as u32
        };
        let mut x = x0;
        let mut taken: u32 = 0;
        while taken < budget
            invariant
                taken <= budget,
                valid_terms(self@),
                budget as nat == step_budget(iter as int),
                *self == *old(self),
                newton(self@, x0@, budget as nat, 0, tolerance@, epsilon@) == newton(
                    self@,
                    x@,
                    (budget - taken) as nat,
                    taken as nat,
                    tolerance@,
                    epsilon@,
                ),
            decreases budget - taken,
        {
            let slope = self.residual_slope_at(x);
            let d = match slope.value {
                Err(f) => {
                    return surface(slope);
                },
                Ok(d) => d,
            };
            let steepness: i128 = if d.raw < 0 {
                -(d.raw as i128)
            } else {
                d.raw as i128
            };
            if d.raw == 0 || steepness < epsilon.raw as i128 {
                return Err(BondError::Convergence { last_iterate: x, iterations: taken });
            }
            let moved = Checked::of(x).minus(self.residual_at(x).over(slope));
            let next = match moved.value {
                Err(f) => {
                    return surface(moved);
                },
                Ok(next) => next,
            };
            let gap: i128 = next.raw as i128 - x.raw as i128;
            let distance: i128 = if gap < 0 {
                -gap
            } else {
                gap
            };
            if distance <= tolerance.raw as i128 {
                proof {
                    use_type_invariant(&*self);
                    assert(converged_step(self@, x@, next@, tolerance@, epsilon@));
                    lemma_converged_step_has_small_residual(
                        self@,
                        x@,
                        next@,
                        tolerance@,
                        epsilon@,
                    );
                }
                self.yield_to_maturity = next;
                return Ok(next);
            }
            x = next;
            taken = taken + 1;
        }
        Err(BondError::Convergence { last_iterate: x, iterations: taken })
    }

    /// The coupon income per year as a percentage of the price.
    ///
    /// A zero price is a domain error, unless the coupon amount is already
    /// out of range. The result is within fifty billionths, and another
    /// fifty divided by the price, of the exact
    /// `100 * face * coupon / price`.
    pub fn current_yield(&self) -> (r: Result<Fixed, BondError>)
        ensures
            shown(r) == surfaced(current_yield_of(self@)),
            r matches Ok(y) ==> self@.price != 0 && magnitude(
                y@ * self@.price - 100 * (self@.face_value * self@.coupon),
            ) <= 50 * (magnitude(self@.price) + SCALE),
    {
        let r = surface(
            Checked::of(self.face_value).times(Checked::of(self.coupon)).over(
                Checked::of(self.price),
            ).times(Checked::of(Fixed::from_raw(100_000_000_000))),
        );
        proof {
            match r {
                Ok(y) => {
                    lemma_current_yield_accuracy(self@, y@);
                },
                Err(_) => {},
            }
        }
        r
    }

    fn macaulay(&self) -> (r: Checked)
        ensures
            r@ == macaulay_of(self@),
    {
        proof {
            use_type_invariant(self);
        }
        let one = Checked::of(Fixed::one());
        let two = Checked::of(Fixed::from_raw(2_000_000_000));
        let f = Checked::of(self.frequency);
        let n = Checked::of(self.maturity).times(f);
        let c = Checked::of(self.coupon).over(two);
        let y = Checked::of(self.yield_to_maturity).over(two);
        let one_y = one.plus(y);
        one_y.over(f.times(y)).minus(
            one_y.plus(n.times(c.minus(y))).over(
                f.times(c).times(one_y.raised_to(self.periods as u64).minus(one)).plus(f.times(y)),
            ),
        )
    }

    fn modified(&self) -> (r: Checked)
        ensures
            r@ == modified_of(self@),
    {
        self.macaulay().over(
            Checked::of(Fixed::one()).plus(
                Checked::of(self.yield_to_maturity).over(Checked::of(self.frequency)),
            ),
        )
    }

    /// The Macaulay duration of the bond in years, by the closed formula
    /// for a level-coupon bond.
    ///
    /// The formula halves the coupon rate and the yield whatever the
    /// frequency of the bond: it is the duration of a bond that pays twice a
    /// year, and for another frequency it is that of the semiannual bond
    /// with the same terms. A step that divides by zero, as the first does
    /// at a zero yield, is a domain error, and a step whose result is too
    /// large an out-of-range error.
    ///
    /// At a positive yield, and with fewer than half a billion periods, the
    /// result is within `duration_error_bound` billionths of the exact value
    /// of the formula.
    pub fn macauly_duration(&self) -> (r: Result<Fixed, BondError>)
        ensures
            shown(r) == surfaced(macaulay_of(self@)),
            self@.yield_to_maturity == 0 ==> r == Err::<Fixed, BondError>(BondError::Domain),
            r matches Ok(d) ==> (self@.yield_to_maturity > 0 && 2 * periods(self@) < SCALE ==> {
                &&& macaulay_denominator(self@) > 0
                &&& magnitude(d@ * macaulay_denominator(self@) - macaulay_numerator(self@))
                    <= duration_error_bound(self@) * macaulay_denominator(self@)
            }),
    {
        let r = surface(self.macaulay());
        proof {
            use_type_invariant(self);
            if self@.yield_to_maturity == 0 {
                lemma_duration_undefined_at_zero_yield(self@);
            }
            match r {
                Ok(d) => {
                    if self@.yield_to_maturity > 0 && 2 * periods(self@) < SCALE {
                        lemma_macaulay_accuracy(self@, d@);
                    }
                },
                Err(_) => {},
            }
        }
        r
    }

    /// The modified duration: the Macaulay duration divided by one plus the
    /// yield per period.
    ///
    /// At a positive yield, and with fewer than half a billion periods, the
    /// result is within `modified_error_bound` billionths of the exact
    /// value.
    pub fn modified_duration(&self) -> (r: Result<Fixed, BondError>)
        ensures
            shown(r) == surfaced(modified_of(self@)),
            self@.yield_to_maturity == 0 ==> r == Err::<Fixed, BondError>(BondError::Domain),
            r matches Ok(m) ==> (self@.yield_to_maturity > 0 && 2 * periods(self@) < SCALE ==> {
                &&& modified_denominator(self@) > 0
                &&& magnitude(m@ * modified_denominator(self@) - modified_numerator(self@))
                    <= modified_error_bound(self@) * modified_denominator(self@)
            }),
    {
        let r = surface(self.modified());
        proof {
            use_type_invariant(self);
            if self@.yield_to_maturity == 0 {
                lemma_duration_undefined_at_zero_yield(self@);
            }
            match r {
                Ok(m) => {
                    if self@.yield_to_maturity > 0 && 2 * periods(self@) < SCALE {
                        lemma_modified_accuracy(self@, m@);
                    }
                },
                Err(_) => {},
            }
        }
        r
    }

    /// The first-order estimate of the price change when the yield moves
    /// from `old_yield` to `new_yield`: the modified duration times the
    /// price and the move, negated.
    ///
    /// At a positive yield, and with fewer than half a billion periods, the
    /// result is within `sensitivity_error_bound` billionths of the exact
    /// modified duration times the price and the move, negated.
    pub fn price_sensitivity(&self, old_yield: Fixed, new_yield: Fixed) -> (r: Result<
        Fixed,
        BondError,
    >)
        ensures
            shown(r) == surfaced(sensitivity_of(self@, old_yield@, new_yield@)),
            self@.yield_to_maturity == 0 ==> r == Err::<Fixed, BondError>(BondError::Domain),
            r matches Ok(change) ==> (self@.yield_to_maturity > 0 && 2 * periods(self@) < SCALE
                ==> {
                let exact_denominator = (SCALE * SCALE) * modified_denominator(self@);
                let exact_numerator = -(modified_numerator(self@) * (self@.price * (new_yield@
                    - old_yield@)));
                &&& exact_denominator > 0
                &&& magnitude(change@ * exact_denominator - exact_numerator)
                    <= sensitivity_error_bound(self@, old_yield@, new_yield@) * exact_denominator
            }),
    {
        let r = surface(
            Checked::of(Fixed::from_raw(-1_000_000_000)).times(self.modified()).times(
                Checked::of(self.price),
            ).times(Checked::of(new_yield).minus(Checked::of(old_yield))),
        );
        proof {
            use_type_invariant(self);
            if self@.yield_to_maturity == 0 {
                lemma_duration_undefined_at_zero_yield(self@);
            }
            match r {
                Ok(change) => {
                    if self@.yield_to_maturity > 0 && 2 * periods(self@) < SCALE {
                        lemma_sensitivity_accuracy(self@, old_yield@, new_yield@, change@);
                        let z = modified_denominator(self@);
                        assert((SCALE * SCALE) * z > 0) by (nonlinear_arith)
                            requires
                                z > 0,
                                SCALE == 1_000_000_000,
                        ;
                    }
                },
                Err(_) => {},
            }
        }
        r
    }
}

/// Makes a bond with the conventions of a Treasury note: a face value of
/// one thousand and two coupon payments a year.
pub fn build_ust(coupon: Fixed, maturity: Fixed, yield_to_maturity: Fixed, price: Fixed) -> (r:
    Result<SimpleBond, BondError>)
    ensures
        match r {
            Ok(bond) => valid_terms(bond@) && bond@ == treasury_terms(
                coupon@,
                maturity@,
                yield_to_maturity@,
                price@,
            ),
            Err(e) => e == BondError::Validation && !valid_terms(
                treasury_terms(coupon@, maturity@, yield_to_maturity@, price@),
            ),
        },
{
    SimpleBond::new(
        Fixed::from_raw(1_000_000_000_000),
        coupon,
        Fixed::from_raw(2_000_000_000),
        maturity,
        yield_to_maturity,
        price,
    )
}

} // verus!
