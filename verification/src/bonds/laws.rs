//! What holds of the formulas on every bond.

use crate::bonds::error::shown;
use crate::bonds::error::BondError;
use crate::bonds::model::growth;
use crate::bonds::model::macaulay_of;
use crate::bonds::model::modified_of;
use crate::bonds::model::newton;
use crate::bonds::model::newton_next;
use crate::bonds::model::periods;
use crate::bonds::model::price_of;
use crate::bonds::model::residual;
use crate::bonds::model::residual_slope;
use crate::bonds::model::sensitivity_of;
use crate::bonds::model::step_budget;
use crate::bonds::model::too_flat;
use crate::bonds::model::valid_terms;
use crate::bonds::model::BondView;
use crate::fixed::fx_div;
use crate::fixed::fx_mul;
use crate::fixed::fx_pow;
use crate::fixed::lemma_power_at_least_one;
use crate::fixed::lemma_power_at_most_one;
use crate::fixed::lemma_round_div_error;
use crate::fixed::lemma_round_div_exact;
use crate::fixed::lemma_round_div_magnitude;
use crate::fixed::lemma_round_div_monotonic;
use crate::fixed::lemma_round_div_nonnegative;
use crate::fixed::magnitude;
use crate::fixed::Fault;
use crate::fixed::Fixed;
use crate::fixed::SCALE;
use vstd::prelude::*;

verus! {

/// At a zero yield the duration formula divides by zero in its first term,
/// so the Macaulay duration, the modified duration and the price sensitivity
/// are all undefined.
pub proof fn lemma_duration_undefined_at_zero_yield(v: BondView)
    requires
        v.yield_to_maturity == 0,
    ensures
        macaulay_of(v) == Err::<int, Fault>(Fault::DivisionByZero),
        modified_of(v) == Err::<int, Fault>(Fault::DivisionByZero),
        forall|old_yield: int, new_yield: int| #[trigger]
            sensitivity_of(v, old_yield, new_yield) == Err::<int, Fault>(Fault::DivisionByZero),
{
    assert(0 * SCALE == 0 * (2 * SCALE));
    lemma_round_div_exact(0, 2 * SCALE);
    assert(fx_div(0, 2 * SCALE) == 0);
    assert(v.frequency * 0 == 0 * SCALE);
    lemma_round_div_exact(0, SCALE as int);
    assert(fx_mul(v.frequency, 0) == 0);
}

/// The numbers that pricing passes through on its way to the price.
pub struct PriceSteps {
    /// One plus the yield per period.
    pub base: int,
    /// The growth factor over all periods.
    pub growth: int,
    /// The present value of the face value.
    pub pv_principal: int,
    /// The coupon paid per year.
    pub coupon_amount: int,
    /// The coupon amount divided by the yield.
    pub annuity: int,
    /// One divided by the growth factor.
    pub inverse: int,
    /// The present value of the coupons.
    pub pv_coupon: int,
}

/// The steps of pricing `v`; meaningful when `price_of(v)` is a number.
pub open spec fn price_steps(v: BondView) -> PriceSteps {
    let base = SCALE + fx_div(v.yield_to_maturity, v.frequency);
    let growth = fx_pow(base, periods(v))->Ok_0;
    let coupon_amount = fx_mul(v.coupon, v.face_value);
    let annuity = fx_div(coupon_amount, v.yield_to_maturity);
    let inverse = fx_div(SCALE as int, growth);
    PriceSteps {
        base,
        growth,
        pv_principal: fx_div(v.face_value, growth),
        coupon_amount,
        annuity,
        inverse,
        pv_coupon: fx_mul(annuity, SCALE - inverse),
    }
}

/// A price that is a number is the sum of the two present values of
/// [`price_steps`], and none of its divisors is zero.
pub proof fn lemma_price_steps(v: BondView, p: int)
    requires
        price_of(v) == Ok::<int, Fault>(p),
    ensures
        v.frequency != 0,
        v.yield_to_maturity != 0,
        price_steps(v).growth != 0,
        growth(v, v.yield_to_maturity, periods(v)) == Ok::<int, Fault>(price_steps(v).growth),
        p == price_steps(v).pv_principal + price_steps(v).pv_coupon,
{
}

/// At a positive yield the growth factor is at least one, and its inverse
/// lies between zero and one.
pub proof fn lemma_growth_at_positive_yield(v: BondView)
    requires
        v.frequency > 0,
        v.yield_to_maturity > 0,
        growth(v, v.yield_to_maturity, periods(v)) is Ok,
    ensures
        price_steps(v).base >= SCALE,
        fx_pow(price_steps(v).base, periods(v)) == Ok::<int, Fault>(price_steps(v).growth),
        price_steps(v).growth >= SCALE,
        0 <= price_steps(v).inverse <= SCALE,
{
    let t = price_steps(v);
    assert(v.yield_to_maturity * SCALE >= 0) by (nonlinear_arith)
        requires
            v.yield_to_maturity > 0,
    ;
    lemma_round_div_nonnegative(v.yield_to_maturity * SCALE, v.frequency);
    lemma_power_at_least_one(t.base, periods(v));
    let g = t.growth;
    let s = SCALE as int;
    assert(s * s >= 0) by (nonlinear_arith);
    lemma_round_div_nonnegative(s * s, g);
    lemma_round_div_error(s * s, g);
    assert(t.inverse <= s) by (nonlinear_arith)
        requires
            2 * (g * t.inverse) - g <= 2 * (s * s),
            g >= s,
            s > 0,
    ;
}

/// At a negative yield above minus the frequency the growth factor lies
/// between zero and one, and where it is not zero its inverse is at least
/// one.
pub proof fn lemma_growth_at_negative_yield(v: BondView)
    requires
        v.frequency > 0,
        -v.frequency < v.yield_to_maturity < 0,
        growth(v, v.yield_to_maturity, periods(v)) is Ok,
    ensures
        0 <= price_steps(v).base <= SCALE,
        fx_pow(price_steps(v).base, periods(v)) == Ok::<int, Fault>(price_steps(v).growth),
        0 <= price_steps(v).growth <= SCALE,
        price_steps(v).growth > 0 ==> price_steps(v).inverse >= SCALE,
{
    let t = price_steps(v);
    let s = SCALE as int;
    let f = v.frequency;
    let y = v.yield_to_maturity;
    assert((-s) * f <= y * s <= 0 * f) by (nonlinear_arith)
        requires
            -f < y < 0,
            s > 0,
    ;
    lemma_round_div_exact(-s, f);
    lemma_round_div_exact(0, f);
    lemma_round_div_monotonic((-s) * f, y * s, f);
    lemma_round_div_monotonic(y * s, 0 * f, f);
    lemma_power_at_most_one(t.base, periods(v));
    let g = t.growth;
    if g > 0 {
        lemma_round_div_error(s * s, g);
        assert(t.inverse >= s) by (nonlinear_arith)
            requires
                2 * (s * s) <= 2 * (g * t.inverse) + g,
                0 < g <= s,
        ;
    }
}

/// The algebra behind the price of a par bond: with every step within half
/// a unit of its exact value, the price is close to the face value.
proof fn lemma_par_algebra(
    s: int,
    y: int,
    face: int,
    g: int,
    pvp: int,
    ca: int,
    a: int,
    inv: int,
    pvc: int,
)
    requires
        s > 0,
        y > 0,
        face > 0,
        g >= s,
        0 <= inv <= s,
        2 * (g * pvp) - g <= 2 * (face * s) <= 2 * (g * pvp) + g,
        2 * (s * ca) - s <= 2 * (y * face) <= 2 * (s * ca) + s,
        2 * (y * a) - y <= 2 * (ca * s) <= 2 * (y * a) + y,
        2 * (g * inv) - g <= 2 * (s * s) <= 2 * (g * inv) + g,
        2 * (s * pvc) - s <= 2 * (a * (s - inv)) <= 2 * (s * pvc) + s,
    ensures
        magnitude(pvp + pvc - face) <= s / y + face / s + 2,
{
    let da = a - face;
    let d = magnitude(da);
    let x = pvp + pvc - face;
    // The annuity is the face value up to rounding.
    assert(2 * (y * d) <= s + y) by (nonlinear_arith)
        requires
            da == a - face,
            d == magnitude(da),
            2 * (s * ca) - s <= 2 * (y * face) <= 2 * (s * ca) + s,
            2 * (y * a) - y <= 2 * (ca * s) <= 2 * (y * a) + y,
    ;
    assert(d <= s / y) by (nonlinear_arith)
        requires
            2 * (y * d) <= s + y,
            y > 0,
            s > 0,
            d >= 0,
    ;
    // What the roundings of the remaining steps add up to.
    let e1 = 2 * (g * pvp) - 2 * (face * s);
    let e2 = 2 * (s * pvc) - 2 * (a * (s - inv));
    let e3 = 2 * (g * inv) - 2 * (s * s);
    let t1 = s * g * pvp;
    let t2 = s * s * face;
    let t3 = a * g * inv;
    let t4 = a * s * s;
    let t5 = s * g * pvc;
    let t6 = a * s * g;
    let t7 = s * g * face;
    assert(s * e1 == 2 * t1 - 2 * t2) by (nonlinear_arith)
        requires
            e1 == 2 * (g * pvp) - 2 * (face * s),
            t1 == s * g * pvp,
            t2 == s * s * face,
    ;
    assert(a * e3 == 2 * t3 - 2 * t4) by (nonlinear_arith)
        requires
            e3 == 2 * (g * inv) - 2 * (s * s),
            t3 == a * g * inv,
            t4 == a * s * s,
    ;
    assert(g * e2 == 2 * t5 - 2 * t6 + 2 * t3) by (nonlinear_arith)
        requires
            e2 == 2 * (s * pvc) - 2 * (a * (s - inv)),
            t5 == s * g * pvc,
            t6 == a * s * g,
            t3 == a * g * inv,
    ;
    let sg = s * g;
    let ss = s * s;
    assert(s * (g - s) == sg - ss) by (nonlinear_arith)
        requires
            sg == s * g,
            ss == s * s,
    ;
    assert((sg - ss) * da == sg * a - sg * face - ss * a + ss * face) by (nonlinear_arith)
        requires
            da == a - face,
    ;
    assert(sg * a == t6 && sg * face == t7 && ss * a == t4 && ss * face == t2)
        by (nonlinear_arith)
        requires
            sg == s * g,
            ss == s * s,
            t6 == a * s * g,
            t7 == s * g * face,
            t4 == a * s * s,
            t2 == s * s * face,
    ;
    assert(2 * (s * (g - s)) * da == 2 * ((sg - ss) * da)) by (nonlinear_arith)
        requires
            s * (g - s) == sg - ss,
    ;
    assert(2 * (s * g) * x == 2 * t1 + 2 * t5 - 2 * t7) by (nonlinear_arith)
        requires
            x == pvp + pvc - face,
            t1 == s * g * pvp,
            t5 == s * g * pvc,
            t7 == s * g * face,
    ;
    assert(2 * (s * g) * x == 2 * (s * (g - s)) * da + s * e1 - a * e3 + g * e2);
    assert(magnitude(2 * (s * (g - s)) * da) <= 2 * (s * g) * d) by (nonlinear_arith)
        requires
            d == magnitude(da),
            g >= s,
            s > 0,
    ;
    assert(magnitude(s * e1) <= s * g) by (nonlinear_arith)
        requires
            -g <= e1 <= g,
            s > 0,
    ;
    assert(magnitude(a * e3) <= (face + d) * g) by (nonlinear_arith)
        requires
            -g <= e3 <= g,
            da == a - face,
            d == magnitude(da),
            face > 0,
            g > 0,
    ;
    assert(magnitude(g * e2) <= g * s) by (nonlinear_arith)
        requires
            -s <= e2 <= s,
            g > 0,
    ;
    let m = magnitude(x);
    assert(2 * (s * g) * m <= 2 * (s * g) * d + 2 * (s * g) + (face + d) * g) by (nonlinear_arith)
        requires
            m == magnitude(x),
            2 * (s * g) * x == 2 * (s * (g - s)) * da + s * e1 - a * e3 + g * e2,
            magnitude(2 * (s * (g - s)) * da) <= 2 * (s * g) * d,
            magnitude(s * e1) <= s * g,
            magnitude(a * e3) <= (face + d) * g,
            magnitude(g * e2) <= g * s,
            s > 0,
            g > 0,
    ;
    assert(2 * s * m <= 2 * s * d + 2 * s + face + d) by (nonlinear_arith)
        requires
            2 * (s * g) * m <= 2 * (s * g) * d + 2 * (s * g) + (face + d) * g,
            g > 0,
    ;
    assert(m <= s / y + face / s + 2) by (nonlinear_arith)
        requires
            2 * s * m <= 2 * s * d + 2 * s + face + d,
            0 <= d <= s / y,
            2 * (y * d) <= s + y,
            y > 0,
            s > 0,
            face > 0,
    ;
}

/// A bond whose coupon rate equals its yield is priced at its face value,
/// up to the rounding of the steps: the price differs from the face value
/// by no more than `SCALE / coupon + face_value / SCALE + 2` billionths.
pub proof fn lemma_par_bond_priced_at_face_value(v: BondView, p: int)
    requires
        valid_terms(v),
        v.coupon == v.yield_to_maturity,
        v.yield_to_maturity > 0,
        price_of(v) == Ok::<int, Fault>(p),
    ensures
        magnitude(p - v.face_value) <= (SCALE as int) / v.coupon + v.face_value / (SCALE as int) + 2,
{
    let t = price_steps(v);
    let s = SCALE as int;
    lemma_price_steps(v, p);
    lemma_growth_at_positive_yield(v);
    lemma_round_div_error(v.face_value * s, t.growth);
    lemma_round_div_error(v.coupon * v.face_value, s);
    lemma_round_div_error(t.coupon_amount * s, v.yield_to_maturity);
    lemma_round_div_error(s * s, t.growth);
    lemma_round_div_error(t.annuity * (s - t.inverse), s);
    lemma_par_algebra(
        s,
        v.yield_to_maturity,
        v.face_value,
        t.growth,
        t.pv_principal,
        t.coupon_amount,
        t.annuity,
        t.inverse,
        t.pv_coupon,
    );
}

/// The yield solver is deterministic: the guess, the iteration count, the
/// tolerance, the guard and the terms of the bond fix its outcome, so two
/// outcomes that meet its contract on the same inputs are the same.
pub proof fn lemma_yield_solver_deterministic(
    v: BondView,
    x0: Fixed,
    iter: i32,
    tolerance: Fixed,
    epsilon: Fixed,
    first: Result<Fixed, BondError>,
    second: Result<Fixed, BondError>,
)
    requires
        shown(first) == newton(v, x0@, step_budget(iter as int), 0, tolerance@, epsilon@),
        shown(second) == newton(v, x0@, step_budget(iter as int), 0, tolerance@, epsilon@),
    ensures
        first == second,
{
}

/// The yield solver does not read the recorded yield: a bond that differs
/// from another in its yield to maturity alone has the same outcome, so a
/// second search on one bond repeats the first.
pub proof fn lemma_yield_solver_ignores_recorded_yield(
    v: BondView,
    recorded: int,
    x: int,
    budget: nat,
    taken: nat,
    tolerance: int,
    epsilon: int,
)
    ensures
        newton(BondView { yield_to_maturity: recorded, ..v }, x, budget, taken, tolerance, epsilon)
            == newton(v, x, budget, taken, tolerance, epsilon),
    decreases budget,
{
    let w = BondView { yield_to_maturity: recorded, ..v };
    assert(residual_slope(w, x) == residual_slope(v, x));
    assert(residual(w, x) == residual(v, x));
    if budget > 0 {
        match newton_next(v, x) {
            Ok(next) => {
                lemma_yield_solver_ignores_recorded_yield(
                    v,
                    recorded,
                    next,
                    (budget - 1) as nat,
                    taken + 1,
                    tolerance,
                    epsilon,
                );
            },
            Err(_) => {},
        }
    }
}

/// Whether `y` is the Newton iterate that follows `x`, no further from it
/// than `tolerance`, with a slope at `x` that is not too flat.
pub open spec fn converged_step(v: BondView, x: int, y: int, tolerance: int, epsilon: int) -> bool {
    &&& residual_slope(v, x) matches Ok(slope) && !too_flat(slope, epsilon)
    &&& newton_next(v, x) == Ok::<int, Fault>(y)
    &&& magnitude(y - x) <= tolerance
}

/// A yield that the solver returns is the last step of the search: the
/// Newton iterate that follows some iterate `x`, within the tolerance of it.
pub proof fn lemma_converged_yield_ends_a_step(
    v: BondView,
    x0: int,
    budget: nat,
    taken: nat,
    tolerance: int,
    epsilon: int,
    y: int,
)
    requires
        newton(v, x0, budget, taken, tolerance, epsilon) == Ok::<int, BondError>(y),
    ensures
        exists|x: int| converged_step(v, x, y, tolerance, epsilon),
    decreases budget,
{
    let next = newton_next(v, x0)->Ok_0;
    if magnitude(next - x0) <= tolerance {
        assert(converged_step(v, x0, y, tolerance, epsilon));
    } else {
        lemma_converged_yield_ends_a_step(
            v,
            next,
            (budget - 1) as nat,
            taken + 1,
            tolerance,
            epsilon,
            y,
        );
    }
}

/// Where the search converged, the pricing equation nearly holds: at the
/// iterate before the returned yield, the residual is at most the slope
/// times the tolerance and half a billionth.
pub proof fn lemma_converged_step_has_small_residual(
    v: BondView,
    x: int,
    y: int,
    tolerance: int,
    epsilon: int,
)
    requires
        converged_step(v, x, y, tolerance, epsilon),
    ensures
        residual(v, x) is Ok,
        residual_slope(v, x) is Ok,
        2 * (SCALE * magnitude(residual(v, x)->Ok_0)) <= magnitude(residual_slope(v, x)->Ok_0) * (2
            * tolerance + 1),
{
    let r = residual(v, x)->Ok_0;
    let d = residual_slope(v, x)->Ok_0;
    let q = fx_div(r, d);
    assert(y == x - q);
    lemma_round_div_magnitude(r * SCALE, d);
    let mq = magnitude(q);
    let md = magnitude(d);
    let mr = magnitude(r);
    assert(magnitude(r * SCALE) == SCALE * mr) by (nonlinear_arith)
        requires
            mr == magnitude(r),
            SCALE == 1_000_000_000,
    ;
    assert(2 * (md * mq) + md <= md * (2 * tolerance + 1)) by (nonlinear_arith)
        requires
            0 <= mq <= tolerance,
            md >= 0,
    ;
}

} // verus!
