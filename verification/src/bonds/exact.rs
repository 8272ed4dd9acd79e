//! The exact present value of a bond, as a fraction of integers, and what
//! holds of it.
//!
//! The formulas of the library round after every step. The fraction defined
//! here is what they would give without rounding: the present value of the
//! bond's cash flows, discounted period by period at the yield to maturity.

use crate::bonds::model::lemma_periods_positive;
use crate::bonds::model::periods;
use crate::bonds::model::valid_terms;
use crate::bonds::model::BondView;
use vstd::arithmetic::power::lemma_pow0;
use vstd::arithmetic::power::lemma_pow_positive;
use vstd::arithmetic::power::pow;
use vstd::prelude::*;

verus! {

/// The sum `a^(k-1) + a^(k-2) * b + ... + a * b^(k-2) + b^(k-1)`.
///
/// Divided by `a^k` it is the present value of `k` payments of `1 / b`, one
/// at the end of each period, at the growth factor `a / b` per period.
pub open spec fn annuity_sum(a: int, b: int, k: nat) -> int
    decreases k,
{
    if k == 0 {
        0
    } else {
        a * annuity_sum(a, b, (k - 1) as nat) + pow(b, (k - 1) as nat)
    }
}

/// Frequency plus yield: over the frequency, the growth factor per period.
pub open spec fn growth_numerator(v: BondView) -> int {
    v.frequency + v.yield_to_maturity
}

/// The numerator of the exact present value in billionths: with
/// `a = frequency + yield`, `b = frequency` and `n` periods,
/// `face * (b^n + coupon * annuity_sum(a, b, n))`.
pub open spec fn present_value_numerator(v: BondView) -> int {
    v.face_value * (pow(v.frequency, periods(v)) + v.coupon * annuity_sum(
        growth_numerator(v),
        v.frequency,
        periods(v),
    ))
}

/// The denominator of the exact present value: `(frequency + yield)^n`.
pub open spec fn present_value_denominator(v: BondView) -> int {
    pow(growth_numerator(v), periods(v))
}

/// The largest speed at which the exact present value moves with the
/// yield, times `2 * frequency^2`:
/// `face * n * (2 * frequency + coupon * (n + 1))`.
pub open spec fn value_speed(v: BondView) -> int {
    v.face_value * (periods(v) * (2 * v.frequency + v.coupon * (periods(v) + 1)))
}

/// The next power: `b^(k+1) = b * b^k`.
pub proof fn lemma_pow_next(b: int, k: nat)
    ensures
        pow(b, k + 1) == b * pow(b, k),
{
    reveal(pow);
}

/// Powers keep the order of positive bases, strictly from the first power
/// on.
pub proof fn lemma_pow_base_order(a1: int, a2: int, k: nat)
    requires
        0 < a1 <= a2,
    ensures
        0 < pow(a1, k) <= pow(a2, k),
        a1 < a2 && k >= 1 ==> pow(a1, k) < pow(a2, k),
    decreases k,
{
    lemma_pow_positive(a1, k);
    lemma_pow_positive(a2, k);
    if k == 0 {
        reveal(pow);
    } else {
        let j = (k - 1) as nat;
        lemma_pow_base_order(a1, a2, j);
        lemma_pow_next(a1, j);
        lemma_pow_next(a2, j);
        let x1 = pow(a1, j);
        let x2 = pow(a2, j);
        assert(a1 * x1 <= a2 * x2 && (a1 < a2 ==> a1 * x1 < a2 * x2)) by (nonlinear_arith)
            requires
                0 < a1 <= a2,
                0 < x1 <= x2,
        ;
    }
}

/// The closed form of the annuity sum: `(a - b) * annuity_sum(a, b, k)` is
/// `a^k - b^k`.
pub proof fn lemma_annuity_sum_closed_form(a: int, b: int, k: nat)
    ensures
        (a - b) * annuity_sum(a, b, k) == pow(a, k) - pow(b, k),
    decreases k,
{
    if k == 0 {
        reveal(pow);
    } else {
        let j = (k - 1) as nat;
        lemma_annuity_sum_closed_form(a, b, j);
        lemma_pow_next(a, j);
        lemma_pow_next(b, j);
        let g = annuity_sum(a, b, j);
        let aj = pow(a, j);
        let bj = pow(b, j);
        let y = a - b;
        assert(y * (a * g + bj) == a * (y * g) + y * bj) by (nonlinear_arith);
        assert(a * (aj - bj) + y * bj == a * aj - b * bj) by (nonlinear_arith)
            requires
                y == a - b,
        ;
    }
}

/// Discounted annuity sums fall as the growth factor rises: for
/// `a1 <= a2`, `annuity_sum(a1) / a1^k >= annuity_sum(a2) / a2^k`.
pub proof fn lemma_annuity_sum_order(a1: int, a2: int, b: int, k: nat)
    requires
        0 < a1 <= a2,
        b > 0,
    ensures
        annuity_sum(a1, b, k) * pow(a2, k) >= annuity_sum(a2, b, k) * pow(a1, k),
    decreases k,
{
    if k > 0 {
        let j = (k - 1) as nat;
        lemma_annuity_sum_order(a1, a2, b, j);
        lemma_pow_base_order(a1, a2, k);
        lemma_pow_next(a1, j);
        lemma_pow_next(a2, j);
        lemma_pow_positive(b, j);
        let g1 = annuity_sum(a1, b, j);
        let g2 = annuity_sum(a2, b, j);
        let x1 = pow(a1, j);
        let x2 = pow(a2, j);
        let z1 = pow(a1, k);
        let z2 = pow(a2, k);
        let bj = pow(b, j);
        let u = g1 * x2;
        let w = g2 * x1;
        let m = a1 * a2;
        assert((a1 * g1 + bj) * z2 == a1 * (g1 * z2) + bj * z2) by (nonlinear_arith);
        assert(g1 * z2 == a2 * u) by (nonlinear_arith)
            requires
                z2 == a2 * x2,
                u == g1 * x2,
        ;
        assert(a1 * (a2 * u) == m * u) by (nonlinear_arith)
            requires
                m == a1 * a2,
        ;
        assert((a2 * g2 + bj) * z1 == a2 * (g2 * z1) + bj * z1) by (nonlinear_arith);
        assert(g2 * z1 == a1 * w) by (nonlinear_arith)
            requires
                z1 == a1 * x1,
                w == g2 * x1,
        ;
        assert(a2 * (a1 * w) == m * w) by (nonlinear_arith)
            requires
                m == a1 * a2,
        ;
        assert(m * u >= m * w && bj * z2 >= bj * z1) by (nonlinear_arith)
            requires
                m == a1 * a2,
                0 < a1 <= a2,
                u >= w,
                bj > 0,
                z2 >= z1,
        ;
    }
}

/// The exact present value is the closed formula of pricing: for a yield
/// `y` other than zero, with `g = (1 + y / frequency)^n`,
/// `face / g + (coupon * face / y) * (1 - 1 / g)`. Multiplied through by
/// `y * (frequency + yield)^n`:
pub proof fn lemma_present_value_closed_form(v: BondView)
    ensures
        present_value_numerator(v) * v.yield_to_maturity == v.face_value * (v.yield_to_maturity
            * pow(v.frequency, periods(v)) + v.coupon * (pow(growth_numerator(v), periods(v))
            - pow(v.frequency, periods(v)))),
{
    let a = growth_numerator(v);
    let b = v.frequency;
    let n = periods(v);
    let y = v.yield_to_maturity;
    let g = annuity_sum(a, b, n);
    let an = pow(a, n);
    let bn = pow(b, n);
    lemma_annuity_sum_closed_form(a, b, n);
    assert(y * g == an - bn);
    let c = v.coupon;
    let face = v.face_value;
    assert((bn + c * g) * y == y * bn + c * (y * g)) by (nonlinear_arith);
    assert((face * (bn + c * g)) * y == face * ((bn + c * g) * y)) by (nonlinear_arith);
}

/// At par the exact present value is the face value: a bond whose coupon
/// rate equals its yield, not zero, is worth what it redeems at.
pub proof fn lemma_present_value_at_par(v: BondView)
    requires
        v.coupon == v.yield_to_maturity,
        v.yield_to_maturity != 0,
    ensures
        present_value_numerator(v) == v.face_value * present_value_denominator(v),
{
    lemma_present_value_closed_form(v);
    let y = v.yield_to_maturity;
    let an = pow(growth_numerator(v), periods(v));
    let bn = pow(v.frequency, periods(v));
    let face = v.face_value;
    let num = present_value_numerator(v);
    assert(y * bn + y * (an - bn) == y * an) by (nonlinear_arith);
    assert(face * (y * an) == (face * an) * y) by (nonlinear_arith);
    assert(num == face * an) by (nonlinear_arith)
        requires
            num * y == (face * an) * y,
            y != 0,
    ;
}

/// The exact present value is strictly decreasing in the yield to maturity,
/// over all yields above minus the frequency: of two bonds with the same
/// face value, coupon, frequency and maturity, the one with the higher yield
/// has the lower present value.
pub proof fn lemma_present_value_decreases_in_yield(v1: BondView, v2: BondView)
    requires
        valid_terms(v1),
        v2.face_value == v1.face_value,
        v2.coupon == v1.coupon,
        v2.frequency == v1.frequency,
        v2.maturity == v1.maturity,
        -v1.frequency < v1.yield_to_maturity < v2.yield_to_maturity,
    ensures
        present_value_denominator(v1) > 0,
        present_value_denominator(v2) > 0,
        present_value_numerator(v1) * present_value_denominator(v2) > present_value_numerator(v2)
            * present_value_denominator(v1),
{
    let a1 = growth_numerator(v1);
    let a2 = growth_numerator(v2);
    let b = v1.frequency;
    let n = periods(v1);
    let c = v1.coupon;
    let face = v1.face_value;
    lemma_periods_positive(v1);
    lemma_pow_base_order(a1, a2, n);
    lemma_pow_positive(b, n);
    lemma_annuity_sum_order(a1, a2, b, n);
    let z1 = pow(a1, n);
    let z2 = pow(a2, n);
    let bn = pow(b, n);
    let g1 = annuity_sum(a1, b, n);
    let g2 = annuity_sum(a2, b, n);
    let u = g1 * z2;
    let w = g2 * z1;
    let x1 = bn + c * g1;
    let x2 = bn + c * g2;
    assert(x1 * z2 == bn * z2 + c * u) by (nonlinear_arith)
        requires
            x1 == bn + c * g1,
            u == g1 * z2,
    ;
    assert(x2 * z1 == bn * z1 + c * w) by (nonlinear_arith)
        requires
            x2 == bn + c * g2,
            w == g2 * z1,
    ;
    assert(bn * z2 > bn * z1 && c * u >= c * w) by (nonlinear_arith)
        requires
            bn > 0,
            z2 > z1,
            c >= 0,
            u >= w,
    ;
    let l = x1 * z2;
    let r = x2 * z1;
    assert(face * l > face * r) by (nonlinear_arith)
        requires
            face > 0,
            l > r,
    ;
    assert((face * x1) * z2 == face * l && (face * x2) * z1 == face * r) by (nonlinear_arith)
        requires
            l == x1 * z2,
            r == x2 * z1,
    ;
}

/// Powers of nearby bases are near: for `0 < a1 <= a2`,
/// `a2^(k+1) - a1^(k+1) <= (k + 1) * (a2 - a1) * a2^k`.
pub proof fn lemma_pow_difference(a1: int, a2: int, k: nat)
    requires
        0 < a1 <= a2,
    ensures
        0 <= pow(a2, k + 1) - pow(a1, k + 1) <= (k + 1) * ((a2 - a1) * pow(a2, k)),
    decreases k,
{
    let delta = a2 - a1;
    lemma_pow_next(a1, k);
    lemma_pow_next(a2, k);
    lemma_pow_base_order(a1, a2, k);
    lemma_pow_base_order(a1, a2, k + 1);
    let x1 = pow(a1, k);
    let x2 = pow(a2, k);
    let dx = delta * x2;
    let next = a2 * x2 - a1 * x1;
    assert(next == pow(a2, k + 1) - pow(a1, k + 1));
    assert(0 <= next);
    if k == 0 {
        lemma_pow0(a1);
        lemma_pow0(a2);
        assert(x1 == 1 && x2 == 1);
        assert(next == delta) by (nonlinear_arith)
            requires
                next == a2 * x2 - a1 * x1,
                x1 == 1,
                x2 == 1,
                delta == a2 - a1,
        ;
        assert((k + 1) * dx == delta) by (nonlinear_arith)
            requires
                k == 0,
                dx == delta * x2,
                x2 == 1,
        ;
    } else {
        let j = (k - 1) as nat;
        lemma_pow_difference(a1, a2, j);
        lemma_pow_next(a2, j);
        let w2 = pow(a2, j);
        let d = x2 - x1;
        let dw = delta * w2;
        assert(0 <= d <= k * dw);
        // a2^(k+1) - a1^(k+1) = a2 * (a2^k - a1^k) + (a2 - a1) * a1^k
        assert(next == a2 * d + delta * x1) by (nonlinear_arith)
            requires
                next == a2 * x2 - a1 * x1,
                d == x2 - x1,
                delta == a2 - a1,
        ;
        assert(a2 * d <= k * dx) by (nonlinear_arith)
            requires
                0 <= d <= k * dw,
                dw == delta * w2,
                dx == delta * x2,
                x2 == a2 * w2,
                a2 > 0,
        ;
        assert(delta * x1 <= dx) by (nonlinear_arith)
            requires
                dx == delta * x2,
                delta >= 0,
                x1 <= x2,
        ;
        assert((k + 1) * dx == k * dx + dx) by (nonlinear_arith);
        assert(next <= (k + 1) * dx);
    }
}

/// Discounted annuity sums of nearby growth factors are near: for
/// `0 < b <= a1 <= a2`, with `d` the difference
/// `annuity_sum(a1) * a2^k - annuity_sum(a2) * a1^k`,
/// `2 * a1 * a2 * d <= k * (k + 1) * (a2 - a1) * a1^k * a2^k`.
pub proof fn lemma_annuity_sum_difference(a1: int, a2: int, b: int, k: nat)
    requires
        0 < b <= a1 <= a2,
    ensures
        0 <= 2 * ((a1 * a2) * (annuity_sum(a1, b, k) * pow(a2, k) - annuity_sum(a2, b, k) * pow(
            a1,
            k,
        ))) <= k * (k + 1) * ((a2 - a1) * (pow(a1, k) * pow(a2, k))),
    decreases k,
{
    let delta = a2 - a1;
    let aa = a1 * a2;
    assert(aa > 0) by (nonlinear_arith)
        requires
            aa == a1 * a2,
            0 < a1 <= a2,
    ;
    lemma_annuity_sum_order(a1, a2, b, k);
    let dk = annuity_sum(a1, b, k) * pow(a2, k) - annuity_sum(a2, b, k) * pow(a1, k);
    assert(aa * dk >= 0) by (nonlinear_arith)
        requires
            aa > 0,
            dk >= 0,
    ;
    let mk = pow(a1, k) * pow(a2, k);
    let dmk = delta * mk;
    if k == 0 {
        assert(aa * dk == 0) by (nonlinear_arith)
            requires
                dk == 0,
        ;
        assert(k * (k + 1) * dmk == 0) by (nonlinear_arith)
            requires
                k == 0,
        ;
    } else {
        let j = (k - 1) as nat;
        lemma_annuity_sum_difference(a1, a2, b, j);
        lemma_pow_difference(a1, a2, j);
        lemma_pow_base_order(a1, a2, j);
        lemma_pow_base_order(b, a1, j);
        lemma_pow_next(a1, j);
        lemma_pow_next(a2, j);
        let g1 = annuity_sum(a1, b, j);
        let g2 = annuity_sum(a2, b, j);
        let x1 = pow(a1, j);
        let x2 = pow(a2, j);
        let z1 = pow(a1, k);
        let z2 = pow(a2, k);
        let bj = pow(b, j);
        let u = g1 * x2;
        let w = g2 * x1;
        let dj = u - w;
        let mj = x1 * x2;
        let x = z2 - z1;
        // The difference after one more period.
        assert((a1 * g1 + bj) * z2 == a1 * (g1 * z2) + bj * z2) by (nonlinear_arith);
        assert(g1 * z2 == a2 * u) by (nonlinear_arith)
            requires
                z2 == a2 * x2,
                u == g1 * x2,
        ;
        assert(a1 * (a2 * u) == aa * u) by (nonlinear_arith)
            requires
                aa == a1 * a2,
        ;
        assert((a2 * g2 + bj) * z1 == a2 * (g2 * z1) + bj * z1) by (nonlinear_arith);
        assert(g2 * z1 == a1 * w) by (nonlinear_arith)
            requires
                z1 == a1 * x1,
                w == g2 * x1,
        ;
        assert(a2 * (a1 * w) == aa * w) by (nonlinear_arith)
            requires
                aa == a1 * a2,
        ;
        assert(aa * u - aa * w == aa * dj) by (nonlinear_arith)
            requires
                dj == u - w,
        ;
        assert(bj * z2 - bj * z1 == bj * x) by (nonlinear_arith)
            requires
                x == z2 - z1,
        ;
        assert(dk == aa * dj + bj * x);
        // Its two parts, bounded.
        assert(mk == aa * mj) by (nonlinear_arith)
            requires
                mk == z1 * z2,
                z1 == a1 * x1,
                z2 == a2 * x2,
                aa == a1 * a2,
                mj == x1 * x2,
        ;
        let dm = delta * mj;
        assert(bj * x <= k * dm) by (nonlinear_arith)
            requires
                0 <= x <= k * (delta * x2),
                0 < bj <= x1,
                dm == delta * (x1 * x2),
                delta >= 0,
                x2 > 0,
                k >= 1,
        ;
        let t = 2 * (aa * dj);
        assert(0 <= t <= j * (j + 1) * dm);
        assert(2 * (aa * dk) == aa * t + 2 * (aa * (bj * x))) by (nonlinear_arith)
            requires
                dk == aa * dj + bj * x,
                t == 2 * (aa * dj),
        ;
        let jj = j * (j + 1);
        assert(aa * t <= jj * (aa * dm)) by (nonlinear_arith)
            requires
                0 <= t <= jj * dm,
                aa > 0,
        ;
        assert(aa * (bj * x) <= k * (aa * dm)) by (nonlinear_arith)
            requires
                bj * x <= k * dm,
                aa > 0,
        ;
        assert(aa * dm == delta * mk) by (nonlinear_arith)
            requires
                dm == delta * mj,
                mk == aa * mj,
        ;
        assert(jj * dmk + 2 * (k * dmk) == k * (k + 1) * dmk) by (nonlinear_arith)
            requires
                jj == j * (j + 1),
                j == k - 1,
        ;
        assert(2 * (aa * dk) <= jj * dmk + 2 * (k * dmk));
    }
}

/// The exact present value moves with the yield no faster than by
/// `face * n * (2 * frequency + coupon * (n + 1)) / (2 * frequency^2)` per
/// unit of yield, over all yields that are not negative.
pub proof fn lemma_present_value_lipschitz(v1: BondView, v2: BondView)
    requires
        valid_terms(v1),
        v2.face_value == v1.face_value,
        v2.coupon == v1.coupon,
        v2.frequency == v1.frequency,
        v2.maturity == v1.maturity,
        0 <= v1.yield_to_maturity <= v2.yield_to_maturity,
    ensures
        present_value_denominator(v1) > 0,
        present_value_denominator(v2) > 0,
        0 <= present_value_numerator(v1) * present_value_denominator(v2) - present_value_numerator(
            v2,
        ) * present_value_denominator(v1),
        2 * (v1.frequency * v1.frequency) * (present_value_numerator(v1) * present_value_denominator(
            v2,
        ) - present_value_numerator(v2) * present_value_denominator(v1)) <= value_speed(v1) * ((
        v2.yield_to_maturity - v1.yield_to_maturity) * (present_value_denominator(v1)
            * present_value_denominator(v2))),
{
    let a1 = growth_numerator(v1);
    let a2 = growth_numerator(v2);
    let b = v1.frequency;
    let n = periods(v1);
    let c = v1.coupon;
    let face = v1.face_value;
    let delta = a2 - a1;
    lemma_periods_positive(v1);
    lemma_pow_base_order(a1, a2, n);
    lemma_pow_base_order(b, a1, n);
    lemma_annuity_sum_order(a1, a2, b, n);
    lemma_annuity_sum_difference(a1, a2, b, n);
    let j = (n - 1) as nat;
    lemma_pow_difference(a1, a2, j);
    lemma_pow_next(a2, j);
    lemma_pow_base_order(a1, a2, j);
    let z1 = pow(a1, n);
    let z2 = pow(a2, n);
    let w2 = pow(a2, j);
    let bn = pow(b, n);
    let g1 = annuity_sum(a1, b, n);
    let g2 = annuity_sum(a2, b, n);
    let u = g1 * z2;
    let w = g2 * z1;
    let dn = u - w;
    let x = z2 - z1;
    let m = z1 * z2;
    let dm = delta * m;
    let x1 = bn + c * g1;
    let x2 = bn + c * g2;
    let l = x1 * z2;
    let r = x2 * z1;
    assert(l == bn * z2 + c * u) by (nonlinear_arith)
        requires
            l == (bn + c * g1) * z2,
            u == g1 * z2,
    ;
    assert(r == bn * z1 + c * w) by (nonlinear_arith)
        requires
            r == (bn + c * g2) * z1,
            w == g2 * z1,
    ;
    assert(bn * z2 - bn * z1 == bn * x && c * u - c * w == c * dn) by (nonlinear_arith)
        requires
            x == z2 - z1,
            dn == u - w,
    ;
    assert(l - r == bn * x + c * dn);
    // The face value: b * b^n * (a2^n - a1^n) <= n * (a2 - a1) * a1^n * a2^n.
    assert(b * (bn * x) <= n * dm) by (nonlinear_arith)
        requires
            0 <= x <= n * (delta * w2),
            z2 == a2 * w2,
            0 < b <= a2,
            0 < bn <= z1,
            dm == delta * (z1 * z2),
            delta >= 0,
            w2 > 0,
            n >= 1,
    ;
    // The coupons: 2 * b^2 * d <= n * (n + 1) * (a2 - a1) * a1^n * a2^n.
    let aa = a1 * a2;
    let bb = b * b;
    let nn = n * (n + 1);
    assert(bb * dn <= aa * dn) by (nonlinear_arith)
        requires
            bb == b * b,
            aa == a1 * a2,
            0 < b <= a1 <= a2,
            dn >= 0,
    ;
    assert(0 <= c * dn && 0 <= bn * x) by (nonlinear_arith)
        requires
            c >= 0,
            dn >= 0,
            bn > 0,
            x >= 0,
    ;
    let d = l - r;
    assert(2 * (bb * d) == 2 * (b * (b * (bn * x))) + c * (2 * (bb * dn))) by (nonlinear_arith)
        requires
            d == bn * x + c * dn,
            bb == b * b,
    ;
    assert(b * (b * (bn * x)) <= b * (n * dm)) by (nonlinear_arith)
        requires
            b * (bn * x) <= n * dm,
            b > 0,
    ;
    assert(c * (2 * (bb * dn)) <= c * (nn * dm)) by (nonlinear_arith)
        requires
            2 * (bb * dn) <= nn * dm,
            c >= 0,
    ;
    let speed = n * (2 * b + c * (n + 1));
    assert(2 * (b * (n * dm)) + c * (nn * dm) == speed * dm) by (nonlinear_arith)
        requires
            speed == n * (2 * b + c * (n + 1)),
            nn == n * (n + 1),
    ;
    assert(2 * (bb * d) <= speed * dm);
    // Times the face value.
    let fd = face * d;
    assert((face * x1) * z2 == face * l && (face * x2) * z1 == face * r) by (nonlinear_arith)
        requires
            l == x1 * z2,
            r == x2 * z1,
    ;
    assert(face * l - face * r == fd && fd >= 0) by (nonlinear_arith)
        requires
            fd == face * d,
            d == l - r,
            face > 0,
            d >= 0,
    ;
    assert(2 * bb * fd == face * (2 * (bb * d))) by (nonlinear_arith)
        requires
            fd == face * d,
    ;
    assert(face * (2 * (bb * d)) <= face * (speed * dm)) by (nonlinear_arith)
        requires
            2 * (bb * d) <= speed * dm,
            face > 0,
    ;
    assert(face * (speed * dm) == (face * speed) * dm) by (nonlinear_arith);
}

} // verus!
