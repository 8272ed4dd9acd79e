//! How far the rounded price can be from the exact present value.

use crate::bonds::exact::annuity_sum;
use crate::bonds::exact::growth_numerator;
use crate::bonds::exact::lemma_annuity_sum_closed_form;
use crate::bonds::exact::lemma_pow_base_order;
use crate::bonds::exact::lemma_pow_next;
use crate::bonds::exact::lemma_present_value_decreases_in_yield;
use crate::bonds::exact::lemma_present_value_lipschitz;
use crate::bonds::exact::value_speed;
use crate::bonds::laws::converged_step;
use crate::bonds::laws::lemma_converged_step_has_small_residual;
use crate::bonds::exact::present_value_denominator;
use crate::bonds::exact::present_value_numerator;
use crate::bonds::laws::lemma_growth_at_negative_yield;
use crate::bonds::laws::lemma_growth_at_positive_yield;
use crate::bonds::laws::lemma_price_steps;
use crate::bonds::laws::price_steps;
use crate::bonds::model::current_yield_of;
use crate::bonds::model::growth;
use crate::bonds::model::periods;
use crate::bonds::model::price_of;
use crate::bonds::model::residual;
use crate::bonds::model::residual_slope;
use crate::bonds::model::valid_terms;
use crate::bonds::model::BondView;
use crate::fixed::Fault;
use crate::fixed::fx_pow;
use crate::fixed::lemma_power_prefix;
use crate::fixed::fx_div;
use crate::fixed::fx_mul;
use crate::fixed::lemma_round_div_error;
use crate::fixed::lemma_round_div_error_signed;
use crate::fixed::lemma_round_div_exact;
use crate::fixed::magnitude;
use crate::fixed::SCALE;
use vstd::arithmetic::power::lemma_pow0;
use vstd::arithmetic::power::pow;
use vstd::prelude::*;

verus! {

/// One more rounded multiplication adds at most two units of error: if
/// `pk * bk` is within `2k * cap` of `s * ak`, where `cap` is the larger of
/// `ak` and `bk`, and `beta` is within half a unit of `s * a / b`, then for
/// the rounded product `pk1` of `pk` and `beta`, `pk1 * b * bk` is within
/// `2(k+1) * m * cap` of `s * a * ak`, where `m` is the larger of `a` and
/// `b`.
proof fn lemma_power_error_step(
    s: int,
    a: int,
    b: int,
    m: int,
    ak: int,
    bk: int,
    cap: int,
    pk: int,
    pk1: int,
    beta: int,
    k: int,
)
    requires
        s > 0,
        0 < a <= m,
        0 < b <= m,
        0 < ak <= cap,
        0 < bk <= cap,
        0 <= k < s,
        -b <= 2 * (b * beta) - 2 * (s * a) <= b,
        -s <= 2 * (s * pk1) - 2 * (pk * beta) <= s,
        -(2 * k * cap) <= pk * bk - s * ak <= 2 * k * cap,
    ensures
        -(2 * (k + 1) * (m * cap)) <= pk1 * (b * bk) - s * (a * ak) <= 2 * (k + 1) * (m * cap),
{
    let p = pk * bk;
    let q = b * bk;
    let t = a * ak;
    let tc = m * cap;
    let e = 2 * (b * beta) - 2 * (s * a);
    let d = 2 * (s * pk1) - 2 * (pk * beta);
    let err = p - s * ak;
    let err1 = pk1 * q - s * t;
    let x1 = s * (pk1 * q);
    let x2 = s * (s * t);
    let sa = s * a;
    let bb = b * beta;
    let pb = pk * beta;
    assert(s * err1 == x1 - x2) by (nonlinear_arith)
        requires
            err1 == pk1 * q - s * t,
            x1 == s * (pk1 * q),
            x2 == s * (s * t),
    ;
    assert(sa * (s * ak) == x2) by (nonlinear_arith)
        requires
            sa == s * a,
            t == a * ak,
            x2 == s * (s * t),
    ;
    assert(sa * err == sa * p - sa * (s * ak)) by (nonlinear_arith)
        requires
            err == p - s * ak,
    ;
    assert(e * p == 2 * (bb * p) - 2 * (sa * p)) by (nonlinear_arith)
        requires
            e == 2 * bb - 2 * sa,
    ;
    assert((s * pk1) * q == x1) by (nonlinear_arith)
        requires
            x1 == s * (pk1 * q),
    ;
    assert(d * q == 2 * ((s * pk1) * q) - 2 * (pb * q)) by (nonlinear_arith)
        requires
            d == 2 * (s * pk1) - 2 * pb,
    ;
    assert(bb * p == pb * q) by (nonlinear_arith)
        requires
            bb == b * beta,
            pb == pk * beta,
            p == pk * bk,
            q == b * bk,
    ;
    assert(4 * (s * err1) == 4 * (sa * err) + 2 * (e * p) + 2 * (d * q));
    // The three terms, bounded.
    let kc = k * cap;
    let kt = k * tc;
    assert(a * kc <= kt && kc >= 0) by (nonlinear_arith)
        requires
            kc == k * cap,
            kt == k * (m * cap),
            0 < a <= m,
            cap > 0,
            k >= 0,
    ;
    assert(-(2 * kc) <= err <= 2 * kc) by (nonlinear_arith)
        requires
            -(2 * k * cap) <= err <= 2 * k * cap,
            kc == k * cap,
    ;
    assert(-(2 * (a * kc)) <= a * err <= 2 * (a * kc)) by (nonlinear_arith)
        requires
            -(2 * kc) <= err <= 2 * kc,
            a > 0,
    ;
    assert(sa * err == s * (a * err)) by (nonlinear_arith)
        requires
            sa == s * a,
    ;
    assert(-(2 * (s * kt)) <= s * (a * err) <= 2 * (s * kt)) by (nonlinear_arith)
        requires
            -(2 * kt) <= a * err <= 2 * kt,
            s > 0,
    ;
    assert(b * ak <= tc && b * cap <= tc && 0 < q <= tc) by (nonlinear_arith)
        requires
            0 < b <= m,
            0 < ak <= cap,
            0 < bk <= cap,
            tc == m * cap,
            q == b * bk,
    ;
    assert(-(b * (s * ak + 2 * kc)) <= e * p <= b * (s * ak + 2 * kc)) by (nonlinear_arith)
        requires
            -b <= e <= b,
            -(2 * kc) <= p - s * ak <= 2 * kc,
            b > 0,
            ak > 0,
            s > 0,
            kc >= 0,
    ;
    assert(b * (s * ak + 2 * kc) <= s * tc + 2 * kt) by (nonlinear_arith)
        requires
            b * ak <= tc,
            b * cap <= tc,
            kc == k * cap,
            kt == k * tc,
            s > 0,
            k >= 0,
            b > 0,
            cap > 0,
    ;
    assert(-(s * tc) <= d * q <= s * tc) by (nonlinear_arith)
        requires
            -s <= d <= s,
            0 < q <= tc,
    ;
    assert(kt <= s * tc && kt >= 0 && tc > 0) by (nonlinear_arith)
        requires
            kt == k * tc,
            0 <= k < s,
            tc == m * cap,
            m > 0,
            cap > 0,
    ;
    let bound = 2 * ((k + 1) * tc);
    assert(s * bound == 2 * (s * kt) + 2 * (s * tc)) by (nonlinear_arith)
        requires
            bound == 2 * ((k + 1) * tc),
            kt == k * tc,
    ;
    assert(-(4 * (s * bound)) <= 4 * (s * err1) <= 4 * (s * bound));
    assert(-bound <= err1 <= bound) by (nonlinear_arith)
        requires
            -(4 * (s * bound)) <= 4 * (s * err1) <= 4 * (s * bound),
            s > 0,
    ;
    assert(2 * (k + 1) * (m * cap) == bound) by (nonlinear_arith)
        requires
            bound == 2 * ((k + 1) * tc),
            tc == m * cap,
    ;
}

/// The rounded power of a rounded growth factor is close to the exact
/// power: if `beta` is within half a unit of `SCALE * a / b` with
/// `0 < b <= a`, then for `k <= SCALE` the `k`-th rounded power of `beta` is
/// within `2k * a^k / b^k` units of `SCALE * a^k / b^k`.
pub proof fn lemma_power_error(beta: int, a: int, b: int, k: nat)
    requires
        0 < b <= a,
        -b <= 2 * (b * beta) - 2 * (SCALE * a) <= b,
        fx_pow(beta, k) is Ok,
        k <= SCALE,
    ensures
        -(2 * k * pow(a, k)) <= fx_pow(beta, k)->Ok_0 * pow(b, k) - SCALE * pow(a, k) <= 2 * k
            * pow(a, k),
    decreases k,
{
    if k == 0 {
        lemma_pow0(a);
        lemma_pow0(b);
    } else {
        let j = (k - 1) as nat;
        lemma_power_prefix(beta, j, k);
        lemma_power_error(beta, a, b, j);
        lemma_pow_base_order(b, a, j);
        lemma_pow_next(a, j);
        lemma_pow_next(b, j);
        let pj = fx_pow(beta, j)->Ok_0;
        let pk = fx_pow(beta, k)->Ok_0;
        lemma_round_div_error(pj * beta, SCALE as int);
        lemma_power_error_step(
            SCALE as int,
            a,
            b,
            a,
            pow(a, j),
            pow(b, j),
            pow(a, j),
            pj,
            pk,
            beta,
            j as int,
        );
    }
}

/// The rounded power of a rounded shrinking factor is close to the exact
/// power: if `beta` is within half a unit of `SCALE * a / b` with
/// `0 < a <= b`, then for `k <= SCALE` the `k`-th rounded power of `beta` is
/// within `2k` units of `SCALE * a^k / b^k`.
pub proof fn lemma_power_error_shrinking(beta: int, a: int, b: int, k: nat)
    requires
        0 < a <= b,
        -b <= 2 * (b * beta) - 2 * (SCALE * a) <= b,
        fx_pow(beta, k) is Ok,
        k <= SCALE,
    ensures
        -(2 * k * pow(b, k)) <= fx_pow(beta, k)->Ok_0 * pow(b, k) - SCALE * pow(a, k) <= 2 * k
            * pow(b, k),
    decreases k,
{
    if k == 0 {
        lemma_pow0(a);
        lemma_pow0(b);
    } else {
        let j = (k - 1) as nat;
        lemma_power_prefix(beta, j, k);
        lemma_power_error_shrinking(beta, a, b, j);
        lemma_pow_base_order(a, b, j);
        lemma_pow_next(a, j);
        lemma_pow_next(b, j);
        let pj = fx_pow(beta, j)->Ok_0;
        let pk = fx_pow(beta, k)->Ok_0;
        lemma_round_div_error(pj * beta, SCALE as int);
        lemma_power_error_step(
            SCALE as int,
            a,
            b,
            b,
            pow(a, j),
            pow(b, j),
            pow(b, j),
            pj,
            pk,
            beta,
            j as int,
        );
    }
}

/// The error of dividing by a rounded growth factor. With `g` within
/// `2n * an / bn` of `s * an / bn`, the rounded quotient `q` of `x` by `g`
/// is within `(s + 2n + 4nx) / 2s` of `x * bn / an`.
proof fn lemma_discounting_error(s: int, g: int, x: int, q: int, an: int, bn: int, n: int)
    requires
        s > 0,
        g >= s,
        x >= 0,
        an > 0,
        0 < bn <= an,
        n >= 0,
        -(2 * n * an) <= g * bn - s * an <= 2 * n * an,
        -g <= 2 * (g * q) - 2 * (x * s) <= g,
    ensures
        0 <= q <= x,
        -(an * (s + 2 * n + 4 * (n * x))) <= 2 * (s * (q * an - x * bn)) <= an * (s + 2 * n + 4 * (
            n * x)),
{
    assert(q <= x) by (nonlinear_arith)
        requires
            2 * (g * q) - 2 * (x * s) <= g,
            g >= s,
            s > 0,
            x >= 0,
    ;
    assert(q >= 0) by (nonlinear_arith)
        requires
            -g <= 2 * (g * q) - 2 * (x * s),
            g > 0,
            s > 0,
            x >= 0,
    ;
    let e1 = 2 * (g * q) - 2 * (x * s);
    let err = g * bn - s * an;
    let qa = q * an;
    let xb = x * bn;
    let gb = g * bn;
    let sa = s * an;
    assert(e1 * bn == 2 * (q * gb) - 2 * (s * xb)) by (nonlinear_arith)
        requires
            e1 == 2 * (g * q) - 2 * (x * s),
            gb == g * bn,
            xb == x * bn,
    ;
    assert(q * err == q * gb - s * qa) by (nonlinear_arith)
        requires
            err == gb - s * an,
            qa == q * an,
    ;
    assert(s * (qa - xb) == s * qa - s * xb) by (nonlinear_arith);
    assert(2 * (s * (qa - xb)) == e1 * bn - 2 * (q * err));
    let nx = n * x;
    let na = n * an;
    assert(-(sa + 2 * na) <= e1 * bn <= sa + 2 * na) by (nonlinear_arith)
        requires
            -g <= e1 <= g,
            bn > 0,
            gb == g * bn,
            sa == s * an,
            na == n * an,
            -(2 * n * an) <= gb - s * an <= 2 * n * an,
    ;
    assert(-(2 * (nx * an)) <= q * err <= 2 * (nx * an)) by (nonlinear_arith)
        requires
            0 <= q <= x,
            -(2 * n * an) <= err <= 2 * n * an,
            nx == n * x,
            n >= 0,
            an > 0,
    ;
    assert(an * (s + 2 * n + 4 * nx) == sa + 2 * na + 4 * (nx * an)) by (nonlinear_arith)
        requires
            sa == s * an,
            na == n * an,
    ;
}

/// The error of the present value of the coupons, from the errors of its
/// steps.
proof fn lemma_coupon_error(
    s: int,
    y: int,
    c: int,
    face: int,
    ca: int,
    ann: int,
    inv: int,
    pvc: int,
    an: int,
    bn: int,
    gsum: int,
    k1: int,
)
    requires
        s > 0,
        y > 0,
        c >= 0,
        face > 0,
        an > 0,
        0 < bn <= an,
        k1 >= 0,
        y * gsum == an - bn,
        -s <= 2 * (s * ca) - 2 * (c * face) <= s,
        -y <= 2 * (y * ann) - 2 * (ca * s) <= y,
        -s <= 2 * (s * pvc) - 2 * (ann * (s - inv)) <= s,
        -(an * k1) <= 2 * (s * (inv * an - s * bn)) <= an * k1,
    ensures
        ({
            let bound = (2 * (c * face) + s + y) * (an * k1) + 2 * ((s + y) * (s * (s * an))) + 2
                * ((s * y) * (s * an));
            let target = 4 * ((s * s * y) * (pvc * an - (c * face) * gsum));
            -bound <= target <= bound
        }),
{
    let cf = c * face;
    let e45 = 2 * (y * ann) - 2 * cf;
    let e2 = 2 * (s * pvc) - 2 * (ann * (s - inv));
    let j = 2 * (s * (inv * an - s * bn));
    let jb = an * k1;
    let w = s - inv;
    let wa = w * an;
    let ia = inv * an;
    let ssa = s * (s * an);
    let ssb = s * (s * bn);
    let z = ssa - ssb;
    let sy = s * y;
    let ssy = s * s * y;
    let pa = pvc * an;
    let u = 2 * (y * ann);
    let vv = 2 * (s * wa);
    assert(-(s + y) <= e45 <= s + y) by (nonlinear_arith)
        requires
            e45 == 2 * (y * ann) - 2 * cf,
            cf == c * face,
            -s <= 2 * (s * ca) - 2 * (c * face) <= s,
            -y <= 2 * (y * ann) - 2 * (ca * s) <= y,
    ;
    // The weight one minus the inverse, times a^n.
    assert(wa == s * an - ia) by (nonlinear_arith)
        requires
            wa == (s - inv) * an,
            ia == inv * an,
    ;
    assert(j == 2 * (s * ia) - 2 * ssb) by (nonlinear_arith)
        requires
            j == 2 * (s * (ia - s * bn)),
            ssb == s * (s * bn),
    ;
    assert(s * wa == ssa - s * ia) by (nonlinear_arith)
        requires
            wa == s * an - ia,
            ssa == s * (s * an),
    ;
    assert(vv == 2 * z - j);
    // The rounded present value of the coupons, times a^n.
    assert((s * pvc) * an == s * pa && (ann * w) * an == ann * wa) by (nonlinear_arith)
        requires
            pa == pvc * an,
            wa == w * an,
    ;
    assert(e2 * an == 2 * (s * pa) - 2 * (ann * wa)) by (nonlinear_arith)
        requires
            e2 == 2 * (s * pvc) - 2 * (ann * w),
            (s * pvc) * an == s * pa,
            (ann * w) * an == ann * wa,
    ;
    let e2a = e2 * an;
    assert(sy * (2 * (s * pa)) == 2 * (ssy * pa)) by (nonlinear_arith)
        requires
            sy == s * y,
            ssy == s * s * y,
    ;
    assert(sy * (2 * (ann * wa)) == (y * ann) * (s * wa) * 2) by (nonlinear_arith)
        requires
            sy == s * y,
    ;
    assert(sy * e2a == sy * (2 * (s * pa)) - sy * (2 * (ann * wa))) by (nonlinear_arith)
        requires
            e2a == 2 * (s * pa) - 2 * (ann * wa),
    ;
    assert(u * vv == 4 * ((y * ann) * (s * wa))) by (nonlinear_arith)
        requires
            u == 2 * (y * ann),
            vv == 2 * (s * wa),
    ;
    assert(4 * (ssy * pa) == u * vv + 2 * (sy * e2a));
    // The product of the two rounded factors.
    assert(u * vv == 4 * (cf * z) - 2 * (cf * j) + 2 * (e45 * z) - e45 * j) by (nonlinear_arith)
        requires
            u == 2 * cf + e45,
            vv == 2 * z - j,
    ;
    // The exact present value of the coupons, times a^n.
    assert(z == ssy * gsum) by (nonlinear_arith)
        requires
            z == s * (s * an) - s * (s * bn),
            ssy == s * s * y,
            y * gsum == an - bn,
    ;
    assert(ssy * (cf * gsum) == cf * z) by (nonlinear_arith)
        requires
            z == ssy * gsum,
    ;
    let t = pa - cf * gsum;
    assert(ssy * t == ssy * pa - ssy * (cf * gsum)) by (nonlinear_arith)
        requires
            t == pa - cf * gsum,
    ;
    assert(4 * (ssy * t) == 2 * (e45 * z) - 2 * (cf * j) - e45 * j + 2 * (sy * e2a));
    // The four terms, bounded.
    assert(0 <= z <= ssa) by (nonlinear_arith)
        requires
            z == s * (s * an) - s * (s * bn),
            ssa == s * (s * an),
            s > 0,
            0 < bn <= an,
    ;
    assert(-((s + y) * ssa) <= e45 * z <= (s + y) * ssa) by (nonlinear_arith)
        requires
            -(s + y) <= e45 <= s + y,
            0 <= z <= ssa,
            s > 0,
            y > 0,
    ;
    assert(cf >= 0) by (nonlinear_arith)
        requires
            cf == c * face,
            c >= 0,
            face > 0,
    ;
    assert(jb >= 0) by (nonlinear_arith)
        requires
            jb == an * k1,
            an > 0,
            k1 >= 0,
    ;
    assert(-(cf * jb) <= cf * j <= cf * jb) by (nonlinear_arith)
        requires
            cf >= 0,
            -jb <= j <= jb,
    ;
    assert(-((s + y) * jb) <= e45 * j <= (s + y) * jb) by (nonlinear_arith)
        requires
            -(s + y) <= e45 <= s + y,
            -jb <= j <= jb,
            s > 0,
            y > 0,
    ;
    assert(-(sy * (s * an)) <= sy * e2a <= sy * (s * an)) by (nonlinear_arith)
        requires
            e2a == e2 * an,
            -s <= e2 <= s,
            an > 0,
            sy == s * y,
            s > 0,
            y > 0,
    ;
    assert((2 * cf + s + y) * jb == 2 * (cf * jb) + (s + y) * jb) by (nonlinear_arith);
}

/// The error of discounting by the rounded growth factor `g`, per unit
/// discounted and times `2 * SCALE`: `SCALE + 2n + 4n * SCALE`.
pub open spec fn discount_slack(v: BondView) -> int {
    SCALE + 2 * periods(v) + 4 * (periods(v) * SCALE)
}

/// At a positive yield, and with no more than a billion periods, the
/// rounded growth factor and its inverse are close to the exact ones: with
/// `a = frequency + yield` and `b = frequency`, the growth factor is within
/// `2n * a^n / b^n` of `SCALE * a^n / b^n`, and its inverse within
/// `discount_slack / (2 * SCALE)` of `SCALE * b^n / a^n`.
pub proof fn lemma_growth_accuracy(v: BondView)
    requires
        valid_terms(v),
        v.yield_to_maturity > 0,
        periods(v) <= SCALE,
        growth(v, v.yield_to_maturity, periods(v)) is Ok,
    ensures
        0 < pow(v.frequency, periods(v)) <= present_value_denominator(v),
        price_steps(v).growth >= SCALE,
        0 <= price_steps(v).inverse <= SCALE,
        -(2 * periods(v) * present_value_denominator(v)) <= price_steps(v).growth * pow(
            v.frequency,
            periods(v),
        ) - SCALE * present_value_denominator(v) <= 2 * periods(v) * present_value_denominator(v),
        -(present_value_denominator(v) * discount_slack(v)) <= 2 * (SCALE * (price_steps(v).inverse
            * present_value_denominator(v) - SCALE * pow(v.frequency, periods(v))))
            <= present_value_denominator(v) * discount_slack(v),
{
    let s = SCALE as int;
    let y = v.yield_to_maturity;
    let b = v.frequency;
    let a = growth_numerator(v);
    let n = periods(v);
    let t = price_steps(v);
    let g = t.growth;
    let an = pow(a, n);
    let bn = pow(b, n);
    lemma_growth_at_positive_yield(v);
    lemma_pow_base_order(b, a, n);
    let rho = t.base - s;
    lemma_round_div_error(y * s, b);
    assert(2 * (b * t.base) - 2 * (s * a) == 2 * (b * rho) - 2 * (y * s)) by (nonlinear_arith)
        requires
            rho == t.base - s,
            a == b + y,
    ;
    lemma_power_error(t.base, a, b, n);
    assert(s * s >= 0) by (nonlinear_arith);
    lemma_round_div_error(s * s, g);
    lemma_discounting_error(s, g, s, t.inverse, an, bn, n as int);
}

/// The error of the rounded price, scaled: the rounded price differs from
/// the exact present value by at most `price_slack(v)` divided by
/// `4 * SCALE^2 * yield` billionths.
pub open spec fn price_slack(v: BondView) -> int {
    let s = SCALE as int;
    let n = periods(v) as int;
    let y = v.yield_to_maturity;
    2 * (s * y) * (s + 2 * n + 4 * (n * v.face_value)) + (2 * (v.coupon * v.face_value) + s + y)
        * (s + 2 * n + 4 * (n * s)) + 2 * ((s + y) * (s * s)) + 2 * ((s * y) * s)
}

/// A whole number of billionths that the error of the rounded price stays
/// within. For a face value of a thousand, a coupon of four percent, a
/// yield near it and twenty periods it is some 75 thousand: less than a
/// ten-thousandth.
pub open spec fn price_error_bound(v: BondView) -> int {
    price_slack(v) / (4 * (SCALE * SCALE * v.yield_to_maturity)) + 1
}

/// The rounded price of a bond at a positive yield is close to the exact
/// present value of its cash flows: with the exact value the fraction
/// `present_value_numerator / present_value_denominator`, the two differ by
/// at most `price_error_bound(v)` billionths.
pub proof fn lemma_price_accuracy(v: BondView, p: int)
    requires
        valid_terms(v),
        v.yield_to_maturity > 0,
        periods(v) <= SCALE,
        price_of(v) == Ok::<int, Fault>(p),
    ensures
        present_value_denominator(v) > 0,
        -(present_value_denominator(v) * price_slack(v)) <= 4 * ((SCALE * SCALE
            * v.yield_to_maturity) * (p * present_value_denominator(v) - present_value_numerator(
            v,
        ))) <= present_value_denominator(v) * price_slack(v),
        -(price_error_bound(v) * present_value_denominator(v)) <= p * present_value_denominator(v)
            - present_value_numerator(v) <= price_error_bound(v) * present_value_denominator(v),
{
    let s = SCALE as int;
    let y = v.yield_to_maturity;
    let c = v.coupon;
    let face = v.face_value;
    let b = v.frequency;
    let a = growth_numerator(v);
    let n = periods(v);
    let t = price_steps(v);
    let g = t.growth;
    let an = pow(a, n);
    let bn = pow(b, n);
    let gsum = annuity_sum(a, b, n);
    lemma_price_steps(v, p);
    lemma_growth_accuracy(v);
    // The present value of the face value.
    lemma_round_div_error(face * s, g);
    lemma_discounting_error(s, g, face, t.pv_principal, an, bn, n as int);
    // The present value of the coupons.
    lemma_round_div_error(c * face, s);
    lemma_round_div_error(t.coupon_amount * s, y);
    lemma_round_div_error(t.annuity * (s - t.inverse), s);
    lemma_annuity_sum_closed_form(a, b, n);
    let k0 = s + 2 * n + 4 * (n * face);
    let k1 = discount_slack(v);
    assert(k1 >= 0 && k0 >= 0) by (nonlinear_arith)
        requires
            k0 == s + 2 * n + 4 * (n * face),
            k1 == s + 2 * n + 4 * (n * s),
            s > 0,
            n >= 0,
            face > 0,
    ;
    lemma_coupon_error(
        s,
        y,
        c,
        face,
        t.coupon_amount,
        t.annuity,
        t.inverse,
        t.pv_coupon,
        an,
        bn,
        gsum,
        k1,
    );
    // The two together.
    let cf = c * face;
    let sy = s * y;
    let ssy = s * s * y;
    let xp = t.pv_principal * an - face * bn;
    let xc = t.pv_coupon * an - cf * gsum;
    let x = p * an - present_value_numerator(v);
    assert(face * (bn + c * gsum) == face * bn + cf * gsum) by (nonlinear_arith)
        requires
            cf == c * face,
    ;
    assert(p * an == t.pv_principal * an + t.pv_coupon * an) by (nonlinear_arith)
        requires
            p == t.pv_principal + t.pv_coupon,
    ;
    assert(x == xp + xc);
    assert(ssy * x == ssy * xp + ssy * xc) by (nonlinear_arith)
        requires
            x == xp + xc,
    ;
    let hp = 2 * (s * xp);
    assert(4 * (ssy * xp) == 2 * (sy * hp)) by (nonlinear_arith)
        requires
            hp == 2 * (s * xp),
            sy == s * y,
            ssy == s * s * y,
    ;
    let ak0 = an * k0;
    assert(-(sy * ak0) <= sy * hp <= sy * ak0) by (nonlinear_arith)
        requires
            -ak0 <= hp <= ak0,
            sy == s * y,
            s > 0,
            y > 0,
    ;
    let bound_c = (2 * cf + s + y) * (an * k1) + 2 * ((s + y) * (s * (s * an))) + 2 * ((s * y) * (s
        * an));
    let slack = price_slack(v);
    assert(an * slack == 2 * (sy * ak0) + bound_c) by {
        let m1 = 2 * sy * k0;
        let m2 = (2 * cf + s + y) * k1;
        let m3 = 2 * ((s + y) * (s * s));
        let m4 = 2 * (sy * s);
        assert(slack == m1 + m2 + m3 + m4);
        assert(an * slack == an * m1 + an * m2 + an * m3 + an * m4) by (nonlinear_arith)
            requires
                slack == m1 + m2 + m3 + m4,
        ;
        assert(an * m1 == 2 * (sy * ak0)) by (nonlinear_arith)
            requires
                m1 == 2 * sy * k0,
                ak0 == an * k0,
        ;
        assert(an * m2 == (2 * cf + s + y) * (an * k1)) by (nonlinear_arith)
            requires
                m2 == (2 * cf + s + y) * k1,
        ;
        assert(an * m3 == 2 * ((s + y) * (s * (s * an)))) by (nonlinear_arith)
            requires
                m3 == 2 * ((s + y) * (s * s)),
        ;
        assert(an * m4 == 2 * (sy * (s * an))) by (nonlinear_arith)
            requires
                m4 == 2 * (sy * s),
        ;
    }
    assert(-(an * slack) <= 4 * (ssy * x) <= an * slack);
    // In whole billionths.
    let d = 4 * ssy;
    let e = price_error_bound(v);
    assert(d > 0) by (nonlinear_arith)
        requires
            d == 4 * (s * s * y),
            s > 0,
            y > 0,
    ;
    assert(slack < d * e) by (nonlinear_arith)
        requires
            e == slack / d + 1,
            d > 0,
    ;
    assert(d * x == 4 * (ssy * x)) by (nonlinear_arith)
        requires
            d == 4 * ssy,
    ;
    assert(-(e * an) <= x <= e * an) by (nonlinear_arith)
        requires
            -(an * slack) <= d * x <= an * slack,
            slack < d * e,
            d > 0,
            an > 0,
    ;
}

/// The error of dividing by a rounded shrinking factor. With `g` within
/// `2n` of `s * an / bn`, and larger than `2n`, the rounded quotient `q` of
/// `x` by `g` is within `(g + 4nq) / (2 * (g - 2n))` of `x * bn / an`.
proof fn lemma_discounting_error_shrinking(
    s: int,
    g: int,
    x: int,
    q: int,
    an: int,
    bn: int,
    n: int,
    kk: int,
)
    requires
        s > 0,
        g > 0,
        kk == g - 2 * n,
        kk > 0,
        x >= 0,
        n >= 0,
        0 < an <= bn,
        -(2 * n * bn) <= g * bn - s * an <= 2 * n * bn,
        -g <= 2 * (g * q) - 2 * (x * s) <= g,
    ensures
        q >= 0,
        kk * bn <= s * an,
        -(an * (g + 4 * (n * q))) <= 2 * (kk * (q * an - x * bn)) <= an * (g + 4 * (n * q)),
{
    assert(q >= 0) by (nonlinear_arith)
        requires
            -g <= 2 * (g * q) - 2 * (x * s),
            g > 0,
            s > 0,
            x >= 0,
    ;
    let e1 = 2 * (g * q) - 2 * (x * s);
    let err = g * bn - s * an;
    let qa = q * an;
    let xb = x * bn;
    let gb = g * bn;
    let u = qa - xb;
    assert(e1 * bn == 2 * (q * gb) - 2 * (s * xb)) by (nonlinear_arith)
        requires
            e1 == 2 * (g * q) - 2 * (x * s),
            gb == g * bn,
            xb == x * bn,
    ;
    assert(q * err == q * gb - s * qa) by (nonlinear_arith)
        requires
            err == gb - s * an,
            qa == q * an,
    ;
    assert(s * u == s * qa - s * xb) by (nonlinear_arith)
        requires
            u == qa - xb,
    ;
    assert(2 * (s * u) == e1 * bn - 2 * (q * err));
    let nq = n * q;
    let nb = n * bn;
    assert(-gb <= e1 * bn <= gb) by (nonlinear_arith)
        requires
            -g <= e1 <= g,
            gb == g * bn,
            bn > 0,
    ;
    assert(-(2 * nb) <= err <= 2 * nb) by (nonlinear_arith)
        requires
            -(2 * n * bn) <= err <= 2 * n * bn,
            nb == n * bn,
    ;
    assert(nb >= 0 && nq >= 0) by (nonlinear_arith)
        requires
            nb == n * bn,
            nq == n * q,
            n >= 0,
            bn > 0,
            q >= 0,
    ;
    assert(-(2 * (nq * bn)) <= q * err <= 2 * (nq * bn)) by (nonlinear_arith)
        requires
            -(2 * nb) <= err <= 2 * nb,
            nb == n * bn,
            nq == n * q,
            q >= 0,
    ;
    let w = g + 4 * nq;
    assert(bn * w == gb + 4 * (nq * bn)) by (nonlinear_arith)
        requires
            w == g + 4 * nq,
            gb == g * bn,
    ;
    assert(-(bn * w) <= 2 * (s * u) <= bn * w);
    // From b^n to a^n.
    let kb = kk * bn;
    let sa = s * an;
    assert(kb == gb - 2 * nb) by (nonlinear_arith)
        requires
            kb == kk * bn,
            kk == g - 2 * n,
            gb == g * bn,
            nb == n * bn,
    ;
    assert(kb <= sa);
    assert(w >= 0 && kb > 0) by (nonlinear_arith)
        requires
            w == g + 4 * nq,
            g > 0,
            nq >= 0,
            kb == kk * bn,
            kk > 0,
            bn > 0,
    ;
    let h = 2 * (s * u);
    assert(-(kb * w) <= kk * h <= kb * w) by (nonlinear_arith)
        requires
            -(bn * w) <= h <= bn * w,
            kb == kk * bn,
            kk > 0,
    ;
    assert(kb * w <= sa * w) by (nonlinear_arith)
        requires
            kb <= sa,
            w >= 0,
    ;
    assert(kk * h == s * (2 * (kk * u))) by (nonlinear_arith)
        requires
            h == 2 * (s * u),
    ;
    assert(sa * w == s * (an * w)) by (nonlinear_arith)
        requires
            sa == s * an,
    ;
    let t = 2 * (kk * u);
    let aw = an * w;
    assert(-aw <= t <= aw) by (nonlinear_arith)
        requires
            -(s * aw) <= s * t <= s * aw,
            s > 0,
    ;
}

/// The error of the present value of the coupons at a negative yield, from
/// the errors of its steps.
proof fn lemma_coupon_error_shrinking(
    s: int,
    y: int,
    c: int,
    face: int,
    ca: int,
    ann: int,
    inv: int,
    pvc: int,
    an: int,
    bn: int,
    gsum: int,
    kk: int,
    ji: int,
)
    requires
        s > 0,
        y < 0,
        c >= 0,
        face > 0,
        0 < an <= bn,
        kk > 0,
        ji >= 0,
        kk * bn <= s * an,
        y * gsum == an - bn,
        -s <= 2 * (s * ca) - 2 * (c * face) <= s,
        y <= 2 * (y * ann) - 2 * (ca * s) <= -y,
        -s <= 2 * (s * pvc) - 2 * (ann * (s - inv)) <= s,
        -(an * ji) <= 2 * (kk * (inv * an - s * bn)) <= an * ji,
    ensures
        ({
            let bound = an * ((2 * (c * face) + s - y) * ji + 2 * ((s - y) * (s * s)) + 2 * ((kk * (
            -y)) * s));
            let target = 4 * ((kk * (s * y)) * (pvc * an - (c * face) * gsum));
            -bound <= target <= bound
        }),
{
    let my = -y;
    let cf = c * face;
    let e45 = 2 * (y * ann) - 2 * cf;
    let e2 = 2 * (s * pvc) - 2 * (ann * (s - inv));
    let i = inv * an - s * bn;
    let j2 = 2 * (kk * i);
    let jb = an * ji;
    let d = an - bn;
    let sd = s * d;
    let w = s - inv;
    let wa = w * an;
    let pa = pvc * an;
    let e2a = e2 * an;
    let sy = s * y;
    let ya = y * ann;
    let sa = s * an;
    assert(-(s + my) <= e45 <= s + my) by (nonlinear_arith)
        requires
            e45 == 2 * (y * ann) - 2 * cf,
            cf == c * face,
            my == -y,
            -s <= 2 * (s * ca) - 2 * (c * face) <= s,
            y <= 2 * (y * ann) - 2 * (ca * s) <= -y,
    ;
    // The weight one minus the inverse, times a^n.
    assert(wa == sd - i) by (nonlinear_arith)
        requires
            wa == (s - inv) * an,
            sd == s * (an - bn),
            i == inv * an - s * bn,
    ;
    // The rounded present value of the coupons, times a^n.
    assert((s * pvc) * an == s * pa && (ann * w) * an == ann * wa) by (nonlinear_arith)
        requires
            pa == pvc * an,
            wa == w * an,
    ;
    assert(e2a == 2 * (s * pa) - 2 * (ann * wa)) by (nonlinear_arith)
        requires
            e2a == e2 * an,
            e2 == 2 * (s * pvc) - 2 * (ann * w),
            (s * pvc) * an == s * pa,
            (ann * w) * an == ann * wa,
    ;
    assert(y * (s * pa) == sy * pa && y * (ann * wa) == ya * wa) by (nonlinear_arith)
        requires
            sy == s * y,
            ya == y * ann,
    ;
    assert(y * e2a == 2 * (y * (s * pa)) - 2 * (y * (ann * wa))) by (nonlinear_arith)
        requires
            e2a == 2 * (s * pa) - 2 * (ann * wa),
    ;
    assert((2 * ya) * wa == (2 * cf) * sd - (2 * cf) * i + e45 * sd - e45 * i) by (nonlinear_arith)
        requires
            2 * ya == 2 * cf + e45,
            wa == sd - i,
    ;
    assert((2 * ya) * wa == 2 * (ya * wa) && (2 * cf) * sd == 2 * (cf * sd) && (2 * cf) * i == 2
        * (cf * i)) by (nonlinear_arith);
    assert(2 * (sy * pa) == y * e2a + 2 * (cf * sd) - 2 * (cf * i) + e45 * sd - e45 * i);
    // The exact present value of the coupons, times a^n.
    assert(sy * (cf * gsum) == cf * sd) by (nonlinear_arith)
        requires
            sy == s * y,
            sd == s * d,
            y * gsum == d,
    ;
    let t = pa - cf * gsum;
    assert(sy * t == sy * pa - sy * (cf * gsum)) by (nonlinear_arith)
        requires
            t == pa - cf * gsum,
    ;
    let half = 2 * (sy * t);
    assert(half == y * e2a - 2 * (cf * i) + e45 * sd - e45 * i);
    // Times 2 * kk.
    let ksd = kk * sd;
    assert(kk * (cf * i) * 2 == cf * j2) by (nonlinear_arith)
        requires
            j2 == 2 * (kk * i),
    ;
    assert(kk * (e45 * sd) == e45 * ksd) by (nonlinear_arith)
        requires
            ksd == kk * sd,
    ;
    assert(2 * (kk * (e45 * i)) == e45 * j2) by (nonlinear_arith)
        requires
            j2 == 2 * (kk * i),
    ;
    assert(kk * half == kk * (y * e2a) - 2 * (kk * (cf * i)) + kk * (e45 * sd) - kk * (e45 * i))
        by (nonlinear_arith)
        requires
            half == y * e2a - 2 * (cf * i) + e45 * sd - e45 * i,
    ;
    assert(2 * (kk * half) == 2 * (kk * (y * e2a)) - 2 * (cf * j2) + 2 * (e45 * ksd) - e45 * j2);
    assert(2 * (kk * half) == 4 * ((kk * sy) * t)) by (nonlinear_arith)
        requires
            half == 2 * (sy * t),
    ;
    // The four terms, bounded.
    let km = kk * my;
    assert(-(sa) <= e2a <= sa) by (nonlinear_arith)
        requires
            e2a == e2 * an,
            -s <= e2 <= s,
            sa == s * an,
            an > 0,
    ;
    assert(kk * (y * e2a) == -(km * e2a)) by (nonlinear_arith)
        requires
            km == kk * (-y),
    ;
    assert(km > 0) by (nonlinear_arith)
        requires
            km == kk * my,
            kk > 0,
            my > 0,
    ;
    assert(-(km * sa) <= km * e2a <= km * sa) by (nonlinear_arith)
        requires
            -sa <= e2a <= sa,
            km > 0,
    ;
    assert(cf >= 0 && jb >= 0) by (nonlinear_arith)
        requires
            cf == c * face,
            c >= 0,
            face > 0,
            jb == an * ji,
            an > 0,
            ji >= 0,
    ;
    assert(-(cf * jb) <= cf * j2 <= cf * jb) by (nonlinear_arith)
        requires
            -jb <= j2 <= jb,
            cf >= 0,
    ;
    assert(-(s * sa) <= ksd <= 0) by (nonlinear_arith)
        requires
            ksd == kk * (s * (an - bn)),
            kk * bn <= s * an,
            0 < an <= bn,
            sa == s * an,
            s > 0,
            kk > 0,
    ;
    assert(-((s + my) * (s * sa)) <= e45 * ksd <= (s + my) * (s * sa)) by (nonlinear_arith)
        requires
            -(s + my) <= e45 <= s + my,
            -(s * sa) <= ksd <= 0,
            s > 0,
            my > 0,
    ;
    assert(-((s + my) * jb) <= e45 * j2 <= (s + my) * jb) by (nonlinear_arith)
        requires
            -(s + my) <= e45 <= s + my,
            -jb <= j2 <= jb,
            s > 0,
            my > 0,
    ;
    let bound = an * ((2 * cf + s + my) * ji + 2 * ((s + my) * (s * s)) + 2 * (km * s));
    assert(bound == 2 * (cf * jb) + (s + my) * jb + 2 * ((s + my) * (s * sa)) + 2 * (km * sa)) by {
        let m1 = (2 * cf + s + my) * ji;
        let m2 = 2 * ((s + my) * (s * s));
        let m3 = 2 * (km * s);
        assert(bound == an * m1 + an * m2 + an * m3) by (nonlinear_arith)
            requires
                bound == an * (m1 + m2 + m3),
        ;
        assert(an * m1 == 2 * (cf * jb) + (s + my) * jb) by (nonlinear_arith)
            requires
                m1 == (2 * cf + s + my) * ji,
                jb == an * ji,
        ;
        assert(an * m2 == 2 * ((s + my) * (s * sa))) by (nonlinear_arith)
            requires
                m2 == 2 * ((s + my) * (s * s)),
                sa == s * an,
        ;
        assert(an * m3 == 2 * (km * sa)) by (nonlinear_arith)
            requires
                m3 == 2 * (km * s),
                sa == s * an,
        ;
    }
}

/// The error of the rounded price at a negative yield, scaled: the rounded
/// price differs from the exact present value by at most this divided by
/// `4 * SCALE * (g - 2n) * |yield|` billionths, where `g` is the rounded
/// growth factor.
pub open spec fn price_slack_below_zero(v: BondView) -> int {
    let s = SCALE as int;
    let n = periods(v) as int;
    let my = -v.yield_to_maturity;
    let t = price_steps(v);
    let kk = t.growth - 2 * n;
    2 * (s * my) * (t.growth + 4 * (n * t.pv_principal)) + (2 * (v.coupon * v.face_value) + s
        + my) * (t.growth + 4 * (n * t.inverse)) + 2 * ((s + my) * (s * s)) + 2 * ((kk * my) * s)
}

/// A whole number of billionths that the error of the rounded price at a
/// negative yield stays within. It grows as the growth factor shrinks: for
/// a face value of a thousand, a coupon of four percent, a yield of minus
/// one percent and twenty periods it is some 250 thousand.
pub open spec fn price_error_bound_below_zero(v: BondView) -> int {
    price_slack_below_zero(v) / (4 * ((price_steps(v).growth - 2 * periods(v)) * (SCALE * (
    -v.yield_to_maturity)))) + 1
}

/// The rounded price of a bond at a negative yield above minus the
/// frequency, with a rounded growth factor above `2n` billionths, is close
/// to the exact present value of its cash flows: the two differ by at most
/// `price_error_bound_below_zero(v)` billionths.
pub proof fn lemma_price_accuracy_below_zero(v: BondView, p: int)
    requires
        valid_terms(v),
        -v.frequency < v.yield_to_maturity < 0,
        periods(v) <= SCALE,
        price_of(v) == Ok::<int, Fault>(p),
        price_steps(v).growth > 2 * periods(v),
    ensures
        present_value_denominator(v) > 0,
        -(price_error_bound_below_zero(v) * present_value_denominator(v)) <= p
            * present_value_denominator(v) - present_value_numerator(v)
            <= price_error_bound_below_zero(v) * present_value_denominator(v),
{
    let s = SCALE as int;
    let y = v.yield_to_maturity;
    let my = -y;
    let c = v.coupon;
    let face = v.face_value;
    let b = v.frequency;
    let a = growth_numerator(v);
    let n = periods(v);
    let t = price_steps(v);
    let g = t.growth;
    let kk = g - 2 * n;
    let an = pow(a, n);
    let bn = pow(b, n);
    let gsum = annuity_sum(a, b, n);
    lemma_price_steps(v, p);
    lemma_growth_at_negative_yield(v);
    lemma_pow_base_order(a, b, n);
    // The shrinking factor per period.
    let rho = t.base - s;
    lemma_round_div_error(y * s, b);
    assert(2 * (b * t.base) - 2 * (s * a) == 2 * (b * rho) - 2 * (y * s)) by (nonlinear_arith)
        requires
            rho == t.base - s,
            a == b + y,
    ;
    lemma_power_error_shrinking(t.base, a, b, n);
    // The present value of the face value.
    lemma_round_div_error(face * s, g);
    lemma_discounting_error_shrinking(s, g, face, t.pv_principal, an, bn, n as int, kk);
    // The present value of the coupons.
    assert(s * s >= 0) by (nonlinear_arith);
    lemma_round_div_error(s * s, g);
    lemma_discounting_error_shrinking(s, g, s, t.inverse, an, bn, n as int, kk);
    lemma_round_div_error(c * face, s);
    lemma_round_div_error_signed(t.coupon_amount * s, y);
    lemma_round_div_error(t.annuity * (s - t.inverse), s);
    lemma_annuity_sum_closed_form(a, b, n);
    let jp = g + 4 * (n * t.pv_principal);
    let ji = g + 4 * (n * t.inverse);
    assert(jp >= 0 && ji >= 0) by (nonlinear_arith)
        requires
            jp == g + 4 * (n * t.pv_principal),
            ji == g + 4 * (n * t.inverse),
            g > 0,
            n >= 0,
            t.pv_principal >= 0,
            t.inverse >= 0,
    ;
    lemma_coupon_error_shrinking(
        s,
        y,
        c,
        face,
        t.coupon_amount,
        t.annuity,
        t.inverse,
        t.pv_coupon,
        an,
        bn,
        gsum,
        kk,
        ji,
    );
    // The two together.
    let cf = c * face;
    let sy = s * y;
    let sm = s * my;
    let ksy = kk * sy;
    let xp = t.pv_principal * an - face * bn;
    let xc = t.pv_coupon * an - cf * gsum;
    let x = p * an - present_value_numerator(v);
    assert(face * (bn + c * gsum) == face * bn + cf * gsum) by (nonlinear_arith)
        requires
            cf == c * face,
    ;
    assert(p * an == t.pv_principal * an + t.pv_coupon * an) by (nonlinear_arith)
        requires
            p == t.pv_principal + t.pv_coupon,
    ;
    assert(x == xp + xc);
    assert(ksy * x == ksy * xp + ksy * xc) by (nonlinear_arith)
        requires
            x == xp + xc,
    ;
    let hp = 2 * (kk * xp);
    let ajp = an * jp;
    assert(4 * (ksy * xp) == -(2 * (sm * hp))) by (nonlinear_arith)
        requires
            hp == 2 * (kk * xp),
            sm == s * (-y),
            ksy == kk * (s * y),
    ;
    assert(sm > 0) by (nonlinear_arith)
        requires
            sm == s * my,
            s > 0,
            my > 0,
    ;
    assert(-(sm * ajp) <= sm * hp <= sm * ajp) by (nonlinear_arith)
        requires
            -ajp <= hp <= ajp,
            sm > 0,
    ;
    let km = kk * my;
    let bound_c = an * ((2 * cf + s + my) * ji + 2 * ((s + my) * (s * s)) + 2 * (km * s));
    let slack = price_slack_below_zero(v);
    assert(an * slack == 2 * (sm * ajp) + bound_c) by {
        let m1 = 2 * sm * jp;
        let m2 = (2 * cf + s + my) * ji + 2 * ((s + my) * (s * s)) + 2 * (km * s);
        assert(slack == m1 + m2);
        assert(an * slack == an * m1 + an * m2) by (nonlinear_arith)
            requires
                slack == m1 + m2,
        ;
        assert(an * m1 == 2 * (sm * ajp)) by (nonlinear_arith)
            requires
                m1 == 2 * sm * jp,
                ajp == an * jp,
        ;
    }
    assert(-(an * slack) <= 4 * (ksy * x) <= an * slack);
    // In whole billionths.
    let dd = 4 * (kk * sm);
    let e = price_error_bound_below_zero(v);
    assert(dd > 0) by (nonlinear_arith)
        requires
            dd == 4 * (kk * sm),
            kk > 0,
            sm > 0,
    ;
    assert(slack < dd * e) by (nonlinear_arith)
        requires
            e == slack / dd + 1,
            dd > 0,
    ;
    assert(4 * (ksy * x) == -(dd * x)) by (nonlinear_arith)
        requires
            dd == 4 * (kk * (s * (-y))),
            ksy == kk * (s * y),
    ;
    assert(-(e * an) <= x <= e * an) by (nonlinear_arith)
        requires
            -(an * slack) <= dd * x <= an * slack,
            slack < dd * e,
            dd > 0,
            an > 0,
    ;
}

/// Whether the error of the rounded price of `v` is bounded here: the
/// yield is above minus the frequency and not zero, there are no more than
/// a billion periods, and at a negative yield the rounded growth factor is
/// above `2n` billionths.
pub open spec fn price_is_bounded(v: BondView) -> bool {
    &&& periods(v) <= SCALE
    &&& v.yield_to_maturity != 0
    &&& -v.frequency < v.yield_to_maturity
    &&& v.yield_to_maturity < 0 ==> price_steps(v).growth > 2 * periods(v)
}

/// A whole number of billionths that the error of the rounded price stays
/// within, at a yield of either sign.
pub open spec fn price_error_bound_at(v: BondView) -> int {
    if v.yield_to_maturity > 0 {
        price_error_bound(v)
    } else {
        price_error_bound_below_zero(v)
    }
}

/// The rounded price of a bond is close to the exact present value of its
/// cash flows, the fraction
/// `present_value_numerator / present_value_denominator`: wherever
/// [`price_is_bounded`], the two differ by at most `price_error_bound_at(v)`
/// billionths.
pub proof fn lemma_price_accuracy_at(v: BondView, p: int)
    requires
        valid_terms(v),
        price_is_bounded(v),
        price_of(v) == Ok::<int, Fault>(p),
    ensures
        present_value_denominator(v) > 0,
        -(price_error_bound_at(v) * present_value_denominator(v)) <= p * present_value_denominator(
            v,
        ) - present_value_numerator(v) <= price_error_bound_at(v) * present_value_denominator(v),
{
    if v.yield_to_maturity > 0 {
        lemma_price_accuracy(v, p);
    } else {
        lemma_price_accuracy_below_zero(v, p);
    }
}

/// The rounded price falls as the yield rises, up to the rounding of the
/// steps: of two bonds with the same face value, coupon, frequency and
/// maturity, the one with the higher yield has the lower price, or a price
/// higher by less than the two error bounds together.
pub proof fn lemma_price_decreases_in_yield(
    v1: BondView,
    v2: BondView,
    at_lower_yield: int,
    at_higher_yield: int,
)
    requires
        valid_terms(v1),
        v2.face_value == v1.face_value,
        v2.coupon == v1.coupon,
        v2.frequency == v1.frequency,
        v2.maturity == v1.maturity,
        v1.yield_to_maturity < v2.yield_to_maturity,
        price_is_bounded(v1),
        price_is_bounded(v2),
        price_of(v1) == Ok::<int, Fault>(at_lower_yield),
        price_of(v2) == Ok::<int, Fault>(at_higher_yield),
    ensures
        at_higher_yield - at_lower_yield < price_error_bound_at(v1) + price_error_bound_at(v2),
{
    lemma_price_accuracy_at(v1, at_lower_yield);
    lemma_price_accuracy_at(v2, at_higher_yield);
    lemma_present_value_decreases_in_yield(v1, v2);
    let z1 = present_value_denominator(v1);
    let z2 = present_value_denominator(v2);
    let n1 = present_value_numerator(v1);
    let n2 = present_value_numerator(v2);
    let e1 = price_error_bound_at(v1);
    let e2 = price_error_bound_at(v2);
    let zz = z1 * z2;
    assert((at_lower_yield + e1) * zz >= n1 * z2) by (nonlinear_arith)
        requires
            at_lower_yield * z1 - n1 >= -(e1 * z1),
            zz == z1 * z2,
            z2 > 0,
    ;
    assert((at_higher_yield - e2) * zz <= n2 * z1) by (nonlinear_arith)
        requires
            at_higher_yield * z2 - n2 <= e2 * z2,
            zz == z1 * z2,
            z1 > 0,
    ;
    assert(at_higher_yield - e2 < at_lower_yield + e1) by (nonlinear_arith)
        requires
            (at_lower_yield + e1) * zz >= n1 * z2,
            (at_higher_yield - e2) * zz <= n2 * z1,
            n1 * z2 > n2 * z1,
            zz == z1 * z2,
            z1 > 0,
            z2 > 0,
    ;
}

/// The error of the rounded residual, from the errors of its steps.
proof fn lemma_residual_error(
    s: int,
    x: int,
    c: int,
    face: int,
    ca: int,
    ann: int,
    inv: int,
    m: int,
    an: int,
    bn: int,
    gsum: int,
    k1: int,
)
    requires
        s > 0,
        x > 0,
        c >= 0,
        face > 0,
        an > 0,
        0 < bn <= an,
        k1 >= 0,
        x * gsum == an - bn,
        -s <= 2 * (s * ca) - 2 * (c * face) <= s,
        -x <= 2 * (x * ann) - 2 * (ca * s) <= x,
        -s <= 2 * (s * m) - 2 * ((face - ann) * inv) <= s,
        -(an * k1) <= 2 * (s * (inv * an - s * bn)) <= an * k1,
    ensures
        ({
            let bound = 2 * ((s + x) * (s * (s * an))) + (2 * (x * face) + 2 * (c * face) + s + x)
                * (an * k1) + 2 * ((s * x) * (s * an));
            let target = 4 * ((s * s * x) * ((m + ann) * an - (face * bn + (c * face) * gsum)));
            -bound <= target <= bound
        }),
{
    let cf = c * face;
    let xf = x * face;
    let xa = x * ann;
    let xfa = xf - xa;
    let fa = face - ann;
    let e45 = 2 * xa - 2 * cf;
    let e7 = 2 * (s * m) - 2 * (fa * inv);
    let j = 2 * (s * (inv * an - s * bn));
    let jb = an * k1;
    let ia = inv * an;
    let ssa = s * (s * an);
    let ssb = s * (s * bn);
    let z = ssa - ssb;
    let sx = s * x;
    let ssx = s * s * x;
    let ma = m * an;
    let aa = ann * an;
    let e7a = e7 * an;
    let sia = s * ia;
    assert(-(s + x) <= e45 <= s + x) by (nonlinear_arith)
        requires
            e45 == 2 * (x * ann) - 2 * cf,
            cf == c * face,
            -s <= 2 * (s * ca) - 2 * (c * face) <= s,
            -x <= 2 * (x * ann) - 2 * (ca * s) <= x,
    ;
    // The rounded product of the two factors, times a^n.
    assert((s * m) * an == s * ma && (fa * inv) * an == fa * ia) by (nonlinear_arith)
        requires
            ma == m * an,
            ia == inv * an,
    ;
    assert(e7a == 2 * (s * ma) - 2 * (fa * ia)) by (nonlinear_arith)
        requires
            e7a == e7 * an,
            e7 == 2 * (s * m) - 2 * (fa * inv),
            (s * m) * an == s * ma,
            (fa * inv) * an == fa * ia,
    ;
    assert(sx * (s * ma) == ssx * ma) by (nonlinear_arith)
        requires
            sx == s * x,
            ssx == s * s * x,
    ;
    assert(sx * (fa * ia) == xfa * sia) by (nonlinear_arith)
        requires
            sx == s * x,
            xfa == x * face - x * ann,
            fa == face - ann,
            sia == s * ia,
    ;
    assert(sx * e7a == 2 * (sx * (s * ma)) - 2 * (sx * (fa * ia))) by (nonlinear_arith)
        requires
            e7a == 2 * (s * ma) - 2 * (fa * ia),
    ;
    assert(2 * (ssx * ma) == sx * e7a + 2 * (xfa * sia));
    assert(j == 2 * sia - 2 * ssb) by (nonlinear_arith)
        requires
            j == 2 * (s * (ia - s * bn)),
            sia == s * ia,
            ssb == s * (s * bn),
    ;
    assert(xfa * (2 * sia) == xfa * j + 2 * (xfa * ssb)) by (nonlinear_arith)
        requires
            2 * sia == j + 2 * ssb,
    ;
    assert(xfa * ssb == xf * ssb - xa * ssb) by (nonlinear_arith)
        requires
            xfa == xf - xa,
    ;
    assert(xfa * (2 * sia) == 2 * (xfa * sia)) by (nonlinear_arith);
    assert(4 * (ssx * ma) == 2 * (sx * e7a) + 2 * (xfa * j) + 4 * (xf * ssb) - 4 * (xa * ssb));
    // The other three terms, times a^n.
    assert(ssx * aa == xa * ssa) by (nonlinear_arith)
        requires
            ssx == s * s * x,
            aa == ann * an,
            xa == x * ann,
            ssa == s * (s * an),
    ;
    assert(ssx * (face * bn) == xf * ssb) by (nonlinear_arith)
        requires
            ssx == s * s * x,
            xf == x * face,
            ssb == s * (s * bn),
    ;
    assert(z == ssx * gsum) by (nonlinear_arith)
        requires
            z == s * (s * an) - s * (s * bn),
            ssx == s * s * x,
            x * gsum == an - bn,
    ;
    assert(ssx * (cf * gsum) == cf * z) by (nonlinear_arith)
        requires
            z == ssx * gsum,
    ;
    let t = (m + ann) * an - (face * bn + cf * gsum);
    assert(t == ma + aa - face * bn - cf * gsum) by (nonlinear_arith)
        requires
            t == (m + ann) * an - (face * bn + cf * gsum),
            ma == m * an,
            aa == ann * an,
    ;
    assert(ssx * t == ssx * ma + ssx * aa - ssx * (face * bn) - ssx * (cf * gsum))
        by (nonlinear_arith)
        requires
            t == ma + aa - face * bn - cf * gsum,
    ;
    assert(xa * z == xa * ssa - xa * ssb) by (nonlinear_arith)
        requires
            z == ssa - ssb,
    ;
    assert(e45 * z == 2 * (xa * z) - 2 * (cf * z)) by (nonlinear_arith)
        requires
            e45 == 2 * xa - 2 * cf,
    ;
    assert(4 * (ssx * t) == 2 * (sx * e7a) + 2 * (xfa * j) + 2 * (e45 * z));
    // The three terms, bounded.
    assert(0 <= z <= ssa) by (nonlinear_arith)
        requires
            z == s * (s * an) - s * (s * bn),
            ssa == s * (s * an),
            s > 0,
            0 < bn <= an,
    ;
    assert(-((s + x) * ssa) <= e45 * z <= (s + x) * ssa) by (nonlinear_arith)
        requires
            -(s + x) <= e45 <= s + x,
            0 <= z <= ssa,
            s > 0,
            x > 0,
    ;
    assert(jb >= 0) by (nonlinear_arith)
        requires
            jb == an * k1,
            an > 0,
            k1 >= 0,
    ;
    assert(cf >= 0 && xf > 0) by (nonlinear_arith)
        requires
            cf == c * face,
            xf == x * face,
            c >= 0,
            face > 0,
            x > 0,
    ;
    let w = 2 * xf + 2 * cf + s + x;
    assert(-w <= 2 * xfa <= w);
    assert(-(w * jb) <= 2 * (xfa * j) <= w * jb) by (nonlinear_arith)
        requires
            -w <= 2 * xfa <= w,
            -jb <= j <= jb,
    ;
    assert(-(sx * (s * an)) <= sx * e7a <= sx * (s * an)) by (nonlinear_arith)
        requires
            e7a == e7 * an,
            -s <= e7 <= s,
            an > 0,
            sx == s * x,
            s > 0,
            x > 0,
    ;
}

/// The error of the rounded residual, scaled: the residual plus the price
/// differs from the exact present value at the trial yield `x` by at most
/// `residual_slack(v, x)` divided by `4 * SCALE^2 * x` billionths.
pub open spec fn residual_slack(v: BondView, x: int) -> int {
    let s = SCALE as int;
    2 * ((s + x) * (s * s)) + (2 * (x * v.face_value) + 2 * (v.coupon * v.face_value) + s + x)
        * discount_slack(v) + 2 * ((s * x) * s)
}

/// A whole number of billionths that the error of the rounded residual
/// stays within.
pub open spec fn residual_error_bound(v: BondView, x: int) -> int {
    residual_slack(v, x) / (4 * (SCALE * SCALE * x)) + 1
}

/// The rounded residual at a positive trial yield is close to the exact
/// one: the residual plus the price differs from the exact present value at
/// that yield by at most `residual_error_bound(v, x)` billionths.
pub proof fn lemma_residual_accuracy(v: BondView, x: int, r: int)
    requires
        valid_terms(v),
        x > 0,
        periods(v) <= SCALE,
        residual(v, x) == Ok::<int, Fault>(r),
    ensures
        ({
            let at_x = BondView { yield_to_maturity: x, ..v };
            &&& present_value_denominator(at_x) > 0
            &&& -(residual_error_bound(v, x) * present_value_denominator(at_x)) <= (r + v.price)
                * present_value_denominator(at_x) - present_value_numerator(at_x)
                <= residual_error_bound(v, x) * present_value_denominator(at_x)
        }),
{
    let at_x = BondView { yield_to_maturity: x, ..v };
    let s = SCALE as int;
    let c = v.coupon;
    let face = v.face_value;
    let b = v.frequency;
    let a = growth_numerator(at_x);
    let n = periods(v);
    let t = price_steps(at_x);
    let an = pow(a, n);
    let bn = pow(b, n);
    let gsum = annuity_sum(a, b, n);
    assert(growth(at_x, x, n) == growth(v, x, n));
    lemma_growth_accuracy(at_x);
    lemma_round_div_error(c * face, s);
    lemma_round_div_error(t.coupon_amount * s, x);
    let m = fx_mul(face - t.annuity, t.inverse);
    lemma_round_div_error((face - t.annuity) * t.inverse, s);
    assert(r == m + t.annuity - v.price);
    lemma_annuity_sum_closed_form(a, b, n);
    let k1 = discount_slack(v);
    assert(k1 >= 0) by (nonlinear_arith)
        requires
            k1 == s + 2 * n + 4 * (n * s),
            s > 0,
            n >= 0,
    ;
    lemma_residual_error(
        s,
        x,
        c,
        face,
        t.coupon_amount,
        t.annuity,
        t.inverse,
        m,
        an,
        bn,
        gsum,
        k1,
    );
    let cf = c * face;
    let ssx = s * s * x;
    let target = (r + v.price) * an - present_value_numerator(at_x);
    assert(face * (bn + c * gsum) == face * bn + cf * gsum) by (nonlinear_arith)
        requires
            cf == c * face,
    ;
    let slack = residual_slack(v, x);
    let bound = 2 * ((s + x) * (s * (s * an))) + (2 * (x * face) + 2 * cf + s + x) * (an * k1) + 2
        * ((s * x) * (s * an));
    assert(an * slack == bound) by {
        let m1 = 2 * ((s + x) * (s * s));
        let m2 = (2 * (x * face) + 2 * cf + s + x) * k1;
        let m3 = 2 * ((s * x) * s);
        assert(slack == m1 + m2 + m3);
        assert(an * slack == an * m1 + an * m2 + an * m3) by (nonlinear_arith)
            requires
                slack == m1 + m2 + m3,
        ;
        assert(an * m1 == 2 * ((s + x) * (s * (s * an)))) by (nonlinear_arith)
            requires
                m1 == 2 * ((s + x) * (s * s)),
        ;
        assert(an * m2 == (2 * (x * face) + 2 * cf + s + x) * (an * k1)) by (nonlinear_arith)
            requires
                m2 == (2 * (x * face) + 2 * cf + s + x) * k1,
        ;
        assert(an * m3 == 2 * ((s * x) * (s * an))) by (nonlinear_arith)
            requires
                m3 == 2 * ((s * x) * s),
        ;
    }
    let d = 4 * ssx;
    let e = residual_error_bound(v, x);
    assert(d > 0) by (nonlinear_arith)
        requires
            d == 4 * (s * s * x),
            s > 0,
            x > 0,
    ;
    assert(slack < d * e) by (nonlinear_arith)
        requires
            e == slack / d + 1,
            d > 0,
    ;
    assert(d * target == 4 * (ssx * target)) by (nonlinear_arith)
        requires
            d == 4 * ssx,
    ;
    assert(-(e * an) <= target <= e * an) by (nonlinear_arith)
        requires
            -(an * slack) <= d * target <= an * slack,
            slack < d * e,
            d > 0,
            an > 0,
    ;
}

/// A whole number of billionths that repricing at a solved yield stays
/// within of the price the yield was solved from: the error bounds of the
/// price and of the residual, the tolerance times the largest speed of
/// the present value, and the tolerance and a half times the slope.
pub open spec fn round_trip_bound(v: BondView, x: int, y: int, tolerance: int) -> int {
    price_error_bound(BondView { yield_to_maturity: y, ..v }) + residual_error_bound(v, x) + (
    value_speed(v) * tolerance) / (2 * (v.frequency * v.frequency)) + 1 + (magnitude(
        residual_slope(v, x)->Ok_0,
    ) * (2 * tolerance + 1)) / (2 * SCALE)
}

/// Solving for the yield and pricing at it returns to the price: if the
/// yield solver converged to the positive yield `y` from the positive
/// iterate `x`, the price at `y` is within `round_trip_bound` billionths of
/// the price that the yield was solved from.
pub proof fn lemma_round_trip(v: BondView, x: int, y: int, tolerance: int, epsilon: int, p: int)
    requires
        valid_terms(v),
        periods(v) <= SCALE,
        x > 0,
        y > 0,
        converged_step(v, x, y, tolerance, epsilon),
        price_of(BondView { yield_to_maturity: y, ..v }) == Ok::<int, Fault>(p),
    ensures
        magnitude(p - v.price) <= round_trip_bound(v, x, y, tolerance),
{
    let at_x = BondView { yield_to_maturity: x, ..v };
    let at_y = BondView { yield_to_maturity: y, ..v };
    let zx = present_value_denominator(at_x);
    let zy = present_value_denominator(at_y);
    let nx = present_value_numerator(at_x);
    let ny = present_value_numerator(at_y);
    let b = v.frequency;
    let bb = 2 * (b * b);
    let speed = value_speed(v);
    lemma_converged_step_has_small_residual(v, x, y, tolerance, epsilon);
    let r = residual(v, x)->Ok_0;
    let slope = residual_slope(v, x)->Ok_0;
    let alt = r + v.price;
    lemma_price_accuracy(at_y, p);
    lemma_residual_accuracy(v, x, r);
    let e1 = price_error_bound(at_y);
    let e3 = residual_error_bound(v, x);
    let e2 = (speed * tolerance) / bb + 1;
    let q = magnitude(slope) * (2 * tolerance + 1);
    let e4 = q / (2 * SCALE);
    // The residual at x.
    let mr = magnitude(r);
    assert(mr <= e4) by (nonlinear_arith)
        requires
            2 * (SCALE * mr) <= q,
            e4 == q / (2 * SCALE),
            SCALE == 1_000_000_000,
    ;
    // The exact present values at x and at y.
    let zz = zx * zy;
    let gap = nx * zy - ny * zx;
    let move_ = magnitude(y - x);
    assert(value_speed(at_x) == speed && value_speed(at_y) == speed);
    assert(bb > 0 && zz > 0 && speed >= 0) by (nonlinear_arith)
        requires
            bb == 2 * (b * b),
            b > 0,
            zz == zx * zy,
            zx > 0,
            zy > 0,
            speed == v.face_value * (periods(v) * (2 * b + v.coupon * (periods(v) + 1))),
            v.face_value > 0,
            v.coupon >= 0,
    ;
    assert(-(speed * (move_ * zz)) <= bb * gap <= speed * (move_ * zz)) by {
        if x <= y {
            lemma_present_value_lipschitz(at_x, at_y);
            assert(0 <= speed * ((y - x) * zz)) by (nonlinear_arith)
                requires
                    speed >= 0,
                    y - x >= 0,
                    zz > 0,
            ;
        } else {
            lemma_present_value_lipschitz(at_y, at_x);
            assert(zy * zx == zz) by (nonlinear_arith)
                requires
                    zz == zx * zy,
            ;
            let back = ny * zx - nx * zy;
            assert(bb * gap == -(bb * back)) by (nonlinear_arith)
                requires
                    gap == -back,
            ;
            assert(0 <= speed * ((x - y) * zz)) by (nonlinear_arith)
                requires
                    speed >= 0,
                    x - y >= 0,
                    zz > 0,
            ;
        }
    }
    assert(speed * (move_ * zz) <= (speed * tolerance) * zz) by (nonlinear_arith)
        requires
            0 <= move_ <= tolerance,
            speed >= 0,
            zz > 0,
    ;
    let st = speed * tolerance;
    assert(st < bb * e2) by (nonlinear_arith)
        requires
            e2 == st / bb + 1,
            bb > 0,
    ;
    assert(-(e2 * zz) <= gap <= e2 * zz) by (nonlinear_arith)
        requires
            -(st * zz) <= bb * gap <= st * zz,
            st < bb * e2,
            bb > 0,
            zz > 0,
    ;
    // The three together.
    let u1 = p * zy - ny;
    let u3 = alt * zx - nx;
    assert((p - alt) * zz == u1 * zx - gap - u3 * zy) by (nonlinear_arith)
        requires
            zz == zx * zy,
            u1 == p * zy - ny,
            u3 == alt * zx - nx,
            gap == nx * zy - ny * zx,
    ;
    assert(-(e1 * zz) <= u1 * zx <= e1 * zz) by (nonlinear_arith)
        requires
            -(e1 * zy) <= u1 <= e1 * zy,
            zz == zx * zy,
            zx > 0,
    ;
    assert(-(e3 * zz) <= u3 * zy <= e3 * zz) by (nonlinear_arith)
        requires
            -(e3 * zx) <= u3 <= e3 * zx,
            zz == zx * zy,
            zy > 0,
    ;
    let e = e1 + e2 + e3;
    assert(e * zz == e1 * zz + e2 * zz + e3 * zz) by (nonlinear_arith)
        requires
            e == e1 + e2 + e3,
    ;
    let diff = p - alt;
    assert(-e <= diff <= e) by (nonlinear_arith)
        requires
            -(e * zz) <= diff * zz <= e * zz,
            zz > 0,
    ;
}

/// The rounded current yield is close to the exact one: it differs from
/// `100 * face * coupon / price` by no more than fifty billionths and
/// another fifty divided by the price.
pub proof fn lemma_current_yield_accuracy(v: BondView, y: int)
    requires
        current_yield_of(v) == Ok::<int, Fault>(y),
    ensures
        v.price != 0,
        magnitude(y * v.price - 100 * (v.face_value * v.coupon)) <= 50 * (magnitude(v.price)
            + SCALE),
{
    let s = SCALE as int;
    let fc = v.face_value * v.coupon;
    let m = fx_mul(v.face_value, v.coupon);
    let d = fx_div(m, v.price);
    let price = v.price;
    lemma_round_div_error(fc, s);
    lemma_round_div_error_signed(m * s, price);
    assert(d * (100 * s) == (100 * d) * s) by (nonlinear_arith);
    lemma_round_div_exact(100 * d, s);
    assert(y == 100 * d);
    assert(y * price == 100 * (price * d)) by (nonlinear_arith)
        requires
            y == 100 * d,
    ;
    assert(m * s == s * m) by (nonlinear_arith);
}

} // verus!
