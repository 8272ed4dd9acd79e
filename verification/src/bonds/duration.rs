//! The exact Macaulay duration, as a fraction of integers, and how far the
//! rounded duration can be from it.

use crate::bonds::accuracy::lemma_power_error;
use crate::bonds::exact::lemma_pow_base_order;
use crate::bonds::model::lemma_periods_positive;
use crate::bonds::model::macaulay_of;
use crate::bonds::model::modified_of;
use crate::bonds::model::sensitivity_of;
use crate::bonds::model::periods;
use crate::bonds::model::valid_terms;
use crate::bonds::model::BondView;
use crate::fixed::fx_div;
use crate::fixed::fx_mul;
use crate::fixed::fx_pow;
use crate::fixed::lemma_power_at_least_one;
use crate::fixed::lemma_round_div_error;
use crate::fixed::lemma_round_div_exact;
use crate::fixed::lemma_round_div_nonnegative;
use crate::fixed::magnitude;
use crate::fixed::Fault;
use crate::fixed::SCALE;
use vstd::arithmetic::power::pow;
use vstd::prelude::*;

verus! {

/// The numbers that the duration formula passes through.
pub struct DurationSteps {
    /// Half the coupon rate.
    pub half_coupon: int,
    /// Half the yield.
    pub half_yield: int,
    /// The frequency times half the yield.
    pub periodic_yield: int,
    /// The first term: one plus half the yield, over the periodic yield.
    pub lead: int,
    /// The frequency times half the coupon rate.
    pub periodic_coupon: int,
    /// One plus half the yield, to the power of the number of periods.
    pub growth: int,
    /// The numerator of the second term.
    pub numerator: int,
    /// The denominator of the second term.
    pub denominator: int,
    /// The second term.
    pub tail: int,
}

/// The steps of the duration of `v`; meaningful when `macaulay_of(v)` is a
/// number.
pub open spec fn duration_steps(v: BondView) -> DurationSteps {
    let half_coupon = fx_div(v.coupon, 2 * SCALE);
    let half_yield = fx_div(v.yield_to_maturity, 2 * SCALE);
    let periodic_yield = fx_mul(v.frequency, half_yield);
    let periodic_coupon = fx_mul(v.frequency, half_coupon);
    let growth = fx_pow(SCALE + half_yield, periods(v))->Ok_0;
    let numerator = SCALE + half_yield + fx_mul(
        fx_mul(v.maturity, v.frequency),
        half_coupon - half_yield,
    );
    let denominator = fx_mul(periodic_coupon, growth - SCALE) + periodic_yield;
    DurationSteps {
        half_coupon,
        half_yield,
        periodic_yield,
        lead: fx_div(SCALE + half_yield, periodic_yield),
        periodic_coupon,
        growth,
        numerator,
        denominator,
        tail: fx_div(numerator, denominator),
    }
}

/// Rounded halving is within half a unit: `|2 * (x / 2) - x| <= 1`.
pub proof fn lemma_half_error(x: int)
    ensures
        -1 <= 2 * fx_div(x, 2 * SCALE) - x <= 1,
{
    let s = SCALE as int;
    let h = fx_div(x, 2 * s);
    lemma_round_div_error(x * s, 2 * s);
    assert(-1 <= 2 * h - x <= 1) by (nonlinear_arith)
        requires
            2 * ((2 * s) * h) - 2 * s <= 2 * (x * s) <= 2 * ((2 * s) * h) + 2 * s,
            s > 0,
    ;
}

/// The error of the first term of the duration, from the errors of its
/// steps: with `a = 2s + yy`, the term `lead` is close to
/// `s^2 * a / (f * yy)`.
proof fn lemma_lead_error(s: int, f: int, yy: int, y: int, fy: int, lead: int, a: int)
    requires
        s > 0,
        f > 0,
        y >= 0,
        fy > 0,
        a == 2 * s + yy,
        -1 <= 2 * y - yy <= 1,
        -s <= 2 * (s * fy) - 2 * (f * y) <= s,
        -fy <= 2 * (fy * lead) - 2 * ((s + y) * s) <= fy,
    ensures
        lead >= 0,
        -(s * s + s * fy + lead * (s + f)) <= lead * (f * yy) - (s * s) * a <= s * s + s * fy + lead
            * (s + f),
{
    let delta = 2 * y - yy;
    let ea = 2 * (s * fy) - 2 * (f * y);
    let eb = 2 * (fy * lead) - 2 * ((s + y) * s);
    let ss = s * s;
    let ys = (s + y) * s;
    assert(ys >= 0) by (nonlinear_arith)
        requires
            ys == (s + y) * s,
            s > 0,
            y >= 0,
    ;
    assert(lead >= 0) by (nonlinear_arith)
        requires
            -fy <= 2 * (fy * lead) - 2 * ys,
            ys >= 0,
            fy > 0,
    ;
    let fyy = f * yy;
    let fd = f * delta;
    let sfy = s * fy;
    assert(fyy == 2 * (f * y) - fd) by (nonlinear_arith)
        requires
            fyy == f * yy,
            fd == f * delta,
            delta == 2 * y - yy,
    ;
    assert(fyy == 2 * sfy - ea - fd);
    assert(lead * fyy == 2 * (lead * sfy) - lead * ea - lead * fd) by (nonlinear_arith)
        requires
            fyy == 2 * sfy - ea - fd,
    ;
    assert(lead * sfy == s * (fy * lead)) by (nonlinear_arith)
        requires
            sfy == s * fy,
    ;
    assert(2 * ys == s * a + delta * s) by (nonlinear_arith)
        requires
            ys == (s + y) * s,
            a == 2 * s + yy,
            delta == 2 * y - yy,
    ;
    let fl = fy * lead;
    assert(2 * fl == s * a + delta * s + eb);
    assert(s * (2 * fl) == ss * a + ss * delta + s * eb) by (nonlinear_arith)
        requires
            2 * fl == s * a + delta * s + eb,
            ss == s * s,
    ;
    assert(s * (2 * fl) == 2 * (s * fl)) by (nonlinear_arith);
    let u = lead * fyy - ss * a;
    assert(u == ss * delta + s * eb - lead * ea - lead * fd);
    assert(-ss <= ss * delta <= ss) by (nonlinear_arith)
        requires
            -1 <= delta <= 1,
            ss == s * s,
            s > 0,
    ;
    assert(-(s * fy) <= s * eb <= s * fy) by (nonlinear_arith)
        requires
            -fy <= eb <= fy,
            s > 0,
    ;
    assert(-(lead * s) <= lead * ea <= lead * s) by (nonlinear_arith)
        requires
            -s <= ea <= s,
            lead >= 0,
    ;
    assert(-(lead * f) <= lead * fd <= lead * f) by (nonlinear_arith)
        requires
            fd == f * delta,
            -1 <= delta <= 1,
            f > 0,
            lead >= 0,
    ;
    assert(lead * (s + f) == lead * s + lead * f) by (nonlinear_arith);
}

/// The error of the denominator of the second term, from the errors of
/// its steps: with `w = cc * (an - bn) + yy * bn`, the denominator
/// `t + fy` is close to `f * w / (2 * s * bn)`.
proof fn lemma_denominator_error(
    s: int,
    f: int,
    cc: int,
    yy: int,
    c: int,
    y: int,
    fy: int,
    fc: int,
    pw: int,
    t: int,
    an: int,
    bn: int,
    n: int,
)
    requires
        s > 0,
        f > 0,
        cc >= 0,
        yy > 0,
        n >= 0,
        0 < bn <= an,
        -1 <= 2 * c - cc <= 1,
        -1 <= 2 * y - yy <= 1,
        -s <= 2 * (s * fy) - 2 * (f * y) <= s,
        -s <= 2 * (s * fc) - 2 * (f * c) <= s,
        -s <= 2 * (s * t) - 2 * (fc * (pw - s)) <= s,
        -(2 * n * an) <= pw * bn - s * an <= 2 * n * an,
    ensures
        ({
            let w = cc * (an - bn) + yy * bn;
            let eta = 4 * ((s * s) * ((t + fy) * bn)) - 2 * (s * (f * w));
            let eta0 = 4 * (n * (f * cc)) + 2 * ((f + s) * s) + 4 * (n * (f + s)) + 2 * (s * s) + 2
                * (s * (f + s));
            -(an * eta0) <= eta <= an * eta0
        }),
{
    let dc = 2 * c - cc;
    let dy = 2 * y - yy;
    let ec = 2 * (s * fc) - 2 * (f * c);
    let ea = 2 * (s * fy) - 2 * (f * y);
    let pm = pw - s;
    let ed = 2 * (s * t) - 2 * (fc * pm);
    let err = pw * bn - s * an;
    let fcc = f * cc;
    let fyy = f * yy;
    let d = an - bn;
    let sd = s * d;
    let sbn = s * bn;
    let ss = s * s;
    let tb = t * bn;
    let fyb = fy * bn;
    let pmb = pm * bn;
    let sfc = s * fc;
    let sfy = s * fy;
    let w = cc * d + yy * bn;
    let eps2 = 2 * sfc - fcc;
    let eps1 = 2 * sfy - fyy;
    assert(2 * (f * c) == fcc + f * dc && 2 * (f * y) == fyy + f * dy) by (nonlinear_arith)
        requires
            fcc == f * cc,
            fyy == f * yy,
            dc == 2 * c - cc,
            dy == 2 * y - yy,
    ;
    assert(-f <= f * dc <= f && -f <= f * dy <= f) by (nonlinear_arith)
        requires
            -1 <= dc <= 1,
            -1 <= dy <= 1,
            f > 0,
    ;
    assert(-(s + f) <= eps2 <= s + f);
    assert(-(s + f) <= eps1 <= s + f);
    // The growth less one, times b^n.
    assert(pmb == sd + err) by (nonlinear_arith)
        requires
            pmb == (pw - s) * bn,
            sd == s * (an - bn),
            err == pw * bn - s * an,
    ;
    // The product of the periodic coupon and the growth less one.
    assert(sbn * (s * t) == ss * tb && sbn * (fc * pm) == sfc * pmb) by (nonlinear_arith)
        requires
            sbn == s * bn,
            ss == s * s,
            tb == t * bn,
            sfc == s * fc,
            pmb == pm * bn,
    ;
    assert(sbn * ed == 2 * (sbn * (s * t)) - 2 * (sbn * (fc * pm))) by (nonlinear_arith)
        requires
            ed == 2 * (s * t) - 2 * (fc * pm),
    ;
    assert(2 * (ss * tb) == sbn * ed + 2 * (sfc * pmb));
    assert((2 * sfc) * pmb == fcc * sd + fcc * err + eps2 * sd + eps2 * err) by (nonlinear_arith)
        requires
            2 * sfc == fcc + eps2,
            pmb == sd + err,
    ;
    assert((2 * sfc) * pmb == 2 * (sfc * pmb)) by (nonlinear_arith);
    // The periodic yield.
    assert(sbn * sfy == ss * fyb) by (nonlinear_arith)
        requires
            sbn == s * bn,
            ss == s * s,
            fyb == fy * bn,
            sfy == s * fy,
    ;
    assert(sbn * (2 * sfy) == sbn * fyy + sbn * eps1) by (nonlinear_arith)
        requires
            2 * sfy == fyy + eps1,
    ;
    assert(sbn * (2 * sfy) == 2 * (sbn * sfy)) by (nonlinear_arith);
    // The exact denominator.
    assert(f * w == fcc * d + fyy * bn) by (nonlinear_arith)
        requires
            w == cc * d + yy * bn,
            fcc == f * cc,
            fyy == f * yy,
    ;
    assert(s * (fcc * d) == fcc * sd && s * (fyy * bn) == sbn * fyy) by (nonlinear_arith)
        requires
            sd == s * d,
            sbn == s * bn,
    ;
    assert(s * (f * w) == s * (fcc * d) + s * (fyy * bn)) by (nonlinear_arith)
        requires
            f * w == fcc * d + fyy * bn,
    ;
    assert(ss * ((t + fy) * bn) == ss * tb + ss * fyb) by (nonlinear_arith)
        requires
            tb == t * bn,
            fyb == fy * bn,
    ;
    let eta = 4 * (ss * ((t + fy) * bn)) - 2 * (s * (f * w));
    assert(eta == 2 * (fcc * err) + 2 * (eps2 * sd) + 2 * (eps2 * err) + 2 * (sbn * ed) + 2 * (sbn
        * eps1));
    // The five terms, bounded.
    let na = n * an;
    let sa = s * an;
    assert(0 <= sd <= sa && 0 < sbn <= sa) by (nonlinear_arith)
        requires
            sd == s * (an - bn),
            sbn == s * bn,
            sa == s * an,
            s > 0,
            0 < bn <= an,
    ;
    assert(fcc >= 0) by (nonlinear_arith)
        requires
            fcc == f * cc,
            f > 0,
            cc >= 0,
    ;
    assert(na >= 0) by (nonlinear_arith)
        requires
            na == n * an,
            n >= 0,
            an > 0,
    ;
    assert(-(2 * na) <= err <= 2 * na) by (nonlinear_arith)
        requires
            -(2 * n * an) <= err <= 2 * n * an,
            na == n * an,
    ;
    assert(-(2 * (fcc * na)) <= fcc * err <= 2 * (fcc * na)) by (nonlinear_arith)
        requires
            -(2 * na) <= err <= 2 * na,
            fcc >= 0,
    ;
    assert(-((s + f) * sa) <= eps2 * sd <= (s + f) * sa) by (nonlinear_arith)
        requires
            -(s + f) <= eps2 <= s + f,
            0 <= sd <= sa,
            s > 0,
            f > 0,
    ;
    assert(-(2 * ((s + f) * na)) <= eps2 * err <= 2 * ((s + f) * na)) by (nonlinear_arith)
        requires
            -(s + f) <= eps2 <= s + f,
            -(2 * na) <= err <= 2 * na,
            na >= 0,
            s > 0,
            f > 0,
    ;
    assert(-(s * sa) <= sbn * ed <= s * sa) by (nonlinear_arith)
        requires
            -s <= ed <= s,
            0 < sbn <= sa,
            s > 0,
    ;
    assert(-((s + f) * sa) <= sbn * eps1 <= (s + f) * sa) by (nonlinear_arith)
        requires
            -(s + f) <= eps1 <= s + f,
            0 < sbn <= sa,
            s > 0,
            f > 0,
    ;
    let eta0 = 4 * (n * (f * cc)) + 2 * ((f + s) * s) + 4 * (n * (f + s)) + 2 * (s * s) + 2 * (s
        * (f + s));
    assert(an * eta0 == 4 * (fcc * na) + 2 * ((s + f) * sa) + 4 * ((s + f) * na) + 2 * (s * sa) + 2
        * ((s + f) * sa)) by {
        assert(an * (n * fcc) == fcc * na) by (nonlinear_arith)
            requires
                na == n * an,
        ;
        assert(an * ((f + s) * s) == (s + f) * sa) by (nonlinear_arith)
            requires
                sa == s * an,
        ;
        assert(an * (n * (f + s)) == (s + f) * na) by (nonlinear_arith)
            requires
                na == n * an,
        ;
        assert(an * (s * s) == s * sa) by (nonlinear_arith)
            requires
                sa == s * an,
        ;
        assert(an * (s * (f + s)) == (s + f) * sa) by (nonlinear_arith)
            requires
                sa == s * an,
        ;
        let m1 = n * fcc;
        let m2 = (f + s) * s;
        let m3 = n * (f + s);
        let m4 = s * s;
        let m5 = s * (f + s);
        assert(eta0 == 4 * m1 + 2 * m2 + 4 * m3 + 2 * m4 + 2 * m5);
        assert(an * eta0 == 4 * (an * m1) + 2 * (an * m2) + 4 * (an * m3) + 2 * (an * m4) + 2 * (an
            * m5)) by (nonlinear_arith)
            requires
                eta0 == 4 * m1 + 2 * m2 + 4 * m3 + 2 * m4 + 2 * m5,
        ;
    }
}

/// The error of the second term of the duration, from the errors of its
/// steps: with `nn = a + n * (cc - yy)`, the term `tail` is close to
/// `s^2 * nn * bn / (f * w)`.
proof fn lemma_tail_error(
    s: int,
    f: int,
    n: int,
    cc: int,
    yy: int,
    c: int,
    y: int,
    a: int,
    numerator: int,
    den: int,
    tail: int,
    bn: int,
    w: int,
    eta_bound: int,
)
    requires
        s > 0,
        f > 0,
        n >= 0,
        bn > 0,
        den > 0,
        a == 2 * s + yy,
        -1 <= 2 * c - cc <= 1,
        -1 <= 2 * y - yy <= 1,
        numerator == s + y + n * (c - y),
        -den <= 2 * (den * tail) - 2 * (numerator * s) <= den,
        -eta_bound <= 4 * ((s * s) * (den * bn)) - 2 * (s * (f * w)) <= eta_bound,
    ensures
        ({
            let limit = 2 * ((s * (s * s)) * bn) * (2 * n + 1) + 2 * ((s * s) * (bn * den))
                + eta_bound * (if tail < 0 {
                -tail
            } else {
                tail
            });
            let u = tail * (f * w) - (s * s) * ((a + n * (cc - yy)) * bn);
            -limit <= 2 * (s * u) <= limit
        }),
{
    let dc = 2 * c - cc;
    let dy = 2 * y - yy;
    let nn = a + n * (cc - yy);
    let nu = 2 * numerator - nn;
    let ss = s * s;
    let sss = s * ss;
    let ef = 2 * (den * tail) - 2 * (numerator * s);
    let db = den * bn;
    let eta = 4 * (ss * db) - 2 * (s * (f * w));
    let fw = f * w;
    let sfw = s * fw;
    let mt = if tail < 0 {
        -tail
    } else {
        tail
    };
    let ssb = ss * bn;
    let sssb = sss * bn;
    // Twice the rounded numerator is the exact one up to the halvings.
    assert(nu == dy + n * (dc - dy)) by (nonlinear_arith)
        requires
            nu == 2 * numerator - nn,
            numerator == s + y + n * (c - y),
            nn == a + n * (cc - yy),
            a == 2 * s + yy,
            dc == 2 * c - cc,
            dy == 2 * y - yy,
    ;
    assert(-(2 * n + 1) <= nu <= 2 * n + 1) by (nonlinear_arith)
        requires
            nu == dy + n * (dc - dy),
            -1 <= dc <= 1,
            -1 <= dy <= 1,
            n >= 0,
    ;
    // The rounded quotient, times the exact denominator.
    assert(tail * (2 * sfw) == tail * (4 * (ss * db)) - tail * eta) by (nonlinear_arith)
        requires
            eta == 4 * (ss * db) - 2 * sfw,
    ;
    assert(tail * (ss * db) == ssb * (den * tail)) by (nonlinear_arith)
        requires
            db == den * bn,
            ssb == ss * bn,
    ;
    assert(tail * (4 * (ss * db)) == 4 * (tail * (ss * db))) by (nonlinear_arith);
    assert(ssb * (2 * (den * tail)) == ssb * (2 * (numerator * s)) + ssb * ef) by (nonlinear_arith)
        requires
            ef == 2 * (den * tail) - 2 * (numerator * s),
    ;
    assert(ssb * (2 * (den * tail)) == 2 * (ssb * (den * tail))) by (nonlinear_arith);
    assert(ssb * (2 * (numerator * s)) == sssb * (2 * numerator)) by (nonlinear_arith)
        requires
            ssb == ss * bn,
            sssb == (s * ss) * bn,
    ;
    assert(tail * (2 * sfw) == 2 * (sssb * (2 * numerator)) + 2 * (ssb * ef) - tail * eta);
    assert(sssb * (2 * numerator) == sssb * nn + sssb * nu) by (nonlinear_arith)
        requires
            nu == 2 * numerator - nn,
    ;
    let u = tail * fw - ss * (nn * bn);
    assert(s * u == s * (tail * fw) - s * (ss * (nn * bn))) by (nonlinear_arith)
        requires
            u == tail * fw - ss * (nn * bn),
    ;
    assert(s * (tail * fw) == tail * sfw) by (nonlinear_arith)
        requires
            sfw == s * fw,
    ;
    assert(tail * (2 * sfw) == 2 * (tail * sfw)) by (nonlinear_arith);
    assert(s * (ss * (nn * bn)) == sssb * nn) by (nonlinear_arith)
        requires
            sssb == (s * ss) * bn,
    ;
    assert(2 * (s * u) == 2 * (sssb * nu) + 2 * (ssb * ef) - tail * eta);
    // The three terms, bounded.
    assert(sssb > 0 && ssb > 0) by (nonlinear_arith)
        requires
            sssb == (s * (s * s)) * bn,
            ssb == (s * s) * bn,
            s > 0,
            bn > 0,
    ;
    assert(-(sssb * (2 * n + 1)) <= sssb * nu <= sssb * (2 * n + 1)) by (nonlinear_arith)
        requires
            -(2 * n + 1) <= nu <= 2 * n + 1,
            sssb > 0,
    ;
    assert(-(ssb * den) <= ssb * ef <= ssb * den) by (nonlinear_arith)
        requires
            -den <= ef <= den,
            ssb > 0,
    ;
    assert(ssb * den == ss * (bn * den)) by (nonlinear_arith)
        requires
            ssb == ss * bn,
    ;
    assert(-(eta_bound * mt) <= tail * eta <= eta_bound * mt) by (nonlinear_arith)
        requires
            -eta_bound <= eta <= eta_bound,
            mt == if tail < 0 {
                -tail
            } else {
                tail
            },
    ;
    assert(2 * sssb * (2 * n + 1) == 2 * (sssb * (2 * n + 1))) by (nonlinear_arith);
}

/// The two errors together: the error of the duration, from the errors of
/// its two terms.
proof fn lemma_duration_error(
    s: int,
    k: int,
    yy: int,
    w: int,
    an: int,
    bn: int,
    pw: int,
    ua: int,
    uc: int,
    ba: int,
    x1: int,
    x2: int,
)
    requires
        s > 0,
        k > 0,
        yy > 0,
        0 < bn,
        0 < an,
        yy * bn <= w,
        k * an <= bn * pw,
        pw >= 0,
        x1 >= 0,
        x2 >= 0,
        -ba <= ua <= ba,
        -(bn * x1 + an * x2) <= 2 * (s * uc) <= bn * x1 + an * x2,
    ensures
        -(w * (2 * (s * k) * ba + k * x1 + pw * x2)) <= 2 * (s * k) * (w * ua - yy * uc) <= w * (2
            * (s * k) * ba + k * x1 + pw * x2),
{
    let sk = s * k;
    let ky = k * yy;
    let h = 2 * (s * uc);
    let ybn = yy * bn;
    let lim = bn * x1 + an * x2;
    assert(w > 0 && ybn > 0) by (nonlinear_arith)
        requires
            ybn == yy * bn,
            ybn <= w,
            yy > 0,
            bn > 0,
    ;
    assert(sk > 0 && ky > 0) by (nonlinear_arith)
        requires
            sk == s * k,
            ky == k * yy,
            s > 0,
            k > 0,
            yy > 0,
    ;
    // The first term.
    let wa = w * ua;
    assert(-(w * ba) <= wa <= w * ba) by (nonlinear_arith)
        requires
            wa == w * ua,
            -ba <= ua <= ba,
            w > 0,
    ;
    // The second term.
    assert(2 * sk * (yy * uc) == ky * h) by (nonlinear_arith)
        requires
            sk == s * k,
            ky == k * yy,
            h == 2 * (s * uc),
    ;
    assert(-(ky * lim) <= ky * h <= ky * lim) by (nonlinear_arith)
        requires
            -lim <= h <= lim,
            ky > 0,
    ;
    let kx = k * x1 + pw * x2;
    assert(ky * lim <= ybn * kx) by {
        assert(ky * (bn * x1) == ybn * (k * x1)) by (nonlinear_arith)
            requires
                ky == k * yy,
                ybn == yy * bn,
        ;
        assert(ky * (an * x2) == (k * an) * (yy * x2)) by (nonlinear_arith)
            requires
                ky == k * yy,
        ;
        assert((k * an) * (yy * x2) <= (bn * pw) * (yy * x2)) by (nonlinear_arith)
            requires
                k * an <= bn * pw,
                yy > 0,
                x2 >= 0,
        ;
        assert((bn * pw) * (yy * x2) == ybn * (pw * x2)) by (nonlinear_arith)
            requires
                ybn == yy * bn,
        ;
        assert(ky * lim == ky * (bn * x1) + ky * (an * x2)) by (nonlinear_arith)
            requires
                lim == bn * x1 + an * x2,
        ;
        assert(ybn * kx == ybn * (k * x1) + ybn * (pw * x2)) by (nonlinear_arith)
            requires
                kx == k * x1 + pw * x2,
        ;
    }
    assert(kx >= 0) by (nonlinear_arith)
        requires
            kx == k * x1 + pw * x2,
            k > 0,
            x1 >= 0,
            pw >= 0,
            x2 >= 0,
    ;
    assert(ybn * kx <= w * kx) by (nonlinear_arith)
        requires
            ybn <= w,
            kx >= 0,
    ;
    // Together.
    let x = wa - yy * uc;
    assert(2 * sk * x == 2 * sk * wa - 2 * sk * (yy * uc)) by (nonlinear_arith)
        requires
            x == wa - yy * uc,
    ;
    assert(-(2 * sk * (w * ba)) <= 2 * sk * wa <= 2 * sk * (w * ba)) by (nonlinear_arith)
        requires
            -(w * ba) <= wa <= w * ba,
            sk > 0,
    ;
    assert(w * (2 * sk * ba + kx) == 2 * sk * (w * ba) + w * kx) by (nonlinear_arith);
}

/// The weight `w` of the exact duration: with `a = 2 * SCALE + yield` and
/// `b = 2 * SCALE`, `coupon * (a^n - b^n) + yield * b^n`.
pub open spec fn duration_weight(v: BondView) -> int {
    let a = 2 * SCALE + v.yield_to_maturity;
    let b = 2 * SCALE;
    v.coupon * (pow(a, periods(v)) - pow(b, periods(v))) + v.yield_to_maturity * pow(
        b,
        periods(v),
    )
}

/// The numerator of the exact Macaulay duration in billionths. With
/// `y = yield / 2` and `c = coupon / 2` the duration is
/// `(1 + y) / (f * y) - (1 + y + n * (c - y)) / (f * c * ((1 + y)^n - 1) + f * y)`;
/// written over one denominator, with `a = 2 * SCALE + yield`,
/// `b = 2 * SCALE` and `w` the weight, its numerator is
/// `SCALE^2 * (a * w - yield * (a + n * (coupon - yield)) * b^n)`.
pub open spec fn macaulay_numerator(v: BondView) -> int {
    let a = 2 * SCALE + v.yield_to_maturity;
    let b = 2 * SCALE;
    let n = periods(v);
    (SCALE * SCALE) * (a * duration_weight(v) - v.yield_to_maturity * ((a + n * (v.coupon
        - v.yield_to_maturity)) * pow(b, n)))
}

/// The denominator of the exact Macaulay duration:
/// `frequency * yield * w`.
pub open spec fn macaulay_denominator(v: BondView) -> int {
    (v.frequency * v.yield_to_maturity) * duration_weight(v)
}

/// The error of the denominator of the second term, per unit of `a^n` and
/// times `4 * SCALE^2`.
pub open spec fn denominator_slack(v: BondView) -> int {
    let s = SCALE as int;
    let f = v.frequency;
    let n = periods(v) as int;
    4 * (n * (f * v.coupon)) + 2 * ((f + s) * s) + 4 * (n * (f + s)) + 2 * (s * s) + 2 * (s * (f
        + s))
}

/// The error of the rounded duration, scaled: the rounded duration differs
/// from the exact one by at most `duration_slack(v)` divided by
/// `2 * SCALE * (SCALE - 2n) * frequency * yield` billionths.
pub open spec fn duration_slack(v: BondView) -> int {
    let s = SCALE as int;
    let f = v.frequency;
    let n = periods(v) as int;
    let k = s - 2 * n;
    let t = duration_steps(v);
    2 * (s * k) * (s * s + s * t.periodic_yield + t.lead * (s + f)) + k * (2 * ((s * (s * s)) * (2
        * n + 1)) + 2 * ((s * s) * t.denominator)) + t.growth * (denominator_slack(v) * magnitude(
        t.tail,
    ))
}

/// A whole number of billionths that the error of the rounded duration
/// stays within. For a bond of twenty or sixty semiannual periods with a
/// yield of some percent it is a few thousand.
pub open spec fn duration_error_bound(v: BondView) -> int {
    duration_slack(v) / (2 * (SCALE * (SCALE - 2 * periods(v))) * (v.frequency
        * v.yield_to_maturity)) + 1
}

/// A duration that is a number is the difference of the two terms of
/// [`duration_steps`], whose steps are all numbers and whose divisors are
/// not zero.
pub proof fn lemma_duration_steps(v: BondView, d: int)
    requires
        valid_terms(v),
        macaulay_of(v) == Ok::<int, Fault>(d),
    ensures
        d == duration_steps(v).lead - duration_steps(v).tail,
        duration_steps(v).periodic_yield != 0,
        duration_steps(v).denominator != 0,
        fx_pow(SCALE + duration_steps(v).half_yield, periods(v)) == Ok::<int, Fault>(
            duration_steps(v).growth,
        ),
        duration_steps(v).numerator == SCALE + duration_steps(v).half_yield + periods(v) * (
        duration_steps(v).half_coupon - duration_steps(v).half_yield),
{
    let s = SCALE as int;
    let n = periods(v) as int;
    let t = duration_steps(v);
    lemma_periods_positive(v);
    assert(v.maturity * v.frequency == (n * s) * s) by (nonlinear_arith)
        requires
            n * (s * s) == v.frequency * v.maturity,
    ;
    lemma_round_div_exact(n * s, s);
    assert(fx_mul(v.maturity, v.frequency) == n * s);
    let gap = t.half_coupon - t.half_yield;
    assert((n * s) * gap == (n * gap) * s) by (nonlinear_arith);
    lemma_round_div_exact(n * gap, s);
    assert(fx_mul(n * s, gap) == n * gap);
}

/// The rounded Macaulay duration at a positive yield, with fewer than half
/// a billion periods, is close to the exact one: they differ by at most
/// `duration_error_bound(v)` billionths.
pub proof fn lemma_macaulay_accuracy(v: BondView, d: int)
    requires
        valid_terms(v),
        v.yield_to_maturity > 0,
        2 * periods(v) < SCALE,
        macaulay_of(v) == Ok::<int, Fault>(d),
    ensures
        macaulay_denominator(v) > 0,
        -(duration_error_bound(v) * macaulay_denominator(v)) <= d * macaulay_denominator(v)
            - macaulay_numerator(v) <= duration_error_bound(v) * macaulay_denominator(v),
{
    let s = SCALE as int;
    let f = v.frequency;
    let cc = v.coupon;
    let yy = v.yield_to_maturity;
    let n = periods(v);
    let a = 2 * s + yy;
    let b = 2 * s;
    let an = pow(a, n);
    let bn = pow(b, n);
    let w = duration_weight(v);
    let t = duration_steps(v);
    let c = t.half_coupon;
    let y = t.half_yield;
    let fy = t.periodic_yield;
    let fc = t.periodic_coupon;
    let pw = t.growth;
    let den = t.denominator;
    let beta = s + y;
    let k = s - 2 * n;
    lemma_duration_steps(v, d);
    lemma_pow_base_order(b, a, n);
    // The halves and the periodic rates.
    lemma_half_error(cc);
    lemma_half_error(yy);
    assert(y >= 0 && c >= 0);
    lemma_round_div_error(f * y, s);
    lemma_round_div_error(f * c, s);
    assert(f * y >= 0 && f * c >= 0) by (nonlinear_arith)
        requires
            f > 0,
            y >= 0,
            c >= 0,
    ;
    lemma_round_div_nonnegative(f * y, s);
    lemma_round_div_nonnegative(f * c, s);
    assert(fy > 0 && fc >= 0);
    // The first term.
    lemma_round_div_error(beta * s, fy);
    lemma_lead_error(s, f, yy, y, fy, t.lead, a);
    // The growth factor.
    assert(2 * (b * beta) - 2 * (s * a) == 2 * s * (2 * y - yy)) by (nonlinear_arith)
        requires
            b == 2 * s,
            beta == s + y,
            a == 2 * s + yy,
    ;
    assert(-b <= 2 * s * (2 * y - yy) <= b) by (nonlinear_arith)
        requires
            -1 <= 2 * y - yy <= 1,
            b == 2 * s,
            s > 0,
    ;
    lemma_power_error(beta, a, b, n);
    lemma_power_at_least_one(beta, n);
    assert(pw >= s);
    // The denominator of the second term.
    let pm = pw - s;
    let tt = fx_mul(fc, pm);
    assert(fc * pm >= 0) by (nonlinear_arith)
        requires
            fc >= 0,
            pm >= 0,
    ;
    lemma_round_div_nonnegative(fc * pm, s);
    lemma_round_div_error(fc * pm, s);
    assert(den == tt + fy && den > 0);
    lemma_denominator_error(s, f, cc, yy, c, y, fy, fc, pw, tt, an, bn, n as int);
    let eta0 = denominator_slack(v);
    let eta_bound = an * eta0;
    // The second term.
    lemma_round_div_error(t.numerator * s, den);
    lemma_tail_error(
        s,
        f,
        n as int,
        cc,
        yy,
        c,
        y,
        a,
        t.numerator,
        den,
        t.tail,
        bn,
        w,
        eta_bound,
    );
    // The two together.
    let nn = a + n * (cc - yy);
    let fyy = f * yy;
    let ss = s * s;
    let ua = t.lead * fyy - ss * a;
    let uc = t.tail * (f * w) - ss * (nn * bn);
    let ba = ss + s * fy + t.lead * (s + f);
    let mt = magnitude(t.tail);
    let x1 = 2 * ((s * ss) * (2 * n + 1)) + 2 * (ss * den);
    let x2 = eta0 * mt;
    assert(eta0 >= 0) by (nonlinear_arith)
        requires
            eta0 == 4 * (n * (f * cc)) + 2 * ((f + s) * s) + 4 * (n * (f + s)) + 2 * (s * s) + 2 * (
            s * (f + s)),
            n >= 0,
            f > 0,
            cc >= 0,
            s > 0,
    ;
    assert(x1 >= 0 && x2 >= 0) by (nonlinear_arith)
        requires
            x1 == 2 * ((s * ss) * (2 * n + 1)) + 2 * (ss * den),
            x2 == eta0 * mt,
            ss == s * s,
            s > 0,
            n >= 0,
            den > 0,
            eta0 >= 0,
            mt >= 0,
    ;
    assert(2 * ((s * ss) * bn) * (2 * n + 1) + 2 * (ss * (bn * den)) + eta_bound * mt == bn * x1
        + an * x2) by {
        assert(((s * ss) * bn) * (2 * n + 1) == bn * ((s * ss) * (2 * n + 1))) by (nonlinear_arith);
        assert(ss * (bn * den) == bn * (ss * den)) by (nonlinear_arith);
        assert(eta_bound * mt == an * x2) by (nonlinear_arith)
            requires
                eta_bound == an * eta0,
                x2 == eta0 * mt,
        ;
        assert(bn * x1 == 2 * (bn * ((s * ss) * (2 * n + 1))) + 2 * (bn * (ss * den)))
            by (nonlinear_arith)
            requires
                x1 == 2 * ((s * ss) * (2 * n + 1)) + 2 * (ss * den),
        ;
        assert(2 * ((s * ss) * bn) * (2 * n + 1) == 2 * (((s * ss) * bn) * (2 * n + 1)))
            by (nonlinear_arith);
    }
    assert(k * an <= bn * pw) by (nonlinear_arith)
        requires
            -(2 * n * an) <= pw * bn - s * an,
            k == s - 2 * n,
    ;
    assert(yy * bn <= w) by (nonlinear_arith)
        requires
            w == cc * (an - bn) + yy * bn,
            cc >= 0,
            bn <= an,
    ;
    lemma_duration_error(s, k, yy, w, an, bn, pw, ua, uc, ba, x1, x2);
    // The exact duration over one denominator.
    let x = d * macaulay_denominator(v) - macaulay_numerator(v);
    assert(x == w * ua - yy * uc) by {
        let l = t.lead;
        let r = t.tail;
        let nb = nn * bn;
        assert(d * (fyy * w) == l * (fyy * w) - r * (fyy * w)) by (nonlinear_arith)
            requires
                d == l - r,
        ;
        assert(l * (fyy * w) == w * (l * fyy)) by (nonlinear_arith);
        assert(r * (fyy * w) == yy * (r * (f * w))) by (nonlinear_arith)
            requires
                fyy == f * yy,
        ;
        assert(w * ua == w * (l * fyy) - w * (ss * a)) by (nonlinear_arith)
            requires
                ua == l * fyy - ss * a,
        ;
        assert(yy * uc == yy * (r * (f * w)) - yy * (ss * nb)) by (nonlinear_arith)
            requires
                uc == r * (f * w) - ss * nb,
        ;
        assert(ss * (a * w - yy * nb) == w * (ss * a) - yy * (ss * nb)) by (nonlinear_arith);
    }
    // In whole billionths.
    let sk2 = 2 * (s * k);
    let slack = duration_slack(v);
    assert(slack == sk2 * ba + k * x1 + pw * x2) by (nonlinear_arith)
        requires
            slack == 2 * (s * k) * ba + k * x1 + pw * (eta0 * mt),
            sk2 == 2 * (s * k),
            x2 == eta0 * mt,
    ;
    let e = duration_error_bound(v);
    let dd = sk2 * fyy;
    assert(sk2 > 0 && fyy > 0 && dd > 0 && w > 0) by (nonlinear_arith)
        requires
            sk2 == 2 * (s * k),
            fyy == f * yy,
            dd == sk2 * fyy,
            s > 0,
            k > 0,
            f > 0,
            yy > 0,
            yy * bn <= w,
            bn > 0,
    ;
    assert(slack < dd * e) by (nonlinear_arith)
        requires
            e == slack / dd + 1,
            dd > 0,
    ;
    let zd = fyy * w;
    assert(zd > 0) by (nonlinear_arith)
        requires
            zd == fyy * w,
            fyy > 0,
            w > 0,
    ;
    assert(-(e * zd) <= x <= e * zd) by (nonlinear_arith)
        requires
            -(w * slack) <= sk2 * x <= w * slack,
            slack < sk2 * fyy * e,
            zd == fyy * w,
            sk2 > 0,
            fyy > 0,
            w > 0,
    ;
}

/// The numerator of the exact modified duration: the exact Macaulay
/// duration divided by `1 + yield / frequency`, over one denominator.
pub open spec fn modified_numerator(v: BondView) -> int {
    macaulay_numerator(v) * v.frequency
}

/// The denominator of the exact modified duration.
pub open spec fn modified_denominator(v: BondView) -> int {
    macaulay_denominator(v) * (v.frequency + v.yield_to_maturity)
}

/// The rounded modified duration of `v`; meaningful when `modified_of(v)`
/// is a number.
pub open spec fn modified_value(v: BondView) -> int {
    fx_div(
        duration_steps(v).lead - duration_steps(v).tail,
        SCALE + fx_div(v.yield_to_maturity, v.frequency),
    )
}

/// A whole number of billionths that the error of the rounded modified
/// duration stays within: the bound of the Macaulay duration and what the
/// division adds.
pub open spec fn modified_error_bound(v: BondView) -> int {
    duration_error_bound(v) + (SCALE + fx_div(v.yield_to_maturity, v.frequency) + magnitude(
        modified_value(v),
    )) / (2 * SCALE) + 1
}

/// The rounded modified duration at a positive yield, with fewer than half
/// a billion periods, is close to the exact one: they differ by at most
/// `modified_error_bound(v)` billionths.
pub proof fn lemma_modified_accuracy(v: BondView, m: int)
    requires
        valid_terms(v),
        v.yield_to_maturity > 0,
        2 * periods(v) < SCALE,
        modified_of(v) == Ok::<int, Fault>(m),
    ensures
        modified_denominator(v) > 0,
        m == modified_value(v),
        -(modified_error_bound(v) * modified_denominator(v)) <= m * modified_denominator(v)
            - modified_numerator(v) <= modified_error_bound(v) * modified_denominator(v),
{
    let s = SCALE as int;
    let f = v.frequency;
    let yy = v.yield_to_maturity;
    let d = macaulay_of(v)->Ok_0;
    lemma_macaulay_accuracy(v, d);
    lemma_duration_steps(v, d);
    let z = macaulay_denominator(v);
    let num = macaulay_numerator(v);
    let ed = duration_error_bound(v);
    let rho = fx_div(yy, f);
    let beta = s + rho;
    assert(yy * s >= 0) by (nonlinear_arith)
        requires
            yy > 0,
            s > 0,
    ;
    lemma_round_div_nonnegative(yy * s, f);
    lemma_round_div_error(yy * s, f);
    lemma_round_div_error(d * s, beta);
    let er = 2 * (f * rho) - 2 * (yy * s);
    let em = 2 * (beta * m) - 2 * (d * s);
    let mm = magnitude(m);
    let fa = f + yy;
    // 2s * ((f + y) * m - f * d) = f * em - er * m
    let g = fa * m - f * d;
    assert(2 * (f * beta) == 2 * (s * fa) + er) by (nonlinear_arith)
        requires
            beta == s + rho,
            fa == f + yy,
            er == 2 * (f * rho) - 2 * (yy * s),
    ;
    assert((2 * (f * beta)) * m == f * (2 * (beta * m))) by (nonlinear_arith);
    assert((2 * (s * fa) + er) * m == 2 * (s * (fa * m)) + er * m) by (nonlinear_arith);
    assert(f * (2 * (beta * m)) == 2 * (s * (f * d)) + f * em) by (nonlinear_arith)
        requires
            em == 2 * (beta * m) - 2 * (d * s),
    ;
    assert(s * g == s * (fa * m) - s * (f * d)) by (nonlinear_arith)
        requires
            g == fa * m - f * d,
    ;
    assert(2 * (s * g) == f * em - er * m);
    assert(-(f * beta) <= f * em <= f * beta) by (nonlinear_arith)
        requires
            -beta <= em <= beta,
            f > 0,
    ;
    assert(-(f * mm) <= er * m <= f * mm) by (nonlinear_arith)
        requires
            -f <= er <= f,
            mm == magnitude(m),
    ;
    let h = beta + mm;
    assert(f * h == f * beta + f * mm) by (nonlinear_arith)
        requires
            h == beta + mm,
    ;
    assert(-(f * h) <= 2 * (s * g) <= f * h);
    // The exact modified duration over one denominator.
    let u = d * z - num;
    let x = m * (z * fa) - num * f;
    assert(x == z * g + f * u) by (nonlinear_arith)
        requires
            x == m * (z * fa) - num * f,
            g == fa * m - f * d,
            u == d * z - num,
    ;
    assert(-(z * (f * h)) <= z * (2 * (s * g)) <= z * (f * h)) by (nonlinear_arith)
        requires
            -(f * h) <= 2 * (s * g) <= f * h,
            z > 0,
    ;
    assert(z * (2 * (s * g)) == 2 * (s * (z * g))) by (nonlinear_arith);
    assert(-(f * (ed * z)) <= f * u <= f * (ed * z)) by (nonlinear_arith)
        requires
            -(ed * z) <= u <= ed * z,
            f > 0,
    ;
    assert(s * x == s * (z * g) + s * (f * u)) by (nonlinear_arith)
        requires
            x == z * g + f * u,
    ;
    let zf = z * f;
    assert(z * (f * h) == zf * h && f * (ed * z) == zf * ed) by (nonlinear_arith)
        requires
            zf == z * f,
    ;
    assert(-(s * (zf * ed)) <= s * (f * u) <= s * (zf * ed)) by (nonlinear_arith)
        requires
            -(zf * ed) <= f * u <= zf * ed,
            s > 0,
    ;
    assert(-(zf * h + 2 * (s * (zf * ed))) <= 2 * (s * x) <= zf * h + 2 * (s * (zf * ed)));
    // In whole billionths.
    let e = modified_error_bound(v);
    assert(h < 2 * s * (e - ed)) by (nonlinear_arith)
        requires
            e - ed == h / (2 * s) + 1,
            s > 0,
    ;
    assert(zf > 0 && ed >= 0 && h >= 0) by (nonlinear_arith)
        requires
            zf == z * f,
            z > 0,
            f > 0,
            -(ed * z) <= ed * z,
            h == beta + mm,
            beta > 0,
            mm >= 0,
    ;
    assert(zf * h + 2 * (s * (zf * ed)) <= 2 * (s * (zf * e))) by (nonlinear_arith)
        requires
            h < 2 * s * (e - ed),
            zf > 0,
            s > 0,
    ;
    let zfa = z * fa;
    assert(0 < zf <= zfa) by (nonlinear_arith)
        requires
            zf == z * f,
            zfa == z * fa,
            fa == f + yy,
            z > 0,
            f > 0,
            yy > 0,
    ;
    assert(e >= 0);
    assert(zf * e <= zfa * e) by (nonlinear_arith)
        requires
            zf <= zfa,
            e >= 0,
    ;
    assert(-(e * zfa) <= x <= e * zfa) by (nonlinear_arith)
        requires
            -(2 * (s * (zf * e))) <= 2 * (s * x) <= 2 * (s * (zf * e)),
            zf * e <= zfa * e,
            s > 0,
    ;
}

/// A whole number of billionths that the error of the rounded price
/// sensitivity stays within: the bound of the modified duration times the
/// price and the move of the yield, and what the two products add.
pub open spec fn sensitivity_error_bound(v: BondView, old_yield: int, new_yield: int) -> int {
    let change = magnitude(new_yield - old_yield);
    (2 * (modified_error_bound(v) * (magnitude(v.price) * change)) + change * SCALE + SCALE
        * SCALE) / (2 * (SCALE * SCALE)) + 1
}

/// The rounded price sensitivity at a positive yield, with fewer than half
/// a billion periods, is close to the exact one: the exact modified
/// duration times the price and the move of the yield, negated. They differ
/// by at most `sensitivity_error_bound` billionths.
pub proof fn lemma_sensitivity_accuracy(v: BondView, old_yield: int, new_yield: int, r: int)
    requires
        valid_terms(v),
        v.yield_to_maturity > 0,
        2 * periods(v) < SCALE,
        sensitivity_of(v, old_yield, new_yield) == Ok::<int, Fault>(r),
    ensures
        modified_denominator(v) > 0,
        ({
            let exact_denominator = (SCALE * SCALE) * modified_denominator(v);
            let exact_numerator = -(modified_numerator(v) * (v.price * (new_yield - old_yield)));
            -(sensitivity_error_bound(v, old_yield, new_yield) * exact_denominator) <= r
                * exact_denominator - exact_numerator <= sensitivity_error_bound(
                v,
                old_yield,
                new_yield,
            ) * exact_denominator
        }),
{
    let s = SCALE as int;
    let ss = s * s;
    let m = modified_of(v)->Ok_0;
    lemma_modified_accuracy(v, m);
    let z = modified_denominator(v);
    let num = modified_numerator(v);
    let em = modified_error_bound(v);
    let price = v.price;
    let change = new_yield - old_yield;
    let pc = price * change;
    // Minus one times the modified duration is exact.
    assert((-s) * m == (-m) * s) by (nonlinear_arith);
    lemma_round_div_exact(-m, s);
    assert(fx_mul(-s, m) == -m);
    let q = fx_mul(-m, price);
    lemma_round_div_error((-m) * price, s);
    lemma_round_div_error(q * change, s);
    assert(r == fx_mul(q, change));
    let e2 = 2 * (s * q) - 2 * ((-m) * price);
    let e3 = 2 * (s * r) - 2 * (q * change);
    let mpc = m * pc;
    // 4 * s^2 * r = -4 * m * price * change + 2 * change * e2 + 2 * s * e3
    assert(s * (2 * (s * r)) == 2 * (ss * r)) by (nonlinear_arith)
        requires
            ss == s * s,
    ;
    assert(s * (2 * (q * change)) == change * (2 * (s * q))) by (nonlinear_arith);
    assert(s * e3 == s * (2 * (s * r)) - s * (2 * (q * change))) by (nonlinear_arith)
        requires
            e3 == 2 * (s * r) - 2 * (q * change),
    ;
    assert(change * (2 * ((-m) * price)) == -(2 * mpc)) by (nonlinear_arith)
        requires
            mpc == m * (price * change),
    ;
    assert(change * e2 == change * (2 * (s * q)) - change * (2 * ((-m) * price)))
        by (nonlinear_arith)
        requires
            e2 == 2 * (s * q) - 2 * ((-m) * price),
    ;
    assert(2 * (ss * r) == s * e3 + change * e2 - 2 * mpc);
    // The exact sensitivity over one denominator.
    let x = r * (ss * z) + num * pc;
    let u = m * z - num;
    assert(r * (ss * z) == z * (ss * r)) by (nonlinear_arith);
    assert(z * (2 * (ss * r)) == z * (s * e3) + z * (change * e2) - 2 * (z * mpc))
        by (nonlinear_arith)
        requires
            2 * (ss * r) == s * e3 + change * e2 - 2 * mpc,
    ;
    assert(z * mpc == pc * (m * z)) by (nonlinear_arith)
        requires
            mpc == m * pc,
    ;
    assert(pc * u == pc * (m * z) - pc * num) by (nonlinear_arith)
        requires
            u == m * z - num,
    ;
    assert(z * (2 * (ss * r)) == 2 * (z * (ss * r))) by (nonlinear_arith);
    assert(num * pc == pc * num) by (nonlinear_arith);
    assert(2 * x == z * (s * e3) + z * (change * e2) - 2 * (pc * u));
    // The three terms, bounded.
    let mc = magnitude(change);
    let mp = magnitude(price);
    let mpm = mp * mc;
    assert(-(z * ss) <= z * (s * e3) <= z * ss) by (nonlinear_arith)
        requires
            -s <= e3 <= s,
            ss == s * s,
            s > 0,
            z > 0,
    ;
    assert(-(z * (mc * s)) <= z * (change * e2) <= z * (mc * s)) by (nonlinear_arith)
        requires
            -s <= e2 <= s,
            mc == magnitude(change),
            s > 0,
            z > 0,
    ;
    assert(magnitude(pc) == mpm) by (nonlinear_arith)
        requires
            pc == price * change,
            mpm == magnitude(price) * magnitude(change),
    ;
    assert(-(z * (em * mpm)) <= pc * u <= z * (em * mpm)) by (nonlinear_arith)
        requires
            -(em * z) <= u <= em * z,
            magnitude(pc) == mpm,
            z > 0,
    ;
    let top = 2 * (em * mpm) + mc * s + ss;
    assert(z * top == 2 * (z * (em * mpm)) + z * (mc * s) + z * ss) by (nonlinear_arith)
        requires
            top == 2 * (em * mpm) + mc * s + ss,
    ;
    assert(-(z * top) <= 2 * x <= z * top);
    // In whole billionths.
    let e = sensitivity_error_bound(v, old_yield, new_yield);
    let dd = 2 * ss;
    assert(dd > 0) by (nonlinear_arith)
        requires
            dd == 2 * (s * s),
            s > 0,
    ;
    assert(top < dd * e) by (nonlinear_arith)
        requires
            e == top / dd + 1,
            dd > 0,
    ;
    let ssz = ss * z;
    assert(z * (dd * e) == 2 * (e * ssz)) by (nonlinear_arith)
        requires
            dd == 2 * ss,
            ssz == ss * z,
    ;
    assert(z * top <= z * (dd * e)) by (nonlinear_arith)
        requires
            top < dd * e,
            z > 0,
    ;
    assert(-(num * pc) == -(modified_numerator(v) * (v.price * (new_yield - old_yield))));
}

} // verus!
