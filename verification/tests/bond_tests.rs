use bond_analytics::bonds::error::BondError;
use bond_analytics::bonds::simple_bond::build_ust;
use bond_analytics::bonds::simple_bond::SimpleBond;
use bond_analytics::fixed::Checked;
use bond_analytics::fixed::Fixed;

const UNIT: i64 = 1_000_000_000;

fn fx(raw: i64) -> Fixed {
    Fixed::from_raw(raw)
}

fn whole(n: i64) -> Fixed {
    Fixed::from_raw(n * UNIT)
}

fn as_float(x: Fixed) -> f64 {
    x.raw as f64 / UNIT as f64
}

/// face 1000, coupon 4%, semiannual, ten years.
fn ten_year(yield_raw: i64, price_raw: i64) -> SimpleBond {
    SimpleBond::new(whole(1000), fx(40_000_000), whole(2), whole(10), fx(yield_raw), fx(price_raw))
        .unwrap()
}

/// face 1000, coupon 10%, semiannual, thirty years, at par.
fn thirty_year_par() -> SimpleBond {
    SimpleBond::new(whole(1000), fx(100_000_000), whole(2), whole(30), fx(100_000_000), whole(1000))
        .unwrap()
}

#[test]
fn price_of_ten_year_note() {
    let mut bond = ten_year(45_840_000, 0);
    let price = bond.solve_price().unwrap();
    assert!((as_float(price) - 953.57).abs() < 0.1);
    assert_eq!(price.raw, 953_572_343_779);
    assert_eq!(bond.price(), price);
    assert_eq!(bond.yield_to_maturity().raw, 45_840_000);
}

#[test]
fn price_agrees_with_floating_point_formula() {
    let mut bond = ten_year(45_840_000, 0);
    let price = as_float(bond.solve_price().unwrap());
    let (f, c, n, y) = (1000.0_f64, 0.04_f64, 20, 0.04584_f64);
    let growth = (1.0 + y / 2.0).powi(n);
    let expected = f / growth + c * f / y * (1.0 - 1.0 / growth);
    assert!((price - expected).abs() < 1e-6);
}

#[test]
fn price_at_negative_yield() {
    let mut bond = ten_year(-10_000_000, 0);
    assert_eq!(bond.solve_price().unwrap().raw, 1_527_240_850_355);
}

#[test]
fn price_with_fractional_maturity() {
    let mut bond =
        SimpleBond::new(whole(100), fx(50_000_000), whole(4), fx(2_500_000_000), fx(60_000_000), fx(0))
            .unwrap();
    assert_eq!(bond.periods(), 10);
    assert_eq!(bond.solve_price().unwrap().raw, 97_694_453_850);
}

#[test]
fn price_of_par_bond_is_face_value() {
    let mut bond = thirty_year_par();
    let price = bond.solve_price().unwrap();
    assert_eq!(price.raw, 999_999_999_747);
    assert!((as_float(price) - 1000.0).abs() < 1e-6);

    let mut note = ten_year(40_000_000, 0);
    assert_eq!(note.solve_price().unwrap().raw, 1_000_000_000_004);
}

#[test]
fn price_falls_as_yield_rises() {
    let mut low = ten_year(40_000_000, 0);
    let mut mid = ten_year(45_840_000, 0);
    let mut high = ten_year(50_000_000, 0);
    let p_low = low.solve_price().unwrap().raw;
    let p_mid = mid.solve_price().unwrap().raw;
    let p_high = high.solve_price().unwrap().raw;
    assert!(p_low > p_mid);
    assert!(p_mid > p_high);
    assert_eq!(p_high, 922_054_188_195);
}

#[test]
fn price_at_zero_yield_is_domain_error() {
    let mut bond = ten_year(0, 123);
    assert_eq!(bond.solve_price(), Err(BondError::Domain));
    assert_eq!(bond.price().raw, 123);
}

#[test]
fn price_at_yield_of_minus_frequency_is_domain_error() {
    let mut bond = ten_year(-2 * UNIT, 0);
    assert_eq!(bond.solve_price(), Err(BondError::Domain));
}

#[test]
fn price_out_of_range() {
    let mut steep =
        SimpleBond::new(whole(1000), fx(40_000_000), whole(2), whole(30), whole(1000), fx(7)).unwrap();
    assert_eq!(steep.solve_price(), Err(BondError::OutOfRange));
    assert_eq!(steep.price().raw, 7);

    let mut shrinking =
        SimpleBond::new(whole(1000), fx(40_000_000), whole(1), whole(40), fx(-500_000_000), fx(0))
            .unwrap();
    assert_eq!(shrinking.solve_price(), Err(BondError::OutOfRange));
}

#[test]
fn yield_of_ten_year_note() {
    let mut bond = ten_year(0, 953_572_300_000);
    let y = bond.solve_yield_to_maturity(fx(50_000_000), 100, fx(10_000), fx(0)).unwrap();
    assert_eq!(y.raw, 45_840_006);
    assert!((as_float(y) - 0.04584).abs() < 1e-6);
    assert_eq!(bond.yield_to_maturity(), y);
    assert_eq!(bond.price().raw, 953_572_300_000);
}

#[test]
fn yield_then_price_round_trip() {
    let mut bond = ten_year(0, 953_572_300_000);
    bond.solve_yield_to_maturity(fx(50_000_000), 100, fx(10_000), fx(0)).unwrap();
    let repriced = bond.solve_price().unwrap();
    assert!((as_float(repriced) - 953.5723).abs() < 1e-3);

    let mut other = ten_year(45_840_000, 0);
    let price = other.solve_price().unwrap();
    other.set_yield_to_maturity(fx(0));
    let y = other.solve_yield_to_maturity(fx(50_000_000), 100, fx(10_000), fx(0)).unwrap();
    assert_eq!(y.raw, 45_840_000);
    assert_eq!(other.solve_price().unwrap(), price);
}

#[test]
fn yield_solver_is_deterministic() {
    let mut first = ten_year(0, 953_572_300_000);
    let mut second = ten_year(0, 953_572_300_000);
    let a = first.solve_yield_to_maturity(fx(50_000_000), 100, fx(10_000), fx(0));
    let b = second.solve_yield_to_maturity(fx(50_000_000), 100, fx(10_000), fx(0));
    assert_eq!(a, b);
    let c = second.solve_yield_to_maturity(fx(50_000_000), 100, fx(10_000), fx(0));
    assert_eq!(a, c);
    let d = first.solve_yield_to_maturity(fx(50_000_000), 3, fx(10_000), fx(0));
    let e = second.solve_yield_to_maturity(fx(50_000_000), 3, fx(10_000), fx(0));
    assert_eq!(d, e);
}

#[test]
fn flat_slope_guard_reports_non_convergence() {
    let mut bond = ten_year(12_345, 953_572_300_000);
    let guess = fx(50_000_000);
    let r = bond.solve_yield_to_maturity(guess, 100, fx(10_000), whole(10_000));
    assert_eq!(r, Err(BondError::Convergence { last_iterate: guess, iterations: 0 }));
    assert_eq!(bond.yield_to_maturity().raw, 12_345);

    // The slope at the guess is about -7426.44: a guard just above it trips,
    // one just below it does not.
    let r = bond.solve_yield_to_maturity(guess, 100, fx(10_000), fx(7_426_437_482_001));
    assert_eq!(r, Err(BondError::Convergence { last_iterate: guess, iterations: 0 }));
    let r = bond.solve_yield_to_maturity(guess, 100, fx(10_000), fx(7_426_437_482_000));
    assert_eq!(r, Ok(fx(45_840_006)));
}

#[test]
fn exhausted_budget_reports_last_iterate() {
    let mut bond = ten_year(12_345, 953_572_300_000);
    let guess = fx(50_000_000);
    let tolerance = fx(10_000);
    assert_eq!(
        bond.solve_yield_to_maturity(guess, 2, tolerance, fx(0)),
        Err(BondError::Convergence { last_iterate: fx(45_755_958), iterations: 1 })
    );
    assert_eq!(
        bond.solve_yield_to_maturity(guess, 3, tolerance, fx(0)),
        Err(BondError::Convergence { last_iterate: fx(45_839_972), iterations: 2 })
    );
    assert_eq!(bond.yield_to_maturity().raw, 12_345);
    assert_eq!(bond.solve_yield_to_maturity(guess, 4, tolerance, fx(0)), Ok(fx(45_840_006)));
}

#[test]
fn no_budget_means_no_step() {
    let mut bond = ten_year(12_345, 953_572_300_000);
    let guess = fx(50_000_000);
    for iter in [1, 0, -5, i32::MIN] {
        assert_eq!(
            bond.solve_yield_to_maturity(guess, iter, fx(10_000), fx(0)),
            Err(BondError::Convergence { last_iterate: guess, iterations: 0 })
        );
    }
    assert_eq!(bond.yield_to_maturity().raw, 12_345);
}

#[test]
fn negative_tolerance_never_converges() {
    let mut bond = ten_year(0, 953_572_300_000);
    let r = bond.solve_yield_to_maturity(fx(50_000_000), 4, fx(-1), fx(0));
    assert!(matches!(r, Err(BondError::Convergence { iterations: 3, .. })));
}

#[test]
fn yield_from_zero_guess_is_domain_error() {
    let mut bond = ten_year(12_345, 953_572_300_000);
    assert_eq!(
        bond.solve_yield_to_maturity(fx(0), 100, fx(10_000), fx(0)),
        Err(BondError::Domain)
    );
    assert_eq!(bond.yield_to_maturity().raw, 12_345);
}

#[test]
fn yield_from_tiny_guess_fails() {
    let mut bond = ten_year(0, 953_572_300_000);
    // The square of the guess rounds to three billionths, and the coupon
    // amount divided by it is too large.
    assert_eq!(
        bond.solve_yield_to_maturity(fx(50_000), 100, fx(10_000), fx(0)),
        Err(BondError::OutOfRange)
    );
    // The square of the guess rounds to zero.
    assert_eq!(
        bond.solve_yield_to_maturity(fx(1_000), 100, fx(10_000), fx(0)),
        Err(BondError::Domain)
    );
    assert_eq!(bond.yield_to_maturity().raw, 0);
}

#[test]
fn current_yield_of_ten_year_note() {
    let bond = ten_year(0, 953_572_300_000);
    let cy = bond.current_yield().unwrap();
    assert_eq!(cy.raw, 4_194_752_700);
    assert!((as_float(cy) - 1000.0 * 0.04 / 953.5723 * 100.0).abs() < 1e-6);
}

#[test]
fn current_yield_at_zero_price_is_domain_error() {
    let bond = ten_year(45_840_000, 0);
    assert_eq!(bond.current_yield(), Err(BondError::Domain));
}

#[test]
fn duration_of_thirty_year_par_bond() {
    let bond = thirty_year_par();
    let d = bond.macauly_duration().unwrap();
    assert_eq!(d.raw, 9_937_877_001);
    let y = 0.05_f64;
    let expected = (1.0 + y) / (2.0 * y) - (1.0 + y) / (2.0 * y * ((1.0 + y).powi(60) - 1.0) + 2.0 * y);
    assert!((as_float(d) - expected).abs() < 1e-6);
    assert!(as_float(d) > 9.5 && as_float(d) < 11.0);
}

#[test]
fn duration_of_ten_year_note() {
    let bond = ten_year(45_840_006, 953_572_300_000);
    assert_eq!(bond.macauly_duration().unwrap().raw, 8_290_760_713);
}

#[test]
fn modified_duration_of_thirty_year_par_bond() {
    let bond = thirty_year_par();
    let m = bond.modified_duration().unwrap();
    assert_eq!(m.raw, 9_464_644_763);
    assert!((as_float(m) - 9.937877001 / 1.05).abs() < 1e-6);
}

#[test]
fn price_sensitivity_of_thirty_year_par_bond() {
    let bond = thirty_year_par();
    let up = bond.price_sensitivity(fx(100_000_000), fx(110_000_000)).unwrap();
    assert_eq!(up.raw, -94_646_447_630);
    let down = bond.price_sensitivity(fx(110_000_000), fx(100_000_000)).unwrap();
    assert_eq!(down.raw, 94_646_447_630);
    let none = bond.price_sensitivity(fx(100_000_000), fx(100_000_000)).unwrap();
    assert_eq!(none.raw, 0);
}

#[test]
fn durations_at_zero_yield_are_domain_errors() {
    let bond = ten_year(0, 953_572_300_000);
    assert_eq!(bond.macauly_duration(), Err(BondError::Domain));
    assert_eq!(bond.modified_duration(), Err(BondError::Domain));
    assert_eq!(bond.price_sensitivity(fx(1), fx(2)), Err(BondError::Domain));
}

#[test]
fn sensitivity_out_of_range() {
    let bond = thirty_year_par();
    assert_eq!(
        bond.price_sensitivity(fx(i64::MIN), fx(i64::MAX)),
        Err(BondError::OutOfRange)
    );
}

#[test]
fn invalid_terms_are_rejected() {
    let ok = |face: i64, coupon: i64, frequency: i64, maturity: i64| {
        SimpleBond::new(fx(face), fx(coupon), fx(frequency), fx(maturity), fx(0), fx(0)).map(|_| ())
    };
    assert_eq!(ok(1000 * UNIT, 40_000_000, 2 * UNIT, 10 * UNIT), Ok(()));
    assert_eq!(ok(1, 0, 2 * UNIT, 10 * UNIT), Ok(()));
    assert_eq!(ok(0, 40_000_000, 2 * UNIT, 10 * UNIT), Err(BondError::Validation));
    assert_eq!(ok(-1000 * UNIT, 40_000_000, 2 * UNIT, 10 * UNIT), Err(BondError::Validation));
    assert_eq!(ok(1000 * UNIT, -1, 2 * UNIT, 10 * UNIT), Err(BondError::Validation));
    assert_eq!(ok(1000 * UNIT, 40_000_000, 0, 10 * UNIT), Err(BondError::Validation));
    assert_eq!(ok(1000 * UNIT, 40_000_000, -2 * UNIT, 10 * UNIT), Err(BondError::Validation));
    assert_eq!(ok(1000 * UNIT, 40_000_000, 2 * UNIT, 0), Err(BondError::Validation));
    assert_eq!(ok(1000 * UNIT, 40_000_000, 2 * UNIT, -10 * UNIT), Err(BondError::Validation));
    // Two payments a year for a quarter of a year: half a period.
    assert_eq!(ok(1000 * UNIT, 40_000_000, 2 * UNIT, 250_000_000), Err(BondError::Validation));
    assert_eq!(ok(1000 * UNIT, 40_000_000, 2 * UNIT, 10 * UNIT + 1), Err(BondError::Validation));
    // Half a payment a year for two years: one period.
    assert_eq!(ok(1000 * UNIT, 40_000_000, 500_000_000, 2 * UNIT), Ok(()));
    // More periods than fit the count.
    assert_eq!(
        ok(1000 * UNIT, 40_000_000, 4_294_967_296 * UNIT, UNIT),
        Err(BondError::Validation)
    );
    assert_eq!(ok(1000 * UNIT, 40_000_000, 4_294_967_295 * UNIT, UNIT), Ok(()));
}

#[test]
fn accessors_and_setters() {
    let mut bond = ten_year(45_840_000, 953_572_300_000);
    assert_eq!(bond.face_value(), whole(1000));
    assert_eq!(bond.coupon(), fx(40_000_000));
    assert_eq!(bond.frequency(), whole(2));
    assert_eq!(bond.maturity(), whole(10));
    assert_eq!(bond.yield_to_maturity(), fx(45_840_000));
    assert_eq!(bond.price(), fx(953_572_300_000));
    assert_eq!(bond.periods(), 20);
    bond.set_price(whole(900));
    bond.set_yield_to_maturity(fx(50_000_000));
    assert_eq!(bond.price(), whole(900));
    assert_eq!(bond.yield_to_maturity(), fx(50_000_000));
    assert_eq!(bond.face_value(), whole(1000));
}

#[test]
fn treasury_conventions() {
    let bond = build_ust(fx(40_000_000), whole(10), fx(45_840_000), fx(0)).unwrap();
    assert_eq!(bond.face_value(), whole(1000));
    assert_eq!(bond.frequency(), whole(2));
    assert_eq!(bond.coupon(), fx(40_000_000));
    assert_eq!(bond.maturity(), whole(10));
    assert_eq!(bond.yield_to_maturity(), fx(45_840_000));
    assert_eq!(bond.price(), fx(0));
    assert_eq!(bond.periods(), 20);
    assert!(matches!(build_ust(fx(-1), whole(10), fx(0), fx(0)), Err(BondError::Validation)));
    assert!(matches!(build_ust(fx(0), fx(250_000_000), fx(0), fx(0)), Err(BondError::Validation)));
    assert!(matches!(build_ust(fx(0), fx(500_000_000), fx(0), fx(0)), Ok(_)));
}

#[test]
fn rounding_can_invert_neighbouring_yields() {
    // With a coupon of 100% these two yields, one billionth apart, give
    // prices that rise by a few millionths: the price falls with the yield
    // only up to the rounding of the steps.
    let price_at = |y: i64| {
        let mut bond =
            SimpleBond::new(whole(1000), whole(1), whole(2), whole(10), fx(y), fx(0)).unwrap();
        bond.solve_price().unwrap().raw
    };
    let lower = price_at(88_071_944);
    let higher = price_at(88_071_945);
    assert_eq!(lower, 6_981_008_593_379);
    assert_eq!(higher, 6_981_008_601_717);
    assert!(higher - lower < 10_000);
    assert!(price_at(88_071_944 + 1_000) < lower);
}

#[test]
fn second_search_repeats_the_first() {
    let mut bond = ten_year(0, 953_572_300_000);
    let first = bond.solve_yield_to_maturity(fx(50_000_000), 100, fx(10_000), fx(0));
    assert_eq!(bond.yield_to_maturity().raw, 45_840_006);
    let second = bond.solve_yield_to_maturity(fx(50_000_000), 100, fx(10_000), fx(0));
    assert_eq!(first, second);
}

#[test]
fn converged_yield_leaves_a_small_residual() {
    // Repricing at the solved yield recovers the price the search started
    // from to well within a thousandth of the face value.
    for price in [800_000_000_000_i64, 953_572_300_000, 1_000_000_000_000, 1_200_000_000_000] {
        let mut bond = ten_year(0, price);
        bond.solve_yield_to_maturity(fx(50_000_000), 100, fx(10_000), fx(0)).unwrap();
        let repriced = bond.solve_price().unwrap().raw;
        assert!((repriced - price).abs() < 1_000_000);
    }
}

#[test]
fn price_is_within_the_error_bound_of_the_exact_value() {
    // One year of semiannual coupons: two periods, so the exact present
    // value is a fraction of numbers that fit 128 bits.
    let scale = UNIT as i128;
    let (face, coupon, frequency, yield_) =
        (1000 * scale, 40_000_000_i128, 2 * scale, 45_840_000_i128);
    let mut bond =
        SimpleBond::new(whole(1000), fx(40_000_000), whole(2), whole(1), fx(45_840_000), fx(0))
            .unwrap();
    let price = bond.solve_price().unwrap().raw as i128;
    assert_eq!(price, 994_354_814_096);

    let a = (frequency + yield_) / 1_000; // both are multiples of a thousand
    let b = frequency / 1_000;
    // face * (b^2 + coupon * (a + b) / 1000) / a^2, the coupon rescaled with a and b
    let numerator = face * (b * b + coupon / 1_000 * (a + b));
    let denominator = a * a;
    let n = 2_i128;
    let slack = 2 * (scale * yield_) * (scale + 2 * n + 4 * (n * face))
        + (2 * (coupon * face) + scale + yield_) * (scale + 2 * n + 4 * (n * scale))
        + 2 * ((scale + yield_) * (scale * scale))
        + 2 * ((scale * yield_) * scale);
    let bound = slack / (4 * (scale * scale * yield_)) + 1;
    assert_eq!(bound, 7_940);
    assert!((price * denominator - numerator).abs() <= bound * denominator);
    // The rounded price is in fact closer: the rounding of the inverse
    // growth factor, times the coupon amount over the yield, dominates.
    assert!((price * denominator - numerator).abs() <= 400 * denominator);
    assert!((price * denominator - numerator).abs() > 300 * denominator);
}

#[test]
fn price_at_negative_yield_is_within_its_error_bound() {
    let scale = UNIT as i128;
    let (face, coupon, frequency, yield_) =
        (1000 * scale, 40_000_000_i128, 2 * scale, -10_000_000_i128);
    let mut bond =
        SimpleBond::new(whole(1000), fx(40_000_000), whole(2), whole(1), fx(-10_000_000), fx(0))
            .unwrap();
    let price = bond.solve_price().unwrap().raw as i128;
    assert_eq!(price, 1_050_377_515_144);

    // The exact present value over two periods.
    let a = (frequency + yield_) / 1_000;
    let b = frequency / 1_000;
    let numerator = face * (b * b + coupon / 1_000 * (a + b));
    let denominator = a * a;

    // The bound is stated over the rounded growth factor and what is divided
    // by it.
    let one = Checked::of(Fixed::one());
    let growth = one.plus(Checked::of(fx(-10_000_000)).over(Checked::of(whole(2)))).raised_to(2);
    let principal = Checked::of(whole(1000)).over(growth).value.unwrap().raw as i128;
    let inverse = one.over(growth).value.unwrap().raw as i128;
    let growth = growth.value.unwrap().raw as i128;
    assert_eq!((growth, principal, inverse), (990_025_000, 1_010_075_503_144, 1_010_075_503));
    let n = 2_i128;
    let below = -yield_;
    let margin = growth - 2 * n;
    let slack = 2 * (scale * below) * (growth + 4 * (n * principal))
        + (2 * (coupon * face) + scale + below) * (growth + 4 * (n * inverse))
        + 2 * ((scale + below) * (scale * scale))
        + 2 * ((margin * below) * scale);
    let bound = slack / (4 * (margin * (scale * below))) + 1;
    assert_eq!(bound, 22_458);
    assert!((price * denominator - numerator).abs() <= bound * denominator);
    assert!((price * denominator - numerator).abs() > 500 * denominator);
}
