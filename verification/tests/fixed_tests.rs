use bond_analytics::fixed::Checked;
use bond_analytics::fixed::Fault;
use bond_analytics::fixed::Fixed;
use bond_analytics::fixed::SCALE;

fn num(raw: i64) -> Checked {
    Checked::of(Fixed::from_raw(raw))
}

fn raw_of(c: Checked) -> Result<i64, Fault> {
    c.value.map(|x| x.raw)
}

#[test]
fn scale_is_a_billion() {
    assert_eq!(SCALE, 1_000_000_000);
    assert_eq!(Fixed::one().raw, 1_000_000_000);
    assert_eq!(Fixed::from_raw(-7).raw, -7);
}

#[test]
fn ratio_rounds_to_nearest() {
    assert_eq!(Fixed::from_ratio(4584, 100_000), Some(Fixed::from_raw(45_840_000)));
    assert_eq!(Fixed::from_ratio(1, 3), Some(Fixed::from_raw(333_333_333)));
    assert_eq!(Fixed::from_ratio(2, 3), Some(Fixed::from_raw(666_666_667)));
    assert_eq!(Fixed::from_ratio(-2, 3), Some(Fixed::from_raw(-666_666_667)));
    assert_eq!(Fixed::from_ratio(2, -3), Some(Fixed::from_raw(-666_666_667)));
    assert_eq!(Fixed::from_ratio(-2, -3), Some(Fixed::from_raw(666_666_667)));
}

#[test]
fn ratio_ties_round_away_from_zero() {
    assert_eq!(Fixed::from_ratio(1, 2_000_000_000), Some(Fixed::from_raw(1)));
    assert_eq!(Fixed::from_ratio(-1, 2_000_000_000), Some(Fixed::from_raw(-1)));
    assert_eq!(Fixed::from_ratio(3, 2_000_000_000), Some(Fixed::from_raw(2)));
    assert_eq!(Fixed::from_ratio(1, 2_000_000_001), Some(Fixed::from_raw(0)));
}

#[test]
fn ratio_failures() {
    assert_eq!(Fixed::from_ratio(1, 0), None);
    assert_eq!(Fixed::from_ratio(0, 0), None);
    assert_eq!(Fixed::from_ratio(10_000_000_000, 1), None);
    assert_eq!(Fixed::from_ratio(i64::MIN, 1), None);
    assert_eq!(Fixed::from_ratio(i64::MIN, i64::MIN), Some(Fixed::one()));
    assert_eq!(Fixed::from_ratio(i64::MAX, i64::MIN), Some(Fixed::from_raw(-1_000_000_000)));
    assert_eq!(Fixed::from_ratio(9_223_372_036, 1), Some(Fixed::from_raw(9_223_372_036_000_000_000)));
}

#[test]
fn sums_and_differences() {
    assert_eq!(raw_of(num(5).plus(num(-7))), Ok(-2));
    assert_eq!(raw_of(num(5).minus(num(-7))), Ok(12));
    assert_eq!(raw_of(num(i64::MAX).plus(num(1))), Err(Fault::Overflow));
    assert_eq!(raw_of(num(i64::MIN).minus(num(1))), Err(Fault::Overflow));
    assert_eq!(raw_of(num(i64::MAX).plus(num(i64::MIN))), Ok(-1));
    assert_eq!(raw_of(num(0).minus(num(i64::MIN))), Err(Fault::Overflow));
}

#[test]
fn products_round_to_nearest() {
    assert_eq!(raw_of(num(2 * SCALE).times(num(3 * SCALE))), Ok(6 * SCALE));
    assert_eq!(raw_of(num(1).times(num(500_000_000))), Ok(1));
    assert_eq!(raw_of(num(-1).times(num(500_000_000))), Ok(-1));
    assert_eq!(raw_of(num(1).times(num(-500_000_000))), Ok(-1));
    assert_eq!(raw_of(num(1).times(num(499_999_999))), Ok(0));
    assert_eq!(raw_of(num(1_050_000_000).times(num(1_050_000_000))), Ok(1_102_500_000));
    assert_eq!(raw_of(num(i64::MAX).times(num(SCALE))), Ok(i64::MAX));
    assert_eq!(raw_of(num(i64::MIN).times(num(SCALE))), Ok(i64::MIN));
    assert_eq!(raw_of(num(i64::MIN).times(num(-SCALE))), Err(Fault::Overflow));
    assert_eq!(raw_of(num(i64::MIN).times(num(i64::MIN))), Err(Fault::Overflow));
}

#[test]
fn quotients_round_to_nearest() {
    assert_eq!(raw_of(num(7 * SCALE).over(num(3 * SCALE))), Ok(2_333_333_333));
    assert_eq!(raw_of(num(-7 * SCALE).over(num(3 * SCALE))), Ok(-2_333_333_333));
    assert_eq!(raw_of(num(SCALE).over(num(2 * SCALE))), Ok(500_000_000));
    assert_eq!(raw_of(num(1).over(num(2 * SCALE))), Ok(1));
    assert_eq!(raw_of(num(1).over(num(3 * SCALE))), Ok(0));
    assert_eq!(raw_of(num(i64::MIN).over(num(SCALE))), Ok(i64::MIN));
    assert_eq!(raw_of(num(i64::MIN).over(num(-SCALE))), Err(Fault::Overflow));
    assert_eq!(raw_of(num(SCALE).over(num(1))), Ok(1_000_000_000_000_000_000));
    assert_eq!(raw_of(num(10 * SCALE).over(num(1))), Err(Fault::Overflow));
}

#[test]
fn division_by_zero_is_a_fault() {
    assert_eq!(raw_of(num(5).over(num(0))), Err(Fault::DivisionByZero));
    assert_eq!(raw_of(num(0).over(num(0))), Err(Fault::DivisionByZero));
}

#[test]
fn powers_round_after_each_step() {
    assert_eq!(raw_of(num(1_050_000_000).raised_to(0)), Ok(SCALE));
    assert_eq!(raw_of(num(1_050_000_000).raised_to(1)), Ok(1_050_000_000));
    assert_eq!(raw_of(num(1_050_000_000).raised_to(2)), Ok(1_102_500_000));
    assert_eq!(raw_of(num(1_050_000_000).raised_to(60)), Ok(18_679_185_894));
    assert_eq!(raw_of(num(-2 * SCALE).raised_to(3)), Ok(-8 * SCALE));
    assert_eq!(raw_of(num(0).raised_to(5)), Ok(0));
    assert_eq!(raw_of(num(SCALE).raised_to(1_000_000)), Ok(SCALE));
    assert_eq!(raw_of(num(500_000_000).raised_to(40)), Ok(1));
    assert_eq!(raw_of(num(400_000_000).raised_to(40)), Ok(0));
}

#[test]
fn power_overflow_stops_early() {
    assert_eq!(raw_of(num(2 * SCALE).raised_to(33)), Ok(8_589_934_592 * SCALE));
    assert_eq!(raw_of(num(2 * SCALE).raised_to(34)), Err(Fault::Overflow));
    assert_eq!(raw_of(num(2 * SCALE).raised_to(u64::MAX)), Err(Fault::Overflow));
}

#[test]
fn faults_are_carried_through_left_first() {
    let zero_division = num(1).over(num(0));
    let overflow = num(i64::MAX).plus(num(1));
    assert_eq!(raw_of(zero_division.plus(num(1))), Err(Fault::DivisionByZero));
    assert_eq!(raw_of(num(1).minus(overflow)), Err(Fault::Overflow));
    assert_eq!(raw_of(zero_division.times(overflow)), Err(Fault::DivisionByZero));
    assert_eq!(raw_of(overflow.over(zero_division)), Err(Fault::Overflow));
    assert_eq!(raw_of(overflow.raised_to(0)), Err(Fault::Overflow));
    assert_eq!(raw_of(zero_division.raised_to(3)), Err(Fault::DivisionByZero));
    assert_eq!(raw_of(num(3).over(overflow)), Err(Fault::Overflow));
}
