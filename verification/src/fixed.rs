//! Decimal fixed-point numbers and the rounded arithmetic on them.

use vstd::prelude::*;

verus! {

/// Number of raw units in one whole: a raw value `r` stands for `r / SCALE`.
pub const SCALE: i64 = 1_000_000_000;

/// Absolute value of a mathematical integer.
pub open spec fn magnitude(x: int) -> int {
    if x < 0 {
        -x
    } else {
        x
    }
}

/// The integer nearest to `n / d`, with ties rounded away from zero.
///
/// Meaningful for `d != 0` only.
pub open spec fn round_div(n: int, d: int) -> int {
    let q = (2 * magnitude(n) + magnitude(d)) / (2 * magnitude(d));
    if (n < 0) != (d < 0) {
        -q
    } else {
        q
    }
}

/// Whether a raw value fits the storage of a [`Fixed`].
pub open spec fn representable(x: int) -> bool {
    i64::MIN <= x <= i64::MAX
}

/// Why a rounded computation produced no number.
#[derive(Clone, Copy, Debug, PartialEq, Eq, Structural)]
pub enum Fault {
    /// A divisor was zero.
    DivisionByZero,
    /// A result did not fit the storage of a [`Fixed`].
    Overflow,
}

/// `Ok(x)` when `x` is representable, an overflow otherwise.
pub open spec fn narrow(x: int) -> Result<int, Fault> {
    if representable(x) {
        Ok(x)
    } else {
        Err(Fault::Overflow)
    }
}

/// Rounded product of two raw values.
pub open spec fn fx_mul(a: int, b: int) -> int {
    round_div(a * b, SCALE as int)
}

/// Rounded quotient of two raw values; meaningful for `b != 0` only.
pub open spec fn fx_div(a: int, b: int) -> int {
    round_div(a * SCALE, b)
}

/// A decimal fixed-point number with nine fractional digits.
#[derive(Clone, Copy, Debug, PartialEq, Eq, Structural)]
pub struct Fixed {
    /// The number in billionths.
    pub raw: i64,
}

impl View for Fixed {
    type V = int;

    open spec fn view(&self) -> int {
        self.raw as int
    }
}

fn magnitude_of(x: i128) -> (m: u128)
    requires
        x > i128::MIN,
    ensures
        m == magnitude(x as int),
{
    if x < 0 {
        (-x) as u128
    } else {
        x as u128
    }
}

/// Computes `round_div(n, d)` for operands well inside the `i128` range.
fn round_quotient(n: i128, d: i128) -> (q: i128)
    requires
        d != 0,
        magnitude(n as int) <= 0x4000_0000_0000_0000_0000_0000_0000_0000,
        magnitude(d as int) <= 0x4000_0000_0000_0000_0000_0000_0000_0000,
    ensures
        q == round_div(n as int, d as int),
        magnitude(q as int) <= magnitude(n as int),
{
    let un: u128 = magnitude_of(n);
    let ud: u128 = magnitude_of(d);
    let uq: u128 = (2 * un + ud) / (2 * ud);
    assert(uq <= un) by (nonlinear_arith)
        requires
            uq == (2 * un + ud) / (2 * ud),
            ud >= 1,
    ;
    if (n < 0) != (d < 0) {
        -(uq as i128)
    } else {
        uq as i128
    }
}

impl Fixed {
    /// The number one.
    pub fn one() -> (r: Fixed)
        ensures
            r@ == SCALE,
    {
        Fixed { raw: SCALE }
    }

    /// The number whose value in billionths is `raw`.
    pub fn from_raw(raw: i64) -> (r: Fixed)
        ensures
            r@ == raw,
    {
        Fixed { raw }
    }

    /// The fraction `num / den`, rounded to the nearest billionth; `None`
    /// when `den` is zero or the rounded fraction is not representable.
    pub fn from_ratio(num: i64, den: i64) -> (r: Option<Fixed>)
        ensures
            match r {
                Some(x) => den != 0 && narrow(round_div(num * SCALE, den as int)) == Ok::<
                    int,
                    Fault,
                >(x@),
                None => den == 0 || narrow(round_div(num * SCALE, den as int)) is Err,
            },
    {
        if den == 0 {
            return None;
        }
        assert(magnitude(num * SCALE) <= 0x4000_0000_0000_0000_0000_0000_0000_0000)
            by (nonlinear_arith)
            requires
                i64::MIN <= num <= i64::MAX,
                SCALE == 1_000_000_000,
        ;
        let scaled: i128 = (num as i128) * (SCALE as i128);
        let q: i128 = round_quotient(scaled, den as i128);
        if q < i64::MIN as i128 || q > i64::MAX as i128 {
            None
        } else {
            Some(Fixed { raw: q as i64 })
        }
    }
}

/// A rounded quotient lies within half a divisor of the exact one:
/// `|n - d * round_div(n, d)| <= d / 2`.
pub proof fn lemma_round_div_error(n: int, d: int)
    requires
        d > 0,
    ensures
        2 * (d * round_div(n, d)) - d <= 2 * n <= 2 * (d * round_div(n, d)) + d,
{
    let m = magnitude(n);
    let q = (2 * m + d) / (2 * d);
    assert(2 * (d * q) <= 2 * m + d < 2 * (d * q) + 2 * d) by (nonlinear_arith)
        requires
            q == (2 * m + d) / (2 * d),
            d > 0,
    ;
    if n < 0 {
        assert(d * (-q) == -(d * q)) by (nonlinear_arith);
    }
}

/// Rounding a multiple of the divisor is exact.
pub proof fn lemma_round_div_exact(k: int, d: int)
    requires
        d > 0,
    ensures
        round_div(k * d, d) == k,
{
    lemma_round_div_error(k * d, d);
    let q = round_div(k * d, d);
    assert(q == k) by (nonlinear_arith)
        requires
            2 * (d * q) - d <= 2 * (k * d) <= 2 * (d * q) + d,
            d > 0,
    ;
}

/// Rounded division by a positive divisor keeps the order of numerators.
pub proof fn lemma_round_div_monotonic(n1: int, n2: int, d: int)
    requires
        d > 0,
        n1 <= n2,
    ensures
        round_div(n1, d) <= round_div(n2, d),
{
    lemma_round_div_error(n1, d);
    lemma_round_div_error(n2, d);
    let q1 = round_div(n1, d);
    let q2 = round_div(n2, d);
    if q1 > q2 {
        assert(d * q1 >= d * q2 + d) by (nonlinear_arith)
            requires
                q1 >= q2 + 1,
                d > 0,
        ;
        assert(n1 == n2);
    }
}

/// A rounded quotient of a non-negative numerator by a positive divisor is
/// not negative.
pub proof fn lemma_round_div_nonnegative(n: int, d: int)
    requires
        d > 0,
        n >= 0,
    ensures
        round_div(n, d) >= 0,
{
    assert(0 == 0 * d);
    lemma_round_div_exact(0, d);
    lemma_round_div_monotonic(0, n, d);
}

/// A rounded quotient by a divisor of either sign lies within half a
/// divisor of the exact one: `|n - d * round_div(n, d)| <= |d| / 2`.
pub proof fn lemma_round_div_error_signed(n: int, d: int)
    requires
        d != 0,
    ensures
        -magnitude(d) <= 2 * (d * round_div(n, d)) - 2 * n <= magnitude(d),
{
    if d > 0 {
        lemma_round_div_error(n, d);
    } else {
        lemma_round_div_error(n, -d);
        let q = round_div(n, -d);
        assert(round_div(n, d) == -q);
        assert(d * (-q) == (-d) * q) by (nonlinear_arith);
    }
}

/// The magnitude of a rounded quotient is the rounded quotient of the
/// magnitudes, so it is within half a divisor of the exact one:
/// `| |n| - |d| * |round_div(n, d)| | <= |d| / 2`.
pub proof fn lemma_round_div_magnitude(n: int, d: int)
    requires
        d != 0,
    ensures
        magnitude(round_div(n, d)) == round_div(magnitude(n), magnitude(d)),
        2 * (magnitude(d) * magnitude(round_div(n, d))) - magnitude(d) <= 2 * magnitude(n) <= 2 * (
        magnitude(d) * magnitude(round_div(n, d))) + magnitude(d),
{
    lemma_round_div_nonnegative(magnitude(n), magnitude(d));
    lemma_round_div_error(magnitude(n), magnitude(d));
}

/// Sum of two lifted raw values: the first fault met from left to right, or
/// the exact sum when it is representable.
pub open spec fn sum(a: Result<int, Fault>, b: Result<int, Fault>) -> Result<int, Fault> {
    match (a, b) {
        (Err(e), _) => Err(e),
        (_, Err(e)) => Err(e),
        (Ok(x), Ok(y)) => narrow(x + y),
    }
}

/// Difference of two lifted raw values.
pub open spec fn difference(a: Result<int, Fault>, b: Result<int, Fault>) -> Result<int, Fault> {
    match (a, b) {
        (Err(e), _) => Err(e),
        (_, Err(e)) => Err(e),
        (Ok(x), Ok(y)) => narrow(x - y),
    }
}

/// Product of two lifted raw values, rounded to the nearest raw unit.
pub open spec fn product(a: Result<int, Fault>, b: Result<int, Fault>) -> Result<int, Fault> {
    match (a, b) {
        (Err(e), _) => Err(e),
        (_, Err(e)) => Err(e),
        (Ok(x), Ok(y)) => narrow(fx_mul(x, y)),
    }
}

/// Quotient of two lifted raw values, rounded to the nearest raw unit; a zero
/// divisor is a fault.
pub open spec fn quotient(a: Result<int, Fault>, b: Result<int, Fault>) -> Result<int, Fault> {
    match (a, b) {
        (Err(e), _) => Err(e),
        (_, Err(e)) => Err(e),
        (Ok(x), Ok(y)) => if y == 0 {
            Err(Fault::DivisionByZero)
        } else {
            narrow(fx_div(x, y))
        },
    }
}

/// `base` multiplied by itself `n` times, starting from one and rounding
/// after every multiplication.
pub open spec fn fx_pow(base: int, n: nat) -> Result<int, Fault>
    decreases n,
{
    if n == 0 {
        Ok(SCALE as int)
    } else {
        product(fx_pow(base, (n - 1) as nat), Ok(base))
    }
}

/// Power of a lifted raw value with a natural exponent.
pub open spec fn power(base: Result<int, Fault>, n: nat) -> Result<int, Fault> {
    match base {
        Err(e) => Err(e),
        Ok(b) => fx_pow(b, n),
    }
}

/// A power that is a number has only numbers below it.
pub proof fn lemma_power_prefix(base: int, k: nat, n: nat)
    requires
        k <= n,
        fx_pow(base, n) is Ok,
    ensures
        fx_pow(base, k) is Ok,
{
    if fx_pow(base, k) is Err {
        lemma_power_fault_persists(base, k, n);
    }
}

/// The powers of a base of at least one are at least one.
pub proof fn lemma_power_at_least_one(base: int, n: nat)
    requires
        base >= SCALE,
        fx_pow(base, n) is Ok,
    ensures
        fx_pow(base, n)->Ok_0 >= SCALE,
    decreases n,
{
    if n > 0 {
        let k = (n - 1) as nat;
        lemma_power_prefix(base, k, n);
        lemma_power_at_least_one(base, k);
        let prev = fx_pow(base, k)->Ok_0;
        assert(prev * base >= SCALE * SCALE) by (nonlinear_arith)
            requires
                prev >= SCALE,
                base >= SCALE,
        ;
        lemma_round_div_exact(SCALE as int, SCALE as int);
        lemma_round_div_monotonic(SCALE * SCALE, prev * base, SCALE as int);
    }
}

/// The powers of a base between zero and one lie between zero and one.
pub proof fn lemma_power_at_most_one(base: int, n: nat)
    requires
        0 <= base <= SCALE,
        fx_pow(base, n) is Ok,
    ensures
        0 <= fx_pow(base, n)->Ok_0 <= SCALE,
    decreases n,
{
    if n > 0 {
        let k = (n - 1) as nat;
        lemma_power_prefix(base, k, n);
        lemma_power_at_most_one(base, k);
        let prev = fx_pow(base, k)->Ok_0;
        assert(0 <= prev * base <= SCALE * SCALE) by (nonlinear_arith)
            requires
                0 <= prev <= SCALE,
                0 <= base <= SCALE,
        ;
        lemma_round_div_exact(SCALE as int, SCALE as int);
        lemma_round_div_monotonic(prev * base, SCALE * SCALE, SCALE as int);
        lemma_round_div_nonnegative(prev * base, SCALE as int);
    }
}

/// Once a power has faulted, every higher power faults in the same way.
pub proof fn lemma_power_fault_persists(base: int, k: nat, n: nat)
    requires
        k <= n,
        fx_pow(base, k) is Err,
    ensures
        fx_pow(base, n) == fx_pow(base, k),
    decreases n,
{
    if k < n {
        lemma_power_fault_persists(base, k, (n - 1) as nat);
    }
}

/// A number, or the fault that kept a computation from producing one.
///
/// Arithmetic on `Checked` values never fails half way: a fault is carried
/// through every later operation and surfaces in the final result.
#[derive(Clone, Copy, Debug)]
pub struct Checked {
    /// The number, or the first fault met while computing it.
    pub value: Result<Fixed, Fault>,
}

impl View for Checked {
    type V = Result<int, Fault>;

    open spec fn view(&self) -> Result<int, Fault> {
        match self.value {
            Ok(x) => Ok(x@),
            Err(e) => Err(e),
        }
    }
}

impl Checked {
    /// A known number.
    pub fn of(x: Fixed) -> (r: Checked)
        ensures
            r@ == Ok::<int, Fault>(x@),
    {
        Checked { value: Ok(x) }
    }

    fn narrowed(q: i128) -> (r: Checked)
        ensures
            r@ == narrow(q as int),
    {
        if q < i64::MIN as i128 || q > i64::MAX as i128 {
            Checked { value: Err(Fault::Overflow) }
        } else {
            Checked { value: Ok(Fixed { raw: q as i64 }) }
        }
    }

    /// `self + rhs`.
    pub fn plus(self, rhs: Checked) -> (r: Checked)
        ensures
            r@ == sum(self@, rhs@),
    {
        match (self.value, rhs.value) {
            (Err(e), _) => Checked { value: Err(e) },
            (_, Err(e)) => Checked { value: Err(e) },
            (Ok(a), Ok(b)) => Checked::narrowed(a.raw as i128 + b.raw as i128),
        }
    }

    /// `self - rhs`.
    pub fn minus(self, rhs: Checked) -> (r: Checked)
        ensures
            r@ == difference(self@, rhs@),
    {
        match (self.value, rhs.value) {
            (Err(e), _) => Checked { value: Err(e) },
            (_, Err(e)) => Checked { value: Err(e) },
            (Ok(a), Ok(b)) => Checked::narrowed(a.raw as i128 - b.raw as i128),
        }
    }

    /// `self * rhs`, rounded to the nearest billionth.
    pub fn times(self, rhs: Checked) -> (r: Checked)
        ensures
            r@ == product(self@, rhs@),
    {
        match (self.value, rhs.value) {
            (Err(e), _) => Checked { value: Err(e) },
            (_, Err(e)) => Checked { value: Err(e) },
            (Ok(a), Ok(b)) => {
                assert(magnitude(a.raw * b.raw) <= 0x4000_0000_0000_0000_0000_0000_0000_0000)
                    by (nonlinear_arith)
                    requires
                        i64::MIN <= a.raw <= i64::MAX,
                        i64::MIN <= b.raw <= i64::MAX,
                ;
                let wide: i128 = (a.raw as i128) * (b.raw as i128);
                Checked::narrowed(round_quotient(wide, SCALE as i128))
            },
        }
    }

    /// `self / rhs`, rounded to the nearest billionth.
    pub fn over(self, rhs: Checked) -> (r: Checked)
        ensures
            r@ == quotient(self@, rhs@),
    {
        match (self.value, rhs.value) {
            (Err(e), _) => Checked { value: Err(e) },
            (_, Err(e)) => Checked { value: Err(e) },
            (Ok(a), Ok(b)) => {
                if b.raw == 0 {
                    Checked { value: Err(Fault::DivisionByZero) }
                } else {
                    assert(magnitude(a.raw * SCALE) <= 0x4000_0000_0000_0000_0000_0000_0000_0000)
                        by (nonlinear_arith)
                        requires
                            i64::MIN <= a.raw <= i64::MAX,
                            SCALE == 1_000_000_000,
                    ;
                    let wide: i128 = (a.raw as i128) * (SCALE as i128);
                    Checked::narrowed(round_quotient(wide, b.raw as i128))
                }
            },
        }
    }

    /// `self` raised to the power `n`, by `n` rounded multiplications.
    pub fn raised_to(self, n: u64) -> (r: Checked)
        ensures
            r@ == power(self@, n as nat),
    {
        let base = match self.value {
            Err(e) => {
                return Checked { value: Err(e) };
            },
            Ok(b) => b,
        };
        let mut acc = Checked::of(Fixed::one());
        let mut i: u64 = 0;
        while i < n
            invariant
                i <= n,
                self.value == Ok::<Fixed, Fault>(base),
                acc@ == fx_pow(base@, i as nat),
            decreases n - i,
        {
            if acc.value.is_err() {
                proof {
                    lemma_power_fault_persists(base@, i as nat, n as nat);
                }
                return acc;
            }
            acc = acc.times(self);
            i = i + 1;
        }
        acc
    }
}

} // verus!
