//! Exact decimal arithmetic: an arithmetic tree over DECIMAL operands is
//! evaluated as a reduced rational and rounded only when its result is
//! materialized, so `(14620/9432456)/(24250/9432456)` keeps every digit an
//! intermediate rounding would lose.
use crate::chars::{decimal, padded, string_of};
use vstd::prelude::*;

verus! {

/// Why an expression failed.
#[derive(Clone, Copy, Debug, PartialEq, Eq, Structural)]
pub enum ExecError {
    NumericOverflow,
    InvalidDateTime,
    InvalidExpressionType,
    /// Bytes read as text that are no valid UTF-8.
    InvalidUtf8Number,
}

/// The magnitude of an integer.
pub open spec fn magnitude(x: int) -> nat {
    if x < 0 { (-x) as nat } else { x as nat }
}

/// The greatest common divisor, by Euclid's algorithm (`gcd(0, 0) == 0`).
pub open spec fn gcd(a: nat, b: nat) -> nat
    decreases b,
{
    if b == 0 { a } else { gcd(b, a % b) }
}

/// Whether a value fits `i128`.
pub open spec fn fits(x: int) -> bool {
    i128::MIN <= x <= i128::MAX
}

/// Division truncated toward zero, as Rust's integer `/`.
pub open spec fn trunc_div(a: int, b: int) -> int {
    if a >= 0 { a / b } else { -((-a) / b) }
}

/// `decimal_gcd`: the gcd of the magnitudes, at least 1; `None` when it
/// does not fit `i128`.
pub open spec fn gcd_of(left: int, right: int) -> Option<int> {
    let g = gcd(magnitude(left), magnitude(right));
    let g1 = if g == 0 { 1 } else { g as int };
    if g1 > i128::MAX { None } else { Some(g1) }
}

/// A fraction in lowest terms with a positive denominator; `None` on a
/// zero denominator or where negating a part overflows.
pub open spec fn reduced(numerator: int, denominator: int) -> Option<(int, int)> {
    if denominator == 0 {
        None
    } else if denominator < 0 && (numerator == i128::MIN || denominator == i128::MIN) {
        None
    } else {
        let n = if denominator < 0 { -numerator } else { numerator };
        let d = if denominator < 0 { -denominator } else { denominator };
        if n == 0 {
            Some((0, 1))
        } else {
            let g = gcd(magnitude(n), magnitude(d)) as int;
            Some((n / g, d / g))
        }
    }
}

/// An exact rational; the denominator is positive.
#[derive(Clone, Copy, Debug, PartialEq, Eq, Structural)]
pub struct DecimalRational {
    pub numerator: i128,
    pub denominator: i128,
}

impl DecimalRational {
    /// A rational whose denominator is positive.
    pub open spec fn wf(&self) -> bool {
        self.denominator > 0
    }

    /// The numerator and denominator.
    pub open spec fn parts(&self) -> (int, int) {
        (self.numerator as int, self.denominator as int)
    }
}

/// `gcd` divides both of its arguments.
pub proof fn lemma_gcd_divides(a: nat, b: nat)
    ensures
        gcd(a, b) > 0 ==> a % gcd(a, b) == 0 && b % gcd(a, b) == 0,
        (a > 0 || b > 0) ==> gcd(a, b) > 0,
    decreases b,
{
    if b > 0 {
        lemma_gcd_divides(b, a % b);
        let g = gcd(b, a % b);
        if g > 0 {
            let q = a / b;
            let k1 = b / g;
            let k2 = (a % b) / g;
            assert(a == q * b + a % b) by (nonlinear_arith)
                requires
                    b > 0,
                    q == a / b,
            ;
            assert(b == k1 * g && a % b == k2 * g) by (nonlinear_arith)
                requires
                    g > 0,
                    b % g == 0,
                    (a % b) % g == 0,
                    k1 == b / g,
                    k2 == (a % b) / g,
            ;
            assert(a == (q * k1 + k2) * g) by (nonlinear_arith)
                requires
                    a == q * b + a % b,
                    b == k1 * g,
                    a % b == k2 * g,
            ;
            assert(a % g == 0) by (nonlinear_arith)
                requires
                    a == (q * k1 + k2) * g,
                    g > 0,
                    q * k1 + k2 >= 0,
            ;
        }
    }
}

/// A divisor of `-x` divides `x`.
pub proof fn lemma_neg_divisible(x: int, g: int)
    requires
        g > 0,
        (-x) % g == 0,
    ensures
        x % g == 0,
{
    let k = (-x) / g;
    assert(-x == k * g) by (nonlinear_arith)
        requires
            g > 0,
            (-x) % g == 0,
            k == (-x) / g,
    ;
    assert(x == (-k) * g) by (nonlinear_arith)
        requires
            -x == k * g,
    ;
    assert(x % g == 0) by (nonlinear_arith)
        requires
            x == (-k) * g,
            g > 0,
    ;
}

/// Exact division truncates and floors alike.
pub proof fn lemma_exact_div(a: int, b: int)
    requires
        b > 0,
        a % b == 0,
    ensures
        trunc_div(a, b) == a / b,
{
    if a < 0 {
        lemma_neg_divisible(-a, b);
        let k = a / b;
        assert(a == k * b) by (nonlinear_arith)
            requires
                b > 0,
                a % b == 0,
                k == a / b,
        ;
        assert((-a) / b == -k) by (nonlinear_arith)
            requires
                b > 0,
                a == k * b,
        ;
    }
}

/// The gcd of two values is no larger than a positive second value.
pub proof fn lemma_gcd_bound(a: nat, b: nat)
    requires
        b > 0,
    ensures
        0 < gcd(a, b) <= b,
{
    lemma_gcd_divides(a, b);
    let g = gcd(a, b);
    assert(g <= b) by (nonlinear_arith)
        requires
            b > 0,
            g > 0,
            b % g == 0,
    {
        if g > b {
            assert(b % g == b);
        }
    }
}

/// `decimal_gcd`: the gcd of two values' magnitudes, at least 1.
pub fn decimal_gcd(left: i128, right: i128) -> (r: Result<i128, ExecError>)
    ensures
        r matches Ok(g) ==> gcd_of(left as int, right as int) == Some(g as int),
        r is Err ==> gcd_of(left as int, right as int) is None && r == Err::<i128, ExecError>(
            ExecError::NumericOverflow,
        ),
{
    let mut a: u128 = if left < 0 { (-(left + 1)) as u128 + 1 } else { left as u128 };
    let mut b: u128 = if right < 0 { (-(right + 1)) as u128 + 1 } else { right as u128 };
    assert(a == magnitude(left as int) && b == magnitude(right as int));
    while b != 0
        invariant
            gcd(a as nat, b as nat) == gcd(magnitude(left as int), magnitude(right as int)),
        decreases b,
    {
        let t = a % b;
        a = b;
        b = t;
    }
    let g = if a == 0 { 1 } else { a };
    if g > 0x7fff_ffff_ffff_ffff_ffff_ffff_ffff_ffffu128 {
        Err(ExecError::NumericOverflow)
    } else {
        Ok(g as i128)
    }
}

/// Whether the spec of a result matches an exec result.
pub open spec fn matches_parts(r: Result<DecimalRational, ExecError>, s: Option<(int, int)>) -> bool {
    match s {
        Some(p) => r matches Ok(v) && v.parts() == p && v.wf(),
        None => r == Err::<DecimalRational, ExecError>(ExecError::NumericOverflow),
    }
}

/// A reduced fraction has a positive denominator.
proof fn lemma_reduced_wf(numerator: int, denominator: int)
    requires
        reduced(numerator, denominator) is Some,
    ensures
        reduced(numerator, denominator).unwrap().1 > 0,
        fits(numerator) && fits(denominator) ==> fits(reduced(numerator, denominator).unwrap().0)
            && fits(reduced(numerator, denominator).unwrap().1),
{
    let n = if denominator < 0 { -numerator } else { numerator };
    let d = if denominator < 0 { -denominator } else { denominator };
    if n != 0 {
        lemma_gcd_bound(magnitude(n), magnitude(d));
        let g = gcd(magnitude(n), magnitude(d)) as int;
        lemma_gcd_divides(magnitude(n), magnitude(d));
        assert(d / g > 0 && d / g <= d) by (nonlinear_arith)
            requires
                d > 0,
                g > 0,
                g <= d,
        ;
        if n < 0 {
            assert(n <= n / g <= 0) by (nonlinear_arith)
                requires
                    g >= 1,
                    n < 0,
            ;
        } else {
            assert(0 <= n / g <= n) by (nonlinear_arith)
                requires
                    g >= 1,
                    n > 0,
            ;
        }
    }
}

impl DecimalRational {
    /// A fraction in lowest terms with a positive denominator.
    pub fn new(numerator: i128, denominator: i128) -> (r: Result<Self, ExecError>)
        ensures
            matches_parts(r, reduced(numerator as int, denominator as int)),
    {
        if denominator == 0 {
            return Err(ExecError::NumericOverflow);
        }
        if denominator < 0 && (numerator == i128::MIN || denominator == i128::MIN) {
            return Err(ExecError::NumericOverflow);
        }
        let (n, d) = if denominator < 0 { (-numerator, -denominator) } else { (numerator, denominator) };
        if n == 0 {
            return Ok(DecimalRational { numerator: 0, denominator: 1 });
        }
        proof {
            lemma_gcd_bound(magnitude(n as int), magnitude(d as int));
            lemma_gcd_divides(magnitude(n as int), magnitude(d as int));
            lemma_reduced_wf(numerator as int, denominator as int);
        }
        let divisor = match decimal_gcd(n, d) {
            Ok(g) => g,
            Err(e) => return Err(e),
        };
        proof {
            let g = gcd(magnitude(n as int), magnitude(d as int)) as int;
            assert(divisor == g);
            assert((d as int) % g == 0);
            assert((n as int) % (g as int) == 0) by {
                if n < 0 {
                    assert(magnitude(n as int) == -n);
                    assert((-(n as int)) % (g as int) == 0);
                    lemma_neg_divisible(n as int, g as int);
                }
            }
        }
        assert((n as int) % (divisor as int) == 0);
        assert(divisor > 0);
        let q = n / divisor;
        let e = d / divisor;
        assert(q == trunc_div(n as int, divisor as int));
        proof {
            lemma_exact_div(n as int, divisor as int);
        }
        assert(q == (n as int) / (divisor as int));
        assert(e == (d as int) / (divisor as int));
        assert(n as int == (if denominator < 0 { -numerator } else { numerator as int }));
        let r = DecimalRational { numerator: q, denominator: e };
        assert(r.parts() == reduced(numerator as int, denominator as int).unwrap());
        Ok(r)
    }
}


/// Ten to the `k`.
pub open spec fn ten_pow(k: nat) -> int
    decreases k,
{
    if k == 0 { 1 } else { 10 * ten_pow((k - 1) as nat) }
}

/// `10_i128.checked_pow(scale)`.
pub fn checked_ten_pow(scale: u8) -> (r: Option<i128>)
    ensures
        r matches Some(v) ==> v == ten_pow(scale as nat),
        r is None ==> !fits(ten_pow(scale as nat)),
{
    let mut value: i128 = 1;
    let mut k: u8 = 0;
    while k < scale
        invariant
            k <= scale,
            value == ten_pow(k as nat),
            value >= 1,
        decreases scale - k,
    {
        if value > i128::MAX / 10 {
            proof {
                lemma_ten_pow_grows(k as nat, scale as nat);
            }
            return None;
        }
        value = value * 10;
        k = k + 1;
    }
    Some(value)
}

/// Powers of ten grow with the exponent.
pub proof fn lemma_ten_pow_grows(a: nat, b: nat)
    requires
        a < b,
    ensures
        ten_pow(b) >= 10 * ten_pow(a),
        ten_pow(a) >= 1,
    decreases b - a,
{
    lemma_ten_pow_positive(a);
    if b > a + 1 {
        lemma_ten_pow_grows(a, (b - 1) as nat);
    }
    lemma_ten_pow_positive((b - 1) as nat);
}

/// Powers of ten are positive.
pub proof fn lemma_ten_pow_positive(a: nat)
    ensures
        ten_pow(a) >= 1,
    decreases a,
{
    if a > 0 {
        lemma_ten_pow_positive((a - 1) as nat);
    }
}

/// Negation.
pub open spec fn negated_parts(a: (int, int)) -> Option<(int, int)> {
    if a.0 == i128::MIN { None } else { reduced(-a.0, a.1) }
}

/// Addition or subtraction over a common denominator.
pub open spec fn add_sub_parts(a: (int, int), b: (int, int), subtract: bool) -> Option<(int, int)> {
    match gcd_of(a.1, b.1) {
        None => None,
        Some(shared) => {
            let left_factor = b.1 / shared;
            let right_factor = a.1 / shared;
            let left = a.0 * left_factor;
            let right = b.0 * right_factor;
            let numerator = if subtract { left - right } else { left + right };
            let denominator = right_factor * b.1;
            if !fits(left) || !fits(right) || !fits(numerator) || !fits(denominator) {
                None
            } else {
                reduced(numerator, denominator)
            }
        },
    }
}

/// Multiplication, cross-cancelled first so that reciprocal factors do not
/// overflow.
pub open spec fn multiply_parts(a: (int, int), b: (int, int)) -> Option<(int, int)> {
    match (gcd_of(a.0, b.1), gcd_of(b.0, a.1)) {
        (Some(left_cancel), Some(right_cancel)) => {
            let numerator = (a.0 / left_cancel) * (b.0 / right_cancel);
            let denominator = (a.1 / right_cancel) * (b.1 / left_cancel);
            if !fits(numerator) || !fits(denominator) {
                None
            } else {
                reduced(numerator, denominator)
            }
        },
        _ => None,
    }
}

/// Division: `Some(None)` for a zero divisor, cross-cancelled like
/// multiplication.
pub open spec fn divide_parts(a: (int, int), b: (int, int)) -> Option<Option<(int, int)>> {
    if b.0 == 0 {
        Some(None)
    } else {
        match (gcd_of(a.0, b.0), gcd_of(b.1, a.1)) {
            (Some(numerator_cancel), Some(denominator_cancel)) => {
                let numerator = (a.0 / numerator_cancel) * (b.1 / denominator_cancel);
                let denominator = (a.1 / denominator_cancel) * (b.0 / numerator_cancel);
                if !fits(numerator) || !fits(denominator) {
                    None
                } else {
                    match reduced(numerator, denominator) {
                        Some(p) => Some(Some(p)),
                        None => None,
                    }
                }
            },
            _ => None,
        }
    }
}

/// Truncation toward zero to `scale` fractional digits.
pub open spec fn truncated_parts(a: (int, int), scale: nat) -> Option<(int, int)> {
    let factor = ten_pow(scale);
    if !fits(factor) {
        None
    } else {
        match gcd_of(factor, a.1) {
            None => None,
            Some(cancel) => {
                let numerator = a.0 * (factor / cancel);
                if !fits(numerator) {
                    None
                } else {
                    reduced(trunc_div(numerator, a.1 / cancel), factor)
                }
            },
        }
    }
}

/// `a` divides by the gcd of `a` and anything, exactly.
proof fn lemma_gcd_of_divides(a: int, b: int)
    requires
        gcd_of(a, b) is Some,
    ensures
        gcd_of(a, b).unwrap() >= 1,
        a % gcd_of(a, b).unwrap() == 0,
        b % gcd_of(a, b).unwrap() == 0,
{
    lemma_gcd_divides(magnitude(a), magnitude(b));
    let g = gcd(magnitude(a), magnitude(b));
    if g > 0 {
        if a < 0 {
            lemma_neg_divisible(a, g as int);
        }
        if b < 0 {
            lemma_neg_divisible(b, g as int);
        }
    } else {
        assert(magnitude(a) == 0 && magnitude(b) == 0) by {
            if magnitude(a) > 0 || magnitude(b) > 0 {
                assert(gcd(magnitude(a), magnitude(b)) > 0);
            }
        }
    }
}

/// An exact quotient, computed with Rust's `/`.
fn exact_div(a: i128, b: i128) -> (r: i128)
    requires
        b >= 1,
        (a as int) % (b as int) == 0,
    ensures
        r == (a as int) / (b as int),
{
    let r = a / b;
    proof {
        lemma_exact_div(a as int, b as int);
    }
    r
}

/// The quotient of a value by a positive divisor lies between zero and it.
proof fn lemma_div_shrinks(a: int, b: int)
    requires
        b >= 1,
    ensures
        a >= 0 ==> 0 <= a / b <= a,
        a < 0 ==> a <= a / b <= 0,
{
    if a >= 0 {
        assert(0 <= a / b <= a) by (nonlinear_arith)
            requires
                b >= 1,
                a >= 0,
        ;
    } else {
        assert(a <= a / b <= 0) by (nonlinear_arith)
            requires
                b >= 1,
                a < 0,
        ;
    }
}

/// `checked_mul` of `i128`.
fn mul_checked(a: i128, b: i128) -> (r: Option<i128>)
    ensures
        r matches Some(v) ==> v == a * b,
        r is None ==> !fits(a * b),
{
    if a == 0 || b == 0 {
        return Some(0);
    }
    a.checked_mul(b)
}

impl DecimalRational {
    /// Negation.
    pub fn negated(self) -> (r: Result<Self, ExecError>)
        requires
            self.wf(),
        ensures
            matches_parts(r, negated_parts(self.parts())),
    {
        if self.numerator == i128::MIN {
            return Err(ExecError::NumericOverflow);
        }
        Self::new(-self.numerator, self.denominator)
    }

    /// Addition, or subtraction when `subtract`.
    pub fn add_sub(self, other: Self, subtract: bool) -> (r: Result<Self, ExecError>)
        requires
            self.wf(),
            other.wf(),
        ensures
            matches_parts(r, add_sub_parts(self.parts(), other.parts(), subtract)),
    {
        let shared = match decimal_gcd(self.denominator, other.denominator) {
            Ok(g) => g,
            Err(e) => return Err(e),
        };
        proof {
            lemma_gcd_of_divides(self.denominator as int, other.denominator as int);
            lemma_div_shrinks(self.denominator as int, shared as int);
            lemma_div_shrinks(other.denominator as int, shared as int);
        }
        let left_factor = exact_div(other.denominator, shared);
        let right_factor = exact_div(self.denominator, shared);
        let left = match mul_checked(self.numerator, left_factor) {
            Some(v) => v,
            None => return Err(ExecError::NumericOverflow),
        };
        let right = match mul_checked(other.numerator, right_factor) {
            Some(v) => v,
            None => return Err(ExecError::NumericOverflow),
        };
        let numerator = if subtract {
            match left.checked_sub(right) {
                Some(v) => v,
                None => return Err(ExecError::NumericOverflow),
            }
        } else {
            match left.checked_add(right) {
                Some(v) => v,
                None => return Err(ExecError::NumericOverflow),
            }
        };
        let denominator = match mul_checked(right_factor, other.denominator) {
            Some(v) => v,
            None => return Err(ExecError::NumericOverflow),
        };
        Self::new(numerator, denominator)
    }

    /// Multiplication, cross-cancelling before multiplying: decimal chains
    /// commonly hold reciprocal factors, and multiplying first would
    /// overflow where the reduced result fits comfortably.
    pub fn multiply(self, other: Self) -> (r: Result<Self, ExecError>)
        requires
            self.wf(),
            other.wf(),
        ensures
            matches_parts(r, multiply_parts(self.parts(), other.parts())),
    {
        let left_cancel = match decimal_gcd(self.numerator, other.denominator) {
            Ok(g) => g,
            Err(e) => return Err(e),
        };
        let right_cancel = match decimal_gcd(other.numerator, self.denominator) {
            Ok(g) => g,
            Err(e) => return Err(e),
        };
        proof {
            lemma_gcd_of_divides(self.numerator as int, other.denominator as int);
            lemma_gcd_of_divides(other.numerator as int, self.denominator as int);
            lemma_div_shrinks(self.numerator as int, left_cancel as int);
            lemma_div_shrinks(other.numerator as int, right_cancel as int);
            lemma_div_shrinks(self.denominator as int, right_cancel as int);
            lemma_div_shrinks(other.denominator as int, left_cancel as int);
        }
        let a = exact_div(self.numerator, left_cancel);
        let b = exact_div(other.numerator, right_cancel);
        let c = exact_div(self.denominator, right_cancel);
        let d = exact_div(other.denominator, left_cancel);
        let numerator = match mul_checked(a, b) {
            Some(v) => v,
            None => return Err(ExecError::NumericOverflow),
        };
        let denominator = match mul_checked(c, d) {
            Some(v) => v,
            None => return Err(ExecError::NumericOverflow),
        };
        Self::new(numerator, denominator)
    }

    /// Division: `Ok(None)` for a zero divisor, which SQL reads as NULL.
    pub fn divide(self, other: Self) -> (r: Result<Option<Self>, ExecError>)
        requires
            self.wf(),
            other.wf(),
        ensures
            match divide_parts(self.parts(), other.parts()) {
                Some(None) => r == Ok::<Option<Self>, ExecError>(None),
                Some(Some(p)) => r matches Ok(Some(v)) && v.parts() == p && v.wf(),
                None => r == Err::<Option<Self>, ExecError>(ExecError::NumericOverflow),
            },
    {
        if other.numerator == 0 {
            return Ok(None);
        }
        let numerator_cancel = match decimal_gcd(self.numerator, other.numerator) {
            Ok(g) => g,
            Err(e) => return Err(e),
        };
        let denominator_cancel = match decimal_gcd(other.denominator, self.denominator) {
            Ok(g) => g,
            Err(e) => return Err(e),
        };
        proof {
            lemma_gcd_of_divides(self.numerator as int, other.numerator as int);
            lemma_gcd_of_divides(other.denominator as int, self.denominator as int);
            lemma_div_shrinks(self.numerator as int, numerator_cancel as int);
            lemma_div_shrinks(other.numerator as int, numerator_cancel as int);
            lemma_div_shrinks(self.denominator as int, denominator_cancel as int);
            lemma_div_shrinks(other.denominator as int, denominator_cancel as int);
        }
        let a = exact_div(self.numerator, numerator_cancel);
        let b = exact_div(other.denominator, denominator_cancel);
        let c = exact_div(self.denominator, denominator_cancel);
        let d = exact_div(other.numerator, numerator_cancel);
        let numerator = match mul_checked(a, b) {
            Some(v) => v,
            None => return Err(ExecError::NumericOverflow),
        };
        let denominator = match mul_checked(c, d) {
            Some(v) => v,
            None => return Err(ExecError::NumericOverflow),
        };
        match Self::new(numerator, denominator) {
            Ok(v) => Ok(Some(v)),
            Err(e) => Err(e),
        }
    }

    /// Truncation toward zero to `scale` fractional digits.
    pub fn truncated(self, scale: u8) -> (r: Result<Self, ExecError>)
        requires
            self.wf(),
        ensures
            matches_parts(r, truncated_parts(self.parts(), scale as nat)),
    {
        let factor = match checked_ten_pow(scale) {
            Some(f) => f,
            None => return Err(ExecError::NumericOverflow),
        };
        proof {
            lemma_ten_pow_positive(scale as nat);
        }
        let cancel = match decimal_gcd(factor, self.denominator) {
            Ok(g) => g,
            Err(e) => return Err(e),
        };
        proof {
            lemma_gcd_of_divides(factor as int, self.denominator as int);
            lemma_div_shrinks(factor as int, cancel as int);
            lemma_div_shrinks(self.denominator as int, cancel as int);
        }
        let scaled = exact_div(factor, cancel);
        let divisor = exact_div(self.denominator, cancel);
        let numerator = match mul_checked(self.numerator, scaled) {
            Some(v) => v,
            None => return Err(ExecError::NumericOverflow),
        };
        assert(divisor >= 1) by {
            assert((self.denominator as int) % (cancel as int) == 0);
            assert(divisor as int * cancel as int == self.denominator as int) by (nonlinear_arith)
                requires
                    divisor == (self.denominator as int) / (cancel as int),
                    (self.denominator as int) % (cancel as int) == 0,
                    cancel >= 1,
            ;
            assert(divisor > 0) by (nonlinear_arith)
                requires
                    divisor as int * cancel as int == self.denominator as int,
                    self.denominator > 0,
                    cancel >= 1,
            ;
        }
        let units = numerator / divisor;
        Self::new(units, factor)
    }
}


/// Division rounded half away from zero.
pub open spec fn round_half_away(n: int, d: int) -> int {
    let q = trunc_div(n, d);
    let r = n - q * d;
    if 2 * magnitude(r) >= d { q + (if n < 0 { -1int } else { 1int }) } else { q }
}

/// Decimal text of `units` scaled by ten to the `scale`: the sign, the
/// integer digits, and exactly `scale` fraction digits after a point.
pub open spec fn scaled_text(units: int, scale: nat) -> Seq<char> {
    let m = magnitude(units);
    let whole = m / (ten_pow(scale) as nat);
    let fraction = m % (ten_pow(scale) as nat);
    (if units < 0 { seq!['-'] } else { Seq::empty() }) + decimal(whole) + (if scale > 0 {
        seq!['.'] + padded(fraction, scale as int)
    } else {
        Seq::empty()
    })
}

/// The units of a rational rounded half away from zero to `scale`
/// fractional digits; `None` on overflow.
pub open spec fn rounded_units(a: (int, int), scale: nat) -> Option<int> {
    let factor = ten_pow(scale);
    if !fits(factor) {
        None
    } else {
        match gcd_of(factor, a.1) {
            None => None,
            Some(cancel) => {
                let numerator = a.0 * (factor / cancel);
                if !fits(numerator) {
                    None
                } else {
                    Some(round_half_away(numerator, a.1 / cancel))
                }
            },
        }
    }
}

/// Division rounded half away from zero, for a positive divisor.
pub fn div_round_half_away(n: i128, d: i128) -> (r: i128)
    requires
        d >= 1,
    ensures
        r == round_half_away(n as int, d as int),
{
    let q = n / d;
    assert(q == trunc_div(n as int, d as int));
    proof {
        lemma_trunc_bounds(n as int, d as int);
    }
    let r = n - q * d;
    let magnitude_r: i128 = if r < 0 { -r } else { r };
    if magnitude_r >= d - magnitude_r {
        if d == 1 {
            assert(false);
        }
        if n < 0 { q - 1 } else { q + 1 }
    } else {
        q
    }
}

/// Truncated division leaves a remainder smaller than the divisor, of the
/// dividend's sign, and a quotient no larger than half the dividend when
/// the divisor exceeds one.
pub(crate) proof fn lemma_trunc_bounds(n: int, d: int)
    requires
        d >= 1,
    ensures
        ({
            let q = trunc_div(n, d);
            let r = n - q * d;
            &&& magnitude(r) < d
            &&& (n >= 0 ==> 0 <= r && 0 <= q <= n)
            &&& (n < 0 ==> r <= 0 && n <= q <= 0)
            &&& (d >= 2 ==> 2 * magnitude(q) <= magnitude(n))
            &&& (d == 1 ==> r == 0)
        }),
{
    let q = trunc_div(n, d);
    if n >= 0 {
        assert(0 <= n - (n / d) * d < d && 0 <= n / d <= n) by (nonlinear_arith)
            requires
                d >= 1,
                n >= 0,
        ;
        if d >= 2 {
            assert(2 * (n / d) <= n) by (nonlinear_arith)
                requires
                    d >= 2,
                    n >= 0,
            ;
        }
        if d == 1 {
            assert(n / d == n) by (nonlinear_arith)
                requires
                    d == 1,
            ;
        }
    } else {
        let m = -n;
        assert(0 <= m - (m / d) * d < d && 0 <= m / d <= m) by (nonlinear_arith)
            requires
                d >= 1,
                m > 0,
        ;
        if d >= 2 {
            assert(2 * (m / d) <= m) by (nonlinear_arith)
                requires
                    d >= 2,
                    m > 0,
            ;
        }
        if d == 1 {
            assert(m / d == m) by (nonlinear_arith)
                requires
                    d == 1,
            ;
        }
        assert(q == -(m / d));
        assert(n - q * d == -(m - (m / d) * d)) by (nonlinear_arith)
            requires
                q == -(m / d),
                n == -m,
        ;
    }
}

/// `format_decimal_scaled`: the decimal text of scaled units.
pub fn format_decimal_scaled(units: i128, scale: u8) -> (r: String)
    requires
        scale <= 38,
    ensures
        r@ == scaled_text(units as int, scale as nat),
{
    let m: u128 = if units < 0 { (-(units + 1)) as u128 + 1 } else { units as u128 };
    assert(m == magnitude(units as int));
    let factor = match checked_ten_pow(scale) {
        Some(f) => f,
        None => {
            proof {
                lemma_ten_pow_38(scale as nat);
            }
            return String::new();
        },
    };
    proof {
        lemma_ten_pow_positive(scale as nat);
    }
    let f = factor as u128;
    let whole = m / f;
    let fraction = m % f;
    let mut out: Vec<char> = Vec::new();
    if units < 0 {
        out.push('-');
    }
    let ghost sign = out@;
    assert(whole <= u64::MAX || true);
    push_u128_decimal(&mut out, whole);
    if scale > 0 {
        out.push('.');
        push_u128_padded(&mut out, fraction, scale as usize);
    }
    assert(out@ =~= scaled_text(units as int, scale as nat));
    string_of(out.as_slice())
}

/// Ten to the 38th fits `i128`.
proof fn lemma_ten_pow_38(k: nat)
    requires
        k <= 38,
    ensures
        fits(ten_pow(k)),
    decreases 38 - k,
{
    if k < 38 {
        lemma_ten_pow_38(k + 1);
        lemma_ten_pow_grows(k, k + 1);
        lemma_ten_pow_positive(k);
    } else {
        assert(ten_pow(38) == 100000000000000000000000000000000000000) by {
            reveal_with_fuel(ten_pow, 39);
        }
    }
}

/// Appends the decimal digits of a 128-bit value.
fn push_u128_decimal(out: &mut Vec<char>, n: u128)
    ensures
        final(out)@ == old(out)@ + decimal(n as nat),
    decreases n,
{
    if n >= 10 {
        push_u128_decimal(out, n / 10);
    }
    let d = (n % 10) as u8;
    out.push((d + 48) as char);
    proof {
        if n >= 10 {
            assert(out@ =~= old(out)@ + decimal((n / 10) as nat).push(crate::chars::digit_char((n % 10) as int)));
        } else {
            assert(out@ =~= old(out)@ + decimal(n as nat));
        }
    }
}

/// The number of decimal digits of a 128-bit value.
fn u128_digit_count(n: u128) -> (r: usize)
    ensures
        r == decimal(n as nat).len(),
    decreases n,
{
    proof {
        assert(crate::chars::pow10(39) > u128::MAX) by {
            reveal_with_fuel(crate::chars::pow10, 40);
        }
        crate::chars::lemma_decimal_len(n as nat, 39);
    }
    if n < 10 {
        1
    } else {
        u128_digit_count(n / 10) + 1
    }
}

/// Appends a 128-bit value zero-padded to `width` digits.
fn push_u128_padded(out: &mut Vec<char>, n: u128, width: usize)
    ensures
        final(out)@ == old(out)@ + padded(n as nat, width as int),
{
    let count = u128_digit_count(n);
    let mut i: usize = count;
    while i < width
        invariant
            count <= i,
            i <= width || i == count,
            out@ == old(out)@ + crate::chars::zeros(i - count),
        decreases width - i,
    {
        out.push('0');
        i = i + 1;
        assert(out@ =~= old(out)@ + crate::chars::zeros(i - count));
    }
    push_u128_decimal(out, n);
    assert(crate::chars::zeros(i - count) =~= crate::chars::zeros(width - count));
    assert(out@ =~= old(out)@ + padded(n as nat, width as int));
}

impl DecimalRational {
    /// The rational rounded half away from zero to `scale` fractional
    /// digits, as decimal text: the point at which a decimal chain's exact
    /// value is materialized.
    pub fn rounded(self, scale: u8) -> (r: Result<String, ExecError>)
        requires
            self.wf(),
            scale <= 38,
        ensures
            match rounded_units(self.parts(), scale as nat) {
                Some(units) => r matches Ok(text) && fits(units) && text@ == scaled_text(units, scale as nat),
                None => r == Err::<String, ExecError>(ExecError::NumericOverflow),
            },
    {
        let factor = match checked_ten_pow(scale) {
            Some(f) => f,
            None => return Err(ExecError::NumericOverflow),
        };
        proof {
            lemma_ten_pow_positive(scale as nat);
        }
        let cancel = match decimal_gcd(factor, self.denominator) {
            Ok(g) => g,
            Err(e) => return Err(e),
        };
        proof {
            lemma_gcd_of_divides(factor as int, self.denominator as int);
            lemma_div_shrinks(factor as int, cancel as int);
            lemma_div_shrinks(self.denominator as int, cancel as int);
        }
        let scaled = exact_div(factor, cancel);
        let denominator = exact_div(self.denominator, cancel);
        let numerator = match mul_checked(self.numerator, scaled) {
            Some(v) => v,
            None => return Err(ExecError::NumericOverflow),
        };
        assert(denominator >= 1) by {
            assert(denominator as int * cancel as int == self.denominator as int) by (nonlinear_arith)
                requires
                    denominator == (self.denominator as int) / (cancel as int),
                    (self.denominator as int) % (cancel as int) == 0,
                    cancel >= 1,
            ;
            assert(denominator > 0) by (nonlinear_arith)
                requires
                    denominator as int * cancel as int == self.denominator as int,
                    self.denominator > 0,
                    cancel >= 1,
            ;
        }
        let units = div_round_half_away(numerator, denominator);
        Ok(format_decimal_scaled(units, scale))
    }
}


/// Reduction keeps the value: the reduced fraction equals `n / d`, and its
/// denominator is positive.
pub proof fn lemma_reduced_value(n: int, d: int)
    requires
        reduced(n, d) is Some,
    ensures
        reduced(n, d).unwrap().0 * d == n * reduced(n, d).unwrap().1,
        reduced(n, d).unwrap().1 > 0,
{
    lemma_reduced_wf(n, d);
    let n1 = if d < 0 { -n } else { n };
    let d1 = if d < 0 { -d } else { d };
    if n1 == 0 {
        assert(n == 0);
        assert(reduced(n, d).unwrap() == (0int, 1int));
        assert(0 * d == n * 1) by (nonlinear_arith)
            requires
                n == 0,
        ;
    } else {
        let g = gcd(magnitude(n1), magnitude(d1)) as int;
        lemma_gcd_bound(magnitude(n1), magnitude(d1));
        lemma_gcd_divides(magnitude(n1), magnitude(d1));
        if n1 < 0 {
            lemma_neg_divisible(n1, g);
        }
        let p = n1 / g;
        let q = d1 / g;
        assert(n1 == p * g && d1 == q * g) by (nonlinear_arith)
            requires
                g >= 1,
                n1 % g == 0,
                d1 % g == 0,
                p == n1 / g,
                q == d1 / g,
        ;
        assert(reduced(n, d).unwrap() == (p, q));
        assert(p * d1 == n1 * q) by (nonlinear_arith)
            requires
                n1 == p * g,
                d1 == q * g,
        ;
        if d >= 0 {
            assert(n1 == n && d1 == d);
        } else {
            assert(p * d == n * q) by (nonlinear_arith)
                requires
                    p * d1 == n1 * q,
                    n1 == -n,
                    d1 == -d,
            ;
        }
    }
}

/// Addition and subtraction are exact: `p / q == a.0 / a.1 ± b.0 / b.1`.
pub proof fn law_add_sub_exact(a: (int, int), b: (int, int), subtract: bool)
    requires
        a.1 > 0,
        b.1 > 0,
        add_sub_parts(a, b, subtract) is Some,
    ensures
        ({
            let (p, q) = add_sub_parts(a, b, subtract).unwrap();
            &&& q > 0
            &&& p * (a.1 * b.1) == (if subtract { a.0 * b.1 - b.0 * a.1 } else { a.0 * b.1 + b.0 * a.1 }) * q
        }),
{
    let shared = gcd_of(a.1, b.1).unwrap();
    lemma_gcd_of_divides(a.1, b.1);
    let lf = b.1 / shared;
    let rf = a.1 / shared;
    assert(b.1 == lf * shared && a.1 == rf * shared) by (nonlinear_arith)
        requires
            shared >= 1,
            a.1 % shared == 0,
            b.1 % shared == 0,
            lf == b.1 / shared,
            rf == a.1 / shared,
    ;
    let numerator = if subtract { a.0 * lf - b.0 * rf } else { a.0 * lf + b.0 * rf };
    let denominator = rf * b.1;
    lemma_reduced_value(numerator, denominator);
    let (p, q) = reduced(numerator, denominator).unwrap();
    let combined = if subtract { a.0 * b.1 - b.0 * a.1 } else { a.0 * b.1 + b.0 * a.1 };
    assert(a.1 * b.1 == denominator * shared) by (nonlinear_arith)
        requires
            denominator == rf * b.1,
            a.1 == rf * shared,
    ;
    assert(a.0 * b.1 == (a.0 * lf) * shared && b.0 * a.1 == (b.0 * rf) * shared) by (nonlinear_arith)
        requires
            b.1 == lf * shared,
            a.1 == rf * shared,
    ;
    assert(combined == numerator * shared) by (nonlinear_arith)
        requires
            combined == (if subtract { a.0 * b.1 - b.0 * a.1 } else { a.0 * b.1 + b.0 * a.1 }),
            numerator == (if subtract { a.0 * lf - b.0 * rf } else { a.0 * lf + b.0 * rf }),
            a.0 * b.1 == (a.0 * lf) * shared,
            b.0 * a.1 == (b.0 * rf) * shared,
    ;
    assert(p * (a.1 * b.1) == combined * q) by (nonlinear_arith)
        requires
            p * denominator == numerator * q,
            a.1 * b.1 == denominator * shared,
            combined == numerator * shared,
    ;
}

/// Multiplication is exact: `p / q == (a.0 / a.1) * (b.0 / b.1)`.
pub proof fn law_multiply_exact(a: (int, int), b: (int, int))
    requires
        a.1 > 0,
        b.1 > 0,
        multiply_parts(a, b) is Some,
    ensures
        ({
            let (p, q) = multiply_parts(a, b).unwrap();
            &&& q > 0
            &&& p * (a.1 * b.1) == (a.0 * b.0) * q
        }),
{
    let lc = gcd_of(a.0, b.1).unwrap();
    let rc = gcd_of(b.0, a.1).unwrap();
    lemma_gcd_of_divides(a.0, b.1);
    lemma_gcd_of_divides(b.0, a.1);
    let x = a.0 / lc;
    let y = b.0 / rc;
    let z = a.1 / rc;
    let w = b.1 / lc;
    assert(a.0 == x * lc && b.1 == w * lc) by (nonlinear_arith)
        requires
            lc >= 1,
            a.0 % lc == 0,
            b.1 % lc == 0,
            x == a.0 / lc,
            w == b.1 / lc,
    ;
    assert(b.0 == y * rc && a.1 == z * rc) by (nonlinear_arith)
        requires
            rc >= 1,
            b.0 % rc == 0,
            a.1 % rc == 0,
            y == b.0 / rc,
            z == a.1 / rc,
    ;
    lemma_reduced_value(x * y, z * w);
    let (p, q) = reduced(x * y, z * w).unwrap();
    assert(a.1 * b.1 == (z * w) * (rc * lc)) by (nonlinear_arith)
        requires
            b.1 == w * lc,
            a.1 == z * rc,
    ;
    assert(a.0 * b.0 == (x * y) * (rc * lc)) by (nonlinear_arith)
        requires
            a.0 == x * lc,
            b.0 == y * rc,
    ;
    assert(p * (a.1 * b.1) == (a.0 * b.0) * q) by (nonlinear_arith)
        requires
            p * (z * w) == (x * y) * q,
            a.1 * b.1 == (z * w) * (rc * lc),
            a.0 * b.0 == (x * y) * (rc * lc),
    ;
}

/// Division is exact: `p / q == (a.0 / a.1) / (b.0 / b.1)` for a divisor
/// other than zero.
pub proof fn law_divide_exact(a: (int, int), b: (int, int))
    requires
        a.1 > 0,
        b.1 > 0,
        divide_parts(a, b) matches Some(Some(_)),
    ensures
        b.0 != 0,
        ({
            let (p, q) = divide_parts(a, b).unwrap().unwrap();
            &&& q > 0
            &&& p * (a.1 * b.0) == (a.0 * b.1) * q
        }),
{
    let nc = gcd_of(a.0, b.0).unwrap();
    let dc = gcd_of(b.1, a.1).unwrap();
    lemma_gcd_of_divides(a.0, b.0);
    lemma_gcd_of_divides(b.1, a.1);
    let x = a.0 / nc;
    let y = b.1 / dc;
    let z = a.1 / dc;
    let w = b.0 / nc;
    assert(a.0 == x * nc && b.0 == w * nc) by (nonlinear_arith)
        requires
            nc >= 1,
            a.0 % nc == 0,
            b.0 % nc == 0,
            x == a.0 / nc,
            w == b.0 / nc,
    ;
    assert(b.1 == y * dc && a.1 == z * dc) by (nonlinear_arith)
        requires
            dc >= 1,
            b.1 % dc == 0,
            a.1 % dc == 0,
            y == b.1 / dc,
            z == a.1 / dc,
    ;
    lemma_reduced_value(x * y, z * w);
    let (p, q) = reduced(x * y, z * w).unwrap();
    assert(a.1 * b.0 == (z * w) * (dc * nc)) by (nonlinear_arith)
        requires
            b.0 == w * nc,
            a.1 == z * dc,
    ;
    assert(a.0 * b.1 == (x * y) * (dc * nc)) by (nonlinear_arith)
        requires
            a.0 == x * nc,
            b.1 == y * dc,
    ;
    assert(p * (a.1 * b.0) == (a.0 * b.1) * q) by (nonlinear_arith)
        requires
            p * (z * w) == (x * y) * q,
            a.1 * b.0 == (z * w) * (dc * nc),
            a.0 * b.1 == (x * y) * (dc * nc),
    ;
}

/// Negation is exact: `p / q == -(a.0 / a.1)`.
pub proof fn law_negated_exact(a: (int, int))
    requires
        a.1 > 0,
        negated_parts(a) is Some,
    ensures
        ({
            let (p, q) = negated_parts(a).unwrap();
            &&& q > 0
            &&& p * a.1 == -a.0 * q
        }),
{
    lemma_reduced_value(-a.0, a.1);
}

/// A common factor comes out of a remainder: `(k x) % (k y) == k (x % y)`.
proof fn lemma_mod_scale(k: nat, x: nat, y: nat)
    requires
        k > 0,
        y > 0,
    ensures
        (k * x) % (k * y) == k * (x % y),
{
    let q = x / y;
    let r = x % y;
    assert(x == q * y + r && 0 <= r < y) by {
        vstd::arithmetic::div_mod::lemma_fundamental_div_mod(x as int, y as int);
    }
    assert(k * x == q * (k * y) + k * r && 0 <= k * r < k * y) by (nonlinear_arith)
        requires
            x == q * y + r,
            0 <= r < y,
            k > 0,
    ;
    vstd::arithmetic::div_mod::lemma_fundamental_div_mod_converse((k * x) as int, (k * y) as int, q as int, (k * r) as int);
}

/// A common factor comes out of a gcd: `gcd(k x, k y) == k gcd(x, y)`.
proof fn lemma_gcd_scale(k: nat, x: nat, y: nat)
    requires
        k > 0,
    ensures
        gcd(k * x, k * y) == k * gcd(x, y),
    decreases y,
{
    if y == 0 {
        assert(k * y == 0) by (nonlinear_arith)
            requires
                y == 0,
        ;
    } else {
        assert(k * y > 0) by (nonlinear_arith)
            requires
                k > 0,
                y > 0,
        ;
        lemma_mod_scale(k, x, y);
        lemma_gcd_scale(k, y, x % y);
    }
}

/// `DecimalRational::new` gives lowest terms: the denominator is
/// positive, numerator and denominator have no common factor above 1, and
/// the fraction equals the one it was given.
pub proof fn law_rational_lowest_terms(numerator: int, denominator: int)
    requires
        reduced(numerator, denominator) is Some,
    ensures
        ({
            let (a, b) = reduced(numerator, denominator).unwrap();
            &&& b > 0
            &&& gcd(magnitude(a), magnitude(b)) == 1
            &&& a * denominator == b * numerator
        }),
{
    let n = if denominator < 0 { -numerator } else { numerator };
    let d = if denominator < 0 { -denominator } else { denominator };
    let (a, b) = reduced(numerator, denominator).unwrap();
    if n == 0 {
        assert(gcd(0, 1) == 1) by {
            assert(gcd(1nat, 0nat) == 1);
        }
    } else {
        let g = gcd(magnitude(n), magnitude(d));
        lemma_gcd_divides(magnitude(n), magnitude(d));
        assert(g > 0);
        assert(d > 0);
        let gi = g as int;
        // d and n are exact multiples of g.
        assert(magnitude(d) % g == 0 && magnitude(n) % g == 0);
        if n < 0 {
            lemma_neg_divisible(n, gi);
        }
        assert(n % gi == 0) by {
            if n < 0 {
                assert((-n) % gi == 0);
                lemma_neg_divisible(n, gi);
            } else {
                assert(n == magnitude(n) as int);
            }
        }
        assert(d % gi == 0) by {
            assert(d == magnitude(d) as int);
        }
        let qa = n / gi;
        let qb = d / gi;
        assert(n == qa * gi && d == qb * gi) by {
            vstd::arithmetic::div_mod::lemma_fundamental_div_mod(n, gi);
            vstd::arithmetic::div_mod::lemma_fundamental_div_mod(d, gi);
            vstd::arithmetic::mul::lemma_mul_is_commutative(gi, qa);
            vstd::arithmetic::mul::lemma_mul_is_commutative(gi, qb);
        }
        assert(a == qa && b == qb);
        assert(b > 0) by (nonlinear_arith)
            requires
                b == qb,
                d == qb * gi,
                d > 0,
                gi > 0,
        ;
        assert(magnitude(n) == g * magnitude(a) && magnitude(d) == g * magnitude(b)) by (nonlinear_arith)
            requires
                n == a * gi,
                d == b * gi,
                gi > 0,
                gi == g,
                b > 0,
                magnitude(n) == (if n < 0 { -n } else { n }),
                magnitude(d) == (if d < 0 { -d } else { d }),
                magnitude(a) == (if a < 0 { -a } else { a }),
                magnitude(b) == (if b < 0 { -b } else { b }),
        ;
        lemma_gcd_scale(g, magnitude(a), magnitude(b));
        assert(g * gcd(magnitude(a), magnitude(b)) == g * 1);
        assert(gcd(magnitude(a), magnitude(b)) == 1) by (nonlinear_arith)
            requires
                g * gcd(magnitude(a), magnitude(b)) == g * 1,
                g > 0,
        ;
        assert(a * d == b * n) by (nonlinear_arith)
            requires
                n == a * gi,
                d == b * gi,
        ;
        if denominator < 0 {
            assert(a * denominator == b * numerator) by (nonlinear_arith)
                requires
                    a * d == b * n,
                    d == -denominator,
                    n == -numerator,
            ;
        }
    }
}

} // verus!

verus! {

/// An integer as units at `scale`: `value * 10^scale`, `None` when the
/// power or the product leaves `i128`.
pub open spec fn units_at_scale(value: int, scale: nat) -> Option<int> {
    if !fits(ten_pow(scale)) || !fits(value * ten_pow(scale)) {
        None
    } else {
        Some(value * ten_pow(scale))
    }
}

/// An integer scaled to DECIMAL units.
pub fn decimal_units_from_i128(value: i128, scale: u8) -> (r: Option<i128>)
    ensures
        r matches Some(v) ==> units_at_scale(value as int, scale as nat) == Some(v as int),
        r is None ==> units_at_scale(value as int, scale as nat) is None,
{
    match checked_ten_pow(scale) {
        Some(factor) => value.checked_mul(factor),
        None => None,
    }
}

} // verus!
