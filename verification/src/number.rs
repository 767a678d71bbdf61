//! Exact decimal numbers.
//!
//! Every constant of the algorithms and every value read from a text file is
//! held as a `Decimal`: a count of digits and the place of the decimal point,
//! which may lie to either side of the digits.
//! Its meaning is a real number, `Decimal::value`, and all contracts of the
//! library speak of that real number.
use vstd::prelude::*;

verus! {

/// Ten to the power `n`.
pub open spec fn pow10(n: nat) -> real
    decreases n,
{
    if n == 0 {
        1real
    } else {
        10real * pow10((n - 1) as nat)
    }
}

/// Ten to the power `n`, for a whole number `n` of either sign.
pub open spec fn power_of_ten(n: int) -> real {
    if n >= 0 {
        pow10(n as nat)
    } else {
        1real / pow10((-n) as nat)
    }
}

/// The number `digits / 10^scale`, negated when `negative` is set. A
/// negative scale stands for zeros after the digits: `digits * 10^-scale`.
#[derive(Clone, Copy, Debug)]
pub struct Decimal {
    pub negative: bool,
    pub digits: u64,
    pub scale: i32,
}

/// A power of ten is positive.
pub proof fn lemma_power_positive(n: int)
    ensures
        power_of_ten(n) > 0real,
{
    if n >= 0 {
        lemma_pow10_positive(n as nat);
    } else {
        lemma_pow10_positive((-n) as nat);
        let p = pow10((-n) as nat);
        assert(1real / p > 0real) by (nonlinear_arith)
            requires
                p >= 1real,
        ;
    }
}

/// `10^a = 10^b * 10^(a - b)` for `a >= b` of either sign.
pub proof fn lemma_power_adds(a: int, b: int)
    requires
        a >= b,
    ensures
        power_of_ten(a) == power_of_ten(b) * pow10((a - b) as nat),
{
    let gap = (a - b) as nat;
    let g = pow10(gap);
    lemma_pow10_positive(gap);
    if b >= 0 {
        lemma_pow10_adds(b as nat, gap);
    } else if a < 0 {
        let pa = pow10((-a) as nat);
        let pb = pow10((-b) as nat);
        lemma_pow10_positive((-a) as nat);
        lemma_pow10_adds((-a) as nat, gap);
        assert(1real / pa == (1real / pb) * g) by (nonlinear_arith)
            requires
                pb == pa * g,
                pa >= 1real,
                g >= 1real,
        ;
    } else {
        let pa = pow10(a as nat);
        let pb = pow10((-b) as nat);
        lemma_pow10_positive((-b) as nat);
        lemma_pow10_adds(a as nat, (-b) as nat);
        assert(pa == (1real / pb) * g) by (nonlinear_arith)
            requires
                g == pa * pb,
                pb >= 1real,
        ;
    }
}

/// A power of ten is at least one.
pub proof fn lemma_pow10_positive(n: nat)
    ensures
        pow10(n) >= 1real,
    decreases n,
{
    if n > 0 {
        lemma_pow10_positive((n - 1) as nat);
    }
}

/// `10^(m + n) = 10^m * 10^n`.
pub proof fn lemma_pow10_adds(m: nat, n: nat)
    ensures
        pow10(m + n) == pow10(m) * pow10(n),
    decreases n,
{
    if n != 0 {
        lemma_pow10_adds(m, (n - 1) as nat);
        let a = pow10(m);
        let b = pow10((n - 1) as nat);
        assert(10real * (a * b) == a * (10real * b)) by (nonlinear_arith);
    }
}

/// From the twentieth on, a power of ten is beyond every `u64`.
pub proof fn lemma_pow10_large(n: nat)
    requires
        n >= 20,
    ensures
        pow10(n) >= 100000000000000000000real,
    decreases n,
{
    if n == 20 {
        reveal_with_fuel(pow10, 21);
    } else {
        lemma_pow10_large((n - 1) as nat);
    }
}

impl Decimal {
    /// The real number that the decimal stands for.
    pub open spec fn value(self) -> real {
        let magnitude = (self.digits as real) / power_of_ten(self.scale as int);
        if self.negative {
            -magnitude
        } else {
            magnitude
        }
    }

    /// The decimal `digits / 10^scale`, negated when `negative` is set.
    pub fn new(negative: bool, digits: u64, scale: i32) -> (d: Decimal)
        ensures
            d == (Decimal { negative, digits, scale }),
    {
        Decimal { negative, digits, scale }
    }

    /// The whole number `digits`, negated when `negative` is set.
    pub fn whole(negative: bool, digits: u64) -> (d: Decimal)
        ensures
            d == (Decimal { negative, digits, scale: 0 }),
            d.value() == if negative {
                -(digits as real)
            } else {
                digits as real
            },
    {
        Decimal { negative, digits, scale: 0 }
    }

    /// The same number with the opposite sign.
    pub fn negated(&self) -> (d: Decimal)
        ensures
            d.value() == -self.value(),
            d.digits == self.digits,
            d.scale == self.scale,
            d.negative == !self.negative,
    {
        Decimal { negative: !self.negative, digits: self.digits, scale: self.scale }
    }

    /// Whether two decimals stand for the same real number, however each is
    /// written: `1.50` and `1.5` do, and so do `0` and `-0.0`.
    pub fn same_value(&self, other: &Decimal) -> (same: bool)
        ensures
            same == (self.value() == other.value()),
    {
        proof {
            lemma_power_positive(self.scale as int);
            lemma_power_positive(other.scale as int);
            lemma_magnitude_sign(self.digits as real, power_of_ten(self.scale as int));
            lemma_magnitude_sign(other.digits as real, power_of_ten(other.scale as int));
        }
        if self.digits == 0 || other.digits == 0 {
            return self.digits == 0 && other.digits == 0;
        }
        if self.negative != other.negative {
            return false;
        }
        if self.scale >= other.scale {
            same_magnitude(self.digits, self.scale, other.digits, other.scale)
        } else {
            same_magnitude(other.digits, other.scale, self.digits, self.scale)
        }
    }
}

/// A quotient of a count by a positive number is zero only for the count
/// zero, and is never negative.
proof fn lemma_magnitude_sign(d: real, p: real)
    requires
        d >= 0real,
        p > 0real,
    ensures
        d / p >= 0real,
        d / p == 0real <==> d == 0real,
{
    assert(d / p >= 0real && (d / p == 0real <==> d == 0real)) by (nonlinear_arith)
        requires
            d >= 0real,
            p > 0real,
    ;
}

/// With `big = small * step`, the quotients `a / big` and `b / small` agree
/// just when `a = b * step`.
proof fn lemma_cross(a: real, b: real, big: real, small: real, step: real)
    requires
        small > 0real,
        step >= 1real,
        big == small * step,
    ensures
        (a / big == b / small) <==> (a == b * step),
{
    assert((a / big == b / small) <==> (a == b * step)) by (nonlinear_arith)
        requires
            small > 0real,
            step >= 1real,
            big == small * step,
    ;
}

/// Whether `a / 10^sa` and `b / 10^sb` are the same number, where the first
/// has at least as many decimal places as the second.
fn same_magnitude(a: u64, sa: i32, b: u64, sb: i32) -> (same: bool)
    requires
        sa >= sb,
        b > 0,
    ensures
        same == ((a as real) / power_of_ten(sa as int) == (b as real) / power_of_ten(sb as int)),
{
    let gap: i64 = sa as i64 - sb as i64;
    proof {
        lemma_power_positive(sb as int);
        lemma_pow10_positive(gap as nat);
        lemma_power_adds(sa as int, sb as int);
        lemma_cross(
            a as real,
            b as real,
            power_of_ten(sa as int),
            power_of_ten(sb as int),
            pow10(gap as nat),
        );
    }
    if gap >= 20 {
        proof {
            lemma_pow10_large(gap as nat);
            let step = pow10(gap as nat);
            assert((b as real) * step > (a as real)) by (nonlinear_arith)
                requires
                    b as real >= 1real,
                    step >= 100000000000000000000real,
                    (a as real) < 100000000000000000000real,
            ;
        }
        return false;
    }
    let mut step: u128 = 1;
    let mut k: i64 = 0;
    while k < gap
        invariant
            0 <= k <= gap,
            gap < 20,
            step as real == pow10(k as nat),
        decreases gap - k,
    {
        proof {
            lemma_pow10_monotone(k as nat, 18);
            lemma_pow10_values();
        }
        step = step * 10;
        k = k + 1;
    }
    proof {
        lemma_pow10_monotone(gap as nat, 19);
        lemma_pow10_values();
        assert(b as int * step as int <= 18446744073709551615 * 10000000000000000000)
            by (nonlinear_arith)
            requires
                0 <= b as int <= 18446744073709551615,
                0 <= step as int <= 10000000000000000000,
        ;
        assert((b as int * step as int) as real == (b as real) * (step as real))
            by (nonlinear_arith);
    }
    let left: u128 = a as u128;
    let right: u128 = (b as u128) * step;
    left == right
}

/// A power of ten grows with its exponent.
pub proof fn lemma_pow10_monotone(m: nat, n: nat)
    requires
        m <= n,
    ensures
        pow10(m) <= pow10(n),
    decreases n - m,
{
    if m < n {
        lemma_pow10_monotone(m + 1, n);
        lemma_pow10_positive(m);
    }
}

/// The two largest powers of ten that a `u64` can hold.
proof fn lemma_pow10_values()
    ensures
        pow10(18) == 1000000000000000000real,
        pow10(19) == 10000000000000000000real,
{
    reveal_with_fuel(pow10, 20);
}

} // verus!
