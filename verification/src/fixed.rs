//! Fixed-point arithmetic with eighteen decimal places.
//!
//! A number `x` is held as the integer number of units `x * ONE`. Products and
//! quotients are rounded down, and each contract says so: nothing is lost that
//! is not accounted for.
use vstd::arithmetic::div_mod::*;
use vstd::arithmetic::mul::*;
use vstd::prelude::*;

use crate::rng::DRAWS;

verus! {

/// The number of units that make up the number one.
pub const ONE: u64 = 1_000_000_000_000_000_000;

/// `10^n`.
pub open spec fn pow10(n: nat) -> nat
    decreases n,
{
    if n == 0 {
        1
    } else {
        10 * pow10((n - 1) as nat)
    }
}

proof fn lemma_pow10_values()
    ensures
        pow10(0) == 1,
        pow10(18) == ONE,
{
    reveal_with_fuel(pow10, 19);
}

proof fn lemma_pow10_increases(i: nat, j: nat)
    requires
        i <= j,
    ensures
        0 < pow10(i) <= pow10(j),
    decreases j,
{
    if i < j {
        lemma_pow10_increases(i, (j - 1) as nat);
    } else if i > 0 {
        lemma_pow10_increases((i - 1) as nat, (j - 1) as nat);
    }
}

/// A fixed-point number that is not negative and may take more than 128 bits: a
/// whole number, and units that make up less than one.
#[derive(Debug, Clone, Copy, PartialEq, Eq, Structural)]
pub struct Magnitude {
    whole: u128,
    units: u64,
}

impl Magnitude {
    /// The units make up less than one.
    #[verifier::type_invariant]
    pub closed spec fn wf(self) -> bool {
        self.units < ONE
    }

    /// The number in units.
    pub closed spec fn value(self) -> int {
        self.whole * ONE + self.units
    }

    /// Puts a number together.
    #[must_use]
    pub fn new(whole: u128, units: u64) -> (m: Magnitude)
        requires
            units < ONE,
        ensures
            m.wf(),
            m.value() == whole * ONE + units,
    {
        Magnitude { whole, units }
    }

    /// Takes a number apart into its whole part and its units.
    #[must_use]
    pub fn parts(&self) -> (r: (u128, u64))
        ensures
            self.value() == r.0 * ONE + r.1,
            r.1 < ONE,
    {
        proof {
            use_type_invariant(self);
        }
        (self.whole, self.units)
    }
}

/// A number is put together in one way only.
pub proof fn lemma_magnitude_unique(a: Magnitude, b: Magnitude)
    requires
        a.wf(),
        b.wf(),
        a.value() == b.value(),
    ensures
        a == b,
{
}

/// `num / den` in units, rounded down.
pub open spec fn quotient(num: int, den: int) -> int {
    num * ONE / den
}

/// `a * b` in units, rounded down, for `a` and `b` in units.
pub open spec fn product(a: int, b: int) -> int {
    a * b / (ONE as int)
}

/// `total` scaled by the uniform draw `draw / DRAWS`, rounded down.
pub open spec fn scaled(total: int, draw: int) -> int {
    draw * total / (DRAWS as int)
}

/// `a / b`, rounded up.
pub open spec fn ceil_div(a: int, b: int) -> int {
    (a + b - 1) / b
}

/// A quotient rounded up is less than one above the exact quotient.
pub proof fn lemma_ceil_div(a: int, b: int)
    requires
        b > 0,
    ensures
        a <= b * ceil_div(a, b) < a + b,
{
    lemma_fundamental_div_mod(a + b - 1, b);
}

/// No other integer is that close.
pub proof fn lemma_ceil_div_unique(a: int, b: int, c: int)
    requires
        b > 0,
        a <= b * c < a + b,
    ensures
        ceil_div(a, b) == c,
{
    let e = ceil_div(a, b);
    lemma_ceil_div(a, b);
    assert(e == c) by (nonlinear_arith)
        requires
            a <= b * e < a + b,
            a <= b * c < a + b,
            b > 0,
    ;
}

/// A greater dividend has no smaller quotient.
pub proof fn lemma_ceil_div_ordered(a: int, x: int, b: int)
    requires
        b > 0,
        a <= x,
    ensures
        ceil_div(a, b) <= ceil_div(x, b),
{
    lemma_div_is_ordered(a + b - 1, x + b - 1, b);
}

/// A quotient of a dividend of at most `m` divisors is at most `m`.
pub proof fn lemma_quotient_bounded(num: int, den: int, m: int)
    requires
        0 <= num <= m * den,
        0 < den,
    ensures
        0 <= quotient(num, den) <= m * ONE,
{
    let one = ONE as int;
    assert(0 <= num * one <= (m * one) * den) by (nonlinear_arith)
        requires
            0 <= num <= m * den,
            0 < one,
    ;
    assert(0 <= m * one) by (nonlinear_arith)
        requires
            0 <= m * den,
            0 < den,
            0 < one,
    ;
    lemma_div_pos_is_pos(num * one, den);
    lemma_div_is_ordered(num * one, (m * one) * den, den);
    lemma_div_by_multiple(m * one, den);
}

/// Divides two counts, by decimal long division.
pub fn divide(num: u128, den: u128) -> (r: u128)
    requires
        0 < den <= u128::MAX / 10,
        quotient(num as int, den as int) <= u128::MAX,
    ensures
        r == quotient(num as int, den as int),
{
    let mut q: u128 = num / den;
    let mut rem: u128 = num % den;
    let mut i: u64 = 0;
    proof {
        lemma_fundamental_div_mod(num as int, den as int);
        lemma_mul_is_commutative(den as int, q as int);
        lemma_pow10_values();
        lemma_mul_basics(num as int);
    }
    while i < 18
        invariant
            0 < den <= u128::MAX / 10,
            quotient(num as int, den as int) <= u128::MAX,
            i <= 18,
            rem < den,
            q * den + rem == num * pow10(i as nat),
        decreases 18 - i,
    {
        let ghost scale = pow10((i + 1) as nat);
        let next_digit: u128 = (rem * 10) / den;
        let next_rem: u128 = (rem * 10) % den;
        proof {
            lemma_fundamental_div_mod(rem as int * 10, den as int);
            assert((q * 10 + next_digit) * den + next_rem == num * scale) by (nonlinear_arith)
                requires
                    q * den + rem == num * pow10(i as nat),
                    scale == 10 * pow10(i as nat),
                    rem * 10 == den * next_digit + next_rem,
            ;
            lemma_pow10_values();
            lemma_pow10_increases((i + 1) as nat, 18);
            assert(num * scale <= num * ONE) by (nonlinear_arith)
                requires
                    scale <= ONE,
                    num >= 0,
            ;
            let whole = (q * 10 + next_digit) as int;
            assert(whole * den <= num * ONE);
            lemma_div_is_ordered(whole * den, num * ONE, den as int);
            lemma_div_by_multiple(whole, den as int);
        }
        q = q * 10 + next_digit;
        rem = next_rem;
        i = i + 1;
    }
    proof {
        lemma_pow10_values();
        lemma_fundamental_div_mod_converse(
            num * ONE,
            den as int,
            q as int,
            rem as int,
        );
    }
    q
}

/// Multiplies a number by a factor of at most one.
pub fn multiply(factor: u64, x: u128) -> (r: u128)
    requires
        factor <= ONE,
    ensures
        r == product(factor as int, x as int),
        r <= x,
{
    let one: u128 = ONE as u128;
    let hi: u128 = x / one;
    let lo: u128 = x % one;
    let f: u128 = factor as u128;
    proof {
        lemma_fundamental_div_mod(x as int, one as int);
        assert(f * hi <= one * hi && f * lo <= one * lo) by (nonlinear_arith)
            requires
                f <= one,
                hi >= 0,
                lo >= 0,
        ;
        assert(one * lo <= one * one) by (nonlinear_arith)
            requires
                lo <= one,
        ;
        assert(f * x == f * lo + (f * hi) * one) by (nonlinear_arith)
            requires
                x == one * hi + lo,
        ;
        lemma_hoist_over_denominator(f * lo, f * hi, one as nat);
        lemma_div_is_ordered(f * lo, one * lo, one as int);
        lemma_div_multiples_vanish(lo as int, one as int);
        assert(f * x / (one as int) == f * lo / (one as int) + f * hi);
    }
    f * hi + (f * lo) / one
}

/// Scales `total` by a uniform draw.
pub fn scale_by_draw(total: u128, draw: u64) -> (r: u128)
    requires
        draw < DRAWS,
    ensures
        r == scaled(total as int, draw as int),
        total > 0 ==> r < total,
        r <= total,
{
    let range: u128 = DRAWS as u128;
    let hi: u128 = total / range;
    let lo: u128 = total % range;
    let d: u128 = draw as u128;
    proof {
        lemma_fundamental_div_mod(total as int, range as int);
        assert(d * hi <= range * hi && d * lo <= range * lo) by (nonlinear_arith)
            requires
                d <= range,
                hi >= 0,
                lo >= 0,
        ;
        assert(range * lo <= range * range) by (nonlinear_arith)
            requires
                lo <= range,
        ;
        assert(d * total == d * lo + (d * hi) * range) by (nonlinear_arith)
            requires
                total == range * hi + lo,
        ;
        lemma_hoist_over_denominator(d * lo, d * hi, range as nat);
        lemma_div_is_ordered(d * lo, range * lo, range as int);
        lemma_div_multiples_vanish(lo as int, range as int);
        assert(d * total / (range as int) == d * lo / (range as int) + d * hi);
        if total > 0 {
            assert(d * total < range * total) by (nonlinear_arith)
                requires
                    d < range,
                    total > 0,
            ;
            lemma_mul_is_commutative(range as int, total as int);
            lemma_multiply_divide_lt(d * total, range as int, total as int);
        }
    }
    d * hi + (d * lo) / range
}

/// Division: the quotient of two counts is the greatest number of units that is no
/// more than the exact quotient.
pub proof fn law_quotient_is_exact_to_a_unit(num: int, den: int)
    requires
        0 < den,
    ensures
        quotient(num, den) * den <= num * ONE < quotient(num, den) * den + den,
{
    lemma_fundamental_div_mod(num * ONE, den);
    lemma_mul_is_commutative(den, quotient(num, den));
}

/// Multiplication: the product of two numbers is the greatest number of units that
/// is no more than the exact product.
pub proof fn law_product_is_exact_to_a_unit(a: int, b: int)
    ensures
        product(a, b) * ONE <= a * b < product(a, b) * ONE + ONE,
{
    lemma_fundamental_div_mod(a * b, ONE as int);
    lemma_mul_is_commutative(ONE as int, product(a, b));
}

/// Scaling by a draw: the threshold is the greatest integer that is no more than
/// the part `draw / DRAWS` of the sum.
pub proof fn law_threshold_is_exact_to_one(sum: int, draw: int)
    ensures
        scaled(sum, draw) * DRAWS <= draw * sum < scaled(sum, draw) * DRAWS + DRAWS,
{
    lemma_fundamental_div_mod(draw * sum, DRAWS as int);
    lemma_mul_is_commutative(DRAWS as int, scaled(sum, draw));
}

/// Rounding up: the least integer that is no less than the exact quotient.
pub proof fn law_ceiling_is_exact_to_one(a: int, b: int)
    requires
        0 < b,
    ensures
        a <= ceil_div(a, b) * b < a + b,
{
    lemma_ceil_div(a, b);
    lemma_mul_is_commutative(b, ceil_div(a, b));
}

/// Powers of ten multiply: `10^(m + n)` is `10^m * 10^n`, and `10^1` is ten.
pub proof fn law_powers_of_ten(m: nat, n: nat)
    ensures
        pow10(m + n) == pow10(m) * pow10(n),
        pow10(1) == 10,
        pow10(18) == ONE,
    decreases n,
{
    lemma_pow10_values();
    assert(pow10(1) == 10 * pow10(0));
    if n > 0 {
        law_powers_of_ten(m, (n - 1) as nat);
        let (a, b) = (pow10(m), pow10((n - 1) as nat));
        assert(10 * (a * b) == a * (10 * b)) by (nonlinear_arith);
    } else {
        assert(pow10(m) * 1 == pow10(m));
    }
}

} // verus!
