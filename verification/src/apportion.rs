//! Distributions in units of `1 / ONE`.
//!
//! Weights are normalized to add up to exactly one. Rounding every entry on its
//! own would lose mass. Instead the running totals are rounded, and an entry is
//! the step between two of them: the entries then add up to the last running
//! total, and each is within a unit of its exact value.
//!
//! In a mixture with the uniform distribution the order of the masses counts for
//! more than their sum. Each mass is computed from the mass it came from alone
//! and rounded up, so equal masses stay equal and greater ones no smaller, and
//! the sum exceeds one by less than a unit per token.
use vstd::arithmetic::div_mod::*;
use vstd::arithmetic::mul::*;
use vstd::prelude::*;

use crate::fixed::{
    ceil_div, divide, lemma_ceil_div, lemma_ceil_div_ordered, lemma_ceil_div_unique, quotient,
    scale_by_draw, ONE,
};
use crate::mass::{
    ints, lemma_part_of_total, lemma_prefix_bounds, lemma_prefix_monotonic, nats, nonnegative,
    prefix, total,
};
use crate::preservation::lemma_draw_in_range;
use crate::rng::{Rng, RngState, DRAWS};

verus! {

/// The least weight of a token, `10^-6` in units.
pub const WEIGHT_FLOOR: u64 = 1_000_000_000_000;

/// A bound on the weight of a token.
pub const MAX_WEIGHT: u64 = 1_000_001_000_000_000_000;

/// Masses that add up to one, none of them negative.
pub open spec fn is_distribution(m: Seq<int>) -> bool {
    &&& nonnegative(m)
    &&& total(m) == ONE
}

/// Masses that add up to one, rounded up by less than a unit per token; none of
/// them is negative.
pub open spec fn sums_to_one(m: Seq<int>) -> bool {
    &&& nonnegative(m)
    &&& ONE <= total(m) < ONE + m.len()
}

/// The steps between successive running totals.
pub open spec fn steps(c: Seq<int>) -> Seq<int> {
    Seq::new((c.len() - 1) as nat, |i: int| c[i + 1] - c[i])
}

/// Running totals that begin at zero, never decrease, and end at `end`.
pub open spec fn climbs_to(c: Seq<int>, end: int) -> bool {
    &&& c.len() > 0
    &&& c[0] == 0
    &&& c[c.len() - 1] == end
    &&& forall|i: int| 0 <= i < c.len() - 1 ==> c[i] <= #[trigger] c[i + 1]
}

/// The steps add up to the running totals they came from.
pub proof fn lemma_prefix_of_steps(c: Seq<int>, i: int)
    requires
        0 <= i < c.len(),
        c[0] == 0,
    ensures
        prefix(steps(c), i) == c[i],
    decreases i,
{
    if i > 0 {
        lemma_prefix_of_steps(c, i - 1);
    }
}

/// The steps of running totals that climb to one are a distribution.
pub proof fn lemma_steps_are_a_distribution(c: Seq<int>)
    requires
        climbs_to(c, ONE as int),
    ensures
        is_distribution(steps(c)),
        steps(c).len() == c.len() - 1,
{
    lemma_prefix_of_steps(c, c.len() - 1);
    assert forall|i: int| 0 <= i < steps(c).len() implies 0 <= #[trigger] steps(c)[i] by {
        assert(c[i] <= c[i + 1]);
    }
}

/// The running totals of weights as fractions of their total, rounded down.
pub open spec fn shares(w: Seq<int>) -> Seq<int> {
    Seq::new((w.len() + 1) as nat, |i: int| quotient(prefix(w, i), total(w)))
}

/// Weights normalized to add up to one.
pub open spec fn normalized(w: Seq<int>) -> Seq<int> {
    steps(shares(w))
}

/// The uniform distribution over `n` tokens: one `n`-th each, rounded up.
pub open spec fn uniform(n: nat) -> Seq<int> {
    Seq::new(n, |i: int| ceil_div(ONE as int, n as int))
}

/// The mass that a token of mass `b` out of `n` tokens has in a mixture of
/// `factor` parts of its distribution and the rest of the uniform one, rounded
/// up.
pub open spec fn mixed_mass(b: int, factor: int, n: nat) -> int {
    ceil_div(factor * b * n + (ONE - factor) * ONE, ONE * n)
}

/// A distribution mixed with the uniform one over the same tokens.
pub open spec fn mixed_with_uniform(base: Seq<int>, factor: int) -> Seq<int> {
    Seq::new(base.len(), |i: int| mixed_mass(base[i], factor, base.len()))
}

proof fn lemma_quotient_ordered(a: int, b: int, den: int)
    requires
        0 <= a <= b <= den,
        0 < den,
    ensures
        0 <= quotient(a, den) <= quotient(b, den) <= ONE,
        a == 0 ==> quotient(a, den) == 0,
        b == den ==> quotient(b, den) == ONE,
{
    let one = ONE as int;
    assert(0 <= a * one <= b * one <= den * one) by (nonlinear_arith)
        requires
            0 <= a <= b <= den,
            one > 0,
    ;
    lemma_div_pos_is_pos(a * one, den);
    lemma_div_is_ordered(a * one, b * one, den);
    lemma_div_is_ordered(b * one, den * one, den);
    lemma_div_multiples_vanish(one, den);
    if a == 0 {
        assert(0int / den == 0) by {
            lemma_div_basics(den);
        }
    }
}

/// The shares of weights climb to one.
pub proof fn lemma_shares_climb(w: Seq<int>)
    requires
        nonnegative(w),
        total(w) > 0,
    ensures
        climbs_to(shares(w), ONE as int),
{
    let c = shares(w);
    let n = w.len() as int;
    lemma_quotient_ordered(0, total(w), total(w));
    assert forall|i: int| 0 <= i < c.len() - 1 implies c[i] <= #[trigger] c[i + 1] by {
        lemma_prefix_monotonic(w, i, i + 1);
        lemma_prefix_monotonic(w, i + 1, n);
        lemma_quotient_ordered(prefix(w, i), prefix(w, i + 1), total(w));
    }
}

/// The running totals that climb to `end` stay between zero and `end`.
pub proof fn lemma_climb_in_range(c: Seq<int>, end: int, i: int)
    requires
        climbs_to(c, end),
        0 <= i < c.len(),
    ensures
        0 <= c[i] <= end,
{
    lemma_climb_from_zero(c, end, i);
    lemma_climb_to_end(c, end, i);
}

proof fn lemma_climb_from_zero(c: Seq<int>, end: int, i: int)
    requires
        climbs_to(c, end),
        0 <= i < c.len(),
    ensures
        0 <= c[i],
    decreases i,
{
    if i > 0 {
        lemma_climb_from_zero(c, end, i - 1);
        assert(c[i - 1] <= c[i - 1 + 1]);
    }
}

proof fn lemma_climb_to_end(c: Seq<int>, end: int, i: int)
    requires
        climbs_to(c, end),
        0 <= i < c.len(),
    ensures
        c[i] <= end,
    decreases c.len() - i,
{
    if i < c.len() - 1 {
        lemma_climb_to_end(c, end, i + 1);
        assert(c[i] <= c[i + 1]);
    }
}

/// The weight that a uniform draw `u` gives a token: `u^2 + 10^-6`. Squaring
/// sharpens the weights into a few dominant tokens.
pub open spec fn peaked_weight(draw: int) -> int {
    draw * draw * ONE / (DRAWS * DRAWS) + WEIGHT_FLOOR
}

/// The weights that the next `n` draws give `n` tokens.
pub open spec fn peaked_weights(s: RngState, n: nat) -> Seq<int> {
    Seq::new(n, |i: int| peaked_weight(s.after(i as nat).draw() as int))
}

/// Every weight is at least the floor.
proof fn lemma_peaked_weight_floor(draw: int)
    ensures
        peaked_weight(draw) >= WEIGHT_FLOOR,
{
    let d = DRAWS as int;
    assert(0 <= draw * draw * ONE) by (nonlinear_arith);
    assert(0 < d * d) by (nonlinear_arith)
        requires
            d > 0,
    ;
    lemma_div_pos_is_pos(draw * draw * ONE, d * d);
}

/// The weight of a draw in range is at most the bound.
proof fn lemma_peaked_weight_bound(draw: int)
    requires
        0 <= draw < DRAWS,
    ensures
        peaked_weight(draw) <= MAX_WEIGHT,
{
    let d = DRAWS as int;
    assert(draw * draw * ONE < (d * d) * ONE && 0 < d * d) by (nonlinear_arith)
        requires
            0 <= draw < d,
    ;
    lemma_multiply_divide_lt(draw * draw * ONE, d * d, ONE as int);
}

/// Drawn weights normalize to positive masses, as far as the floor of a weight
/// is a unit of the total.
pub proof fn law_peaked_masses_are_positive(s: RngState, n: nat, i: int)
    requires
        0 <= i < n,
        n * MAX_WEIGHT <= WEIGHT_FLOOR * ONE,
    ensures
        normalized(peaked_weights(s, n))[i] > 0,
{
    let w = peaked_weights(s, n);
    assert forall|j: int| 0 <= j < w.len() implies WEIGHT_FLOOR <= #[trigger] w[j]
        <= MAX_WEIGHT by {
        lemma_draw_in_range(s.after(j as nat));
        lemma_peaked_weight_floor(s.after(j as nat).draw() as int);
        lemma_peaked_weight_bound(s.after(j as nat).draw() as int);
    }
    lemma_prefix_bounds(w, n as int, WEIGHT_FLOOR as int, MAX_WEIGHT as int);
    lemma_part_of_total(w, i);
    law_normalized_in_proportion(w, i);
    let (m, t, x) = (normalized(w)[i], total(w), w[i]);
    assert(m > 0) by (nonlinear_arith)
        requires
            x * ONE - t < m * t,
            t <= WEIGHT_FLOOR * ONE,
            WEIGHT_FLOOR <= x,
            t > 0,
    ;
}

/// Drawn weights are positive.
pub proof fn lemma_peaked_positive(s: RngState, n: nat, i: int)
    requires
        0 <= i < n,
    ensures
        peaked_weights(s, n)[i] > 0,
{
    lemma_peaked_weight_floor(s.after(i as nat).draw() as int);
}

/// Drawn weights have a positive total.
pub proof fn lemma_peaked_total(s: RngState, n: nat)
    requires
        n > 0,
    ensures
        total(peaked_weights(s, n)) > 0,
{
    let w = peaked_weights(s, n);
    assert forall|i: int| 0 <= i < w.len() implies 0 <= #[trigger] w[i] by {
        lemma_peaked_weight_floor(s.after(i as nat).draw() as int);
    }
    lemma_peaked_weight_floor(s.after(0).draw() as int);
    lemma_part_of_total(w, 0);
}

/// Drawn weights normalize to a distribution.
pub proof fn lemma_peaked_is_a_distribution(s: RngState, n: nat)
    requires
        n > 0,
    ensures
        is_distribution(normalized(peaked_weights(s, n))),
        normalized(peaked_weights(s, n)).len() == n,
{
    let w = peaked_weights(s, n);
    assert forall|i: int| 0 <= i < w.len() implies WEIGHT_FLOOR <= #[trigger] w[i] by {
        lemma_peaked_weight_floor(s.after(i as nat).draw() as int);
    }
    lemma_prefix_monotonic(w, 1, n as int);
    assert(prefix(w, 1) == prefix(w, 0) + w[0]);
    lemma_shares_climb(w);
    lemma_steps_are_a_distribution(shares(w));
}

fn weight_of_draw(draw: u64) -> (w: u64)
    requires
        draw < DRAWS,
    ensures
        w == peaked_weight(draw as int),
        WEIGHT_FLOOR <= w <= MAX_WEIGHT,
{
    let ghost n = draw as int;
    let ghost d = DRAWS as int;
    proof {
        assert(0 <= n * ONE <= d * ONE) by (nonlinear_arith)
            requires
                0 <= n <= d,
        ;
        lemma_mul_is_associative(n, n, ONE as int);
    }
    let x: u128 = draw as u128 * ONE as u128;
    let y: u128 = scale_by_draw(x, draw);
    let z: u128 = y / DRAWS as u128;
    proof {
        assert(0 <= n * (n * ONE) < (d * d) * ONE) by (nonlinear_arith)
            requires
                0 <= n < d,
        ;
        lemma_div_denominator(n * (n * ONE), d, d);
        lemma_multiply_divide_lt(n * (n * ONE), d * d, ONE as int);
        lemma_div_pos_is_pos(n * (n * ONE), d * d);
    }
    z as u64 + WEIGHT_FLOOR
}

/// Draws the weights of `n` tokens.
pub fn draw_weights(rng: &mut Rng, n: usize) -> (w: Vec<u64>)
    ensures
        w@.len() == n,
        nats(w@) == peaked_weights(old(rng)@, n as nat),
        final(rng)@ == old(rng)@.after(n as nat),
        forall|i: int| 0 <= i < n ==> WEIGHT_FLOOR <= #[trigger] w@[i] <= MAX_WEIGHT,
{
    let ghost s = rng@;
    let mut w: Vec<u64> = Vec::new();
    let mut i: usize = 0;
    while i < n
        invariant
            i <= n,
            s == old(rng)@,
            rng@ == s.after(i as nat),
            w@.len() == i,
            forall|j: int|
                0 <= j < i ==> #[trigger] w@[j] == peaked_weight(s.after(j as nat).draw() as int),
            forall|j: int| 0 <= j < i ==> WEIGHT_FLOOR <= #[trigger] w@[j] <= MAX_WEIGHT,
        decreases n - i,
    {
        let draw: u64 = rng.next_f64();
        w.push(weight_of_draw(draw));
        i = i + 1;
    }
    assert(nats(w@) =~= peaked_weights(s, n as nat));
    w
}

/// The sum of token weights, exactly.
pub fn sum_weights(w: &[u64]) -> (r: u128)
    requires
        forall|i: int| 0 <= i < w@.len() ==> #[trigger] w@[i] <= MAX_WEIGHT,
    ensures
        r == total(nats(w@)),
        r <= u128::MAX / 10,
{
    let ghost v = nats(w@);
    let mut r: u128 = 0;
    let mut i: usize = 0;
    proof {
        lemma_prefix_bounds(v, v.len() as int, 0, MAX_WEIGHT as int);
    }
    while i < w.len()
        invariant
            i <= w.len(),
            v == nats(w@),
            forall|j: int| 0 <= j < w@.len() ==> #[trigger] w@[j] <= MAX_WEIGHT,
            r == prefix(v, i as int),
        decreases w.len() - i,
    {
        proof {
            lemma_prefix_bounds(v, i + 1, 0, MAX_WEIGHT as int);
        }
        r = r + w[i] as u128;
        i = i + 1;
    }
    r
}

/// Normalizes token weights to add up to one.
pub fn normalize(w: &[u64]) -> (m: Vec<i64>)
    requires
        forall|i: int| 0 <= i < w@.len() ==> #[trigger] w@[i] <= MAX_WEIGHT,
        total(nats(w@)) > 0,
    ensures
        ints(m@) == normalized(nats(w@)),
        is_distribution(ints(m@)),
{
    let ghost v = nats(w@);
    let ghost c = shares(v);
    let sum: u128 = sum_weights(w);
    let mut m: Vec<i64> = Vec::new();
    let mut passed: u128 = 0;
    let mut share: u128 = 0;
    let mut i: usize = 0;
    proof {
        lemma_shares_climb(v);
    }
    while i < w.len()
        invariant
            i <= w.len(),
            v == nats(w@),
            c == shares(v),
            climbs_to(c, ONE as int),
            0 < sum <= u128::MAX / 10,
            sum == total(v),
            passed == prefix(v, i as int),
            share == c[i as int],
            m@.len() == i,
            forall|j: int| 0 <= j < i ==> #[trigger] m@[j] == steps(c)[j],
        decreases w.len() - i,
    {
        proof {
            lemma_prefix_monotonic(v, i + 1, v.len() as int);
            lemma_climb_in_range(c, ONE as int, i + 1);
            lemma_climb_in_range(c, ONE as int, i as int);
            assert(c[i as int] <= c[i + 1]);
        }
        passed = passed + w[i] as u128;
        let next: u128 = divide(passed, sum);
        m.push((next - share) as i64);
        share = next;
        i = i + 1;
    }
    assert(ints(m@) =~= steps(c));
    proof {
        lemma_steps_are_a_distribution(c);
    }
    m
}

/// Rounding up once is as good as rounding up twice.
proof fn lemma_ceil_div_twice(x: int, a: int, b: int)
    requires
        a > 0,
        b > 0,
    ensures
        ceil_div(ceil_div(x, a), b) == ceil_div(x, b * a),
{
    let c = ceil_div(x, a);
    let e = ceil_div(c, b);
    lemma_ceil_div(x, a);
    lemma_ceil_div(c, b);
    assert(0 < b * a && x <= (b * a) * e < x + b * a) by (nonlinear_arith)
        requires
            x <= a * c < x + a,
            c <= b * e < c + b,
            a > 0,
            b > 0,
    {
        assert(b * e <= c + b - 1);
        assert(a * c <= a * (b * e) <= a * (c + b - 1));
        assert(a * (b * e) == (b * a) * e);
        assert(a * (c + b - 1) == a * c + b * a - a);
    }
    lemma_ceil_div_unique(x, b * a, e);
}

/// A whole number of divisors comes out of a quotient rounded up.
proof fn lemma_ceil_div_shift(x: int, c: int, a: int)
    requires
        a > 0,
    ensures
        ceil_div(c * a + x, a) == c + ceil_div(x, a),
{
    let e = ceil_div(x, a);
    lemma_ceil_div(x, a);
    assert(a * (c + e) == c * a + a * e) by (nonlinear_arith);
    lemma_ceil_div_unique(c * a + x, a, c + e);
}

/// A mixed mass is positive unless it is all of a mass of zero, and at most one.
proof fn lemma_mixed_mass_in_range(b: int, factor: int, n: nat)
    requires
        0 <= b <= ONE,
        0 <= factor <= ONE,
        n > 0,
    ensures
        0 <= mixed_mass(b, factor, n) <= ONE,
        factor < ONE || b > 0 ==> 0 < mixed_mass(b, factor, n),
{
    let one = ONE as int;
    let x = factor * b * n + (one - factor) * one;
    let m = mixed_mass(b, factor, n);
    assert(0 <= x <= (one * n) * one && (factor < one || b > 0 ==> 0 < x) && 0 < one * n)
        by (nonlinear_arith)
        requires
            0 <= b <= one,
            0 <= factor <= one,
            n >= 1,
            one > 0,
            x == factor * b * n + (one - factor) * one,
    {
        assert(0 <= factor * b <= factor * one);
        assert(factor * b <= (factor * b) * n <= (factor * one) * n);
        assert(0 <= (one - factor) * one <= ((one - factor) * one) * n);
        assert((factor * one) * n + ((one - factor) * one) * n == (one * n) * one);
        if factor < one {
            assert(0 < (one - factor) * one);
        } else if b > 0 {
            assert(0 < factor * b);
        }
    }
    lemma_ceil_div(x, one * n);
    assert(0 <= m <= one && (0 < x ==> 0 < m)) by (nonlinear_arith)
        requires
            x <= (one * n) * m < x + one * n,
            0 <= x <= (one * n) * one,
            0 < one * n,
    ;
}

/// The running totals of a mixture, with denominators cleared.
proof fn lemma_mixture_prefix(base: Seq<int>, factor: int, i: int)
    requires
        0 <= i <= base.len(),
        base.len() > 0,
    ensures
        ({
            let den = ONE * base.len();
            let exact = factor * base.len() * prefix(base, i) + i * ((ONE - factor) * ONE);
            let got = den * prefix(mixed_with_uniform(base, factor), i);
            &&& exact <= got <= exact + i * den
            &&& i > 0 ==> got < exact + i * den
        }),
    decreases i,
{
    let one = ONE as int;
    let n = base.len() as int;
    let den = one * n;
    let rest = (one - factor) * one;
    let m = mixed_with_uniform(base, factor);
    if i > 0 {
        lemma_mixture_prefix(base, factor, i - 1);
        let (a, b) = (prefix(base, i - 1), base[i - 1]);
        lemma_ceil_div(factor * b * n + rest, den);
        assert(factor * n * (a + b) == factor * n * a + factor * b * n) by (nonlinear_arith);
        assert(i * rest == (i - 1) * rest + rest) by (nonlinear_arith);
        assert(i * den == (i - 1) * den + den) by (nonlinear_arith);
        lemma_mul_is_distributive_add(den, prefix(m, i - 1), m[i - 1]);
    } else {
        assert(factor * n * 0 == 0 && 0 * rest == 0 && den * 0 == 0 && 0 * den == 0);
    }
}

/// A mixture of a distribution adds up to one, rounded up.
pub proof fn law_mixture_sums_to_one(base: Seq<int>, factor: int)
    requires
        is_distribution(base),
        0 <= factor <= ONE,
    ensures
        sums_to_one(mixed_with_uniform(base, factor)),
{
    let one = ONE as int;
    let n = base.len() as int;
    let m = mixed_with_uniform(base, factor);
    assert forall|i: int| 0 <= i < m.len() implies 0 <= #[trigger] m[i] by {
        lemma_part_of_total(base, i);
        lemma_mixed_mass_in_range(base[i], factor, n as nat);
    }
    assert(n > 0);
    lemma_mixture_prefix(base, factor, n);
    let t = total(m);
    assert(one <= t < one + n) by (nonlinear_arith)
        requires
            factor * n * one + n * ((one - factor) * one) <= one * n * t,
            one * n * t < factor * n * one + n * ((one - factor) * one) + n * (one * n),
            n > 0,
            one > 0,
    {
        assert(factor * n * one + n * ((one - factor) * one) == one * n * one);
        assert(n * (one * n) == one * n * n);
        assert(one * n * (one + n) == one * n * one + one * n * n);
        assert(one * n > 0);
    }
}

/// A mixture keeps the order of the masses: a token with no more mass than
/// another has no more in the mixture, and tokens of equal mass stay equal.
pub proof fn law_mixture_keeps_order(base: Seq<int>, factor: int, i: int, j: int)
    requires
        0 <= factor <= ONE,
        0 <= i < base.len(),
        0 <= j < base.len(),
        base[i] <= base[j],
    ensures
        mixed_with_uniform(base, factor)[i] <= mixed_with_uniform(base, factor)[j],
{
    let one = ONE as int;
    let n = base.len() as int;
    let (a, b) = (base[i], base[j]);
    assert(factor * a * n <= factor * b * n && 0 < one * n) by (nonlinear_arith)
        requires
            0 <= factor,
            a <= b,
            n > 0,
            one > 0,
    ;
    lemma_ceil_div_ordered(
        factor * a * n + (one - factor) * one,
        factor * b * n + (one - factor) * one,
        one * n,
    );
}

/// Every mass of a mixture is positive, unless it is all of a mass of zero.
pub proof fn law_mixture_is_positive(base: Seq<int>, factor: int, i: int)
    requires
        is_distribution(base),
        0 <= factor <= ONE,
        0 <= i < base.len(),
        factor < ONE || base[i] > 0,
    ensures
        mixed_with_uniform(base, factor)[i] > 0,
{
    lemma_part_of_total(base, i);
    lemma_mixed_mass_in_range(base[i], factor, base.len());
}

/// `x / d`, rounded up.
fn divide_up(x: u128, d: u128) -> (r: u128)
    requires
        d > 0,
        x + d <= u128::MAX,
    ensures
        r == ceil_div(x as int, d as int),
{
    (x + (d - 1)) / d
}

/// Mixes a distribution with the uniform one: `factor` parts of the first and
/// the rest of the second.
pub fn mix_with_uniform(base: &[i64], factor: u64) -> (m: Vec<i64>)
    requires
        factor <= ONE,
        is_distribution(ints(base@)),
    ensures
        ints(m@) == mixed_with_uniform(ints(base@), factor as int),
        sums_to_one(ints(m@)),
        m@.len() == base@.len(),
        forall|i: int, j: int|
            0 <= i < m@.len() && 0 <= j < m@.len() && base@[i] <= base@[j] ==> #[trigger] m@[i]
                <= #[trigger] m@[j],
{
    let ghost b = ints(base@);
    let ghost one = ONE as int;
    let ghost n = base@.len() as int;
    let f: u128 = factor as u128;
    let rest: u128 = (ONE - factor) as u128 * ONE as u128;
    let count: u128 = base.len() as u128;
    assert(n > 0);
    let even: u128 = divide_up(rest, count);
    proof {
        lemma_ceil_div(rest as int, n);
        assert(0 <= even <= rest) by (nonlinear_arith)
            requires
                rest <= n * even < rest + n,
                n >= 1,
                rest >= 0,
        ;
    }
    let mut m: Vec<i64> = Vec::new();
    let mut i: usize = 0;
    while i < base.len()
        invariant
            i <= base.len(),
            factor <= ONE,
            f == factor,
            one == ONE,
            n == base@.len(),
            n > 0,
            rest == (one - f) * one,
            even == ceil_div(rest as int, n),
            0 <= even <= rest,
            b == ints(base@),
            is_distribution(b),
            m@.len() == i,
            forall|j: int|
                0 <= j < i ==> #[trigger] m@[j] == mixed_with_uniform(b, factor as int)[j],
        decreases base.len() - i,
    {
        let ghost x = base@[i as int] as int;
        proof {
            lemma_part_of_total(b, i as int);
            lemma_mixed_mass_in_range(x, factor as int, n as nat);
            assert(0 <= f * x <= one * one && 0 <= rest <= one * one) by (nonlinear_arith)
                requires
                    0 <= f <= one,
                    0 <= x <= one,
                    rest == (one - f) * one,
            ;
            lemma_ceil_div_shift(rest as int, f * x, n);
            lemma_ceil_div_twice(f * x * n + rest, n, one);
        }
        let mass: u128 = divide_up(f * base[i] as u128 + even, ONE as u128);
        m.push(mass as i64);
        i = i + 1;
    }
    assert(ints(m@) =~= mixed_with_uniform(b, factor as int));
    proof {
        law_mixture_sums_to_one(b, factor as int);
        assert forall|i: int, j: int|
            0 <= i < m@.len() && 0 <= j < m@.len() && base@[i] <= base@[j] implies #[trigger] m@[i]
            <= #[trigger] m@[j] by {
            law_mixture_keeps_order(b, factor as int, i, j);
        }
    }
    m
}

/// The step between two quotients rounded down is within one of the quotient of
/// the difference.
pub proof fn lemma_rounded_step(x: int, y: int, den: int)
    requires
        0 < den,
    ensures
        (y - x) - den < (y / den - x / den) * den < (y - x) + den,
{
    lemma_fundamental_div_mod(x, den);
    lemma_fundamental_div_mod(y, den);
    assert((y / den - x / den) * den == den * (y / den) - den * (x / den)) by (nonlinear_arith);
}

/// Normalizing keeps proportions: each mass is within a unit of the weight's
/// exact fraction of the total.
pub proof fn law_normalized_in_proportion(w: Seq<int>, i: int)
    requires
        total(w) > 0,
        0 <= i < w.len(),
    ensures
        w[i] * ONE - total(w) < normalized(w)[i] * total(w) < w[i] * ONE + total(w),
{
    lemma_rounded_step(prefix(w, i) * ONE, prefix(w, i + 1) * ONE, total(w));
}

/// The uniform distribution gives all tokens the same mass, one `n`-th rounded up
/// to a unit.
pub proof fn law_uniform_is_even(n: nat, i: int)
    requires
        0 <= i < n,
    ensures
        ONE <= uniform(n)[i] * n < ONE + n,
        uniform(n)[i] == uniform(n)[0],
{
    lemma_ceil_div(ONE as int, n as int);
    lemma_mul_is_commutative(uniform(n)[i], n as int);
}

/// A mixture that is all of the first distribution is the first distribution.
pub proof fn law_mixture_of_one(base: Seq<int>)
    ensures
        mixed_with_uniform(base, ONE as int) == base,
{
    let one = ONE as int;
    let n = base.len() as int;
    let m = mixed_with_uniform(base, one);
    assert forall|i: int| 0 <= i < n implies #[trigger] m[i] == base[i] by {
        let b = base[i];
        assert(one * b * n + (one - one) * one == (one * n) * b && 0 < one * n)
            by (nonlinear_arith)
            requires
                n > 0,
                one > 0,
        ;
        lemma_ceil_div_unique((one * n) * b, one * n, b);
    }
    assert(m =~= base);
}

/// A mixture that is none of the first distribution is uniform.
pub proof fn law_mixture_of_none(base: Seq<int>)
    ensures
        mixed_with_uniform(base, 0) == uniform(base.len()),
{
    let one = ONE as int;
    let n = base.len() as int;
    let m = mixed_with_uniform(base, 0);
    assert forall|i: int| 0 <= i < n implies #[trigger] m[i] == uniform(n as nat)[i] by {
        let u = ceil_div(one, n);
        lemma_ceil_div(one, n);
        assert(0 * base[i] * n + (one - 0) * one == one * one) by (nonlinear_arith);
        assert(0 < one * n && one * one <= (one * n) * u < one * one + one * n)
            by (nonlinear_arith)
            requires
                one <= n * u < one + n,
                n > 0,
                one > 0,
        {
            assert(one * one <= one * (n * u) < one * (one + n));
            assert(one * (n * u) == (one * n) * u);
            assert(one * (one + n) == one * one + one * n);
        }
        lemma_ceil_div_unique(one * one, one * n, u);
    }
    assert(m =~= uniform(n as nat));
}

/// A mixture interpolates: each mass is `factor` parts of the base and the rest
/// of one `n`-th, rounded up to a unit.
pub proof fn law_mixture_interpolates(base: Seq<int>, factor: int, i: int)
    requires
        0 <= i < base.len(),
    ensures
        ({
            let n = base.len();
            let exact = factor * base[i] * n + (ONE - factor) * ONE;
            exact <= ONE * n * mixed_with_uniform(base, factor)[i] < exact + ONE * n
        }),
{
    lemma_ceil_div(factor * base[i] * base.len() + (ONE - factor) * ONE, ONE * base.len());
}

/// The weight of a token: the square of its draw and `10^-6`, rounded down to a unit.
pub proof fn law_weight_is_the_squared_draw(draw: int)
    requires
        0 <= draw < DRAWS,
    ensures
        ({
            let square = peaked_weight(draw) - 1_000_000_000_000;
            square * (DRAWS * DRAWS) <= draw * draw * ONE < (square + 1) * (DRAWS * DRAWS)
        }),
{
    let d = DRAWS as int;
    let square = peaked_weight(draw) - 1_000_000_000_000;
    assert(0 < d * d) by (nonlinear_arith)
        requires
            d > 0,
    ;
    lemma_fundamental_div_mod(draw * draw * ONE, d * d);
    let x = d * d;
    assert(square * x == x * square && (square + 1) * x == x * square + x) by (nonlinear_arith);
}

/// The weights of tokens: one for each, from its own draw, the draws in succession.
pub proof fn law_weights_take_the_draws_in_order(s: RngState, n: nat, i: int)
    requires
        0 <= i < n,
    ensures
        peaked_weights(s, n).len() == n,
        peaked_weights(s, n)[i] == peaked_weight(s.after(i as nat).draw() as int),
{
}

/// A distribution adds up to one: exactly, or rounded up by less than a unit for each
/// token.
pub proof fn law_distributions_add_up(m: Seq<int>)
    ensures
        is_distribution(m) <==> total(m) == ONE && forall|i: int|
            0 <= i < m.len() ==> #[trigger] m[i] >= 0,
        sums_to_one(m) <==> ONE <= total(m) < ONE + m.len() && forall|i: int|
            0 <= i < m.len() ==> #[trigger] m[i] >= 0,
{
}

} // verus!
