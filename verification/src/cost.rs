//! Tokens over the cost of a round.
//!
//! A round of `k` draft passes and one target pass costs `k * cost_ratio + 1`
//! target passes. The cost ratio may be any 128-bit number of units, so the cost
//! may take more than 128 bits; the quotients here are exact all the same.
use vstd::arithmetic::div_mod::*;
use vstd::arithmetic::mul::*;
use vstd::prelude::*;

use crate::fixed::{
    divide, lemma_magnitude_unique, lemma_quotient_bounded, quotient, Magnitude, ONE,
};
use crate::mass::positive;

verus! {

/// The most tokens that a round of a 32-bit draft length emits, in units.
pub const MAX_TOKENS: u128 = 4_294_967_296_000_000_000_000_000_000;

/// The largest divisor that long division takes as it is.
const PLAIN_DIVISOR: u128 = 34_028_236_692_093_846_346_337_460_743_176_821_145;

/// The magnitude of the least 128-bit integer, `2^127`.
const MAX_MAGNITUDE: u128 = 170_141_183_460_469_231_731_687_303_715_884_105_728;

/// The cost of a round in target passes, at the cost ratio as it is.
pub open spec fn raw_cost(k: nat, cost_ratio: int) -> int {
    k * cost_ratio + ONE
}

/// The cost of a round in target passes. A negative cost ratio counts as zero.
pub open spec fn round_cost(k: nat, cost_ratio: int) -> int {
    raw_cost(k, positive(cost_ratio))
}

/// A speedup as it was measured.
#[derive(Debug, Clone, Copy, PartialEq, Eq, Structural)]
pub enum MeasuredSpeedup {
    /// There were no rounds to measure.
    Undefined,
    /// A round costs nothing.
    Infinite,
    /// The magnitude of the speedup, rounded down. It is negative where the cost
    /// of a round is.
    Finite { negative: bool, magnitude: Magnitude },
}

/// `m` is the speedup of rounds that emit `tokens` each at a cost.
pub open spec fn is_speedup(m: MeasuredSpeedup, tokens: Option<u128>, cost: int) -> bool {
    match m {
        MeasuredSpeedup::Undefined => tokens is None,
        MeasuredSpeedup::Infinite => tokens is Some && cost == 0,
        MeasuredSpeedup::Finite { negative, magnitude } => {
            &&& tokens is Some
            &&& cost != 0
            &&& negative == (cost < 0)
            &&& magnitude.wf()
            &&& magnitude.value() == quotient(
                tokens->0 as int,
                if cost < 0 {
                    -cost
                } else {
                    cost
                },
            )
        },
    }
}

/// A measured speedup is one: tokens and cost leave no choice.
pub proof fn law_speedup_is_unique(
    a: MeasuredSpeedup,
    b: MeasuredSpeedup,
    tokens: Option<u128>,
    cost: int,
)
    requires
        is_speedup(a, tokens, cost),
        is_speedup(b, tokens, cost),
    ensures
        a == b,
{
    if let MeasuredSpeedup::Finite { magnitude: x, .. } = a {
        if let MeasuredSpeedup::Finite { magnitude: y, .. } = b {
            lemma_magnitude_unique(x, y);
        }
    }
}

/// The quotient by at least one is at most the dividend.
pub proof fn lemma_quotient_at_most(num: int, den: int)
    requires
        0 <= num,
        ONE <= den,
    ensures
        0 <= quotient(num, den) <= num,
{
    let one = ONE as int;
    assert(0 <= num * one <= num * den) by (nonlinear_arith)
        requires
            0 <= num,
            0 < one <= den,
    ;
    lemma_div_pos_is_pos(num * one, den);
    lemma_div_is_ordered(num * one, num * den, den);
    lemma_div_by_multiple(num, den);
}

/// Divides by a divisor that long division takes.
fn plain_ratio(num: u128, den: u128) -> (r: Magnitude)
    requires
        0 < den <= PLAIN_DIVISOR,
    ensures
        r.wf(),
        r.value() == quotient(num as int, den as int),
{
    let whole: u128 = num / den;
    let rem: u128 = num % den;
    let ghost one = ONE as int;
    proof {
        lemma_fundamental_div_mod(num as int, den as int);
        lemma_quotient_bounded(rem as int, den as int, 1);
        assert(rem * one < den * one) by (nonlinear_arith)
            requires
                rem < den,
                one > 0,
        ;
        lemma_multiply_divide_lt(rem * one, den as int, one);
        assert(num * one == rem * one + (whole * one) * den) by (nonlinear_arith)
            requires
                num == den * whole + rem,
        ;
        lemma_hoist_over_denominator(rem * one, whole * one, den as nat);
    }
    let units: u128 = divide(rem, den);
    Magnitude::new(whole, units as u64)
}

/// Whether `b` times one covers `a * c`.
fn covers(a: u128, b: u128, c: u128) -> (r: bool)
    requires
        0 < a <= PLAIN_DIVISOR,
        c <= MAX_MAGNITUDE,
    ensures
        r == (a * c <= b * ONE),
{
    let ghost one = ONE as int;
    let whole: u128 = b / a;
    proof {
        lemma_fundamental_div_mod(b as int, a as int);
    }
    if whole >= 200_000_000_000_000_000_000 {
        proof {
            assert(a * c <= b * one) by (nonlinear_arith)
                requires
                    b >= a * whole,
                    whole >= 200_000_000_000_000_000_000,
                    c <= 200_000_000_000_000_000_000 * one,
                    a > 0,
                    one > 0,
            {
                assert(a * c <= a * (whole * one));
                assert(a * (whole * one) == (a * whole) * one);
                assert((a * whole) * one <= b * one);
            }
        }
        return true;
    }
    proof {
        assert(b <= (whole + 1) * a) by (nonlinear_arith)
            requires
                b == a * whole + b % a,
                b % a <= a,
        ;
        lemma_quotient_bounded(b as int, a as int, whole + 1);
    }
    let most: u128 = divide(b, a);
    proof {
        let m = most as int;
        lemma_fundamental_div_mod(b * one, a as int);
        assert(a * c <= b * one <==> c <= m) by (nonlinear_arith)
            requires
                a * m <= b * one < a * m + a,
                a > 0,
        ;
    }
    c <= most
}

/// Tokens over a cost of `k * n` and one unit more, or less, that is too large
/// for long division: the quotient is small, and is found by bisection.
fn wide_ratio(tokens: u128, k: u32, n: u128, less: bool) -> (r: u64)
    requires
        ONE <= tokens <= MAX_TOKENS,
        n <= MAX_MAGNITUDE,
        k * n > PLAIN_DIVISOR - ONE,
    ensures
        r < ONE,
        r == quotient(
            tokens as int,
            if less {
                k * n - ONE
            } else {
                k * n + ONE
            },
        ),
{
    let ghost one = ONE as int;
    let ghost kn = k * n;
    let ghost den = if less {
        kn - one
    } else {
        kn + one
    };
    let ghost goal = tokens * one;
    let mut low: u64 = 0;
    let mut high: u64 = 134_217_728;
    proof {
        assert(0 * den == 0);
        assert(goal < 134_217_728 * den);
        assert(k > 0) by (nonlinear_arith)
            requires
                k * n > 0,
                k >= 0,
        ;
    }
    while high - low > 1
        invariant
            low < high <= 134_217_728,
            ONE <= tokens <= MAX_TOKENS,
            n <= MAX_MAGNITUDE,
            k > 0,
            kn == k * n,
            one == ONE,
            den == if less {
                kn - one
            } else {
                kn + one
            },
            goal == tokens * one,
            low * den <= goal < high * den,
        decreases high - low,
    {
        let mid: u64 = low + (high - low) / 2;
        proof {
            assert(0 < mid * k <= 134_217_728 * u32::MAX) by (nonlinear_arith)
                requires
                    0 < mid <= 134_217_728,
                    0 < k <= u32::MAX,
            ;
            assert((mid * k) * n == mid * kn) by (nonlinear_arith)
                requires
                    kn == k * n,
            ;
            assert(mid * (kn - one) == mid * kn - mid * one) by (nonlinear_arith);
            assert(mid * (kn + one) == mid * kn + mid * one) by (nonlinear_arith);
        }
        let budget: u128 = if less {
            tokens + mid as u128
        } else {
            tokens - mid as u128
        };
        if covers(mid as u128 * k as u128, budget, n) {
            low = mid;
        } else {
            high = mid;
        }
    }
    proof {
        assert((low + 1) * den == low * den + den) by (nonlinear_arith);
        lemma_fundamental_div_mod_converse(goal, den, low as int, goal - low * den);
    }
    low
}

/// Tokens over the cost of `k * n` and one unit more, or less.
fn ratio_to_cost(tokens: u128, k: u32, n: u128, less: bool) -> (r: Magnitude)
    requires
        ONE <= tokens <= MAX_TOKENS,
        n <= MAX_MAGNITUDE,
        less ==> k * n > ONE,
    ensures
        r.wf(),
        r.value() == quotient(
            tokens as int,
            if less {
                k * n - ONE
            } else {
                k * n + ONE
            },
        ),
{
    let one: u128 = ONE as u128;
    let limit: u128 = PLAIN_DIVISOR - one;
    if k == 0 {
        assert(0 * n == 0);
        return plain_ratio(tokens, one);
    }
    let most: u128 = limit / k as u128;
    proof {
        lemma_fundamental_div_mod(limit as int, k as int);
    }
    if n <= most {
        proof {
            assert(k * n <= limit) by (nonlinear_arith)
                requires
                    limit >= k * most,
                    n <= most,
                    k > 0,
            ;
        }
        let spent: u128 = k as u128 * n;
        return plain_ratio(
            tokens,
            if less {
                spent - one
            } else {
                spent + one
            },
        );
    }
    proof {
        assert(k * n > limit) by (nonlinear_arith)
            requires
                limit == k * most + limit % (k as u128),
                limit % (k as u128) < k,
                n >= most + 1,
                k > 0,
        ;
    }
    Magnitude::new(0, wide_ratio(tokens, k, n, less))
}

/// Tokens over the cost of a round, rounded down.
pub(crate) fn speedup_of(tokens: u128, k: u32, cost_ratio: i128) -> (r: u128)
    requires
        ONE <= tokens <= MAX_TOKENS,
    ensures
        r == quotient(tokens as int, round_cost(k as nat, cost_ratio as int)),
{
    let per_draft: u128 = if cost_ratio > 0 {
        cost_ratio as u128
    } else {
        0
    };
    let m: Magnitude = ratio_to_cost(tokens, k, per_draft, false);
    proof {
        assert(0 <= k * per_draft) by (nonlinear_arith)
            requires
                0 <= k,
                0 <= per_draft,
        ;
        lemma_quotient_at_most(tokens as int, round_cost(k as nat, cost_ratio as int));
    }
    let (whole, units) = m.parts();
    whole * ONE as u128 + units as u128
}

/// Tokens over the cost of a round at the cost ratio as it is.
pub(crate) fn measured_speedup(tokens: Option<u128>, k: u32, cost_ratio: i128) -> (m:
    MeasuredSpeedup)
    requires
        tokens matches Some(t) ==> ONE <= t <= MAX_TOKENS,
    ensures
        is_speedup(m, tokens, raw_cost(k as nat, cost_ratio as int)),
{
    let t: u128 = match tokens {
        Some(t) => t,
        None => {
            return MeasuredSpeedup::Undefined;
        },
    };
    if cost_ratio >= 0 {
        proof {
            assert(0 <= k * cost_ratio) by (nonlinear_arith)
                requires
                    0 <= k,
                    0 <= cost_ratio,
            ;
        }
        return MeasuredSpeedup::Finite {
            negative: false,
            magnitude: ratio_to_cost(t, k, cost_ratio as u128, false),
        };
    }
    let one: u128 = ONE as u128;
    let n: u128 = (-(cost_ratio + 1)) as u128 + 1;
    let ghost kn = k * n;
    proof {
        assert(k * cost_ratio == -kn) by (nonlinear_arith)
            requires
                n == -cost_ratio,
                kn == k * n,
        ;
    }
    if k == 0 {
        assert(0 * n == 0);
        return MeasuredSpeedup::Finite { negative: false, magnitude: plain_ratio(t, one) };
    }
    let most: u128 = one / k as u128;
    proof {
        lemma_fundamental_div_mod(one as int, k as int);
    }
    if n <= most {
        proof {
            assert(kn <= one) by (nonlinear_arith)
                requires
                    one >= k * most,
                    n <= most,
                    kn == k * n,
                    k > 0,
            ;
        }
        let cost: u128 = one - k as u128 * n;
        if cost == 0 {
            return MeasuredSpeedup::Infinite;
        }
        return MeasuredSpeedup::Finite { negative: false, magnitude: plain_ratio(t, cost) };
    }
    proof {
        assert(kn > one) by (nonlinear_arith)
            requires
                one == k * most + one % (k as u128),
                one % (k as u128) < k,
                n >= most + 1,
                kn == k * n,
                k > 0,
        ;
    }
    MeasuredSpeedup::Finite { negative: true, magnitude: ratio_to_cost(t, k, n, true) }
}

} // verus!
