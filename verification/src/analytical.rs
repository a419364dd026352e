//! Closed-form model of the performance of speculative decoding.
//!
//! For a per-token acceptance probability `alpha`, the same at each of the `k`
//! drafted positions and independent between them, a verification round emits
//!
//! ```text
//! E[tokens] = (1 - alpha^(k+1)) / (1 - alpha) = 1 + alpha + ... + alpha^k
//! ```
//!
//! tokens on average. It costs `k` draft passes and one target pass, where
//! plain decoding pays one target pass per token, so the speedup is
//!
//! ```text
//! E[tokens] / (k * cost_ratio + 1)
//! ```
//!
//! with `cost_ratio` the cost of a draft pass over that of a target pass. All
//! numbers are in units of `1 / ONE`.
use vstd::arithmetic::div_mod::*;
use vstd::arithmetic::mul::lemma_mul_inequality;
use vstd::arithmetic::power::*;
use vstd::prelude::*;

use crate::cost::{round_cost, speedup_of};
use crate::fixed::{multiply, product, quotient, ONE};
use crate::mass::positive;

verus! {

/// A probability, clamped to `[0, 1]`.
pub open spec fn clamp_unit(x: int) -> int {
    if x < 0 {
        0
    } else if x > ONE {
        ONE as int
    } else {
        x
    }
}

/// Clamps a number to `[0, 1]`.
pub(crate) fn clamp_to_unit(x: i64) -> (r: u64)
    ensures
        r == clamp_unit(x as int),
        r <= ONE,
{
    if x < 0 {
        0
    } else if x > ONE as i64 {
        ONE
    } else {
        x as u64
    }
}

/// `1 + alpha + ... + alpha^k` by Horner's rule, each product rounded down.
pub open spec fn geometric_sum(alpha: int, k: nat) -> int
    decreases k,
{
    if k == 0 {
        ONE as int
    } else {
        ONE + product(alpha, geometric_sum(alpha, (k - 1) as nat))
    }
}

/// The expected number of tokens per round.
pub open spec fn expected_tokens(alpha: int, k: nat) -> int {
    geometric_sum(clamp_unit(alpha), k)
}

/// The expected speedup over plain decoding, rounded down.
pub open spec fn speedup(alpha: int, k: nat, cost_ratio: int) -> int {
    quotient(expected_tokens(alpha, k), round_cost(k, cost_ratio))
}

/// `k` is the first draft length in `1..=k_max` of the greatest speedup.
pub open spec fn is_optimal(alpha: int, cost_ratio: int, k_max: nat, k: nat) -> bool {
    &&& 1 <= k <= k_max
    &&& forall|j: nat|
        1 <= j <= k_max ==> #[trigger] speedup(alpha, j, cost_ratio) <= speedup(
            alpha,
            k,
            cost_ratio,
        )
    &&& forall|j: nat|
        1 <= j < k ==> #[trigger] speedup(alpha, j, cost_ratio) < speedup(alpha, k, cost_ratio)
}

proof fn lemma_product_bounds(a: int, x: int)
    requires
        0 <= a <= ONE,
        0 <= x,
    ensures
        0 <= product(a, x) <= x,
        product(a, x) * ONE <= a * x < (product(a, x) + 1) * ONE,
{
    let one = ONE as int;
    assert(0 <= a * x <= one * x) by (nonlinear_arith)
        requires
            0 <= a <= one,
            0 <= x,
    ;
    lemma_div_pos_is_pos(a * x, one);
    lemma_div_is_ordered(a * x, one * x, one);
    lemma_div_multiples_vanish(x, one);
    lemma_fundamental_div_mod(a * x, one);
}

/// A round emits between one token and `k + 1` on average.
pub proof fn lemma_tokens_in_range(alpha: int, k: nat)
    ensures
        ONE <= expected_tokens(alpha, k) <= (k + 1) * ONE,
    decreases k,
{
    if k > 0 {
        lemma_tokens_in_range(alpha, (k - 1) as nat);
        lemma_product_bounds(clamp_unit(alpha), geometric_sum(clamp_unit(alpha), (k - 1) as nat));
    }
}

/// One more drafted position: the tokens for `k + 1` from those for `k`.
fn extend_tokens(alpha: u64, tokens: u128, k: Ghost<nat>) -> (r: u128)
    requires
        alpha <= ONE,
        tokens == expected_tokens(alpha as int, k@),
        k@ <= u32::MAX,
    ensures
        r == expected_tokens(alpha as int, k@ + 1),
{
    proof {
        lemma_tokens_in_range(alpha as int, k@);
    }
    ONE as u128 + multiply(alpha, tokens)
}

/// Once a further position adds nothing, none does.
proof fn lemma_tokens_stay(alpha: int, j: nat, k: nat)
    requires
        j <= k,
        expected_tokens(alpha, j + 1) == expected_tokens(alpha, j),
    ensures
        expected_tokens(alpha, k) == expected_tokens(alpha, j),
    decreases k,
{
    if j < k {
        lemma_tokens_stay(alpha, j, (k - 1) as nat);
    }
}

/// Expected number of tokens emitted per verification round of draft length
/// `k`: `(1 - alpha^(k+1)) / (1 - alpha)`, or the limit `k + 1` at `alpha = 1`.
///
/// `alpha` is clamped to `[0, 1]`. For `k = 0` the result is one, the token
/// that the target emits on its own.
#[must_use]
pub fn expected_accepted_tokens(alpha: i64, k: u32) -> (tokens: u128)
    ensures
        tokens == expected_tokens(alpha as int, k as nat),
        ONE <= tokens <= (k + 1) * ONE,
{
    let a: u64 = clamp_to_unit(alpha);
    proof {
        lemma_tokens_in_range(alpha as int, k as nat);
    }
    if a == ONE {
        proof {
            law_alpha_one(k as nat);
        }
        return (k as u128 + 1) * ONE as u128;
    }
    let mut tokens: u128 = ONE as u128;
    let mut i: u32 = 0;
    while i < k
        invariant
            i <= k,
            a == clamp_unit(alpha as int),
            tokens == expected_tokens(a as int, i as nat),
            ONE <= expected_tokens(alpha as int, k as nat) <= (k + 1) * ONE,
        decreases k - i,
    {
        let next: u128 = extend_tokens(a, tokens, Ghost(i as nat));
        if next == tokens {
            proof {
                lemma_tokens_stay(a as int, i as nat, k as nat);
            }
            return tokens;
        }
        tokens = next;
        i = i + 1;
    }
    tokens
}

/// Expected speedup of speculative decoding over plain decoding:
/// `E[tokens] / (k * cost_ratio + 1)`, rounded down.
///
/// `cost_ratio` is the cost of a draft pass over that of a target pass, clamped
/// to be non-negative.
#[must_use]
pub fn expected_speedup(alpha: i64, k: u32, cost_ratio: i128) -> (r: u128)
    ensures
        r == speedup(alpha as int, k as nat, cost_ratio as int),
        r == speedup(alpha as int, k as nat, positive(cost_ratio as int)),
{
    speedup_of(expected_accepted_tokens(alpha, k), k, cost_ratio)
}

/// The draft length in `1..=k_max` that maximizes [`expected_speedup`], the
/// first of several, together with that speedup.
///
/// Returns `None` if `k_max == 0`.
#[must_use]
pub fn optimal_k(alpha: i64, cost_ratio: i128, k_max: u32) -> (r: Option<(u32, u128)>)
    ensures
        r is None <==> k_max == 0,
        r matches Some((k, s)) ==> {
            &&& is_optimal(alpha as int, cost_ratio as int, k_max as nat, k as nat)
            &&& s == speedup(alpha as int, k as nat, cost_ratio as int)
        },
{
    if k_max == 0 {
        return None;
    }
    let a: u64 = clamp_to_unit(alpha);
    let ghost al = alpha as int;
    let ghost cr = cost_ratio as int;
    let mut k: u32 = 1;
    let mut tokens: u128 = extend_tokens(a, ONE as u128, Ghost(0));
    let mut best_k: u32 = 1;
    proof {
        lemma_tokens_in_range(al, 1);
    }
    let mut best: u128 = speedup_of(tokens, 1, cost_ratio);
    assert(best == speedup(al, 1, cr));
    while k < k_max
        invariant
            1 <= k <= k_max,
            al == alpha as int,
            cr == cost_ratio as int,
            a == clamp_unit(al),
            tokens == expected_tokens(a as int, k as nat),
            is_optimal(al, cr, k as nat, best_k as nat),
            best == speedup(al, best_k as nat, cr),
        decreases k_max - k,
    {
        tokens = extend_tokens(a, tokens, Ghost(k as nat));
        k = k + 1;
        proof {
            lemma_tokens_in_range(al, k as nat);
        }
        let s: u128 = speedup_of(tokens, k, cost_ratio);
        assert(s == speedup(al, k as nat, cr));
        if s > best {
            best_k = k;
            best = s;
        }
    }
    Some((best_k, best))
}

/// The exact expected number of tokens, as the numerator over `ONE^k`.
pub open spec fn geometric_numerator(alpha: int, k: nat) -> int
    decreases k,
{
    if k == 0 {
        1
    } else {
        pow(ONE as int, k) + alpha * geometric_numerator(alpha, (k - 1) as nat)
    }
}

/// The closed form: `E[tokens] * (1 - alpha) = 1 - alpha^(k+1)`, with both
/// sides times `ONE^(k+1)`.
pub proof fn law_closed_form(alpha: int, k: nat)
    ensures
        (ONE - alpha) * geometric_numerator(alpha, k) == pow(ONE as int, k + 1) - pow(
            alpha,
            k + 1,
        ),
    decreases k,
{
    let one = ONE as int;
    reveal(pow);
    if k == 0 {
        lemma_pow1(one);
        lemma_pow1(alpha);
    } else {
        let j = (k - 1) as nat;
        law_closed_form(alpha, j);
        let g = geometric_numerator(alpha, j);
        assert(pow(one, k + 1) == one * pow(one, k));
        assert(pow(alpha, k + 1) == alpha * pow(alpha, k));
        assert((one - alpha) * (pow(one, k) + alpha * g) == one * pow(one, k) - alpha * pow(
            alpha,
            k,
        )) by (nonlinear_arith)
            requires
                (one - alpha) * g == pow(one, k) - pow(alpha, k),
        ;
    }
}

/// Rounding: the computed number of tokens is the exact one rounded down by at
/// most `k` units.
pub proof fn law_tokens_close_to_exact(alpha: int, k: nat)
    requires
        0 <= alpha <= ONE,
    ensures
        expected_tokens(alpha, k) * pow(ONE as int, k) <= ONE * geometric_numerator(alpha, k) <= (
        expected_tokens(alpha, k) + k) * pow(ONE as int, k),
    decreases k,
{
    let one = ONE as int;
    reveal(pow);
    if k == 0 {
        assert(pow(one, 0) == 1);
    } else {
        let j = (k - 1) as nat;
        law_tokens_close_to_exact(alpha, j);
        lemma_tokens_in_range(alpha, j);
        let h = geometric_sum(alpha, j);
        let g = geometric_numerator(alpha, j);
        let pj = pow(one, j);
        let f = product(alpha, h);
        assert(pow(one, k) == one * pj);
        lemma_pow_positive(one, j);
        lemma_product_bounds(alpha, h);
        assert((one + f) * (one * pj) <= one * (one * pj + alpha * g)) by (nonlinear_arith)
            requires
                f * one <= alpha * h,
                h * pj <= one * g,
                0 < pj,
                0 <= alpha <= one,
        {
            assert((f * one) * pj <= (alpha * h) * pj);
            assert(alpha * (h * pj) <= alpha * (one * g));
            assert((one + f) * (one * pj) == one * (one * pj) + (f * one) * pj);
            assert(one * (one * pj + alpha * g) == one * (one * pj) + alpha * (one * g));
            assert((alpha * h) * pj == alpha * (h * pj));
        }
        assert(one * (one * pj + alpha * g) <= (one + f + j + 1) * (one * pj))
            by (nonlinear_arith)
            requires
                alpha * h <= (f + 1) * one,
                one * g <= (h + j) * pj,
                0 < pj,
                0 <= alpha <= one,
                0 <= j,
        {
            assert(alpha * (one * g) <= alpha * ((h + j) * pj));
            assert(alpha * ((h + j) * pj) == (alpha * h) * pj + alpha * (j * pj));
            assert((alpha * h) * pj <= ((f + 1) * one) * pj);
            assert(0 <= j * pj);
            assert(alpha * (j * pj) <= one * (j * pj));
            assert((one + f + j + 1) * (one * pj) == one * (one * pj) + ((f + 1) * one) * pj + one
                * (j * pj));
            assert(one * (one * pj + alpha * g) == one * (one * pj) + alpha * (one * g));
        }
    }
}

/// The limit: at `alpha = 1` all `k` drafts and the bonus token count, and the
/// exact sum has the same value.
pub proof fn law_alpha_one(k: nat)
    ensures
        expected_tokens(ONE as int, k) == (k + 1) * ONE,
        geometric_numerator(ONE as int, k) == (k + 1) * pow(ONE as int, k),
    decreases k,
{
    let one = ONE as int;
    reveal(pow);
    if k > 0 {
        law_alpha_one((k - 1) as nat);
        lemma_div_multiples_vanish(k * one, one);
        let pj = pow(one, (k - 1) as nat);
        assert(pow(one, k) == one * pj);
        assert(one * pj + one * (k * pj) == (k + 1) * (one * pj)) by (nonlinear_arith);
    } else {
        assert(pow(one, 0) == 1);
    }
}

/// Towards the limit: below `alpha = 1` the exact number of tokens falls short of
/// `k + 1` by at most `k * (k + 1) / 2 * (1 - alpha)`.
pub proof fn law_limit_close_to_exact(alpha: int, k: nat)
    requires
        0 <= alpha <= ONE,
    ensures
        0 <= 2 * ONE * ((k + 1) * pow(ONE as int, k) - geometric_numerator(alpha, k)) <= (ONE
            - alpha) * (k * (k + 1)) * pow(ONE as int, k),
    decreases k,
{
    let one = ONE as int;
    let e = one - alpha;
    reveal(pow);
    if k == 0 {
        assert(pow(one, 0) == 1);
        assert(e * 0 == 0);
    } else {
        let j = (k - 1) as nat;
        law_limit_close_to_exact(alpha, j);
        let pj = pow(one, j);
        let g = geometric_numerator(alpha, j);
        let d = k * pj - g;
        lemma_pow_positive(one, j);
        assert(pow(one, k) == one * pj);
        let gap = (k + 1) * (one * pj) - (one * pj + alpha * g);
        assert(gap == one * d + e * g) by (nonlinear_arith)
            requires
                gap == (k + 1) * (one * pj) - (one * pj + alpha * g),
                d == k * pj - g,
                e == one - alpha,
        ;
        lemma_geometric_numerator_positive(alpha, j);
        let u = e * (k * pj);
        assert(0 <= e * g <= u) by (nonlinear_arith)
            requires
                0 <= e,
                0 <= g <= k * pj,
                u == e * (k * pj),
        ;
        let t = e * (j * k) * pj;
        assert(0 <= 2 * one * d <= t);
        assert(2 * one * gap == one * (2 * one * d) + 2 * one * (e * g)) by (nonlinear_arith)
            requires
                gap == one * d + e * g,
        ;
        assert(0 <= one * (2 * one * d) <= one * t && 0 <= 2 * one * (e * g) <= 2 * one * u)
            by (nonlinear_arith)
            requires
                0 <= 2 * one * d <= t,
                0 <= e * g <= u,
                one > 0,
        ;
        assert(one * t + 2 * one * u == e * (k * (k + 1)) * (one * pj)) by (nonlinear_arith)
            requires
                t == e * (j * k) * pj,
                u == e * (k * pj),
                j == k - 1,
        ;
    }
}

proof fn lemma_geometric_numerator_positive(alpha: int, k: nat)
    requires
        0 <= alpha <= ONE,
    ensures
        0 <= geometric_numerator(alpha, k),
    decreases k,
{
    let one = ONE as int;
    lemma_pow_positive(one, k);
    if k > 0 {
        lemma_geometric_numerator_positive(alpha, (k - 1) as nat);
        assert(0 <= alpha * geometric_numerator(alpha, (k - 1) as nat)) by (nonlinear_arith)
            requires
                0 <= alpha,
                0 <= geometric_numerator(alpha, (k - 1) as nat),
        ;
    }
}

/// The mean number of tokens of a round in which each draft is accepted with
/// probability `alpha`, as the numerator over `ONE^k`: a rejected first draft
/// ends the round with its resampled token, an accepted one counts and leaves a
/// round of one draft less, and a round without drafts emits the bonus token.
pub open spec fn mean_tokens(alpha: int, k: nat) -> int
    decreases k,
{
    if k == 0 {
        1
    } else {
        let j = (k - 1) as nat;
        (ONE - alpha) * pow(ONE as int, j) + alpha * (pow(ONE as int, j) + mean_tokens(alpha, j))
    }
}

/// The model is the mean of what a round does: with independent acceptances the
/// mean number of tokens is the geometric sum.
pub proof fn law_mean_is_geometric(alpha: int, k: nat)
    ensures
        mean_tokens(alpha, k) == geometric_numerator(alpha, k),
    decreases k,
{
    if k > 0 {
        let one = ONE as int;
        let j = (k - 1) as nat;
        law_mean_is_geometric(alpha, j);
        reveal(pow);
        let pj = pow(one, j);
        let m = mean_tokens(alpha, j);
        assert(pow(one, k) == one * pj);
        assert((one - alpha) * pj + alpha * (pj + m) == one * pj + alpha * m)
            by (nonlinear_arith);
    }
}

/// At `alpha = 0` a round emits one token, whatever its length.
pub proof fn law_alpha_zero(k: nat)
    ensures
        expected_tokens(0, k) == ONE,
    decreases k,
{
    if k > 0 {
        law_alpha_zero((k - 1) as nat);
        assert(0 * geometric_sum(0, (k - 1) as nat) == 0);
    }
}

/// Without drafts a round emits one token: plain decoding, at speedup one.
pub proof fn law_no_drafts(alpha: int, cost_ratio: int)
    ensures
        expected_tokens(alpha, 0) == ONE,
        speedup(alpha, 0, cost_ratio) == ONE,
{
    assert(0 * positive(cost_ratio) == 0);
    lemma_div_multiples_vanish(ONE as int, ONE as int);
}

/// With one draft a round emits `1 + alpha` tokens.
pub proof fn law_one_draft(alpha: int)
    requires
        0 <= alpha <= ONE,
    ensures
        expected_tokens(alpha, 1) == ONE + alpha,
{
    reveal_with_fuel(geometric_sum, 2);
    lemma_div_by_multiple(alpha, ONE as int);
}

/// A better draft never lowers the expected number of tokens.
pub proof fn law_monotonic_in_alpha(a: int, b: int, k: nat)
    requires
        a <= b,
    ensures
        expected_tokens(a, k) <= expected_tokens(b, k),
{
    lemma_tokens_in_range(a, k);
    lemma_geometric_sum_monotonic(clamp_unit(a), clamp_unit(b), k);
}

proof fn lemma_geometric_sum_monotonic(a: int, b: int, k: nat)
    requires
        0 <= a <= b <= ONE,
    ensures
        geometric_sum(a, k) <= geometric_sum(b, k),
    decreases k,
{
    if k > 0 {
        let j = (k - 1) as nat;
        lemma_geometric_sum_monotonic(a, b, j);
        lemma_tokens_in_range(a, j);
        let x = geometric_sum(a, j);
        let y = geometric_sum(b, j);
        assert(a * x <= b * y) by (nonlinear_arith)
            requires
                0 <= a <= b,
                0 <= x <= y,
        ;
        lemma_div_is_ordered(a * x, b * y, ONE as int);
    }
}

/// A longer draft never lowers the expected number of tokens.
pub proof fn law_monotonic_in_k(alpha: int, k: nat)
    ensures
        expected_tokens(alpha, k) <= expected_tokens(alpha, k + 1),
{
    let a = clamp_unit(alpha);
    lemma_geometric_sum_grows(a, k);
}

proof fn lemma_geometric_sum_grows(a: int, k: nat)
    requires
        0 <= a <= ONE,
    ensures
        geometric_sum(a, k) <= geometric_sum(a, k + 1),
    decreases k,
{
    if k == 0 {
        lemma_tokens_in_range(a, 0);
        lemma_product_bounds(a, geometric_sum(a, 0));
        assert(geometric_sum(a, 1) == ONE + product(a, geometric_sum(a, 0)));
    } else {
        let j = (k - 1) as nat;
        lemma_geometric_sum_grows(a, j);
        let x = geometric_sum(a, j);
        let y = geometric_sum(a, k);
        assert(a * x <= a * y) by (nonlinear_arith)
            requires
                0 <= a,
                x <= y,
        ;
        lemma_div_is_ordered(a * x, a * y, ONE as int);
    }
}

/// A costlier draft never raises the expected speedup.
pub proof fn law_speedup_falls_with_cost(alpha: int, k: nat, cheap: int, dear: int)
    requires
        cheap <= dear,
    ensures
        speedup(alpha, k, dear) <= speedup(alpha, k, cheap),
{
    let (a, b) = (positive(cheap), positive(dear));
    lemma_tokens_in_range(alpha, k);
    assert(0 <= k * a <= k * b) by (nonlinear_arith)
        requires
            0 <= a <= b,
            0 <= k,
    ;
    lemma_div_is_ordered_by_denominator(
        expected_tokens(alpha, k) * ONE,
        round_cost(k, cheap),
        round_cost(k, dear),
    );
}

/// A draft that costs nothing turns every token into speedup, and a negative cost
/// ratio counts as no cost.
pub proof fn law_free_draft(alpha: int, k: nat, cost_ratio: int)
    requires
        cost_ratio <= 0,
    ensures
        speedup(alpha, k, cost_ratio) == expected_tokens(alpha, k),
        speedup(alpha, k, cost_ratio) == speedup(alpha, k, 0),
{
    assert(k * 0 == 0);
    lemma_tokens_in_range(alpha, k);
    lemma_div_by_multiple(expected_tokens(alpha, k), ONE as int);
}

/// Drafting gains nothing unless the acceptance rate exceeds the cost of a draft.
pub proof fn law_no_gain_within_cost(alpha: int, k: nat, cost_ratio: int)
    requires
        alpha <= cost_ratio,
    ensures
        speedup(alpha, k, cost_ratio) <= ONE,
{
    let one = ONE as int;
    let a = clamp_unit(alpha);
    let c = positive(cost_ratio);
    let tokens = expected_tokens(alpha, k);
    let cost = round_cost(k, cost_ratio);
    if k > 0 {
        let j = (k - 1) as nat;
        let x = geometric_sum(a, j);
        lemma_tokens_in_range(alpha, j);
        assert(a * x <= (k * a) * one) by (nonlinear_arith)
            requires
                0 <= a,
                x <= k * one,
        ;
        lemma_div_is_ordered(a * x, (k * a) * one, one);
        lemma_div_by_multiple(k * a, one);
    } else {
        assert(0 * a == 0);
    }
    assert(0 <= k * a <= k * c) by (nonlinear_arith)
        requires
            0 <= a <= c,
            0 <= k,
    ;
    assert(tokens <= cost);
    lemma_mul_inequality(tokens, cost, one);
    lemma_div_is_ordered(tokens * one, cost * one, cost);
    lemma_div_multiples_vanish(one, cost);
}

/// However long the draft, a round emits at most `1 / (1 - alpha)` tokens on
/// average.
pub proof fn law_tokens_bounded(alpha: int, k: nat)
    ensures
        (ONE - clamp_unit(alpha)) * expected_tokens(alpha, k) <= ONE * ONE,
    decreases k,
{
    let one = ONE as int;
    let a = clamp_unit(alpha);
    if k > 0 {
        let j = (k - 1) as nat;
        law_tokens_bounded(alpha, j);
        lemma_tokens_in_range(alpha, j);
        let g = geometric_sum(a, j);
        let f = product(a, g);
        let e = one - a;
        lemma_product_bounds(a, g);
        assert(e * (one + f) <= one * one) by (nonlinear_arith)
            requires
                f * one <= a * g,
                e * g <= one * one,
                e == one - a,
                0 <= a <= one,
                one > 0,
        {
            assert(e * (f * one) <= e * (a * g));
            assert(e * (a * g) == a * (e * g));
            assert(a * (e * g) <= a * (one * one));
            assert(one * (e * (one + f)) == e * (one * one) + e * (f * one));
            assert(e * (one * one) + a * (one * one) == one * (one * one));
            assert(one * (e * (one + f)) <= one * (one * one));
        }
    } else {
        assert((one - a) * one <= one * one) by (nonlinear_arith)
            requires
                0 <= a,
                one > 0,
        ;
    }
}

/// The cost of drafting wins in the end: a draft so long that its round costs
/// `1 / (1 - alpha^2)` times a round of one draft is no faster than that.
pub proof fn law_long_drafts_do_not_pay(alpha: int, k: nat, cost_ratio: int)
    requires
        alpha < ONE,
        ({
            let a = clamp_unit(alpha);
            ONE * ONE * round_cost(1, cost_ratio) <= (ONE * ONE - a * a) * round_cost(k, cost_ratio)
        }),
    ensures
        speedup(alpha, k, cost_ratio) <= speedup(alpha, 1, cost_ratio),
{
    let one = ONE as int;
    let a = clamp_unit(alpha);
    let e = one - a;
    let t = expected_tokens(alpha, k);
    let c = positive(cost_ratio);
    let x = round_cost(1, cost_ratio);
    let y = round_cost(k, cost_ratio);
    law_tokens_bounded(alpha, k);
    law_one_draft(a);
    assert(expected_tokens(alpha, 1) == expected_tokens(a, 1));
    assert(0 <= k * c && 0 <= 1 * c) by (nonlinear_arith)
        requires
            0 <= c,
            0 <= k,
    ;
    assert(t * x <= (one + a) * y) by (nonlinear_arith)
        requires
            e * t <= one * one,
            one * one * x <= (one * one - a * a) * y,
            e == one - a,
            e > 0,
            x > 0,
    {
        assert((e * t) * x <= (one * one) * x);
        assert((one * one - a * a) * y == e * ((one + a) * y));
        assert((e * t) * x == e * (t * x));
        assert(e * (t * x) <= e * ((one + a) * y));
    }
    let q = t * one / y;
    lemma_fundamental_div_mod(t * one, y);
    lemma_tokens_in_range(alpha, k);
    lemma_div_pos_is_pos(t * one, y);
    assert(q * x <= (one + a) * one) by (nonlinear_arith)
        requires
            y * q <= t * one,
            t * x <= (one + a) * y,
            y > 0,
            x > 0,
            one > 0,
    {
        assert((y * q) * x <= (t * one) * x);
        assert((t * one) * x == (t * x) * one);
        assert((t * x) * one <= ((one + a) * y) * one);
        assert(y * (q * x) <= y * ((one + a) * one));
    }
    lemma_div_is_ordered(q * x, (one + a) * one, x);
    lemma_div_by_multiple(q, x);
}

/// The best draft length is finite: where drafts cost something and are not always
/// accepted, from some length on none is faster than a single draft, and none of
/// those is ever the best.
pub proof fn law_optimum_is_finite(alpha: int, cost_ratio: int) -> (bound: nat)
    requires
        alpha < ONE,
        cost_ratio > 0,
    ensures
        forall|k: nat|
            k >= bound ==> #[trigger] speedup(alpha, k, cost_ratio) <= speedup(
                alpha,
                1,
                cost_ratio,
            ),
        forall|k_max: nat, k: nat|
            #[trigger] is_optimal(alpha, cost_ratio, k_max, k) ==> k <= bound,
{
    let one = ONE as int;
    let a = clamp_unit(alpha);
    let x = round_cost(1, cost_ratio);
    let bound = (one * one * x) as nat;
    assert(bound >= 1) by (nonlinear_arith)
        requires
            bound == one * one * x,
            one >= 1,
            x >= 1,
    ;
    assert forall|k: nat| k >= bound implies #[trigger] speedup(alpha, k, cost_ratio) <= speedup(
        alpha,
        1,
        cost_ratio,
    ) by {
        let y = round_cost(k, cost_ratio);
        assert(one * one * x <= (one * one - a * a) * y) by (nonlinear_arith)
            requires
                one * one * x <= k,
                y == k * cost_ratio + one,
                cost_ratio >= 1,
                0 <= a <= one - 1,
                one >= 1,
        {
            assert(k <= k * cost_ratio);
            assert(a * a <= (one - 1) * (one - 1));
            assert(one * one - a * a >= 1);
            assert(y <= (one * one - a * a) * y);
        }
        law_long_drafts_do_not_pay(alpha, k, cost_ratio);
    }
    assert forall|k_max: nat, k: nat|
        #[trigger] is_optimal(alpha, cost_ratio, k_max, k) implies k <= bound by {
        if k > bound {
            assert(speedup(alpha, 1, cost_ratio) < speedup(alpha, k, cost_ratio));
        }
    }
    bound
}

/// Tokens by draft length: without drafts a round emits one token, and one draft
/// more turns the tokens `t` of a round into `1 + alpha * t`, rounded down to a unit.
pub proof fn law_tokens_by_length(alpha: int, k: nat)
    requires
        0 <= alpha <= ONE,
    ensures
        expected_tokens(alpha, 0) == ONE,
        ({
            let t = expected_tokens(alpha, k);
            let more = expected_tokens(alpha, k + 1) - ONE;
            more * ONE <= alpha * t < more * ONE + ONE
        }),
{
    lemma_tokens_in_range(alpha, k);
    lemma_product_bounds(alpha, geometric_sum(alpha, k));
    assert((product(alpha, geometric_sum(alpha, k)) + 1) * ONE == product(
        alpha,
        geometric_sum(alpha, k),
    ) * ONE + ONE);
}

/// The closed form of the tokens of a round: `(1 - alpha^(k+1)) / (1 - alpha)`, to
/// within `k` units, with both sides times `ONE^k * (ONE - alpha)`.
pub proof fn law_tokens_by_powers(alpha: int, k: nat)
    requires
        0 <= alpha <= ONE,
    ensures
        ({
            let t = expected_tokens(alpha, k);
            let unit = pow(ONE as int, k) * (ONE - alpha);
            let exact = ONE * (pow(ONE as int, k + 1) - pow(alpha, k + 1));
            t * unit <= exact <= (t + k) * unit
        }),
{
    let t = expected_tokens(alpha, k);
    let g = geometric_numerator(alpha, k);
    let x = pow(ONE as int, k);
    let e = ONE - alpha;
    law_tokens_close_to_exact(alpha, k);
    law_closed_form(alpha, k);
    assert(t * (x * e) <= ONE * (e * g) <= (t + k) * (x * e)) by (nonlinear_arith)
        requires
            t * x <= ONE * g <= (t + k) * x,
            0 <= e,
    {
        assert((t * x) * e <= (ONE * g) * e <= ((t + k) * x) * e);
        assert((t * x) * e == t * (x * e));
        assert((ONE * g) * e == ONE * (e * g));
        assert(((t + k) * x) * e == (t + k) * (x * e));
    }
}

/// A probability outside of `[0, 1]` counts as the nearer end.
pub proof fn law_probabilities_are_clamped(alpha: int, k: nat)
    ensures
        alpha <= 0 ==> clamp_unit(alpha) == 0,
        0 <= alpha <= ONE ==> clamp_unit(alpha) == alpha,
        alpha >= ONE ==> clamp_unit(alpha) == ONE,
        alpha <= 0 ==> expected_tokens(alpha, k) == expected_tokens(0, k),
        alpha >= ONE ==> expected_tokens(alpha, k) == expected_tokens(ONE as int, k),
{
}

/// Speedup: the expected tokens over `k` times the cost ratio and one, rounded down
/// to a unit. A negative cost ratio counts as zero.
pub proof fn law_speedup_is_tokens_over_cost(alpha: int, k: nat, cost_ratio: int)
    ensures
        ({
            let s = speedup(alpha, k, cost_ratio);
            let t = expected_tokens(alpha, k);
            let cost = if cost_ratio >= 0 {
                k * cost_ratio + ONE
            } else {
                ONE as int
            };
            &&& 0 < cost
            &&& s * cost <= t * ONE < (s + 1) * cost
        }),
{
    let s = speedup(alpha, k, cost_ratio);
    let c = positive(cost_ratio);
    let cost = k * c + ONE;
    assert(0 <= k * c) by (nonlinear_arith)
        requires
            0 <= k,
            0 <= c,
    ;
    if cost_ratio < 0 {
        assert(k * 0 == 0);
    }
    lemma_fundamental_div_mod(expected_tokens(alpha, k) * ONE, cost);
    assert(s * cost == cost * s && (s + 1) * cost == cost * s + cost) by (nonlinear_arith);
}

/// The cost of a round is linear in the draft length and, where it is not negative,
/// in the cost ratio.
pub proof fn law_cost_is_linear(j: nat, k: nat, a: int, b: int)
    requires
        0 <= a,
        0 <= b,
    ensures
        round_cost(k, a + b) - ONE == (round_cost(k, a) - ONE) + (round_cost(k, b) - ONE),
        round_cost(j + k, a) - ONE == (round_cost(j, a) - ONE) + (round_cost(k, a) - ONE),
        round_cost(1, a) - ONE == a,
        round_cost(k, -a) == ONE,
{
    assert(k * (a + b) == k * a + k * b) by (nonlinear_arith);
    assert((j + k) * a == j * a + k * a) by (nonlinear_arith);
    assert(k * 0 == 0 && 1 * a == a);
}

/// The best draft length: none up to the longest is faster, and every shorter one is
/// slower.
pub proof fn law_optimum_beats_the_others(
    alpha: int,
    cost_ratio: int,
    k_max: nat,
    k: nat,
    j: nat,
)
    requires
        is_optimal(alpha, cost_ratio, k_max, k),
        1 <= j <= k_max,
    ensures
        1 <= k <= k_max,
        speedup(alpha, j, cost_ratio) <= speedup(alpha, k, cost_ratio),
        j < k ==> speedup(alpha, j, cost_ratio) < speedup(alpha, k, cost_ratio),
{
}

} // verus!
