//! Benchmark sweep: simulates speculative-decoding rounds, measures the
//! acceptance rate and the speedup, and sets them beside the closed-form model.
//!
//! The acceptance rate of speculative sampling is the overlap
//! `sum of min(p(x), q(x))` of target and draft. To sweep it as an independent
//! variable, a pair with exactly that overlap is built in two blocks: `p` has
//! all its mass on the first half of the vocabulary, and `q` has `alpha` parts
//! of `p` there and the rest spread evenly over the second half.
use vstd::arithmetic::div_mod::*;
use vstd::arithmetic::mul::*;
use vstd::prelude::*;

use crate::analytical::{
    clamp_to_unit, clamp_unit, expected_accepted_tokens, expected_speedup, expected_tokens,
    is_optimal, optimal_k, speedup,
};
use crate::apportion::{
    climbs_to, draw_weights, is_distribution, law_normalized_in_proportion,
    law_peaked_masses_are_positive, lemma_climb_in_range, lemma_peaked_is_a_distribution,
    lemma_peaked_positive, lemma_peaked_total, lemma_prefix_of_steps, lemma_rounded_step,
    lemma_steps_are_a_distribution, normalize, normalized, peaked_weight, peaked_weights, steps,
    MAX_WEIGHT, WEIGHT_FLOOR,
};
use crate::cost::{
    is_speedup, law_speedup_is_unique, measured_speedup, raw_cost, MeasuredSpeedup, MAX_TOKENS,
};
use crate::draws::{law_draws_that_select, lemma_cut_monotonic};
use crate::fixed::{
    ceil_div, divide, law_quotient_is_exact_to_a_unit, lemma_quotient_bounded, multiply, product,
    quotient, scaled, ONE,
};
use crate::mass::{
    index_of, ints, lemma_index_of, lemma_positives_cover, lemma_prefix_agrees,
    lemma_prefix_bounds, lemma_prefix_monotonic, nats, nonnegative, prefix, total,
};
use crate::models::{Model, SyntheticModel};
use crate::preservation::{
    law_accept_when_target_dominates, law_equal_distributions_accept,
    law_reject_without_target_mass, law_step_succeeds, lemma_scaled_in_range, overlap,
};
use crate::rng::{categorical, sampled, seeded, Rng, RngState, DRAWS};
use crate::rounds::{
    law_rounds_account, law_simulation_succeeds, lemma_sampling_succeeds, simulate_rounds,
    simulation, RoundStats, Tally,
};
use crate::sampling::{
    accepts, excess, sample_from, speculative_step, step, SamplingError, StepOutcome,
};

verus! {

/// The target of an exact pair: a peaked distribution over the first half of
/// the tokens, and no mass on the second.
pub open spec fn pair_target(vocab: nat, seed: u64) -> Seq<int> {
    let half = vocab / 2;
    normalized(peaked_weights(seeded(seed), half)) + Seq::new(
        (vocab - half) as nat,
        |i: int| 0int,
    )
}

/// The running totals of the draft of an exact pair: `alpha` parts of the
/// target up to the middle, and from there the rest in even steps.
pub open spec fn pair_draft_running(vocab: nat, alpha: int, p: Seq<int>) -> Seq<int> {
    let half = vocab / 2;
    Seq::new(
        (vocab + 1) as nat,
        |i: int|
            if i <= half {
                product(alpha, prefix(p, i))
            } else {
                alpha + (ONE - alpha) * (i - half) / (vocab - half)
            },
    )
}

/// The draft of an exact pair.
pub open spec fn pair_draft(vocab: nat, alpha: int, p: Seq<int>) -> Seq<int> {
    steps(pair_draft_running(vocab, alpha, p))
}

/// The vocabulary size with room for two blocks.
pub open spec fn two_blocks(vocab: nat) -> nat {
    if vocab < 2 {
        2
    } else {
        vocab
    }
}

proof fn lemma_scaled_down(a: int, x: int, y: int)
    requires
        0 <= a <= ONE,
        0 <= x <= y,
    ensures
        0 <= product(a, x) <= product(a, y) <= product(a, x) + (y - x),
{
    let one = ONE as int;
    assert(0 <= a * x <= a * y && a * y <= a * x + (y - x) * one) by (nonlinear_arith)
        requires
            0 <= a <= one,
            0 <= x <= y,
    ;
    lemma_div_pos_is_pos(a * x, one);
    lemma_div_is_ordered(a * x, a * y, one);
    lemma_div_is_ordered(a * y, a * x + (y - x) * one, one);
    lemma_hoist_over_denominator(a * x, y - x, one as nat);
}

proof fn lemma_even_rest(a: int, x: int, n: int)
    requires
        0 <= a <= ONE,
        0 <= x < n,
    ensures
        0 <= (ONE - a) * x / n <= (ONE - a) * (x + 1) / n,
        x == 0 ==> (ONE - a) * x / n == 0,
        x + 1 == n ==> (ONE - a) * (x + 1) / n == ONE - a,
{
    let r = ONE - a;
    assert(0 <= r * x <= r * (x + 1)) by (nonlinear_arith)
        requires
            0 <= r,
            0 <= x,
    ;
    lemma_div_pos_is_pos(r * x, n);
    lemma_div_is_ordered(r * x, r * (x + 1), n);
    if x == 0 {
        assert(r * x == 0) by (nonlinear_arith)
            requires
                x == 0,
        ;
        lemma_div_basics(n);
    }
    if x + 1 == n {
        lemma_div_by_multiple(r, n);
    }
}

/// The target of an exact pair has all its mass in the first block.
proof fn lemma_pair_target(vocab: nat, seed: u64)
    requires
        vocab >= 2,
    ensures
        pair_target(vocab, seed).len() == vocab,
        is_distribution(pair_target(vocab, seed)),
        prefix(pair_target(vocab, seed), (vocab / 2) as int) == ONE,
        forall|i: int| vocab / 2 <= i < vocab ==> #[trigger] pair_target(vocab, seed)[i] == 0,
{
    let half = (vocab / 2) as int;
    let first = normalized(peaked_weights(seeded(seed), half as nat));
    let p = pair_target(vocab, seed);
    lemma_peaked_is_a_distribution(seeded(seed), half as nat);
    lemma_prefix_agrees(p, first, half);
    lemma_prefix_flat(p, half, vocab as int);
}

/// A running total does not change over weights of zero.
proof fn lemma_prefix_flat(w: Seq<int>, i: int, j: int)
    requires
        0 <= i <= j <= w.len(),
        forall|m: int| i <= m < j ==> #[trigger] w[m] == 0,
    ensures
        prefix(w, j) == prefix(w, i),
    decreases j,
{
    if i < j {
        lemma_prefix_flat(w, i, j - 1);
    }
}

/// The running totals of the draft climb to one.
proof fn lemma_pair_draft_climbs(vocab: nat, a: int, p: Seq<int>)
    requires
        vocab >= 2,
        0 <= a <= ONE,
        p.len() == vocab,
        is_distribution(p),
        prefix(p, (vocab / 2) as int) == ONE,
    ensures
        climbs_to(pair_draft_running(vocab, a, p), ONE as int),
        pair_draft_running(vocab, a, p)[(vocab / 2) as int] == a,
{
    let half = (vocab / 2) as int;
    let n = vocab - half;
    let c = pair_draft_running(vocab, a, p);
    assert(a * 0 == 0);
    lemma_div_by_multiple(a, ONE as int);
    lemma_even_rest(a, n - 1, n);
    assert forall|i: int| 0 <= i < c.len() - 1 implies c[i] <= #[trigger] c[i + 1] by {
        if i + 1 <= half {
            lemma_prefix_monotonic(p, i, i + 1);
            lemma_scaled_down(a, prefix(p, i), prefix(p, i + 1));
        } else {
            lemma_even_rest(a, i - half, n);
        }
    }
}

/// In an exact pair the draft has less mass than the target on every token of
/// the first block, and all of the overlap is there.
proof fn lemma_pair_overlap(vocab: nat, a: int, p: Seq<int>)
    requires
        vocab >= 2,
        0 <= a <= ONE,
        p.len() == vocab,
        is_distribution(p),
        prefix(p, (vocab / 2) as int) == ONE,
        forall|i: int| vocab / 2 <= i < vocab ==> #[trigger] p[i] == 0,
    ensures
        forall|i: int|
            0 <= i < vocab / 2 ==> 0 <= #[trigger] pair_draft(vocab, a, p)[i] <= p[i],
        total(overlap(p, pair_draft(vocab, a, p))) == a,
{
    let half = (vocab / 2) as int;
    let c = pair_draft_running(vocab, a, p);
    let q = pair_draft(vocab, a, p);
    let o = overlap(p, q);
    lemma_pair_draft_climbs(vocab, a, p);
    lemma_steps_are_a_distribution(c);
    assert forall|i: int| 0 <= i < half implies 0 <= #[trigger] q[i] <= p[i] by {
        lemma_prefix_monotonic(p, i, i + 1);
        lemma_scaled_down(a, prefix(p, i), prefix(p, i + 1));
    }
    lemma_prefix_agrees(o, q, half);
    lemma_prefix_of_steps(c, half);
    assert forall|i: int| half <= i < vocab implies #[trigger] o[i] == 0 by {
        assert(p[i] == 0);
        assert(0 <= q[i]);
    }
    lemma_prefix_flat(o, half, vocab as int);
}

/// Builds a target/draft pair whose per-token acceptance rate is exactly
/// `alpha`, clamped to `[0, 1]`.
///
/// Returns `(p, q)` over `vocab` tokens, taken to be at least two. Both add up to
/// exactly one; a mass that is not a whole number of units is off by less than
/// one.
#[must_use]
pub fn build_alpha_pair(vocab: usize, alpha: i64, seed: u64) -> (pair: (Vec<i64>, Vec<i64>))
    ensures
        ints(pair.0@) == pair_target(two_blocks(vocab as nat), seed),
        ints(pair.1@) == pair_draft(
            two_blocks(vocab as nat),
            clamp_unit(alpha as int),
            ints(pair.0@),
        ),
        pair.0@.len() == two_blocks(vocab as nat),
        pair.1@.len() == two_blocks(vocab as nat),
        is_distribution(ints(pair.0@)),
        is_distribution(ints(pair.1@)),
        total(overlap(ints(pair.0@), ints(pair.1@))) == clamp_unit(alpha as int),
{
    let n: usize = if vocab < 2 {
        2
    } else {
        vocab
    };
    let a: u64 = clamp_to_unit(alpha);
    let half: usize = n / 2;
    let second_len: usize = n - half;

    let mut rng = Rng::new(seed);
    let weights: Vec<u64> = draw_weights(&mut rng, half);
    proof {
        let v = nats(weights@);
        lemma_prefix_bounds(v, half as int, WEIGHT_FLOOR as int, u64::MAX as int);
    }
    let mut p: Vec<i64> = normalize(weights.as_slice());
    let ghost first = ints(p@);
    assert(first.len() == half);
    let mut i: usize = half;
    while i < n
        invariant
            half <= i <= n,
            p@.len() == i,
            first.len() == half,
            forall|j: int| 0 <= j < half ==> #[trigger] p@[j] == first[j],
            forall|j: int| half <= j < i ==> #[trigger] p@[j] == 0,
        decreases n - i,
    {
        p.push(0);
        i = i + 1;
    }
    let ghost pv = ints(p@);
    let ghost c = pair_draft_running(n as nat, a as int, pv);
    assert(pv =~= pair_target(n as nat, seed));
    proof {
        lemma_pair_target(n as nat, seed);
        lemma_pair_draft_climbs(n as nat, a as int, pv);
        lemma_pair_overlap(n as nat, a as int, pv);
        lemma_steps_are_a_distribution(c);
    }

    let mut q: Vec<i64> = Vec::new();
    let mut passed: u128 = 0;
    let mut share: u128 = 0;
    let rest: u128 = (ONE - a) as u128;
    let mut j: usize = 0;
    while j < n
        invariant
            j <= n,
            half == n / 2,
            second_len == n - half,
            n >= 2,
            a <= ONE,
            rest == ONE - a,
            pv == ints(p@),
            p@.len() == n,
            is_distribution(pv),
            c == pair_draft_running(n as nat, a as int, pv),
            climbs_to(c, ONE as int),
            passed == prefix(pv, j as int),
            share == c[j as int],
            q@.len() == j,
            forall|m: int| 0 <= m < j ==> #[trigger] q@[m] == steps(c)[m],
        decreases n - j,
    {
        proof {
            lemma_prefix_monotonic(pv, j as int, j + 1);
            lemma_prefix_monotonic(pv, j + 1, n as int);
            lemma_climb_in_range(c, ONE as int, j as int);
            lemma_climb_in_range(c, ONE as int, j + 1);
            assert(c[j as int] <= c[j + 1]);
        }
        passed = passed + p[j] as u128;
        let next: u128 = if j < half {
            multiply(a, passed)
        } else {
            let filled: u128 = (j - half) as u128 + 1;
            proof {
                assert(0 <= rest * filled <= ONE * usize::MAX) by (nonlinear_arith)
                    requires
                        0 <= rest <= ONE,
                        0 <= filled <= usize::MAX,
                ;
            }
            a as u128 + rest * filled / second_len as u128
        };
        q.push((next - share) as i64);
        share = next;
        j = j + 1;
    }
    assert(ints(q@) =~= steps(c));
    (p, q)
}

/// Every exact pair consists of two distributions over the same tokens, of the
/// overlap `alpha`.
pub proof fn law_pair_has_requested_overlap(vocab: nat, alpha: int, seed: u64)
    requires
        vocab >= 2,
        0 <= alpha <= ONE,
    ensures
        is_distribution(pair_target(vocab, seed)),
        is_distribution(pair_draft(vocab, alpha, pair_target(vocab, seed))),
        pair_target(vocab, seed).len() == vocab,
        pair_draft(vocab, alpha, pair_target(vocab, seed)).len() == vocab,
        total(overlap(pair_target(vocab, seed), pair_draft(vocab, alpha, pair_target(vocab, seed))))
            == alpha,
{
    let p = pair_target(vocab, seed);
    lemma_pair_target(vocab, seed);
    lemma_pair_draft_climbs(vocab, alpha, p);
    lemma_steps_are_a_distribution(pair_draft_running(vocab, alpha, p));
    lemma_pair_overlap(vocab, alpha, p);
}

/// In an exact pair the draft has `alpha` parts of the target's mass on each token
/// of the first block and an even part of the rest on each of the second, to
/// within a unit.
pub proof fn law_pair_draft_in_proportion(vocab: nat, alpha: int, seed: u64, i: int)
    requires
        vocab >= 2,
        0 <= alpha <= ONE,
        0 <= i < vocab,
    ensures
        ({
            let p = pair_target(vocab, seed);
            let q = pair_draft(vocab, alpha, p);
            let n = vocab - vocab / 2;
            if i < vocab / 2 {
                alpha * p[i] - ONE < ONE * q[i] < alpha * p[i] + ONE
            } else {
                (ONE - alpha) - n < n * q[i] < (ONE - alpha) + n
            }
        }),
{
    let one = ONE as int;
    let p = pair_target(vocab, seed);
    let q = pair_draft(vocab, alpha, p);
    let half = (vocab / 2) as int;
    let n = vocab - half;
    lemma_pair_target(vocab, seed);
    lemma_pair_draft_climbs(vocab, alpha, p);
    if i < half {
        let x = alpha * prefix(p, i);
        let y = alpha * prefix(p, i + 1);
        lemma_rounded_step(x, y, one);
        assert(y - x == alpha * p[i]) by (nonlinear_arith)
            requires
                x == alpha * prefix(p, i),
                y == alpha * (prefix(p, i) + p[i]),
        ;
    } else {
        let rest = one - alpha;
        let x = rest * (i - half);
        let y = rest * (i + 1 - half);
        lemma_rounded_step(x, y, n);
        assert(y - x == rest) by (nonlinear_arith)
            requires
                x == rest * (i - half),
                y == rest * (i + 1 - half),
        ;
        lemma_even_rest(alpha, 0, n);
        lemma_mul_is_commutative(n, q[i]);
    }
}

/// In an exact pair the draft token alone decides: one of the first block is
/// accepted and one of the second rejected, whatever the draw.
pub proof fn law_pair_token_decides(vocab: nat, alpha: int, seed: u64, x: int, draw: int)
    requires
        vocab >= 2,
        0 <= alpha <= ONE,
        0 <= x < vocab,
        pair_draft(vocab, alpha, pair_target(vocab, seed))[x] > 0,
        0 <= draw < DRAWS,
    ensures
        accepts(
            pair_target(vocab, seed)[x],
            pair_draft(vocab, alpha, pair_target(vocab, seed))[x],
            draw,
        ) <==> x < vocab / 2,
{
    let p = pair_target(vocab, seed);
    let q = pair_draft(vocab, alpha, p);
    lemma_pair_target(vocab, seed);
    lemma_pair_overlap(vocab, alpha, p);
    if x < vocab / 2 {
        law_accept_when_target_dominates(p[x], q[x], draw);
    } else {
        law_reject_without_target_mass(p[x], q[x], draw);
    }
}

/// The acceptance rate of an exact pair, as drawn: of the draws that draft a
/// token exactly the first `alpha` parts, rounded up to a whole draw, draft one
/// that is accepted.
pub proof fn law_pair_acceptance_draws(
    vocab: nat,
    alpha: int,
    seed: u64,
    draft: int,
    accept: int,
)
    requires
        2 <= vocab <= usize::MAX,
        0 <= alpha <= ONE,
        0 <= draft < DRAWS,
        0 <= accept < DRAWS,
    ensures
        ({
            let p = pair_target(vocab, seed);
            let q = pair_draft(vocab, alpha, p);
            categorical(q, draft) matches Some(x) && x < vocab && (accepts(
                p[x as int],
                q[x as int],
                accept,
            ) <==> draft < ceil_div(alpha * DRAWS, ONE as int))
        }),
{
    let p = pair_target(vocab, seed);
    let q = pair_draft(vocab, alpha, p);
    let c = pair_draft_running(vocab, alpha, p);
    let half = (vocab / 2) as int;
    law_pair_has_requested_overlap(vocab, alpha, seed);
    lemma_pair_target(vocab, seed);
    lemma_pair_draft_climbs(vocab, alpha, p);
    lemma_prefix_of_steps(c, half);
    let t = scaled(total(q), draft);
    lemma_scaled_in_range(total(q), draft);
    lemma_positives_cover(q);
    lemma_index_of(q, t);
    let x = index_of(q, t);
    law_pair_token_decides(vocab, alpha, seed, x, accept);
    law_draws_that_select(q, draft, x);
    if x < half {
        lemma_cut_monotonic(q, x + 1, half);
    } else {
        lemma_cut_monotonic(q, half, x);
    }
}

/// In an exact pair the residual is the target again: its weights are `1 -
/// alpha` parts of the target's masses, each to within a unit.
pub proof fn law_pair_residual_is_target(vocab: nat, alpha: int, seed: u64, i: int)
    requires
        vocab >= 2,
        0 <= alpha <= ONE,
        0 <= i < vocab,
    ensures
        -ONE < ONE * excess(
            pair_target(vocab, seed),
            pair_draft(vocab, alpha, pair_target(vocab, seed)),
        )[i] - (ONE - alpha) * pair_target(vocab, seed)[i] < ONE,
{
    let one = ONE as int;
    let p = pair_target(vocab, seed);
    let q = pair_draft(vocab, alpha, p);
    lemma_pair_target(vocab, seed);
    lemma_pair_draft_climbs(vocab, alpha, p);
    lemma_steps_are_a_distribution(pair_draft_running(vocab, alpha, p));
    lemma_pair_overlap(vocab, alpha, p);
    if i < vocab / 2 {
        let x = alpha * prefix(p, i);
        let y = alpha * prefix(p, i + 1);
        lemma_rounded_step(x, y, one);
        assert(y - x == alpha * p[i]) by (nonlinear_arith)
            requires
                x == alpha * prefix(p, i),
                y == alpha * (prefix(p, i) + p[i]),
                prefix(p, i + 1) == prefix(p, i) + p[i],
        ;
        assert(0 <= q[i] <= p[i]);
        assert(one * (p[i] - q[i]) - (one - alpha) * p[i] == alpha * p[i] - q[i] * one)
            by (nonlinear_arith);
    } else {
        assert((one - alpha) * 0 == 0);
        assert(0 <= q[i]);
    }
}

/// Configuration of a benchmark sweep. Numbers that are not whole are in units
/// of `1 / ONE`.
#[derive(Debug)]
pub struct BenchConfig {
    /// Vocabulary size.
    pub vocab: usize,
    /// Draft lengths to sweep, from the first to the second inclusive.
    pub k_range: (u32, u32),
    /// Target acceptance rates to sweep.
    pub alphas: Vec<i64>,
    /// Cost of a draft pass over that of a target pass. To the expected speedup a
    /// negative one counts as zero; the measured speedup takes it as it is.
    pub cost_ratio: i128,
    /// Simulated verification rounds per cell.
    pub rounds: u64,
    /// Base seed.
    pub seed: u64,
}

impl Clone for BenchConfig {
    fn clone(&self) -> (copy: BenchConfig)
        ensures
            copy.vocab == self.vocab,
            copy.k_range == self.k_range,
            copy.alphas@ == self.alphas@,
            copy.cost_ratio == self.cost_ratio,
            copy.rounds == self.rounds,
            copy.seed == self.seed,
    {
        BenchConfig {
            vocab: self.vocab,
            k_range: self.k_range,
            alphas: self.alphas.clone(),
            cost_ratio: self.cost_ratio,
            rounds: self.rounds,
            seed: self.seed,
        }
    }
}

impl Default for BenchConfig {
    fn default() -> (config: BenchConfig)
        ensures
            config.vocab == 64,
            config.k_range == (1u32, 8u32),
            config.alphas@ == seq![
                300_000_000_000_000_000i64,
                500_000_000_000_000_000i64,
                700_000_000_000_000_000i64,
                900_000_000_000_000_000i64,
            ],
            config.cost_ratio == 200_000_000_000_000_000,
            config.rounds == 200_000,
            config.seed == 0xB0BA_CAFE,
    {
        BenchConfig {
            vocab: 64,
            k_range: (1, 8),
            alphas: vec![
                300_000_000_000_000_000,
                500_000_000_000_000_000,
                700_000_000_000_000_000,
                900_000_000_000_000_000,
            ],
            cost_ratio: 200_000_000_000_000_000,
            rounds: 200_000,
            seed: 0xB0BA_CAFE,
        }
    }
}

/// Results for one `(k, alpha)` cell of a sweep, in units of `1 / ONE`.
#[derive(Debug, Clone, Copy)]
pub struct SweepRow {
    /// Draft length.
    pub k: u32,
    /// The acceptance rate that the pair was built to have.
    pub alpha_target: i64,
    /// The acceptance rate measured in the simulation.
    pub alpha_measured: u128,
    /// Tokens emitted per round in the simulation; undefined without rounds.
    pub empirical_tokens: Option<u128>,
    /// Expected tokens per round for `alpha_target`.
    pub analytical_tokens: u128,
    /// Speedup over plain decoding in the simulation.
    pub empirical_speedup: MeasuredSpeedup,
    /// Expected speedup for `alpha_target`.
    pub analytical_speedup: u128,
}

/// The output of a sweep.
#[derive(Debug, Clone)]
pub struct SweepResult {
    /// All cells, by acceptance rate and then by draft length.
    pub rows: Vec<SweepRow>,
    /// For each acceptance rate the draft length of the greatest expected
    /// speedup, and that speedup.
    pub optimal_per_alpha: Vec<(i64, u32, u128)>,
    /// The cost ratio of the sweep, as it was given.
    pub cost_ratio: i128,
}

impl BenchConfig {
    /// The number of draft lengths in the sweep.
    pub open spec fn width(self) -> nat {
        if self.k_range.0 <= self.k_range.1 {
            (self.k_range.1 - self.k_range.0 + 1) as nat
        } else {
            0
        }
    }

    /// The seed of the cell of the acceptance rate at index `a` and the draft
    /// length `k`.
    pub open spec fn cell_seed(self, a: int, k: u32) -> u64 {
        self.seed.wrapping_add((a as u64) << 32u64).wrapping_add(
            (k as u64).wrapping_mul(0x9E37_79B9),
        )
    }

    /// The rounds simulated for a cell.
    pub open spec fn cell(self, a: int, k: u32) -> Tally {
        let vocab = two_blocks(self.vocab as nat);
        let p = pair_target(vocab, self.cell_seed(a, k));
        let q = pair_draft(vocab, clamp_unit(self.alphas@[a] as int), p);
        simulation(
            p,
            q,
            k as nat,
            self.rounds as nat,
            seeded(self.cell_seed(a, k) ^ 0xDEAD_BEEF),
        )
    }

    /// `row` reports the cell of the acceptance rate at index `a` and the draft
    /// length `k`.
    pub open spec fn reports(self, a: int, k: u32, row: SweepRow) -> bool {
        let alpha = self.alphas@[a];
        let t = self.cell(a, k);
        let tokens = quotient(t.emitted as int, self.rounds as int);
        &&& row.k == k
        &&& row.alpha_target == alpha
        &&& row.alpha_measured == if t.examined > 0 {
            quotient(t.accepted as int, t.examined as int)
        } else {
            0
        }
        &&& match row.empirical_tokens {
            Some(x) => self.rounds > 0 && x == tokens,
            None => self.rounds == 0,
        }
        &&& row.analytical_tokens == expected_tokens(alpha as int, k as nat)
        &&& is_speedup(
            row.empirical_speedup,
            row.empirical_tokens,
            raw_cost(k as nat, self.cost_ratio as int),
        )
        &&& row.analytical_speedup == speedup(alpha as int, k as nat, self.cost_ratio as int)
    }

    /// `entry` names the best draft length for the acceptance rate at index `a`.
    pub open spec fn best_for(self, a: int, entry: (i64, u32, u128)) -> bool {
        let alpha = self.alphas@[a] as int;
        let cost_ratio = self.cost_ratio as int;
        &&& entry.0 == alpha
        &&& is_optimal(alpha, cost_ratio, self.k_range.1 as nat, entry.1 as nat)
        &&& entry.2 == speedup(alpha, entry.1 as nat, cost_ratio)
    }

    /// `result` is what the sweep comes to: a row for each acceptance rate and, for
    /// that, each draft length, and the best draft length for each acceptance rate.
    pub open spec fn gives(self, result: SweepResult) -> bool {
        &&& result.rows@.len() == self.alphas@.len() * self.width()
        &&& forall|i: int|
            0 <= i < result.rows@.len() ==> self.reports(
                i / (self.width() as int),
                (self.k_range.0 + i % (self.width() as int)) as u32,
                #[trigger] result.rows@[i],
            )
        &&& result.optimal_per_alpha@.len() == if self.k_range.1 == 0 {
            0
        } else {
            self.alphas@.len()
        }
        &&& forall|a: int|
            0 <= a < result.optimal_per_alpha@.len() ==> self.best_for(
                a,
                #[trigger] result.optimal_per_alpha@[a],
            )
        &&& result.cost_ratio == self.cost_ratio
    }

    /// Two configurations hold the same values.
    pub open spec fn same_as(self, other: BenchConfig) -> bool {
        &&& self.vocab == other.vocab
        &&& self.k_range == other.k_range
        &&& self.alphas@ == other.alphas@
        &&& self.cost_ratio == other.cost_ratio
        &&& self.rounds == other.rounds
        &&& self.seed == other.seed
    }
}

/// A cell stands alone: its row depends on its own acceptance rate, index and draft
/// length, the vocabulary, the cost ratio, the rounds and the seed, and not on what
/// else is swept.
pub proof fn law_cell_stands_alone(
    c: BenchConfig,
    d: BenchConfig,
    a: int,
    k: u32,
    x: SweepRow,
    y: SweepRow,
)
    requires
        c.vocab == d.vocab,
        c.cost_ratio == d.cost_ratio,
        c.rounds == d.rounds,
        c.seed == d.seed,
        c.alphas@[a] == d.alphas@[a],
        c.reports(a, k, x),
        d.reports(a, k, y),
    ensures
        x == y,
{
    law_speedup_is_unique(
        x.empirical_speedup,
        y.empirical_speedup,
        x.empirical_tokens,
        raw_cost(k as nat, c.cost_ratio as int),
    );
}

/// The best draft length for an acceptance rate is one, and depends on nothing but
/// the rate, the cost ratio and the longest draft.
pub proof fn law_best_is_unique(
    c: BenchConfig,
    d: BenchConfig,
    a: int,
    x: (i64, u32, u128),
    y: (i64, u32, u128),
)
    requires
        c.alphas@[a] == d.alphas@[a],
        c.cost_ratio == d.cost_ratio,
        c.k_range.1 == d.k_range.1,
        c.best_for(a, x),
        d.best_for(a, y),
    ensures
        x == y,
{
    let alpha = c.alphas@[a] as int;
    let cost_ratio = c.cost_ratio as int;
    assert(speedup(alpha, x.1 as nat, cost_ratio) == speedup(alpha, y.1 as nat, cost_ratio));
}

/// A sweep is reproducible: equal configurations give equal results.
pub proof fn law_sweep_is_reproducible(
    c: BenchConfig,
    d: BenchConfig,
    x: SweepResult,
    y: SweepResult,
)
    requires
        c.same_as(d),
        c.gives(x),
        d.gives(y),
    ensures
        x.rows@ == y.rows@,
        x.optimal_per_alpha@ == y.optimal_per_alpha@,
        x.cost_ratio == y.cost_ratio,
{
    let width = c.width() as int;
    assert forall|i: int| 0 <= i < x.rows@.len() implies #[trigger] x.rows@[i] == y.rows@[i] by {
        let a = i / width;
        let k = (c.k_range.0 + i % width) as u32;
        assert(c.reports(a, k, x.rows@[i]));
        assert(d.reports(a, k, y.rows@[i]));
        law_cell_stands_alone(c, d, a, k, x.rows@[i], y.rows@[i]);
    }
    assert forall|a: int| 0 <= a < x.optimal_per_alpha@.len() implies #[trigger]
        x.optimal_per_alpha@[a] == y.optimal_per_alpha@[a] by {
        law_best_is_unique(c, d, a, x.optimal_per_alpha@[a], y.optimal_per_alpha@[a]);
    }
    assert(x.rows@ =~= y.rows@);
    assert(x.optimal_per_alpha@ =~= y.optimal_per_alpha@);
}

/// Tokens per round, rounded down. There is no such number without rounds.
fn tokens_per_round(emitted: u128, rounds: u64, k: u32) -> (r: Option<u128>)
    requires
        rounds <= emitted <= rounds * (k + 1),
    ensures
        match r {
            Some(x) => {
                &&& rounds > 0
                &&& x == quotient(emitted as int, rounds as int)
                &&& ONE <= x <= MAX_TOKENS
            },
            None => rounds == 0,
        },
{
    if rounds == 0 {
        return None;
    }
    proof {
        lemma_mul_is_commutative(rounds as int, k + 1);
        lemma_quotient_bounded(emitted as int, rounds as int, k + 1);
        lemma_mul_inequality(rounds as int, emitted as int, ONE as int);
        lemma_div_is_ordered(rounds * ONE, emitted * ONE, rounds as int);
        lemma_div_multiples_vanish(ONE as int, rounds as int);
    }
    Some(divide(emitted, rounds as u128))
}

/// Simulates one cell of a sweep.
fn run_cell(config: &BenchConfig, a: usize, k: u32) -> (r: Result<SweepRow, SamplingError>)
    requires
        a < config.alphas@.len(),
    ensures
        r matches Ok(row) && config.reports(a as int, k, row),
{
    let alpha: i64 = config.alphas[a];
    let cell_seed: u64 = config.seed.wrapping_add((a as u64) << 32u64).wrapping_add(
        (k as u64).wrapping_mul(0x9E37_79B9),
    );
    let (p, q) = build_alpha_pair(config.vocab, alpha, cell_seed);
    let mut rng = Rng::new(cell_seed ^ 0xDEAD_BEEF);
    let ghost t = config.cell(a as int, k);
    proof {
        let n = config.rounds as nat;
        law_simulation_succeeds(ints(p@), ints(q@), k as nat, n, rng@);
        law_rounds_account(ints(p@), ints(q@), k as nat, n, rng@);
        assert(n * k <= u64::MAX * u32::MAX) by (nonlinear_arith)
            requires
                0 <= n <= u64::MAX,
                0 <= k <= u32::MAX,
        ;
    }
    let stats: RoundStats = match simulate_rounds(
        p.as_slice(),
        q.as_slice(),
        k,
        config.rounds,
        &mut rng,
    ) {
        Ok(stats) => stats,
        Err(e) => {
            return Err(e);
        },
    };
    let alpha_measured: u128 = if stats.positions_examined > 0 {
        proof {
            lemma_quotient_bounded(t.accepted as int, t.examined as int, 1);
        }
        divide(stats.positions_accepted, stats.positions_examined)
    } else {
        0
    };
    let empirical_tokens: Option<u128> = tokens_per_round(stats.tokens_emitted, config.rounds, k);
    let empirical_speedup: MeasuredSpeedup = measured_speedup(
        empirical_tokens,
        k,
        config.cost_ratio,
    );
    Ok(
        SweepRow {
            k,
            alpha_target: alpha,
            alpha_measured,
            empirical_tokens,
            analytical_tokens: expected_accepted_tokens(alpha, k),
            empirical_speedup,
            analytical_speedup: expected_speedup(alpha, k, config.cost_ratio),
        },
    )
}

/// Runs the sweep over every acceptance rate and draft length of `config`.
///
/// The result is a function of the configuration. The pairs of a sweep are
/// distributions by construction, so no sampling error occurs.
pub fn run_sweep(config: &BenchConfig) -> (r: Result<SweepResult, SamplingError>)
    ensures
        r matches Ok(result) && config.gives(result),
{
    let (k_min, k_max) = config.k_range;
    let ghost width = config.width() as int;
    let mut rows: Vec<SweepRow> = Vec::new();
    let mut a: usize = 0;
    while a < config.alphas.len()
        invariant
            a <= config.alphas@.len(),
            config.k_range == (k_min, k_max),
            width == config.width(),
            rows@.len() == a * width,
            forall|i: int|
                0 <= i < rows@.len() ==> config.reports(
                    i / width,
                    (k_min + i % width) as u32,
                    #[trigger] rows@[i],
                ),
        decreases config.alphas@.len() - a,
    {
        let mut j: u64 = k_min as u64;
        while j <= k_max as u64
            invariant
                a < config.alphas@.len(),
                config.k_range == (k_min, k_max),
                width == config.width(),
                k_min <= j,
                j <= k_max + 1 || j == k_min,
                rows@.len() == a * width + (j - k_min),
                forall|i: int|
                    0 <= i < rows@.len() ==> config.reports(
                        i / width,
                        (k_min + i % width) as u32,
                        #[trigger] rows@[i],
                    ),
            decreases k_max + 1 - j,
        {
            let row: SweepRow = match run_cell(config, a, j as u32) {
                Ok(row) => row,
                Err(e) => {
                    return Err(e);
                },
            };
            proof {
                lemma_fundamental_div_mod_converse(
                    rows@.len() as int,
                    width,
                    a as int,
                    j - k_min,
                );
            }
            rows.push(row);
            j = j + 1;
        }
        proof {
            assert((a + 1) * width == a * width + width) by (nonlinear_arith);
        }
        a = a + 1;
    }

    let mut optimal_per_alpha: Vec<(i64, u32, u128)> = Vec::new();
    let mut b: usize = 0;
    while b < config.alphas.len()
        invariant
            b <= config.alphas@.len(),
            config.k_range == (k_min, k_max),
            optimal_per_alpha@.len() == if k_max == 0 {
                0
            } else {
                b as nat
            },
            forall|i: int|
                0 <= i < optimal_per_alpha@.len() ==> config.best_for(
                    i,
                    #[trigger] optimal_per_alpha@[i],
                ),
        decreases config.alphas@.len() - b,
    {
        let alpha: i64 = config.alphas[b];
        if let Some((k, s)) = optimal_k(alpha, config.cost_ratio, k_max) {
            optimal_per_alpha.push((alpha, k, s));
        }
        b = b + 1;
    }
    Ok(SweepResult { rows, optimal_per_alpha, cost_ratio: config.cost_ratio })
}

/// What a number of single-token trials comes to: the error that ended them, if
/// any, and the number of accepted drafts.
pub open spec fn trial_run(p: Seq<int>, q: Seq<int>, n: nat, s: RngState) -> (
    Option<SamplingError>,
    nat,
)
    decreases n,
{
    if n == 0 {
        (None, 0)
    } else {
        match sampled(q, s) {
            (None, _) => (Some(SamplingError::DegenerateDistribution), 0),
            (Some(x), s1) => match step(p, q, x as int, s1) {
                (Err(e), _) => (Some(e), 0),
                (Ok((_, outcome)), s2) => {
                    let rest = trial_run(p, q, (n - 1) as nat, s2);
                    (
                        rest.0,
                        rest.1 + if outcome == StepOutcome::Accepted {
                            1nat
                        } else {
                            0
                        },
                    )
                },
            },
        }
    }
}

/// Trials over masses of a positive total fail exactly where the masses are of
/// different numbers of tokens.
proof fn lemma_trials_fail_by_length(p: Seq<int>, q: Seq<int>, n: nat, s: RngState)
    requires
        total(p) > 0,
        total(q) > 0,
        p.len() <= usize::MAX,
        q.len() <= usize::MAX,
    ensures
        trial_run(p, q, n, s).0 == if n == 0 || p.len() == q.len() {
            None::<SamplingError>
        } else {
            Some(SamplingError::LengthMismatch)
        },
        trial_run(p, q, n, s).1 <= n,
    decreases n,
{
    if n > 0 {
        lemma_sampling_succeeds(q, s);
        let (x, s1) = (sampled(q, s).0->0, sampled(q, s).1);
        if p.len() == q.len() {
            law_step_succeeds(p, q, x as int, s1);
            lemma_trials_fail_by_length(p, q, (n - 1) as nat, step(p, q, x as int, s1).1);
        }
    }
}

/// A perfect draft has the acceptance rate one: with `q == p` every trial
/// accepts.
pub proof fn law_equal_distributions_accept_all(p: Seq<int>, n: nat, s: RngState)
    requires
        total(p) > 0,
        p.len() <= usize::MAX,
    ensures
        trial_run(p, p, n, s) == (None::<SamplingError>, n),
    decreases n,
{
    if n > 0 {
        lemma_sampling_succeeds(p, s);
        let (x, s1) = (sampled(p, s).0->0, sampled(p, s).1);
        law_equal_distributions_accept(p, x as int, s1);
        law_equal_distributions_accept_all(p, (n - 1) as nat, step(p, p, x as int, s1).1);
    }
}

/// Runs single-token trials and counts the accepted drafts.
fn run_trials(p: &[i64], q: &[i64], trials: u64, rng: &mut Rng) -> (r: Result<u64, SamplingError>)
    ensures
        ({
            let run = trial_run(ints(p@), ints(q@), trials as nat, old(rng)@);
            match r {
                Ok(accepted) => run.0 is None && accepted == run.1,
                Err(e) => run.0 == Some(e),
            }
        }),
{
    let ghost pv = ints(p@);
    let ghost qv = ints(q@);
    let ghost all = trial_run(pv, qv, trials as nat, rng@);
    let mut accepted: u64 = 0;
    let mut done: u64 = 0;
    while done < trials
        invariant
            done <= trials,
            accepted <= done,
            pv == ints(p@),
            qv == ints(q@),
            all == trial_run(pv, qv, trials as nat, old(rng)@),
            ({
                let rest = trial_run(pv, qv, (trials - done) as nat, rng@);
                &&& all.0 == rest.0
                &&& all.0 is None ==> all.1 == accepted + rest.1
            }),
        decreases trials - done,
    {
        let x: usize = match sample_from(q, rng) {
            Ok(x) => x,
            Err(e) => {
                return Err(e);
            },
        };
        match speculative_step(p, q, x, rng) {
            Ok((_token, outcome)) => {
                if outcome == StepOutcome::Accepted {
                    accepted = accepted + 1;
                }
            },
            Err(e) => {
                return Err(e);
            },
        }
        done = done + 1;
    }
    Ok(accepted)
}

/// The part of the trials that was accepted, rounded down.
fn acceptance_rate(accepted: u64, trials: u64) -> (rate: u128)
    requires
        accepted <= trials,
    ensures
        rate == quotient(
            accepted as int,
            if trials == 0 {
                1
            } else {
                trials as int
            },
        ),
        rate <= ONE,
{
    let divisor: u64 = if trials == 0 {
        1
    } else {
        trials
    };
    proof {
        lemma_quotient_bounded(accepted as int, divisor as int, 1);
    }
    divide(accepted as u128, divisor as u128)
}

/// Measures the acceptance rate of any two models.
fn measure_models<T: Model, D: Model>(
    target: &T,
    draft: &D,
    trials: u64,
    seed: u64,
) -> (r: Result<u128, SamplingError>)
    ensures
        match r {
            Ok(rate) => {
                let run = trial_run(
                    target.distribution(0),
                    draft.distribution(0),
                    trials as nat,
                    seeded(seed),
                );
                &&& run.0 is None
                &&& rate == quotient(
                    run.1 as int,
                    if trials == 0 {
                        1
                    } else {
                        trials as int
                    },
                )
                &&& rate <= ONE
            },
            Err(e) => e == SamplingError::LengthMismatch,
        },
        r is Ok <==> trials == 0 || target.tokens() == draft.tokens(),
{
    let mut rng = Rng::new(seed);
    let p: Vec<i64> = target.next_distribution(0);
    let q: Vec<i64> = draft.next_distribution(0);
    proof {
        assert(p.len() <= usize::MAX && q.len() <= usize::MAX);
        lemma_trials_fail_by_length(ints(p@), ints(q@), trials as nat, rng@);
    }
    let accepted: u64 = match run_trials(p.as_slice(), q.as_slice(), trials, &mut rng) {
        Ok(accepted) => accepted,
        Err(e) => {
            return Err(e);
        },
    };
    Ok(acceptance_rate(accepted, trials))
}

/// Measures the acceptance rate of a draft/target pair of models over `trials`
/// single-token trials, rounded down.
///
/// # Errors
///
/// [`SamplingError::LengthMismatch`] if the models differ in vocabulary size and
/// there is a trial.
pub fn measure_acceptance_rate(
    target: &SyntheticModel,
    draft: &SyntheticModel,
    trials: u64,
    seed: u64,
) -> (r: Result<u128, SamplingError>)
    ensures
        match r {
            Ok(rate) => {
                let run = trial_run(
                    target.distribution(0),
                    draft.distribution(0),
                    trials as nat,
                    seeded(seed),
                );
                &&& run.0 is None
                &&& rate == quotient(
                    run.1 as int,
                    if trials == 0 {
                        1
                    } else {
                        trials as int
                    },
                )
                &&& rate <= ONE
            },
            Err(e) => e == SamplingError::LengthMismatch,
        },
        r is Ok <==> trials == 0 || target.tokens() == draft.tokens(),
{
    measure_models(target, draft, trials, seed)
}

/// Converts a draft/target latency pair, in nanoseconds, into the cost ratio of
/// the analytical model, rounded down. A target without latency gives zero.
#[must_use]
pub fn cost_ratio_from_latencies(draft: u64, target: u64) -> (ratio: i128)
    ensures
        ratio == if target == 0 {
            0
        } else {
            quotient(draft as int, target as int)
        },
{
    if target == 0 {
        return 0;
    }
    proof {
        assert(draft <= draft * target) by (nonlinear_arith)
            requires
                target >= 1,
                draft >= 0,
        ;
        lemma_quotient_bounded(draft as int, target as int, draft as int);
    }
    divide(draft as u128, target as u128) as i128
}

/// The target of an exact pair: each token of the first block has the part of one
/// that its weight has of all weights of the block, to within a unit, where the
/// weights are those of the draws of the generator seeded with the seed; a token of
/// the second block has none.
pub proof fn law_pair_target_in_proportion(vocab: nat, seed: u64, i: int)
    requires
        vocab >= 2,
        0 <= i < vocab,
    ensures
        ({
            let half = vocab / 2;
            let p = pair_target(vocab, seed);
            let w = Seq::new(
                half,
                |j: int| peaked_weight(seeded(seed).after(j as nat).draw() as int),
            );
            &&& p.len() == vocab
            &&& total(p) == ONE
            &&& i < half ==> w[i] * ONE - total(w) < p[i] * total(w) < w[i] * ONE + total(w)
            &&& i < half && half * MAX_WEIGHT <= WEIGHT_FLOOR * ONE ==> p[i] > 0
            &&& i >= half ==> p[i] == 0
        }),
{
    let half = vocab / 2;
    let s = seeded(seed);
    let w = Seq::new(half, |j: int| peaked_weight(s.after(j as nat).draw() as int));
    assert(w =~= peaked_weights(s, half));
    lemma_pair_target(vocab, seed);
    lemma_peaked_is_a_distribution(s, half);
    lemma_peaked_total(s, half);
    if i < half {
        law_normalized_in_proportion(w, i);
        if half * MAX_WEIGHT <= WEIGHT_FLOOR * ONE {
            law_peaked_masses_are_positive(s, half, i);
        }
    }
}

/// In the target of an exact pair the masses of any two tokens of the first block are
/// in the proportion of their weights, to within a unit each.
pub proof fn law_pair_target_keeps_proportions(vocab: nat, seed: u64, i: int, j: int)
    requires
        vocab >= 2,
        0 <= i < vocab / 2,
        0 <= j < vocab / 2,
    ensures
        ({
            let p = pair_target(vocab, seed);
            let x = peaked_weight(seeded(seed).after(i as nat).draw() as int);
            let y = peaked_weight(seeded(seed).after(j as nat).draw() as int);
            -(x + y) < p[i] * y - p[j] * x < x + y
        }),
{
    let half = vocab / 2;
    let s = seeded(seed);
    let p = pair_target(vocab, seed);
    let w = Seq::new(half, |m: int| peaked_weight(s.after(m as nat).draw() as int));
    assert(w =~= peaked_weights(s, half));
    law_pair_target_in_proportion(vocab, seed, i);
    law_pair_target_in_proportion(vocab, seed, j);
    lemma_peaked_total(s, half);
    lemma_peaked_positive(s, half, i);
    lemma_peaked_positive(s, half, j);
    let (x, y, t) = (w[i], w[j], total(w));
    let (a, b) = (p[i] * t - x * ONE, p[j] * t - y * ONE);
    assert(-t < a < t && -t < b < t);
    assert(t * (p[i] * y - p[j] * x) == a * y - b * x) by (nonlinear_arith)
        requires
            a == p[i] * t - x * ONE,
            b == p[j] * t - y * ONE,
    ;
    let z = p[i] * y - p[j] * x;
    assert(-(t * (x + y)) < a * y - b * x < t * (x + y)) by (nonlinear_arith)
        requires
            -t < a < t,
            -t < b < t,
            0 < x,
            0 < y,
    {
        assert(-t * y < a * y < t * y);
        assert(-t * x < b * x < t * x);
        assert(t * (x + y) == t * x + t * y);
    }
    assert(-(x + y) < z < x + y) by (nonlinear_arith)
        requires
            -(t * (x + y)) < t * z < t * (x + y),
            t > 0,
    ;
}

/// The vocabulary of a pair has room for two blocks, and is otherwise as asked for.
pub proof fn law_pair_vocabulary(vocab: nat)
    ensures
        vocab < 2 ==> two_blocks(vocab) == 2,
        vocab >= 2 ==> two_blocks(vocab) == vocab,
{
}

/// A cell of a sweep simulates a pair of its own acceptance rate: its rounds are those
/// of two distributions whose overlap is that rate, clamped to `[0, 1]`, and a draft of
/// it is accepted exactly where its draw is one of the first so many parts of all
/// draws, rounded up. The cell takes its draws from the seed of the sweep, the index
/// of the rate and the draft length.
pub proof fn law_cell_has_its_rate(
    config: BenchConfig,
    a: int,
    k: u32,
    draft: int,
    accept: int,
) -> (pair: (Seq<int>, Seq<int>))
    requires
        0 <= draft < DRAWS,
        0 <= accept < DRAWS,
    ensures
        ({
            let (p, q) = pair;
            let alpha = config.alphas@[a];
            let rate = if alpha < 0 {
                0
            } else if alpha > ONE {
                ONE as int
            } else {
                alpha as int
            };
            let cell_seed = config.seed.wrapping_add((a as u64) << 32u64).wrapping_add(
                (k as u64).wrapping_mul(0x9E37_79B9),
            );
            let first = ceil_div(rate * DRAWS, ONE as int);
            &&& p.len() == q.len()
            &&& p.len() == if config.vocab < 2 {
                2
            } else {
                config.vocab as nat
            }
            &&& nonnegative(p)
            &&& nonnegative(q)
            &&& total(p) == ONE
            &&& total(q) == ONE
            &&& total(overlap(p, q)) == rate
            &&& p == pair_target(p.len(), cell_seed)
            &&& q == pair_draft(p.len(), rate, p)
            &&& config.cell(a, k) == simulation(
                p,
                q,
                k as nat,
                config.rounds as nat,
                seeded(cell_seed ^ 0xDEAD_BEEF),
            )
            &&& config.cell(a, k).failure is None
            &&& categorical(q, draft) matches Some(x)
            &&& x < p.len()
            &&& accepts(p[x as int], q[x as int], accept) <==> draft < first
        }),
{
    let vocab = two_blocks(config.vocab as nat);
    let seed = config.cell_seed(a, k);
    let rate = clamp_unit(config.alphas@[a] as int);
    let p = pair_target(vocab, seed);
    let q = pair_draft(vocab, rate, p);
    law_pair_has_requested_overlap(vocab, rate, seed);
    law_pair_acceptance_draws(vocab, rate, seed, draft, accept);
    law_simulation_succeeds(
        p,
        q,
        k as nat,
        config.rounds as nat,
        seeded(seed ^ 0xDEAD_BEEF),
    );
    (p, q)
}

/// The rows of a sweep: one for each acceptance rate and each draft length of the
/// range, by rate and then by length, and each says what its cell came to: the
/// accepted part of the examined drafts, the tokens per round and those over the cost
/// of a round at the cost ratio as given, each rounded down to a unit, beside what the
/// model expects of that rate and length.
pub proof fn law_rows_say_what_cells_came_to(
    config: BenchConfig,
    result: SweepResult,
    a: int,
    k: u32,
)
    requires
        config.gives(result),
        0 <= a < config.alphas@.len(),
        config.k_range.0 <= k <= config.k_range.1,
    ensures
        ({
            let width = config.k_range.1 - config.k_range.0 + 1;
            let row = result.rows@[a * width + (k - config.k_range.0)];
            let t = config.cell(a, k);
            let cost = k * config.cost_ratio + ONE;
            &&& result.rows@.len() == config.alphas@.len() * width
            &&& 0 <= a * width + (k - config.k_range.0) < result.rows@.len()
            &&& row.k == k
            &&& row.alpha_target == config.alphas@[a]
            &&& t.examined == 0 ==> row.alpha_measured == 0
            &&& t.examined > 0 ==> row.alpha_measured * t.examined <= t.accepted * ONE
                && t.accepted * ONE < (row.alpha_measured + 1) * t.examined
            &&& row.empirical_tokens is None <==> config.rounds == 0
            &&& row.empirical_tokens matches Some(x) ==> x * config.rounds <= t.emitted * ONE
                && t.emitted * ONE < (x + 1) * config.rounds
            &&& row.analytical_tokens == expected_tokens(config.alphas@[a] as int, k as nat)
            &&& row.analytical_speedup == speedup(
                config.alphas@[a] as int,
                k as nat,
                config.cost_ratio as int,
            )
            &&& row.empirical_speedup is Undefined <==> config.rounds == 0
            &&& row.empirical_speedup is Infinite <==> config.rounds > 0 && cost == 0
            &&& row.empirical_speedup matches MeasuredSpeedup::Finite { negative, magnitude } ==> {
                let tokens = row.empirical_tokens->0;
                let size = if cost < 0 {
                    -cost
                } else {
                    cost
                };
                &&& negative == (cost < 0)
                &&& magnitude.value() * size <= tokens * ONE
                &&& tokens * ONE < (magnitude.value() + 1) * size
            }
        }),
{
    let width = config.k_range.1 - config.k_range.0 + 1;
    let i = a * width + (k - config.k_range.0);
    let n = config.alphas@.len() as int;
    assert(0 <= i < n * width) by (nonlinear_arith)
        requires
            0 <= a <= n - 1,
            0 <= k - config.k_range.0 < width,
            i == a * width + (k - config.k_range.0),
    {
        assert(a * width <= (n - 1) * width);
        assert((n - 1) * width == n * width - width);
        assert(0 <= a * width);
    }
    lemma_fundamental_div_mod_converse(i, width, a, k - config.k_range.0);
    let row = result.rows@[i];
    let t = config.cell(a, k);
    assert(config.reports(a, k, row));
    if t.examined > 0 {
        law_quotient_is_exact_to_a_unit(t.accepted as int, t.examined as int);
        let (x, y) = (row.alpha_measured as int, t.examined as int);
        assert((x + 1) * y == x * y + y) by (nonlinear_arith);
    }
    if config.rounds > 0 {
        let tokens = row.empirical_tokens->0 as int;
        let rounds = config.rounds as int;
        law_quotient_is_exact_to_a_unit(t.emitted as int, rounds);
        assert((tokens + 1) * rounds == tokens * rounds + rounds) by (nonlinear_arith);
        let cost = k * config.cost_ratio + ONE;
        let size = if cost < 0 {
            -cost
        } else {
            cost
        };
        if size > 0 {
            law_quotient_is_exact_to_a_unit(tokens, size);
            let x = quotient(tokens, size);
            assert((x + 1) * size == x * size + size) by (nonlinear_arith);
        }
    }
}

/// The best draft lengths of a sweep: for each acceptance rate, in order, the first
/// length up to the longest of the range that the model expects to be fastest at the
/// cost ratio of the sweep, and that speedup. There are none where the longest is zero.
pub proof fn law_sweep_names_the_best(
    config: BenchConfig,
    result: SweepResult,
    a: int,
    j: nat,
)
    requires
        config.gives(result),
        0 <= a < config.alphas@.len(),
        1 <= j <= config.k_range.1,
    ensures
        result.optimal_per_alpha@.len() == config.alphas@.len(),
        ({
            let (alpha, k, s) = result.optimal_per_alpha@[a];
            let cost_ratio = config.cost_ratio as int;
            &&& alpha == config.alphas@[a]
            &&& 1 <= k <= config.k_range.1
            &&& s == speedup(alpha as int, k as nat, cost_ratio)
            &&& speedup(alpha as int, j, cost_ratio) <= s
            &&& j < k ==> speedup(alpha as int, j, cost_ratio) < s
        }),
{
    assert(config.best_for(a, result.optimal_per_alpha@[a]));
}

/// A sweep keeps its cost ratio, has no rows where the range of lengths is empty, and
/// names no best length where the longest is zero.
pub proof fn law_empty_sweeps(config: BenchConfig, result: SweepResult)
    requires
        config.gives(result),
    ensures
        result.cost_ratio == config.cost_ratio,
        config.k_range.0 > config.k_range.1 || config.alphas@.len() == 0 ==> result.rows@.len()
            == 0,
        config.k_range.1 == 0 || config.alphas@.len() == 0 ==> result.optimal_per_alpha@.len() == 0,
{
    assert(config.alphas@.len() * 0 == 0 && 0 * config.width() == 0);
}

/// Trials, one by one: one trial more is a draft sampled from `q` and put through a
/// step, and as many trials as before from the state that it leaves. An accepted draft
/// counts one; an error ends the trials.
pub proof fn law_trials_follow_one_another(p: Seq<int>, q: Seq<int>, n: nat, s: RngState)
    ensures
        trial_run(p, q, 0, s) == (None::<SamplingError>, 0nat),
        ({
            let run = trial_run(p, q, n + 1, s);
            let (draft, between) = sampled(q, s);
            match draft {
                None => run.0 == Some(SamplingError::DegenerateDistribution),
                Some(x) => match step(p, q, x as int, between) {
                    (Ok((_, StepOutcome::Accepted)), end) => {
                        &&& run.0 == trial_run(p, q, n, end).0
                        &&& run.1 == trial_run(p, q, n, end).1 + 1
                    },
                    (Ok((_, StepOutcome::Resampled)), end) => run == trial_run(p, q, n, end),
                    (Err(e), _) => run.0 == Some(e),
                },
            }
        }),
{
}

} // verus!
