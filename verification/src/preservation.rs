//! Why speculative sampling may be used at all: it does not change the output
//! distribution.
//!
//! The laws here speak of exact probabilities, as fractions of integers over a
//! common denominator, and of the functions that the sampling code computes.
use vstd::arithmetic::div_mod::*;
use vstd::arithmetic::mul::*;
use vstd::prelude::*;

use crate::fixed::scaled;
use crate::mass::{
    falls_on, index_of, lemma_falls_on_unique, lemma_index_of, lemma_part_of_total,
    lemma_positives_cover, lemma_prefix_adds, lemma_prefix_monotonic, min, nonnegative, positives,
    prefix, total,
};
use crate::rng::{categorical, RngState, DRAWS};
use crate::sampling::{accepts, excess, residual, step, SamplingError, StepOutcome};

verus! {

/// The mass that `p` and `q` share, token by token.
pub open spec fn overlap(p: Seq<int>, q: Seq<int>) -> Seq<int> {
    Seq::new(p.len(), |i: int| min(p[i], q[i]))
}

/// What a draft of `y` adds to the chance of emitting `x`, in units of one over
/// `total(q) * total(w)`, where rejected drafts are resampled from `w`.
///
/// The draft is `y` with probability `q(y) / total(q)`. It is accepted with
/// probability `min(1, p(y) / q(y))`, so drafting and accepting it together has
/// the probability `min(p(y), q(y)) / total(q)`, and drafting and rejecting it
/// the rest. A rejected draft turns into `x` with probability `w(x) / total(w)`.
pub open spec fn contribution(p: Seq<int>, q: Seq<int>, w: Seq<int>, x: int, y: int) -> int {
    (if y == x {
        min(p[y], q[y]) * total(w)
    } else {
        0
    }) + (q[y] - min(p[y], q[y])) * w[x]
}

/// The chance of emitting `x`, summed over all drafts, in units of one over
/// `total(q) * total(w)`.
pub open spec fn emission(p: Seq<int>, q: Seq<int>, w: Seq<int>, x: int) -> int {
    total(Seq::new(q.len(), |y: int| contribution(p, q, w, x, y)))
}

proof fn lemma_emission_prefix(p: Seq<int>, q: Seq<int>, w: Seq<int>, x: int, i: int)
    requires
        p.len() == q.len(),
        0 <= x < q.len(),
        0 <= i <= q.len(),
    ensures
        prefix(Seq::new(q.len(), |y: int| contribution(p, q, w, x, y)), i) == (if x < i {
            min(p[x], q[x]) * total(w)
        } else {
            0
        }) + (prefix(q, i) - prefix(overlap(p, q), i)) * w[x],
    decreases i,
{
    if i > 0 {
        lemma_emission_prefix(p, q, w, x, i - 1);
        let a = prefix(q, i - 1) - prefix(overlap(p, q), i - 1);
        let b = q[i - 1] - min(p[i - 1], q[i - 1]);
        assert((a + b) * w[x] == a * w[x] + b * w[x]) by (nonlinear_arith);
    } else {
        assert(0 * w[x] == 0);
    }
}

/// The chance of emitting `x` is that of drafting and accepting it and, of the
/// mass that the overlap leaves, the part of `w` that is `x`.
pub proof fn lemma_emission_closed(p: Seq<int>, q: Seq<int>, w: Seq<int>, x: int)
    requires
        p.len() == q.len(),
        0 <= x < q.len(),
    ensures
        emission(p, q, w, x) == overlap(p, q)[x] * total(w) + (total(q) - total(overlap(p, q)))
            * w[x],
{
    lemma_emission_prefix(p, q, w, x, q.len() as int);
}

/// The excess of `p` over `q` is what the overlap leaves of `p`.
pub proof fn lemma_excess_complements_overlap(p: Seq<int>, q: Seq<int>)
    requires
        p.len() == q.len(),
    ensures
        forall|i: int| 0 <= i < p.len() ==> overlap(p, q)[i] + #[trigger] excess(p, q)[i] == p[i],
        total(excess(p, q)) == total(p) - total(overlap(p, q)),
        nonnegative(excess(p, q)),
{
    assert forall|i: int| 0 <= i < p.len() implies overlap(p, q)[i] + #[trigger] excess(
        p,
        q,
    )[i] == p[i] by {}
    lemma_prefix_adds(p, overlap(p, q), excess(p, q), p.len() as int);
}

/// Emission from any masses: a token `x` is emitted with the probability
/// `p(x) / total(q)`, corrected by what the two totals differ by.
///
/// In units of one over `total(q) * total(w)` the correction is the difference
/// of the totals times `w(x)`. It vanishes where target and draft have the same
/// total, and it is at most the difference of the totals over `total(q)`.
pub proof fn law_emission_of_any_masses(p: Seq<int>, q: Seq<int>, w: Seq<int>, x: int)
    requires
        nonnegative(p),
        nonnegative(q),
        residual(p, q) == Ok::<Seq<int>, SamplingError>(w),
        0 <= x < p.len(),
    ensures
        emission(p, q, w, x) == p[x] * total(w) + (total(q) - total(p)) * w[x],
{
    lemma_excess_complements_overlap(p, q);
    lemma_emission_closed(p, q, w, x);
    lemma_positives_cover(p);
    lemma_prefix_monotonic(excess(p, q), 0, p.len() as int);
    let shared = overlap(p, q)[x];
    let over = excess(p, q)[x];
    let mass = total(excess(p, q));
    let gap = total(q) - total(p);
    assert(shared + over == p[x]);
    assert(total(q) - total(overlap(p, q)) == gap + mass);
    if mass == 0 {
        lemma_part_of_total(excess(p, q), x);
        assert(w == p);
    } else {
        assert(shared * mass + (gap + mass) * over == (shared + over) * mass + gap * over)
            by (nonlinear_arith);
    }
}

/// Distribution preservation: for any draft `q`, every token `x` is emitted
/// with exactly the probability `p(x) / total(p)` that the target gives it.
///
/// `p` and `q` are distributions of the same total mass.
pub proof fn law_distribution_preserved(p: Seq<int>, q: Seq<int>, w: Seq<int>, x: int)
    requires
        nonnegative(p),
        nonnegative(q),
        total(p) == total(q),
        residual(p, q) == Ok::<Seq<int>, SamplingError>(w),
        0 <= x < p.len(),
    ensures
        emission(p, q, w, x) == p[x] * total(w),
{
    law_emission_of_any_masses(p, q, w, x);
    assert(0 * w[x] == 0);
}

/// A draft that dominates the target, token by token, preserves the
/// distribution too, whatever its total: the residual is the target itself, and
/// `x` is emitted with exactly the probability `p(x) / total(p)`.
pub proof fn law_dominating_draft_preserves(p: Seq<int>, q: Seq<int>, x: int)
    requires
        nonnegative(p),
        p.len() == q.len(),
        forall|i: int| 0 <= i < p.len() ==> p[i] <= #[trigger] q[i],
        total(p) > 0,
        0 <= x < p.len(),
    ensures
        residual(p, q) == Ok::<Seq<int>, SamplingError>(p),
        emission(p, q, p, x) == p[x] * total(q),
{
    lemma_positives_cover(p);
    lemma_excess_complements_overlap(p, q);
    assert(overlap(p, q) =~= p);
    assert(nonnegative(q)) by {
        assert forall|i: int| 0 <= i < q.len() implies 0 <= #[trigger] q[i] by {
            assert(0 <= p[i]);
        }
    }
    law_emission_of_any_masses(p, q, p, x);
    assert(p[x] * total(p) + (total(q) - total(p)) * p[x] == p[x] * total(q))
        by (nonlinear_arith);
}

/// `|p - q|`, token by token.
pub open spec fn distances(p: Seq<int>, q: Seq<int>) -> Seq<int> {
    Seq::new(
        p.len(),
        |i: int|
            if p[i] >= q[i] {
                p[i] - q[i]
            } else {
                q[i] - p[i]
            },
    )
}

/// The acceptance rate: a draft is accepted with the probability of the overlap
/// of target and draft, which is one minus their total variation distance.
pub proof fn law_overlap_complements_distance(p: Seq<int>, q: Seq<int>)
    requires
        p.len() == q.len(),
        total(p) == total(q),
    ensures
        2 * (total(q) - total(overlap(p, q))) == total(distances(p, q)),
{
    lemma_excess_complements_overlap(p, q);
    lemma_excess_complements_overlap(q, p);
    assert(overlap(q, p) =~= overlap(p, q));
    lemma_prefix_adds(distances(p, q), excess(p, q), excess(q, p), p.len() as int);
}

/// A token that the target gives at least the draft's mass, and some, is
/// accepted whatever the draw.
pub proof fn law_accept_when_target_dominates(px: int, qx: int, draw: int)
    requires
        px >= qx,
        px > 0,
        0 <= draw < DRAWS,
    ensures
        accepts(px, qx, draw),
{
    if qx > 0 {
        assert(draw * qx < px * DRAWS) by (nonlinear_arith)
            requires
                0 <= draw < DRAWS,
                0 < qx <= px,
        ;
    }
}

/// A token that the target gives no mass is never accepted.
pub proof fn law_reject_without_target_mass(px: int, qx: int, draw: int)
    requires
        px <= 0,
        0 <= draw,
    ensures
        !accepts(px, qx, draw),
{
    if qx > 0 {
        assert(draw * qx >= 0 && px * DRAWS <= 0) by (nonlinear_arith)
            requires
                0 <= draw,
                0 < qx,
                px <= 0,
        ;
    }
}

/// Every state draws below `DRAWS`.
pub proof fn lemma_draw_in_range(s: RngState)
    ensures
        0 <= s.draw() < DRAWS,
{
    let bits = s.output();
    assert((bits >> 11) < 9_007_199_254_740_992) by (bit_vector);
}

/// A perfect draft is always accepted: with `q == p`, every token that the
/// draft can sample is emitted as it is.
pub proof fn law_equal_distributions_accept(p: Seq<int>, x: int, s: RngState)
    requires
        0 <= x < p.len(),
        p.len() <= usize::MAX,
        p[x] > 0,
    ensures
        step(p, p, x, s) == (
            Ok::<(usize, StepOutcome), SamplingError>((x as usize, StepOutcome::Accepted)),
            s.next(),
        ),
{
    lemma_draw_in_range(s);
    law_accept_when_target_dominates(p[x], p[x], s.draw() as int);
}

/// A residual that can be sampled has weights that are not negative and a
/// positive total.
pub proof fn law_residual_is_a_distribution(p: Seq<int>, q: Seq<int>, w: Seq<int>)
    requires
        residual(p, q) == Ok::<Seq<int>, SamplingError>(w),
    ensures
        w.len() == p.len(),
        nonnegative(w),
        total(w) > 0,
{
}

/// The residual exists for any pair of masses over the same tokens in which the
/// target has positive mass.
pub proof fn law_residual_exists(p: Seq<int>, q: Seq<int>)
    requires
        p.len() == q.len(),
        total(p) > 0,
    ensures
        residual(p, q) is Ok,
{
    lemma_positives_cover(p);
}

/// A step succeeds for any token of any pair of masses over the same tokens in
/// which the target has positive mass.
pub proof fn law_step_succeeds(p: Seq<int>, q: Seq<int>, x: int, s: RngState)
    requires
        p.len() == q.len(),
        0 <= x < p.len(),
        total(p) > 0,
    ensures
        step(p, q, x, s).0 is Ok,
{
    law_residual_exists(p, q);
}

/// A step never emits a token that the target gives no mass.
pub proof fn law_step_emits_target_tokens(p: Seq<int>, q: Seq<int>, x: int, s: RngState)
    requires
        nonnegative(q),
        0 <= x,
        p.len() <= usize::MAX,
    ensures
        step(p, q, x, s).0 matches Ok((token, _)) ==> token < p.len() && p[token as int] > 0,
{
    lemma_draw_in_range(s);
    lemma_draw_in_range(s.next());
    if p.len() == q.len() && x < p.len() {
        if accepts(p[x], q[x], s.draw() as int) {
            if p[x] <= 0 {
                law_reject_without_target_mass(p[x], q[x], s.draw() as int);
            }
        } else if let Ok(w) = residual(p, q) {
            law_residual_is_a_distribution(p, q, w);
            lemma_positives_cover(w);
            let draw = s.next().draw() as int;
            let t = scaled(total(w), draw);
            assert(0 <= t < total(w)) by {
                lemma_scaled_in_range(total(w), draw);
            }
            lemma_index_of(w, t);
        }
    }
}

pub proof fn lemma_scaled_in_range(sum: int, draw: int)
    requires
        0 < sum,
        0 <= draw < DRAWS,
    ensures
        0 <= scaled(sum, draw) < sum,
{
    assert(0 <= draw * sum < DRAWS * sum) by (nonlinear_arith)
        requires
            0 < sum,
            0 <= draw < DRAWS,
    ;
    lemma_div_pos_is_pos(draw * sum, DRAWS as int);
    lemma_multiply_divide_lt(draw * sum, DRAWS as int, sum);
}

/// Categorical sampling: of the `total(w)` equally likely thresholds exactly
/// `w[i]`, those from `prefix(w, i)` on, select the index `i`.
pub proof fn law_threshold_selects_by_weight(w: Seq<int>, t: int, i: int)
    requires
        nonnegative(w),
        0 <= t < total(w),
        0 <= i < w.len(),
    ensures
        index_of(w, t) == i <==> prefix(w, i) <= t < prefix(w, i) + w[i],
{
    lemma_positives_cover(w);
    lemma_index_of(w, t);
    if prefix(w, i) <= t < prefix(w, i) + w[i] {
        assert(falls_on(w, t, i));
        lemma_falls_on_unique(w, t, i, index_of(w, t));
    }
}

/// Categorical sampling by a draw `u = draw / DRAWS`: index `i` is selected
/// exactly where `u * total(w)` lies in an interval of the length `w[i]`.
pub proof fn law_draw_selects_by_weight(w: Seq<int>, draw: int, i: int)
    requires
        nonnegative(w),
        total(w) > 0,
        w.len() <= usize::MAX,
        0 <= draw < DRAWS,
        0 <= i < w.len(),
    ensures
        categorical(w, draw) == Some(i as usize) <==> prefix(w, i) * DRAWS <= draw * total(w) < (
        prefix(w, i) + w[i]) * DRAWS,
{
    let t = scaled(total(w), draw);
    let n = draw * total(w);
    let d = DRAWS as int;
    lemma_scaled_in_range(total(w), draw);
    lemma_positives_cover(w);
    lemma_index_of(w, t);
    law_threshold_selects_by_weight(w, t, i);
    lemma_fundamental_div_mod(n, d);
    let lo = prefix(w, i);
    let hi = lo + w[i];
    assert(lo <= t <==> lo * d <= n) by (nonlinear_arith)
        requires
            n == d * t + n % d,
            0 <= n % d < d,
    ;
    assert(t < hi <==> n < hi * d) by (nonlinear_arith)
        requires
            n == d * t + n % d,
            0 <= n % d < d,
    ;
}

/// Every weight multiplied by `c`.
pub open spec fn times(w: Seq<int>, c: int) -> Seq<int> {
    Seq::new(w.len(), |i: int| c * w[i])
}

/// Running totals of weights multiplied by `c` are multiplied by `c`.
pub proof fn lemma_prefix_times(w: Seq<int>, c: int, i: int)
    requires
        0 <= i <= w.len(),
    ensures
        prefix(times(w, c), i) == c * prefix(w, i),
    decreases i,
{
    if i > 0 {
        lemma_prefix_times(w, c, i - 1);
        assert(c * prefix(w, i - 1) + c * w[i - 1] == c * (prefix(w, i - 1) + w[i - 1]))
            by (nonlinear_arith);
    } else {
        assert(c * 0 == 0);
    }
}

proof fn lemma_at_most_scaled(bound: int, sum: int, draw: int)
    ensures
        bound <= scaled(sum, draw) <==> bound * DRAWS <= draw * sum,
{
    let n = draw * sum;
    let d = DRAWS as int;
    lemma_fundamental_div_mod(n, d);
    let t = scaled(sum, draw);
    assert(bound <= t <==> bound * d <= n) by (nonlinear_arith)
        requires
            n == d * t + n % d,
            0 <= n % d < d,
    ;
}

/// Only the relative magnitudes of weights matter: multiplying all of them by
/// the same number changes no selection.
pub proof fn law_only_proportions_matter(w: Seq<int>, c: int, draw: int)
    requires
        c > 0,
        0 <= draw < DRAWS,
    ensures
        categorical(times(w, c), draw) == categorical(w, draw),
{
    let v = times(w, c);
    let n = w.len() as int;
    lemma_prefix_times(w, c, n);
    assert((c * total(w) <= 0) == (total(w) <= 0)) by (nonlinear_arith)
        requires
            c > 0,
    ;
    if total(w) > 0 {
        let t = scaled(total(w), draw);
        let i = index_of(w, t);
        lemma_scaled_in_range(total(w), draw);
        lemma_positives_cover(w);
        lemma_index_of(w, t);
        assert forall|j: int| 0 <= j < n implies positives(v)[j] == #[trigger] times(
            positives(w),
            c,
        )[j] by {
            assert((c * w[j] > 0) == (w[j] > 0)) by (nonlinear_arith)
                requires
                    c > 0,
            ;
            assert(c * 0 == 0);
        }
        assert(positives(v) =~= times(positives(w), c));
        lemma_prefix_times(positives(w), c, i);
        lemma_prefix_times(positives(w), c, i + 1);
        let lo = prefix(positives(w), i);
        let hi = prefix(positives(w), i + 1);
        let sum = total(w);
        lemma_at_most_scaled(lo, sum, draw);
        lemma_at_most_scaled(hi, sum, draw);
        lemma_at_most_scaled(c * lo, c * sum, draw);
        lemma_at_most_scaled(c * hi, c * sum, draw);
        let d = DRAWS as int;
        assert((c * lo) * d <= draw * (c * sum) <==> lo * d <= draw * sum) by (nonlinear_arith)
            requires
                c > 0,
        ;
        assert((c * hi) * d <= draw * (c * sum) <==> hi * d <= draw * sum) by (nonlinear_arith)
            requires
                c > 0,
        ;
        let u = scaled(c * sum, draw);
        assert(falls_on(v, u, i));
        lemma_scaled_in_range(total(v), draw);
        lemma_positives_cover(v);
        lemma_index_of(v, u);
        lemma_falls_on_unique(v, u, i, index_of(v, u));
    }
}

/// The overlap of two distributions: the lesser of the two masses, token by token, so
/// that with the excess of either it makes up that one.
pub proof fn law_overlap_is_the_lesser(p: Seq<int>, q: Seq<int>, i: int)
    requires
        p.len() == q.len(),
        0 <= i < p.len(),
    ensures
        overlap(p, q).len() == p.len(),
        overlap(p, q)[i] <= p[i],
        overlap(p, q)[i] <= q[i],
        overlap(p, q)[i] == p[i] || overlap(p, q)[i] == q[i],
        overlap(p, q)[i] + excess(p, q)[i] == p[i],
        overlap(p, q)[i] + excess(q, p)[i] == q[i],
{
}

} // verus!
