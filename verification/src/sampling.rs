//! The accept/reject rule of speculative sampling and the residual
//! distribution that a rejected token is resampled from.
//!
//! 1. The draft model has a distribution `q` and samples a token `x` from it.
//! 2. The target model has a distribution `p`.
//! 3. `x` is accepted with probability `min(1, p(x) / q(x))`.
//! 4. On rejection the token is resampled from `norm(max(0, p - q))`.
//!
//! Whatever `q` is, as long as it has the total mass of `p`, the emitted token is
//! distributed as `p`: see [`crate::preservation::law_distribution_preserved`].
//!
//! Distributions are slices of masses in units of `1 / ONE`.
use vstd::prelude::*;
use vstd::string::*;

use crate::fixed::{scale_by_draw, scaled};
use crate::mass::{
    index_of, ints, lemma_positive_total, lemma_prefix_bounds, locate_unsigned, nats, positive,
    positives, prefix, sum_positive, total,
};
use crate::rng::{sampled, Rng, RngState, DRAWS};

verus! {

/// Errors of the sampling primitives.
#[derive(Debug, Clone, Copy, PartialEq, Eq, Structural)]
pub enum SamplingError {
    /// Two distributions passed together had mismatched lengths.
    LengthMismatch,
    /// A distribution was empty.
    Empty,
    /// A distribution had non-positive total mass and could not be sampled.
    DegenerateDistribution,
}

/// What an error says.
pub open spec fn error_text(e: SamplingError) -> Seq<char> {
    match e {
        SamplingError::LengthMismatch => "distributions have mismatched lengths"@,
        SamplingError::Empty => "distribution is empty"@,
        SamplingError::DegenerateDistribution => "distribution has non-positive total mass"@,
    }
}

impl SamplingError {
    /// Describes the error in words.
    pub fn message(&self) -> (text: String)
        ensures
            text@ == error_text(*self),
    {
        match self {
            SamplingError::LengthMismatch => String::from_str(
                "distributions have mismatched lengths",
            ),
            SamplingError::Empty => String::from_str("distribution is empty"),
            SamplingError::DegenerateDistribution => String::from_str(
                "distribution has non-positive total mass",
            ),
        }
    }
}

/// Outcome of a single accept/reject step.
#[derive(Debug, Clone, Copy, PartialEq, Eq, Structural)]
pub enum StepOutcome {
    /// The draft token was accepted.
    Accepted,
    /// The draft token was rejected and a token was resampled from the residual.
    Resampled,
}

/// A normalized distribution, without rounding: index `i` has the probability
/// `weights[i] / total`, and these add up to one.
#[derive(Debug, Clone)]
pub struct Distribution {
    pub weights: Vec<u64>,
    pub total: u128,
}

impl Distribution {
    /// The weights add up to the total, which is positive.
    pub open spec fn wf(self) -> bool {
        &&& self.total == total(nats(self.weights@))
        &&& self.total > 0
    }
}

/// `max(0, p - q)`, weight by weight.
pub open spec fn excess(p: Seq<int>, q: Seq<int>) -> Seq<int> {
    Seq::new(p.len(), |i: int| positive(p[i] - q[i]))
}

/// The weights that a rejected token is resampled from: the excess of `p` over
/// `q`, or the positive masses of `p` where there is no excess.
pub open spec fn residual(p: Seq<int>, q: Seq<int>) -> Result<Seq<int>, SamplingError> {
    if p.len() != q.len() {
        Err(SamplingError::LengthMismatch)
    } else if p.len() == 0 {
        Err(SamplingError::Empty)
    } else if total(excess(p, q)) > 0 {
        Ok(excess(p, q))
    } else if total(positives(p)) > 0 {
        Ok(positives(p))
    } else {
        Err(SamplingError::DegenerateDistribution)
    }
}

/// `r` is the residual of `p` over `q`, normalized, or the error there is instead.
pub open spec fn is_residual(
    r: Result<Distribution, SamplingError>,
    p: Seq<int>,
    q: Seq<int>,
) -> bool {
    match r {
        Ok(d) => d.wf() && residual(p, q) == Ok::<Seq<int>, SamplingError>(nats(d.weights@)),
        Err(e) => residual(p, q) == Err::<Seq<int>, SamplingError>(e),
    }
}

/// Computes the residual distribution `norm(max(0, p - q))`.
///
/// Where `max(0, p - q)` is all zero, which is so when `q == p` and when `q`
/// dominates `p`, the residual is `norm(max(0, p))`. With `q == p` a rejection
/// has probability zero, so any proper distribution would do there; with a
/// dominating `q` this one keeps the output distributed as `p`.
///
/// # Errors
///
/// [`SamplingError::LengthMismatch`] if `p` and `q` differ in length,
/// [`SamplingError::Empty`] if they are empty, and
/// [`SamplingError::DegenerateDistribution`] if `p` has no positive mass to fall
/// back on.
pub fn residual_distribution(p: &[i64], q: &[i64]) -> (r: Result<Distribution, SamplingError>)
    ensures
        is_residual(r, ints(p@), ints(q@)),
{
    if p.len() != q.len() {
        return Err(SamplingError::LengthMismatch);
    }
    if p.len() == 0 {
        return Err(SamplingError::Empty);
    }
    let ghost over = excess(ints(p@), ints(q@));
    let mut weights: Vec<u64> = Vec::new();
    let mut sum: u128 = 0;
    let mut i: usize = 0;
    while i < p.len()
        invariant
            p.len() == q.len(),
            i <= p.len(),
            over == excess(ints(p@), ints(q@)),
            weights@.len() == i,
            forall|j: int| 0 <= j < i ==> #[trigger] weights@[j] == over[j],
            sum == prefix(over, i as int),
        decreases p.len() - i,
    {
        let diff: i128 = p[i] as i128 - q[i] as i128;
        let w: u64 = if diff > 0 {
            diff as u64
        } else {
            0
        };
        proof {
            lemma_prefix_bounds(over, i + 1, 0, u64::MAX as int);
            let n = i + 1;
            assert(n * u64::MAX <= usize::MAX * u64::MAX) by (nonlinear_arith)
                requires
                    n <= usize::MAX,
            ;
        }
        sum = sum + w as u128;
        weights.push(w);
        i = i + 1;
    }
    assert(nats(weights@) =~= over);
    if sum > 0 {
        return Ok(Distribution { weights, total: sum });
    }
    let p_sum: u128 = sum_positive(p);
    if p_sum == 0 {
        return Err(SamplingError::DegenerateDistribution);
    }
    let mut fallback: Vec<u64> = Vec::new();
    let mut j: usize = 0;
    while j < p.len()
        invariant
            j <= p.len(),
            fallback@.len() == j,
            forall|m: int|
                0 <= m < j ==> #[trigger] fallback@[m] == positives(ints(p@))[m],
        decreases p.len() - j,
    {
        let w: u64 = if p[j] > 0 {
            p[j] as u64
        } else {
            0
        };
        fallback.push(w);
        j = j + 1;
    }
    assert(nats(fallback@) =~= positives(ints(p@)));
    Ok(Distribution { weights: fallback, total: p_sum })
}

/// Whether the draw `u = draw / DRAWS` accepts a draft token: `u < px / qx`. A
/// token that the draft gives no mass is accepted if the target gives it some.
pub open spec fn accepts(px: int, qx: int, draw: int) -> bool {
    if qx <= 0 {
        px > 0
    } else {
        draw * qx < px * DRAWS
    }
}

/// Decides on a draft token of target mass `px` and draft mass `qx` by a
/// uniform draw: accepts it with probability `min(1, px / qx)`.
#[must_use]
pub fn accept_draft(px: i64, qx: i64, draw: u64) -> (r: bool)
    requires
        draw < DRAWS,
    ensures
        r == accepts(px as int, qx as int, draw as int),
{
    if qx <= 0 {
        return px > 0;
    }
    let d: i128 = draw as i128;
    let range: i128 = DRAWS as i128;
    proof {
        assert(0 <= d * qx <= DRAWS * i64::MAX) by (nonlinear_arith)
            requires
                0 <= d <= DRAWS,
                0 <= qx <= i64::MAX,
        ;
    }
    d * (qx as i128) < (px as i128) * range
}

/// What one speculative step emits for the draft token `x` in a state, and the
/// state it leaves.
pub open spec fn step(p: Seq<int>, q: Seq<int>, x: int, s: RngState) -> (
    Result<(usize, StepOutcome), SamplingError>,
    RngState,
) {
    if p.len() != q.len() || x >= p.len() {
        (Err(SamplingError::LengthMismatch), s)
    } else if accepts(p[x], q[x], s.draw() as int) {
        (Ok((x as usize, StepOutcome::Accepted)), s.next())
    } else {
        match residual(p, q) {
            Err(e) => (Err(e), s.next()),
            Ok(w) => (
                Ok(
                    (
                        index_of(w, scaled(total(w), s.next().draw() as int)) as usize,
                        StepOutcome::Resampled,
                    ),
                ),
                s.next().next(),
            ),
        }
    }
}

/// Resamples a token from a residual distribution.
pub(crate) fn resample(d: &Distribution, rng: &mut Rng) -> (token: usize)
    requires
        d.wf(),
    ensures
        token == index_of(
            nats(d.weights@),
            scaled(total(nats(d.weights@)), old(rng)@.draw() as int),
        ),
        token < d.weights@.len(),
        d.weights@[token as int] > 0,
        final(rng)@ == old(rng)@.next(),
{
    let draw: u64 = rng.next_f64();
    locate_unsigned(d.weights.as_slice(), scale_by_draw(d.total, draw))
}

/// Performs one speculative-sampling step for the token `x` that the draft
/// sampled from `q`.
///
/// Draws `u` uniformly from `[0, 1)` and accepts `x` iff `u < p(x) / q(x)`; on
/// rejection resamples from [`residual_distribution`]. Returns the token to
/// emit, and whether it was accepted or resampled.
///
/// # Errors
///
/// [`SamplingError::LengthMismatch`] if `p` and `q` differ in length or `x` is
/// not an index into them, and the errors of [`residual_distribution`] if a
/// residual is needed.
pub fn speculative_step(p: &[i64], q: &[i64], x: usize, rng: &mut Rng) -> (r: Result<
    (usize, StepOutcome),
    SamplingError,
>)
    ensures
        (r, final(rng)@) == step(ints(p@), ints(q@), x as int, old(rng)@),
{
    if p.len() != q.len() {
        return Err(SamplingError::LengthMismatch);
    }
    if x >= p.len() {
        return Err(SamplingError::LengthMismatch);
    }
    let draw: u64 = rng.next_f64();
    if accept_draft(p[x], q[x], draw) {
        return Ok((x, StepOutcome::Accepted));
    }
    match residual_distribution(p, q) {
        Err(e) => Err(e),
        Ok(d) => {
            let token: usize = resample(&d, rng);
            Ok((token, StepOutcome::Resampled))
        },
    }
}

/// Draws a single token directly from `p`: the reference that the speculative
/// decoder must match in distribution.
///
/// # Errors
///
/// [`SamplingError::DegenerateDistribution`] if the total mass of `p` is not
/// positive.
pub fn sample_from(p: &[i64], rng: &mut Rng) -> (r: Result<usize, SamplingError>)
    ensures
        final(rng)@ == sampled(ints(p@), old(rng)@).1,
        match sampled(ints(p@), old(rng)@).0 {
            Some(token) => r == Ok::<usize, SamplingError>(token) && token < p@.len()
                && p@[token as int] > 0,
            None => r == Err::<usize, SamplingError>(SamplingError::DegenerateDistribution),
        },
        r is Ok <==> total(ints(p@)) > 0,
{
    match rng.sample_categorical(p) {
        Some(token) => Ok(token),
        None => Err(SamplingError::DegenerateDistribution),
    }
}

/// The residual: the mass by which the target exceeds the draft, token by token, or
/// the target's positive masses where it nowhere does. The errors are a difference
/// in length, no tokens, and no positive mass.
pub proof fn law_residual_by_token(p: Seq<int>, q: Seq<int>)
    ensures
        p.len() != q.len() <==> residual(p, q) == Err::<Seq<int>, SamplingError>(
            SamplingError::LengthMismatch,
        ),
        p.len() == q.len() && p.len() == 0 <==> residual(p, q) == Err::<Seq<int>, SamplingError>(
            SamplingError::Empty,
        ),
        (p.len() == q.len() && p.len() > 0 && forall|i: int|
            0 <= i < p.len() ==> #[trigger] p[i] <= q[i] && p[i] <= 0) <==> residual(p, q) == Err::<
            Seq<int>,
            SamplingError,
        >(SamplingError::DegenerateDistribution),
        residual(p, q) matches Ok(w) ==> {
            let over = exists|i: int| 0 <= i < p.len() && #[trigger] p[i] > q[i];
            &&& w.len() == p.len()
            &&& forall|i: int|
                0 <= i < p.len() ==> #[trigger] w[i] == if over {
                    if p[i] > q[i] {
                        p[i] - q[i]
                    } else {
                        0
                    }
                } else if p[i] > 0 {
                    p[i]
                } else {
                    0
                }
        },
{
    let e = excess(p, q);
    let over = exists|i: int| 0 <= i < p.len() && #[trigger] p[i] > q[i];
    let some = exists|i: int| 0 <= i < p.len() && #[trigger] p[i] > 0;
    lemma_positive_total(e);
    lemma_positive_total(positives(p));
    if over {
        let i = choose|i: int| 0 <= i < p.len() && #[trigger] p[i] > q[i];
        assert(e[i] > 0);
    }
    if exists|i: int| 0 <= i < e.len() && #[trigger] e[i] > 0 {
        let i = choose|i: int| 0 <= i < e.len() && #[trigger] e[i] > 0;
        assert(p[i] > q[i]);
    }
    if some {
        let i = choose|i: int| 0 <= i < p.len() && #[trigger] p[i] > 0;
        assert(positives(p)[i] > 0);
    }
    if exists|i: int| 0 <= i < p.len() && #[trigger] positives(p)[i] > 0 {
        let i = choose|i: int| 0 <= i < p.len() && #[trigger] positives(p)[i] > 0;
        assert(p[i] > 0);
    }
    if p.len() == q.len() {
        assert((total(e) > 0) == over);
        assert((total(positives(p)) > 0) == some);
    }
}

/// The residual as it is returned: the same errors, and otherwise the same weights with
/// their sum, which is positive.
pub proof fn law_residual_is_returned(
    r: Result<Distribution, SamplingError>,
    p: Seq<int>,
    q: Seq<int>,
)
    requires
        is_residual(r, p, q),
    ensures
        match r {
            Ok(d) => {
                &&& residual(p, q) matches Ok(w)
                &&& d.weights@.len() == w.len()
                &&& forall|i: int| 0 <= i < w.len() ==> #[trigger] d.weights@[i] == w[i]
                &&& d.total == total(w)
                &&& d.total > 0
            },
            Err(e) => residual(p, q) == Err::<Seq<int>, SamplingError>(e),
        },
{
    if let Ok(d) = r {
        assert forall|i: int| 0 <= i < d.weights@.len() implies #[trigger] d.weights@[i] == nats(
            d.weights@,
        )[i] by {}
    }
}

/// The acceptance rule: the draw `u = draw / DRAWS` accepts exactly where
/// `u * q(x) < p(x)`; without draft mass the target's decides.
pub proof fn law_acceptance_rule(px: int, qx: int, draw: int)
    ensures
        qx > 0 ==> (accepts(px, qx, draw) <==> draw * qx < px * DRAWS),
        qx <= 0 ==> (accepts(px, qx, draw) <==> px > 0),
{
}

/// A speculative step: the draft itself where the state's draw accepts it, and
/// otherwise a token sampled from the residual in the next state. Target and draft
/// of different lengths, and a draft that is no token, are errors that make no draw.
pub proof fn law_step_by_draws(p: Seq<int>, q: Seq<int>, x: int, s: RngState)
    requires
        0 <= x <= usize::MAX,
        p.len() <= usize::MAX,
    ensures
        p.len() != q.len() || x >= p.len() ==> step(p, q, x, s) == (
            Err::<(usize, StepOutcome), SamplingError>(SamplingError::LengthMismatch),
            s,
        ),
        p.len() == q.len() && x < p.len() ==> {
            let accepted = if q[x] > 0 {
                s.draw() * q[x] < p[x] * DRAWS
            } else {
                p[x] > 0
            };
            &&& accepted ==> step(p, q, x, s) == (
                Ok::<(usize, StepOutcome), SamplingError>((x as usize, StepOutcome::Accepted)),
                s.next(),
            )
            &&& !accepted && residual(p, q) is Ok ==> {
                let w = residual(p, q)->Ok_0;
                &&& sampled(w, s.next()).0 matches Some(token)
                &&& step(p, q, x, s) == (
                    Ok::<(usize, StepOutcome), SamplingError>((token, StepOutcome::Resampled)),
                    s.next().next(),
                )
            }
            &&& !accepted && residual(p, q) is Err ==> step(p, q, x, s) == (
                Err::<(usize, StepOutcome), SamplingError>(residual(p, q)->Err_0),
                s.next(),
            )
        },
{
}

} // verus!
