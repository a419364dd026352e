//! Draft and target model simulators.
//!
//! A model gives a next-token distribution over a synthetic vocabulary for each
//! context token. Two knobs matter to the benchmark: the simulated latency of a
//! forward pass, and, for a draft, the agreement with its target: at one the
//! draft reproduces the target, at zero it is uniform.
use vstd::prelude::*;

use crate::analytical::{clamp_to_unit, clamp_unit};
use crate::apportion::{
    draw_weights, is_distribution, law_mixture_interpolates, law_mixture_keeps_order,
    law_mixture_of_none, law_mixture_of_one, law_mixture_sums_to_one,
    law_normalized_in_proportion, law_peaked_masses_are_positive, lemma_peaked_is_a_distribution,
    lemma_peaked_total, mix_with_uniform, mixed_with_uniform, normalize, normalized, peaked_weight,
    peaked_weights, sums_to_one, uniform, MAX_WEIGHT, WEIGHT_FLOOR,
};
use crate::draws::{
    drafting_and_accepting, emitting, law_acceptance_in_proportion,
    law_draws_nearly_preserve_distribution,
};
use crate::fixed::{lemma_ceil_div, lemma_ceil_div_ordered, lemma_ceil_div_unique, ONE};
use crate::mass::{ints, lemma_prefix_bounds, lemma_prefix_ordered, nats, prefix, total};
use crate::preservation::{
    emission, law_emission_of_any_masses, law_residual_is_a_distribution, overlap,
};
use crate::rng::{seeded, Rng, DRAWS};
use crate::sampling::{residual, SamplingError};

verus! {

/// A next-token model over a vocabulary.
pub trait Model {
    /// The number of possible next tokens.
    spec fn tokens(&self) -> nat;

    /// The simulated nanoseconds of a forward pass.
    spec fn nanos(&self) -> u64;

    /// The masses of the next tokens after a context token.
    spec fn distribution(&self, context: usize) -> Seq<int>;

    /// The vocabulary size.
    fn vocab_size(&self) -> (n: usize)
        ensures
            n == self.tokens(),
    ;

    /// The simulated latency of a single forward pass, in nanoseconds.
    fn latency(&self) -> (nanos: u64)
        ensures
            nanos == self.nanos(),
    ;

    /// The next-token distribution for a context token: one mass for each token
    /// of the vocabulary, and they add up to one, rounded up by less than a unit
    /// per token.
    fn next_distribution(&self, context: usize) -> (m: Vec<i64>)
        ensures
            ints(m@) == self.distribution(context),
            m@.len() == self.tokens(),
            sums_to_one(ints(m@)),
    ;
}

/// A synthetic model.
///
/// Its base distribution for a context is a peaked categorical derived from a
/// seed and the context token. A draft blends the base distribution of its
/// target with the uniform one.
#[derive(Debug)]
pub struct SyntheticModel {
    vocab: usize,
    seed: u64,
    latency: u64,
    agreement: u64,
}

/// The seed of the base distribution for a context token.
pub open spec fn context_seed(seed: u64, context: usize) -> u64 {
    seed.wrapping_mul(0x100_0000_01B3).wrapping_add(context as u64)
}

/// The base distribution of a seed over `vocab` tokens.
pub open spec fn base(vocab: nat, seed: u64, context: usize) -> Seq<int> {
    normalized(peaked_weights(seeded(context_seed(seed, context)), vocab))
}

/// The distribution of a model: its base blended with the uniform distribution
/// in the proportion of its agreement.
pub open spec fn blended(vocab: nat, seed: u64, agreement: int, context: usize) -> Seq<int> {
    mixed_with_uniform(base(vocab, seed, context), agreement)
}

impl SyntheticModel {
    #[verifier::type_invariant]
    spec fn inv(self) -> bool {
        &&& self.vocab > 0
        &&& self.agreement <= ONE
    }

    /// The seed that the base distributions derive from.
    pub closed spec fn seed_value(&self) -> u64 {
        self.seed
    }

    /// The part of the base distribution in the blend, in `[0, 1]`.
    pub closed spec fn agreement_value(&self) -> int {
        self.agreement as int
    }

    /// Builds a target model over at least one token. Its agreement is one: the
    /// target defines the truth.
    #[must_use]
    pub fn target(vocab: usize, seed: u64, latency: u64) -> (model: SyntheticModel)
        ensures
            model.tokens() == if vocab == 0 {
                1
            } else {
                vocab as nat
            },
            model.seed_value() == seed,
            model.nanos() == latency,
            model.agreement_value() == ONE,
    {
        SyntheticModel {
            vocab: if vocab == 0 {
                1
            } else {
                vocab
            },
            seed,
            latency,
            agreement: ONE,
        }
    }

    /// Builds a draft model that approximates the target `base`. `agreement` is
    /// clamped to `[0, 1]`.
    #[must_use]
    pub fn draft_from(base: &SyntheticModel, agreement: i64, latency: u64) -> (model:
        SyntheticModel)
        ensures
            model.tokens() == base.tokens(),
            model.seed_value() == base.seed_value(),
            model.nanos() == latency,
            model.agreement_value() == clamp_unit(agreement as int),
    {
        proof {
            use_type_invariant(base);
        }
        SyntheticModel {
            vocab: base.vocab,
            seed: base.seed,
            latency,
            agreement: clamp_to_unit(agreement),
        }
    }

    /// The base distribution for a context token, whatever the agreement.
    fn base_distribution(&self, context: usize) -> (m: Vec<i64>)
        ensures
            ints(m@) == base(self.tokens(), self.seed_value(), context),
            m@.len() == self.tokens(),
            is_distribution(ints(m@)),
    {
        proof {
            use_type_invariant(self);
        }
        let mut rng = Rng::new(
            self.seed.wrapping_mul(0x100_0000_01B3).wrapping_add(context as u64),
        );
        let weights: Vec<u64> = draw_weights(&mut rng, self.vocab);
        proof {
            let v = nats(weights@);
            lemma_prefix_bounds(v, v.len() as int, WEIGHT_FLOOR as int, u64::MAX as int);
        }
        let m: Vec<i64> = normalize(weights.as_slice());
        assert(ints(m@).len() == self.vocab);
        m
    }
}

impl Clone for SyntheticModel {
    fn clone(&self) -> (copy: SyntheticModel)
        ensures
            copy == *self,
    {
        proof {
            use_type_invariant(self);
        }
        SyntheticModel {
            vocab: self.vocab,
            seed: self.seed,
            latency: self.latency,
            agreement: self.agreement,
        }
    }
}

impl Model for SyntheticModel {
    closed spec fn tokens(&self) -> nat {
        self.vocab as nat
    }

    closed spec fn nanos(&self) -> u64 {
        self.latency
    }

    open spec fn distribution(&self, context: usize) -> Seq<int> {
        blended(self.tokens(), self.seed_value(), self.agreement_value(), context)
    }

    fn vocab_size(&self) -> (n: usize) {
        self.vocab
    }

    fn latency(&self) -> (nanos: u64) {
        self.latency
    }

    /// The blend of the model. It keeps the order of the base masses, and in full
    /// agreement it is the base distribution, which adds up to exactly one.
    fn next_distribution(&self, context: usize) -> (m: Vec<i64>)
        ensures
            self.agreement_value() == ONE ==> ints(m@) == base(
                self.tokens(),
                self.seed_value(),
                context,
            ) && is_distribution(ints(m@)),
            forall|i: int, j: int|
                0 <= i < m@.len() && 0 <= j < m@.len() && base(
                    self.tokens(),
                    self.seed_value(),
                    context,
                )[i] <= base(self.tokens(), self.seed_value(), context)[j] ==> #[trigger] m@[i]
                    <= #[trigger] m@[j],
    {
        proof {
            use_type_invariant(self);
        }
        let m: Vec<i64> = self.base_distribution(context);
        assert forall|i: int| 0 <= i < m@.len() implies #[trigger] m@[i] == base(
            self.tokens(),
            self.seed_value(),
            context,
        )[i] by {
            assert(ints(m@)[i] == m@[i]);
        }
        if self.agreement == ONE {
            proof {
                law_mixture_of_one(ints(m@));
            }
            return m;
        }
        mix_with_uniform(m.as_slice(), self.agreement)
    }
}

/// A draft in full agreement has the distribution of its target.
pub proof fn law_full_agreement_matches_target(vocab: nat, seed: u64, context: usize)
    ensures
        blended(vocab, seed, ONE as int, context) == base(vocab, seed, context),
{
    law_mixture_of_one(base(vocab, seed, context));
}

/// A draft without agreement is uniform.
pub proof fn law_no_agreement_is_uniform(vocab: nat, seed: u64, context: usize)
    ensures
        blended(vocab, seed, 0, context) == uniform(vocab),
{
    law_mixture_of_none(base(vocab, seed, context));
    assert(base(vocab, seed, context).len() == vocab);
}

/// The only token of a vocabulary of one is certain, whatever the agreement.
pub proof fn law_single_token_is_certain(seed: u64, agreement: int, context: usize)
    requires
        0 <= agreement <= ONE,
    ensures
        blended(1, seed, agreement, context) == seq![ONE as int],
{
    let one = ONE as int;
    let b = base(1, seed, context);
    lemma_blend_sums(1, seed, agreement, context);
    assert(prefix(b, 1) == prefix(b, 0) + b[0]);
    let x = agreement * one * 1 + (one - agreement) * one;
    assert(x == (one * 1) * one) by (nonlinear_arith)
        requires
            x == agreement * one * 1 + (one - agreement) * one,
    ;
    lemma_ceil_div_unique(x, one * 1, one);
    assert(blended(1, seed, agreement, context) =~= seq![one]);
}

/// A draft keeps the order of the masses of its target, whatever the agreement.
pub proof fn law_blend_keeps_order(
    vocab: nat,
    seed: u64,
    agreement: int,
    context: usize,
    i: int,
    j: int,
)
    requires
        0 <= agreement <= ONE,
        0 <= i < vocab,
        0 <= j < vocab,
        base(vocab, seed, context)[i] <= base(vocab, seed, context)[j],
    ensures
        blended(vocab, seed, agreement, context)[i] <= blended(vocab, seed, agreement, context)[j],
{
    law_mixture_keeps_order(base(vocab, seed, context), agreement, i, j);
}

/// A target and any draft of it: the target adds up to exactly one, the draft to
/// one, rounded up.
pub proof fn lemma_blend_sums(vocab: nat, seed: u64, agreement: int, context: usize)
    requires
        vocab > 0,
        0 <= agreement <= ONE,
    ensures
        base(vocab, seed, context).len() == vocab,
        blended(vocab, seed, agreement, context).len() == vocab,
        is_distribution(base(vocab, seed, context)),
        sums_to_one(blended(vocab, seed, agreement, context)),
{
    lemma_peaked_is_a_distribution(seeded(context_seed(seed, context)), vocab);
    law_mixture_sums_to_one(base(vocab, seed, context), agreement);
}

/// Decoding with a draft of any agreement emits the tokens of its target: the
/// chance of `x`, in units of one over `total(q) * total(w)`, exceeds `p(x)` parts
/// of `total(w)` by less than a unit per token, times `w(x)`.
pub proof fn law_draft_preserves_target(
    vocab: nat,
    seed: u64,
    agreement: int,
    context: usize,
    w: Seq<int>,
    x: int,
)
    requires
        0 <= agreement <= ONE,
        0 <= x < vocab,
        residual(base(vocab, seed, context), blended(vocab, seed, agreement, context)) == Ok::<
            Seq<int>,
            SamplingError,
        >(w),
    ensures
        ({
            let p = base(vocab, seed, context);
            let q = blended(vocab, seed, agreement, context);
            0 <= emission(p, q, w, x) - p[x] * total(w) <= vocab * w[x]
        }),
{
    let p = base(vocab, seed, context);
    let q = blended(vocab, seed, agreement, context);
    lemma_blend_sums(vocab, seed, agreement, context);
    law_emission_of_any_masses(p, q, w, x);
    law_residual_is_a_distribution(p, q, w);
    let gap = total(q) - total(p);
    assert(0 <= gap * w[x] <= vocab * w[x]) by (nonlinear_arith)
        requires
            0 <= gap <= vocab,
            0 <= w[x],
    ;
}

/// The same as drawn: of all triples of draws the part that emits `x` is within
/// `(n + 4) / DRAWS` and a unit per token of the probability that the target
/// gives it, where `n` is the number of tokens.
pub proof fn law_draft_draws_preserve_target(
    vocab: nat,
    seed: u64,
    agreement: int,
    context: usize,
    w: Seq<int>,
    x: int,
)
    requires
        0 <= agreement <= ONE,
        0 <= x < vocab,
        residual(base(vocab, seed, context), blended(vocab, seed, agreement, context)) == Ok::<
            Seq<int>,
            SamplingError,
        >(w),
    ensures
        ({
            let p = base(vocab, seed, context);
            let q = blended(vocab, seed, agreement, context);
            let d = DRAWS as int;
            let error = total(q) * emitting(p, q, w, x) - p[x] * (d * d * d);
            let bound = (vocab + 4) * (total(q) * (d * d)) + vocab * (d * d * d);
            -bound <= error <= bound
        }),
{
    lemma_blend_sums(vocab, seed, agreement, context);
    law_draws_nearly_preserve_distribution(
        base(vocab, seed, context),
        blended(vocab, seed, agreement, context),
        w,
        x,
        vocab as int,
    );
}

/// One token's part in [`law_agreement_raises_acceptance`].
proof fn lemma_agreement_at_token(b: Seq<int>, low: int, high: int, i: int)
    requires
        0 <= low <= high <= ONE,
        0 <= i < b.len(),
    ensures
        overlap(b, mixed_with_uniform(b, low))[i] <= overlap(b, mixed_with_uniform(b, high))[i],
{
    let one = ONE as int;
    let n = b.len() as int;
    let t = b[i];
    let x = low * t * n + (one - low) * one;
    let y = high * t * n + (one - high) * one;
    assert(0 < one * n) by (nonlinear_arith)
        requires
            n > 0,
            one > 0,
    ;
    if t * n <= one {
        assert(y >= (one * n) * t) by (nonlinear_arith)
            requires
                0 <= high <= one,
                t * n <= one,
                y == high * t * n + (one - high) * one,
        {
            assert((one - high) * (t * n) <= (one - high) * one);
            assert(high * t * n + (one - high) * (t * n) == (one * n) * t);
        }
        let m = mixed_with_uniform(b, high)[i];
        lemma_ceil_div(y, one * n);
        assert(m >= t) by (nonlinear_arith)
            requires
                (one * n) * t <= (one * n) * m,
                0 < one * n,
        ;
    } else {
        assert(x <= y) by (nonlinear_arith)
            requires
                low <= high,
                t * n > one,
                x == low * t * n + (one - low) * one,
                y == high * t * n + (one - high) * one,
        {
            assert((high - low) * one <= (high - low) * (t * n));
            assert(y - x == (high - low) * (t * n) - (high - low) * one);
        }
        lemma_ceil_div_ordered(x, y, one * n);
    }
}

/// Agreement moves the acceptance rate up: a draft in closer agreement with its
/// target has at least the overlap with it.
pub proof fn law_agreement_raises_acceptance(
    vocab: nat,
    seed: u64,
    context: usize,
    low: int,
    high: int,
)
    requires
        0 <= low <= high <= ONE,
    ensures
        total(overlap(base(vocab, seed, context), blended(vocab, seed, low, context))) <= total(
            overlap(base(vocab, seed, context), blended(vocab, seed, high, context)),
        ),
{
    let b = base(vocab, seed, context);
    let n = vocab as int;
    assert(b.len() == vocab);
    let o = overlap(b, mixed_with_uniform(b, low));
    let p = overlap(b, mixed_with_uniform(b, high));
    assert forall|i: int| 0 <= i < n implies o[i] <= p[i] by {
        lemma_agreement_at_token(b, low, high, i);
    }
    lemma_prefix_ordered(o, p, n);
}

/// The same as drawn: with `n` tokens, the part of all pairs of draws that drafts
/// a token and accepts it rises with agreement, to within `(n + 1) / DRAWS` on
/// either side. Each part is weighed with the total of its draft, which is one to
/// within a unit per token.
pub proof fn law_agreement_raises_accepted_draws(
    vocab: nat,
    seed: u64,
    context: usize,
    low: int,
    high: int,
)
    requires
        vocab > 0,
        0 <= low <= high <= ONE,
    ensures
        ({
            let p = base(vocab, seed, context);
            let less = blended(vocab, seed, low, context);
            let more = blended(vocab, seed, high, context);
            total(less) * total(drafting_and_accepting(p, less)) <= total(more) * total(
                drafting_and_accepting(p, more),
            ) + (vocab + 1) * (total(less) * DRAWS) + (vocab + 1) * (total(more) * DRAWS)
        }),
{
    let d = DRAWS as int;
    let p = base(vocab, seed, context);
    let less = blended(vocab, seed, low, context);
    let more = blended(vocab, seed, high, context);
    lemma_blend_sums(vocab, seed, low, context);
    lemma_blend_sums(vocab, seed, high, context);
    law_agreement_raises_acceptance(vocab, seed, context, low, high);
    law_acceptance_in_proportion(p, less);
    law_acceptance_in_proportion(p, more);
    let (a, b) = (total(overlap(p, less)), total(overlap(p, more)));
    assert(a * (d * d) <= b * (d * d)) by (nonlinear_arith)
        requires
            a <= b,
            d > 0,
    ;
}

/// The base distribution: each token has the part of one that its weight has of all
/// weights, to within a unit, where the weights are those of the draws of the
/// generator seeded with the model's seed times the multiplier, and the context.
pub proof fn law_base_in_proportion(vocab: nat, seed: u64, context: usize, i: int)
    requires
        0 <= i < vocab,
    ensures
        ({
            let s = seeded(seed.wrapping_mul(0x100_0000_01B3).wrapping_add(context as u64));
            let b = base(vocab, seed, context);
            let w = Seq::new(vocab, |j: int| peaked_weight(s.after(j as nat).draw() as int));
            &&& b.len() == vocab
            &&& total(b) == ONE
            &&& w[i] * ONE - total(w) < b[i] * total(w) < w[i] * ONE + total(w)
            &&& vocab * MAX_WEIGHT <= WEIGHT_FLOOR * ONE ==> b[i] > 0
        }),
{
    let s = seeded(seed.wrapping_mul(0x100_0000_01B3).wrapping_add(context as u64));
    let w = Seq::new(vocab, |j: int| peaked_weight(s.after(j as nat).draw() as int));
    assert(w =~= peaked_weights(s, vocab));
    lemma_peaked_is_a_distribution(s, vocab);
    lemma_peaked_total(s, vocab);
    law_normalized_in_proportion(w, i);
    if vocab * MAX_WEIGHT <= WEIGHT_FLOOR * ONE {
        law_peaked_masses_are_positive(s, vocab, i);
    }
}

/// A model interpolates at its own agreement: each mass is that part of the base mass
/// and the rest of one over the number of tokens, rounded up to a unit.
pub proof fn law_blend_interpolates(
    vocab: nat,
    seed: u64,
    agreement: int,
    context: usize,
    i: int,
)
    requires
        0 <= agreement <= ONE,
        0 <= i < vocab,
    ensures
        ({
            let m = blended(vocab, seed, agreement, context);
            let exact = agreement * base(vocab, seed, context)[i] * vocab + (ONE - agreement) * ONE;
            &&& m.len() == vocab
            &&& exact <= vocab * ONE * m[i] < exact + vocab * ONE
        }),
{
    law_mixture_interpolates(base(vocab, seed, context), agreement, i);
    assert(base(vocab, seed, context).len() == vocab);
    assert(vocab * ONE == ONE * vocab);
}

/// What a model gives for a context: the base of its own seed and that context over
/// its own tokens, blended at its own agreement.
pub proof fn law_model_gives_its_blend(model: SyntheticModel, context: usize, i: int)
    requires
        0 <= model.agreement_value() <= ONE,
        0 <= i < model.tokens(),
    ensures
        ({
            let n = model.tokens();
            let a = model.agreement_value();
            let b = base(n, model.seed_value(), context);
            let m = model.distribution(context);
            let exact = a * b[i] * n + (ONE - a) * ONE;
            &&& m.len() == n
            &&& exact <= n * ONE * m[i] < exact + n * ONE
        }),
{
    law_blend_interpolates(
        model.tokens(),
        model.seed_value(),
        model.agreement_value(),
        context,
        i,
    );
}

/// Two models of one target: the mass that a draft has more of than a draft in less
/// agreement is the part of the agreement between them of what the base has more of
/// than the uniform distribution, to within a unit.
pub proof fn law_agreement_moves_masses(
    vocab: nat,
    seed: u64,
    context: usize,
    low: int,
    high: int,
    i: int,
)
    requires
        0 <= low <= high <= ONE,
        0 <= i < vocab,
    ensures
        ({
            let unit = vocab * ONE;
            let more = blended(vocab, seed, high, context)[i] - blended(
                vocab,
                seed,
                low,
                context,
            )[i];
            let exact = (high - low) * (vocab * base(vocab, seed, context)[i] - ONE);
            exact - unit < unit * more < exact + unit
        }),
{
    let b = base(vocab, seed, context)[i];
    let unit = vocab * ONE;
    law_blend_interpolates(vocab, seed, low, context, i);
    law_blend_interpolates(vocab, seed, high, context, i);
    let (x, y) = (blended(vocab, seed, low, context)[i], blended(vocab, seed, high, context)[i]);
    assert(unit * (y - x) == unit * y - unit * x) by (nonlinear_arith);
    assert((high * b * vocab + (ONE - high) * ONE) - (low * b * vocab + (ONE - low) * ONE) == (high
        - low) * (vocab * b - ONE)) by (nonlinear_arith);
}

} // verus!
