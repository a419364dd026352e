//! Deterministic pseudo-random numbers: `xoshiro256**` seeded by `SplitMix64`.
use vstd::arithmetic::div_mod::lemma_fundamental_div_mod;
use vstd::prelude::*;

use crate::fixed::{scale_by_draw, scaled};
use crate::mass::{
    falls_on, index_of, ints, lemma_index_of, lemma_positives_cover, locate_signed, positives,
    prefix, sum_signed, total,
};

verus! {

/// The number of equally likely values of a uniform draw, `2^53`.
pub const DRAWS: u64 = 9_007_199_254_740_992;

/// The 256 bits that a generator carries from one draw to the next.
#[derive(Debug, Clone, Copy)]
pub struct RngState {
    pub s0: u64,
    pub s1: u64,
    pub s2: u64,
    pub s3: u64,
}

/// `x` rotated left by `k` bits.
pub open spec fn rotl(x: u64, k: u64) -> u64 {
    (x << k) | (x >> ((64 - k) as u64))
}

/// The `SplitMix64` counter after one step.
pub open spec fn splitmix_advance(counter: u64) -> u64 {
    counter.wrapping_add(0x9E37_79B9_7F4A_7C15)
}

/// The `SplitMix64` output for a counter value.
pub open spec fn splitmix_mix(counter: u64) -> u64 {
    let a = (counter ^ (counter >> 30)).wrapping_mul(0xBF58_476D_1CE4_E5B9);
    let b = (a ^ (a >> 27)).wrapping_mul(0x94D0_49BB_1331_11EB);
    b ^ (b >> 31)
}

/// The state that a seed expands to: four successive `SplitMix64` outputs.
pub open spec fn seeded(seed: u64) -> RngState {
    let c0 = splitmix_advance(seed);
    let c1 = splitmix_advance(c0);
    let c2 = splitmix_advance(c1);
    let c3 = splitmix_advance(c2);
    RngState {
        s0: splitmix_mix(c0),
        s1: splitmix_mix(c1),
        s2: splitmix_mix(c2),
        s3: splitmix_mix(c3),
    }
}

impl RngState {
    /// The 64 bits that `xoshiro256**` puts out in this state.
    pub open spec fn output(self) -> u64 {
        rotl(self.s1.wrapping_mul(5), 7).wrapping_mul(9)
    }

    /// The state that follows this one.
    pub open spec fn next(self) -> RngState {
        let t2 = self.s2 ^ self.s0;
        let t3 = self.s3 ^ self.s1;
        RngState {
            s0: self.s0 ^ t3,
            s1: self.s1 ^ t2,
            s2: t2 ^ (self.s1 << 17),
            s3: rotl(t3, 45),
        }
    }

    /// The uniform draw made in this state: the draw stands for the number
    /// `draw() / DRAWS` in `[0, 1)`.
    pub open spec fn draw(self) -> u64 {
        self.output() >> 11
    }

    /// The state after `n` draws.
    pub open spec fn after(self, n: nat) -> RngState
        decreases n,
    {
        if n == 0 {
            self
        } else {
            self.after((n - 1) as nat).next()
        }
    }
}

/// The index that a uniform draw selects from weights: the draw scales the
/// total to a threshold, and the threshold falls on the index. There is none
/// where the total is not positive.
pub open spec fn categorical(w: Seq<int>, draw: int) -> Option<usize> {
    if total(w) <= 0 {
        None
    } else {
        Some(index_of(w, scaled(total(w), draw)) as usize)
    }
}

/// What sampling from weights gives in a state, and the state it leaves. No
/// draw is made from weights without a positive total.
pub open spec fn sampled(w: Seq<int>, s: RngState) -> (Option<usize>, RngState) {
    (
        categorical(w, s.draw() as int),
        if total(w) <= 0 {
            s
        } else {
            s.next()
        },
    )
}

/// A deterministic generator: its stream is a function of its seed.
#[derive(Debug)]
pub struct Rng {
    state: RngState,
}

impl View for Rng {
    type V = RngState;

    closed spec fn view(&self) -> RngState {
        self.state
    }
}

impl Clone for Rng {
    fn clone(&self) -> (copy: Rng)
        ensures
            copy@ == self@,
    {
        Rng { state: self.state }
    }
}

fn rotate_left(x: u64, k: u64) -> (r: u64)
    requires
        0 < k < 64,
    ensures
        r == rotl(x, k),
{
    (x << k) | (x >> (64 - k))
}

fn splitmix_output(counter: u64) -> (r: u64)
    ensures
        r == splitmix_mix(counter),
{
    let a: u64 = (counter ^ (counter >> 30)).wrapping_mul(0xBF58_476D_1CE4_E5B9);
    let b: u64 = (a ^ (a >> 27)).wrapping_mul(0x94D0_49BB_1331_11EB);
    b ^ (b >> 31)
}

/// Selects an index from weights of a known total by a uniform draw.
pub(crate) fn index_for(weights: &[i64], sum: u128, draw: u64) -> (index: usize)
    requires
        sum == total(ints(weights@)),
        sum > 0,
        draw < DRAWS,
    ensures
        categorical(ints(weights@), draw as int) == Some(index),
        falls_on(ints(weights@), scaled(sum as int, draw as int), index as int),
        index < weights@.len(),
        weights@[index as int] > 0,
{
    proof {
        lemma_positives_cover(ints(weights@));
    }
    locate_signed(weights, scale_by_draw(sum, draw))
}

/// Selects an index from weights by a uniform draw.
///
/// The weights need not be normalized, and an index of non-positive weight is
/// never selected. Returns `None` if the total weight is not positive.
#[must_use]
pub fn categorical_index(weights: &[i64], draw: u64) -> (r: Option<usize>)
    requires
        draw < DRAWS,
    ensures
        r == categorical(ints(weights@), draw as int),
        r is None <==> total(ints(weights@)) <= 0,
        r matches Some(index) ==> {
            &&& falls_on(
                ints(weights@),
                scaled(total(ints(weights@)), draw as int),
                index as int,
            )
            &&& index < weights@.len()
            &&& weights@[index as int] > 0
        },
{
    let sum: i128 = sum_signed(weights);
    if sum <= 0 {
        return None;
    }
    Some(index_for(weights, sum as u128, draw))
}

impl Rng {
    /// Creates a generator from a single 64-bit seed, which `SplitMix64`
    /// expands to the 256-bit state.
    #[must_use]
    pub fn new(seed: u64) -> (rng: Rng)
        ensures
            rng@ == seeded(seed),
    {
        let c0: u64 = seed.wrapping_add(0x9E37_79B9_7F4A_7C15);
        let c1: u64 = c0.wrapping_add(0x9E37_79B9_7F4A_7C15);
        let c2: u64 = c1.wrapping_add(0x9E37_79B9_7F4A_7C15);
        let c3: u64 = c2.wrapping_add(0x9E37_79B9_7F4A_7C15);
        Rng {
            state: RngState {
                s0: splitmix_output(c0),
                s1: splitmix_output(c1),
                s2: splitmix_output(c2),
                s3: splitmix_output(c3),
            },
        }
    }

    /// Puts out the next 64 bits of the stream.
    pub fn next_u64(&mut self) -> (r: u64)
        ensures
            r == old(self)@.output(),
            final(self)@ == old(self)@.next(),
    {
        let s: RngState = self.state;
        let r: u64 = rotate_left(s.s1.wrapping_mul(5), 7).wrapping_mul(9);
        let t2: u64 = s.s2 ^ s.s0;
        let t3: u64 = s.s3 ^ s.s1;
        self.state = RngState {
            s0: s.s0 ^ t3,
            s1: s.s1 ^ t2,
            s2: t2 ^ (s.s1 << 17),
            s3: rotate_left(t3, 45),
        };
        r
    }

    /// Draws a uniform number in `[0, 1)` on the 53-bit grid of a double.
    ///
    /// The result is the numerator over `DRAWS`: it stands for the number
    /// `result / 2^53`.
    #[must_use]
    pub fn next_f64(&mut self) -> (draw: u64)
        ensures
            draw == old(self)@.draw(),
            draw < DRAWS,
            final(self)@ == old(self)@.next(),
    {
        let bits: u64 = self.next_u64();
        assert((bits >> 11) < 9_007_199_254_740_992) by (bit_vector);
        bits >> 11
    }

    /// Samples an index from the categorical distribution that `weights` are
    /// proportional to.
    ///
    /// The weights need not be normalized; only their relative magnitudes
    /// matter. Returns `None`, without drawing, if `weights` is empty or its
    /// total is not positive.
    #[must_use]
    pub fn sample_categorical(&mut self, weights: &[i64]) -> (r: Option<usize>)
        ensures
            (r, final(self)@) == sampled(ints(weights@), old(self)@),
            r is None <==> total(ints(weights@)) <= 0,
            r matches Some(index) ==> index < weights@.len() && weights@[index as int] > 0,
    {
        let sum: i128 = sum_signed(weights);
        if sum <= 0 {
            return None;
        }
        let draw: u64 = self.next_f64();
        Some(index_for(weights, sum as u128, draw))
    }
}

/// Wrapping multiplication by a factor that has an inverse loses nothing.
proof fn lemma_wrapping_mul_injective(x: u64, y: u64, factor: u64, inverse: u64, wraps: int)
    requires
        factor * inverse == 1 + wraps * 0x1_0000_0000_0000_0000,
        x.wrapping_mul(factor) == y.wrapping_mul(factor),
    ensures
        x == y,
{
    let m = 0x1_0000_0000_0000_0000int;
    let a = x * factor;
    let b = y * factor;
    lemma_fundamental_div_mod(a, m);
    lemma_fundamental_div_mod(b, m);
    let z = (a / m - b / m) * inverse - (x - y) * wraps;
    assert(x - y == m * z) by (nonlinear_arith)
        requires
            factor * inverse == 1 + wraps * m,
            a == x * factor,
            b == y * factor,
            a - b == m * (a / m - b / m),
            z == (a / m - b / m) * inverse - (x - y) * wraps,
    {
        assert((a - b) * inverse == (x - y) * (factor * inverse));
        assert((x - y) * (factor * inverse) == (x - y) + (x - y) * (wraps * m));
    }
    assert(z == 0) by (nonlinear_arith)
        requires
            x - y == m * z,
            -m < x - y < m,
            m > 0,
    ;
}

/// `SplitMix64` gives different outputs for different counters.
proof fn lemma_splitmix_injective(x: u64, y: u64)
    requires
        splitmix_mix(x) == splitmix_mix(y),
    ensures
        x == y,
{
    let x1 = x ^ (x >> 30);
    let y1 = y ^ (y >> 30);
    let x2 = x1.wrapping_mul(0xBF58_476D_1CE4_E5B9);
    let y2 = y1.wrapping_mul(0xBF58_476D_1CE4_E5B9);
    let x3 = x2 ^ (x2 >> 27);
    let y3 = y2 ^ (y2 >> 27);
    let x4 = x3.wrapping_mul(0x94D0_49BB_1331_11EB);
    let y4 = y3.wrapping_mul(0x94D0_49BB_1331_11EB);
    assert(x4 == y4) by (bit_vector)
        requires
            x4 ^ (x4 >> 31) == y4 ^ (y4 >> 31),
    ;
    lemma_wrapping_mul_injective(
        x3,
        y3,
        0x94D0_49BB_1331_11EB,
        0x319642b2d24d8ec3,
        0x1cd336eda85f1453,
    );
    assert(x2 == y2) by (bit_vector)
        requires
            x2 ^ (x2 >> 27) == y2 ^ (y2 >> 27),
    ;
    lemma_wrapping_mul_injective(
        x1,
        y1,
        0xBF58_476D_1CE4_E5B9,
        0x96de1b173f119089,
        0x70c3bca78f27f46c,
    );
    assert(x == y) by (bit_vector)
        requires
            x ^ (x >> 30) == y ^ (y >> 30),
    ;
}

/// Seeding loses nothing: different seeds give different states.
pub proof fn law_seeds_give_distinct_states(a: u64, b: u64)
    requires
        seeded(a) == seeded(b),
    ensures
        a == b,
{
    lemma_splitmix_injective(splitmix_advance(a), splitmix_advance(b));
}

/// Any seed, zero too, gives a usable state: its four words are all different,
/// so they are never all zero.
pub proof fn law_seeded_words_differ(seed: u64)
    ensures
        ({
            let s = seeded(seed);
            &&& s.s0 != s.s1
            &&& s.s0 != s.s2
            &&& s.s0 != s.s3
            &&& s.s1 != s.s2
            &&& s.s1 != s.s3
            &&& s.s2 != s.s3
        }),
{
    let s = seeded(seed);
    let c0 = splitmix_advance(seed);
    let c1 = splitmix_advance(c0);
    let c2 = splitmix_advance(c1);
    let c3 = splitmix_advance(c2);
    if s.s0 == s.s1 {
        lemma_splitmix_injective(c0, c1);
    }
    if s.s0 == s.s2 {
        lemma_splitmix_injective(c0, c2);
    }
    if s.s0 == s.s3 {
        lemma_splitmix_injective(c0, c3);
    }
    if s.s1 == s.s2 {
        lemma_splitmix_injective(c1, c2);
    }
    if s.s1 == s.s3 {
        lemma_splitmix_injective(c1, c3);
    }
    if s.s2 == s.s3 {
        lemma_splitmix_injective(c2, c3);
    }
}

/// A step loses nothing: different states have different successors, so two
/// streams never merge.
pub proof fn law_step_is_reversible(a: RngState, b: RngState)
    requires
        a.next() == b.next(),
    ensures
        a == b,
{
    let (a0, a1, a2, a3) = (a.s0, a.s1, a.s2, a.s3);
    let (b0, b1, b2, b3) = (b.s0, b.s1, b.s2, b.s3);
    let t = a3 ^ a1;
    let u = b3 ^ b1;
    assert(t == u) by (bit_vector)
        requires
            (t << 45u64) | (t >> 19u64) == (u << 45u64) | (u >> 19u64),
    ;
    assert(a0 == b0) by (bit_vector)
        requires
            a0 ^ t == b0 ^ u,
            t == u,
    ;
    let v = a2 ^ a0;
    let w = b2 ^ b0;
    assert(a1 == b1 && v == w) by (bit_vector)
        requires
            a1 ^ v == b1 ^ w,
            v ^ (a1 << 17u64) == w ^ (b1 << 17u64),
    ;
    assert(a2 == b2 && a3 == b3) by (bit_vector)
        requires
            a0 == b0,
            a1 == b1,
            a2 ^ a0 == b2 ^ b0,
            a3 ^ a1 == b3 ^ b1,
    ;
}

/// A state that is not all zero never turns all zero.
pub proof fn law_state_stays_nonzero(s: RngState)
    requires
        s != (RngState { s0: 0, s1: 0, s2: 0, s3: 0 }),
    ensures
        s.next() != (RngState { s0: 0, s1: 0, s2: 0, s3: 0 }),
{
    let zero = RngState { s0: 0, s1: 0, s2: 0, s3: 0 };
    assert(0u64 ^ 0u64 == 0 && 0u64 << 17u64 == 0 && (0u64 << 45u64) | (0u64 >> 19u64) == 0)
        by (bit_vector);
    assert(zero.next() == zero);
    if s.next() == zero {
        law_step_is_reversible(s, zero);
    }
}

/// `SplitMix64`: the first word of a state is the mixed sum of the seed and the
/// golden ratio, and the others are the first words of the seeds that follow in
/// steps of it.
pub proof fn law_seeding_is_splitmix(seed: u64)
    ensures
        ({
            let following = seed.wrapping_add(0x9E37_79B9_7F4A_7C15);
            let a = (following ^ (following >> 30u64)).wrapping_mul(0xBF58_476D_1CE4_E5B9);
            let b = (a ^ (a >> 27u64)).wrapping_mul(0x94D0_49BB_1331_11EB);
            &&& seeded(seed).s0 == b ^ (b >> 31u64)
            &&& seeded(seed).s1 == seeded(following).s0
            &&& seeded(seed).s2 == seeded(following).s1
            &&& seeded(seed).s3 == seeded(following).s2
        }),
{
}

/// `xoshiro256**`: the output is the second word times five, rotated by seven bits,
/// times nine.
pub proof fn law_output_is_scrambled(s: RngState)
    ensures
        ({
            let x = (s.s1 * 5) % 0x1_0000_0000_0000_0000;
            let y = (x * 128) % 0x1_0000_0000_0000_0000 + x / 0x200_0000_0000_0000;
            s.output() == (y * 9) % 0x1_0000_0000_0000_0000
        }),
{
    let x = s.s1.wrapping_mul(5);
    let y = (x << 7u64) | (x >> 57u64);
    assert(y == (x * 128) % 0x1_0000_0000_0000_0000 + x / 0x200_0000_0000_0000) by (bit_vector)
        requires
            y == (x << 7u64) | (x >> 57u64),
    ;
    assert(x == (s.s1 * 5) % 0x1_0000_0000_0000_0000);
}

/// `xoshiro256**` is linear: the successor of the exclusive or of two states is that
/// of their successors.
pub proof fn law_step_is_linear(a: RngState, b: RngState)
    ensures
        ({
            let sum = RngState {
                s0: a.s0 ^ b.s0,
                s1: a.s1 ^ b.s1,
                s2: a.s2 ^ b.s2,
                s3: a.s3 ^ b.s3,
            };
            sum.next() == (RngState {
                s0: a.next().s0 ^ b.next().s0,
                s1: a.next().s1 ^ b.next().s1,
                s2: a.next().s2 ^ b.next().s2,
                s3: a.next().s3 ^ b.next().s3,
            })
        }),
{
    let (a0, a1, a2, a3) = (a.s0, a.s1, a.s2, a.s3);
    let (b0, b1, b2, b3) = (b.s0, b.s1, b.s2, b.s3);
    assert((a0 ^ b0) ^ ((a3 ^ b3) ^ (a1 ^ b1)) == (a0 ^ (a3 ^ a1)) ^ (b0 ^ (b3 ^ b1)))
        by (bit_vector);
    assert((a1 ^ b1) ^ ((a2 ^ b2) ^ (a0 ^ b0)) == (a1 ^ (a2 ^ a0)) ^ (b1 ^ (b2 ^ b0)))
        by (bit_vector);
    assert(((a2 ^ b2) ^ (a0 ^ b0)) ^ ((a1 ^ b1) << 17u64) == ((a2 ^ a0) ^ (a1 << 17u64)) ^ ((b2
        ^ b0) ^ (b1 << 17u64))) by (bit_vector);
    assert((((a3 ^ b3) ^ (a1 ^ b1)) << 45u64) | (((a3 ^ b3) ^ (a1 ^ b1)) >> 19u64) == (((a3 ^ a1)
        << 45u64) | ((a3 ^ a1) >> 19u64)) ^ (((b3 ^ b1) << 45u64) | ((b3 ^ b1) >> 19u64)))
        by (bit_vector);
}

/// `xoshiro256**`: where each word of a state goes. Words that are zero leave the
/// others alone, so with linearity this says all of a step.
pub proof fn law_step_by_word(x: u64)
    ensures
        (RngState { s0: x, s1: 0, s2: 0, s3: 0 }).next() == (RngState {
            s0: x,
            s1: x,
            s2: x,
            s3: 0,
        }),
        (RngState { s0: 0, s1: x, s2: 0, s3: 0 }).next() == (RngState {
            s0: x,
            s1: x,
            s2: x << 17u64,
            s3: (x << 45u64) | (x >> 19u64),
        }),
        (RngState { s0: 0, s1: 0, s2: x, s3: 0 }).next() == (RngState {
            s0: 0,
            s1: x,
            s2: x,
            s3: 0,
        }),
        (RngState { s0: 0, s1: 0, s2: 0, s3: x }).next() == (RngState {
            s0: x,
            s1: 0,
            s2: 0,
            s3: (x << 45u64) | (x >> 19u64),
        }),
{
    assert(x ^ 0u64 == x && 0u64 ^ x == x && 0u64 ^ 0u64 == 0) by (bit_vector);
    assert(0u64 << 17u64 == 0 && (0u64 << 45u64) | (0u64 >> 19u64) == 0) by (bit_vector);
    assert(0u64 ^ (x << 17u64) == x << 17u64) by (bit_vector);
}

/// A draw is the upper 53 bits of an output.
pub proof fn law_draw_is_the_upper_bits(s: RngState)
    ensures
        s.draw() * 2048 <= s.output() < s.draw() * 2048 + 2048,
{
    let bits = s.output();
    assert((bits >> 11) * 2048 <= bits < (bits >> 11) * 2048 + 2048) by (bit_vector);
}

/// The states of a stream follow one another: `m + n` draws are `m` draws and then
/// `n`, and one draw leaves the next state.
pub proof fn law_streams_continue(s: RngState, m: nat, n: nat)
    ensures
        s.after(0) == s,
        s.after(1) == s.next(),
        s.after(m + n) == s.after(m).after(n),
    decreases n,
{
    assert(s.after(1) == s.after(0).next());
    if n > 0 {
        law_streams_continue(s, m, (n - 1) as nat);
        assert(s.after(m + n) == s.after((m + n - 1) as nat).next());
    }
}

/// Selection by a draw: an index is selected where the part `draw / DRAWS` of the
/// total weight lies between the positive weights before it and those up to it.
/// There is none where the total weight is not positive.
pub proof fn law_selection_by_draw(w: Seq<int>, draw: int)
    requires
        w.len() <= usize::MAX,
        0 <= draw < DRAWS,
    ensures
        total(w) <= 0 ==> categorical(w, draw) is None,
        total(w) > 0 ==> {
            &&& categorical(w, draw) matches Some(i)
            &&& i < w.len()
            &&& w[i as int] > 0
            &&& prefix(positives(w), i as int) * DRAWS <= draw * total(w)
            &&& draw * total(w) < (prefix(positives(w), i as int) + w[i as int]) * DRAWS
        },
{
    if total(w) > 0 {
        let d = DRAWS as int;
        let n = draw * total(w);
        let t = scaled(total(w), draw);
        lemma_fundamental_div_mod(n, d);
        lemma_positives_cover(w);
        assert(0 <= t < total(w)) by (nonlinear_arith)
            requires
                n == d * t + n % d,
                0 <= n % d < d,
                n == draw * total(w),
                0 <= draw < d,
                total(w) > 0,
        ;
        lemma_index_of(w, t);
        let lo = prefix(positives(w), index_of(w, t));
        let hi = lo + w[index_of(w, t)];
        assert(lo * d <= n < hi * d) by (nonlinear_arith)
            requires
                n == d * t + n % d,
                0 <= n % d < d,
                lo <= t < hi,
        ;
    }
}

/// Sampling selects by the draw of the state and leaves the next state; from weights
/// without a positive total it makes no draw.
pub proof fn law_sampling_selects(w: Seq<int>, s: RngState)
    requires
        w.len() <= usize::MAX,
    ensures
        total(w) <= 0 ==> sampled(w, s) == (None::<usize>, s),
        total(w) > 0 ==> {
            &&& sampled(w, s).1 == s.next()
            &&& sampled(w, s).0 matches Some(i)
            &&& i < w.len()
            &&& w[i as int] > 0
            &&& prefix(positives(w), i as int) * DRAWS <= s.draw() * total(w)
            &&& s.draw() * total(w) < (prefix(positives(w), i as int) + w[i as int]) * DRAWS
        },
{
    let bits = s.output();
    assert((bits >> 11) < 9_007_199_254_740_992) by (bit_vector);
    law_selection_by_draw(w, s.draw() as int);
}

} // verus!
