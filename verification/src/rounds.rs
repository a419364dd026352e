//! Simulation of verification rounds.
//!
//! In a round the draft proposes up to `k` tokens, one at a time; the round ends
//! at the first rejected one, whose resampled token counts, or after `k`
//! accepted ones with a bonus token from the target.
use vstd::prelude::*;

use crate::fixed::scaled;
use crate::mass::{ints, lemma_index_of, lemma_positives_cover, sum_signed, total};
use crate::preservation::{law_step_succeeds, lemma_draw_in_range, lemma_scaled_in_range};
use crate::rng::{index_for, sampled, Rng, RngState};
use crate::sampling::{
    accept_draft, is_residual, resample, residual_distribution, step, Distribution, SamplingError,
    StepOutcome,
};

verus! {

/// What the drafts of one round come to.
pub struct Drafts {
    /// The error that ended the round, if any.
    pub failure: Option<SamplingError>,
    /// The positions examined.
    pub examined: nat,
    /// The positions accepted.
    pub accepted: nat,
    /// Whether a draft was rejected.
    pub rejected: bool,
    /// The generator's state afterwards.
    pub state: RngState,
}

/// What a number of rounds comes to.
pub struct Tally {
    /// The error that ended the simulation, if any.
    pub failure: Option<SamplingError>,
    /// The tokens emitted.
    pub emitted: nat,
    /// The positions examined.
    pub examined: nat,
    /// The positions accepted.
    pub accepted: nat,
    /// The generator's state afterwards.
    pub state: RngState,
}

/// Up to `k` drafts: each is sampled from `q` and put through a step, until one
/// is rejected.
pub open spec fn drafts(p: Seq<int>, q: Seq<int>, k: nat, s: RngState) -> Drafts
    decreases k,
{
    if k == 0 {
        Drafts { failure: None, examined: 0, accepted: 0, rejected: false, state: s }
    } else {
        match sampled(q, s) {
            (None, s1) => Drafts {
                failure: Some(SamplingError::DegenerateDistribution),
                examined: 0,
                accepted: 0,
                rejected: false,
                state: s1,
            },
            (Some(x), s1) => match step(p, q, x as int, s1) {
                (Err(e), s2) => Drafts {
                    failure: Some(e),
                    examined: 1,
                    accepted: 0,
                    rejected: false,
                    state: s2,
                },
                (Ok((_, StepOutcome::Resampled)), s2) => Drafts {
                    failure: None,
                    examined: 1,
                    accepted: 0,
                    rejected: true,
                    state: s2,
                },
                (Ok((_, StepOutcome::Accepted)), s2) => {
                    let rest = drafts(p, q, (k - 1) as nat, s2);
                    Drafts {
                        examined: rest.examined + 1,
                        accepted: rest.accepted + 1,
                        ..rest
                    }
                },
            },
        }
    }
}

/// One round: its drafts, and the bonus token where none of them is rejected.
pub open spec fn round(p: Seq<int>, q: Seq<int>, k: nat, s: RngState) -> Tally {
    let d = drafts(p, q, k, s);
    let bonus = sampled(p, d.state);
    Tally {
        failure: if d.failure is Some || d.rejected {
            d.failure
        } else if bonus.0 is None {
            Some(SamplingError::DegenerateDistribution)
        } else {
            None
        },
        emitted: d.accepted + 1,
        examined: d.examined,
        accepted: d.accepted,
        state: if d.failure is Some || d.rejected {
            d.state
        } else {
            bonus.1
        },
    }
}

/// `n` rounds in succession, up to the first failure.
pub open spec fn simulation(p: Seq<int>, q: Seq<int>, k: nat, n: nat, s: RngState) -> Tally
    decreases n,
{
    if n == 0 {
        Tally { failure: None, emitted: 0, examined: 0, accepted: 0, state: s }
    } else {
        let first = round(p, q, k, s);
        if first.failure is Some {
            first
        } else {
            let rest = simulation(p, q, k, (n - 1) as nat, first.state);
            Tally {
                emitted: first.emitted + rest.emitted,
                examined: first.examined + rest.examined,
                accepted: first.accepted + rest.accepted,
                ..rest
            }
        }
    }
}

/// Counters of simulated rounds.
#[derive(Debug, Clone, Copy)]
pub struct RoundStats {
    pub tokens_emitted: u128,
    pub positions_examined: u128,
    pub positions_accepted: u128,
}

/// A round examines one position more than it accepts at most, and `k` at most.
pub proof fn lemma_drafts_counts(p: Seq<int>, q: Seq<int>, k: nat, s: RngState)
    ensures
        ({
            let d = drafts(p, q, k, s);
            &&& d.accepted <= d.examined <= k
            &&& d.examined <= d.accepted + 1
            &&& d.failure is None ==> (d.rejected <==> d.examined == d.accepted + 1)
            &&& d.failure is None && !d.rejected ==> d.accepted == k
        }),
    decreases k,
{
    if k > 0 {
        if let (Some(x), s1) = sampled(q, s) {
            if let (Ok((_, StepOutcome::Accepted)), s2) = step(p, q, x as int, s1) {
                lemma_drafts_counts(p, q, (k - 1) as nat, s2);
            }
        }
    }
}

/// Accounting: every round emits its accepted tokens and one more, examines at
/// most `k` positions, and rejects at most one.
pub proof fn law_rounds_account(p: Seq<int>, q: Seq<int>, k: nat, n: nat, s: RngState)
    requires
        simulation(p, q, k, n, s).failure is None,
    ensures
        ({
            let t = simulation(p, q, k, n, s);
            &&& t.emitted == t.accepted + n
            &&& t.accepted <= t.examined <= t.accepted + n
            &&& t.examined <= n * k
            &&& n <= t.emitted <= n * (k + 1)
        }),
    decreases n,
{
    if n > 0 {
        let first = round(p, q, k, s);
        lemma_drafts_counts(p, q, k, s);
        law_rounds_account(p, q, k, (n - 1) as nat, first.state);
        assert(n * k == (n - 1) * k + k) by (nonlinear_arith);
        assert(n * (k + 1) == n * k + n) by (nonlinear_arith);
    } else {
        assert(n * k == 0 && n * (k + 1) == 0) by (nonlinear_arith)
            requires
                n == 0,
        ;
    }
}

/// Sampling from weights of a positive total gives a token of positive weight.
pub proof fn lemma_sampling_succeeds(w: Seq<int>, s: RngState)
    requires
        total(w) > 0,
        w.len() <= usize::MAX,
    ensures
        sampled(w, s).0 matches Some(x) && x < w.len() && w[x as int] > 0,
{
    lemma_draw_in_range(s);
    lemma_scaled_in_range(total(w), s.draw() as int);
    lemma_positives_cover(w);
    lemma_index_of(w, scaled(total(w), s.draw() as int));
}

proof fn lemma_drafts_succeed(p: Seq<int>, q: Seq<int>, k: nat, s: RngState)
    requires
        total(p) > 0,
        total(q) > 0,
        p.len() == q.len() <= usize::MAX,
    ensures
        drafts(p, q, k, s).failure is None,
    decreases k,
{
    if k > 0 {
        lemma_sampling_succeeds(q, s);
        let (x, s1) = (sampled(q, s).0->0, sampled(q, s).1);
        law_step_succeeds(p, q, x as int, s1);
        lemma_drafts_succeed(p, q, (k - 1) as nat, step(p, q, x as int, s1).1);
    }
}

/// Simulating a target and a draft of positive total mass over the same tokens
/// never fails.
pub proof fn law_simulation_succeeds(p: Seq<int>, q: Seq<int>, k: nat, n: nat, s: RngState)
    requires
        total(p) > 0,
        total(q) > 0,
        p.len() == q.len() <= usize::MAX,
    ensures
        simulation(p, q, k, n, s).failure is None,
    decreases n,
{
    if n > 0 {
        lemma_drafts_succeed(p, q, k, s);
        lemma_sampling_succeeds(p, drafts(p, q, k, s).state);
        law_simulation_succeeds(p, q, k, (n - 1) as nat, round(p, q, k, s).state);
    }
}

/// Samples a token from weights of a known total.
fn sample_summed(w: &[i64], sum: i128, rng: &mut Rng) -> (r: Result<usize, SamplingError>)
    requires
        sum == total(ints(w@)),
    ensures
        final(rng)@ == sampled(ints(w@), old(rng)@).1,
        match sampled(ints(w@), old(rng)@).0 {
            Some(token) => r == Ok::<usize, SamplingError>(token) && token < w@.len(),
            None => r == Err::<usize, SamplingError>(SamplingError::DegenerateDistribution),
        },
{
    if sum <= 0 {
        return Err(SamplingError::DegenerateDistribution);
    }
    let draw: u64 = rng.next_f64();
    Ok(index_for(w, sum as u128, draw))
}

/// Performs a speculative step with the residual at hand.
fn step_prepared(
    p: &[i64],
    q: &[i64],
    x: usize,
    prepared: &Result<Distribution, SamplingError>,
    rng: &mut Rng,
) -> (r: Result<StepOutcome, SamplingError>)
    requires
        is_residual(*prepared, ints(p@), ints(q@)),
    ensures
        final(rng)@ == step(ints(p@), ints(q@), x as int, old(rng)@).1,
        match step(ints(p@), ints(q@), x as int, old(rng)@).0 {
            Ok((_, outcome)) => r == Ok::<StepOutcome, SamplingError>(outcome),
            Err(e) => r == Err::<StepOutcome, SamplingError>(e),
        },
{
    if p.len() != q.len() || x >= p.len() {
        return Err(SamplingError::LengthMismatch);
    }
    let draw: u64 = rng.next_f64();
    if accept_draft(p[x], q[x], draw) {
        return Ok(StepOutcome::Accepted);
    }
    match prepared {
        Err(e) => Err(*e),
        Ok(d) => {
            let _token: usize = resample(d, rng);
            Ok(StepOutcome::Resampled)
        },
    }
}

/// Simulates `rounds` verification rounds of draft length `k`.
///
/// # Errors
///
/// Those of sampling and of the speculative step; there are none where `p` and
/// `q` are masses of a positive total over the same tokens.
pub fn simulate_rounds(p: &[i64], q: &[i64], k: u32, rounds: u64, rng: &mut Rng) -> (r: Result<
    RoundStats,
    SamplingError,
>)
    ensures
        ({
            let t = simulation(ints(p@), ints(q@), k as nat, rounds as nat, old(rng)@);
            &&& final(rng)@ == t.state
            &&& match r {
                Ok(stats) => {
                    &&& t.failure is None
                    &&& stats.tokens_emitted == t.emitted
                    &&& stats.positions_examined == t.examined
                    &&& stats.positions_accepted == t.accepted
                },
                Err(e) => t.failure == Some(e),
            }
        }),
{
    let ghost pv = ints(p@);
    let ghost qv = ints(q@);
    let ghost all = simulation(pv, qv, k as nat, rounds as nat, rng@);
    let p_sum: i128 = sum_signed(p);
    let q_sum: i128 = sum_signed(q);
    let prepared: Result<Distribution, SamplingError> = residual_distribution(p, q);
    let mut stats = RoundStats {
        tokens_emitted: 0,
        positions_examined: 0,
        positions_accepted: 0,
    };
    let mut done: u64 = 0;
    while done < rounds
        invariant
            done <= rounds,
            pv == ints(p@),
            qv == ints(q@),
            p_sum == total(pv),
            q_sum == total(qv),
            is_residual(prepared, pv, qv),
            all == simulation(pv, qv, k as nat, rounds as nat, old(rng)@),
            ({
                let rest = simulation(pv, qv, k as nat, (rounds - done) as nat, rng@);
                &&& all.failure == rest.failure
                &&& all.state == rest.state
                &&& all.failure is None ==> {
                    &&& all.emitted == stats.tokens_emitted + rest.emitted
                    &&& all.examined == stats.positions_examined + rest.examined
                    &&& all.accepted == stats.positions_accepted + rest.accepted
                }
            }),
            stats.tokens_emitted <= done * (u32::MAX + 1),
            stats.positions_examined <= done * u32::MAX,
            stats.positions_accepted <= done * u32::MAX,
        decreases rounds - done,
    {
        let ghost start = rng@;
        let ghost whole = drafts(pv, qv, k as nat, start);
        let mut examined: u32 = 0;
        let mut accepted: u32 = 0;
        let mut rejected: bool = false;
        while examined < k && !rejected
            invariant
                examined <= k,
                accepted <= examined,
                !rejected ==> accepted == examined,
                pv == ints(p@),
                qv == ints(q@),
                q_sum == total(qv),
                is_residual(prepared, pv, qv),
                whole == drafts(pv, qv, k as nat, start),
                done < rounds,
                all == simulation(pv, qv, k as nat, rounds as nat, old(rng)@),
                ({
                    let rest = simulation(pv, qv, k as nat, (rounds - done) as nat, start);
                    &&& all.failure == rest.failure
                    &&& all.state == rest.state
                }),
                ({
                    let rest = drafts(pv, qv, (k - examined) as nat, rng@);
                    if rejected {
                        &&& whole.failure is None
                        &&& whole.examined == examined
                        &&& whole.accepted == accepted
                        &&& whole.rejected
                        &&& whole.state == rng@
                    } else {
                        &&& whole.failure == rest.failure
                        &&& whole.examined == examined + rest.examined
                        &&& whole.accepted == accepted + rest.accepted
                        &&& whole.rejected == rest.rejected
                        &&& whole.state == rest.state
                    }
                }),
            decreases k - examined,
        {
            let x: usize = match sample_summed(q, q_sum, rng) {
                Ok(x) => x,
                Err(e) => {
                    return Err(e);
                },
            };
            examined = examined + 1;
            match step_prepared(p, q, x, &prepared, rng) {
                Ok(StepOutcome::Accepted) => {
                    accepted = accepted + 1;
                },
                Ok(StepOutcome::Resampled) => {
                    rejected = true;
                },
                Err(e) => {
                    return Err(e);
                },
            }
        }
        if !rejected {
            match sample_summed(p, p_sum, rng) {
                Ok(_bonus) => {},
                Err(e) => {
                    return Err(e);
                },
            }
        }
        stats = RoundStats {
            tokens_emitted: stats.tokens_emitted + accepted as u128 + 1,
            positions_examined: stats.positions_examined + examined as u128,
            positions_accepted: stats.positions_accepted + accepted as u128,
        };
        done = done + 1;
    }
    Ok(stats)
}

/// The drafts of a round, one by one: one draft more is a draft sampled from `q` and
/// put through a step, and, if that accepts it, as many drafts as before from the
/// state that it leaves. A rejected draft ends them, and so does an error.
pub proof fn law_drafts_follow_one_another(p: Seq<int>, q: Seq<int>, k: nat, s: RngState)
    ensures
        drafts(p, q, 0, s) == (Drafts {
            failure: None,
            examined: 0,
            accepted: 0,
            rejected: false,
            state: s,
        }),
        ({
            let d = drafts(p, q, k + 1, s);
            let (draft, between) = sampled(q, s);
            match draft {
                None => {
                    &&& d.failure == Some(SamplingError::DegenerateDistribution)
                    &&& d.state == between
                },
                Some(x) => match step(p, q, x as int, between) {
                    (Ok((_, StepOutcome::Accepted)), end) => {
                        let rest = drafts(p, q, k, end);
                        &&& d.failure == rest.failure
                        &&& d.examined == rest.examined + 1
                        &&& d.accepted == rest.accepted + 1
                        &&& d.rejected == rest.rejected
                        &&& d.state == rest.state
                    },
                    (Ok((_, StepOutcome::Resampled)), end) => {
                        &&& d.failure is None
                        &&& d.examined == 1
                        &&& d.accepted == 0
                        &&& d.rejected
                        &&& d.state == end
                    },
                    (Err(e), end) => d.failure == Some(e) && d.state == end,
                },
            }
        }),
{
}

/// A simulation, round by round: one round more adds the tokens, the examined and
/// the accepted drafts of the first to those of the others, which begin in the state
/// that the first leaves. A round emits its accepted drafts and one token: the
/// resampled one, or where none was rejected a bonus token sampled from `p`.
pub proof fn law_rounds_follow_one_another(
    p: Seq<int>,
    q: Seq<int>,
    k: nat,
    n: nat,
    s: RngState,
)
    ensures
        simulation(p, q, k, 0, s) == (Tally {
            failure: None,
            emitted: 0,
            examined: 0,
            accepted: 0,
            state: s,
        }),
        ({
            let t = simulation(p, q, k, n + 1, s);
            let d = drafts(p, q, k, s);
            let (bonus, after) = sampled(p, d.state);
            let end = if d.rejected {
                d.state
            } else {
                after
            };
            let rest = simulation(p, q, k, n, end);
            if d.failure is Some {
                t.failure == d.failure && t.state == d.state
            } else if !d.rejected && bonus is None {
                t.failure == Some(SamplingError::DegenerateDistribution) && t.state == after
            } else {
                &&& t.failure == rest.failure
                &&& t.state == rest.state
                &&& t.emitted == d.accepted + 1 + rest.emitted
                &&& t.examined == d.examined + rest.examined
                &&& t.accepted == d.accepted + rest.accepted
            }
        }),
{
}

/// A simulation may be interrupted: `m + n` rounds are `m` rounds, and `n` rounds
/// from the state that these leave.
pub proof fn law_simulations_continue(
    p: Seq<int>,
    q: Seq<int>,
    k: nat,
    m: nat,
    n: nat,
    s: RngState,
)
    requires
        simulation(p, q, k, m, s).failure is None,
    ensures
        ({
            let first = simulation(p, q, k, m, s);
            let rest = simulation(p, q, k, n, first.state);
            let whole = simulation(p, q, k, m + n, s);
            &&& whole.failure == rest.failure
            &&& whole.state == rest.state
            &&& whole.failure is None ==> {
                &&& whole.emitted == first.emitted + rest.emitted
                &&& whole.examined == first.examined + rest.examined
                &&& whole.accepted == first.accepted + rest.accepted
            }
        }),
    decreases m,
{
    if m > 0 {
        let head = round(p, q, k, s);
        law_simulations_continue(p, q, k, (m - 1) as nat, n, head.state);
        assert((m + n - 1) as nat == (m - 1) as nat + n);
    }
}

} // verus!
