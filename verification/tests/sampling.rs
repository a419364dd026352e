use speculative_decoding_bench::bench::{build_alpha_pair, measure_acceptance_rate};
use speculative_decoding_bench::fixed::ONE;
use speculative_decoding_bench::models::{Model, SyntheticModel};
use speculative_decoding_bench::rng::{categorical_index, Rng, DRAWS};
use speculative_decoding_bench::rounds::simulate_rounds;
use speculative_decoding_bench::sampling::{
    accept_draft, residual_distribution, sample_from, speculative_step, Distribution,
    SamplingError, StepOutcome,
};

fn masses(v: &[f64]) -> Vec<i64> {
    v.iter().map(|x| (x * 1e18).round() as i64).collect()
}

fn probability(d: &Distribution, i: usize) -> f64 {
    d.weights[i] as f64 / d.total as f64
}

fn approx(a: f64, b: f64, eps: f64) -> bool {
    (a - b).abs() < eps
}

#[test]
fn residual_sums_to_one() {
    let p = masses(&[0.5, 0.3, 0.2]);
    let q = masses(&[0.2, 0.5, 0.3]);
    let r = residual_distribution(&p, &q).expect("residual");
    let sum: f64 = (0..r.weights.len()).map(|i| probability(&r, i)).sum();
    assert!(approx(sum, 1.0, 1e-12), "residual sum was {sum}");
    // Only index 0 has positive p-q (0.3); others are clamped to zero.
    assert!(approx(probability(&r, 0), 1.0, 1e-12));
    assert!(approx(probability(&r, 1), 0.0, 1e-12));
    assert!(approx(probability(&r, 2), 0.0, 1e-12));
}

#[test]
fn residual_all_zero_falls_back_to_p() {
    // q == p everywhere => residual is all zeros => fall back to norm(p).
    let p = masses(&[0.25, 0.25, 0.5]);
    let q = p.clone();
    let r = residual_distribution(&p, &q).expect("residual fallback");
    let sum: f64 = (0..r.weights.len()).map(|i| probability(&r, i)).sum();
    assert!(approx(sum, 1.0, 1e-12));
    assert!(approx(probability(&r, 0), 0.25, 1e-12));
    assert!(approx(probability(&r, 2), 0.5, 1e-12));
}

#[test]
fn residual_q_dominates_p_falls_back() {
    // q strictly dominates p everywhere they differ; residual all zero.
    let p = masses(&[0.5, 0.5]);
    let q = masses(&[0.9, 0.1]);
    // index 0: max(0, -0.4)=0 ; index 1: max(0, 0.4)=0.4 -> not all zero.
    let r = residual_distribution(&p, &q).expect("residual");
    assert!(approx(probability(&r, 1), 1.0, 1e-12));
}

#[test]
fn residual_length_mismatch_errors() {
    let p = masses(&[0.5, 0.5]);
    let q = masses(&[1.0]);
    assert_eq!(
        residual_distribution(&p, &q).map(|d| d.weights),
        Err(SamplingError::LengthMismatch)
    );
}

#[test]
fn residual_empty_errors() {
    let p: Vec<i64> = vec![];
    let q: Vec<i64> = vec![];
    assert_eq!(
        residual_distribution(&p, &q).map(|d| d.weights),
        Err(SamplingError::Empty)
    );
}

#[test]
fn accept_when_p_ge_q() {
    // p(x) >= q(x) => acceptance probability is 1, always accepted.
    let p = masses(&[0.9, 0.1]);
    let q = masses(&[0.5, 0.5]);
    let mut rng = Rng::new(1);
    for _ in 0..100 {
        let (tok, outcome) = speculative_step(&p, &q, 0, &mut rng).expect("step");
        assert_eq!(tok, 0);
        assert_eq!(outcome, StepOutcome::Accepted);
    }
}

#[test]
fn residual_is_exact() {
    let r = residual_distribution(&[7, 3_000_000, 5_000_000], &[9, 1_000_000, 1_000_000]).unwrap();
    assert_eq!(r.weights, vec![0, 2_000_000, 4_000_000]);
    assert_eq!(r.total, 6_000_000);
}

#[test]
fn residual_of_the_least_excess() {
    // One unit of excess is an excess.
    let half = 500_000_000_000_000_000;
    let r = residual_distribution(&[half + 1, half - 1], &[half, half]).unwrap();
    assert_eq!(r.weights, vec![1, 0]);
    assert_eq!(r.total, 1);
    // None is not: the target's masses are what is left.
    let r = residual_distribution(&[half, half], &[half, half]).unwrap();
    assert_eq!(r.weights, vec![500_000_000_000_000_000; 2]);
    assert_eq!(r.total, 1_000_000_000_000_000_000);
}

#[test]
fn residual_of_a_dominated_target() {
    // 10^-13 of target mass under a draft of mass one: the target, normalized.
    let p = masses(&[1e-13]);
    assert_eq!(p, vec![100_000]);
    let r = residual_distribution(&p, &masses(&[1.0])).unwrap();
    assert!(approx(probability(&r, 0), 1.0, 1e-12));
    let r = residual_distribution(&[1, 3], &[9, 9]).unwrap();
    assert_eq!(r.weights, vec![1, 3]);
    assert_eq!(r.total, 4);
}

#[test]
fn residual_degenerate_errors() {
    for p in [[0, 0], [-3, 0], [-1, -1]] {
        assert_eq!(
            residual_distribution(&p, &[5, 5]).map(|d| d.weights),
            Err(SamplingError::DegenerateDistribution)
        );
    }
    // Any positive mass will do.
    assert_eq!(
        residual_distribution(&[1, -7], &[5, 5]).map(|d| d.weights),
        Ok(vec![1, 0])
    );
}

#[test]
fn residual_takes_the_whole_range() {
    let r = residual_distribution(&[i64::MAX, i64::MAX], &[i64::MIN, i64::MIN]).unwrap();
    assert_eq!(r.weights, vec![u64::MAX, u64::MAX]);
    assert_eq!(r.total, 2 * u128::from(u64::MAX));
}

#[test]
fn acceptance_rule() {
    // p/q = 1/4: the first quarter of the draws accepts.
    assert!(accept_draft(1, 4, 0));
    assert!(accept_draft(1, 4, DRAWS / 4 - 1));
    assert!(!accept_draft(1, 4, DRAWS / 4));
    // p >= q: every draw accepts.
    assert!(accept_draft(4, 4, DRAWS - 1));
    assert!(accept_draft(i64::MAX, 1, DRAWS - 1));
    // No draft mass: target mass decides.
    assert!(accept_draft(1, 0, DRAWS - 1));
    assert!(accept_draft(1, -3, DRAWS - 1));
    assert!(!accept_draft(0, 0, 0));
    // No target mass: never.
    assert!(!accept_draft(0, 4, 0));
    assert!(!accept_draft(-1, 4, 0));
}

#[test]
fn step_errors() {
    let mut rng = Rng::new(4);
    assert_eq!(
        speculative_step(&[1, 2], &[1], 0, &mut rng),
        Err(SamplingError::LengthMismatch)
    );
    assert_eq!(
        speculative_step(&[1, 2], &[1, 2], 2, &mut rng),
        Err(SamplingError::LengthMismatch)
    );
    // Neither of these made a draw.
    let mut fresh = Rng::new(4);
    assert_eq!(rng.next_u64(), fresh.next_u64());
    assert_eq!(
        speculative_step(&[0, 0], &[1, 1], 0, &mut rng),
        Err(SamplingError::DegenerateDistribution)
    );
}

#[test]
fn sampling_without_mass_errors() {
    let mut rng = Rng::new(4);
    assert_eq!(
        sample_from(&[], &mut rng),
        Err(SamplingError::DegenerateDistribution)
    );
    assert_eq!(
        sample_from(&[0, 0, 0], &mut rng),
        Err(SamplingError::DegenerateDistribution)
    );
    assert_eq!(sample_from(&[0, 9, 0], &mut rng), Ok(1));
}

#[test]
fn error_messages() {
    assert_eq!(
        SamplingError::LengthMismatch.message(),
        "distributions have mismatched lengths"
    );
    assert_eq!(SamplingError::Empty.message(), "distribution is empty");
    assert_eq!(
        SamplingError::DegenerateDistribution.message(),
        "distribution has non-positive total mass"
    );
}

#[test]
fn decoding_stream() {
    let p = masses(&[0.5, 0.3, 0.2]);
    let q = masses(&[0.2, 0.5, 0.3]);
    let a = StepOutcome::Accepted;
    let r = StepOutcome::Resampled;
    let expected = [
        (0, a),
        (0, a),
        (0, r),
        (1, a),
        (0, r),
        (0, a),
        (0, r),
        (0, r),
        (2, a),
        (0, a),
        (0, r),
        (0, a),
        (1, a),
        (0, a),
        (2, a),
        (1, a),
    ];
    let mut rng = Rng::new(9);
    for e in expected {
        let x = sample_from(&q, &mut rng).unwrap();
        assert_eq!(speculative_step(&p, &q, x, &mut rng), Ok(e));
    }
}

#[test]
fn emission_counts_are_exact() {
    // Every draft threshold, every acceptance rank and every residual threshold
    // counted once: the emitted tokens come out in the proportions of p.
    let p: [i64; 3] = [5_000_000, 3_000_000, 2_000_000];
    let q: [i64; 3] = [2_000_000, 5_000_000, 3_000_000];
    let d = residual_distribution(&p, &q).unwrap();
    for x in 0..3 {
        let mut mass: u128 = 0;
        for y in 0..3 {
            let shared = p[y].min(q[y]) as u128;
            if y == x {
                mass += shared * d.total;
            }
            mass += (q[y] as u128 - shared) * u128::from(d.weights[x]);
        }
        assert_eq!(mass, p[x] as u128 * d.total);
    }
}

#[test]
fn emitted_tokens_have_target_mass() {
    let p = [0, 600_000_000_000_000_000, 400_000_000_000_000_000, 0];
    let q = [250_000_000_000_000_000; 4];
    let mut rng = Rng::new(77);
    for _ in 0..10_000 {
        let x = sample_from(&q, &mut rng).unwrap();
        let (token, _) = speculative_step(&p, &q, x, &mut rng).unwrap();
        assert!(p[token] > 0);
    }
}

#[test]
fn emission_of_unequal_totals() {
    // The chance of a token is p(x) of the draft's total, corrected by the
    // difference of the totals in the proportions of the residual.
    let p: [i64; 3] = [50, 30, 20];
    for q in [[20, 50, 33], [20, 50, 25], [60, 30, 21]] {
        let d = residual_distribution(&p, &q).unwrap();
        let gap = q.iter().sum::<i64>() - 100;
        for x in 0..3 {
            let mut mass: i64 = 0;
            for y in 0..3 {
                let shared = p[y].min(q[y]);
                if y == x {
                    mass += shared * d.total as i64;
                }
                mass += (q[y] - shared) * d.weights[x] as i64;
            }
            assert_eq!(mass, p[x] * d.total as i64 + gap * d.weights[x] as i64);
        }
    }
}

/// The pairs of draws that draft a token from `q` and accept it.
fn accepted_pairs(p: &[i64], q: &[i64]) -> u128 {
    let draws = u128::from(DRAWS);
    let total: u128 = q.iter().map(|&x| x as u128).sum();
    let mut passed: u128 = 0;
    let mut pairs: u128 = 0;
    for (&px, &qx) in p.iter().zip(q) {
        let from = (passed * draws).div_ceil(total);
        passed += qx as u128;
        let to = (passed * draws).div_ceil(total);
        if qx > 0 {
            pairs += (to - from) * (px.min(qx) as u128 * draws).div_ceil(qx as u128);
        }
    }
    pairs
}

#[test]
fn accepted_pairs_are_the_overlap() {
    // Three quarters of the draws draft token 0, a third of which is accepted;
    // token 1 is always accepted. Together that is the overlap, one half.
    let (p, q) = ([1, 3], [3, 1]);
    assert_eq!(categorical_index(&q, DRAWS / 4 * 3 - 1), Some(0));
    assert_eq!(categorical_index(&q, DRAWS / 4 * 3), Some(1));
    assert!(accept_draft(1, 3, DRAWS / 3));
    assert!(!accept_draft(1, 3, DRAWS / 3 + 1));
    assert!(accept_draft(3, 1, DRAWS - 1));
    let draws = u128::from(DRAWS);
    let pairs = accepted_pairs(&p, &q);
    assert_eq!(
        pairs,
        draws / 4 * 3 * (draws / 3 + 1) + draws / 4 * draws
    );
    assert!(pairs.abs_diff(draws * draws / 2) <= 3 * draws);
}

#[test]
fn accepted_pairs_rise_with_agreement() {
    let target = SyntheticModel::target(31, 8, 0);
    let p = target.next_distribution(0);
    let draws = u128::from(DRAWS);
    let mut previous = 0;
    for agreement in [0.0, 0.1, 0.4, 0.8, 1.0] {
        let q = SyntheticModel::draft_from(&target, (agreement * 1e18) as i64, 0);
        let pairs = accepted_pairs(&p, &q.next_distribution(0));
        assert!(pairs > previous);
        previous = pairs;
    }
    assert_eq!(previous, draws * draws);
}

#[test]
fn accepted_pairs_of_an_exact_pair() {
    // The first draw decides: alpha parts of all draws, rounded up.
    let draws = u128::from(DRAWS);
    for alpha in [0, 1, 300_000_000_000_000_000, 999_999_999_999_999_999, ONE as i64] {
        let (p, q) = build_alpha_pair(10, alpha, 5);
        let first = (alpha as u128 * draws).div_ceil(u128::from(ONE));
        assert_eq!(accepted_pairs(&p, &q), first * draws);
    }
}

/// Takes draws one after another.
struct Stream(Rng);

impl Stream {
    fn draw(&mut self) -> u64 {
        self.0.next_f64()
    }

    /// Drafts a token from `q` and says whether it is accepted.
    fn pair(&mut self, p: &[i64], q: &[i64]) -> (usize, bool) {
        let y = categorical_index(q, self.draw()).unwrap();
        (y, accept_draft(p[y], q[y], self.draw()))
    }
}

#[test]
fn steps_follow_draws() {
    let p = masses(&[0.5, 0.3, 0.2]);
    let q = masses(&[0.2, 0.5, 0.3]);
    let w = [300_000_000_000_000_000, 0, 0];
    let mut rng = Rng::new(31);
    let mut stream = Stream(Rng::new(31));
    for _ in 0..2_000 {
        let x = sample_from(&q, &mut rng).unwrap();
        let (token, outcome) = speculative_step(&p, &q, x, &mut rng).unwrap();
        let (y, accepted) = stream.pair(&p, &q);
        let emitted = if accepted {
            y
        } else {
            categorical_index(&w, stream.draw()).unwrap()
        };
        assert_eq!(token, emitted);
        assert_eq!(outcome == StepOutcome::Accepted, accepted);
    }
}

#[test]
fn rounds_follow_draws() {
    let (p, q) = build_alpha_pair(12, 600_000_000_000_000_000, 3);
    for k in 0..5 {
        let mut stream = Stream(Rng::new(77));
        let mut emitted = 0;
        for _ in 0..300 {
            let mut left = k;
            while left > 0 && stream.pair(&p, &q).1 {
                emitted += 1;
                left -= 1;
            }
            // The resampled or the bonus token.
            stream.draw();
            emitted += 1;
        }
        let stats = simulate_rounds(&p, &q, k, 300, &mut Rng::new(77)).unwrap();
        assert_eq!(stats.tokens_emitted, emitted);
    }
}

#[test]
fn trials_follow_draws() {
    let target = SyntheticModel::target(9, 4, 0);
    let draft = SyntheticModel::draft_from(&target, 400_000_000_000_000_000, 0);
    let (p, q) = (target.next_distribution(0), draft.next_distribution(0));
    let mut stream = Stream(Rng::new(8));
    let mut accepted = 0;
    for _ in 0..1_000 {
        if stream.pair(&p, &q).1 {
            accepted += 1;
        } else {
            stream.draw();
        }
    }
    assert_eq!(
        measure_acceptance_rate(&target, &draft, 1_000, 8),
        Ok(accepted * u128::from(ONE) / 1_000)
    );
}
