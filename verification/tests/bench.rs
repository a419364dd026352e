use speculative_decoding_bench::analytical::optimal_k;
use speculative_decoding_bench::bench::{
    build_alpha_pair, cost_ratio_from_latencies, measure_acceptance_rate, run_sweep, BenchConfig,
    SweepResult, SweepRow,
};
use speculative_decoding_bench::cost::MeasuredSpeedup;
use speculative_decoding_bench::fixed::{Magnitude, ONE};
use speculative_decoding_bench::models::SyntheticModel;
use speculative_decoding_bench::rng::{categorical_index, Rng};
use speculative_decoding_bench::rounds::simulate_rounds;
use speculative_decoding_bench::sampling::{
    residual_distribution, sample_from, speculative_step, SamplingError, StepOutcome,
};

fn fixed(x: f64) -> i64 {
    (x * 1e18).round() as i64
}

fn float(v: i64) -> f64 {
    v as f64 / 1e18
}

fn speedup(whole: u128, units: u64) -> MeasuredSpeedup {
    MeasuredSpeedup::Finite {
        negative: false,
        magnitude: Magnitude::new(whole, units),
    }
}

#[test]
fn alpha_pair_has_requested_overlap() {
    for &alpha in &[0.3, 0.5, 0.7, 0.9] {
        let (p, q) = build_alpha_pair(64, fixed(alpha), 123);
        let overlap: f64 = p
            .iter()
            .zip(q.iter())
            .map(|(&a, &b)| float(a).min(float(b)))
            .sum();
        assert!(
            (overlap - alpha).abs() < 1e-9,
            "alpha={alpha} overlap={overlap}"
        );
        let ps: f64 = p.iter().map(|&x| float(x)).sum();
        let qs: f64 = q.iter().map(|&x| float(x)).sum();
        assert!((ps - 1.0).abs() < 1e-9);
        assert!((qs - 1.0).abs() < 1e-9);
    }
}

#[test]
fn small_sweep_runs() {
    let cfg = BenchConfig {
        rounds: 2000,
        ..BenchConfig::default()
    };
    let res = run_sweep(&cfg).expect("sweep");
    assert_eq!(res.rows.len(), 4 * 8);
    assert_eq!(res.optimal_per_alpha.len(), 4);
}

#[test]
fn alpha_pair_is_exact() {
    for vocab in [0, 1, 2, 3, 5, 64, 101] {
        for alpha in [-7, 0, 1, 333_333_333_333_333_333, fixed(0.9), ONE as i64, i64::MAX] {
            let (p, q) = build_alpha_pair(vocab, alpha, 99);
            assert_eq!(p.len(), vocab.max(2));
            assert_eq!(q.len(), vocab.max(2));
            assert_eq!(p.iter().sum::<i64>(), ONE as i64);
            assert_eq!(q.iter().sum::<i64>(), ONE as i64);
            let overlap: i64 = p.iter().zip(q.iter()).map(|(&a, &b)| a.min(b)).sum();
            assert_eq!(overlap, alpha.clamp(0, ONE as i64));
        }
    }
}

#[test]
fn known_alpha_pair() {
    let (p, q) = build_alpha_pair(5, fixed(0.3), 123);
    let ep = [0.03952922549465979, 0.9604707745053402, 0.0, 0.0, 0.0];
    let eq = [
        0.011858767648397937,
        0.28814123235160205,
        0.2333333333333333,
        0.2333333333333333,
        0.2333333333333333,
    ];
    for i in 0..5 {
        assert!((float(p[i]) - ep[i]).abs() < 1e-15);
        assert!((float(q[i]) - eq[i]).abs() < 1e-15);
    }
}

#[test]
fn pair_draft_in_proportion() {
    let (p, q) = build_alpha_pair(7, 333_333_333_333_333_333, 12);
    for i in 0..3 {
        let exact = p[i] as i128 * 333_333_333_333_333_333;
        assert!((q[i] as i128 * i128::from(ONE) - exact).abs() < i128::from(ONE));
    }
    for i in 3..7 {
        assert!((4 * q[i] - 666_666_666_666_666_667).abs() < 4);
    }
}

#[test]
fn pair_token_decides() {
    let (p, q) = build_alpha_pair(10, fixed(0.4), 8);
    let mut rng = Rng::new(21);
    for _ in 0..5_000 {
        let x = sample_from(&q, &mut rng).unwrap();
        let (token, outcome) = speculative_step(&p, &q, x, &mut rng).unwrap();
        assert_eq!(outcome == StepOutcome::Accepted, x < 5);
        assert!(token < 5);
    }
}

#[test]
fn pair_acceptance_draws() {
    // 0.3 of the draws is 2702159776422297.6: that many, rounded up, draft a
    // token of the first block.
    let (_p, q) = build_alpha_pair(64, fixed(0.3), 4);
    assert!(categorical_index(&q, 2_702_159_776_422_297).unwrap() < 32);
    assert!(categorical_index(&q, 2_702_159_776_422_298).unwrap() >= 32);
}

#[test]
fn pair_residual_is_target() {
    let alpha = fixed(0.7);
    let (p, q) = build_alpha_pair(20, alpha, 6);
    let d = residual_distribution(&p, &q).unwrap();
    assert_eq!(d.total, 300_000_000_000_000_000);
    for i in 0..20 {
        let exact = p[i] as f64 * 0.3;
        assert!((d.weights[i] as f64 - exact).abs() < 64.0);
        assert!((i < 10) || d.weights[i] == 0);
    }
}

#[test]
fn known_cell() {
    let seed: u64 = 0xB0BA_CAFEu64
        .wrapping_add(2 << 32)
        .wrapping_add(3 * 0x9E37_79B9);
    let (p, q) = build_alpha_pair(64, fixed(0.7), seed);
    let mut rng = Rng::new(seed ^ 0xDEAD_BEEF);
    let stats = simulate_rounds(&p, &q, 3, 1000, &mut rng).unwrap();
    assert_eq!(stats.tokens_emitted, 2503);
    assert_eq!(stats.positions_examined, 2167);
    assert_eq!(stats.positions_accepted, 1503);
}

#[test]
fn rounds_account() {
    let (p, q) = build_alpha_pair(16, fixed(0.6), 3);
    for k in 0..5 {
        let mut rng = Rng::new(1);
        let s = simulate_rounds(&p, &q, k, 700, &mut rng).unwrap();
        assert_eq!(s.tokens_emitted, s.positions_accepted + 700);
        assert!(s.positions_accepted <= s.positions_examined);
        assert!(s.positions_examined <= s.positions_accepted + 700);
        assert!(s.positions_examined <= 700 * u128::from(k));
    }
}

#[test]
fn simulation_errors() {
    let mut rng = Rng::new(1);
    let half = [fixed(0.5), fixed(0.5)];
    assert_eq!(
        simulate_rounds(&half, &[0, 0], 1, 1, &mut rng).map(|_| ()),
        Err(SamplingError::DegenerateDistribution)
    );
    assert_eq!(
        simulate_rounds(&half, &[ONE as i64], 1, 1, &mut rng).map(|_| ()),
        Err(SamplingError::LengthMismatch)
    );
    // A target without mass has no token to fall back on, nor a bonus token.
    assert_eq!(
        simulate_rounds(&[0, 0], &half, 1, 1, &mut rng).map(|_| ()),
        Err(SamplingError::DegenerateDistribution)
    );
    assert_eq!(
        simulate_rounds(&[0, 0], &half, 0, 1, &mut rng).map(|_| ()),
        Err(SamplingError::DegenerateDistribution)
    );
    // Without rounds nothing is sampled.
    assert!(simulate_rounds(&[], &[], 3, 0, &mut rng).is_ok());
}

#[test]
fn known_acceptance_rates() {
    let target = SyntheticModel::target(16, 42, 0);
    let mut previous = 0;
    for (agreement, accepted) in [
        (0.0, 1128u128),
        (0.25, 1385),
        (0.5, 1609),
        (0.75, 1774),
        (1.0, 2000),
    ] {
        let draft = SyntheticModel::draft_from(&target, fixed(agreement), 0);
        let rate = measure_acceptance_rate(&target, &draft, 2000, 99).unwrap();
        assert_eq!(rate, accepted * u128::from(ONE) / 2000);
        assert!(rate > previous);
        previous = rate;
    }
}

#[test]
fn acceptance_rate_edges() {
    let a = SyntheticModel::target(4, 1, 0);
    let b = SyntheticModel::target(5, 1, 0);
    assert_eq!(
        measure_acceptance_rate(&a, &b, 1, 0),
        Err(SamplingError::LengthMismatch)
    );
    assert_eq!(measure_acceptance_rate(&a, &b, 0, 0), Ok(0));
    assert_eq!(measure_acceptance_rate(&a, &a, 500, 0), Ok(u128::from(ONE)));
}

#[test]
fn cost_ratios() {
    assert_eq!(
        cost_ratio_from_latencies(10_000, 100_000),
        100_000_000_000_000_000
    );
    assert_eq!(cost_ratio_from_latencies(1, 3), 333_333_333_333_333_333);
    assert_eq!(cost_ratio_from_latencies(5, 0), 0);
    assert_eq!(
        cost_ratio_from_latencies(u64::MAX, 1),
        i128::from(u64::MAX) * i128::from(ONE)
    );
}

#[test]
fn sweep_edges() {
    let empty = BenchConfig {
        k_range: (5, 4),
        rounds: 10,
        ..BenchConfig::default()
    };
    let res = run_sweep(&empty).unwrap();
    assert_eq!(res.rows.len(), 0);
    assert_eq!(res.optimal_per_alpha.len(), 4);

    let plain = BenchConfig {
        k_range: (0, 0),
        rounds: 10,
        ..BenchConfig::default()
    };
    let res = run_sweep(&plain).unwrap();
    assert_eq!(res.rows.len(), 4);
    assert_eq!(res.optimal_per_alpha.len(), 0);
    for r in &res.rows {
        assert_eq!(r.alpha_measured, 0);
        assert_eq!(r.empirical_tokens, Some(u128::from(ONE)));
        assert_eq!(r.empirical_speedup, speedup(1, 0));
    }

    let idle = BenchConfig {
        k_range: (1, 1),
        rounds: 0,
        ..BenchConfig::default()
    };
    let res = run_sweep(&idle).unwrap();
    assert!(res.rows.iter().all(|r| r.empirical_tokens.is_none()));
    assert!(res
        .rows
        .iter()
        .all(|r| r.empirical_speedup == MeasuredSpeedup::Undefined));
    assert!(res.to_csv().contains(",NaN,"));
}

#[test]
fn sweep_names_the_optimum() {
    let cfg = BenchConfig {
        rounds: 1,
        ..BenchConfig::default()
    };
    let res = run_sweep(&cfg).unwrap();
    for (i, &(alpha, k, s)) in res.optimal_per_alpha.iter().enumerate() {
        assert_eq!(alpha, cfg.alphas[i]);
        assert_eq!(optimal_k(alpha, cfg.cost_ratio, 8), Some((k, s)));
    }
    let ks: Vec<u32> = res.optimal_per_alpha.iter().map(|e| e.1).collect();
    assert_eq!(ks, vec![1, 1, 3, 7]);
}

#[test]
fn default_sweep_table() {
    let res = run_sweep(&BenchConfig::default()).unwrap();
    let expected = "  k    alpha  alpha_hat     emp_tok     ana_tok     emp_spd     ana_spd
------------------------------------------------------------------------
  1     0.30     0.3007      1.3007      1.3000      1.084x      1.083x
  2     0.30     0.3000      1.3902      1.3900      0.993x      0.993x
  3     0.30     0.3007      1.4184      1.4170      0.887x      0.886x
  4     0.30     0.3000      1.4251      1.4251      0.792x      0.792x
  5     0.30     0.3018      1.4313      1.4275      0.716x      0.714x
  6     0.30     0.3009      1.4301      1.4283      0.650x      0.649x
  7     0.30     0.3017      1.4319      1.4285      0.597x      0.595x
  8     0.30     0.2995      1.4276      1.4285      0.549x      0.549x
  1     0.50     0.4982      1.4982      1.5000      1.248x      1.250x
  2     0.50     0.5000      1.7498      1.7500      1.250x      1.250x
  3     0.50     0.4990      1.8732      1.8750      1.171x      1.172x
  4     0.50     0.4991      1.9347      1.9375      1.075x      1.076x
  5     0.50     0.5012      1.9732      1.9688      0.987x      0.984x
  6     0.50     0.4995      1.9824      1.9844      0.901x      0.902x
  7     0.50     0.5004      1.9937      1.9922      0.831x      0.830x
  8     0.50     0.5010      2.0002      1.9961      0.769x      0.768x
  1     0.70     0.6973      1.6973      1.7000      1.414x      1.417x
  2     0.70     0.6995      2.1894      2.1900      1.564x      1.564x
  3     0.70     0.7010      2.5367      2.5330      1.585x      1.583x
  4     0.70     0.6990      2.7684      2.7731      1.538x      1.541x
  5     0.70     0.6997      2.9374      2.9412      1.469x      1.471x
  6     0.70     0.6996      3.0571      3.0588      1.390x      1.390x
  7     0.70     0.6996      3.1374      3.1412      1.307x      1.309x
  8     0.70     0.7007      3.2059      3.1988      1.233x      1.230x
  1     0.90     0.8988      1.8987      1.9000      1.582x      1.583x
  2     0.90     0.9005      2.7110      2.7100      1.936x      1.936x
  3     0.90     0.9005      3.4420      3.4390      2.151x      2.149x
  4     0.90     0.9002      4.0954      4.0951      2.275x      2.275x
  5     0.90     0.9001      4.6888      4.6856      2.344x      2.343x
  6     0.90     0.9003      5.2208      5.2170      2.373x      2.371x
  7     0.90     0.8999      5.6896      5.6953      2.371x      2.373x
  8     0.90     0.8998      6.1241      6.1258      2.355x      2.356x

Optimal k per acceptance rate (cost_ratio = 0.200):
  alpha = 0.30  ->  k* = 1  (analytical speedup 1.083x)
  alpha = 0.50  ->  k* = 1  (analytical speedup 1.250x)
  alpha = 0.70  ->  k* = 3  (analytical speedup 1.583x)
  alpha = 0.90  ->  k* = 7  (analytical speedup 2.373x)
";
    assert_eq!(res.to_table(), expected);
}

#[test]
fn csv_and_table_of_one_row() {
    let row = SweepRow {
        k: 12,
        alpha_target: -5_000_000_000_000_000,
        alpha_measured: 123_456_789_012_345_678,
        empirical_tokens: Some(2_000_000_500_000_000_000),
        analytical_tokens: 1_999_999_999_999_999_999,
        empirical_speedup: MeasuredSpeedup::Undefined,
        analytical_speedup: 10_000_001_500_000_000_000,
    };
    let res = SweepResult {
        rows: vec![row],
        optimal_per_alpha: vec![(fixed(0.125), 4, 1_234_500_000_000_000_000)],
        cost_ratio: -1_500_500_000_000_000_000,
    };
    assert_eq!(
        res.to_csv(),
        "k,alpha_target,alpha_measured,empirical_tokens,analytical_tokens,empirical_speedup,analytical_speedup\n\
         12,-0.0050,0.123457,2.000001,2.000000,NaN,10.000001\n"
    );
    assert_eq!(
        res.to_table().lines().nth(2),
        Some(" 12    -0.01     0.1235      2.0000      2.0000        NaNx     10.000x")
    );
    assert_eq!(
        res.to_table().lines().last(),
        Some("  alpha = 0.12  ->  k* = 4  (analytical speedup 1.234x)")
    );
}

#[test]
fn table_names_the_cost_ratio() {
    for (cost_ratio, text) in [
        (-1_500_500_000_000_000_000, "-1.500"),
        (-1, "-0.000"),
        (0, "0.000"),
        (200_000_000_000_000_000, "0.200"),
    ] {
        let res = SweepResult {
            rows: vec![],
            optimal_per_alpha: vec![],
            cost_ratio,
        };
        assert_eq!(
            res.to_table().lines().last(),
            Some(format!("Optimal k per acceptance rate (cost_ratio = {text}):").as_str())
        );
    }
}

#[test]
fn sweep_of_a_negative_cost() {
    let free = BenchConfig {
        rounds: 50,
        alphas: vec![ONE as i64],
        k_range: (0, 5),
        cost_ratio: 0,
        ..BenchConfig::default()
    };
    let negative = BenchConfig {
        cost_ratio: -250_000_000_000_000_000,
        ..free.clone()
    };
    let a = run_sweep(&free).unwrap();
    let b = run_sweep(&negative).unwrap();
    assert_eq!(a.optimal_per_alpha, b.optimal_per_alpha);
    assert_eq!(b.cost_ratio, -250_000_000_000_000_000);
    // Every draft is accepted: a round of k drafts emits k + 1 tokens. To the
    // expected speedup the cost counts as zero; the measured one divides by
    // 1 - k / 4.
    let minus = MeasuredSpeedup::Finite {
        negative: true,
        magnitude: Magnitude::new(24, 0),
    };
    let expected = [
        speedup(1, 0),
        speedup(2, 666_666_666_666_666_666),
        speedup(6, 0),
        speedup(16, 0),
        MeasuredSpeedup::Infinite,
        minus,
    ];
    for k in 0..6 {
        let (x, y) = (&a.rows[k], &b.rows[k]);
        assert_eq!(x.empirical_speedup, speedup(k as u128 + 1, 0));
        assert_eq!(y.empirical_speedup, expected[k]);
        assert_eq!(x.empirical_tokens, y.empirical_tokens);
        assert_eq!(x.analytical_speedup, y.analytical_speedup);
    }
    let table = b.to_table();
    assert!(table.contains("      infx"));
    assert!(table.contains("  -24.000x"));
}

#[test]
fn sweep_at_any_cost() {
    for (cost_ratio, negative) in [(i128::MAX, false), (i128::MIN, true)] {
        let cfg = BenchConfig {
            rounds: 20,
            cost_ratio,
            ..BenchConfig::default()
        };
        let res = run_sweep(&cfg).unwrap();
        for r in &res.rows {
            assert_eq!(
                r.empirical_speedup,
                MeasuredSpeedup::Finite {
                    negative,
                    magnitude: Magnitude::new(0, 0)
                }
            );
        }
    }
    // A cost of one unit: 10^18 times the tokens.
    let cfg = BenchConfig {
        rounds: 3,
        alphas: vec![ONE as i64],
        k_range: (999, 999),
        cost_ratio: -1_001_001_001_001_001,
        ..BenchConfig::default()
    };
    let res = run_sweep(&cfg).unwrap();
    assert_eq!(
        res.rows[0].empirical_speedup,
        speedup(1_000 * u128::from(ONE), 0)
    );
}

#[test]
fn cells_stand_alone() {
    let full = BenchConfig {
        rounds: 40,
        ..BenchConfig::default()
    };
    let part = BenchConfig {
        alphas: vec![full.alphas[0], full.alphas[1]],
        k_range: (3, 6),
        ..full.clone()
    };
    let a = run_sweep(&full).unwrap();
    let b = run_sweep(&part).unwrap();
    for i in 0..2 {
        for k in 3..=6 {
            let x = &a.rows[i * 8 + k - 1];
            let y = &b.rows[i * 4 + k - 3];
            assert_eq!((x.k, x.alpha_target), (y.k, y.alpha_target));
            assert_eq!(x.alpha_measured, y.alpha_measured);
            assert_eq!(x.empirical_tokens, y.empirical_tokens);
            assert_eq!(x.empirical_speedup, y.empirical_speedup);
            assert_eq!(x.analytical_tokens, y.analytical_tokens);
            assert_eq!(x.analytical_speedup, y.analytical_speedup);
        }
    }
}
