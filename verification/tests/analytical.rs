use speculative_decoding_bench::analytical::{
    expected_accepted_tokens, expected_speedup, optimal_k,
};
use speculative_decoding_bench::fixed::ONE;

fn fixed(x: f64) -> i64 {
    (x * 1e18).round() as i64
}

fn ratio(x: f64) -> i128 {
    (x * 1e18).round() as i128
}

fn float(v: u128) -> f64 {
    v as f64 / 1e18
}

fn approx(a: f64, b: f64, eps: f64) -> bool {
    (a - b).abs() < eps
}

#[test]
fn alpha_one_limit_is_k_plus_one() {
    for k in 0..=8 {
        let t = float(expected_accepted_tokens(fixed(1.0), k));
        assert!(approx(t, f64::from(k) + 1.0, 1e-12), "k={k} got {t}");
    }
}

#[test]
fn k_one_boundary() {
    // (1 - a^2) / (1 - a) = 1 + a.
    for &alpha in &[0.0, 0.3, 0.5, 0.7, 0.9] {
        let t = float(expected_accepted_tokens(fixed(alpha), 1));
        assert!(approx(t, 1.0 + alpha, 1e-12), "alpha={alpha} got {t}");
    }
}

#[test]
fn alpha_zero_gives_one_token() {
    for k in 0..=8 {
        let t = float(expected_accepted_tokens(fixed(0.0), k));
        assert!(approx(t, 1.0, 1e-12), "k={k} got {t}");
    }
}

#[test]
fn expected_tokens_monotonic_in_alpha() {
    let k = 4;
    let mut prev = float(expected_accepted_tokens(fixed(0.0), k));
    for i in 1..=10 {
        let alpha = f64::from(i) / 10.0;
        let t = float(expected_accepted_tokens(fixed(alpha), k));
        assert!(t >= prev - 1e-12, "not monotonic at alpha={alpha}");
        prev = t;
    }
}

#[test]
fn speedup_matches_manual_formula() {
    // alpha=0.5, k=2, cost_ratio=0.1.
    // E[tokens] = (1 - 0.5^3)/(1-0.5) = (1-0.125)/0.5 = 1.75.
    // round_cost = 2*0.1 + 1 = 1.2. speedup = 1.75/1.2.
    let s = float(expected_speedup(fixed(0.5), 2, ratio(0.1)));
    assert!(approx(s, 1.75 / 1.2, 1e-12), "got {s}");
}

#[test]
fn optimal_k_returns_some() {
    let (k, s) = optimal_k(fixed(0.9), ratio(0.1), 8).expect("optimal");
    assert!((1..=8).contains(&k));
    assert!(float(s) > 1.0);
}

#[test]
fn exact_values() {
    let half = 500_000_000_000_000_000;
    assert_eq!(expected_accepted_tokens(half, 2), 1_750_000_000_000_000_000);
    assert_eq!(
        expected_speedup(half, 2, 100_000_000_000_000_000),
        1_458_333_333_333_333_333
    );
    assert_eq!(
        expected_accepted_tokens(900_000_000_000_000_000, 8),
        6_125_795_110_000_000_000
    );
    assert_eq!(
        expected_accepted_tokens(333_333_333_333_333_333, 2),
        1_444_444_444_444_444_443
    );
}

#[test]
fn alpha_is_clamped() {
    for k in 0..6 {
        assert_eq!(
            expected_accepted_tokens(-5, k),
            expected_accepted_tokens(0, k)
        );
        assert_eq!(
            expected_accepted_tokens(i64::MAX, k),
            expected_accepted_tokens(ONE as i64, k)
        );
    }
}

#[test]
fn alpha_close_to_one() {
    let one = ONE as i64;
    // 1 + a + a^2 + a^3 at a = 1 - e is 4 - 6e to first order.
    assert_eq!(
        expected_accepted_tokens(one - 999_999, 3),
        4 * u128::from(ONE) - 6 * 999_999
    );
    assert_eq!(
        expected_accepted_tokens(one - 1, 1),
        2 * u128::from(ONE) - 1
    );
    assert_eq!(
        expected_accepted_tokens(one, u32::MAX),
        (u128::from(u32::MAX) + 1) * u128::from(ONE)
    );
}

#[test]
fn negative_cost_counts_as_zero() {
    for cost in [-1, ratio(-0.25), ratio(-7.0), i128::MIN] {
        for k in 0..6 {
            let tokens = expected_accepted_tokens(fixed(0.8), k);
            assert_eq!(expected_speedup(fixed(0.8), k, cost), tokens);
            assert_eq!(expected_speedup(fixed(0.8), k, 0), tokens);
        }
        assert_eq!(
            optimal_k(fixed(0.8), cost, 4),
            optimal_k(fixed(0.8), 0, 4)
        );
    }
}

#[test]
fn no_gain_within_cost() {
    for alpha in [-0.5, 0.0, 0.3, 0.9, 1.0, 2.0] {
        for k in 0..20 {
            assert!(expected_speedup(fixed(alpha), k, ratio(alpha)) <= u128::from(ONE));
        }
    }
}

#[test]
fn no_drafts_is_plain_decoding() {
    assert_eq!(expected_speedup(fixed(0.7), 0, ratio(0.3)), u128::from(ONE));
}

#[test]
fn optimal_k_edges() {
    assert_eq!(optimal_k(fixed(0.9), ratio(0.2), 0), None);
    // Without draft cost the longest draft wins; with a huge one the shortest.
    assert_eq!(optimal_k(fixed(0.9), 0, 5).map(|(k, _)| k), Some(5));
    assert_eq!(
        optimal_k(fixed(0.9), ratio(1e9), 5).map(|(k, _)| k),
        Some(1)
    );
    // Draft lengths one and two tie at 1.25: the first is taken.
    assert_eq!(
        optimal_k(fixed(0.5), ratio(0.2), 8),
        Some((1, 1_250_000_000_000_000_000))
    );
}

#[test]
fn speedup_falls_with_cost() {
    let mut prev = u128::MAX;
    for cost in [0.0, 0.1, 0.5, 1.0, 8.0] {
        let s = expected_speedup(fixed(0.8), 4, ratio(cost));
        assert!(s < prev);
        prev = s;
    }
}

#[test]
fn tokens_grow_with_draft_length() {
    let mut prev = 0;
    for k in 0..200 {
        let t = expected_accepted_tokens(fixed(0.95), k);
        assert!(t >= prev);
        prev = t;
    }
    // The limit is 1 / (1 - alpha).
    assert!(prev < 20 * u128::from(ONE));
}

#[test]
fn speedup_at_any_cost() {
    // 1.9 tokens over a cost of 1.7 * 10^20 is a hundredth of a unit.
    assert_eq!(expected_speedup(fixed(0.9), 1, i128::MAX), 0);
    // All of 2^32 tokens over a cost beyond 128 bits.
    let k = u32::MAX;
    for (cost, expected) in [
        (1_000_000_000_000_000_000_000_000_000, 1_000_000_000),
        (100_000_000_000_000_000_000_000_000_000, 10_000_000),
        (10_000_000_000_000_000_000_000_000_000_000_000_000, 0),
        (3_000_000_000_000_000_000_000_000_000_000, 333_333),
        (i128::MAX, 0),
    ] {
        assert_eq!(expected_speedup(ONE as i64, k, cost), expected);
    }
    // The search agrees with long division on both sides of its limit.
    let limit = (u128::MAX / 10) as i128 / i128::from(k);
    let near = expected_speedup(ONE as i64, k, limit - 1_000_000_000);
    let far = expected_speedup(ONE as i64, k, limit + 1_000_000_000);
    assert!(near >= far && near - far <= 1);
    assert_eq!(far, 126217744);
}

#[test]
fn long_drafts_do_not_pay() {
    // At alpha = 0.5 and cost 0.2 a round of k drafts costs 4/3 of a round of one
    // from k = 3 on.
    let one = expected_speedup(fixed(0.5), 1, ratio(0.2));
    for k in 3..200 {
        assert!(expected_speedup(fixed(0.5), k, ratio(0.2)) <= one);
    }
    let best = optimal_k(fixed(0.9), ratio(0.2), 8);
    assert_eq!(optimal_k(fixed(0.9), ratio(0.2), 5_000), best);
}
