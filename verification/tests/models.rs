use speculative_decoding_bench::fixed::ONE;
use speculative_decoding_bench::models::{Model, SyntheticModel};

const MICRO: u64 = 1_000;

fn fixed(x: f64) -> i64 {
    (x * 1e18).round() as i64
}

fn float(v: i64) -> f64 {
    v as f64 / 1e18
}

#[test]
fn distribution_sums_to_one() {
    let m = SyntheticModel::target(16, 42, 100 * MICRO);
    let d = m.next_distribution(3);
    let sum: f64 = d.iter().map(|&x| float(x)).sum();
    assert!((sum - 1.0).abs() < 1e-12, "sum was {sum}");
    assert_eq!(d.len(), 16);
}

#[test]
fn agreement_one_matches_target() {
    let t = SyntheticModel::target(16, 7, 100 * MICRO);
    let d = SyntheticModel::draft_from(&t, fixed(1.0), 10 * MICRO);
    let td = t.next_distribution(2);
    let dd = d.next_distribution(2);
    for (a, b) in td.iter().zip(dd.iter()) {
        assert!((float(*a) - float(*b)).abs() < 1e-12);
    }
}

#[test]
fn agreement_zero_is_uniform() {
    let t = SyntheticModel::target(8, 7, 100 * MICRO);
    let d = SyntheticModel::draft_from(&t, fixed(0.0), 10 * MICRO);
    let dd = d.next_distribution(5);
    let uniform = 1.0 / 8.0;
    for w in dd {
        assert!((float(w) - uniform).abs() < 1e-12);
    }
}

#[test]
fn masses_of_a_known_model() {
    let m = SyntheticModel::target(4, 42, 0);
    let expected = [
        0.3886847589793683,
        0.2405762880153393,
        0.0047452147978601705,
        0.36599373820743214,
    ];
    let d = m.next_distribution(3);
    for (x, e) in d.iter().zip(expected) {
        assert!((float(*x) - e).abs() < 1e-15);
    }
    assert_eq!(d.iter().sum::<i64>(), ONE as i64);
}

#[test]
fn masses_add_up() {
    for vocab in [1, 2, 3, 7, 64, 1000] {
        let t = SyntheticModel::target(vocab, 5, 0);
        assert_eq!(t.next_distribution(9).iter().sum::<i64>(), ONE as i64);
        for agreement in [-1, 0, 1, 123_456_789, fixed(0.5), ONE as i64, i64::MAX] {
            let d = SyntheticModel::draft_from(&t, agreement, 0);
            let m = d.next_distribution(9);
            assert_eq!(m.len(), vocab);
            assert!(m.iter().all(|&x| x > 0));
            let over = m.iter().sum::<i64>() - ONE as i64;
            assert!(0 <= over && over < vocab as i64);
        }
    }
}

#[test]
fn uniform_is_even() {
    let t = SyntheticModel::target(3, 0, 0);
    let d = SyntheticModel::draft_from(&t, 0, 0).next_distribution(0);
    assert_eq!(d, vec![333_333_333_333_333_334; 3]);
}

#[test]
fn blending_keeps_order() {
    for vocab in [3, 10, 57] {
        for seed in 0..20 {
            let t = SyntheticModel::target(vocab, seed, 0);
            let base = t.next_distribution(0);
            for agreement in [0, 1, 2, fixed(0.3), ONE as i64 - 1, ONE as i64] {
                let d = SyntheticModel::draft_from(&t, agreement, 0).next_distribution(0);
                for i in 0..vocab {
                    for j in 0..vocab {
                        assert!(base[i] > base[j] || d[i] <= d[j]);
                    }
                }
            }
        }
    }
}

#[test]
fn agreement_raises_overlap() {
    let t = SyntheticModel::target(23, 6, 0);
    let base = t.next_distribution(1);
    let mut previous = 0;
    for agreement in [0, 1, 1000, fixed(0.2), fixed(0.7), ONE as i64] {
        let d = SyntheticModel::draft_from(&t, agreement, 0).next_distribution(1);
        let overlap: i64 = base.iter().zip(d.iter()).map(|(&a, &b)| a.min(b)).sum();
        assert!(overlap >= previous);
        previous = overlap;
    }
    assert_eq!(previous, ONE as i64);
}

#[test]
fn blending_interpolates() {
    let t = SyntheticModel::target(10, 31, 0);
    let base = t.next_distribution(4);
    let half = SyntheticModel::draft_from(&t, fixed(0.5), 0).next_distribution(4);
    for (b, h) in base.iter().zip(half.iter()) {
        assert!((float(*h) - (0.5 * float(*b) + 0.05)).abs() < 1e-15);
    }
}

#[test]
fn accessors() {
    let t = SyntheticModel::target(0, 1, 77);
    assert_eq!(t.vocab_size(), 1);
    assert_eq!(t.latency(), 77);
    assert_eq!(t.next_distribution(0), vec![ONE as i64]);
    let d = SyntheticModel::draft_from(&t, 0, 5);
    assert_eq!(d.vocab_size(), 1);
    assert_eq!(d.latency(), 5);
    assert_eq!(d.clone().next_distribution(3), d.next_distribution(3));
}

#[test]
fn contexts_differ() {
    let t = SyntheticModel::target(16, 42, 0);
    assert_ne!(t.next_distribution(0), t.next_distribution(1));
    assert_eq!(t.next_distribution(1), t.next_distribution(1));
}
