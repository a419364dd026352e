use speculative_decoding_bench::rng::{categorical_index, Rng, DRAWS};

#[test]
fn stream_of_seed_zero() {
    let mut r = Rng::new(0);
    assert_eq!(r.next_u64(), 11091344671253066420);
    assert_eq!(r.next_u64(), 13793997310169335082);
    assert_eq!(r.next_u64(), 1900383378846508768);
    assert_eq!(r.next_u64(), 7684712102626143532);
}

#[test]
fn streams_of_other_seeds() {
    let mut r = Rng::new(1);
    assert_eq!(r.next_u64(), 12966619160104079557);
    assert_eq!(r.next_u64(), 9600361134598540522);
    let mut r = Rng::new(42);
    assert_eq!(r.next_u64(), 1546998764402558742);
    assert_eq!(r.next_u64(), 6990951692964543102);
}

#[test]
fn draws_are_the_top_53_bits() {
    let mut r = Rng::new(7);
    assert_eq!(r.next_f64(), 6310231968177966);
    assert_eq!(r.next_f64(), 2510767866374405);
    assert_eq!(r.next_f64(), 7562691848873359);
    for _ in 0..10_000 {
        assert!(r.next_f64() < DRAWS);
    }
}

#[test]
fn clones_continue_the_same_stream() {
    let mut a = Rng::new(3);
    a.next_u64();
    let mut b = a.clone();
    for _ in 0..100 {
        assert_eq!(a.next_u64(), b.next_u64());
    }
}

#[test]
fn categorical_stream() {
    let mut r = Rng::new(5);
    let weights = [1, 0, 5, 4];
    let expected = [
        2, 3, 3, 3, 2, 3, 2, 3, 2, 2, 3, 2, 2, 3, 2, 3, 3, 3, 2, 3, 2, 2, 0, 3,
    ];
    for e in expected {
        assert_eq!(r.sample_categorical(&weights), Some(e));
    }
}

#[test]
fn categorical_without_mass_makes_no_draw() {
    let mut r = Rng::new(11);
    assert_eq!(r.sample_categorical(&[]), None);
    assert_eq!(r.sample_categorical(&[0, 0]), None);
    assert_eq!(r.sample_categorical(&[3, -5]), None);
    let mut fresh = Rng::new(11);
    assert_eq!(r.next_u64(), fresh.next_u64());
}

#[test]
fn categorical_splits_the_draws_by_weight() {
    let w = [1, 3];
    assert_eq!(categorical_index(&w, 0), Some(0));
    assert_eq!(categorical_index(&w, DRAWS / 4 - 1), Some(0));
    assert_eq!(categorical_index(&w, DRAWS / 4), Some(1));
    assert_eq!(categorical_index(&w, DRAWS - 1), Some(1));
}

#[test]
fn categorical_skips_negative_weights() {
    // The total is 4: thresholds 0..4 walk over the positive weights 2, 3.
    let w = [-1, 2, 0, 3];
    assert_eq!(categorical_index(&w, 0), Some(1));
    assert_eq!(categorical_index(&w, DRAWS / 2 - 1), Some(1));
    assert_eq!(categorical_index(&w, DRAWS / 2), Some(3));
    assert_eq!(categorical_index(&w, DRAWS - 1), Some(3));
}

#[test]
fn only_proportions_matter() {
    let w = [3, -1, 4, 1, 5, 9, 2, 6];
    let v: Vec<i64> = w.iter().map(|x| x * 1_000_003).collect();
    let mut r = Rng::new(8);
    for _ in 0..1_000 {
        let draw = r.next_f64();
        assert_eq!(categorical_index(&w, draw), categorical_index(&v, draw));
    }
}

#[test]
fn seeds_give_distinct_streams() {
    let mut firsts: Vec<[u64; 4]> = (0..500)
        .map(|seed| {
            let mut r = Rng::new(seed);
            [r.next_u64(), r.next_u64(), r.next_u64(), r.next_u64()]
        })
        .collect();
    firsts.sort();
    firsts.dedup();
    assert_eq!(firsts.len(), 500);
}

#[test]
fn categorical_takes_the_largest_weights() {
    let w = [i64::MAX, i64::MAX, i64::MAX];
    assert_eq!(categorical_index(&w, 0), Some(0));
    assert_eq!(categorical_index(&w, DRAWS / 2), Some(1));
    assert_eq!(categorical_index(&w, DRAWS - 1), Some(2));
}
