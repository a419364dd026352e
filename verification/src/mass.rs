//! Finite sequences of weights: running totals, and the index that a threshold
//! falls on.
use vstd::prelude::*;

verus! {

/// The weights as mathematical integers.
pub open spec fn ints(w: Seq<i64>) -> Seq<int> {
    Seq::new(w.len(), |i: int| w[i] as int)
}

/// The weights as mathematical integers.
pub open spec fn nats(w: Seq<u64>) -> Seq<int> {
    Seq::new(w.len(), |i: int| w[i] as int)
}

/// `max(0, x)`.
pub open spec fn positive(x: int) -> int {
    if x > 0 {
        x
    } else {
        0
    }
}

/// The smaller of two integers.
pub open spec fn min(a: int, b: int) -> int {
    if a <= b {
        a
    } else {
        b
    }
}

/// Every weight replaced by its positive part.
pub open spec fn positives(w: Seq<int>) -> Seq<int> {
    Seq::new(w.len(), |i: int| positive(w[i]))
}

/// The sum of the first `i` weights.
pub open spec fn prefix(w: Seq<int>, i: int) -> int
    decreases i,
{
    if i <= 0 {
        0
    } else {
        prefix(w, i - 1) + w[i - 1]
    }
}

/// The sum of all weights.
pub open spec fn total(w: Seq<int>) -> int {
    prefix(w, w.len() as int)
}

/// No weight is negative.
pub open spec fn nonnegative(w: Seq<int>) -> bool {
    forall|i: int| 0 <= i < w.len() ==> 0 <= #[trigger] w[i]
}

/// The threshold `t` falls on index `i`: `i` is where the running total of the
/// positive weights passes `t`.
pub open spec fn falls_on(w: Seq<int>, t: int, i: int) -> bool {
    &&& 0 <= i < w.len()
    &&& prefix(positives(w), i) <= t < prefix(positives(w), i + 1)
}

/// The first index at or after `i` at which the running total of the positive
/// weights passes `t`; the length where there is none.
pub open spec fn index_from(w: Seq<int>, t: int, i: int) -> int
    decreases w.len() - i,
{
    if i >= w.len() {
        w.len() as int
    } else if t < prefix(positives(w), i + 1) {
        i
    } else {
        index_from(w, t, i + 1)
    }
}

/// The index that the threshold `t` falls on.
pub open spec fn index_of(w: Seq<int>, t: int) -> int {
    index_from(w, t, 0)
}

/// Running totals of weights that are not negative never decrease.
pub proof fn lemma_prefix_monotonic(w: Seq<int>, i: int, j: int)
    requires
        nonnegative(w),
        0 <= i <= j <= w.len(),
    ensures
        0 <= prefix(w, i) <= prefix(w, j),
    decreases j,
{
    if i < j {
        lemma_prefix_monotonic(w, i, j - 1);
    } else if i > 0 {
        lemma_prefix_monotonic(w, i - 1, j - 1);
    }
}

/// One weight is no more than all of them.
pub proof fn lemma_part_of_total(w: Seq<int>, x: int)
    requires
        nonnegative(w),
        0 <= x < w.len(),
    ensures
        0 <= w[x] <= total(w),
{
    lemma_prefix_monotonic(w, 0, x);
    lemma_prefix_monotonic(w, x + 1, w.len() as int);
}

/// A running total of bounded weights is bounded by their number.
pub proof fn lemma_prefix_bounds(w: Seq<int>, i: int, lo: int, hi: int)
    requires
        0 <= i <= w.len(),
        forall|j: int| 0 <= j < w.len() ==> lo <= #[trigger] w[j] <= hi,
    ensures
        i * lo <= prefix(w, i) <= i * hi,
    decreases i,
{
    if i > 0 {
        lemma_prefix_bounds(w, i - 1, lo, hi);
        assert(i * lo == (i - 1) * lo + lo) by (nonlinear_arith);
        assert(i * hi == (i - 1) * hi + hi) by (nonlinear_arith);
    } else {
        assert(i * lo == 0 && i * hi == 0) by (nonlinear_arith)
            requires
                i == 0,
        ;
    }
}

/// Weights that agree up to `i` have the same running total there.
pub proof fn lemma_prefix_agrees(v: Seq<int>, w: Seq<int>, i: int)
    requires
        i <= v.len(),
        i <= w.len(),
        forall|j: int| 0 <= j < i ==> v[j] == w[j],
    ensures
        prefix(v, i) == prefix(w, i),
    decreases i,
{
    if i > 0 {
        lemma_prefix_agrees(v, w, i - 1);
    }
}

/// The running total of one sequence bounds that of another that it bounds
/// weight by weight.
pub proof fn lemma_prefix_ordered(v: Seq<int>, w: Seq<int>, i: int)
    requires
        i <= v.len(),
        i <= w.len(),
        forall|j: int| 0 <= j < i ==> v[j] <= w[j],
    ensures
        prefix(v, i) <= prefix(w, i),
    decreases i,
{
    if i > 0 {
        lemma_prefix_ordered(v, w, i - 1);
    }
}

/// The running total of a weight-by-weight sum is the sum of running totals.
pub proof fn lemma_prefix_adds(u: Seq<int>, v: Seq<int>, w: Seq<int>, i: int)
    requires
        i <= u.len(),
        i <= v.len(),
        i <= w.len(),
        forall|j: int| 0 <= j < i ==> u[j] == v[j] + w[j],
    ensures
        prefix(u, i) == prefix(v, i) + prefix(w, i),
    decreases i,
{
    if i > 0 {
        lemma_prefix_adds(u, v, w, i - 1);
    }
}

/// A positive total has a positive weight behind it, and the positive weights
/// add up to no less.
pub proof fn lemma_positives_cover(w: Seq<int>)
    ensures
        nonnegative(positives(w)),
        total(w) <= total(positives(w)),
        nonnegative(w) ==> positives(w) == w,
{
    lemma_prefix_ordered(w, positives(w), w.len() as int);
    if nonnegative(w) {
        assert(positives(w) =~= w);
    }
}

/// The threshold falls on at most one index.
pub proof fn lemma_falls_on_unique(w: Seq<int>, t: int, i: int, j: int)
    requires
        falls_on(w, t, i),
        falls_on(w, t, j),
    ensures
        i == j,
{
    if i < j {
        lemma_prefix_monotonic(positives(w), i + 1, j);
    } else if j < i {
        lemma_prefix_monotonic(positives(w), j + 1, i);
    }
}

proof fn lemma_index_from(w: Seq<int>, t: int, i: int)
    requires
        0 <= i <= w.len(),
        prefix(positives(w), i) <= t < total(positives(w)),
    ensures
        falls_on(w, t, index_from(w, t, i)),
        w[index_from(w, t, i)] > 0,
    decreases w.len() - i,
{
    if i < w.len() && !(t < prefix(positives(w), i + 1)) {
        lemma_index_from(w, t, i + 1);
    }
}

/// A threshold below the total falls on exactly one index, and that index has
/// a positive weight.
pub proof fn lemma_index_of(w: Seq<int>, t: int)
    requires
        0 <= t < total(positives(w)),
    ensures
        falls_on(w, t, index_of(w, t)),
        w[index_of(w, t)] > 0,
{
    lemma_index_from(w, t, 0);
}

/// The sum of weights, exactly.
pub fn sum_signed(w: &[i64]) -> (r: i128)
    ensures
        r == total(ints(w@)),
{
    let ghost v = ints(w@);
    let mut r: i128 = 0;
    let mut i: usize = 0;
    while i < w.len()
        invariant
            i <= w.len(),
            v == ints(w@),
            r == prefix(v, i as int),
        decreases w.len() - i,
    {
        proof {
            lemma_prefix_bounds(v, i + 1, i64::MIN as int, i64::MAX as int);
        }
        r = r + w[i] as i128;
        i = i + 1;
    }
    r
}

/// The sum of the positive weights, exactly.
pub fn sum_positive(w: &[i64]) -> (r: u128)
    ensures
        r == total(positives(ints(w@))),
{
    let ghost v = positives(ints(w@));
    let mut r: u128 = 0;
    let mut i: usize = 0;
    while i < w.len()
        invariant
            i <= w.len(),
            v == positives(ints(w@)),
            r == prefix(v, i as int),
        decreases w.len() - i,
    {
        proof {
            lemma_prefix_bounds(v, i + 1, 0, i64::MAX as int);
        }
        if w[i] > 0 {
            r = r + w[i] as u128;
        }
        i = i + 1;
    }
    r
}

/// Finds the index that a threshold below the total falls on.
pub fn locate_signed(w: &[i64], t: u128) -> (index: usize)
    requires
        t < total(positives(ints(w@))),
    ensures
        index == index_of(ints(w@), t as int),
        falls_on(ints(w@), t as int, index as int),
        w@[index as int] > 0,
{
    let ghost v = ints(w@);
    let mut passed: u128 = 0;
    let mut i: usize = 0;
    loop
        invariant
            i < w.len(),
            v == ints(w@),
            passed == prefix(positives(v), i as int),
            passed <= t < total(positives(v)),
            index_of(v, t as int) == index_from(v, t as int, i as int),
        decreases w.len() - i,
    {
        proof {
            lemma_prefix_bounds(positives(v), i + 1, 0, i64::MAX as int);
        }
        if w[i] > 0 {
            passed = passed + w[i] as u128;
            if t < passed {
                return i;
            }
        }
        i = i + 1;
    }
}

/// Finds the index that a threshold below the total falls on.
pub fn locate_unsigned(w: &[u64], t: u128) -> (index: usize)
    requires
        t < total(nats(w@)),
    ensures
        index == index_of(nats(w@), t as int),
        falls_on(nats(w@), t as int, index as int),
        w@[index as int] > 0,
{
    let ghost v = nats(w@);
    let mut passed: u128 = 0;
    let mut i: usize = 0;
    proof {
        lemma_positives_cover(v);
    }
    loop
        invariant
            i < w.len(),
            v == nats(w@),
            positives(v) == v,
            passed == prefix(v, i as int),
            passed <= t < total(v),
            index_of(v, t as int) == index_from(v, t as int, i as int),
        decreases w.len() - i,
    {
        proof {
            lemma_prefix_bounds(v, i + 1, 0, u64::MAX as int);
        }
        passed = passed + w[i] as u128;
        if t < passed {
            return i;
        }
        i = i + 1;
    }
}

/// Sums: the running total before the first weight is zero, each weight adds itself
/// to it, and after the last it is the total.
pub proof fn law_running_totals(w: Seq<int>, i: int)
    requires
        0 <= i < w.len(),
    ensures
        prefix(w, 0) == 0,
        prefix(w, i + 1) - prefix(w, i) == w[i],
        total(w) == prefix(w, w.len() as int),
{
}

proof fn lemma_prefix_of_sum(v: Seq<int>, w: Seq<int>, i: int)
    requires
        0 <= i <= w.len(),
    ensures
        prefix(v + w, v.len() + i) == total(v) + prefix(w, i),
    decreases i,
{
    if i > 0 {
        lemma_prefix_of_sum(v, w, i - 1);
    } else {
        lemma_prefix_agrees(v + w, v, v.len() as int);
    }
}

/// Sums: the total of weights put one after another is the sum of the totals, the
/// total of a single weight is that weight, and that of none is zero.
pub proof fn law_totals_add(v: Seq<int>, w: Seq<int>, x: int)
    ensures
        total(v + w) == total(v) + total(w),
        total(seq![x]) == x,
        total(Seq::empty()) == 0,
{
    lemma_prefix_of_sum(v, w, w.len() as int);
    assert(prefix(seq![x], 1) == prefix(seq![x], 0) + x);
}

/// Positive parts: a weight below zero counts as zero, any other as it is.
pub proof fn law_positive_parts(w: Seq<int>, i: int)
    requires
        0 <= i < w.len(),
    ensures
        positives(w).len() == w.len(),
        w[i] <= 0 ==> positives(w)[i] == 0,
        w[i] >= 0 ==> positives(w)[i] == w[i],
{
}

/// The machine's weights stand for the integers that they are.
pub proof fn law_weights_are_integers(v: Seq<i64>, w: Seq<u64>)
    ensures
        ints(v).len() == v.len(),
        nats(w).len() == w.len(),
        forall|i: int| 0 <= i < v.len() ==> #[trigger] ints(v)[i] == v[i],
        forall|i: int| 0 <= i < w.len() ==> #[trigger] nats(w)[i] == w[i],
{
}

/// A total of weights that are not negative is positive exactly where one of the
/// weights is.
pub proof fn lemma_positive_total(w: Seq<int>)
    requires
        nonnegative(w),
    ensures
        total(w) >= 0,
        total(w) > 0 <==> exists|i: int| 0 <= i < w.len() && #[trigger] w[i] > 0,
{
    lemma_prefix_monotonic(w, 0, w.len() as int);
    if exists|i: int| 0 <= i < w.len() && #[trigger] w[i] > 0 {
        let i = choose|i: int| 0 <= i < w.len() && #[trigger] w[i] > 0;
        lemma_part_of_total(w, i);
    } else {
        assert forall|j: int| 0 <= j < w.len() implies 0 <= #[trigger] w[j] <= 0 by {}
        lemma_prefix_bounds(w, w.len() as int, 0, 0);
        assert(w.len() * 0 == 0);
    }
}

/// Location: a threshold below the sum of the positive weights falls on the index up to
/// which the positive weights before it are no more than the threshold, and with it
/// more.
pub proof fn law_threshold_falls_on_one_index(w: Seq<int>, t: int, i: int)
    requires
        0 <= t < total(positives(w)),
        0 <= i < w.len(),
    ensures
        0 <= index_of(w, t) < w.len(),
        index_of(w, t) == i <==> w[i] > 0 && prefix(positives(w), i) <= t < prefix(positives(w), i)
            + w[i],
        falls_on(w, t, i) <==> index_of(w, t) == i,
{
    lemma_index_of(w, t);
    if falls_on(w, t, i) {
        lemma_falls_on_unique(w, t, i, index_of(w, t));
    }
}

/// Weights that are not negative are at least zero, each of them.
pub proof fn law_nonnegative_weights(w: Seq<int>)
    ensures
        nonnegative(w) <==> forall|i: int| 0 <= i < w.len() ==> #[trigger] w[i] >= 0,
        nonnegative(w) <==> positives(w) == w,
{
    if nonnegative(w) {
        assert(positives(w) =~= w);
    }
    if positives(w) == w {
        assert forall|i: int| 0 <= i < w.len() implies 0 <= #[trigger] w[i] by {
            assert(positives(w)[i] == w[i]);
        }
    }
}

} // verus!
