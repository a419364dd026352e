//! Means over all draws of whole runs.
//!
//! A run takes its draws one after another from a stream, and how many it takes
//! depends on what they are. Fed with every tuple of draws in turn, each as likely
//! as any other, a run has a mean, and the laws here say what it is: of the tokens
//! that a round emits, of the times that a number of steps emits a token, and of
//! the accepted drafts among a number of trials.
use vstd::arithmetic::power::*;
use vstd::prelude::*;

use crate::analytical::geometric_numerator;
use crate::bench::{
    law_pair_acceptance_draws, law_pair_has_requested_overlap, pair_draft, pair_target, trial_run,
};
use crate::draws::{
    accepting, cut, drafting_and_accepting, emitting, emitting_after,
    law_draws_nearly_preserve_distribution, law_draws_that_accept, law_draws_that_select,
    lemma_cut_monotonic, lemma_cuts_span, selecting,
};
use crate::fixed::{ceil_div, lemma_ceil_div, scaled, ONE};
use crate::mass::{
    index_of, lemma_index_of, lemma_positives_cover, lemma_prefix_agrees, nonnegative, prefix,
    total,
};
use crate::models::{base, blended, law_agreement_raises_accepted_draws, lemma_blend_sums};
use crate::preservation::{
    law_residual_exists, law_residual_is_a_distribution, lemma_draw_in_range,
    lemma_prefix_times, lemma_scaled_in_range, times,
};
use crate::rng::{categorical, sampled, RngState, DRAWS};
use crate::rounds::{drafts, law_simulation_succeeds, round, simulation};
use crate::sampling::{accepts, residual, step, SamplingError, StepOutcome};

verus! {

/// `f(0) + ... + f(n - 1)`.
pub open spec fn sum_below(n: nat, f: spec_fn(int) -> int) -> int
    decreases n,
{
    if n == 0 {
        0
    } else {
        sum_below((n - 1) as nat, f) + f(n - 1)
    }
}

/// The sum of `f` over all tuples of `l` draws.
pub open spec fn over_tuples(l: nat, f: spec_fn(Seq<int>) -> int) -> int
    decreases l,
{
    if l == 0 {
        f(Seq::empty())
    } else {
        over_tuples((l - 1) as nat, last_summed(f))
    }
}

/// `f` summed over the last draw.
pub open spec fn last_summed(f: spec_fn(Seq<int>) -> int) -> spec_fn(Seq<int>) -> int {
    |t: Seq<int>| sum_below(DRAWS as nat, |d: int| f(t.push(d)))
}

/// Draws in their range.
pub open spec fn is_tuple(t: Seq<int>, l: nat) -> bool {
    &&& t.len() == l
    &&& forall|i: int| 0 <= i < l ==> 0 <= #[trigger] t[i] < DRAWS
}

/// The next `l` draws of a generator.
pub open spec fn stream(s: RngState, l: nat) -> Seq<int> {
    Seq::new(l, |i: int| s.after(i as nat).draw() as int)
}

/// `DRAWS^n`.
pub open spec fn tuples(n: nat) -> int {
    pow(DRAWS as int, n)
}

proof fn lemma_tuples(n: nat)
    ensures
        tuples(0) == 1,
        tuples(n + 1) == DRAWS * tuples(n),
        tuples(n) > 0,
{
    reveal(pow);
    lemma_pow_positive(DRAWS as int, n);
}

/// Sums of terms that are related alike are related alike.
proof fn lemma_sum_affine(
    n: nat,
    f: spec_fn(int) -> int,
    g: spec_fn(int) -> int,
    c: int,
    m: int,
    e: int,
)
    requires
        forall|i: int| 0 <= i < n ==> c * #[trigger] f(i) == m * g(i) + e,
    ensures
        c * sum_below(n, f) == m * sum_below(n, g) + n * e,
    decreases n,
{
    if n > 0 {
        let j = (n - 1) as nat;
        lemma_sum_affine(j, f, g, c, m, e);
        let (x, y) = (sum_below(j, f), sum_below(j, g));
        let (a, b) = (f(n - 1), g(n - 1));
        assert(c * (x + a) == m * (y + b) + n * e) by (nonlinear_arith)
            requires
                c * x == m * y + j * e,
                c * a == m * b + e,
                j == n - 1,
        ;
    } else {
        assert(c * 0 == m * 0 + 0 * e);
    }
}

/// Sums of equal terms are equal.
proof fn lemma_sum_same(n: nat, f: spec_fn(int) -> int, g: spec_fn(int) -> int)
    requires
        forall|i: int| 0 <= i < n ==> #[trigger] f(i) == g(i),
    ensures
        sum_below(n, f) == sum_below(n, g),
    decreases n,
{
    if n > 0 {
        lemma_sum_same((n - 1) as nat, f, g);
    }
}

/// A range of equal terms adds as many times one of them.
proof fn lemma_sum_range(f: spec_fn(int) -> int, a: nat, b: nat, c: int)
    requires
        a <= b,
        forall|i: int| a <= i < b ==> #[trigger] f(i) == c,
    ensures
        sum_below(b, f) == sum_below(a, f) + (b - a) * c,
    decreases b,
{
    if a < b {
        lemma_sum_range(f, a, (b - 1) as nat, c);
        assert((b - a) * c == (b - 1 - a) * c + c) by (nonlinear_arith);
    } else {
        assert(0 * c == 0);
    }
}

/// Terms of two values, one up to a bound and one from there.
proof fn lemma_sum_split(f: spec_fn(int) -> int, a: nat, b: nat, x: int, y: int)
    requires
        a <= b,
        forall|i: int| 0 <= i < a ==> #[trigger] f(i) == x,
        forall|i: int| a <= i < b ==> #[trigger] f(i) == y,
    ensures
        sum_below(b, f) == a * x + (b - a) * y,
{
    lemma_sum_range(f, 0, a, x);
    lemma_sum_range(f, a, b, y);
}

/// Tuples with one value more: the sum of `c + f`.
proof fn lemma_tuples_shift(
    l: nat,
    f: spec_fn(Seq<int>) -> int,
    g: spec_fn(Seq<int>) -> int,
    c: int,
)
    requires
        forall|t: Seq<int>| is_tuple(t, l) ==> #[trigger] g(t) == c + f(t),
    ensures
        over_tuples(l, g) == c * tuples(l) + over_tuples(l, f),
    decreases l,
{
    lemma_tuples(0);
    if l == 0 {
        assert(is_tuple(Seq::<int>::empty(), 0));
    } else {
        let j = (l - 1) as nat;
        let n = DRAWS as nat;
        let (fl, gl) = (last_summed(f), last_summed(g));
        assert forall|t: Seq<int>| is_tuple(t, j) implies #[trigger] gl(t) == n * c + fl(t) by {
            let ft = |d: int| f(t.push(d));
            let gt = |d: int| g(t.push(d));
            assert forall|d: int| 0 <= d < n implies 1 * #[trigger] gt(d) == 1 * ft(d) + c by {
                assert(is_tuple(t.push(d), l));
            }
            lemma_sum_affine(n, gt, ft, 1, 1, c);
        }
        lemma_tuples_shift(j, fl, gl, n * c);
        lemma_tuples(j);
        assert((n * c) * tuples(j) == c * (n * tuples(j))) by (nonlinear_arith);
    }
}

/// Equal terms over all tuples add up to equal sums.
proof fn lemma_tuples_same(l: nat, f: spec_fn(Seq<int>) -> int, g: spec_fn(Seq<int>) -> int)
    requires
        forall|t: Seq<int>| is_tuple(t, l) ==> #[trigger] g(t) == f(t),
    ensures
        over_tuples(l, g) == over_tuples(l, f),
{
    lemma_tuples_shift(l, f, g, 0);
    assert(0 * tuples(l) == 0);
}

/// A constant over all tuples adds up to as many times the constant.
proof fn lemma_tuples_const(l: nat, f: spec_fn(Seq<int>) -> int, c: int)
    requires
        forall|t: Seq<int>| is_tuple(t, l) ==> #[trigger] f(t) == c,
    ensures
        over_tuples(l, f) == c * tuples(l),
    decreases l,
{
    lemma_tuples(0);
    if l == 0 {
        assert(is_tuple(Seq::<int>::empty(), 0));
    } else {
        let j = (l - 1) as nat;
        let n = DRAWS as nat;
        let fl = last_summed(f);
        assert forall|t: Seq<int>| is_tuple(t, j) implies #[trigger] fl(t) == n * c by {
            let ft = |d: int| f(t.push(d));
            assert forall|d: int| 0 <= d < n implies #[trigger] ft(d) == c by {
                assert(is_tuple(t.push(d), l));
            }
            lemma_sum_range(ft, 0, n, c);
        }
        lemma_tuples_const(j, fl, n * c);
        lemma_tuples(j);
        assert((n * c) * tuples(j) == c * (n * tuples(j))) by (nonlinear_arith);
    }
}

/// What the tuples that begin with a given draw add.
pub open spec fn after_one(l: nat, f: spec_fn(Seq<int>) -> int, d: int) -> int {
    over_tuples(l, |t: Seq<int>| f(seq![d] + t))
}

/// The first draw taken out of a sum over tuples.
proof fn lemma_first_draw(l: nat, f: spec_fn(Seq<int>) -> int)
    ensures
        over_tuples(l + 1, f) == sum_below(DRAWS as nat, |d: int| after_one(l, f, d)),
    decreases l,
{
    let n = DRAWS as nat;
    let fl = last_summed(f);
    let whole = |d: int| after_one(l, f, d);
    assert(over_tuples(l + 1, f) == over_tuples(l, fl));
    if l == 0 {
        let last = |d: int| f(Seq::<int>::empty().push(d));
        assert forall|d: int| 0 <= d < n implies #[trigger] last(d) == whole(d) by {
            assert(seq![d] + Seq::<int>::empty() =~= Seq::<int>::empty().push(d));
        }
        lemma_sum_same(n, last, whole);
        assert(over_tuples(0, fl) == fl(Seq::empty()));
    } else {
        let j = (l - 1) as nat;
        lemma_first_draw(j, fl);
        let part = |d: int| after_one(j, fl, d);
        assert forall|d: int| 0 <= d < n implies #[trigger] part(d) == whole(d) by {
            let fd = |t: Seq<int>| f(seq![d] + t);
            let fdl = last_summed(fd);
            let g = |t: Seq<int>| fl(seq![d] + t);
            assert forall|t: Seq<int>| is_tuple(t, j) implies #[trigger] g(t) == fdl(t) by {
                let x = |e: int| f((seq![d] + t).push(e));
                let y = |e: int| fd(t.push(e));
                assert forall|e: int| 0 <= e < n implies #[trigger] x(e) == y(e) by {
                    assert(seq![d] + t.push(e) =~= (seq![d] + t).push(e));
                }
                lemma_sum_same(n, x, y);
            }
            lemma_tuples_same(j, fdl, g);
            assert(over_tuples(l, fd) == over_tuples(j, fdl));
        }
        lemma_sum_same(n, part, whole);
    }
}

/// What the tuples that begin with two given draws add.
pub open spec fn after_two(l: nat, f: spec_fn(Seq<int>) -> int, d: int, u: int) -> int {
    over_tuples(l, |t: Seq<int>| f(seq![d] + (seq![u] + t)))
}

/// The first two draws taken out of a sum over tuples.
proof fn lemma_two_draws(l: nat, f: spec_fn(Seq<int>) -> int)
    ensures
        over_tuples(l + 2, f) == sum_below(
            DRAWS as nat,
            |d: int| sum_below(DRAWS as nat, |u: int| after_two(l, f, d, u)),
        ),
{
    let n = DRAWS as nat;
    let left = |d: int| after_one(l + 1, f, d);
    let right = |d: int| sum_below(n, |u: int| after_two(l, f, d, u));
    lemma_first_draw(l + 1, f);
    assert forall|d: int| 0 <= d < n implies #[trigger] left(d) == right(d) by {
        let fd = |t: Seq<int>| f(seq![d] + t);
        let inner = |u: int| after_one(l, fd, u);
        let outer = |u: int| after_two(l, f, d, u);
        lemma_first_draw(l, fd);
        assert forall|u: int| 0 <= u < n implies #[trigger] inner(u) == outer(u) by {
            lemma_tuples_same(
                l,
                |t: Seq<int>| f(seq![d] + (seq![u] + t)),
                |t: Seq<int>| fd(seq![u] + t),
            );
        }
        lemma_sum_same(n, inner, outer);
    }
    lemma_sum_same(n, left, right);
}

/// A sum over draws of what depends on the selected index alone.
proof fn lemma_sum_by_index(w: Seq<int>, f: spec_fn(int) -> int, h: Seq<int>, i: int)
    requires
        nonnegative(w),
        total(w) > 0,
        h.len() == w.len(),
        0 <= i <= w.len(),
        forall|d: int, j: int|
            0 <= j < w.len() && cut(w, j) <= d < cut(w, j + 1) ==> #[trigger] f(d)
                == #[trigger] h[j],
    ensures
        sum_below(cut(w, i) as nat, f) == prefix(
            Seq::new(w.len(), |j: int| selecting(w, j) * h[j]),
            i,
        ),
    decreases i,
{
    lemma_cuts_span(w);
    if i > 0 {
        lemma_sum_by_index(w, f, h, i - 1);
        lemma_cut_monotonic(w, i - 1, i);
        lemma_sum_range(f, cut(w, i - 1) as nat, cut(w, i) as nat, h[i - 1]);
    }
}

/// The index that a draw selects is the one between whose cuts the draw lies.
proof fn lemma_selected(w: Seq<int>, d: int)
    requires
        nonnegative(w),
        total(w) > 0,
        w.len() <= usize::MAX,
        0 <= d < DRAWS,
    ensures
        categorical(w, d) matches Some(y) && y < w.len() && cut(w, y as int) <= d < cut(
            w,
            y + 1,
        ),
{
    lemma_scaled_in_range(total(w), d);
    lemma_positives_cover(w);
    lemma_index_of(w, scaled(total(w), d));
    law_draws_that_select(w, d, index_of(w, scaled(total(w), d)));
}

/// Whether a pair of draws drafts a token and accepts it.
pub open spec fn pair_accepts(p: Seq<int>, q: Seq<int>, d: int, u: int) -> bool {
    categorical(q, d) matches Some(y) && accepts(p[y as int], q[y as int], u)
}

/// A number for each pair of draws that accepts.
pub open spec fn accepted_of(p: Seq<int>, q: Seq<int>, d: int, u: int) -> int {
    if pair_accepts(p, q, d, u) {
        1
    } else {
        0
    }
}

/// The pairs of draws that draft a token and accept it, counted one by one, are as
/// many as [`drafting_and_accepting`] says.
pub proof fn law_accepting_pairs(p: Seq<int>, q: Seq<int>)
    requires
        nonnegative(p),
        nonnegative(q),
        p.len() == q.len() <= usize::MAX,
        total(q) > 0,
    ensures
        sum_below(
            DRAWS as nat,
            |d: int| sum_below(DRAWS as nat, |u: int| accepted_of(p, q, d, u)),
        ) == total(drafting_and_accepting(p, q)),
{
    let n = DRAWS as nat;
    let f = |d: int| sum_below(n, |u: int| accepted_of(p, q, d, u));
    let h = Seq::new(q.len(), |y: int| accepting(p[y], q[y]));
    assert forall|d: int, y: int|
        0 <= y < q.len() && cut(q, y) <= d < cut(q, y + 1) implies #[trigger] f(d)
        == #[trigger] h[y] by {
        lemma_cut_monotonic(q, y, y + 1);
        law_draws_that_select(q, d, y);
        let g = |u: int| accepted_of(p, q, d, u);
        law_draws_that_accept(p[y], q[y], 0);
        assert forall|u: int| 0 <= u < n implies #[trigger] g(u) == if u < accepting(p[y], q[y]) {
            1int
        } else {
            0
        } by {
            law_draws_that_accept(p[y], q[y], u);
        }
        lemma_sum_split(g, accepting(p[y], q[y]) as nat, n, 1, 0);
    }
    lemma_cuts_span(q);
    lemma_sum_by_index(q, f, h, q.len() as int);
    assert(Seq::new(q.len(), |y: int| selecting(q, y) * h[y]) =~= drafting_and_accepting(p, q));
}

/// The tokens that a round of `k` drafts emits on given draws: two for each draft,
/// up to the first that is rejected.
pub open spec fn tokens_on(p: Seq<int>, q: Seq<int>, k: nat, t: Seq<int>) -> int
    decreases k,
{
    if k > 0 && pair_accepts(p, q, t[0], t[1]) {
        1 + tokens_on(p, q, (k - 1) as nat, t.skip(2))
    } else {
        1
    }
}

proof fn lemma_after_next(s: RngState, n: nat)
    ensures
        s.next().after(n) == s.after(n + 1),
    decreases n,
{
    if n > 0 {
        lemma_after_next(s, (n - 1) as nat);
    } else {
        assert(s.after(1) == s.after(0).next());
    }
}

/// What follows the first draw of a stream.
proof fn lemma_stream_skip(s: RngState, l: nat)
    ensures
        stream(s, l + 1).skip(1) == stream(s.next(), l),
        stream(s, l + 1)[0] == s.draw(),
{
    assert forall|i: int| 0 <= i < l implies #[trigger] stream(s, l + 1).skip(1)[i] == stream(
        s.next(),
        l,
    )[i] by {
        lemma_after_next(s, i as nat);
    }
    assert(stream(s, l + 1).skip(1) =~= stream(s.next(), l));
    assert(s.after(0) == s);
}

/// The first draws of a stream, and what follows them.
proof fn lemma_stream(s: RngState, l: nat)
    requires
        l >= 2,
    ensures
        stream(s, l)[0] == s.draw(),
        stream(s, l)[1] == s.next().draw(),
        stream(s, l).skip(2) == stream(s.next().next(), (l - 2) as nat),
        l >= 3 ==> stream(s, l)[2] == s.next().next().draw(),
        l >= 3 ==> stream(s, l).skip(3) == stream(s.next().next().next(), (l - 3) as nat),
{
    let t = stream(s, l);
    lemma_stream_skip(s, (l - 1) as nat);
    lemma_stream_skip(s.next(), (l - 2) as nat);
    assert(t[1] == t.skip(1)[0]);
    assert(t.skip(2) =~= t.skip(1).skip(1));
    if l >= 3 {
        lemma_stream_skip(s.next().next(), (l - 3) as nat);
        assert(t[2] == t.skip(2)[0]);
        assert(t.skip(3) =~= t.skip(2).skip(1));
    }
}

/// A round emits what its draws say.
pub proof fn law_round_follows_draws(
    p: Seq<int>,
    q: Seq<int>,
    k: nat,
    l: nat,
    s: RngState,
)
    requires
        p.len() == q.len() <= usize::MAX,
        total(p) > 0,
        total(q) > 0,
        l >= 2 * k,
    ensures
        round(p, q, k, s).emitted == tokens_on(p, q, k, stream(s, l)),
{
    lemma_drafts_follow_draws(p, q, k, l, s);
}

proof fn lemma_drafts_follow_draws(p: Seq<int>, q: Seq<int>, k: nat, l: nat, s: RngState)
    requires
        p.len() == q.len() <= usize::MAX,
        total(p) > 0,
        total(q) > 0,
        l >= 2 * k,
    ensures
        drafts(p, q, k, s).accepted + 1 == tokens_on(p, q, k, stream(s, l)),
    decreases k,
{
    if k > 0 {
        lemma_stream(s, l);
        let t = scaled(total(q), s.draw() as int);
        lemma_draw_in_range(s);
        lemma_scaled_in_range(total(q), s.draw() as int);
        lemma_positives_cover(q);
        lemma_index_of(q, t);
        lemma_drafts_follow_draws(
            p,
            q,
            (k - 1) as nat,
            (l - 2) as nat,
            s.next().next(),
        );
    }
}

/// `unit^k + a * unit^(k-1) + ... + a^k`: the geometric sum at `a / unit`, as the
/// numerator over `unit^k`.
pub open spec fn geometric_over(a: int, unit: int, k: nat) -> int
    decreases k,
{
    if k == 0 {
        1
    } else {
        pow(unit, k) + a * geometric_over(a, unit, (k - 1) as nat)
    }
}

/// The mean of a round: over all tuples of draws, the tokens emitted add up to the
/// geometric sum at the part of the pairs of draws that draft a token and accept
/// it.
///
/// Of the `l` draws of a tuple the round takes at most `2 * k`; the rest only
/// multiplies both sides.
pub proof fn law_mean_tokens(p: Seq<int>, q: Seq<int>, k: nat, l: nat)
    requires
        nonnegative(p),
        nonnegative(q),
        p.len() == q.len() <= usize::MAX,
        total(q) > 0,
        l >= 2 * k,
    ensures
        tuples(2 * k) * over_tuples(l, |t: Seq<int>| tokens_on(p, q, k, t)) == geometric_over(
            total(drafting_and_accepting(p, q)),
            DRAWS * DRAWS,
            k,
        ) * tuples(l),
    decreases k,
{
    let f = |t: Seq<int>| tokens_on(p, q, k, t);
    lemma_tuples(0);
    if k == 0 {
        lemma_tuples_const(l, f, 1);
    } else {
        let n = DRAWS as nat;
        let j = (k - 1) as nat;
        let m = (l - 2) as nat;
        let a = total(drafting_and_accepting(p, q));
        let g = |t: Seq<int>| tokens_on(p, q, j, t);
        let rest = over_tuples(m, g);
        law_mean_tokens(p, q, j, m);
        lemma_two_draws(m, f);
        let rows = |d: int| sum_below(n, |u: int| after_two(m, f, d, u));
        let hits = |d: int| sum_below(n, |u: int| accepted_of(p, q, d, u));
        assert forall|d: int| 0 <= d < n implies 1 * #[trigger] rows(d) == rest * hits(d) + n
            * tuples(m) by {
            let row = |u: int| after_two(m, f, d, u);
            let hit = |u: int| accepted_of(p, q, d, u);
            assert forall|u: int| 0 <= u < n implies 1 * #[trigger] row(u) == rest * hit(u)
                + tuples(m) by {
                lemma_round_after_pair(p, q, k, m, d, u);
            }
            lemma_sum_affine(n, row, hit, 1, rest, tuples(m));
        }
        lemma_sum_affine(n, rows, hits, 1, rest, n * tuples(m));
        law_accepting_pairs(p, q);
        let sum = over_tuples(l, f);
        assert(sum == rest * a + n * (n * tuples(m)));
        lemma_tuples(m);
        lemma_tuples(m + 1);
        lemma_tuples(2 * j);
        lemma_tuples(2 * j + 1);
        let (x, y) = (tuples(2 * j), tuples(m));
        let b = geometric_over(a, DRAWS * DRAWS, j);
        assert(tuples(2 * k) == n * (n * x));
        assert(tuples(l) == n * (n * y));
        lemma_square_power(k);
        let big = n * (n * x);
        assert(big * (rest * a + n * (n * y)) == (big + a * b) * (n * (n * y)))
            by (nonlinear_arith)
            requires
                x * rest == b * y,
                big == n * (n * x),
        {
            assert(big * (rest * a) == (n * n) * a * (x * rest));
            assert((n * n) * a * (b * y) == (a * b) * (n * (n * y)));
            assert(big * (rest * a + n * (n * y)) == big * (rest * a) + big * (n * (n * y)));
            assert((big + a * b) * (n * (n * y)) == big * (n * (n * y)) + (a * b) * (n * (n * y)));
        }
    }
}

/// `(DRAWS * DRAWS)^k` is the number of tuples of `2 * k` draws.
proof fn lemma_square_power(k: nat)
    ensures
        pow(DRAWS * DRAWS, k) == tuples(2 * k),
    decreases k,
{
    reveal(pow);
    lemma_tuples(0);
    if k > 0 {
        let j = (k - 1) as nat;
        let d = DRAWS as int;
        lemma_square_power(j);
        lemma_tuples(2 * j);
        lemma_tuples(2 * j + 1);
        assert(pow(d * d, k) == (d * d) * pow(d * d, j));
        assert((d * d) * tuples(2 * j) == d * (d * tuples(2 * j))) by (nonlinear_arith);
    }
}

/// What a round emits over the tuples that begin with a given pair of draws.
proof fn lemma_round_after_pair(p: Seq<int>, q: Seq<int>, k: nat, m: nat, d: int, u: int)
    requires
        k > 0,
    ensures
        after_two(m, |t: Seq<int>| tokens_on(p, q, k, t), d, u) == over_tuples(
            m,
            |t: Seq<int>| tokens_on(p, q, (k - 1) as nat, t),
        ) * accepted_of(p, q, d, u) + tuples(m),
{
    let j = (k - 1) as nat;
    let f = |t: Seq<int>| tokens_on(p, q, k, t);
    let g = |t: Seq<int>| tokens_on(p, q, j, t);
    let h = |t: Seq<int>| f(seq![d] + (seq![u] + t));
    assert forall|t: Seq<int>| is_tuple(t, m) implies #[trigger] h(t) == 1 + accepted_of(
        p,
        q,
        d,
        u,
    ) * g(t) by {
        let v = seq![d] + (seq![u] + t);
        assert(v[0] == d && v[1] == u);
        assert(v.skip(2) =~= t);
        assert(1 * g(t) == g(t) && 0 * g(t) == 0);
    }
    let sum = over_tuples(m, g);
    if pair_accepts(p, q, d, u) {
        lemma_tuples_shift(m, g, h, 1);
        assert(sum * 1 == sum);
    } else {
        lemma_tuples_const(m, h, 1);
        assert(sum * 0 == 0);
    }
}

/// The tokens that `n` rounds of `k` drafts emit on given draws.
pub open spec fn rounds_on(p: Seq<int>, q: Seq<int>, k: nat, n: nat, t: Seq<int>) -> int
    decreases n, 0nat,
{
    if n == 0 {
        0
    } else {
        round_on(p, q, k, k, (n - 1) as nat, t)
    }
}

/// The tokens that a round with `left` drafts to go, and `n` rounds of `k` drafts
/// after it, emit on given draws. A round ends with the draw of its resampled or
/// its bonus token.
pub open spec fn round_on(
    p: Seq<int>,
    q: Seq<int>,
    k: nat,
    left: nat,
    n: nat,
    t: Seq<int>,
) -> int
    decreases n, left + 1,
{
    if left == 0 {
        1 + rounds_on(p, q, k, n, t.skip(1))
    } else if pair_accepts(p, q, t[0], t[1]) {
        1 + round_on(p, q, k, (left - 1) as nat, n, t.skip(2))
    } else {
        1 + rounds_on(p, q, k, n, t.skip(3))
    }
}

/// A round takes its draws from the stream, and leaves the rest to those after it.
proof fn lemma_round_takes(
    p: Seq<int>,
    q: Seq<int>,
    k: nat,
    left: nat,
    n: nat,
    l: nat,
    s: RngState,
)
    requires
        p.len() == q.len() <= usize::MAX,
        total(p) > 0,
        total(q) > 0,
        l >= 2 * left + 1,
    ensures
        ({
            let d = drafts(p, q, left, s);
            let end = if d.rejected {
                d.state
            } else {
                d.state.next()
            };
            &&& d.failure is None
            &&& d.examined <= left
            &&& round_on(p, q, k, left, n, stream(s, l)) == d.accepted + 1 + rounds_on(
                p,
                q,
                k,
                n,
                stream(end, (l - (2 * d.examined + 1)) as nat),
            )
        }),
    decreases left,
{
    if left == 0 {
        lemma_stream_skip(s, (l - 1) as nat);
    } else {
        lemma_stream(s, l);
        let t = scaled(total(q), s.draw() as int);
        lemma_draw_in_range(s);
        lemma_scaled_in_range(total(q), s.draw() as int);
        lemma_positives_cover(q);
        lemma_index_of(q, t);
        law_residual_exists(p, q);
        lemma_round_takes(
            p,
            q,
            k,
            (left - 1) as nat,
            n,
            (l - 2) as nat,
            s.next().next(),
        );
    }
}

/// A simulation emits what its draws say.
pub proof fn law_simulation_follows_draws(
    p: Seq<int>,
    q: Seq<int>,
    k: nat,
    n: nat,
    l: nat,
    s: RngState,
)
    requires
        p.len() == q.len() <= usize::MAX,
        total(p) > 0,
        total(q) > 0,
        l >= n * (2 * k + 1),
    ensures
        simulation(p, q, k, n, s).emitted == rounds_on(p, q, k, n, stream(s, l)),
    decreases n,
{
    if n > 0 {
        let j = (n - 1) as nat;
        assert(n * (2 * k + 1) == j * (2 * k + 1) + (2 * k + 1)) by (nonlinear_arith)
            requires
                j == n - 1,
        ;
        assert(0 <= j * (2 * k + 1)) by (nonlinear_arith);
        lemma_round_takes(p, q, k, k, j, l, s);
        let first = round(p, q, k, s);
        let d = drafts(p, q, k, s);
        law_simulation_succeeds(p, q, k, 1, s);
        law_simulation_follows_draws(
            p,
            q,
            k,
            j,
            (l - (2 * d.examined + 1)) as nat,
            first.state,
        );
    }
}

/// A draw that is not looked at multiplies a sum over tuples.
proof fn lemma_unused_draw(l: nat, f: spec_fn(Seq<int>) -> int, g: spec_fn(Seq<int>) -> int)
    requires
        forall|t: Seq<int>| is_tuple(t, l + 1) ==> #[trigger] g(t) == f(t.skip(1)),
    ensures
        over_tuples(l + 1, g) == DRAWS * over_tuples(l, f),
{
    let n = DRAWS as nat;
    let rows = |d: int| after_one(l, g, d);
    lemma_first_draw(l, g);
    assert forall|d: int| 0 <= d < n implies #[trigger] rows(d) == over_tuples(l, f) by {
        let gd = |t: Seq<int>| g(seq![d] + t);
        assert forall|t: Seq<int>| is_tuple(t, l) implies #[trigger] gd(t) == f(t) by {
            assert(is_tuple(seq![d] + t, l + 1));
            assert((seq![d] + t).skip(1) =~= t);
        }
        lemma_tuples_same(l, f, gd);
    }
    lemma_sum_range(rows, 0, n, over_tuples(l, f));
}

/// What rounds emit over the tuples that begin with a given pair of draws.
proof fn lemma_rounds_after_pair(
    p: Seq<int>,
    q: Seq<int>,
    k: nat,
    left: nat,
    n: nat,
    m: nat,
    d: int,
    u: int,
)
    requires
        left > 0,
        m >= 1,
    ensures
        ({
            let next = over_tuples(
                m,
                |t: Seq<int>| round_on(p, q, k, (left - 1) as nat, n, t),
            );
            let rest = DRAWS * over_tuples(
                (m - 1) as nat,
                |t: Seq<int>| rounds_on(p, q, k, n, t),
            );
            after_two(m, |t: Seq<int>| round_on(p, q, k, left, n, t), d, u) == (next - rest)
                * accepted_of(p, q, d, u) + (tuples(m) + rest)
        }),
{
    let f = |t: Seq<int>| round_on(p, q, k, left, n, t);
    let g = |t: Seq<int>| round_on(p, q, k, (left - 1) as nat, n, t);
    let e = |t: Seq<int>| rounds_on(p, q, k, n, t);
    let h = |t: Seq<int>| f(seq![d] + (seq![u] + t));
    let next = over_tuples(m, g);
    let rest = DRAWS * over_tuples((m - 1) as nat, e);
    assert((next - rest) * 1 == next - rest && (next - rest) * 0 == 0);
    if pair_accepts(p, q, d, u) {
        assert forall|t: Seq<int>| is_tuple(t, m) implies #[trigger] h(t) == 1 + g(t) by {
            let v = seq![d] + (seq![u] + t);
            assert(v[0] == d && v[1] == u);
            assert(v.skip(2) =~= t);
        }
        lemma_tuples_shift(m, g, h, 1);
    } else {
        let skipped = |t: Seq<int>| e(t.skip(1));
        assert forall|t: Seq<int>| is_tuple(t, m) implies #[trigger] h(t) == 1 + skipped(t) by {
            let v = seq![d] + (seq![u] + t);
            assert(v[0] == d && v[1] == u);
            assert(v.skip(3) =~= t.skip(1));
        }
        lemma_tuples_shift(m, skipped, h, 1);
        lemma_unused_draw((m - 1) as nat, e, skipped);
    }
}

/// The mean of a round with `left` drafts to go and of `n` rounds after it.
proof fn lemma_mean_round(p: Seq<int>, q: Seq<int>, k: nat, left: nat, n: nat, l: nat)
    requires
        nonnegative(p),
        nonnegative(q),
        p.len() == q.len() <= usize::MAX,
        total(q) > 0,
        left <= k,
        l >= n * (2 * k + 1) + 2 * left + 1,
    ensures
        ({
            let a = total(drafting_and_accepting(p, q));
            tuples(2 * k) * over_tuples(l, |t: Seq<int>| round_on(p, q, k, left, n, t)) == (tuples(
                (2 * (k - left)) as nat,
            ) * geometric_over(a, DRAWS * DRAWS, left) + n * geometric_over(a, DRAWS * DRAWS, k))
                * tuples(l)
        }),
    decreases n, left + 1,
{
    let draws = DRAWS as nat;
    let a = total(drafting_and_accepting(p, q));
    let whole = geometric_over(a, DRAWS * DRAWS, k);
    let f = |t: Seq<int>| round_on(p, q, k, left, n, t);
    let e = |t: Seq<int>| rounds_on(p, q, k, n, t);
    let sum = over_tuples(l, f);
    let big = tuples(2 * k);
    assert(0 <= n * (2 * k + 1)) by (nonlinear_arith);
    if left == 0 {
        let j = (l - 1) as nat;
        let skipped = |t: Seq<int>| e(t.skip(1));
        assert forall|t: Seq<int>| is_tuple(t, l) implies #[trigger] f(t) == 1 + skipped(t) by {}
        lemma_tuples_shift(l, skipped, f, 1);
        lemma_unused_draw(j, e, skipped);
        law_mean_simulation(p, q, k, n, j);
        lemma_tuples(j);
        let (x, y) = (over_tuples(j, e), tuples(j));
        assert(big * (draws * y + draws * x) == (big * 1 + n * whole) * (draws * y))
            by (nonlinear_arith)
            requires
                big * x == n * whole * y,
        {
            assert(big * (draws * y + draws * x) == big * (draws * y) + draws * (big * x));
            assert(draws * (n * whole * y) == (n * whole) * (draws * y));
        }
    } else {
        let m = (l - 2) as nat;
        let i = (m - 1) as nat;
        let less = (left - 1) as nat;
        let g = |t: Seq<int>| round_on(p, q, k, less, n, t);
        let next = over_tuples(m, g);
        let rest = draws * over_tuples(i, e);
        lemma_mean_round(p, q, k, less, n, m);
        law_mean_simulation(p, q, k, n, i);
        lemma_two_draws(m, f);
        let flat = tuples(m) + rest;
        let gain = next - rest;
        let rows = |d: int| sum_below(draws, |u: int| after_two(m, f, d, u));
        let hits = |d: int| sum_below(draws, |u: int| accepted_of(p, q, d, u));
        assert forall|d: int| 0 <= d < draws implies 1 * #[trigger] rows(d) == gain * hits(d)
            + draws * flat by {
            let row = |u: int| after_two(m, f, d, u);
            let hit = |u: int| accepted_of(p, q, d, u);
            assert forall|u: int| 0 <= u < draws implies 1 * #[trigger] row(u) == gain * hit(u)
                + flat by {
                lemma_rounds_after_pair(p, q, k, left, n, m, d, u);
            }
            lemma_sum_affine(draws, row, hit, 1, gain, flat);
        }
        lemma_sum_affine(draws, rows, hits, 1, gain, draws * flat);
        law_accepting_pairs(p, q);
        assert(sum == gain * a + draws * (draws * flat));
        lemma_tuples(i);
        lemma_tuples(m);
        lemma_tuples(m + 1);
        let back = (2 * (k - left)) as nat;
        lemma_tuples(back);
        lemma_tuples(back + 1);
        lemma_square_power(left);
        lemma_pow_adds(DRAWS as int, back, 2 * left);
        let c = tuples(back);
        let inner = geometric_over(a, DRAWS * DRAWS, less);
        let outer = geometric_over(a, DRAWS * DRAWS, left);
        assert(big == c * tuples(2 * left));
        assert(outer == tuples(2 * left) + a * inner);
        assert(tuples((2 * (k - less)) as nat) == draws * (draws * c));
        lemma_round_algebra(
            draws as int,
            big,
            tuples(m),
            tuples(i),
            over_tuples(i, e),
            next,
            a,
            c,
            inner,
            n * whole,
        );
        assert(c * outer == big + c * (a * inner)) by (nonlinear_arith)
            requires
                outer == tuples(2 * left) + a * inner,
                big == c * tuples(2 * left),
        ;
    }
}

/// The algebra of one draft: what the rounds emit after acceptance and after
/// rejection, put together.
proof fn lemma_round_algebra(
    d: int,
    big: int,
    y: int,
    z: int,
    x: int,
    next: int,
    a: int,
    c: int,
    inner: int,
    later: int,
)
    requires
        y == d * z,
        big * x == later * z,
        big * next == (d * (d * c) * inner + later) * y,
    ensures
        big * ((next - d * x) * a + d * (d * (y + d * x))) == (big + c * (a * inner) + later) * (d
            * (d * y)),
{
    let rest = d * x;
    let w = d * (d * y);
    assert(big * rest == later * y) by (nonlinear_arith)
        requires
            rest == d * x,
            big * x == later * z,
            y == d * z,
    {
        assert(big * (d * x) == d * (big * x));
        assert(d * (later * z) == later * (d * z));
    }
    assert(big * (next - rest) == big * next - big * rest) by (nonlinear_arith);
    let v = d * (d * c) * inner;
    assert((v + later) * y - later * y == v * y) by (nonlinear_arith);
    assert(big * ((next - rest) * a) == a * (big * (next - rest))) by (nonlinear_arith);
    assert(a * (v * y) == (c * (a * inner)) * w) by (nonlinear_arith)
        requires
            v == d * (d * c) * inner,
            w == d * (d * y),
    ;
    assert(big * (d * (d * (y + rest))) == big * w + d * (d * (big * rest))) by (nonlinear_arith)
        requires
            w == d * (d * y),
    ;
    assert(d * (d * (later * y)) == later * w) by (nonlinear_arith)
        requires
            w == d * (d * y),
    ;
    let t = (next - rest) * a;
    let u = d * (d * (y + rest));
    assert(big * (t + u) == big * t + big * u) by (nonlinear_arith);
    let k = c * (a * inner);
    assert((big + k + later) * w == big * w + k * w + later * w) by (nonlinear_arith);
}

/// The mean of a simulation: over all tuples of draws, the tokens that `n` rounds
/// emit add up to `n` times the geometric sum at the part of the pairs of draws that
/// draft a token and accept it.
///
/// Of the `l` draws of a tuple each round takes at most `2 * k + 1`; the rest only
/// multiplies both sides.
pub proof fn law_mean_simulation(p: Seq<int>, q: Seq<int>, k: nat, n: nat, l: nat)
    requires
        nonnegative(p),
        nonnegative(q),
        p.len() == q.len() <= usize::MAX,
        total(q) > 0,
        l >= n * (2 * k + 1),
    ensures
        tuples(2 * k) * over_tuples(l, |t: Seq<int>| rounds_on(p, q, k, n, t)) == n
            * geometric_over(total(drafting_and_accepting(p, q)), DRAWS * DRAWS, k) * tuples(l),
    decreases n, 0nat,
{
    let f = |t: Seq<int>| rounds_on(p, q, k, n, t);
    let g = geometric_over(total(drafting_and_accepting(p, q)), DRAWS * DRAWS, k);
    if n == 0 {
        lemma_tuples_const(l, f, 0);
        assert(tuples(2 * k) * (0 * tuples(l)) == 0 * g * tuples(l)) by (nonlinear_arith);
    } else {
        let j = (n - 1) as nat;
        assert(n * (2 * k + 1) == j * (2 * k + 1) + 2 * k + 1) by (nonlinear_arith)
            requires
                j == n - 1,
        ;
        lemma_mean_round(p, q, k, k, j, l);
        lemma_tuples_same(l, |t: Seq<int>| round_on(p, q, k, k, j, t), f);
        lemma_tuples(0);
        assert(1 * g + j * g == n * g) by (nonlinear_arith)
            requires
                j == n - 1,
        ;
    }
}

/// The closed form: `G * (1 - x) = 1 - x^(k+1)` at `x = a / unit`, with both sides
/// times `unit^(k+1)`.
pub proof fn law_geometric_closed_form(a: int, unit: int, k: nat)
    ensures
        (unit - a) * geometric_over(a, unit, k) == pow(unit, k + 1) - pow(a, k + 1),
    decreases k,
{
    reveal(pow);
    if k == 0 {
        lemma_pow1(unit);
        lemma_pow1(a);
    } else {
        let j = (k - 1) as nat;
        law_geometric_closed_form(a, unit, j);
        let g = geometric_over(a, unit, j);
        let (x, y) = (pow(unit, k), pow(a, k));
        assert(pow(unit, k + 1) == unit * x);
        assert(pow(a, k + 1) == a * y);
        assert((unit - a) * (x + a * g) == unit * x - a * y) by (nonlinear_arith)
            requires
                (unit - a) * g == x - y,
        ;
    }
}

/// The geometric sum depends on `a / unit` alone.
pub proof fn law_geometric_scales(a: int, unit: int, c: int, k: nat)
    ensures
        geometric_over(a * c, unit * c, k) == pow(c, k) * geometric_over(a, unit, k),
    decreases k,
{
    reveal(pow);
    if k > 0 {
        let j = (k - 1) as nat;
        law_geometric_scales(a, unit, c, j);
        lemma_pow_distributes(unit, c, k);
        let g = geometric_over(a, unit, j);
        let (x, y) = (pow(unit, k), pow(c, j));
        assert(pow(c, k) == c * y);
        assert(x * (c * y) + (a * c) * (y * g) == (c * y) * (x + a * g)) by (nonlinear_arith);
    }
}

/// In an exact pair the pairs of draws that accept are those whose first draw is
/// one of the first `alpha` parts, rounded up to a whole draw.
pub proof fn law_pair_accepting_pairs(vocab: nat, alpha: int, seed: u64)
    requires
        2 <= vocab <= usize::MAX,
        0 <= alpha <= ONE,
    ensures
        ({
            let p = pair_target(vocab, seed);
            let q = pair_draft(vocab, alpha, p);
            total(drafting_and_accepting(p, q)) == ceil_div(alpha * DRAWS, ONE as int) * DRAWS
        }),
{
    let n = DRAWS as nat;
    let p = pair_target(vocab, seed);
    let q = pair_draft(vocab, alpha, p);
    let c = ceil_div(alpha * DRAWS, ONE as int);
    law_pair_has_requested_overlap(vocab, alpha, seed);
    law_accepting_pairs(p, q);
    lemma_ceil_div(alpha * DRAWS, ONE as int);
    assert(0 <= c <= DRAWS) by (nonlinear_arith)
        requires
            alpha * DRAWS <= ONE * c < alpha * DRAWS + ONE,
            0 <= alpha <= ONE,
    ;
    let rows = |d: int| sum_below(n, |u: int| accepted_of(p, q, d, u));
    assert forall|d: int| 0 <= d < n implies #[trigger] rows(d) == if d < c {
        n as int
    } else {
        0
    } by {
        let row = |u: int| accepted_of(p, q, d, u);
        assert forall|u: int| 0 <= u < n implies #[trigger] row(u) == if d < c {
            1int
        } else {
            0
        } by {
            law_pair_acceptance_draws(vocab, alpha, seed, d, u);
        }
        if d < c {
            lemma_sum_range(row, 0, n, 1);
        } else {
            lemma_sum_range(row, 0, n, 0);
        }
    }
    lemma_sum_split(rows, c as nat, n, n as int, 0);
}

/// The mean of a simulation of an exact pair: over all tuples of draws, the tokens
/// that `n` rounds emit add up to `n` times the geometric sum at `alpha`, rounded up
/// to a whole draw.
pub proof fn law_pair_mean_simulation(
    vocab: nat,
    alpha: int,
    seed: u64,
    k: nat,
    n: nat,
    l: nat,
)
    requires
        2 <= vocab <= usize::MAX,
        0 <= alpha <= ONE,
        l >= n * (2 * k + 1),
    ensures
        ({
            let p = pair_target(vocab, seed);
            let q = pair_draft(vocab, alpha, p);
            tuples(k) * over_tuples(l, |t: Seq<int>| rounds_on(p, q, k, n, t)) == n
                * geometric_over(ceil_div(alpha * DRAWS, ONE as int), DRAWS as int, k) * tuples(l)
        }),
{
    let d = DRAWS as int;
    let p = pair_target(vocab, seed);
    let q = pair_draft(vocab, alpha, p);
    let c = ceil_div(alpha * DRAWS, ONE as int);
    let sum = over_tuples(l, |t: Seq<int>| rounds_on(p, q, k, n, t));
    law_pair_has_requested_overlap(vocab, alpha, seed);
    law_mean_simulation(p, q, k, n, l);
    law_pair_accepting_pairs(vocab, alpha, seed);
    law_geometric_scales(c, d, d, k);
    lemma_square_power(k);
    lemma_pow_distributes(d, d, k);
    lemma_tuples(k);
    let (x, g, y) = (tuples(k), geometric_over(c, d, k), tuples(l));
    assert(n * (x * g) * y == x * (n * g * y)) by (nonlinear_arith);
    assert((x * x) * sum == x * (x * sum)) by (nonlinear_arith);
    assert(x * sum == n * g * y) by (nonlinear_arith)
        requires
            x * (x * sum) == x * (n * g * y),
            x > 0,
    ;
}

/// The geometric sum grows with its argument, by at most `k * (k + 1) / 2` times
/// what that does.
proof fn lemma_geometric_close(a: int, b: int, unit: int, k: nat)
    requires
        0 <= a <= b <= unit,
        0 < unit,
    ensures
        0 <= geometric_over(a, unit, k) <= (k + 1) * pow(unit, k),
        0 <= 2 * unit * (geometric_over(b, unit, k) - geometric_over(a, unit, k)) <= (b - a) * (k
            * (k + 1)) * pow(unit, k),
    decreases k,
{
    reveal(pow);
    let e = b - a;
    if k == 0 {
        assert(e * 0 * 1 == 0 && 2 * unit * 0 == 0);
    } else {
        let j = (k - 1) as nat;
        lemma_geometric_close(a, b, unit, j);
        lemma_pow_positive(unit, j);
        let x = pow(unit, j);
        let (f, g) = (geometric_over(a, unit, j), geometric_over(b, unit, j));
        let y = unit * x;
        assert(pow(unit, k) == y);
        assert(0 <= a * f <= k * y && 0 <= y) by (nonlinear_arith)
            requires
                0 <= f <= k * x,
                0 <= a <= unit,
                y == unit * x,
                x > 0,
        {
            assert(a * f <= unit * f);
            assert(unit * f <= unit * (k * x));
        }
        assert((k + 1) * y == k * y + y) by (nonlinear_arith);
        let gap = 2 * unit * (g - f);
        let step = 2 * unit * (e * f);
        assert(2 * unit * (b * g - a * f) == b * gap + step) by (nonlinear_arith)
            requires
                gap == 2 * unit * (g - f),
                step == 2 * unit * (e * f),
                e == b - a,
        ;
        let most = e * (j * k) * x;
        assert(0 <= b * gap <= unit * most) by (nonlinear_arith)
            requires
                0 <= gap <= most,
                0 <= b <= unit,
        ;
        assert(0 <= step <= 2 * (e * k) * y) by (nonlinear_arith)
            requires
                step == 2 * unit * (e * f),
                0 <= f <= k * x,
                0 <= e,
                0 < unit,
                y == unit * x,
        {
            assert(0 <= e * f <= e * (k * x));
            assert(2 * unit * (e * (k * x)) == 2 * (e * k) * y);
        }
        assert(unit * most + 2 * (e * k) * y == e * (k * (k + 1)) * y) by (nonlinear_arith)
            requires
                most == e * (j * k) * x,
                y == unit * x,
                j == k - 1,
        ;
    }
}

/// The simulator and the model agree: the mean of a round of an exact pair, the
/// geometric sum at `alpha` rounded up to a whole draw, exceeds the exact one at
/// `alpha` by at most `k * (k + 1) / 2` draws of all `DRAWS`.
pub proof fn law_pair_mean_close_to_model(alpha: int, k: nat)
    requires
        0 <= alpha <= ONE,
    ensures
        ({
            let c = ceil_div(alpha * DRAWS, ONE as int);
            let one = pow(ONE as int, k);
            let excess = one * geometric_over(c, DRAWS as int, k) - tuples(k) * geometric_numerator(
                alpha,
                k,
            );
            0 <= 2 * DRAWS * excess <= k * (k + 1) * (one * tuples(k))
        }),
{
    let d = DRAWS as int;
    let one = ONE as int;
    let c = ceil_div(alpha * DRAWS, ONE as int);
    let (a, b, unit) = (alpha * d, c * one, d * one);
    lemma_ceil_div(alpha * DRAWS, ONE as int);
    assert(0 <= a <= b <= unit && b - a < one) by (nonlinear_arith)
        requires
            alpha * d <= one * c < alpha * d + one,
            0 <= alpha <= one,
            a == alpha * d,
            b == c * one,
            unit == d * one,
            d > 0,
            one > 0,
    {
        assert(c <= d);
    }
    lemma_geometric_close(a, b, unit, k);
    law_geometric_scales(c, d, one, k);
    law_geometric_scales(alpha, one, d, k);
    lemma_geometric_numerator(alpha, k);
    lemma_pow_distributes(d, one, k);
    assert(one * d == unit) by (nonlinear_arith)
        requires
            unit == d * one,
    ;
    lemma_pow_positive(one, k);
    lemma_tuples(k);
    let (x, y) = (pow(one, k), tuples(k));
    let excess = x * geometric_over(c, d, k) - y * geometric_numerator(alpha, k);
    let z = k * (k + 1);
    let w = x * y;
    assert(pow(unit, k) == w) by (nonlinear_arith)
        requires
            pow(unit, k) == y * x,
            w == x * y,
    ;
    assert(0 <= z && 0 < w) by (nonlinear_arith)
        requires
            z == k * (k + 1),
            w == x * y,
            x > 0,
            y > 0,
    ;
    assert((b - a) * z * w <= one * (z * w)) by (nonlinear_arith)
        requires
            b - a <= one,
            0 <= z,
            0 < w,
    {
        assert(0 <= z * w);
        assert((b - a) * z * w == (b - a) * (z * w));
    }
    let v = 2 * d * excess;
    assert(2 * unit * excess == one * v) by (nonlinear_arith)
        requires
            unit == d * one,
            v == 2 * d * excess,
    ;
    assert(0 <= v <= z * w) by (nonlinear_arith)
        requires
            0 <= one * v <= one * (z * w),
            one > 0,
    ;
}

/// Over `ONE` the geometric sum is that of the analytical model.
proof fn lemma_geometric_numerator(alpha: int, k: nat)
    ensures
        geometric_over(alpha, ONE as int, k) == geometric_numerator(alpha, k),
    decreases k,
{
    if k > 0 {
        lemma_geometric_numerator(alpha, (k - 1) as nat);
    }
}

/// What a run of `n` steps on given draws comes to, where each step adds the score
/// of the token that it emits and of whether that was the draft. A step takes a
/// draw for the draft, one for the acceptance and, on rejection, one for the
/// resampling from `w`.
pub open spec fn run_score(
    p: Seq<int>,
    q: Seq<int>,
    w: Seq<int>,
    n: nat,
    t: Seq<int>,
    score: spec_fn(usize, bool) -> int,
) -> int
    decreases n,
{
    if n == 0 {
        0
    } else if pair_accepts(p, q, t[0], t[1]) {
        score(categorical(q, t[0])->0, true) + run_score(
            p,
            q,
            w,
            (n - 1) as nat,
            t.skip(2),
            score,
        )
    } else {
        score(categorical(w, t[2])->0, false) + run_score(
            p,
            q,
            w,
            (n - 1) as nat,
            t.skip(3),
            score,
        )
    }
}

/// What `n` steps come to from a state of the generator: each samples a draft and
/// puts it through a speculative step.
pub open spec fn scored_run(
    p: Seq<int>,
    q: Seq<int>,
    n: nat,
    s: RngState,
    score: spec_fn(usize, bool) -> int,
) -> int
    decreases n,
{
    if n == 0 {
        0
    } else {
        match sampled(q, s) {
            (Some(x), s1) => match step(p, q, x as int, s1) {
                (Ok((token, outcome)), s2) => score(token, outcome == StepOutcome::Accepted)
                    + scored_run(p, q, (n - 1) as nat, s2, score),
                _ => 0,
            },
            _ => 0,
        }
    }
}

/// A run comes to what its draws say.
pub proof fn law_run_follows_draws(
    p: Seq<int>,
    q: Seq<int>,
    w: Seq<int>,
    n: nat,
    l: nat,
    s: RngState,
    score: spec_fn(usize, bool) -> int,
)
    requires
        total(q) > 0,
        q.len() <= usize::MAX,
        residual(p, q) == Ok::<Seq<int>, SamplingError>(w),
        l >= 3 * n,
    ensures
        scored_run(p, q, n, s, score) == run_score(p, q, w, n, stream(s, l), score),
    decreases n,
{
    if n > 0 {
        let j = (n - 1) as nat;
        let t = scaled(total(q), s.draw() as int);
        lemma_stream(s, l);
        lemma_draw_in_range(s);
        lemma_scaled_in_range(total(q), s.draw() as int);
        lemma_positives_cover(q);
        lemma_index_of(q, t);
        law_residual_is_a_distribution(p, q, w);
        let s2 = s.next().next();
        law_run_follows_draws(p, q, w, j, (l - 2) as nat, s2, score);
        law_run_follows_draws(p, q, w, j, (l - 3) as nat, s2.next(), score);
    }
}

/// One for each token `x`.
pub open spec fn counting(x: usize) -> spec_fn(usize, bool) -> int {
    |token: usize, accepted: bool|
        if token == x {
            1int
        } else {
            0
        }
}

/// One for each accepted draft.
pub open spec fn acceptances() -> spec_fn(usize, bool) -> int {
    |token: usize, accepted: bool|
        if accepted {
            1int
        } else {
            0
        }
}

/// Trials count the accepted drafts of a run.
pub proof fn law_trials_score_acceptances(p: Seq<int>, q: Seq<int>, n: nat, s: RngState)
    ensures
        trial_run(p, q, n, s).1 == scored_run(p, q, n, s, acceptances()),
    decreases n,
{
    if n > 0 {
        if let (Some(x), s1) = sampled(q, s) {
            if let (Ok(_), s2) = step(p, q, x as int, s1) {
                law_trials_score_acceptances(p, q, (n - 1) as nat, s2);
            }
        }
    }
}

/// What one triple of draws scores.
pub open spec fn triple_score(
    p: Seq<int>,
    q: Seq<int>,
    w: Seq<int>,
    score: spec_fn(usize, bool) -> int,
    d: int,
    u: int,
    r: int,
) -> int {
    if pair_accepts(p, q, d, u) {
        score(categorical(q, d)->0, true)
    } else {
        score(categorical(w, r)->0, false)
    }
}

/// The scores of all triples of draws that begin with a given pair.
pub open spec fn pair_score(
    p: Seq<int>,
    q: Seq<int>,
    w: Seq<int>,
    score: spec_fn(usize, bool) -> int,
    d: int,
    u: int,
) -> int {
    sum_below(DRAWS as nat, |r: int| triple_score(p, q, w, score, d, u, r))
}

/// The scores of all triples of draws.
pub open spec fn total_score(
    p: Seq<int>,
    q: Seq<int>,
    w: Seq<int>,
    score: spec_fn(usize, bool) -> int,
) -> int {
    sum_below(
        DRAWS as nat,
        |d: int| sum_below(DRAWS as nat, |u: int| pair_score(p, q, w, score, d, u)),
    )
}

/// A run over the tuples that begin with a given pair of draws: the scores of the
/// first step, and a run of one step less.
proof fn lemma_run_after_pair(
    p: Seq<int>,
    q: Seq<int>,
    w: Seq<int>,
    n: nat,
    m: nat,
    score: spec_fn(usize, bool) -> int,
    d: int,
    u: int,
)
    requires
        n > 0,
        m >= 1,
    ensures
        ({
            let j = (n - 1) as nat;
            let g = |t: Seq<int>| run_score(p, q, w, j, t, score);
            DRAWS * after_two(m, |t: Seq<int>| run_score(p, q, w, n, t, score), d, u) == pair_score(
                p,
                q,
                w,
                score,
                d,
                u,
            ) * tuples(m) + DRAWS * (if pair_accepts(p, q, d, u) {
                over_tuples(m, g)
            } else {
                DRAWS * over_tuples((m - 1) as nat, g)
            })
        }),
{
    let j = (n - 1) as nat;
    let k = (m - 1) as nat;
    let draws = DRAWS as nat;
    let f = |t: Seq<int>| run_score(p, q, w, n, t, score);
    let g = |t: Seq<int>| run_score(p, q, w, j, t, score);
    let h = |t: Seq<int>| f(seq![d] + (seq![u] + t));
    let triples = |r: int| triple_score(p, q, w, score, d, u, r);
    lemma_tuples(k);
    if pair_accepts(p, q, d, u) {
        let c = score(categorical(q, d)->0, true);
        assert forall|t: Seq<int>| is_tuple(t, m) implies #[trigger] h(t) == c + g(t) by {
            let v = seq![d] + (seq![u] + t);
            assert(v[0] == d && v[1] == u);
            assert(v.skip(2) =~= t);
        }
        lemma_tuples_shift(m, g, h, c);
        lemma_sum_range(triples, 0, draws, c);
        assert(draws * (c * tuples(m) + over_tuples(m, g)) == (draws * c) * tuples(m) + draws
            * over_tuples(m, g)) by (nonlinear_arith);
    } else {
        let rest = over_tuples(k, g);
        let thirds = |r: int| after_one(k, h, r);
        lemma_first_draw(k, h);
        assert forall|r: int| 0 <= r < draws implies 1 * #[trigger] thirds(r) == tuples(k)
            * triples(r) + rest by {
            let c = triples(r);
            let hr = |t: Seq<int>| h(seq![r] + t);
            assert forall|t: Seq<int>| is_tuple(t, k) implies #[trigger] hr(t) == c + g(t) by {
                let v = seq![d] + (seq![u] + (seq![r] + t));
                assert(v[0] == d && v[1] == u && v[2] == r);
                assert(v.skip(3) =~= t);
            }
            lemma_tuples_shift(k, g, hr, c);
            assert(c * tuples(k) == tuples(k) * c) by (nonlinear_arith);
        }
        lemma_sum_affine(draws, thirds, triples, 1, tuples(k), rest);
        let x = sum_below(draws, triples);
        let y = tuples(k);
        assert(draws * (y * x + draws * rest) == x * (draws * y) + draws * (draws * rest))
            by (nonlinear_arith);
    }
}

/// The mean of a run: over all tuples of draws, a run of `n` steps comes to `n`
/// times what one step comes to over all triples.
///
/// Of the `l` draws of a tuple the run takes at most `3 * n`; the rest only
/// multiplies both sides.
pub proof fn law_mean_of_run(
    p: Seq<int>,
    q: Seq<int>,
    w: Seq<int>,
    n: nat,
    l: nat,
    score: spec_fn(usize, bool) -> int,
)
    requires
        l >= 3 * n,
    ensures
        tuples(3) * over_tuples(l, |t: Seq<int>| run_score(p, q, w, n, t, score)) == n
            * total_score(p, q, w, score) * tuples(l),
    decreases n,
{
    let f = |t: Seq<int>| run_score(p, q, w, n, t, score);
    let sum = total_score(p, q, w, score);
    if n == 0 {
        lemma_tuples_const(l, f, 0);
        assert(tuples(3) * (0 * tuples(l)) == 0 * sum * tuples(l)) by (nonlinear_arith);
    } else {
        let draws = DRAWS as nat;
        let j = (n - 1) as nat;
        let m = (l - 2) as nat;
        let k = (l - 3) as nat;
        let g = |t: Seq<int>| run_score(p, q, w, j, t, score);
        law_mean_of_run(p, q, w, j, m, score);
        law_mean_of_run(p, q, w, j, k, score);
        lemma_two_draws(m, f);
        lemma_tuples(0);
        lemma_tuples(1);
        lemma_tuples(2);
        lemma_tuples(k);
        lemma_tuples(m);
        lemma_tuples(m + 1);
        let e = j * sum * tuples(m);
        let cube = tuples(3);
        let c = draws * cube;
        let y = cube * tuples(m);
        let rows = |d: int| sum_below(draws, |u: int| after_two(m, f, d, u));
        let marks = |d: int| sum_below(draws, |u: int| pair_score(p, q, w, score, d, u));
        assert forall|d: int| 0 <= d < draws implies c * #[trigger] rows(d) == y * marks(d) + draws
            * (draws * e) by {
            let row = |u: int| after_two(m, f, d, u);
            let mark = |u: int| pair_score(p, q, w, score, d, u);
            assert forall|u: int| 0 <= u < draws implies c * #[trigger] row(u) == y * mark(u)
                + draws * e by {
                lemma_run_after_pair(p, q, w, n, m, score, d, u);
                let (a, b) = (row(u), mark(u));
                let rest = if pair_accepts(p, q, d, u) {
                    over_tuples(m, g)
                } else {
                    draws * over_tuples(k, g)
                };
                let (x, z) = (tuples(k), over_tuples(k, g));
                assert(cube * (draws * z) == j * sum * (draws * x)) by (nonlinear_arith)
                    requires
                        cube * z == j * sum * x,
                {
                    assert(cube * (draws * z) == draws * (cube * z));
                    assert(draws * (j * sum * x) == j * sum * (draws * x));
                }
                assert(cube * rest == e);
                let v = tuples(m);
                assert((draws * cube) * a == (cube * v) * b + draws * e) by (nonlinear_arith)
                    requires
                        draws * a == b * v + draws * rest,
                        cube * rest == e,
                {
                    assert((draws * cube) * a == cube * (draws * a));
                    assert(cube * (b * v + draws * rest) == (cube * v) * b + draws * (cube
                        * rest));
                }
            }
            lemma_sum_affine(draws, row, mark, c, y, draws * e);
        }
        lemma_sum_affine(draws, rows, marks, c, y, draws * (draws * e));
        let whole = over_tuples(l, f);
        let v = tuples(m);
        assert(c * whole == y * sum + draws * (draws * (draws * e)));
        assert(tuples(l) == draws * (draws * v));
        assert(cube == draws * (draws * draws)) by (nonlinear_arith)
            requires
                cube == draws * (draws * (draws * 1)),
        ;
        assert(cube * whole == n * sum * (draws * (draws * v))) by (nonlinear_arith)
            requires
                (draws * cube) * whole == (cube * v) * sum + draws * (draws * (draws * (j * sum
                    * v))),
                cube == draws * (draws * draws),
                n == j + 1,
                draws > 0,
        {
            let square = draws * draws;
            assert((cube * v) * sum == draws * (sum * (square * v)));
            assert(draws * (draws * (draws * (j * sum * v))) == draws * (j * sum * (square * v)));
            assert((draws * cube) * whole == draws * (cube * whole));
            assert(draws * (cube * whole) == draws * (sum * (square * v) + j * sum * (square
                * v)));
            assert(cube * whole == sum * (square * v) + j * sum * (square * v));
            assert(sum * (square * v) + j * sum * (square * v) == n * sum * (square * v));
            assert(draws * (draws * v) == square * v);
        }
    }
}

/// What resampled tokens score over all draws.
pub open spec fn resampled_score(w: Seq<int>, score: spec_fn(usize, bool) -> int) -> int {
    sum_below(DRAWS as nat, |r: int| score(categorical(w, r)->0, false))
}

/// What a draft of `y` scores over all pairs of an acceptance and a resampling
/// draw.
pub open spec fn draft_score(
    p: Seq<int>,
    q: Seq<int>,
    w: Seq<int>,
    score: spec_fn(usize, bool) -> int,
    y: int,
) -> int {
    accepting(p[y], q[y]) * (DRAWS * score(y as usize, true)) + (DRAWS - accepting(p[y], q[y]))
        * resampled_score(w, score)
}

/// The scores of all triples of draws, by the token that is drafted.
proof fn lemma_total_score(
    p: Seq<int>,
    q: Seq<int>,
    w: Seq<int>,
    score: spec_fn(usize, bool) -> int,
)
    requires
        nonnegative(p),
        nonnegative(q),
        p.len() == q.len() <= usize::MAX,
        total(q) > 0,
    ensures
        total_score(p, q, w, score) == total(
            Seq::new(q.len(), |y: int| selecting(q, y) * draft_score(p, q, w, score, y)),
        ),
{
    let n = DRAWS as nat;
    let rows = |d: int| sum_below(n, |u: int| pair_score(p, q, w, score, d, u));
    let h = Seq::new(q.len(), |y: int| draft_score(p, q, w, score, y));
    assert forall|d: int, y: int|
        0 <= y < q.len() && cut(q, y) <= d < cut(q, y + 1) implies #[trigger] rows(d)
        == #[trigger] h[y] by {
        lemma_cut_monotonic(q, y, y + 1);
        law_draws_that_select(q, d, y);
        law_draws_that_accept(p[y], q[y], 0);
        let a = accepting(p[y], q[y]);
        let row = |u: int| pair_score(p, q, w, score, d, u);
        let c = score(y as usize, true);
        assert forall|u: int| 0 <= u < n implies #[trigger] row(u) == if u < a {
            n * c
        } else {
            resampled_score(w, score)
        } by {
            law_draws_that_accept(p[y], q[y], u);
            let cells = |r: int| triple_score(p, q, w, score, d, u, r);
            if u < a {
                lemma_sum_range(cells, 0, n, c);
            } else {
                lemma_sum_same(n, cells, |r: int| score(categorical(w, r)->0, false));
            }
        }
        lemma_sum_split(row, a as nat, n, n * c, resampled_score(w, score));
    }
    lemma_cuts_span(q);
    lemma_sum_by_index(q, rows, h, q.len() as int);
    assert(Seq::new(q.len(), |y: int| selecting(q, y) * h[y]) =~= Seq::new(
        q.len(),
        |y: int| selecting(q, y) * draft_score(p, q, w, score, y),
    ));
}

/// The triples of draws that emit `x`, counted one by one, are as many as
/// [`emitting`] says.
pub proof fn law_emitting_triples(p: Seq<int>, q: Seq<int>, w: Seq<int>, x: int)
    requires
        nonnegative(p),
        nonnegative(q),
        p.len() == q.len() <= usize::MAX,
        total(q) > 0,
        residual(p, q) == Ok::<Seq<int>, SamplingError>(w),
        0 <= x < p.len(),
    ensures
        total_score(p, q, w, counting(x as usize)) == emitting(p, q, w, x),
{
    let n = DRAWS as nat;
    let score = counting(x as usize);
    law_residual_is_a_distribution(p, q, w);
    lemma_total_score(p, q, w, score);
    let cells = |r: int| score(categorical(w, r)->0, false);
    let (lo, hi) = (cut(w, x), cut(w, x + 1));
    lemma_cut_monotonic(w, x, x + 1);
    assert forall|r: int| 0 <= r < n implies #[trigger] cells(r) == if lo <= r < hi {
        1int
    } else {
        0
    } by {
        lemma_selected(w, r);
        law_draws_that_select(w, r, x);
    }
    lemma_sum_range(cells, 0, lo as nat, 0);
    lemma_sum_range(cells, lo as nat, hi as nat, 1);
    lemma_sum_range(cells, hi as nat, n, 0);
    assert(resampled_score(w, score) == selecting(w, x));
    let a = Seq::new(q.len(), |y: int| selecting(q, y) * draft_score(p, q, w, score, y));
    let b = Seq::new(q.len(), |y: int| emitting_after(p, q, w, x, y));
    assert forall|y: int| 0 <= y < q.len() implies a[y] == b[y] by {
        let c = accepting(p[y], q[y]);
        assert(c * (n * 1) == c * n && c * (n * 0) == 0) by (nonlinear_arith);
    }
    lemma_prefix_agrees(a, b, q.len() as int);
}

/// A scaled count against what it should be, with the scale taken out.
proof fn lemma_scaled_difference(
    scale: int,
    count: int,
    n: int,
    e: int,
    all: int,
    t: int,
    x: int,
)
    requires
        scale * count == n * e * all,
    ensures
        scale * (t * count - n * x * all) == (n * all) * (t * e - x * scale),
{
    let y = n * x * all;
    let part = n * all;
    assert(scale * (t * count - y) == t * (scale * count) - y * scale) by (nonlinear_arith);
    assert(t * (n * e * all) == part * (t * e)) by (nonlinear_arith)
        requires
            part == n * all,
    ;
    assert(y * scale == part * (x * scale)) by (nonlinear_arith)
        requires
            y == n * x * all,
            part == n * all,
    ;
    assert(part * (t * e - x * scale) == part * (t * e) - part * (x * scale)) by (nonlinear_arith);
}

/// Many steps against the target: over all tuples of draws, the mean number of times
/// that `n` steps emit `x` is within `n * (len + 4) / DRAWS` of `n` times the
/// probability `p(x) / total(p)` that the target gives it, where `len` is the number
/// of tokens.
pub proof fn law_mean_count(
    p: Seq<int>,
    q: Seq<int>,
    w: Seq<int>,
    x: int,
    n: nat,
    l: nat,
)
    requires
        nonnegative(p),
        nonnegative(q),
        p.len() <= usize::MAX,
        total(p) == total(q),
        total(p) > 0,
        residual(p, q) == Ok::<Seq<int>, SamplingError>(w),
        0 <= x < p.len(),
        l >= 3 * n,
    ensures
        ({
            let count = over_tuples(
                l,
                |t: Seq<int>| run_score(p, q, w, n, t, counting(x as usize)),
            );
            let error = DRAWS * (total(p) * count - n * p[x] * tuples(l));
            let bound = n * (p.len() + 4) * total(p) * tuples(l);
            -bound <= error <= bound
        }),
{
    law_mean_count_nearly(p, q, w, x, n, l, 0);
    let m = (p.len() + 4) * total(p);
    assert(n * (m + 0 * DRAWS) * tuples(l) == n * (p.len() + 4) * total(p) * tuples(l))
        by (nonlinear_arith)
        requires
            m == (p.len() + 4) * total(p),
    ;
}

/// Many steps against a target whose total differs from the draft's by up to
/// `slack`: the mean number of times that `n` steps emit `x` is within
/// `n * ((len + 4) / DRAWS + slack / total(q))` of `n` times `p(x) / total(q)`.
pub proof fn law_mean_count_nearly(
    p: Seq<int>,
    q: Seq<int>,
    w: Seq<int>,
    x: int,
    n: nat,
    l: nat,
    slack: int,
)
    requires
        nonnegative(p),
        nonnegative(q),
        p.len() <= usize::MAX,
        -slack <= total(q) - total(p) <= slack,
        total(q) > 0,
        residual(p, q) == Ok::<Seq<int>, SamplingError>(w),
        0 <= x < p.len(),
        l >= 3 * n,
    ensures
        ({
            let count = over_tuples(
                l,
                |t: Seq<int>| run_score(p, q, w, n, t, counting(x as usize)),
            );
            let error = DRAWS * (total(q) * count - n * p[x] * tuples(l));
            let bound = n * ((p.len() + 4) * total(q) + slack * DRAWS) * tuples(l);
            &&& tuples(3) * count == n * emitting(p, q, w, x) * tuples(l)
            &&& -bound <= error <= bound
        }),
{
    let d = DRAWS as int;
    let e = emitting(p, q, w, x);
    let t = total(q);
    let all = tuples(l);
    let m = p.len() + 4;
    let count = over_tuples(l, |v: Seq<int>| run_score(p, q, w, n, v, counting(x as usize)));
    law_mean_of_run(p, q, w, n, l, counting(x as usize));
    law_emitting_triples(p, q, w, x);
    law_draws_nearly_preserve_distribution(p, q, w, x, slack);
    lemma_tuples(0);
    lemma_tuples(1);
    lemma_tuples(2);
    lemma_tuples(l);
    let square = d * d;
    let cube = d * d * d;
    assert(tuples(3) == cube) by (nonlinear_arith)
        requires
            tuples(3) == d * (d * (d * 1)),
            cube == d * d * d,
    ;
    let miss = t * e - p[x] * cube;
    let y = t * count - n * p[x] * all;
    let part = n * all;
    lemma_scaled_difference(cube, count, n as int, e, all, t, p[x]);
    assert(square * (d * y) == cube * y) by (nonlinear_arith)
        requires
            cube == d * d * d,
            square == d * d,
    ;
    let limit = m * (t * square) + slack * cube;
    let z = m * t + slack * d;
    assert(limit == square * z) by (nonlinear_arith)
        requires
            limit == m * (t * square) + slack * cube,
            z == m * t + slack * d,
            cube == d * d * d,
            square == d * d,
    {
        assert(square * (m * t) == m * (t * square));
        assert(square * (slack * d) == slack * cube);
    }
    assert(-(part * limit) <= part * miss <= part * limit) by (nonlinear_arith)
        requires
            -limit <= miss <= limit,
            part == n * all,
            n >= 0,
            all > 0,
    {
        assert(part >= 0);
        assert(part * miss <= part * limit);
        assert(part * miss >= part * (-limit));
    }
    let bound = n * z * all;
    assert(part * (square * z) == square * bound) by (nonlinear_arith)
        requires
            part == n * all,
            bound == n * z * all,
    ;
    assert(-bound <= d * y <= bound) by (nonlinear_arith)
        requires
            -(square * bound) <= square * (d * y) <= square * bound,
            square > 0,
    ;
}

/// The mean of trials: over all tuples of draws, `n` trials accept `n` times the
/// part of the pairs of draws that draft a token and accept it.
pub proof fn law_mean_trials(p: Seq<int>, q: Seq<int>, w: Seq<int>, n: nat, l: nat)
    requires
        nonnegative(p),
        nonnegative(q),
        p.len() == q.len() <= usize::MAX,
        total(q) > 0,
        l >= 3 * n,
    ensures
        tuples(2) * over_tuples(l, |t: Seq<int>| run_score(p, q, w, n, t, acceptances())) == n
            * total(drafting_and_accepting(p, q)) * tuples(l),
{
    let d = DRAWS as nat;
    let score = acceptances();
    let count = over_tuples(l, |t: Seq<int>| run_score(p, q, w, n, t, acceptances()));
    law_mean_of_run(p, q, w, n, l, score);
    lemma_total_score(p, q, w, score);
    let cells = |r: int| score(categorical(w, r)->0, false);
    lemma_sum_range(cells, 0, d, 0);
    assert(resampled_score(w, score) == 0);
    let v = drafting_and_accepting(p, q);
    let a = Seq::new(q.len(), |y: int| selecting(q, y) * draft_score(p, q, w, score, y));
    assert forall|y: int| 0 <= y < q.len() implies #[trigger] a[y] == d * v[y] by {
        let c = accepting(p[y], q[y]);
        let e = selecting(q, y);
        assert(c * (d * 1) + (d - c) * 0 == c * d) by (nonlinear_arith);
        assert(e * (c * d) == d * (e * c)) by (nonlinear_arith);
    }
    assert(a =~= times(v, d as int));
    lemma_prefix_times(v, d as int, q.len() as int);
    lemma_tuples(2);
    let (x, y, all) = (tuples(2), total(v), tuples(l));
    assert(x * count == n * y * all) by (nonlinear_arith)
        requires
            (d * x) * count == n * (d * y) * all,
            d > 0,
    {
        assert((d * x) * count == d * (x * count));
        assert(n * (d * y) * all == d * (n * y * all));
    }
}

/// The measured acceptance rate rises with agreement: over all tuples of draws, the
/// mean number of accepted drafts among `n` trials of a draft in closer agreement is
/// at least that of the other, to within `n * (vocab + 1) / DRAWS` on either side.
/// Each is weighed with the total of its draft, which is one to within a unit per
/// token.
pub proof fn law_mean_trials_rise_with_agreement(
    vocab: nat,
    seed: u64,
    context: usize,
    low: int,
    high: int,
    less_residual: Seq<int>,
    more_residual: Seq<int>,
    n: nat,
    l: nat,
)
    requires
        0 < vocab <= usize::MAX,
        0 <= low <= high <= ONE,
        l >= 3 * n,
    ensures
        ({
            let p = base(vocab, seed, context);
            let less = blended(vocab, seed, low, context);
            let more = blended(vocab, seed, high, context);
            let fewer = over_tuples(
                l,
                |t: Seq<int>| run_score(p, less, less_residual, n, t, acceptances()),
            );
            let greater = over_tuples(
                l,
                |t: Seq<int>| run_score(p, more, more_residual, n, t, acceptances()),
            );
            DRAWS * (total(less) * fewer - total(more) * greater) <= n * (vocab + 1) * (total(less)
                + total(more)) * tuples(l)
        }),
{
    let d = DRAWS as int;
    let p = base(vocab, seed, context);
    let less = blended(vocab, seed, low, context);
    let more = blended(vocab, seed, high, context);
    lemma_blend_sums(vocab, seed, low, context);
    lemma_blend_sums(vocab, seed, high, context);
    law_agreement_raises_accepted_draws(vocab, seed, context, low, high);
    law_mean_trials(p, less, less_residual, n, l);
    law_mean_trials(p, more, more_residual, n, l);
    let f = over_tuples(
        l,
        |t: Seq<int>| run_score(p, less, less_residual, n, t, acceptances()),
    );
    let g = over_tuples(
        l,
        |t: Seq<int>| run_score(p, more, more_residual, n, t, acceptances()),
    );
    let a = total(drafting_and_accepting(p, less));
    let b = total(drafting_and_accepting(p, more));
    let (x, y) = (total(less), total(more));
    let all = tuples(l);
    let m = vocab + 1;
    lemma_tuples(0);
    lemma_tuples(1);
    lemma_tuples(l);
    let part = n * all;
    let gap = x * f - y * g;
    let slack = m * (x * d) + m * (y * d);
    let square = d * d;
    assert(tuples(2) == square);
    lemma_scaled_difference(square, f, n as int, a, all, x, 0);
    lemma_scaled_difference(square, g, n as int, b, all, y, 0);
    assert(n * 0 * all == 0 && 0 * square == 0);
    assert(square * (x * f - y * g) == square * (x * f) - square * (y * g)) by (nonlinear_arith);
    assert(part * (x * a - y * b) == part * (x * a) - part * (y * b)) by (nonlinear_arith);
    assert(square * gap == part * (x * a - y * b));
    assert(part * (x * a - y * b) <= part * slack) by (nonlinear_arith)
        requires
            x * a - y * b <= slack,
            part == n * all,
            n >= 0,
            all > 0,
    {
        assert(part >= 0);
    }
    let bound = n * m * (x + y) * all;
    assert(slack == d * (m * (x + y))) by (nonlinear_arith)
        requires
            slack == m * (x * d) + m * (y * d),
    ;
    let z = m * (x + y);
    assert(part * (d * z) == d * (part * z)) by (nonlinear_arith);
    assert(part * z == bound) by (nonlinear_arith)
        requires
            part == n * all,
            z == m * (x + y),
            bound == n * m * (x + y) * all,
    ;
    assert(d * gap <= bound) by (nonlinear_arith)
        requires
            square * gap <= d * bound,
            square == d * d,
            d > 0,
    ;
}

} // verus!
