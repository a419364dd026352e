//! What the finite number of draws means for the probabilities.
//!
//! A uniform draw takes one of `DRAWS` values. Counting the draws that lead to
//! each outcome gives the probabilities that the sampling code has when its
//! draws are independent and uniform, and these differ from the exact ones by
//! less than the grid of the draws accounts for.
use vstd::arithmetic::div_mod::*;
use vstd::arithmetic::mul::*;
use vstd::prelude::*;

use crate::fixed::{ceil_div, lemma_ceil_div, scaled};
use crate::mass::{
    lemma_index_of, lemma_part_of_total, lemma_positives_cover, lemma_prefix_monotonic, min,
    nonnegative, prefix, total,
};
use crate::preservation::{
    emission, law_draw_selects_by_weight, law_emission_of_any_masses,
    law_residual_is_a_distribution, lemma_draw_in_range, lemma_emission_closed,
    lemma_scaled_in_range, overlap,
};
use crate::rng::{categorical, sampled, RngState, DRAWS};
use crate::sampling::{accepts, residual, step, SamplingError};

verus! {

/// The first draw whose threshold reaches the running total before index `i`.
pub open spec fn cut(w: Seq<int>, i: int) -> int {
    ceil_div(prefix(w, i) * DRAWS, total(w))
}

/// The number of draws that select index `i` from weights.
pub open spec fn selecting(w: Seq<int>, i: int) -> int {
    cut(w, i + 1) - cut(w, i)
}

/// The number of draws that accept a token of target mass `px` and draft mass
/// `qx`.
pub open spec fn accepting(px: int, qx: int) -> int {
    if qx <= 0 {
        if px > 0 {
            DRAWS as int
        } else {
            0
        }
    } else {
        ceil_div(min(px, qx) * DRAWS, qx)
    }
}

/// The number of triples of draws, one for the draft, one for the acceptance
/// and one for the resampling, that emit `x` after a draft of `y`, where
/// rejected drafts are resampled from `w`.
pub open spec fn emitting_after(p: Seq<int>, q: Seq<int>, w: Seq<int>, x: int, y: int) -> int {
    selecting(q, y) * ((if y == x {
        accepting(p[y], q[y]) * DRAWS
    } else {
        0
    }) + (DRAWS - accepting(p[y], q[y])) * selecting(w, x))
}

/// The number of triples of draws that emit `x`.
pub open spec fn emitting(p: Seq<int>, q: Seq<int>, w: Seq<int>, x: int) -> int {
    total(Seq::new(q.len(), |y: int| emitting_after(p, q, w, x, y)))
}

/// The token that a triple of draws emits: the first drafts a token from `q`, the
/// second accepts or rejects it, and the third resamples from `w` on rejection.
pub open spec fn token_of(
    p: Seq<int>,
    q: Seq<int>,
    w: Seq<int>,
    draft: int,
    accept: int,
    resample: int,
) -> Option<usize> {
    match categorical(q, draft) {
        Some(y) => if accepts(p[y as int], q[y as int], accept) {
            Some(y)
        } else {
            categorical(w, resample)
        },
        None => None,
    }
}

/// Sampling a draft and putting it through a step emits the token of the
/// generator's next three draws.
pub proof fn law_step_follows_draws(p: Seq<int>, q: Seq<int>, w: Seq<int>, s: RngState)
    requires
        nonnegative(q),
        total(q) > 0,
        q.len() <= usize::MAX,
        residual(p, q) == Ok::<Seq<int>, SamplingError>(w),
    ensures
        ({
            let token = token_of(
                p,
                q,
                w,
                s.draw() as int,
                s.next().draw() as int,
                s.next().next().draw() as int,
            );
            &&& sampled(q, s).0 matches Some(y)
            &&& sampled(q, s).1 == s.next()
            &&& step(p, q, y as int, s.next()).0 matches Ok((emitted, _))
            &&& token == Some(emitted)
        }),
{
    let t = scaled(total(q), s.draw() as int);
    lemma_draw_in_range(s);
    lemma_scaled_in_range(total(q), s.draw() as int);
    lemma_positives_cover(q);
    lemma_index_of(q, t);
    law_residual_is_a_distribution(p, q, w);
}

/// Emission, counted: after a draft of `y` a triple of draws emits `x` exactly
/// where it is one of those that [`emitting_after`] counts.
pub proof fn law_triples_that_emit(
    p: Seq<int>,
    q: Seq<int>,
    w: Seq<int>,
    draft: int,
    accept: int,
    resample: int,
    x: int,
    y: int,
)
    requires
        nonnegative(p),
        p.len() == q.len() <= usize::MAX,
        residual(p, q) == Ok::<Seq<int>, SamplingError>(w),
        0 <= accept < DRAWS,
        0 <= resample < DRAWS,
        0 <= x < p.len(),
        0 <= y < p.len(),
        categorical(q, draft) == Some(y as usize),
    ensures
        token_of(p, q, w, draft, accept, resample) == Some(x as usize) <==> {
            ||| y == x && accept < accepting(p[y], q[y])
            ||| accept >= accepting(p[y], q[y]) && cut(w, x) <= resample < cut(w, x + 1)
        },
{
    law_draws_that_accept(p[y], q[y], accept);
    law_residual_is_a_distribution(p, q, w);
    law_draws_that_select(w, resample, x);
}

/// Selection, counted: the draws that select index `i` are those from
/// `cut(w, i)` to `cut(w, i + 1)`.
pub proof fn law_draws_that_select(w: Seq<int>, draw: int, i: int)
    requires
        nonnegative(w),
        total(w) > 0,
        w.len() <= usize::MAX,
        0 <= draw < DRAWS,
        0 <= i < w.len(),
    ensures
        categorical(w, draw) == Some(i as usize) <==> cut(w, i) <= draw < cut(w, i + 1),
{
    let t = total(w);
    let d = DRAWS as int;
    let lo = prefix(w, i) * d;
    let hi = prefix(w, i + 1) * d;
    law_draw_selects_by_weight(w, draw, i);
    lemma_ceil_div(lo, t);
    lemma_ceil_div(hi, t);
    let a = cut(w, i);
    let b = cut(w, i + 1);
    assert(a <= draw <==> lo <= draw * t) by (nonlinear_arith)
        requires
            lo <= t * a < lo + t,
            t > 0,
    ;
    assert(draw < b <==> draw * t < hi) by (nonlinear_arith)
        requires
            hi <= t * b < hi + t,
            t > 0,
    ;
}

/// Selection, in proportion: the number of draws that select index `i` is within
/// one of its exact part of all draws.
pub proof fn law_selection_in_proportion(w: Seq<int>, i: int)
    requires
        total(w) > 0,
        0 <= i < w.len(),
    ensures
        w[i] * DRAWS - total(w) < total(w) * selecting(w, i) < w[i] * DRAWS + total(w),
{
    let t = total(w);
    let d = DRAWS as int;
    lemma_ceil_div(prefix(w, i) * d, t);
    lemma_ceil_div(prefix(w, i + 1) * d, t);
    let a = cut(w, i);
    let b = cut(w, i + 1);
    assert(t * (b - a) == t * b - t * a) by (nonlinear_arith);
    assert(prefix(w, i + 1) * d == prefix(w, i) * d + w[i] * d) by (nonlinear_arith)
        requires
            prefix(w, i + 1) == prefix(w, i) + w[i],
    ;
}

/// Acceptance, counted: the draws that accept a token are the first
/// `accepting(px, qx)`, and as a part of all draws that is `min(1, px / qx)`,
/// rounded up to a whole draw.
pub proof fn law_draws_that_accept(px: int, qx: int, draw: int)
    requires
        0 <= px,
        0 <= draw < DRAWS,
    ensures
        0 <= accepting(px, qx) <= DRAWS,
        accepts(px, qx, draw) <==> draw < accepting(px, qx),
        qx > 0 ==> min(px, qx) * DRAWS <= qx * accepting(px, qx) < min(px, qx) * DRAWS + qx,
{
    if qx > 0 {
        let m = min(px, qx);
        let d = DRAWS as int;
        let n = accepting(px, qx);
        lemma_ceil_div(m * d, qx);
        assert(0 <= m * d <= qx * d) by (nonlinear_arith)
            requires
                0 <= m <= qx,
                d > 0,
        ;
        assert(0 <= n <= d) by (nonlinear_arith)
            requires
                m * d <= qx * n < m * d + qx,
                0 <= m * d <= qx * d,
                qx > 0,
        ;
        assert(draw < n <==> draw * qx < m * d) by (nonlinear_arith)
            requires
                m * d <= qx * n < m * d + qx,
                qx > 0,
        ;
        if px >= qx {
            assert(draw * qx < qx * d && qx * d <= px * d) by (nonlinear_arith)
                requires
                    0 <= draw < d,
                    0 < qx <= px,
            ;
        }
    }
}

/// The draws of all indices together are all the draws.
pub proof fn lemma_cuts_span(w: Seq<int>)
    requires
        total(w) > 0,
    ensures
        cut(w, 0) == 0,
        cut(w, w.len() as int) == DRAWS,
{
    let t = total(w);
    let d = DRAWS as int;
    assert(prefix(w, 0) * d == 0);
    lemma_ceil_div(0, t);
    let a = cut(w, 0);
    assert(a == 0) by (nonlinear_arith)
        requires
            0 <= t * a < t,
            t > 0,
    ;
    lemma_ceil_div(t * d, t);
    let b = cut(w, w.len() as int);
    assert(b == d) by (nonlinear_arith)
        requires
            t * d <= t * b < t * d + t,
            t > 0,
    ;
}

/// Later cuts are not smaller.
pub proof fn lemma_cut_monotonic(w: Seq<int>, i: int, j: int)
    requires
        nonnegative(w),
        total(w) > 0,
        0 <= i <= j <= w.len(),
    ensures
        0 <= cut(w, i) <= cut(w, j) <= DRAWS,
{
    let d = DRAWS as int;
    lemma_cuts_span(w);
    lemma_prefix_monotonic(w, 0, i);
    lemma_prefix_monotonic(w, i, j);
    lemma_prefix_monotonic(w, j, w.len() as int);
    let (a, b, c) = (prefix(w, i), prefix(w, j), total(w));
    assert(0 <= a * d <= b * d <= c * d) by (nonlinear_arith)
        requires
            0 <= a <= b <= c,
            d > 0,
    ;
    lemma_div_is_ordered(0 * d + c - 1, a * d + c - 1, c);
    lemma_div_is_ordered(a * d + c - 1, b * d + c - 1, c);
    lemma_div_is_ordered(b * d + c - 1, c * d + c - 1, c);
}

/// One draft, with denominators cleared: `total(q)` times the pairs of draws
/// that draft and accept `y`, against the exact value.
proof fn lemma_draft_and_accept(p: Seq<int>, q: Seq<int>, y: int)
    requires
        nonnegative(p),
        nonnegative(q),
        p.len() == q.len(),
        total(q) > 0,
        0 <= y < q.len(),
    ensures
        ({
            let d = DRAWS as int;
            let error = total(q) * (selecting(q, y) * accepting(p[y], q[y])) - overlap(p, q)[y] * (d
                * d);
            -(total(q) * d) <= error <= q[y] * d + total(q) * d
        }),
        0 <= selecting(q, y),
        0 <= accepting(p[y], q[y]) <= DRAWS,
{
    let t = total(q);
    let d = DRAWS as int;
    let n = selecting(q, y);
    let a = accepting(p[y], q[y]);
    let m = overlap(p, q)[y];
    lemma_cut_monotonic(q, y, y + 1);
    law_draws_that_accept(p[y], q[y], 0);
    if q[y] == 0 {
        assert(prefix(q, y + 1) == prefix(q, y));
        assert(n == 0);
        assert(m == 0);
        assert(t * (0 * a) - 0 * (d * d) == 0) by (nonlinear_arith);
        assert(0 <= t * d) by (nonlinear_arith)
            requires
                t > 0,
                d > 0,
        ;
    } else {
        let s = t * n - q[y] * d;
        let b = q[y] * a - m * d;
        law_selection_in_proportion(q, y);
        lemma_ceil_div(m * d, q[y]);
        assert(-t < s < t);
        assert(0 <= b < q[y]);
        let qy = q[y];
        lemma_mul_is_associative(t, n, a);
        assert((qy * d + s) * a == d * (qy * a) + s * a) by (nonlinear_arith);
        assert(d * (m * d + b) == m * (d * d) + d * b) by (nonlinear_arith);
        assert(t * (n * a) - m * (d * d) == d * b + s * a);
        assert(0 <= d * b <= qy * d) by (nonlinear_arith)
            requires
                0 <= b <= qy,
                0 < d,
        ;
        assert(-(t * d) <= s * a <= t * d) by (nonlinear_arith)
            requires
                -t <= s <= t,
                0 <= a <= d,
                t > 0,
        ;
    }
}

/// The pairs of draws that draft a token and accept it.
pub open spec fn drafting_and_accepting(p: Seq<int>, q: Seq<int>) -> Seq<int> {
    Seq::new(q.len(), |y: int| selecting(q, y) * accepting(p[y], q[y]))
}

/// The same over the first `i` tokens.
proof fn lemma_accepted_prefix(p: Seq<int>, q: Seq<int>, i: int)
    requires
        nonnegative(p),
        nonnegative(q),
        p.len() == q.len(),
        total(q) > 0,
        0 <= i <= q.len(),
    ensures
        ({
            let d = DRAWS as int;
            let error = total(q) * prefix(drafting_and_accepting(p, q), i) - prefix(
                overlap(p, q),
                i,
            ) * (d * d);
            -(i * (total(q) * d)) <= error <= prefix(q, i) * d + i * (total(q) * d)
        }),
        0 <= prefix(drafting_and_accepting(p, q), i) <= cut(q, i) * DRAWS,
    decreases i,
{
    let t = total(q);
    let d = DRAWS as int;
    let v = drafting_and_accepting(p, q);
    lemma_cuts_span(q);
    if i > 0 {
        lemma_accepted_prefix(p, q, i - 1);
        lemma_draft_and_accept(p, q, i - 1);
        let (a, b) = (prefix(v, i - 1), v[i - 1]);
        let (m, o) = (prefix(overlap(p, q), i - 1), overlap(p, q)[i - 1]);
        let (f, g) = (prefix(q, i - 1), q[i - 1]);
        assert(t * (a + b) - (m + o) * (d * d) == (t * a - m * (d * d)) + (t * b - o * (d * d)))
            by (nonlinear_arith);
        assert(i * (t * d) == (i - 1) * (t * d) + t * d) by (nonlinear_arith);
        assert((f + g) * d == f * d + g * d) by (nonlinear_arith);
        let n = selecting(q, i - 1);
        let c = accepting(p[i - 1], q[i - 1]);
        assert(0 <= n * c <= n * d) by (nonlinear_arith)
            requires
                0 <= n,
                0 <= c <= d,
        ;
        assert((cut(q, i - 1) + n) * d == cut(q, i - 1) * d + n * d) by (nonlinear_arith);
    } else {
        assert(t * 0 - 0 * (d * d) == 0) by (nonlinear_arith);
        assert(0 * (t * d) == 0 && 0 * d == 0) by (nonlinear_arith);
    }
}

/// The triples that emit `x`, from the pairs that draft and accept.
proof fn lemma_emitting_prefix(p: Seq<int>, q: Seq<int>, w: Seq<int>, x: int, i: int)
    requires
        p.len() == q.len(),
        total(q) > 0,
        0 <= x < q.len(),
        0 <= i <= q.len(),
    ensures
        prefix(Seq::new(q.len(), |y: int| emitting_after(p, q, w, x, y)), i) == (if x < i {
            drafting_and_accepting(p, q)[x] * DRAWS
        } else {
            0
        }) + (cut(q, i) * DRAWS - prefix(drafting_and_accepting(p, q), i)) * selecting(w, x),
    decreases i,
{
    let d = DRAWS as int;
    let r = selecting(w, x);
    lemma_cuts_span(q);
    if i > 0 {
        lemma_emitting_prefix(p, q, w, x, i - 1);
        let n = selecting(q, i - 1);
        let a = accepting(p[i - 1], q[i - 1]);
        let c = cut(q, i - 1);
        let s = prefix(drafting_and_accepting(p, q), i - 1);
        assert((c * d - s) * r + n * ((d - a) * r) == ((c + n) * d - (s + n * a)) * r)
            by (nonlinear_arith);
        assert(n * (a * d + (d - a) * r) == (n * a) * d + n * ((d - a) * r)) by (nonlinear_arith);
        assert(n * (0 + (d - a) * r) == n * ((d - a) * r));
    } else {
        assert((0 * d - 0) * r == 0) by (nonlinear_arith);
    }
}

/// The algebra of clearing denominators: `v` accepted pairs and `rejected` other
/// pairs with `r` resampling draws, each known up to an error.
proof fn lemma_cleared(
    t: int,
    big: int,
    d: int,
    v: int,
    rejected: int,
    r: int,
    m: int,
    rest: int,
    w: int,
    f: int,
    g: int,
    h: int,
)
    requires
        t * v == m * (d * d) + f,
        t * rejected == rest * (d * d) - g,
        big * r == w * d + h,
    ensures
        (t * big) * (v * d + rejected * r) == (m * big + rest * w) * (d * d * d) + ((big * d) * f
            - (w * d) * g + (t * rejected) * h),
{
    let dd = d * d;
    lemma_mul_is_distributive_add(t * big, v * d, rejected * r);
    assert((t * big) * (v * d) == (big * d) * (t * v)) by (nonlinear_arith);
    assert((t * big) * (rejected * r) == (t * rejected) * (big * r)) by (nonlinear_arith);
    assert((big * d) * (m * dd + f) == (m * big) * (dd * d) + (big * d) * f) by (nonlinear_arith);
    assert((t * rejected) * (w * d + h) == (w * d) * (t * rejected) + (t * rejected) * h)
        by (nonlinear_arith);
    assert((w * d) * (rest * dd - g) == (rest * w) * (dd * d) - (w * d) * g) by (nonlinear_arith);
    assert((m * big + rest * w) * (dd * d) == (m * big) * (dd * d) + (rest * w) * (dd * d))
        by (nonlinear_arith);
}

/// The count of triples against the exact emission, for an emission that is
/// within `slack * total(w)` of `p[x] * total(w)`.
proof fn lemma_emitting_close(
    p: Seq<int>,
    q: Seq<int>,
    w: Seq<int>,
    x: int,
    slack: int,
)
    requires
        nonnegative(p),
        nonnegative(q),
        total(q) > 0,
        residual(p, q) == Ok::<Seq<int>, SamplingError>(w),
        0 <= x < p.len(),
        -(slack * total(w)) <= emission(p, q, w, x) - p[x] * total(w) <= slack * total(w),
    ensures
        ({
            let d = DRAWS as int;
            let error = total(q) * emitting(p, q, w, x) - p[x] * (d * d * d);
            let bound = (p.len() + 4) * (total(q) * (d * d)) + slack * (d * d * d);
            -bound <= error <= bound
        }),
{
    let n = p.len() as int;
    let t = total(q);
    let d = DRAWS as int;
    let dd = d * d;
    let ddd = d * d * d;
    let v = drafting_and_accepting(p, q);
    let big = total(w);
    let r = selecting(w, x);
    let m = overlap(p, q)[x];
    let rest = t - total(overlap(p, q));
    law_residual_is_a_distribution(p, q, w);
    lemma_emission_closed(p, q, w, x);
    lemma_part_of_total(w, x);
    lemma_part_of_total(q, x);
    lemma_cuts_span(q);
    lemma_emitting_prefix(p, q, w, x, n);
    lemma_accepted_prefix(p, q, n);
    lemma_draft_and_accept(p, q, x);
    law_selection_in_proportion(w, x);
    let all = total(v);
    let rejected = d * d - all;
    let e = emitting(p, q, w, x);
    assert(e == v[x] * d + rejected * r);
    // The errors that the three draws bring in.
    let f = t * v[x] - m * dd;
    let g = t * all - total(overlap(p, q)) * dd;
    let h = big * r - w[x] * d;
    assert(-(t * d) <= f <= 2 * (t * d)) by {
        assert(q[x] * d <= t * d) by (nonlinear_arith)
            requires
                q[x] <= t,
                d > 0,
        ;
    }
    assert(-((n + 1) * (t * d)) <= g <= (n + 1) * (t * d)) by {
        assert((n + 1) * (t * d) == n * (t * d) + t * d) by (nonlinear_arith);
        assert(0 <= t * d) by (nonlinear_arith)
            requires
                t > 0,
                d > 0,
        ;
    }
    assert(-big < h < big);
    assert(0 <= rejected <= dd);
    // Clearing denominators turns the count into the emission and the errors.
    let exact = m * big + rest * w[x];
    assert(emission(p, q, w, x) == exact);
    let noise = (big * d) * f - (w[x] * d) * g + (t * rejected) * h;
    assert(t * rejected == rest * dd - g) by (nonlinear_arith)
        requires
            rejected == dd - all,
            rest == t - total(overlap(p, q)),
            g == t * all - total(overlap(p, q)) * dd,
    ;
    lemma_cleared(t, big, d, v[x], rejected, r, m, rest, w[x], f, g, h);
    let unit = (t * dd) * big;
    assert(-(2 * unit) <= (big * d) * f <= 2 * unit) by (nonlinear_arith)
        requires
            -(t * d) <= f <= 2 * (t * d),
            unit == (t * dd) * big,
            dd == d * d,
            big > 0,
            d > 0,
            t > 0,
    {
        assert((big * d) * (2 * (t * d)) == 2 * unit);
        assert((big * d) * (-(t * d)) == -unit);
        assert(0 < big * d);
        assert(0 <= unit);
    }
    assert(-((n + 1) * unit) <= (w[x] * d) * g <= (n + 1) * unit) by (nonlinear_arith)
        requires
            -((n + 1) * (t * d)) <= g <= (n + 1) * (t * d),
            unit == (t * dd) * big,
            dd == d * d,
            0 <= w[x] <= big,
            d > 0,
            t > 0,
            n >= 0,
    {
        let k = (n + 1) * (t * d);
        assert(0 <= k);
        assert(0 <= w[x] * d <= big * d);
        assert((w[x] * d) * g <= (w[x] * d) * k);
        assert((w[x] * d) * g >= (w[x] * d) * (-k));
        assert((w[x] * d) * k <= (big * d) * k);
        assert((w[x] * d) * (-k) == -((w[x] * d) * k));
        assert((big * d) * k == (n + 1) * unit);
    }
    assert(-unit <= (t * rejected) * h <= unit) by (nonlinear_arith)
        requires
            -big < h < big,
            0 <= rejected <= dd,
            unit == (t * dd) * big,
            t > 0,
            big > 0,
    {
        assert(0 <= t * rejected <= t * dd);
        assert((t * rejected) * h <= (t * rejected) * big);
        assert((t * rejected) * h >= (t * rejected) * (-big));
        assert((t * rejected) * big <= (t * dd) * big);
        assert((t * rejected) * (-big) == -((t * rejected) * big));
    }
    assert((n + 4) * unit == 2 * unit + (n + 1) * unit + unit) by (nonlinear_arith);
    let shift = exact - p[x] * big;
    assert(-((slack * big) * ddd) <= shift * ddd <= (slack * big) * ddd) by (nonlinear_arith)
        requires
            -(slack * big) <= shift <= slack * big,
            ddd == d * d * d,
            d > 0,
    {
        assert(0 < ddd);
    }
    let error = t * e - p[x] * ddd;
    let bound = (n + 4) * (t * dd) + slack * ddd;
    assert(big * error == shift * ddd + noise) by (nonlinear_arith)
        requires
            error == t * e - p[x] * ddd,
            (t * big) * e == exact * ddd + noise,
            shift == exact - p[x] * big,
    ;
    assert(big * bound == (n + 4) * unit + (slack * big) * ddd) by (nonlinear_arith)
        requires
            bound == (n + 4) * (t * dd) + slack * ddd,
            unit == (t * dd) * big,
    ;
    assert(-bound <= error <= bound) by (nonlinear_arith)
        requires
            -(big * bound) <= big * error <= big * bound,
            big > 0,
    ;
}

/// Acceptance, in proportion: of all pairs of draws, one for the draft and one
/// for the acceptance, the part that accepts is within `(n + 1) / DRAWS` of the
/// overlap of target and draft over the draft's total, where `n` is the number of
/// tokens.
pub proof fn law_acceptance_in_proportion(p: Seq<int>, q: Seq<int>)
    requires
        nonnegative(p),
        nonnegative(q),
        p.len() == q.len(),
        total(q) > 0,
    ensures
        ({
            let d = DRAWS as int;
            let error = total(q) * total(drafting_and_accepting(p, q)) - total(overlap(p, q)) * (d
                * d);
            let bound = (p.len() + 1) * (total(q) * d);
            -bound <= error <= bound
        }),
        0 <= total(drafting_and_accepting(p, q)) <= DRAWS * DRAWS,
{
    let n = p.len() as int;
    let t = total(q);
    let d = DRAWS as int;
    lemma_accepted_prefix(p, q, n);
    lemma_cuts_span(q);
    assert((n + 1) * (t * d) == n * (t * d) + t * d) by (nonlinear_arith);
    assert(0 <= t * d) by (nonlinear_arith)
        requires
            t > 0,
            d > 0,
    ;
}

/// Distribution preservation, as drawn: of all triples of draws the part that
/// emits `x` is within `(n + 4) / DRAWS` of the probability `p(x) / total(p)`
/// that the target gives it, where `n` is the number of tokens.
pub proof fn law_draws_preserve_distribution(p: Seq<int>, q: Seq<int>, w: Seq<int>, x: int)
    requires
        nonnegative(p),
        nonnegative(q),
        total(p) == total(q),
        total(p) > 0,
        residual(p, q) == Ok::<Seq<int>, SamplingError>(w),
        0 <= x < p.len(),
    ensures
        ({
            let d = DRAWS as int;
            let error = total(p) * emitting(p, q, w, x) - p[x] * (d * d * d);
            let bound = (p.len() + 4) * (total(p) * (d * d));
            -bound <= error <= bound
        }),
{
    law_draws_nearly_preserve_distribution(p, q, w, x, 0);
    assert(0 * (DRAWS * DRAWS * DRAWS) == 0);
}

/// Distribution preservation, as drawn, for masses whose totals differ by up to
/// `slack`: the part of all triples of draws that emits `x` is within
/// `(n + 4) / DRAWS + slack / total(q)` of `p(x) / total(q)`.
pub proof fn law_draws_nearly_preserve_distribution(
    p: Seq<int>,
    q: Seq<int>,
    w: Seq<int>,
    x: int,
    slack: int,
)
    requires
        nonnegative(p),
        nonnegative(q),
        -slack <= total(q) - total(p) <= slack,
        total(q) > 0,
        residual(p, q) == Ok::<Seq<int>, SamplingError>(w),
        0 <= x < p.len(),
    ensures
        ({
            let d = DRAWS as int;
            let error = total(q) * emitting(p, q, w, x) - p[x] * (d * d * d);
            let bound = (p.len() + 4) * (total(q) * (d * d)) + slack * (d * d * d);
            -bound <= error <= bound
        }),
{
    let gap = total(q) - total(p);
    let big = total(w);
    law_emission_of_any_masses(p, q, w, x);
    law_residual_is_a_distribution(p, q, w);
    lemma_part_of_total(w, x);
    assert(-(slack * big) <= gap * w[x] <= slack * big) by (nonlinear_arith)
        requires
            -slack <= gap <= slack,
            0 <= w[x] <= big,
    ;
    lemma_emitting_close(p, q, w, x, slack);
}

} // verus!
