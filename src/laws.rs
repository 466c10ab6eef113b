//! Properties of the filter that relate several updates, or hold of every
//! window of a given shape.

use vstd::prelude::*;
use crate::stats::{
    abs, deviations, forecast, lemma_sorted_permutation_is_sort, mad, median, moment,
    sum,
};
use crate::window::{
    after_updates, cleaned, cursor_after, is_inlier, Replacement, CONSISTENCY_DEN, SIGMA_SCALE,
};

verus! {

/// The constant sequence of `n` copies of `v`.
pub open spec fn constant(n: nat, v: int) -> Seq<int> {
    Seq::new(n, |i: int| v)
}

proof fn lemma_constant_stats(n: nat, v: int)
    requires
        n >= 1,
    ensures
        median(constant(n, v)) == v,
        mad(constant(n, v)) == 0,
{
    let w = constant(n, v);
    lemma_sorted_permutation_is_sort(w, w);
    let d = deviations(w, v);
    assert(d =~= constant(n, 0));
    lemma_sorted_permutation_is_sort(d, d);
}

/// A window seeded with `n` copies of `v` keeps them when fed `v`, and `v`
/// comes back unchanged: its distance from the median is zero.
pub proof fn lemma_warm_up_consistency(n: nat, v: int, coef: int, replacement: Replacement)
    requires
        n >= 1,
    ensures
        constant(n, v).drop_first().push(v) == constant(n, v),
        cleaned(constant(n, v), v, coef, replacement) == v,
{
    lemma_constant_stats(n, v);
    assert(constant(n, v).drop_first().push(v) =~= constant(n, v));
    assert(abs(v - v) == 0);
}

/// In a window whose median absolute deviation is zero, every sample that
/// differs from the median is an outlier, whatever the threshold.
pub proof fn lemma_zero_spread_flags_any_deviation(w: Seq<int>, x: int, coef: int)
    requires
        mad(w) == 0,
        x != median(w),
    ensures
        !is_inlier(w, x, coef),
{
    let a = abs(x - median(w));
    assert(a > 0);
    assert(coef * mad(w) == 0);
    assert(a * (CONSISTENCY_DEN * SIGMA_SCALE) > 0) by (nonlinear_arith)
        requires
            a > 0,
    ;
}

/// Once a window holds only `v`, feeding `v` any number of times leaves it
/// unchanged, and each of those updates returns `v`.
pub proof fn lemma_constant_input_is_stable(
    w: Seq<int>,
    v: int,
    k: nat,
    coef: int,
    replacement: Replacement,
)
    requires
        w.len() >= 1,
        forall|i: int| 0 <= i < w.len() ==> w[i] == v,
    ensures
        after_updates(w, constant(k, v)) == w,
        cleaned(w, v, coef, replacement) == v,
    decreases k,
{
    assert(w =~= constant(w.len(), v));
    lemma_warm_up_consistency(w.len(), v, coef, replacement);
    if k > 0 {
        assert(constant(k, v).drop_first() =~= constant((k - 1) as nat, v));
        lemma_constant_input_is_stable(w, v, (k - 1) as nat, coef, replacement);
    }
}

proof fn lemma_after_updates_shift(w: Seq<int>, xs: Seq<int>)
    requires
        w.len() >= 1,
    ensures
        after_updates(w, xs) == (w + xs).subrange(xs.len() as int, (w.len() + xs.len()) as int),
    decreases xs.len(),
{
    if xs.len() == 0 {
        assert(w + xs =~= w);
        assert(w.subrange(0, w.len() as int) =~= w);
    } else {
        let w1 = w.drop_first().push(xs[0]);
        let xs1 = xs.drop_first();
        lemma_after_updates_shift(w1, xs1);
        assert(w1 + xs1 =~= (w + xs).drop_first());
        assert((w1 + xs1).subrange(xs1.len() as int, (w1.len() + xs1.len()) as int) =~= (w + xs).subrange(
            xs.len() as int,
            (w.len() + xs.len()) as int,
        ));
    }
}

proof fn lemma_cursor_after(o: int, k: nat, n: int)
    requires
        0 <= o < n,
    ensures
        cursor_after(o, k, n) == (o + k) % n,
    decreases k,
{
    if k == 0 {
        vstd::arithmetic::div_mod::lemma_small_mod(o as nat, n as nat);
    } else {
        lemma_cursor_after((o + 1) % n, (k - 1) as nat, n);
        vstd::arithmetic::div_mod::lemma_mod_pos_bound(o + 1, n);
        vstd::arithmetic::div_mod::lemma_add_mod_noop(o + 1, k - 1, n);
        vstd::arithmetic::div_mod::lemma_mod_twice(o + 1, n);
        vstd::arithmetic::div_mod::lemma_add_mod_noop((o + 1) % n, k - 1, n);
    }
}

/// After as many updates as the window has slots, every earlier sample has
/// been overwritten (the window is exactly the samples fed, oldest first)
/// and the write position is back where it started.
pub proof fn lemma_full_turnover(w: Seq<int>, xs: Seq<int>, o: int)
    requires
        w.len() >= 1,
        xs.len() == w.len(),
        0 <= o < w.len(),
    ensures
        after_updates(w, xs) == xs,
        cursor_after(o, xs.len(), w.len() as int) == o,
{
    lemma_after_updates_shift(w, xs);
    assert((w + xs).subrange(xs.len() as int, (w.len() + xs.len()) as int) =~= xs);
    lemma_cursor_after(o, xs.len(), w.len() as int);
    vstd::arithmetic::div_mod::lemma_mod_add_multiples_vanish(o, w.len() as int);
    vstd::arithmetic::div_mod::lemma_small_mod(o as nat, w.len());
}

/// The samples `c + d * i` of a straight line.
pub open spec fn line(c: int, d: int, m: nat) -> Seq<int> {
    Seq::new(m, |i: int| c + d * i)
}

proof fn lemma_line_sums(c: int, d: int, k: nat)
    ensures
        2 * sum(line(c, d, k)) == 2 * c * k + d * k * (k - 1),
        6 * moment(line(c, d, k)) == 3 * c * k * (k - 1) + d * (k - 1) * k * (2 * k - 1),
    decreases k,
{
    if k > 0 {
        let j = (k - 1) as nat;
        assert(line(c, d, k).drop_last() =~= line(c, d, j));
        lemma_line_sums(c, d, j);
        let s = sum(line(c, d, j));
        let t = moment(line(c, d, j));
        assert(2 * (s + (c + d * j)) == 2 * c * k + d * k * (k - 1)) by (nonlinear_arith)
            requires
                2 * s == 2 * c * j + d * j * (j - 1),
                k == j + 1,
        ;
        assert(6 * (t + j * (c + d * j)) == 3 * c * k * (k - 1) + d * (k - 1) * k * (2 * k - 1))
            by (nonlinear_arith)
            requires
                6 * t == 3 * c * j * (j - 1) + d * (j - 1) * j * (2 * j - 1),
                k == j + 1,
        ;
    }
}

/// Samples on a straight line are continued exactly: the forecast at the
/// next position is the line's value there.
pub proof fn lemma_forecast_of_line(c: int, d: int, m: nat)
    requires
        m >= 2,
    ensures
        forecast(line(c, d, m)) == c + d * m,
{
    lemma_line_sums(c, d, m);
    let s = sum(line(c, d, m));
    let t = moment(line(c, d, m));
    let mi = m as int;
    assert(6 * t - 2 * (mi - 1) * s == (c + d * mi) * (mi * (mi - 1))) by (nonlinear_arith)
        requires
            2 * s == 2 * c * mi + d * mi * (mi - 1),
            6 * t == 3 * c * mi * (mi - 1) + d * (mi - 1) * mi * (2 * mi - 1),
    ;
    assert(mi * (mi - 1) > 0) by (nonlinear_arith)
        requires
            mi >= 2,
    ;
    vstd::arithmetic::div_mod::lemma_fundamental_div_mod_converse(
        6 * t - 2 * (mi - 1) * s,
        mi * (mi - 1),
        c + d * mi,
        0,
    );
}

} // verus!
