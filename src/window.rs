//! The filter: a circular window of recent samples and the Hampel test.

use vstd::prelude::*;
use crate::stats::{
    abs, deviations, floor_div, forecast, ints, lemma_sort_within, lemma_sorted_permutation_is_sort,
    mad, median, moment, sort_ascending, sum,
};

verus! {

/// Largest window size whose arithmetic fits the 128-bit accumulators.
pub const MAX_WINDOW: usize = 0xffff_ffff;

/// Numerator of the consistency constant 1.4826, which makes the median
/// absolute deviation estimate the standard deviation of a normal law.
pub const CONSISTENCY_NUM: u64 = 14826;

/// Denominator of the consistency constant.
pub const CONSISTENCY_DEN: u64 = 10000;

/// `n_sigma` is given in thousandths of a standard deviation.
pub const SIGMA_SCALE: u64 = 1000;

/// What a detected outlier is replaced with.
#[derive(Clone, Copy, Debug, PartialEq, Eq, Structural)]
pub enum Replacement {
    /// The median of the window.
    Median,
    /// The least-squares line through the earlier samples, one step ahead.
    Extrapolation,
}

/// A sample is an inlier when its distance from the window median is at most
/// `coef / (CONSISTENCY_DEN * SIGMA_SCALE)` times the median absolute deviation.
pub open spec fn is_inlier(w: Seq<int>, x: int, coef: int) -> bool {
    abs(x - median(w)) * (CONSISTENCY_DEN * SIGMA_SCALE) <= coef * mad(w)
}

/// The value returned for sample `x`, given the window `w` that already holds
/// `x` as its newest element.
pub open spec fn cleaned(w: Seq<int>, x: int, coef: int, replacement: Replacement) -> int {
    if is_inlier(w, x, coef) {
        x
    } else {
        match replacement {
            Replacement::Median => median(w),
            Replacement::Extrapolation => forecast(w.drop_last()),
        }
    }
}

/// The window, oldest sample first, after the samples `xs` were fed in order.
pub open spec fn after_updates(w: Seq<int>, xs: Seq<int>) -> Seq<int>
    decreases xs.len(),
{
    if xs.len() == 0 {
        w
    } else {
        after_updates(w.drop_first().push(xs[0]), xs.drop_first())
    }
}

/// The write position after `k` updates starting from `o` in a window of `n`.
pub open spec fn cursor_after(o: int, k: nat, n: int) -> int
    decreases k,
{
    if k == 0 {
        o
    } else {
        cursor_after((o + 1) % n, (k - 1) as nat, n)
    }
}

/// Hampel filter over the last `WINDOW_SIZE` samples.
pub struct Window<const WINDOW_SIZE: usize> {
    samples: [i32; WINDOW_SIZE],
    /// Position of the oldest sample, which the next update overwrites.
    oldest: usize,
    /// `CONSISTENCY_NUM * n_sigma`.
    coef: u64,
    replacement: Replacement,
}

impl<const WINDOW_SIZE: usize> View for Window<WINDOW_SIZE> {
    type V = Seq<int>;

    /// The samples of the window, oldest first.
    closed spec fn view(&self) -> Seq<int> {
        Seq::new(
            WINDOW_SIZE as nat,
            |i: int| self.samples@[(self.oldest + i) % (WINDOW_SIZE as int)] as int,
        )
    }
}

/// Reduction modulo `n` of a value below `2 * n`.
proof fn lemma_wrap(a: int, n: int)
    requires
        0 <= a < 2 * n,
    ensures
        a % n == if a < n { a } else { a - n },
{
    if a < n {
        vstd::arithmetic::div_mod::lemma_fundamental_div_mod_converse(a, n, 0, a);
    } else {
        vstd::arithmetic::div_mod::lemma_fundamental_div_mod_converse(a, n, 1, a - n);
    }
}

impl<const WINDOW_SIZE: usize> Window<WINDOW_SIZE> {
    /// A supported size, a write position inside the buffer, and a
    /// coefficient made from a `u32` number of sigma thousandths.
    pub closed spec fn wf(&self) -> bool {
        &&& 3 <= WINDOW_SIZE <= MAX_WINDOW
        &&& self.oldest < WINDOW_SIZE
        &&& self.coef <= CONSISTENCY_NUM * 0xffff_ffff
    }

    /// Position that the next update overwrites.
    pub closed spec fn cursor(&self) -> int {
        self.oldest as int
    }

    /// `CONSISTENCY_NUM * n_sigma`, fixed at construction.
    pub closed spec fn threshold(&self) -> int {
        self.coef as int
    }

    /// What outliers are replaced with.
    pub closed spec fn replacement_spec(&self) -> Replacement {
        self.replacement
    }

    /// A window of `WINDOW_SIZE` copies of `init_val` that replaces outliers
    /// by the window median. `n_sigma` is in thousandths of a standard
    /// deviation: the larger it is, the fewer samples count as outliers.
    pub fn new(init_val: i32, n_sigma: u32) -> (r: Self)
        requires
            3 <= WINDOW_SIZE <= MAX_WINDOW,
        ensures
            r.wf(),
            r@ == Seq::new(WINDOW_SIZE as nat, |i: int| init_val as int),
            r.cursor() == 0,
            r.threshold() == CONSISTENCY_NUM * n_sigma,
            r.replacement_spec() == Replacement::Median,
    {
        Self::with_replacement(init_val, n_sigma, Replacement::Median)
    }

    /// As [`Window::new`], with the given replacement for outliers.
    pub fn with_replacement(init_val: i32, n_sigma: u32, replacement: Replacement) -> (r: Self)
        requires
            3 <= WINDOW_SIZE <= MAX_WINDOW,
        ensures
            r.wf(),
            r@ == Seq::new(WINDOW_SIZE as nat, |i: int| init_val as int),
            r.cursor() == 0,
            r.threshold() == CONSISTENCY_NUM * n_sigma,
            r.replacement_spec() == replacement,
    {
        let r = Window {
            samples: [init_val; WINDOW_SIZE],
            oldest: 0,
            coef: CONSISTENCY_NUM * (n_sigma as u64),
            replacement,
        };
        proof {
            assert forall|i: int| 0 <= i < WINDOW_SIZE implies r@[i] == init_val as int by {
                lemma_wrap(i, WINDOW_SIZE as int);
            }
            assert(r@ =~= Seq::new(WINDOW_SIZE as nat, |i: int| init_val as int));
        }
        r
    }

    /// As [`Window::with_replacement`], but returns `None` instead of
    /// requiring a valid window size.
    pub fn try_new(init_val: i32, n_sigma: u32, replacement: Replacement) -> (r: Option<Self>)
        ensures
            r is None <==> !(3 <= WINDOW_SIZE <= MAX_WINDOW),
            r matches Some(w) ==> {
                &&& w.wf()
                &&& w@ == Seq::new(WINDOW_SIZE as nat, |i: int| init_val as int)
                &&& w.cursor() == 0
                &&& w.threshold() == CONSISTENCY_NUM * n_sigma
                &&& w.replacement_spec() == replacement
            },
    {
        if 3 <= WINDOW_SIZE && WINDOW_SIZE <= MAX_WINDOW {
            Some(Self::with_replacement(init_val, n_sigma, replacement))
        } else {
            None
        }
    }

    /// Feeds sample `x` and returns it cleaned: `x` itself when it is an
    /// inlier of the window that now holds it, else its replacement.
    pub fn update(&mut self, x: i32) -> (r: i64)
        requires
            old(self).wf(),
        ensures
            final(self).wf(),
            final(self)@ == old(self)@.drop_first().push(x as int),
            final(self).cursor() == (old(self).cursor() + 1) % (WINDOW_SIZE as int),
            final(self).threshold() == old(self).threshold(),
            final(self).replacement_spec() == old(self).replacement_spec(),
            r == cleaned(final(self)@, x as int, old(self).threshold(), old(self).replacement_spec()),
    {
        self.push(x);
        let ghost w = self@;
        let mut scratch = self.chronological();
        proof {
            assert forall|k: int| 0 <= k < w.len() implies i32::MIN <= #[trigger] w[k]
                <= i32::MAX by {
                lemma_wrap(self.oldest + k, WINDOW_SIZE as int);
            }
            lemma_sort_within(w, i32::MIN as int, i32::MAX as int);
        }
        sort_ascending(&mut scratch);
        proof {
            lemma_sorted_permutation_is_sort(w, ints(scratch@));
        }
        let w0 = scratch[WINDOW_SIZE / 2];
        assert(w0 == median(w));
        let mut i: usize = 0;
        while i < WINDOW_SIZE
            invariant
                self.wf(),
                w == self@,
                w0 == median(w),
                i32::MIN <= w0 <= i32::MAX,
                i <= WINDOW_SIZE,
                scratch@.len() == WINDOW_SIZE,
                forall|k: int| 0 <= k < i ==> scratch@[k] as int == deviations(w, w0 as int)[k],
            decreases WINDOW_SIZE - i,
        {
            let k = self.slot(i);
            let v = self.samples[k] as i64;
            assert(v == w[i as int]);
            scratch[i] = if v < w0 {
                w0 - v
            } else {
                v - w0
            };
            i = i + 1;
        }
        let ghost devs = deviations(w, w0 as int);
        proof {
            assert(ints(scratch@) =~= devs);
            assert forall|k: int| 0 <= k < devs.len() implies 0 <= #[trigger] devs[k]
                <= 0x1_0000_0000 by {
                lemma_wrap(self.oldest + k, WINDOW_SIZE as int);
            }
            lemma_sort_within(devs, 0, 0x1_0000_0000);
        }
        sort_ascending(&mut scratch);
        proof {
            lemma_sorted_permutation_is_sort(devs, ints(scratch@));
        }
        let s0 = scratch[WINDOW_SIZE / 2];
        assert(s0 == mad(w));
        let xv = x as i64;
        let dev = if xv < w0 {
            w0 - xv
        } else {
            xv - w0
        };
        assert(0 <= dev <= 0x1_0000_0000);
        assert(dev * 10_000_000 <= 0x1_0000_0000 * 10_000_000) by (nonlinear_arith)
            requires
                0 <= dev <= 0x1_0000_0000,
        ;
        let lhs = (dev as u128) * ((CONSISTENCY_DEN * SIGMA_SCALE) as u128);
        assert(self.coef * s0 <= 0x1_0000_0000_0000_0000_0000_0000) by (nonlinear_arith)
            requires
                self.coef <= CONSISTENCY_NUM * 0xffff_ffff,
                0 <= s0 <= 0x1_0000_0000,
        ;
        let rhs = (self.coef as u128) * (s0 as u128);
        if lhs <= rhs {
            xv
        } else {
            match self.replacement {
                Replacement::Median => w0,
                Replacement::Extrapolation => self.forecast_prior(),
            }
        }
    }

    /// Position of the oldest sample, which the next update overwrites.
    pub fn oldest(&self) -> (r: usize)
        requires
            self.wf(),
        ensures
            r == self.cursor(),
    {
        self.oldest
    }

    /// The samples of the window, oldest first.
    pub fn samples(&self) -> (r: Vec<i32>)
        requires
            self.wf(),
        ensures
            r@.len() == WINDOW_SIZE,
            forall|k: int| 0 <= k < WINDOW_SIZE ==> r@[k] as int == self@[k],
    {
        let mut r: Vec<i32> = Vec::new();
        let mut i: usize = 0;
        while i < WINDOW_SIZE
            invariant
                self.wf(),
                i <= WINDOW_SIZE,
                r@.len() == i,
                forall|k: int| 0 <= k < i ==> r@[k] as int == self@[k],
            decreases WINDOW_SIZE - i,
        {
            let k = self.slot(i);
            r.push(self.samples[k]);
            i = i + 1;
        }
        r
    }

    /// What outliers are replaced with.
    pub fn replacement(&self) -> (r: Replacement)
        ensures
            r == self.replacement_spec(),
    {
        self.replacement
    }

    /// Overwrites the oldest sample with `x` and advances the cursor.
    fn push(&mut self, x: i32)
        requires
            old(self).wf(),
        ensures
            final(self).wf(),
            final(self)@ == old(self)@.drop_first().push(x as int),
            final(self).cursor() == (old(self).cursor() + 1) % (WINDOW_SIZE as int),
            final(self).threshold() == old(self).threshold(),
            final(self).replacement_spec() == old(self).replacement_spec(),
    {
        let ghost before = self@;
        let ghost o = self.oldest as int;
        let n = WINDOW_SIZE;
        self.samples[self.oldest] = x;
        self.oldest = if self.oldest + 1 == n {
            0
        } else {
            self.oldest + 1
        };
        proof {
            let ni = n as int;
            lemma_wrap(o + 1, ni);
            assert forall|i: int| 0 <= i < ni implies self@[i] == before.drop_first().push(
                x as int,
            )[i] by {
                lemma_wrap(self.oldest + i, ni);
                lemma_wrap(o + i + 1, ni);
                if i < ni - 1 {
                    assert(before[i + 1] == self.samples@[(o + i + 1) % ni] as int);
                }
            }
            assert(self@ =~= before.drop_first().push(x as int));
        }
    }

    /// The samples, oldest first, widened for the order statistics.
    fn chronological(&self) -> (r: [i64; WINDOW_SIZE])
        requires
            self.wf(),
        ensures
            ints(r@) == self@,
    {
        let mut r: [i64; WINDOW_SIZE] = [0i64; WINDOW_SIZE];
        let mut i: usize = 0;
        while i < WINDOW_SIZE
            invariant
                self.wf(),
                i <= WINDOW_SIZE,
                r@.len() == WINDOW_SIZE,
                forall|k: int| 0 <= k < i ==> r@[k] as int == self@[k],
            decreases WINDOW_SIZE - i,
        {
            let k = self.slot(i);
            r[i] = self.samples[k] as i64;
            i = i + 1;
        }
        assert(ints(r@) =~= self@);
        r
    }

    /// The least-squares forecast over all samples but the newest.
    fn forecast_prior(&self) -> (r: i64)
        requires
            self.wf(),
        ensures
            r == forecast(self@.drop_last()),
    {
        let ghost prior = self@.drop_last();
        let m = WINDOW_SIZE - 1;
        let mut total: i128 = 0;
        let mut weighted: i128 = 0;
        let mut i: usize = 0;
        while i < m
            invariant
                self.wf(),
                m == WINDOW_SIZE - 1,
                prior == self@.drop_last(),
                i <= m,
                total == sum(prior.subrange(0, i as int)),
                weighted == moment(prior.subrange(0, i as int)),
                -(i as int) * 0x8000_0000 <= total <= (i as int) * 0x8000_0000,
                -(i as int) * (i as int - 1) * 0x8000_0000 <= 2 * weighted,
                2 * weighted <= (i as int) * (i as int - 1) * 0x8000_0000,
            decreases m - i,
        {
            let k = self.slot(i);
            let y = self.samples[k] as i128;
            proof {
                assert(y == prior[i as int]);
                assert(prior.subrange(0, i + 1).drop_last() =~= prior.subrange(0, i as int));
                let ii = i as int;
                assert(-ii * 0x8000_0000 <= ii * y <= ii * 0x8000_0000) by (nonlinear_arith)
                    requires
                        ii >= 0,
                        -0x8000_0000 <= y < 0x8000_0000,
                ;
                assert(-(ii + 1) * ii * 0x8000_0000 <= 2 * (weighted + ii * y) <= (ii + 1) * ii
                    * 0x8000_0000) by (nonlinear_arith)
                    requires
                        -ii * 0x8000_0000 <= ii * y <= ii * 0x8000_0000,
                        -ii * (ii - 1) * 0x8000_0000 <= 2 * weighted <= ii * (ii - 1) * 0x8000_0000,
                ;
                assert((ii + 1) * ii * 0x8000_0000 <= 0x1_0000_0000_0000_0000_0000_0000) by (
                nonlinear_arith)
                    requires
                        0 <= ii < 0xffff_ffff,
                ;
                assert(-0x1_0000_0000_0000_0000_0000_0000 <= weighted + ii * y
                    <= 0x1_0000_0000_0000_0000_0000_0000) by (nonlinear_arith)
                    requires
                        -(ii + 1) * ii * 0x8000_0000 <= 2 * (weighted + ii * y) <= (ii + 1) * ii
                            * 0x8000_0000,
                        (ii + 1) * ii * 0x8000_0000 <= 0x1_0000_0000_0000_0000_0000_0000,
                ;
            }
            let iy = (i as i128) * y;
            total = total + y;
            weighted = weighted + iy;
            i = i + 1;
        }
        proof {
            assert(prior.subrange(0, m as int) =~= prior);
        }
        let ghost mi = m as int;
        assert(2 <= mi < 0xffff_ffff);
        let ghost p = mi * (mi - 1);
        assert(2 <= p < 0x1_0000_0000_0000_0000) by (nonlinear_arith)
            requires
                2 <= mi < 0xffff_ffff,
                p == mi * (mi - 1),
        ;
        assert(-p * 0x8000_0000 <= 2 * weighted <= p * 0x8000_0000) by (nonlinear_arith)
            requires
                -(i as int) * (i as int - 1) * 0x8000_0000 <= 2 * weighted,
                2 * weighted <= (i as int) * (i as int - 1) * 0x8000_0000,
                i == mi,
                p == mi * (mi - 1),
        ;
        let ghost tt = 2 * (mi - 1) * total;
        assert(-2 * p * 0x8000_0000 <= tt <= 2 * p * 0x8000_0000) by (nonlinear_arith)
            requires
                -mi * 0x8000_0000 <= total <= mi * 0x8000_0000,
                mi >= 2,
                p == mi * (mi - 1),
                tt == 2 * (mi - 1) * total,
        ;
        assert(-0x2_0000_0000_0000_0000_0000_0000 <= tt <= 0x2_0000_0000_0000_0000_0000_0000
            && -0x2_0000_0000_0000_0000_0000_0000 <= 2 * weighted
            <= 0x2_0000_0000_0000_0000_0000_0000) by (nonlinear_arith)
            requires
                -2 * p * 0x8000_0000 <= tt <= 2 * p * 0x8000_0000,
                -p * 0x8000_0000 <= 2 * weighted <= p * 0x8000_0000,
                2 <= p < 0x1_0000_0000_0000_0000,
        ;
        let den = (m as i128) * ((m - 1) as i128);
        let twice_total = 2 * ((m - 1) as i128) * total;
        let num = 6 * weighted - twice_total;
        assert(-5 * den * 0x8000_0000 <= num <= 5 * den * 0x8000_0000) by (nonlinear_arith)
            requires
                -2 * p * 0x8000_0000 <= tt <= 2 * p * 0x8000_0000,
                -p * 0x8000_0000 <= 2 * weighted <= p * 0x8000_0000,
                num == 6 * weighted - tt,
                den == p,
        ;
        let q = floor_div(num, den);
        proof {
            vstd::arithmetic::div_mod::lemma_fundamental_div_mod(num as int, den as int);
            let r = num as int % den as int;
            assert(-5 * 0x8000_0000 - 1 <= q <= 5 * 0x8000_0000) by (nonlinear_arith)
                requires
                    num == q * den + r,
                    0 <= r < den,
                    -5 * den * 0x8000_0000 <= num <= 5 * den * 0x8000_0000,
                    den > 0,
            ;
        }
        q as i64
    }

    /// Position in `samples` of the `i`-th sample, oldest first.
    fn slot(&self, i: usize) -> (k: usize)
        requires
            self.wf(),
            i < WINDOW_SIZE,
        ensures
            k < WINDOW_SIZE,
            k == (self.oldest + i) % (WINDOW_SIZE as int),
    {
        proof {
            lemma_wrap(self.oldest + i, WINDOW_SIZE as int);
        }
        if i < WINDOW_SIZE - self.oldest {
            self.oldest + i
        } else {
            i - (WINDOW_SIZE - self.oldest)
        }
    }
}

} // verus!
