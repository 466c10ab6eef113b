//! The order statistics of a window: sorted order, median, median absolute
//! deviation, and the least-squares forecast over the earlier samples.

use vstd::prelude::*;
use vstd::relations::{sorted_by, total_ordering};
use vstd::seq_lib::{lemma_sorted_unique, to_multiset_update};

verus! {

/// Mathematical value of a sequence of machine integers.
pub open spec fn ints(s: Seq<i64>) -> Seq<int> {
    Seq::new(s.len(), |i: int| s[i] as int)
}

/// Ascending order.
pub open spec fn is_sorted(s: Seq<int>) -> bool {
    forall|i: int, j: int| 0 <= i < j < s.len() ==> s[i] <= s[j]
}

/// The element at position `len / 2` of the ascending sort of `s`: the exact
/// middle for odd lengths, the upper of the two middle elements for even ones.
pub open spec fn median(s: Seq<int>) -> int {
    s.sort()[s.len() as int / 2]
}

pub open spec fn abs(v: int) -> int {
    if v < 0 { -v } else { v }
}

/// Distance of each element of `s` from `m`.
pub open spec fn deviations(s: Seq<int>, m: int) -> Seq<int> {
    Seq::new(s.len(), |i: int| abs(s[i] - m))
}

/// Median absolute deviation: the median of the distances from the median.
pub open spec fn mad(s: Seq<int>) -> int {
    median(deviations(s, median(s)))
}

/// Sum of the elements.
pub open spec fn sum(s: Seq<int>) -> int
    decreases s.len(),
{
    if s.len() == 0 {
        0
    } else {
        sum(s.drop_last()) + s.last()
    }
}

/// Sum of `i * s[i]` over the positions `i` of `s`.
pub open spec fn moment(s: Seq<int>) -> int
    decreases s.len(),
{
    if s.len() == 0 {
        0
    } else {
        moment(s.drop_last()) + (s.len() - 1) * s.last()
    }
}

/// The least-squares line through the points `(i, s[i])`, evaluated at the
/// next position `x = s.len()` and rounded down.
///
/// With `m = s.len()`, mean position `(m - 1) / 2` and mean value `sum / m`,
/// the centred sums give the slope `12 * (moment - (m - 1) * sum / 2) /
/// (m * (m * m - 1))`; the line at `x = m` is then the fraction below.
pub open spec fn forecast(s: Seq<int>) -> int {
    let m = s.len() as int;
    (6 * moment(s) - 2 * (m - 1) * sum(s)) / (m * (m - 1))
}

/// The sort of `s` holds only values that lie between bounds of `s`.
pub proof fn lemma_sort_within(s: Seq<int>, lo: int, hi: int)
    requires
        forall|k: int| 0 <= k < s.len() ==> lo <= #[trigger] s[k] <= hi,
    ensures
        s.sort().len() == s.len(),
        forall|k: int| 0 <= k < s.len() ==> lo <= #[trigger] s.sort()[k] <= hi,
{
    broadcast use vstd::seq_lib::to_multiset_contains;

    s.lemma_sort_ensures();
    assert(s.sort().len() == s.len()) by {
        broadcast use vstd::seq_lib::to_multiset_len;

        assert(s.to_multiset().len() == s.len());
        assert(s.sort().to_multiset().len() == s.sort().len());
    }
    assert forall|k: int| 0 <= k < s.len() implies lo <= #[trigger] s.sort()[k] <= hi by {
        let v = s.sort()[k];
        assert(s.sort().contains(v));
        assert(s.sort().to_multiset().count(v) > 0);
        assert(s.to_multiset().count(v) > 0);
        assert(s.contains(v));
        let j = choose|j: int| 0 <= j < s.len() && s[j] == v;
    }
}

/// A sorted rearrangement of `s` is its sort.
pub proof fn lemma_sorted_permutation_is_sort(s: Seq<int>, t: Seq<int>)
    requires
        is_sorted(t),
        t.to_multiset() == s.to_multiset(),
    ensures
        t == s.sort(),
        t.len() == s.len(),
{
    let leq = |a: int, b: int| a <= b;
    s.lemma_sort_ensures();
    assert(sorted_by(t, leq));
    assert(total_ordering(leq));
    lemma_sorted_unique(t, s.sort(), leq);
    assert(t.len() == t.to_multiset().len()) by {
        broadcast use vstd::seq_lib::to_multiset_len;
    }
    assert(s.len() == s.to_multiset().len()) by {
        broadcast use vstd::seq_lib::to_multiset_len;
    }
}

/// Exchanging two elements keeps the multiset of a sequence.
proof fn lemma_swap_keeps_multiset(s: Seq<int>, i: int, j: int)
    requires
        0 <= i < s.len(),
        0 <= j < s.len(),
    ensures
        s.update(i, s[j]).update(j, s[i]).to_multiset() == s.to_multiset(),
{
    broadcast use vstd::multiset::group_multiset_axioms;

    if i == j {
        assert(s.update(i, s[j]).update(j, s[i]) =~= s);
    } else {
        let t = s.update(i, s[j]);
        let m = s.to_multiset();
        to_multiset_update(s, i, s[j]);
        to_multiset_update(t, j, s[i]);
        assert(t[j] == s[j]);
        assert(t.update(j, s[i]).to_multiset() =~= m.insert(s[j]).remove(s[i]).insert(s[i]).remove(
            s[j],
        ));
        assert(s.contains(s[i]));
        assert(m.count(s[i]) > 0) by {
            broadcast use vstd::seq_lib::to_multiset_contains;
        }
        assert(m.insert(s[j]).remove(s[i]).insert(s[i]).remove(s[j]) =~= m);
    }
}

/// Division rounded down, for a positive divisor.
pub fn floor_div(num: i128, den: i128) -> (q: i128)
    requires
        den > 0,
        num > i128::MIN,
    ensures
        q == num / den,
{
    if num >= 0 {
        ((num as u128) / (den as u128)) as i128
    } else {
        let m = (-num) as u128;
        let d = den as u128;
        let c = (m + (d - 1)) / d;
        proof {
            let t = m + (d - 1);
            vstd::arithmetic::div_mod::lemma_fundamental_div_mod(t as int, d as int);
            let r = t as int % d as int;
            assert(0 <= r < d);
            assert(c <= m) by (nonlinear_arith)
                requires
                    t == c * d + r,
                    t == m + d - 1,
                    0 <= r < d,
                    d >= 1,
                    m >= 1,
            ;
            assert(num == (-(c as int)) * den + (d as int - 1 - r)) by (nonlinear_arith)
                requires
                    t == c * d + r,
                    t == m + d - 1,
                    m == -num,
                    d == den,
            ;
            vstd::arithmetic::div_mod::lemma_fundamental_div_mod_converse(
                num as int,
                den as int,
                -(c as int),
                d as int - 1 - r,
            );
        }
        -(c as i128)
    }
}

/// Sorts `a` in ascending order by insertion.
pub fn sort_ascending<const N: usize>(a: &mut [i64; N])
    ensures
        is_sorted(ints(final(a)@)),
        ints(final(a)@).to_multiset() == ints(old(a)@).to_multiset(),
{
    let ghost orig = ints(a@);
    if N == 0 {
        return;
    }
    let mut i: usize = 1;
    while i < N
        invariant
            1 <= i <= N,
            a@.len() == N,
            ints(a@).to_multiset() == orig.to_multiset(),
            forall|k: int, l: int| 0 <= k < l < i ==> a@[k] <= a@[l],
        decreases N - i,
    {
        let mut j: usize = i;
        while j > 0 && a[j - 1] > a[j]
            invariant
                1 <= i < N,
                0 <= j <= i,
                a@.len() == N,
                ints(a@).to_multiset() == orig.to_multiset(),
                forall|k: int, l: int|
                    0 <= k < l <= i && l != j ==> a@[k] <= a@[l],
                forall|l: int| j < l <= i ==> a@[j as int] <= a@[l],
            decreases j,
        {
            let prev = a[j - 1];
            let cur = a[j];
            proof {
                lemma_swap_keeps_multiset(ints(a@), j - 1, j as int);
                assert(ints(a@.update(j - 1, cur).update(j as int, prev)) =~= ints(a@).update(
                    j - 1,
                    ints(a@)[j as int],
                ).update(j as int, ints(a@)[j - 1]));
            }
            a[j - 1] = cur;
            a[j] = prev;
            j = j - 1;
        }
        i = i + 1;
    }
}

} // verus!
