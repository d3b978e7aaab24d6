//! Per-line statistics and their ranking.

use vstd::prelude::*;
use crate::lines::{label_at, line_label};

verus! {

/// The statistic that ranks the lines.
#[derive(Clone, Copy, PartialEq, Eq, Debug)]
pub enum SortBy {
    Avg,
    Max,
}

/// The statistics of one line.
///
/// The share of outcomes that pay the maximum is `max_count / outcomes`; it is
/// zero when there are no outcomes or when the maximum is zero.
#[derive(Clone, PartialEq, Debug)]
pub struct TableRow {
    /// The line's position in line order.
    pub index: usize,
    pub line_label: String,
    /// The mean payout, rounded toward zero.
    pub avg: u32,
    /// The greatest payout.
    pub max: u32,
    /// How many outcomes pay `max` (zero when `max` is zero).
    pub max_count: usize,
    /// How many outcomes there are.
    pub outcomes: usize,
}

/// The sum of `v`.
pub open spec fn total(v: Seq<u32>) -> int
    decreases v.len(),
{
    if v.len() == 0 {
        0
    } else {
        total(v.drop_last()) + v.last()
    }
}

/// The greatest entry of `v`, or zero when `v` is empty.
pub open spec fn greatest(v: Seq<u32>) -> u32
    decreases v.len(),
{
    if v.len() == 0 {
        0
    } else if greatest(v.drop_last()) >= v.last() {
        greatest(v.drop_last())
    } else {
        v.last()
    }
}

/// How many entries of `v` equal `x`.
pub open spec fn count_of(v: Seq<u32>, x: u32) -> nat
    decreases v.len(),
{
    if v.len() == 0 {
        0
    } else {
        count_of(v.drop_last(), x) + if v.last() == x {
            1nat
        } else {
            0nat
        }
    }
}

/// The mean of `v` rounded toward zero, or zero when `v` is empty.
pub open spec fn average(v: Seq<u32>) -> int {
    if v.len() == 0 {
        0
    } else {
        total(v) / (v.len() as int)
    }
}

/// How many entries of `v` reach its maximum, or zero when that maximum is zero.
pub open spec fn max_hits(v: Seq<u32>) -> nat {
    if greatest(v) == 0 {
        0
    } else {
        count_of(v, greatest(v))
    }
}

/// `row` holds the statistics of the outcomes `v` of line `i`.
pub open spec fn summarizes(row: TableRow, i: int, v: Seq<u32>) -> bool {
    &&& row.index == i
    &&& row.line_label@ == label_at(i)
    &&& row.avg == average(v)
    &&& row.max == greatest(v)
    &&& row.max_count == max_hits(v)
    &&& row.outcomes == v.len()
}

/// The value of `row` that `by` ranks on.
pub open spec fn key(row: TableRow, by: SortBy) -> u32 {
    match by {
        SortBy::Avg => row.avg,
        SortBy::Max => row.max,
    }
}

proof fn lemma_total_bound(v: Seq<u32>)
    ensures
        0 <= total(v) <= v.len() * greatest(v),
        forall|j: int| 0 <= j < v.len() ==> #[trigger] v[j] <= greatest(v),
        count_of(v, greatest(v)) <= v.len(),
    decreases v.len(),
{
    if v.len() > 0 {
        let w = v.drop_last();
        lemma_total_bound(w);
        lemma_count_bound(w, greatest(v));
        assert(total(w) <= w.len() * greatest(v)) by (nonlinear_arith)
            requires
                total(w) <= w.len() * greatest(w),
                greatest(w) <= greatest(v),
        ;
        assert(v.len() * greatest(v) == w.len() * greatest(v) + greatest(v)) by (nonlinear_arith)
            requires
                v.len() == w.len() + 1,
        ;
        assert forall|j: int| 0 <= j < v.len() implies #[trigger] v[j] <= greatest(v) by {
            if j < w.len() {
                assert(v[j] == w[j]);
            }
        }
    }
}

proof fn lemma_count_bound(v: Seq<u32>, x: u32)
    ensures
        count_of(v, x) <= v.len(),
    decreases v.len(),
{
    if v.len() > 0 {
        lemma_count_bound(v.drop_last(), x);
    }
}

/// The mean of a line's outcomes never exceeds their maximum, and the outcomes
/// that reach the maximum are a share between none and all of them.
pub proof fn lemma_summary_bounds(v: Seq<u32>)
    ensures
        0 <= average(v) <= greatest(v),
        max_hits(v) <= v.len(),
        v.len() == 0 ==> max_hits(v) == 0,
{
    lemma_total_bound(v);
    if v.len() > 0 {
        let n = v.len() as int;
        let g = greatest(v) as int;
        let t = total(v);
        assert(0 <= t / n <= g) by (nonlinear_arith)
            requires
                0 <= t <= n * g,
                n > 0,
        ;
    }
}

/// The statistics of the outcomes `vals` of line `index`.
pub fn summarize(index: usize, vals: &Vec<u32>) -> (r: TableRow)
    requires
        vals@.len() <= u32::MAX,
    ensures
        summarizes(r, index as int, vals@),
{
    let n = vals.len();
    let mut sum: u64 = 0;
    let mut max: u32 = 0;
    let mut j: usize = 0;
    while j < n
        invariant
            n == vals@.len() <= u32::MAX,
            j <= n,
            sum == total(vals@.take(j as int)),
            max == greatest(vals@.take(j as int)),
            sum <= j * (u32::MAX as int),
        decreases n - j,
    {
        assert(vals@.take(j + 1).drop_last() =~= vals@.take(j as int));
        assert(sum + vals@[j as int] <= (j + 1) * (u32::MAX as int)) by (nonlinear_arith)
            requires
                sum <= j * (u32::MAX as int),
                vals@[j as int] <= u32::MAX,
        ;
        assert((j + 1) * (u32::MAX as int) <= (u32::MAX as int) * (u32::MAX as int)) by (nonlinear_arith)
            requires
                j + 1 <= u32::MAX,
        ;
        sum = sum + vals[j] as u64;
        if vals[j] > max {
            max = vals[j];
        }
        j = j + 1;
    }
    assert(vals@.take(n as int) =~= vals@);
    let mut count: usize = 0;
    let mut j: usize = 0;
    while j < n
        invariant
            n == vals@.len(),
            j <= n,
            count == count_of(vals@.take(j as int), max),
            count <= j,
        decreases n - j,
    {
        assert(vals@.take(j + 1).drop_last() =~= vals@.take(j as int));
        if vals[j] == max {
            count = count + 1;
        }
        j = j + 1;
    }
    assert(vals@.take(n as int) =~= vals@);
    proof {
        lemma_summary_bounds(vals@);
    }
    let avg: u32 = if n == 0 {
        0
    } else {
        (sum / n as u64) as u32
    };
    let max_count: usize = if max == 0 {
        0
    } else {
        count
    };
    TableRow { index, line_label: line_label(index), avg, max, max_count, outcomes: n }
}

/// The statistics of each list of outcomes, in order: row `i` describes line `i`.
pub fn prepare_rows(payouts: &[Vec<u32>]) -> (r: Vec<TableRow>)
    requires
        forall|i: int| 0 <= i < payouts@.len() ==> (#[trigger] payouts@[i])@.len() <= u32::MAX,
    ensures
        r@.len() == payouts@.len(),
        forall|i: int| 0 <= i < payouts@.len() ==> summarizes(#[trigger] r@[i], i, payouts@[i]@),
{
    let mut r: Vec<TableRow> = Vec::new();
    let mut i: usize = 0;
    while i < payouts.len()
        invariant
            i <= payouts@.len(),
            forall|m: int| 0 <= m < payouts@.len() ==> (#[trigger] payouts@[m])@.len() <= u32::MAX,
            r@.len() == i,
            forall|m: int| 0 <= m < i ==> summarizes(#[trigger] r@[m], m, payouts@[m]@),
        decreases payouts@.len() - i,
    {
        r.push(summarize(i, &payouts[i]));
        i = i + 1;
    }
    r
}

/// `p` lists each position below `n` once.
pub open spec fn is_permutation(p: Seq<int>, n: int) -> bool {
    &&& p.len() == n
    &&& forall|k: int| 0 <= k < n ==> 0 <= #[trigger] p[k] < n
    &&& forall|a: int, b: int| 0 <= a < b < n ==> p[a] != p[b]
}

/// `after` is `before` rearranged by `p` (entry `k` of `after` is entry `p[k]`
/// of `before`), in descending order of the key, with rows of equal key in
/// their order in `before`.
pub open spec fn stably_sorted(before: Seq<TableRow>, after: Seq<TableRow>, by: SortBy, p: Seq<int>) -> bool {
    &&& is_permutation(p, before.len() as int)
    &&& after.len() == before.len()
    &&& forall|k: int| 0 <= k < after.len() ==> #[trigger] after[k] == before[p[k]]
    &&& forall|a: int, b: int| 0 <= a < b < after.len() ==> key(after[a], by) >= key(after[b], by)
    &&& forall|a: int, b: int|
        0 <= a < b < after.len() && key(after[a], by) == key(after[b], by) ==> p[a] < p[b]
}

/// The value of `row` that `by` ranks on.
pub fn row_key(row: &TableRow, by: SortBy) -> (r: u32)
    ensures
        r == key(*row, by),
{
    match by {
        SortBy::Avg => row.avg,
        SortBy::Max => row.max,
    }
}

/// The rows in descending order of the key that `sort_by` names; rows with
/// equal keys keep their order.
pub fn sort_rows(rows: Vec<TableRow>, sort_by: SortBy) -> (r: Vec<TableRow>)
    ensures
        exists|p: Seq<int>| stably_sorted(rows@, r@, sort_by, p),
{
    let ghost orig = rows@;
    let n = rows.len();
    let mut v = rows;
    let ghost mut p: Seq<int> = Seq::new(n as nat, |k: int| k);
    let mut i: usize = 0;
    while i < n
        invariant
            n == orig.len(),
            i <= n,
            v@.len() == n,
            p.len() == n,
            forall|k: int| 0 <= k < n ==> #[trigger] v@[k] == orig[p[k]],
            forall|k: int| i <= k < n ==> #[trigger] p[k] == k,
            forall|k: int| 0 <= k < i ==> 0 <= #[trigger] p[k] < i,
            forall|a: int, b: int| 0 <= a < b < i ==> p[a] != p[b],
            forall|a: int, b: int| 0 <= a < b < i ==> key(v@[a], sort_by) >= key(v@[b], sort_by),
            forall|a: int, b: int|
                0 <= a < b < i && key(v@[a], sort_by) == key(v@[b], sort_by) ==> p[a] < p[b],
        decreases n - i,
    {
        let x = v.remove(i);
        let kx = row_key(&x, sort_by);
        let ghost q = p.remove(i as int);
        assert(x == orig[i as int]);
        let mut j: usize = i;
        while j > 0 && row_key(&v[j - 1], sort_by) < kx
            invariant
                j <= i < n,
                v@.len() == n - 1,
                kx == key(x, sort_by),
                forall|m: int| j <= m < i ==> key(#[trigger] v@[m], sort_by) < kx,
            decreases j,
        {
            j = j - 1;
        }
        proof {
            assert forall|m: int| 0 <= m < j implies key(#[trigger] v@[m], sort_by) >= kx by {
                assert(key(v@[m], sort_by) >= key(v@[j - 1], sort_by));
            }
        }
        let ghost w = v@;
        v.insert(j, x);
        proof {
            p = q.insert(j as int, i as int);
            assert forall|k: int| 0 <= k < n implies #[trigger] v@[k] == orig[p[k]] by {
                if k < j {
                    assert(v@[k] == w[k]);
                } else if k > j {
                    assert(v@[k] == w[k - 1]);
                }
            }
            assert forall|k: int| 0 <= k <= i implies 0 <= #[trigger] p[k] < i + 1 by {
                if k < j {
                    assert(p[k] == q[k]);
                } else if k > j {
                    assert(p[k] == q[k - 1]);
                }
            }
            assert forall|k: int| i + 1 <= k < n implies #[trigger] p[k] == k by {
                assert(p[k] == q[k - 1]);
            }
        }
        i = i + 1;
    }
    proof {
        assert(stably_sorted(orig, v@, sort_by, p));
    }
    v
}

} // verus!
