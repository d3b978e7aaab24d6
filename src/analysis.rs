//! What the board says about each line: statistics, ranking, and the line to pick.

use vstd::prelude::*;
use crate::board::{Board, DECISION_POINT};
use crate::lines::{
    LINE_COUNT, line_at, line_cells, line_outcomes, unknown_count, lemma_outcome_count,
    lemma_three_cells,
};
use crate::permutations::falling;
use crate::table::{
    SortBy, TableRow, average, greatest, key, prepare_rows, sort_rows, stably_sorted, summarizes,
    summarize,
};

verus! {

/// The statistic of line `i` that `by` ranks on.
pub open spec fn line_key(b: Board, i: int, by: SortBy) -> int {
    match by {
        SortBy::Avg => average(line_outcomes(b, i)),
        SortBy::Max => greatest(line_outcomes(b, i)) as int,
    }
}

/// Line `t` ranks first: no line has a greater key, and every line before it
/// has a smaller one.
pub open spec fn ranks_first(b: Board, by: SortBy, t: int) -> bool {
    &&& 0 <= t < LINE_COUNT
    &&& forall|j: int| 0 <= j < LINE_COUNT ==> line_key(b, j, by) <= line_key(b, t, by)
    &&& forall|j: int| 0 <= j < t ==> line_key(b, j, by) < line_key(b, t, by)
}

/// `rows` holds the statistics of the eight lines, each once, in descending
/// order of the statistic that `by` names, lines with equal statistics in line
/// order.
pub open spec fn ranked(b: Board, by: SortBy, rows: Seq<TableRow>) -> bool {
    &&& rows.len() == LINE_COUNT
    &&& forall|k: int|
        0 <= k < LINE_COUNT ==> (#[trigger] rows[k]).index < LINE_COUNT && summarizes(
            rows[k],
            rows[k].index as int,
            line_outcomes(b, rows[k].index as int),
        )
    &&& forall|a: int, c: int| 0 <= a < c < LINE_COUNT ==> rows[a].index != rows[c].index
    &&& forall|a: int, c: int| 0 <= a < c < LINE_COUNT ==> key(rows[a], by) >= key(rows[c], by)
    &&& forall|a: int, c: int|
        0 <= a < c < LINE_COUNT && key(rows[a], by) == key(rows[c], by) ==> rows[a].index
            < rows[c].index
}

/// The line that ranks first is the line of the first ranked row.
pub proof fn lemma_first_row_ranks_first(b: Board, by: SortBy, rows: Seq<TableRow>, t: int)
    requires
        ranked(b, by, rows),
        ranks_first(b, by, t),
    ensures
        rows[0].index == t,
{
    let f = rows[0].index as int;
    lemma_first_row_is_first(b, by, rows);
    if f < t {
        assert(line_key(b, f, by) < line_key(b, t, by));
    } else if t < f {
        assert(line_key(b, t, by) < line_key(b, f, by));
    }
}

proof fn lemma_first_row_is_first(b: Board, by: SortBy, rows: Seq<TableRow>)
    requires
        ranked(b, by, rows),
    ensures
        ranks_first(b, by, rows[0].index as int),
{
    let f = rows[0].index as int;
    assert forall|j: int| 0 <= j < LINE_COUNT implies line_key(b, j, by) <= line_key(b, f, by) by {
        lemma_rank_of_line(b, rows, by, j);
    }
    assert forall|j: int| 0 <= j < f implies line_key(b, j, by) < line_key(b, f, by) by {
        lemma_rank_of_line(b, rows, by, j);
    }
}

proof fn lemma_rank_of_line(b: Board, rows: Seq<TableRow>, by: SortBy, j: int)
    requires
        0 <= j < LINE_COUNT,
        ranked(b, by, rows),
    ensures
        line_key(b, j, by) <= line_key(b, rows[0].index as int, by),
        j < rows[0].index ==> line_key(b, j, by) < line_key(b, rows[0].index as int, by),
{
    // the eight indices are distinct values below eight, so `j` is one of them
    let idx = Seq::new(8, |k: int| rows[k].index as int);
    lemma_distinct_covers(idx, j);
    let k = choose|k: int| 0 <= k < 8 && rows[k].index == j;
    assert(key(rows[k], by) as int == line_key(b, j, by));
    assert(key(rows[0], by) as int == line_key(b, rows[0].index as int, by));
}

proof fn lemma_falling_small(n: nat, k: nat)
    requires
        n <= 9,
        k <= 3,
    ensures
        falling(n, k) <= 729,
{
    if k > 0 && n > 0 {
        let n1 = (n - 1) as nat;
        let k1 = (k - 1) as nat;
        if k1 > 0 && n1 > 0 {
            let n2 = (n1 - 1) as nat;
            let k2 = (k1 - 1) as nat;
            if k2 > 0 && n2 > 0 {
                let f = falling((n2 - 1) as nat, (k2 - 1) as nat);
                assert(f == 1);
                assert(falling(n2, k2) == n2 * f);
                assert(n2 * f == n2) by (nonlinear_arith)
                    requires
                        f == 1,
                ;
            }
            assert(falling(n2, k2) <= 9);
            assert(n1 * falling(n2, k2) <= 81) by (nonlinear_arith)
                requires
                    n1 <= 9,
                    falling(n2, k2) <= 9,
            ;
        }
        assert(falling(n1, k1) <= 81);
        assert(n * falling(n1, k1) <= 729) by (nonlinear_arith)
            requires
                n <= 9,
                falling(n1, k1) <= 81,
        ;
    }
}

proof fn lemma_free_digits_len(used: Seq<u8>, top: nat)
    ensures
        crate::board::free_digits(used, top).len() <= top,
    decreases top,
{
    if top > 0 {
        lemma_free_digits_len(used, (top - 1) as nat);
    }
}

/// A line has at most 729 outcomes.
proof fn lemma_few_outcomes(b: Board, i: int)
    ensures
        line_outcomes(b, i).len() <= 729,
{
    lemma_outcome_count(b, line_at(i));
    lemma_three_cells(b, line_at(i));
    lemma_free_digits_len(b.used_digits(), 9);
    lemma_falling_small(b.pool().len(), unknown_count(b, line_at(i)));
}

impl Board {
    /// The statistics of each line, in line order.
    pub fn line_summaries(&self) -> (r: Vec<TableRow>)
        requires
            self.wf(),
        ensures
            r@.len() == LINE_COUNT,
            forall|i: int| 0 <= i < LINE_COUNT ==> summarizes(#[trigger] r@[i], i, line_outcomes(*self, i)),
    {
        let payouts = self.possible_line_payouts();
        proof {
            assert forall|i: int| 0 <= i < payouts@.len() implies (#[trigger] payouts@[i])@.len() <= u32::MAX by {
                lemma_few_outcomes(*self, i);
            }
        }
        prepare_rows(payouts.as_slice())
    }

    /// The statistics of each line, in descending order of the statistic that
    /// `sort_by` names; lines with equal statistics stay in line order.
    pub fn rows(&self, sort_by: SortBy) -> (r: Vec<TableRow>)
        requires
            self.wf(),
        ensures
            ranked(*self, sort_by, r@),
    {
        let summaries = self.line_summaries();
        let ghost before = summaries@;
        let r = sort_rows(summaries, sort_by);
        proof {
            let p = choose|p: Seq<int>| stably_sorted(before, r@, sort_by, p);
            assert forall|k: int| 0 <= k < LINE_COUNT implies (#[trigger] r@[k]).index == p[k] by {
                assert(r@[k] == before[p[k]]);
            }
        }
        r
    }

    /// The cells of the line to pick: once exactly four cells are revealed,
    /// the line that ranks first under `sort_by`; before or after that, none.
    pub fn best_line_cells(&self, sort_by: SortBy) -> (r: Option<[usize; 3]>)
        requires
            self.wf(),
        ensures
            r is Some <==> self.filled() == DECISION_POINT,
            r is Some ==> exists|t: int| ranks_first(*self, sort_by, t) && r->0@ == line_at(t),
    {
        let rows = self.rows(sort_by);
        if self.filled_count() == DECISION_POINT {
            let t = rows[0].index;
            proof {
                lemma_first_row_is_first(*self, sort_by, rows@);
            }
            Some(line_cells(t))
        } else {
            None
        }
    }

    /// The greatest payout still attainable on a line through cell `cell`.
    pub fn max_value(&self, cell: usize) -> (r: u32)
        requires
            self.wf(),
            cell < 9,
        ensures
            exists|i: int|
                0 <= i < LINE_COUNT && line_at(i).contains(cell) && r == greatest(line_outcomes(*self, i)),
            forall|i: int|
                0 <= i < LINE_COUNT && line_at(i).contains(cell) ==> greatest(line_outcomes(*self, i)) <= r,
    {
        let row = cell / 3;
        assert(line_at(row as int)[cell as int % 3] == cell);
        proof {
            lemma_few_outcomes(*self, row as int);
        }
        let mut best = summarize(row, &self.line_payouts(row)).max;
        let ghost mut at: int = row as int;
        let mut i: usize = 0;
        while i < LINE_COUNT
            invariant
                i <= LINE_COUNT,
                self.wf(),
                cell < 9,
                0 <= at < LINE_COUNT,
                line_at(at).contains(cell),
                best == greatest(line_outcomes(*self, at)),
                forall|j: int|
                    0 <= j < i && line_at(j).contains(cell) ==> greatest(line_outcomes(*self, j)) <= best,
            decreases LINE_COUNT - i,
        {
            let cells = line_cells(i);
            if cells[0] == cell || cells[1] == cell || cells[2] == cell {
                proof {
                    lemma_few_outcomes(*self, i as int);
                    assert(cells@[0] == cells[0] && cells@[1] == cells[1] && cells@[2] == cells[2]);
                }
                let m = summarize(i, &self.line_payouts(i)).max;
                if m > best {
                    best = m;
                    proof {
                        at = i as int;
                        if cells[0] == cell {
                            assert(line_at(at)[0] == cell);
                        } else if cells[1] == cell {
                            assert(line_at(at)[1] == cell);
                        } else {
                            assert(line_at(at)[2] == cell);
                        }
                    }
                }
            } else {
                proof {
                    assert(!line_at(i as int).contains(cell)) by {
                        if line_at(i as int).contains(cell) {
                            let k = choose|k: int| 0 <= k < 3 && line_at(i as int)[k] == cell;
                            assert(cells@[k] == cell);
                        }
                    }
                }
            }
            i = i + 1;
        }
        best
    }
}

/// Eight distinct values below eight take every value below eight.
proof fn lemma_distinct_covers(idx: Seq<int>, j: int)
    requires
        idx.len() == 8,
        0 <= j < 8,
        forall|k: int| 0 <= k < 8 ==> 0 <= #[trigger] idx[k] < 8,
        forall|a: int, b: int| 0 <= a < b < 8 ==> idx[a] != idx[b],
    ensures
        exists|k: int| 0 <= k < 8 && idx[k] == j,
{
    let s = idx.to_set();
    let full = Set::new(|x: int| 0 <= x < 8);
    assert(idx.no_duplicates());
    idx.unique_seq_to_set();
    assert(s.subset_of(full));
    assert(full =~= vstd::set_lib::set_int_range(0, 8));
    vstd::set_lib::lemma_int_range(0, 8);
    if !s.contains(j) {
        vstd::set_lib::lemma_len_subset(s, full.remove(j));
    }
}

} // verus!
