//! The eight scoring lines and the outcomes each can still pay.

use vstd::prelude::*;
use crate::board::{Board, free_digits};
use crate::payout::{payout, payout_for_sum};
use crate::permutations::{perms, falling, k_permutations, lemma_perms_entries, lemma_perms_len};

verus! {

/// The number of scoring lines.
pub const LINE_COUNT: usize = 8;

/// The largest sum three digits can have.
pub const MAX_LINE_SUM: u8 = 27;

/// The cells of line `i`: rows, then columns, then the two diagonals.
pub open spec fn line_at(i: int) -> Seq<usize> {
    if i == 0 {
        seq![0usize, 1, 2]
    } else if i == 1 {
        seq![3usize, 4, 5]
    } else if i == 2 {
        seq![6usize, 7, 8]
    } else if i == 3 {
        seq![0usize, 3, 6]
    } else if i == 4 {
        seq![1usize, 4, 7]
    } else if i == 5 {
        seq![2usize, 5, 8]
    } else if i == 6 {
        seq![0usize, 4, 8]
    } else {
        seq![2usize, 4, 6]
    }
}

/// The name of line `i`.
pub open spec fn label_at(i: int) -> Seq<char> {
    if i == 0 {
        "Row 1"@
    } else if i == 1 {
        "Row 2"@
    } else if i == 2 {
        "Row 3"@
    } else if i == 3 {
        "Col 1"@
    } else if i == 4 {
        "Col 2"@
    } else if i == 5 {
        "Col 3"@
    } else if i == 6 {
        "Diag 1"@
    } else if i == 7 {
        "Diag 2"@
    } else {
        ""@
    }
}

/// The cells of line `i`.
pub fn line_cells(i: usize) -> (r: [usize; 3])
    requires
        i < LINE_COUNT,
    ensures
        r@ == line_at(i as int),
{
    let r: [usize; 3] = match i {
        0 => [0, 1, 2],
        1 => [3, 4, 5],
        2 => [6, 7, 8],
        3 => [0, 3, 6],
        4 => [1, 4, 7],
        5 => [2, 5, 8],
        6 => [0, 4, 8],
        _ => [2, 4, 6],
    };
    assert(r@ =~= line_at(i as int));
    r
}

/// The name of line `i`; empty past the last line.
pub fn line_label(i: usize) -> (r: String)
    ensures
        r@ == label_at(i as int),
{
    match i {
        0 => "Row 1".to_owned(),
        1 => "Row 2".to_owned(),
        2 => "Row 3".to_owned(),
        3 => "Col 1".to_owned(),
        4 => "Col 2".to_owned(),
        5 => "Col 3".to_owned(),
        6 => "Diag 1".to_owned(),
        7 => "Diag 2".to_owned(),
        _ => "".to_owned(),
    }
}

/// The sum of the digits in `p`.
pub open spec fn seq_sum(p: Seq<u8>) -> int
    decreases p.len(),
{
    if p.len() == 0 {
        0
    } else {
        seq_sum(p.drop_last()) + p.last()
    }
}

/// The sum of the digits already revealed in `cells`.
pub open spec fn known_sum(b: Board, cells: Seq<usize>) -> int
    decreases cells.len(),
{
    if cells.len() == 0 {
        0
    } else {
        known_sum(b, cells.drop_last()) + match b.spec_cell(cells.last() as int) {
            Some(d) => d as int,
            None => 0,
        }
    }
}

/// How many of `cells` are empty.
pub open spec fn unknown_count(b: Board, cells: Seq<usize>) -> nat
    decreases cells.len(),
{
    if cells.len() == 0 {
        0
    } else {
        unknown_count(b, cells.drop_last()) + if b.spec_cell(cells.last() as int) is None {
            1nat
        } else {
            0nat
        }
    }
}

/// The sum of `cells` in each completion of the board: one entry for each way
/// of giving the empty cells distinct free digits, in lexicographic order of
/// the digits' positions among the free digits.
pub open spec fn completion_sums(b: Board, cells: Seq<usize>) -> Seq<int> {
    perms(b.pool(), unknown_count(b, cells)).map_values(
        |p: Seq<u8>| known_sum(b, cells) + seq_sum(p),
    )
}

/// The payout of `cells` in each completion of the board, in the order of
/// `completion_sums`.
pub open spec fn completion_payouts(b: Board, cells: Seq<usize>) -> Seq<u32> {
    completion_sums(b, cells).map_values(|s: int| payout(s) as u32)
}

/// The payouts line `i` can still earn, one for each completion of the board.
pub open spec fn line_outcomes(b: Board, i: int) -> Seq<u32> {
    completion_payouts(b, line_at(i))
}

/// What a cell adds to the sum of its line's revealed digits.
pub open spec fn cell_value(b: Board, c: usize) -> int {
    match b.spec_cell(c as int) {
        Some(d) => d as int,
        None => 0,
    }
}

/// Whether a cell is empty, as a count.
pub open spec fn cell_unknown(b: Board, c: usize) -> nat {
    if b.spec_cell(c as int) is None {
        1
    } else {
        0
    }
}

pub(crate) proof fn lemma_three_cells(b: Board, c: Seq<usize>)
    requires
        c.len() == 3,
    ensures
        known_sum(b, c) == cell_value(b, c[0]) + cell_value(b, c[1]) + cell_value(b, c[2]),
        unknown_count(b, c) == cell_unknown(b, c[0]) + cell_unknown(b, c[1]) + cell_unknown(b, c[2]),
{
    let c2 = c.drop_last();
    let c1 = c2.drop_last();
    let c0 = c1.drop_last();
    assert(c0.len() == 0);
    assert(known_sum(b, c1) == known_sum(b, c0) + cell_value(b, c[0]));
    assert(known_sum(b, c2) == known_sum(b, c1) + cell_value(b, c[1]));
    assert(unknown_count(b, c1) == unknown_count(b, c0) + cell_unknown(b, c[0]));
    assert(unknown_count(b, c2) == unknown_count(b, c1) + cell_unknown(b, c[1]));
}

/// A line has one outcome for each way of giving its empty cells distinct free
/// digits: `falling(free digits, empty cells)` of them, where a well-formed
/// board has nine less its filled cells free; each outcome is a payout of the
/// table.
pub proof fn lemma_outcome_count(b: Board, cells: Seq<usize>)
    ensures
        completion_payouts(b, cells).len() == falling(b.pool().len(), unknown_count(b, cells)),
        b.wf() ==> completion_payouts(b, cells).len() == falling(
            (9 - b.filled()) as nat,
            unknown_count(b, cells),
        ),
        forall|j: int|
            0 <= j < completion_payouts(b, cells).len() ==> 0 <= #[trigger] completion_payouts(b, cells)[j]
                <= crate::payout::TOP_PAYOUT,
{
    lemma_perms_len(b.pool(), unknown_count(b, cells));
    if b.wf() {
        b.lemma_pool_size();
    }
    assert forall|j: int| 0 <= j < completion_payouts(b, cells).len() implies 0 <= #[trigger] completion_payouts(b, cells)[j]
        <= crate::payout::TOP_PAYOUT by {
        crate::payout::lemma_payout_range(completion_sums(b, cells)[j]);
    }
}

/// A line with no empty cell has exactly one outcome: the payout for the sum
/// of its digits.
pub proof fn lemma_fully_known_line(b: Board, cells: Seq<usize>)
    requires
        unknown_count(b, cells) == 0,
    ensures
        completion_payouts(b, cells) == seq![payout(known_sum(b, cells)) as u32],
{
    let p: Seq<u8> = Seq::empty();
    assert(seq_sum(p) == 0);
    assert(completion_payouts(b, cells) =~= seq![payout(known_sum(b, cells)) as u32]);
}

/// Listing a line's cells in another order leaves its outcomes as they are.
pub proof fn lemma_cell_order_irrelevant(b: Board, cells: Seq<usize>, i0: int, i1: int, i2: int)
    requires
        cells.len() == 3,
        0 <= i0 < 3,
        0 <= i1 < 3,
        0 <= i2 < 3,
        i0 != i1,
        i1 != i2,
        i0 != i2,
    ensures
        completion_payouts(b, seq![cells[i0], cells[i1], cells[i2]]) == completion_payouts(b, cells),
        completion_sums(b, seq![cells[i0], cells[i1], cells[i2]]) == completion_sums(b, cells),
{
    let other = seq![cells[i0], cells[i1], cells[i2]];
    lemma_three_cells(b, cells);
    lemma_three_cells(b, other);
    assert(known_sum(b, other) == known_sum(b, cells));
    assert(unknown_count(b, other) == unknown_count(b, cells));
}

/// Each entry of `used`'s complement lies between 1 and `top`.
proof fn lemma_free_digits_range(used: Seq<u8>, top: nat)
    requires
        top <= 9,
    ensures
        forall|m: int|
            0 <= m < free_digits(used, top).len() ==> 1 <= #[trigger] free_digits(used, top)[m] <= top,
    decreases top,
{
    if top > 0 {
        let below = free_digits(used, (top - 1) as nat);
        lemma_free_digits_range(used, (top - 1) as nat);
        assert forall|m: int|
            0 <= m < free_digits(used, top).len() implies 1 <= #[trigger] free_digits(used, top)[m] <= top by {
            if m < below.len() {
                assert(free_digits(used, top)[m] == below[m]);
            }
        }
    }
}

/// The sum of `p`, whose entries are digits.
fn sum_digits(p: &Vec<u8>) -> (r: u8)
    requires
        p@.len() <= 3,
        forall|m: int| 0 <= m < p@.len() ==> #[trigger] p@[m] <= 9,
    ensures
        r == seq_sum(p@),
        r <= 9 * p@.len(),
{
    let mut acc: u8 = 0;
    let mut j: usize = 0;
    while j < p.len()
        invariant
            j <= p@.len() <= 3,
            forall|m: int| 0 <= m < p@.len() ==> #[trigger] p@[m] <= 9,
            acc == seq_sum(p@.take(j as int)),
            acc <= 9 * j,
        decreases p@.len() - j,
    {
        assert(p@.take(j + 1).drop_last() =~= p@.take(j as int));
        acc = acc + p[j];
        j = j + 1;
    }
    assert(p@.take(j as int) =~= p@);
    acc
}

impl Board {
    /// The sum of `cells` in each completion of the board, in the order of
    /// `completion_sums`.
    pub fn sums_for_cells(&self, cells: [usize; 3]) -> (r: Vec<u8>)
        requires
            self.wf(),
            forall|j: int| 0 <= j < 3 ==> #[trigger] cells@[j] < 9,
        ensures
            r@.len() == completion_sums(*self, cells@).len(),
            forall|j: int| 0 <= j < r@.len() ==> #[trigger] r@[j] == completion_sums(*self, cells@)[j],
            forall|j: int| 0 <= j < r@.len() ==> #[trigger] r@[j] <= MAX_LINE_SUM,
    {
        let mut known: u8 = 0;
        let mut k: usize = 0;
        let mut j: usize = 0;
        while j < 3
            invariant
                j <= 3,
                self.wf(),
                forall|m: int| 0 <= m < 3 ==> #[trigger] cells@[m] < 9,
                known == known_sum(*self, cells@.take(j as int)),
                k == unknown_count(*self, cells@.take(j as int)),
                k <= j,
                known <= 9 * (j - k),
            decreases 3 - j,
        {
            assert(cells@.take(j + 1).drop_last() =~= cells@.take(j as int));
            assert(self.spec_cell(cells@[j as int] as int) == self.cells@[cells@[j as int] as int]);
            match self.cells[cells[j]] {
                Some(d) => {
                    known = known + d;
                },
                None => {
                    k = k + 1;
                },
            }
            j = j + 1;
        }
        assert(cells@.take(3) =~= cells@);
        let pool = self.unused();
        proof {
            lemma_free_digits_range(self.used_digits(), 9);
        }
        let choices = k_permutations(&pool, k);
        let ghost sums = completion_sums(*self, cells@);
        let mut r: Vec<u8> = Vec::new();
        let mut i: usize = 0;
        while i < choices.len()
            invariant
                i <= choices@.len(),
                choices@.len() == perms(pool@, k as nat).len(),
                forall|m: int| 0 <= m < choices@.len() ==> #[trigger] choices@[m]@ == perms(pool@, k as nat)[m],
                pool@ == self.pool(),
                forall|m: int| 0 <= m < pool@.len() ==> 1 <= #[trigger] pool@[m] <= 9,
                sums == completion_sums(*self, cells@),
                known == known_sum(*self, cells@),
                k == unknown_count(*self, cells@),
                k <= 3,
                known <= 9 * (3 - k),
                r@.len() == i,
                forall|m: int| 0 <= m < i ==> #[trigger] r@[m] == sums[m],
                forall|m: int| 0 <= m < i ==> #[trigger] r@[m] <= MAX_LINE_SUM,
            decreases choices@.len() - i,
        {
            proof {
                lemma_perms_entries(pool@, k as nat, i as int);
                assert forall|m: int| 0 <= m < choices@[i as int]@.len() implies #[trigger] choices@[i as int]@[m] <= 9 by {
                    assert(pool@.contains(perms(pool@, k as nat)[i as int][m]));
                }
            }
            let s = sum_digits(&choices[i]);
            r.push(known + s);
            i = i + 1;
        }
        r
    }

    /// The payout of `cells` in each completion of the board.
    pub fn payouts_for_cells(&self, cells: [usize; 3]) -> (r: Vec<u32>)
        requires
            self.wf(),
            forall|j: int| 0 <= j < 3 ==> #[trigger] cells@[j] < 9,
        ensures
            r@ == completion_payouts(*self, cells@),
    {
        let sums = self.sums_for_cells(cells);
        let ghost want = completion_payouts(*self, cells@);
        let mut r: Vec<u32> = Vec::new();
        let mut i: usize = 0;
        while i < sums.len()
            invariant
                i <= sums@.len(),
                sums@.len() == completion_sums(*self, cells@).len(),
                forall|j: int| 0 <= j < sums@.len() ==> #[trigger] sums@[j] == completion_sums(*self, cells@)[j],
                want == completion_payouts(*self, cells@),
                r@.len() == i,
                forall|j: int| 0 <= j < i ==> #[trigger] r@[j] == want[j],
            decreases sums@.len() - i,
        {
            proof {
                crate::payout::lemma_payout_range(sums@[i as int] as int);
            }
            r.push(payout_for_sum(sums[i]));
            i = i + 1;
        }
        assert(r@ =~= want);
        r
    }

    /// The payouts line `line` can still earn, one for each completion of the
    /// board: a line with no empty cell has exactly one.
    pub fn line_payouts(&self, line: usize) -> (r: Vec<u32>)
        requires
            self.wf(),
            line < LINE_COUNT,
        ensures
            r@ == line_outcomes(*self, line as int),
    {
        let cells = line_cells(line);
        self.payouts_for_cells(cells)
    }

    /// The outcomes of each line, in line order.
    pub fn possible_line_payouts(&self) -> (r: Vec<Vec<u32>>)
        requires
            self.wf(),
        ensures
            r@.len() == LINE_COUNT,
            forall|i: int| 0 <= i < LINE_COUNT ==> #[trigger] r@[i]@ == line_outcomes(*self, i),
    {
        let mut r: Vec<Vec<u32>> = Vec::new();
        let mut i: usize = 0;
        while i < LINE_COUNT
            invariant
                i <= LINE_COUNT,
                self.wf(),
                r@.len() == i,
                forall|j: int| 0 <= j < i ==> #[trigger] r@[j]@ == line_outcomes(*self, j),
            decreases LINE_COUNT - i,
        {
            r.push(self.line_payouts(i));
            i = i + 1;
        }
        r
    }
}

/// The distinct entries of `v`, in increasing order.
fn distinct_sums(v: &Vec<u8>) -> (r: Vec<u8>)
    requires
        forall|j: int| 0 <= j < v@.len() ==> #[trigger] v@[j] <= MAX_LINE_SUM,
    ensures
        forall|a: int, b: int| 0 <= a < b < r@.len() ==> r@[a] < r@[b],
        forall|x: u8| r@.contains(x) <==> v@.contains(x),
{
    let mut r: Vec<u8> = Vec::new();
    let mut s: u8 = 0;
    while s <= MAX_LINE_SUM
        invariant
            s <= MAX_LINE_SUM + 1,
            forall|j: int| 0 <= j < v@.len() ==> #[trigger] v@[j] <= MAX_LINE_SUM,
            forall|a: int, b: int| 0 <= a < b < r@.len() ==> r@[a] < r@[b],
            forall|j: int| 0 <= j < r@.len() ==> #[trigger] r@[j] < s,
            forall|x: u8| x < s ==> (r@.contains(x) <==> v@.contains(x)),
        decreases MAX_LINE_SUM + 1 - s,
    {
        let ghost before = r@;
        if crate::board::contains_digit(v, s) {
            r.push(s);
        }
        assert forall|x: u8| x <= s implies (r@.contains(x) <==> v@.contains(x)) by {
            if x < s && before.contains(x) {
                let j = choose|j: int| 0 <= j < before.len() && before[j] == x;
                assert(r@[j] == x);
            }
            if r@.contains(x) && x < s {
                let j = choose|j: int| 0 <= j < r@.len() && r@[j] == x;
                assert(j < before.len());
                assert(before[j] == x);
            }
            if x == s && v@.contains(x) {
                assert(r@[r@.len() - 1] == s);
            }
            if x == s && r@.contains(x) && !v@.contains(x) {
                let j = choose|j: int| 0 <= j < r@.len() && r@[j] == x;
                assert(before[j] < s);
            }
        }
        s = s + 1;
    }
    assert forall|x: u8| r@.contains(x) <==> v@.contains(x) by {
        if x > MAX_LINE_SUM {
            if v@.contains(x) {
                let j = choose|j: int| 0 <= j < v@.len() && v@[j] == x;
                assert(v@[j] <= MAX_LINE_SUM);
            }
            if r@.contains(x) {
                let j = choose|j: int| 0 <= j < r@.len() && r@[j] == x;
                assert(r@[j] < s);
            }
        }
    }
    r
}

/// For each line, in line order, the distinct sums it can have over the
/// completions of the board, in increasing order.
pub fn possible_line_sums(board: &Board) -> (r: Vec<Vec<u8>>)
    requires
        board.wf(),
    ensures
        r@.len() == LINE_COUNT,
        forall|i: int, a: int, b: int|
            0 <= i < LINE_COUNT && 0 <= a < b < r@[i]@.len() ==> #[trigger] r@[i]@[a] < #[trigger] r@[i]@[b],
        forall|i: int, x: u8|
            0 <= i < LINE_COUNT ==> (#[trigger] r@[i]@.contains(x) <==> completion_sums(*board, line_at(i)).contains(x as int)),
{
    let mut r: Vec<Vec<u8>> = Vec::new();
    let mut i: usize = 0;
    while i < LINE_COUNT
        invariant
            i <= LINE_COUNT,
            board.wf(),
            r@.len() == i,
            forall|l: int, a: int, b: int|
                0 <= l < i && 0 <= a < b < r@[l]@.len() ==> #[trigger] r@[l]@[a] < #[trigger] r@[l]@[b],
            forall|l: int, x: u8|
                0 <= l < i ==> (#[trigger] r@[l]@.contains(x) <==> completion_sums(*board, line_at(l)).contains(x as int)),
        decreases LINE_COUNT - i,
    {
        let cells = line_cells(i);
        let sums = board.sums_for_cells(cells);
        let d = distinct_sums(&sums);
        proof {
            let want = completion_sums(*board, line_at(i as int));
            assert forall|x: u8| sums@.contains(x) <==> want.contains(x as int) by {
                if sums@.contains(x) {
                    let j = choose|j: int| 0 <= j < sums@.len() && sums@[j] == x;
                    assert(want[j] == x as int);
                }
                if want.contains(x as int) {
                    let j = choose|j: int| 0 <= j < want.len() && want[j] == x as int;
                    assert(sums@[j] == x);
                }
            }
        }
        r.push(d);
        i = i + 1;
    }
    r
}

} // verus!
