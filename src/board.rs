//! The 3x3 board: nine cells in row-major order, each empty or holding a digit.

use vstd::prelude::*;

verus! {

/// The number of cells of the board.
pub const CELL_COUNT: usize = 9;

/// The smallest digit a cell can hold.
pub const MIN_DIGIT: u8 = 1;

/// The largest digit a cell can hold.
pub const MAX_DIGIT: u8 = 9;

/// The number of revealed cells at which the game makes the player pick a line.
pub const DECISION_POINT: usize = 4;

#[derive(Clone, Copy, PartialEq, Eq, Debug)]
pub struct Board {
    pub cells: [Option<u8>; 9],
}

/// The digits of the filled cells among `cells`, in cell order.
pub open spec fn digits_of(cells: Seq<Option<u8>>) -> Seq<u8>
    decreases cells.len(),
{
    if cells.len() == 0 {
        Seq::empty()
    } else {
        let rest = digits_of(cells.drop_last());
        match cells.last() {
            Some(d) => rest.push(d),
            None => rest,
        }
    }
}

/// The digits from 1 to `top` that `used` does not hold, in increasing order.
pub open spec fn free_digits(used: Seq<u8>, top: nat) -> Seq<u8>
    decreases top,
{
    if top == 0 {
        Seq::empty()
    } else {
        let below = free_digits(used, (top - 1) as nat);
        if used.contains(top as u8) {
            below
        } else {
            below.push(top as u8)
        }
    }
}

impl Board {
    pub open spec fn spec_cell(&self, i: int) -> Option<u8> {
        self.cells@[i]
    }

    /// Every filled cell holds a digit from 1 to 9, and no digit is in two cells.
    pub open spec fn wf(&self) -> bool {
        &&& forall|i: int|
            0 <= i < 9 && (#[trigger] self.spec_cell(i)) is Some ==> 1 <= self.spec_cell(i)->0 <= 9
        &&& forall|i: int, j: int|
            0 <= i < 9 && 0 <= j < 9 && i != j && (#[trigger] self.spec_cell(i)) is Some
                ==> self.spec_cell(i) != #[trigger] self.spec_cell(j)
    }

    /// The digits on the board, in cell order.
    pub open spec fn used_digits(&self) -> Seq<u8> {
        digits_of(self.cells@)
    }

    /// How many cells are filled.
    pub open spec fn filled(&self) -> nat {
        self.used_digits().len()
    }

    /// The digits from 1 to 9 that are on no cell, in increasing order.
    pub open spec fn pool(&self) -> Seq<u8> {
        free_digits(self.used_digits(), 9)
    }

    /// A board whose first cells are `nums`, in order; the cells past the end of
    /// `nums` are empty, and entries past the ninth are ignored.
    pub fn new(nums: Vec<Option<u8>>) -> (r: Board)
        ensures
            forall|i: int| 0 <= i < 9 ==> #[trigger] r.spec_cell(i) == if i < nums@.len() {
                nums@[i]
            } else {
                None
            },
    {
        let mut cells: [Option<u8>; 9] = [None, None, None, None, None, None, None, None, None];
        let mut i: usize = 0;
        while i < CELL_COUNT && i < nums.len()
            invariant
                i <= 9,
                forall|j: int| 0 <= j < 9 ==> #[trigger] cells@[j] == if j < i && j < nums@.len() {
                    nums@[j]
                } else {
                    None
                },
            decreases 9 - i,
        {
            cells[i] = nums[i];
            i = i + 1;
        }
        Board { cells }
    }

    /// The digits on the board, in cell order.
    pub fn used(&self) -> (r: Vec<u8>)
        ensures
            r@ == self.used_digits(),
    {
        let mut r: Vec<u8> = Vec::new();
        let mut i: usize = 0;
        while i < CELL_COUNT
            invariant
                i <= 9,
                r@ == digits_of(self.cells@.take(i as int)),
            decreases 9 - i,
        {
            assert(self.cells@.take(i + 1).drop_last() =~= self.cells@.take(i as int));
            if let Some(d) = self.cells[i] {
                r.push(d);
            }
            i = i + 1;
        }
        assert(self.cells@.take(9) =~= self.cells@);
        r
    }

    /// Whether every filled cell holds a digit from 1 to 9 and no digit is in
    /// two cells.
    pub fn is_valid(&self) -> (r: bool)
        ensures
            r == self.wf(),
    {
        let mut i: usize = 0;
        while i < CELL_COUNT
            invariant
                i <= 9,
                forall|a: int| 0 <= a < i && (#[trigger] self.spec_cell(a)) is Some ==> 1 <= self.spec_cell(a)->0 <= 9,
                forall|a: int, b: int|
                    0 <= a < i && 0 <= b < 9 && a != b && (#[trigger] self.spec_cell(a)) is Some
                        ==> self.spec_cell(a) != #[trigger] self.spec_cell(b),
            decreases 9 - i,
        {
            assert(self.cells@[i as int] == self.spec_cell(i as int));
            if let Some(d) = self.cells[i] {
                if d < MIN_DIGIT || d > MAX_DIGIT {
                    return false;
                }
                let mut j: usize = 0;
                while j < CELL_COUNT
                    invariant
                        i < 9,
                        j <= 9,
                        self.spec_cell(i as int) == Some(d),
                        forall|b: int| 0 <= b < j && b != i ==> self.spec_cell(b) != Some(d),
                    decreases 9 - j,
                {
                    assert(self.cells@[j as int] == self.spec_cell(j as int));
                    if j != i && self.cells[j] == Some(d) {
                        return false;
                    }
                    j = j + 1;
                }
            }
            i = i + 1;
        }
        true
    }

    /// How many cells are filled.
    pub fn filled_count(&self) -> (r: usize)
        ensures
            r == self.filled(),
    {
        self.used().len()
    }

    /// Whether the board has reached the number of reveals the game allows.
    pub fn max_inputs_reached(&self) -> (r: bool)
        ensures
            r == (self.filled() >= DECISION_POINT),
    {
        self.filled_count() >= DECISION_POINT
    }

    /// The digits from 1 to 9 that are on no cell, in increasing order.
    pub fn unused(&self) -> (r: Vec<u8>)
        ensures
            r@ == self.pool(),
    {
        let used = self.used();
        let mut r: Vec<u8> = Vec::new();
        let mut d: u8 = MIN_DIGIT;
        while d <= MAX_DIGIT
            invariant
                1 <= d <= 10,
                used@ == self.used_digits(),
                r@ == free_digits(used@, (d - 1) as nat),
            decreases 10 - d,
        {
            if !contains_digit(&used, d) {
                r.push(d);
            }
            d = d + 1;
        }
        r
    }
}

/// A digit is among the board's digits exactly when some cell holds it.
pub proof fn lemma_digits_of_contains(cells: Seq<Option<u8>>, d: u8)
    ensures
        digits_of(cells).contains(d) <==> exists|j: int| 0 <= j < cells.len() && cells[j] == Some(d),
    decreases cells.len(),
{
    if cells.len() > 0 {
        let init = cells.drop_last();
        let rest = digits_of(init);
        lemma_digits_of_contains(init, d);
        if digits_of(cells).contains(d) {
            let m = choose|m: int| 0 <= m < digits_of(cells).len() && digits_of(cells)[m] == d;
            if m < rest.len() {
                assert(rest[m] == d);
                let j = choose|j: int| 0 <= j < init.len() && init[j] == Some(d);
                assert(cells[j] == Some(d));
            } else {
                assert(cells[cells.len() - 1] == Some(d));
            }
        }
        if exists|j: int| 0 <= j < cells.len() && cells[j] == Some(d) {
            let j = choose|j: int| 0 <= j < cells.len() && cells[j] == Some(d);
            if j < init.len() {
                assert(init[j] == Some(d));
                let m = choose|m: int| 0 <= m < rest.len() && rest[m] == d;
                assert(digits_of(cells)[m] == d);
            } else {
                assert(digits_of(cells) == rest.push(d));
                assert(digits_of(cells)[rest.len() as int] == d);
            }
        }
    }
}

/// How many of the digits 1 to `top` `used` holds.
pub open spec fn hits(used: Seq<u8>, top: nat) -> nat
    decreases top,
{
    if top == 0 {
        0
    } else {
        hits(used, (top - 1) as nat) + if used.contains(top as u8) {
            1nat
        } else {
            0nat
        }
    }
}

proof fn lemma_free_plus_hits(used: Seq<u8>, top: nat)
    ensures
        free_digits(used, top).len() + hits(used, top) == top,
    decreases top,
{
    if top > 0 {
        lemma_free_plus_hits(used, (top - 1) as nat);
    }
}

proof fn lemma_hits_push(u: Seq<u8>, x: u8, top: nat)
    requires
        top <= 9,
        !u.contains(x),
    ensures
        hits(u.push(x), top) == hits(u, top) + if 1 <= x <= top {
            1nat
        } else {
            0nat
        },
    decreases top,
{
    if top > 0 {
        lemma_hits_push(u, x, (top - 1) as nat);
        let d = top as u8;
        if u.push(x).contains(d) && d != x {
            let j = choose|j: int| 0 <= j < u.len() + 1 && u.push(x)[j] == d;
            assert(u[j] == d);
        }
        if u.contains(d) {
            let j = choose|j: int| 0 <= j < u.len() && u[j] == d;
            assert(u.push(x)[j] == d);
        }
        if d == x {
            assert(u.push(x)[u.len() as int] == d);
        }
    }
}

proof fn lemma_hits_all(used: Seq<u8>)
    requires
        used.no_duplicates(),
        forall|m: int| 0 <= m < used.len() ==> 1 <= #[trigger] used[m] <= 9,
    ensures
        hits(used, 9) == used.len(),
    decreases used.len(),
{
    if used.len() > 0 {
        let u = used.drop_last();
        let x = used.last();
        assert(used =~= u.push(x));
        assert forall|m: int| 0 <= m < u.len() implies 1 <= #[trigger] u[m] <= 9 by {
            assert(u[m] == used[m]);
        }
        assert(u.no_duplicates());
        if u.contains(x) {
            let j = choose|j: int| 0 <= j < u.len() && u[j] == x;
            assert(used[j] == used[used.len() - 1]);
        }
        lemma_hits_all(u);
        lemma_hits_push(u, x, 9);
    } else {
        lemma_hits_none(used, 9);
    }
}

proof fn lemma_hits_none(used: Seq<u8>, top: nat)
    requires
        used.len() == 0,
    ensures
        hits(used, top) == 0,
    decreases top,
{
    if top > 0 {
        lemma_hits_none(used, (top - 1) as nat);
    }
}

proof fn lemma_digits_distinct(cells: Seq<Option<u8>>)
    requires
        forall|i: int| 0 <= i < cells.len() && (#[trigger] cells[i]) is Some ==> 1 <= cells[i]->0 <= 9,
        forall|i: int, j: int|
            0 <= i < j < cells.len() && (#[trigger] cells[i]) is Some ==> cells[i] != #[trigger] cells[j],
    ensures
        digits_of(cells).no_duplicates(),
        forall|m: int| 0 <= m < digits_of(cells).len() ==> 1 <= #[trigger] digits_of(cells)[m] <= 9,
    decreases cells.len(),
{
    if cells.len() > 0 {
        let init = cells.drop_last();
        let rest = digits_of(init);
        assert forall|i: int, j: int|
            0 <= i < j < init.len() && (#[trigger] init[i]) is Some implies init[i] != #[trigger] init[j] by {
            assert(init[i] == cells[i] && init[j] == cells[j]);
        }
        assert forall|i: int| 0 <= i < init.len() && (#[trigger] init[i]) is Some implies 1 <= init[i]->0 <= 9 by {
            assert(init[i] == cells[i]);
        }
        lemma_digits_distinct(init);
        if let Some(d) = cells.last() {
            lemma_digits_of_contains(init, d);
            if rest.contains(d) {
                let j = choose|j: int| 0 <= j < init.len() && init[j] == Some(d);
                assert(cells[j] == cells[cells.len() - 1]);
            }
            assert(1 <= cells[cells.len() - 1]->0 <= 9);
            assert forall|m: int| 0 <= m < digits_of(cells).len() implies 1 <= #[trigger] digits_of(cells)[m] <= 9 by {
                if m < rest.len() {
                    assert(digits_of(cells)[m] == rest[m]);
                }
            }
            assert forall|a: int, b: int| 0 <= a < b < digits_of(cells).len() implies digits_of(cells)[a]
                != digits_of(cells)[b] by {
                if b == rest.len() {
                    assert(rest[a] == digits_of(cells)[a]);
                } else {
                    assert(rest[a] == digits_of(cells)[a] && rest[b] == digits_of(cells)[b]);
                }
            }
        }
    }
}

impl Board {
    /// On a well-formed board the free digits number nine less the filled cells.
    pub proof fn lemma_pool_size(&self)
        requires
            self.wf(),
        ensures
            self.pool().len() == 9 - self.filled(),
    {
        assert forall|i: int, j: int|
            0 <= i < j < self.cells@.len() && (#[trigger] self.cells@[i]) is Some implies self.cells@[i]
                != #[trigger] self.cells@[j] by {
            assert(self.spec_cell(i) != self.spec_cell(j));
        }
        assert forall|i: int| 0 <= i < self.cells@.len() && (#[trigger] self.cells@[i]) is Some implies 1
            <= self.cells@[i]->0 <= 9 by {
            assert(self.spec_cell(i) is Some);
        }
        lemma_digits_distinct(self.cells@);
        lemma_hits_all(self.used_digits());
        lemma_free_plus_hits(self.used_digits(), 9);
    }
}

impl Board {
    /// Reveals `digit` in cell `i`.
    pub fn set_cell(&mut self, i: usize, digit: u8)
        requires
            old(self).wf(),
            i < CELL_COUNT,
            MIN_DIGIT <= digit <= MAX_DIGIT,
            forall|j: int| 0 <= j < 9 && j != i ==> old(self).spec_cell(j) != Some(digit),
        ensures
            final(self).cells@ == old(self).cells@.update(i as int, Some(digit)),
            final(self).wf(),
    {
        let ghost before = *self;
        self.cells[i] = Some(digit);
        assert forall|j: int| 0 <= j < 9 implies #[trigger] self.spec_cell(j) == if j == i {
            Some(digit)
        } else {
            before.spec_cell(j)
        } by {}
        assert(self.wf());
    }

    /// Empties cell `i`.
    pub fn clear_cell(&mut self, i: usize)
        requires
            i < CELL_COUNT,
        ensures
            final(self).cells@ == old(self).cells@.update(i as int, None),
            old(self).wf() ==> final(self).wf(),
    {
        let ghost before = *self;
        self.cells[i] = None;
        assert forall|j: int| 0 <= j < 9 implies #[trigger] self.spec_cell(j) == if j == i {
            None
        } else {
            before.spec_cell(j)
        } by {}
    }

    /// Empties every cell.
    pub fn reset(&mut self)
        ensures
            forall|i: int| 0 <= i < 9 ==> #[trigger] final(self).spec_cell(i) is None,
            final(self).wf(),
    {
        *self = Board::new(Vec::new());
    }
}

impl Default for Board {
    /// The empty board.
    fn default() -> (r: Board)
        ensures
            forall|i: int| 0 <= i < 9 ==> #[trigger] r.spec_cell(i) is None,
    {
        Board::new(Vec::new())
    }
}

/// Whether `v` holds `d`.
pub(crate) fn contains_digit(v: &Vec<u8>, d: u8) -> (r: bool)
    ensures
        r == v@.contains(d),
{
    let mut i: usize = 0;
    while i < v.len()
        invariant
            i <= v.len(),
            forall|j: int| 0 <= j < i ==> v@[j] != d,
        decreases v.len() - i,
    {
        if v[i] == d {
            return true;
        }
        i = i + 1;
    }
    false
}

} // verus!
