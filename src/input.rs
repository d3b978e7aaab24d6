//! Editing the board: revealing, clearing, and stepping a cell through the
//! digits it may take.

use vstd::prelude::*;
use crate::board::{Board, CELL_COUNT, DECISION_POINT, MAX_DIGIT, MIN_DIGIT, contains_digit};

verus! {

/// The way a cell's digit is stepped.
#[derive(Clone, Copy, PartialEq, Eq, Debug)]
pub enum ScrollDirection {
    /// Toward larger digits.
    Up,
    /// Toward smaller digits.
    Down,
}

/// Digit `d` may stand in cell `idx`: it lies on no cell, or on `idx` itself.
pub open spec fn is_candidate(b: Board, idx: int, d: int) -> bool {
    &&& 1 <= d <= 9
    &&& !b.used_digits().contains(d as u8) || b.spec_cell(idx) == Some(d as u8)
}

/// `r` is what stepping cell `idx` in direction `dir` gives: from an empty
/// cell, the smallest candidate going up and the largest going down (nothing
/// when there is none); from digit `n`, the nearest candidate beyond `n` in that
/// direction, or `n` itself when there is none.
pub open spec fn steps_to(b: Board, idx: int, dir: ScrollDirection, r: Option<u8>) -> bool {
    let up = dir is Up;
    match b.spec_cell(idx) {
        None => match r {
            Some(d) => is_candidate(b, idx, d as int) && forall|e: int| #[trigger]
                is_candidate(b, idx, e) ==> if up { d <= e } else { e <= d },
            None => forall|e: int| !#[trigger] is_candidate(b, idx, e),
        },
        Some(n) => match r {
            Some(d) => if d == n {
                forall|e: int| #[trigger] is_candidate(b, idx, e) ==> if up { e <= n } else { e >= n }
            } else {
                &&& if up { d > n } else { d < n }
                &&& is_candidate(b, idx, d as int)
                &&& forall|e: int| #[trigger] is_candidate(b, idx, e) ==> if up {
                    e > n ==> d <= e
                } else {
                    e < n ==> d >= e
                }
            },
            None => false,
        },
    }
}

/// Whether digit `d` may stand in cell `idx`.
fn candidate(board: &Board, used: &Vec<u8>, idx: usize, d: u8) -> (r: bool)
    requires
        idx < 9,
        used@ == board.used_digits(),
    ensures
        r == is_candidate(*board, idx as int, d as int),
{
    if d < MIN_DIGIT || d > MAX_DIGIT {
        return false;
    }
    if !contains_digit(used, d) {
        return true;
    }
    match board.cells[idx] {
        Some(c) => c == d,
        None => false,
    }
}

/// The digit that cell `idx` takes when stepped in direction `dir`.
pub fn next_number(board: &Board, idx: usize, dir: ScrollDirection) -> (r: Option<u8>)
    requires
        board.wf(),
        idx < CELL_COUNT,
    ensures
        steps_to(*board, idx as int, dir, r),
{
    let current = board.cells[idx];
    assert(current == board.spec_cell(idx as int));
    let used = board.used();
    match dir {
        ScrollDirection::Up => {
            let mut d: u8 = match current {
                Some(n) => n + 1,
                None => MIN_DIGIT,
            };
            while d <= MAX_DIGIT
                invariant
                    1 <= d <= 10,
                    dir is Up,
                    idx < 9,
                    board.wf(),
                    current == board.spec_cell(idx as int),
                    used@ == board.used_digits(),
                    forall|e: int| #[trigger] is_candidate(*board, idx as int, e) && e < d ==> match current {
                        Some(n) => e <= n,
                        None => false,
                    },
                    match current {
                        Some(n) => d > n,
                        None => true,
                    },
                decreases 10 - d,
            {
                if candidate(board, &used, idx, d) {
                    return Some(d);
                }
                d = d + 1;
            }
            current
        },
        ScrollDirection::Down => {
            let mut d: u8 = match current {
                Some(n) => n - 1,
                None => MAX_DIGIT,
            };
            while d >= MIN_DIGIT
                invariant
                    d <= 9,
                    dir is Down,
                    idx < 9,
                    board.wf(),
                    current == board.spec_cell(idx as int),
                    used@ == board.used_digits(),
                    forall|e: int| #[trigger] is_candidate(*board, idx as int, e) && e > d ==> match current {
                        Some(n) => e >= n,
                        None => false,
                    },
                    match current {
                        Some(n) => d < n,
                        None => true,
                    },
                decreases d,
            {
                if candidate(board, &used, idx, d) {
                    return Some(d);
                }
                d = d - 1;
            }
            current
        },
    }
}

impl Board {
    /// Steps cell `idx` in direction `dir`; once the board holds as many digits
    /// as the game reveals, an empty cell stays empty.
    pub fn scroll_cell(&mut self, idx: usize, dir: ScrollDirection)
        requires
            old(self).wf(),
            idx < CELL_COUNT,
        ensures
            final(self).wf(),
            old(self).filled() >= DECISION_POINT && old(self).spec_cell(idx as int) is None ==> *final(self)
                == *old(self),
            !(old(self).filled() >= DECISION_POINT && old(self).spec_cell(idx as int) is None) ==> steps_to(
                *old(self),
                idx as int,
                dir,
                final(self).spec_cell(idx as int),
            ),
            forall|j: int| 0 <= j < 9 && j != idx ==> #[trigger] final(self).spec_cell(j) == old(self).spec_cell(j),
    {
        if self.max_inputs_reached() && self.cells[idx].is_none() {
            return;
        }
        let next = next_number(self, idx, dir);
        proof {
            if let Some(d) = next {
                assert(is_candidate(*self, idx as int, d as int));
                crate::board::lemma_digits_of_contains(self.cells@, d);
            }
        }
        match next {
            Some(d) => self.set_cell(idx, d),
            None => self.clear_cell(idx),
        }
    }
}

} // verus!
