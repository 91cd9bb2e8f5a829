//! The 81-cell grid: loading a textual record, cell access, and the
//! convergence score.

use vstd::prelude::*;
use vstd::string::StrSliceExecFns;
use crate::cell::Cell;

verus! {

/// A record that does not consist of 81 clue digits `'0'..='9'`, one
/// separator character, and 81 solution digits `'1'..='9'`.
#[derive(Clone, Copy, Debug, PartialEq, Eq)]
pub struct ParseError;

/// One puzzle: 81 candidate sets in row-major order (`x + y * 9`),
/// next to the reference solution the record carried.
pub struct Game {
    pub cells: Vec<Cell>,
    pub solution: Vec<usize>,
}

/// Sum of the candidate counts of the first `n` cells.
pub open spec fn score_prefix(cells: Seq<Cell>, n: int) -> int
    decreases n,
{
    if n <= 0 {
        0
    } else {
        score_prefix(cells, n - 1) + cells[n - 1].count()
    }
}

/// Sum of the candidate counts of all 81 cells: 81 exactly when every
/// cell is down to a single candidate, up to 729 when nothing is known.
pub open spec fn score_seq(cells: Seq<Cell>) -> int {
    score_prefix(cells, 81)
}

/// Every cell of `a` has a candidate set included in the matching cell
/// of `b`: the state `a` is the state `b` after zero or more
/// eliminations.
pub open spec fn grid_le(a: Seq<Cell>, b: Seq<Cell>) -> bool {
    a.len() == b.len() && forall|i: int| 0 <= i < a.len() ==> #[trigger] a[i].subset_of(b[i])
}

/// `c` is an ASCII digit.
pub open spec fn is_digit_char(c: char) -> bool {
    48 <= c as u32 <= 57
}

/// The numeric value of an ASCII digit.
pub open spec fn digit_of(c: char) -> int {
    c as u32 - 48
}

/// A well-formed record: at least 163 characters, 81 clue digits
/// (0 = blank), one ignored separator, 81 solution digits 1..=9.
pub open spec fn wf_record(s: Seq<char>) -> bool {
    &&& s.len() >= 163
    &&& forall|i: int| 0 <= i < 81 ==> is_digit_char(#[trigger] s[i])
    &&& forall|i: int| 82 <= i < 163 ==> is_digit_char(#[trigger] s[i]) && digit_of(s[i]) >= 1
}

/// The clue digit of cell `i` in record `s`.
pub open spec fn clue_digit(s: Seq<char>, i: int) -> int {
    digit_of(s[i])
}

/// The solution digit of cell `i` in record `s`.
pub open spec fn solution_digit(s: Seq<char>, i: int) -> int {
    digit_of(s[82 + i])
}

/// `cell` after eliminating every digit below `k` other than `d`.
pub open spec fn mask_step(cell: Cell, d: int, k: int) -> Cell
    decreases k,
{
    if k <= 1 {
        cell
    } else {
        let prev = mask_step(cell, d, k - 1);
        if k - 1 != d {
            prev.eliminate_spec(k - 1)
        } else {
            prev
        }
    }
}

/// `cell` after a clue digit is applied: for a blank clue nothing
/// changes, otherwise every digit but `d` is eliminated.
pub open spec fn clue_mask(cell: Cell, d: int) -> Cell {
    if d == 0 {
        cell
    } else {
        mask_step(cell, d, 10)
    }
}

/// What a clue leaves in a cell: the digits it allowed before, cut
/// down to `d` alone when `d` is not blank.
pub proof fn lemma_clue_mask(cell: Cell, d: int)
    requires
        0 <= d <= 9,
    ensures
        forall|e: int|
            clue_mask(cell, d).allows_spec(e) <==> (cell.allows_spec(e) && (d == 0 || e == d)),
        clue_mask(cell, d).subset_of(cell),
{
    reveal_with_fuel(mask_step, 10);
}

impl Game {
    /// Both arrays hold exactly 81 entries.
    pub open spec fn wf(self) -> bool {
        self.cells@.len() == 81 && self.solution@.len() == 81
    }

    /// The score of the current grid state.
    pub open spec fn score_spec(self) -> int {
        score_seq(self.cells@)
    }

    pub fn new() -> (g: Game)
        ensures
            g.wf(),
            forall|i: int| 0 <= i < 81 ==> g.cells@[i] == Cell::unconstrained(),
            forall|i: int| 0 <= i < 81 ==> g.solution@[i] == 0,
    {
        let mut cells: Vec<Cell> = Vec::new();
        let mut solution: Vec<usize> = Vec::new();
        let mut i: usize = 0;
        while i < 81
            invariant
                i <= 81,
                cells@.len() == i,
                solution@.len() == i,
                forall|j: int| 0 <= j < i ==> cells@[j] == Cell::unconstrained(),
                forall|j: int| 0 <= j < i ==> solution@[j] == 0,
            decreases 81 - i,
        {
            cells.push(Cell::new());
            solution.push(0);
            i = i + 1;
        }
        Game { cells, solution }
    }

    pub fn get(&self, x: &usize, y: &usize) -> (c: &Cell)
        requires
            self.wf(),
            *x < 9,
            *y < 9,
        ensures
            *c == self.cells@[*x + *y * 9],
    {
        &self.cells[*x + *y * 9]
    }

    pub fn get_mut(&mut self, x: &usize, y: &usize) -> (c: &mut Cell)
        requires
            old(self).wf(),
            *x < 9,
            *y < 9,
        ensures
            *c == old(self).cells@[*x + *y * 9],
            final(self).cells@ == old(self).cells@.update((*x + *y * 9) as int, *final(c)),
            final(self).solution@ == old(self).solution@,
            final(self).wf(),
    {
        &mut self.cells[*x + *y * 9]
    }

    /// Force cell `(col, row)` to the single candidate `num`.
    pub fn set(&mut self, col: &usize, row: &usize, num: &usize)
        requires
            old(self).wf(),
            *col < 9,
            *row < 9,
            1 <= *num <= 9,
        ensures
            final(self).wf(),
            final(self).cells@ == old(self).cells@.update(
                (*col + *row * 9) as int,
                Cell::set_spec(*num as int),
            ),
            final(self).solution@ == old(self).solution@,
    {
        self.get_mut(col, row).set(num);
    }

    /// The total number of remaining candidates over the whole grid.
    pub fn score(&self) -> (s: usize)
        requires
            self.wf(),
        ensures
            s == self.score_spec(),
            s <= 729,
    {
        proof {
            lemma_score_prefix_bounds(self.cells@, 81);
        }
        let mut score: usize = 0;
        let mut j: usize = 0;
        while j < 9
            invariant
                self.wf(),
                j <= 9,
                score == score_prefix(self.cells@, 9 * j),
                score <= 81 * j,
            decreases 9 - j,
        {
            let mut i: usize = 0;
            while i < 9
                invariant
                    self.wf(),
                    j < 9,
                    i <= 9,
                    score == score_prefix(self.cells@, 9 * j + i),
                    score <= 9 * (9 * j + i),
                decreases 9 - i,
            {
                proof {
                    lemma_score_prefix_bounds(self.cells@, 9 * j + i);
                }
                score = score + self.get(&i, &j).possible_values().len();
                i = i + 1;
            }
            j = j + 1;
        }
        score
    }

    /// Parse one record into the grid: non-zero clue digits cut their
    /// cell down to that digit, and the 81 trailing digits become the
    /// reference solution.  A malformed record changes nothing.
    #[verifier::loop_isolation(false)]
    pub fn load(&mut self, data: &str) -> (r: Result<(), ParseError>)
        requires
            old(self).wf(),
        ensures
            final(self).wf(),
            match r {
                Ok(()) => wf_record(data@) && (forall|i: int|
                    0 <= i < 81 ==> final(self).cells@[i] == clue_mask(
                        old(self).cells@[i],
                        clue_digit(data@, i),
                    )) && (forall|i: int|
                    0 <= i < 81 ==> final(self).solution@[i] == solution_digit(data@, i)),
                Err(_) => !wf_record(data@) && *final(self) == *old(self),
            },
    {
        if data.unicode_len() < 163 {
            return Err(ParseError);
        }
        let mut i: usize = 0;
        while i < 81
            invariant
                forall|k: int| 0 <= k < i ==> is_digit_char(#[trigger] data@[k]),
            decreases 81 - i,
        {
            let c = data.get_char(i);
            let u = c as u32;
            if u < 48 || u > 57 {
                return Err(ParseError);
            }
            i = i + 1;
        }
        let mut i: usize = 82;
        while i < 163
            invariant
                82 <= i <= 163,
                forall|k: int|
                    82 <= k < i ==> is_digit_char(#[trigger] data@[k]) && digit_of(data@[k]) >= 1,
            decreases 163 - i,
        {
            let c = data.get_char(i);
            let u = c as u32;
            if u < 49 || u > 57 {
                return Err(ParseError);
            }
            i = i + 1;
        }
        assert(wf_record(data@));
        let mut cell: usize = 0;
        while cell < 81
            invariant
                self.wf(),
                cell <= 81,
                forall|k: int|
                    0 <= k < cell ==> self.cells@[k] == clue_mask(
                        old(self).cells@[k],
                        clue_digit(data@, k),
                    ),
                forall|k: int| cell <= k < 81 ==> self.cells@[k] == old(self).cells@[k],
                self.solution@ == old(self).solution@,
            decreases 81 - cell,
        {
            let ghost prev_cells = self.cells@;
            let c = data.get_char(cell);
            let num: usize = (c as u32 - 48) as usize;
            if num > 0 {
                let mut possible_val: usize = 1;
                while possible_val < 10
                    invariant
                        self.wf(),
                        1 <= possible_val <= 10,
                        1 <= num <= 9,
                        cell < 81,
                        self.cells@[cell as int] == mask_step(
                            prev_cells[cell as int],
                            num as int,
                            possible_val as int,
                        ),
                        forall|k: int|
                            0 <= k < 81 && k != cell ==> self.cells@[k] == prev_cells[k],
                        self.solution@ == old(self).solution@,
                    decreases 10 - possible_val,
                {
                    if possible_val != num {
                        self.cells[cell].eliminate(&possible_val);
                    }
                    possible_val = possible_val + 1;
                }
            }
            proof {
                assert(is_digit_char(data@[cell as int]));
                assert(clue_digit(data@, cell as int) == num);
                assert forall|k: int| 0 <= k <= cell implies self.cells@[k] == clue_mask(
                    old(self).cells@[k],
                    clue_digit(data@, k),
                ) by {
                    if num > 0 && k < cell {
                        assert(self.cells@[k] == prev_cells[k]);
                        assert(prev_cells[k] == clue_mask(old(self).cells@[k], clue_digit(data@, k)));
                    }
                }
            }
            cell = cell + 1;
        }
        let mut i: usize = 0;
        while i < 81
            invariant
                self.wf(),
                i <= 81,
                forall|k: int|
                    0 <= k < 81 ==> self.cells@[k] == clue_mask(
                        old(self).cells@[k],
                        clue_digit(data@, k),
                    ),
                forall|k: int| 0 <= k < i ==> self.solution@[k] == solution_digit(data@, k),
                forall|k: int| i <= k < 81 ==> self.solution@[k] == old(self).solution@[k],
            decreases 81 - i,
        {
            let c = data.get_char(i + 82);
            let num: usize = (c as u32 - 48) as usize;
            self.solution[i] = num;
            i = i + 1;
        }
        Ok(())
    }
}

/// Every state is below itself.
pub proof fn lemma_grid_le_refl(a: Seq<Cell>)
    ensures
        grid_le(a, a),
{
}

/// Being reachable by eliminations is transitive.
pub proof fn lemma_grid_le_trans(a: Seq<Cell>, b: Seq<Cell>, c: Seq<Cell>)
    requires
        grid_le(a, b),
        grid_le(b, c),
    ensures
        grid_le(a, c),
{
    assert forall|i: int| 0 <= i < a.len() implies #[trigger] a[i].subset_of(c[i]) by {
        assert(a[i].subset_of(b[i]));
        assert(b[i].subset_of(c[i]));
    }
}

/// Replacing one cell by a subset of itself shrinks the state.
pub proof fn lemma_grid_le_update(cells: Seq<Cell>, i: int, x: Cell)
    requires
        0 <= i < cells.len(),
        x.subset_of(cells[i]),
    ensures
        grid_le(cells.update(i, x), cells),
{
}

/// The score of a prefix is between 0 and nine candidates per cell.
pub proof fn lemma_score_prefix_bounds(cells: Seq<Cell>, n: int)
    requires
        0 <= n,
    ensures
        0 <= score_prefix(cells, n) <= 9 * n,
    decreases n,
{
    if n > 0 {
        lemma_score_prefix_bounds(cells, n - 1);
        assert(0 <= cells[n - 1].count() <= 9);
    }
}

/// Removing candidates can only lower the score.
pub proof fn lemma_score_prefix_le(a: Seq<Cell>, b: Seq<Cell>, n: int)
    requires
        grid_le(a, b),
        n <= a.len(),
    ensures
        score_prefix(a, n) <= score_prefix(b, n),
    decreases n,
{
    if n > 0 {
        lemma_score_prefix_le(a, b, n - 1);
        a[n - 1].lemma_subset_count(b[n - 1]);
    }
}

/// A state below another with the same score is the same state:
/// stagnation of the score means no elimination happened at all.
pub proof fn lemma_score_prefix_eq(a: Seq<Cell>, b: Seq<Cell>, n: int)
    requires
        grid_le(a, b),
        n <= a.len(),
        score_prefix(a, n) == score_prefix(b, n),
    ensures
        forall|i: int| 0 <= i < n ==> a[i] == b[i],
    decreases n,
{
    if n > 0 {
        lemma_score_prefix_le(a, b, n - 1);
        a[n - 1].lemma_subset_count(b[n - 1]);
        lemma_score_prefix_eq(a, b, n - 1);
    }
}

} // verus!
