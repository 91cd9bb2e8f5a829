//! The propagation loop, the verifier against the reference solution,
//! and the one-record entry point.

use vstd::prelude::*;
use crate::cell::Cell;
use crate::grid::{
    Game, clue_digit, clue_mask, lemma_score_prefix_bounds, lemma_score_prefix_le,
    score_seq, solution_digit, wf_record,
};
use crate::rules::{lemma_pass_le, pass_spec};

verus! {

/// What repeated passes do to a grid: iterate until the score reaches
/// 81 (solved) or stops moving (stuck).  Returns whether the grid was
/// solved, and the final state.  Terminates because the score can only
/// go down.
pub open spec fn solve_rec(cells: Seq<Cell>) -> (bool, Seq<Cell>)
    decreases score_seq(cells),
{
    if cells.len() != 81 {
        (false, cells)
    } else {
        let next = pass_spec(cells);
        if score_seq(next) == 81 {
            (true, next)
        } else if score_seq(next) == score_seq(cells) {
            (false, next)
        } else {
            proof {
                lemma_pass_le(cells);
                lemma_score_prefix_le(next, cells, 81);
                lemma_score_prefix_bounds(next, 81);
            }
            solve_rec(next)
        }
    }
}

/// The first `n` cells resolve exactly to the reference solution.
pub open spec fn grid_matches_prefix(cells: Seq<Cell>, solution: Seq<usize>, n: int) -> bool {
    forall|i: int| 0 <= i < n ==> #[trigger] cells[i].value_spec() == solution[i]
}

/// Every cell resolves exactly to the reference solution.
pub open spec fn grid_matches(cells: Seq<Cell>, solution: Seq<usize>) -> bool {
    grid_matches_prefix(cells, solution, 81)
}

/// The first cell whose resolved value differs from the reference
/// solution, with both values.
#[derive(Clone, Copy, Debug, PartialEq, Eq)]
pub struct CheckFailure {
    pub x: usize,
    pub y: usize,
    pub actual: usize,
    pub expected: usize,
}

/// The 81 candidate sets that loading record `s` into a fresh grid
/// produces.
pub open spec fn loaded_cells(s: Seq<char>) -> Seq<Cell> {
    Seq::new(81, |i: int| clue_mask(Cell::unconstrained(), clue_digit(s, i)))
}

/// The 81 reference digits that record `s` carries.
pub open spec fn loaded_solution(s: Seq<char>) -> Seq<usize> {
    Seq::new(81, |i: int| solution_digit(s, i) as usize)
}

/// A record counts as passed when it parses, propagation alone solves
/// it, and the solved grid matches the embedded reference solution.
pub open spec fn record_solves(s: Seq<char>) -> bool {
    &&& wf_record(s)
    &&& solve_rec(loaded_cells(s)).0
    &&& grid_matches(solve_rec(loaded_cells(s)).1, loaded_solution(s))
}

impl Game {
    /// Run passes until the grid is solved (score 81) or a pass leaves
    /// the score unchanged, meaning these rules can extract nothing
    /// more.
    #[verifier::loop_isolation(false)]
    pub fn solve(&mut self) -> (r: Result<&'static str, &'static str>)
        requires
            old(self).wf(),
        ensures
            final(self).wf(),
            final(self).solution@ == old(self).solution@,
            (r is Ok) == solve_rec(old(self).cells@).0,
            final(self).cells@ == solve_rec(old(self).cells@).1,
    {
        let mut last_score = self.score();
        loop
            invariant
                self.wf(),
                self.solution@ == old(self).solution@,
                last_score == score_seq(self.cells@),
                solve_rec(self.cells@) == solve_rec(old(self).cells@),
            decreases last_score,
        {
            let ghost entry = self.cells@;
            self.iterate();
            let score = self.score();
            if score == 9 * 9 {
                return Ok("success");
            }
            if score == last_score {
                return Err("failure");
            }
            proof {
                lemma_pass_le(entry);
                lemma_score_prefix_le(self.cells@, entry, 81);
            }
            last_score = score;
        }
    }

    /// Compare every cell's resolved value against the reference
    /// solution; report the first mismatch.
    #[verifier::loop_isolation(false)]
    pub fn check(&self) -> (r: Result<&'static str, CheckFailure>)
        requires
            self.wf(),
        ensures
            (r is Ok) == grid_matches(self.cells@, self.solution@),
            match r {
                Ok(_) => true,
                Err(e) => {
                    let i = e.x + e.y * 9;
                    &&& e.x < 9
                    &&& e.y < 9
                    &&& self.cells@[i as int].value_spec() != self.solution@[i as int]
                    &&& e.actual == self.cells@[i as int].value_spec()
                    &&& e.expected == self.solution@[i as int]
                    &&& grid_matches_prefix(self.cells@, self.solution@, i as int)
                },
            },
    {
        let mut c: usize = 0;
        while c < 81
            invariant
                c <= 81,
                grid_matches_prefix(self.cells@, self.solution@, c as int),
            decreases 81 - c,
        {
            let col = c % 9;
            let row = c / 9;
            proof {
                assert(col + row * 9 == c);
            }
            let expected_val = self.solution[c];
            let actual_val = self.get(&col, &row).get_current_val();
            if expected_val != actual_val {
                return Err(
                    CheckFailure { x: col, y: row, actual: actual_val, expected: expected_val },
                );
            }
            c = c + 1;
        }
        Ok("Solution matches")
    }
}

/// Process one record end to end: parse it into a fresh grid, run the
/// propagation loop, and verify the result against the embedded
/// reference solution.  A malformed record counts as failed.
pub fn solve(data: &str) -> (r: bool)
    ensures
        r == record_solves(data@),
{
    let mut game = Game::new();
    match game.load(data) {
        Err(_) => {
            return false;
        },
        Ok(()) => {},
    }
    proof {
        assert(game.cells@ =~= loaded_cells(data@));
        assert(game.solution@ =~= loaded_solution(data@));
    }
    let solved = match game.solve() {
        Ok(_) => true,
        Err(_) => false,
    };
    let correct = match game.check() {
        Ok(_) => true,
        Err(_) => false,
    };
    solved && correct
}

} // verus!
