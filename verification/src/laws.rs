//! The global guarantees of the engine, stated over the functional
//! models of the rules.

use vstd::prelude::*;
use crate::cell::Cell;
use crate::grid::{
    clue_digit, clue_mask, grid_le, is_digit_char, lemma_clue_mask, lemma_score_prefix_bounds,
    lemma_score_prefix_eq, lemma_score_prefix_le, score_prefix, score_seq, wf_record,
};
use crate::rules::{lemma_pass_le, lemma_peer_prefix_le, pass_spec, peer_pass_spec};
use crate::solver::{loaded_cells, solve_rec};

verus! {

/// A grid with at least one candidate per cell scores at least one
/// point per cell, and scoring exactly the cell count pins every cell.
proof fn lemma_score_prefix_min(cells: Seq<Cell>, n: int)
    requires
        0 <= n,
        forall|i: int| 0 <= i < n ==> #[trigger] cells[i].count() >= 1,
    ensures
        score_prefix(cells, n) >= n,
        score_prefix(cells, n) == n ==> forall|i: int| 0 <= i < n ==> #[trigger] cells[i].count()
            == 1,
    decreases n,
{
    if n > 0 {
        lemma_score_prefix_min(cells, n - 1);
    }
}

/// A grid whose cells are all pinned scores exactly one per cell.
proof fn lemma_score_prefix_exact(cells: Seq<Cell>, n: int)
    requires
        0 <= n,
        forall|i: int| 0 <= i < n ==> #[trigger] cells[i].count() == 1,
    ensures
        score_prefix(cells, n) == n,
    decreases n,
{
    if n > 0 {
        lemma_score_prefix_exact(cells, n - 1);
    }
}

/// Candidates are only ever removed, never added: one full pass of all
/// rules can only lower the score, which always lies between 0
/// and 729.
pub proof fn law_score_monotone(cells: Seq<Cell>)
    requires
        cells.len() == 81,
    ensures
        grid_le(pass_spec(cells), cells),
        score_seq(pass_spec(cells)) <= score_seq(cells),
        0 <= score_seq(cells) <= 729,
{
    lemma_pass_le(cells);
    lemma_score_prefix_le(pass_spec(cells), cells, 81);
    lemma_score_prefix_bounds(cells, 81);
}

/// A fully solved grid scores exactly 81; conversely, a grid that
/// scores 81 without over-constrained (empty) cells is fully solved.
/// The proviso is needed: an empty cell next to a still-ambiguous one
/// can also add up to 81.
pub proof fn law_score_81(cells: Seq<Cell>)
    requires
        cells.len() == 81,
    ensures
        (forall|i: int| 0 <= i < 81 ==> #[trigger] cells[i].count() == 1) ==> score_seq(cells)
            == 81,
        ((forall|i: int| 0 <= i < 81 ==> #[trigger] cells[i].count() >= 1) && score_seq(cells)
            == 81) ==> (forall|i: int| 0 <= i < 81 ==> #[trigger] cells[i].count() == 1),
{
    if forall|i: int| 0 <= i < 81 ==> #[trigger] cells[i].count() == 1 {
        lemma_score_prefix_exact(cells, 81);
    }
    if forall|i: int| 0 <= i < 81 ==> #[trigger] cells[i].count() >= 1 {
        lemma_score_prefix_min(cells, 81);
    }
}

/// Peer exclusion is idempotent past a fixed point: when a pass leaves
/// the score unchanged it has in fact changed nothing, so applying it
/// again eliminates nothing either.
pub proof fn law_peer_exclusion_idempotent(cells: Seq<Cell>)
    requires
        cells.len() == 81,
        score_seq(peer_pass_spec(cells)) == score_seq(cells),
    ensures
        peer_pass_spec(cells) == cells,
        peer_pass_spec(peer_pass_spec(cells)) == peer_pass_spec(cells),
{
    lemma_peer_prefix_le(cells, 81);
    lemma_score_prefix_eq(peer_pass_spec(cells), cells, 81);
    assert(peer_pass_spec(cells) =~= cells);
}

/// A resolved cell — as a clue cell is right after loading — is never
/// moved to a different digit by any amount of elimination: it either
/// keeps its value or, in a contradictory puzzle, loses every
/// candidate and reads as unresolved.
pub proof fn law_resolved_value_preserved(before: Seq<Cell>, after: Seq<Cell>, i: int)
    requires
        grid_le(after, before),
        0 <= i < before.len(),
        before[i].value_spec() != 0,
    ensures
        after[i].value_spec() == before[i].value_spec() || after[i].value_spec() == 0,
{
    after[i].lemma_value_subset(before[i]);
}

/// The same, specialised to one full pass of all rules.
pub proof fn law_clue_preserved_by_pass(cells: Seq<Cell>, i: int)
    requires
        cells.len() == 81,
        0 <= i < 81,
        cells[i].value_spec() != 0,
    ensures
        pass_spec(cells)[i].value_spec() == cells[i].value_spec() || pass_spec(
            cells,
        )[i].value_spec() == 0,
{
    lemma_pass_le(cells);
    law_resolved_value_preserved(cells, pass_spec(cells), i);
}

/// Forcing a cell to a digit and reading it back always yields that
/// digit.
pub proof fn law_set_then_value(d: int)
    requires
        1 <= d <= 9,
    ensures
        Cell::set_spec(d).value_spec() == d,
{
    Cell::lemma_set(d);
}

/// Whenever the propagation loop reports a grid as solved, the final
/// state scores exactly 81.
pub proof fn law_solved_scores_81(cells: Seq<Cell>)
    ensures
        solve_rec(cells).0 ==> score_seq(solve_rec(cells).1) == 81,
    decreases score_seq(cells),
{
    if cells.len() == 81 {
        let next = pass_spec(cells);
        if score_seq(next) != 81 && score_seq(next) != score_seq(cells) {
            lemma_pass_le(cells);
            lemma_score_prefix_le(next, cells, 81);
            lemma_score_prefix_bounds(next, 81);
            law_solved_scores_81(next);
        }
    }
}

/// When the propagation loop stops because the score stagnated, the
/// grid it leaves behind is a true fixed point: one more pass of every
/// rule would change nothing at all.
pub proof fn law_stuck_is_fixed_point(cells: Seq<Cell>)
    requires
        cells.len() == 81,
        !solve_rec(cells).0,
    ensures
        pass_spec(solve_rec(cells).1) == solve_rec(cells).1,
    decreases score_seq(cells),
{
    let next = pass_spec(cells);
    lemma_pass_le(cells);
    lemma_score_prefix_le(next, cells, 81);
    lemma_score_prefix_bounds(next, 81);
    if score_seq(next) == score_seq(cells) {
        lemma_score_prefix_eq(next, cells, 81);
        assert(next =~= cells);
    } else {
        law_stuck_is_fixed_point(next);
    }
}

/// A cell that starts as a non-blank clue is resolved to that clue the
/// moment the record is loaded.  Together with the preservation law
/// above, no rule ever moves it to a different digit.
pub proof fn law_clue_resolved_at_load(s: Seq<char>, i: int)
    requires
        wf_record(s),
        0 <= i < 81,
        clue_digit(s, i) != 0,
    ensures
        loaded_cells(s)[i].value_spec() == clue_digit(s, i),
{
    let d = clue_digit(s, i);
    assert(is_digit_char(s[i]));
    assert(1 <= d <= 9);
    Cell::lemma_unconstrained();
    lemma_clue_mask(Cell::unconstrained(), d);
    Cell::lemma_set(d);
    let a = clue_mask(Cell::unconstrained(), d);
    let b = Cell::set_spec(d);
    assert(a.subset_of(b));
    assert forall|e: int| b.allows_spec(e) implies a.allows_spec(e) by {
        assert(e == d);
        assert(Cell::unconstrained().allows_spec(d));
    }
    assert(b.subset_of(a));
    a.lemma_subset_count(b);
    b.lemma_subset_count(a);
}

} // verus!
