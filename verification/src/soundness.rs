//! Soundness of the rules: no rule ever eliminates a digit of a valid
//! complete solution that the grid is still compatible with.  Hence a
//! grid that the loop reports as solved reads back exactly that
//! solution, and the verifier accepts it.

use vstd::prelude::*;
use crate::cell::Cell;
use crate::grid::{clue_digit, clue_mask, is_digit_char, lemma_clue_mask, lemma_score_prefix_bounds,
    lemma_score_prefix_le, score_seq, wf_record};
use crate::laws::{law_score_81, law_solved_scores_81};
use crate::solver::{grid_matches, loaded_cells, loaded_solution, record_solves, solve_rec};
use crate::groups::{Group, member_spec, instance_spec, position_spec, lemma_group_facts};
use crate::rules::{
    elim_digits_step, hidden_pass_spec, hs_apply, hs_nums, hs_prefix, hs_scan, lemma_hs_scan,
    lemma_hs_nums_le, lemma_hs_prefix_le, lemma_pass_le, lemma_peer_group_step_le,
    lemma_peer_prefix_le, lemma_sub_elim_le, lemma_sub_group_le, lemma_sub_prefix_le,
    pass_spec, peer_cell_spec,
    peer_group_step, peer_pass_spec, peer_prefix_spec, sub_cell_spec, sub_elim_step,
    sub_group_spec, sub_match_count, sub_prefix_spec,
};

verus! {

/// Group `(g, i)` of `sol` contains digit `d` somewhere.
pub open spec fn group_contains(sol: Seq<usize>, g: Group, i: int, d: int) -> bool {
    exists|k: int| 0 <= k < 9 && #[trigger] sol[member_spec(g, i, k)] == d
}

/// A complete, rule-abiding solution: 81 digits 1..=9 such that every
/// row, column and block holds nine distinct digits — equivalently,
/// every digit somewhere.
pub open spec fn valid_solution(sol: Seq<usize>) -> bool {
    &&& sol.len() == 81
    &&& forall|i: int| 0 <= i < 81 ==> 1 <= #[trigger] sol[i] <= 9
    &&& forall|g: Group, i: int, k1: int, k2: int|
        0 <= i < 9 && 0 <= k1 < 9 && 0 <= k2 < 9 && k1 != k2 ==> #[trigger] sol[member_spec(
            g,
            i,
            k1,
        )] != #[trigger] sol[member_spec(g, i, k2)]
    &&& forall|g: Group, i: int, d: int|
        0 <= i < 9 && 1 <= d <= 9 ==> #[trigger] group_contains(sol, g, i, d)
}

/// Every cell still allows its digit of `sol`: the grid has not ruled
/// the solution out.
pub open spec fn compatible(cells: Seq<Cell>, sol: Seq<usize>) -> bool {
    forall|c: int| 0 <= c < 81 ==> #[trigger] cells[c].allows_spec(sol[c] as int)
}

/// Peer exclusion within one group keeps the grid compatible: a
/// resolved peer is resolved to its own solution digit, which differs
/// from the cell's.
proof fn lemma_peer_group_step_compat(cells: Seq<Cell>, c: int, g: Group, k: int, sol: Seq<usize>)
    requires
        cells.len() == 81,
        0 <= c < 81,
        0 <= k <= 9,
        valid_solution(sol),
        compatible(cells, sol),
    ensures
        compatible(peer_group_step(cells, c, g, k), sol),
    decreases k,
{
    lemma_group_facts(g, c);
    if k > 0 {
        lemma_peer_group_step_compat(cells, c, g, k - 1, sol);
        lemma_peer_group_step_le(cells, c, g, k - 1);
        let prev = peer_group_step(cells, c, g, k - 1);
        let p = position_spec(g, c);
        let i = instance_spec(g, c);
        if k - 1 != p {
            let m = member_spec(g, i, k - 1);
            let v = prev[m].value_spec();
            if v != 0 {
                // the peer is pinned to v, and it still allows its own
                // solution digit, so v is that digit
                prev[m].lemma_value();
                prev[m].lemma_value_unique(sol[m] as int);
                assert(v == sol[m]);
                // distinct positions of one group carry distinct digits
                assert(member_spec(g, i, p) == c);
                assert(sol[member_spec(g, i, p)] == sol[c]);
                assert(sol[m] != sol[c]);
                prev[c].lemma_eliminate(v);
                let next = prev.update(c, prev[c].eliminate_spec(v));
                assert(next[c] == prev[c].eliminate_spec(v));
                assert(prev[c].allows_spec(sol[c] as int));
                assert(sol[c] as int != v);
                assert(prev[c].eliminate_spec(v).allows_spec(sol[c] as int));
                assert(next[c].allows_spec(sol[c] as int));
                assert forall|j: int| 0 <= j < 81 implies #[trigger] next[j].allows_spec(
                    sol[j] as int,
                ) by {
                    if j != c {
                        assert(next[j] == prev[j]);
                    }
                }
                assert(compatible(next, sol));
            }
        }
    }
}

/// Peer exclusion over one whole cell keeps the grid compatible.
proof fn lemma_peer_cell_compat(cells: Seq<Cell>, c: int, sol: Seq<usize>)
    requires
        cells.len() == 81,
        0 <= c < 81,
        valid_solution(sol),
        compatible(cells, sol),
    ensures
        compatible(peer_cell_spec(cells, c), sol),
{
    lemma_peer_group_step_compat(cells, c, Group::Row, 9, sol);
    lemma_peer_group_step_le(cells, c, Group::Row, 9);
    let a = peer_group_step(cells, c, Group::Row, 9);
    lemma_peer_group_step_compat(a, c, Group::Column, 9, sol);
    lemma_peer_group_step_le(a, c, Group::Column, 9);
    let b = peer_group_step(a, c, Group::Column, 9);
    lemma_peer_group_step_compat(b, c, Group::Block, 9, sol);
}

/// A full peer-exclusion pass keeps the grid compatible.
proof fn lemma_peer_prefix_compat(cells: Seq<Cell>, n: int, sol: Seq<usize>)
    requires
        cells.len() == 81,
        0 <= n <= 81,
        valid_solution(sol),
        compatible(cells, sol),
    ensures
        compatible(peer_prefix_spec(cells, n), sol),
    decreases n,
{
    if n > 0 {
        lemma_peer_prefix_compat(cells, n - 1, sol);
        lemma_peer_prefix_le(cells, n - 1);
        lemma_peer_cell_compat(peer_prefix_spec(cells, n - 1), n - 1, sol);
    }
}

/// A scan that counted at most one hit pins down every member that
/// allows the digit: it must be the reported one.
proof fn lemma_hs_scan_unique(cells: Seq<Cell>, g: Group, i: int, num: int, k: int, k2: int)
    requires
        0 <= k <= 9,
        0 <= k2 < k,
        hs_scan(cells, g, i, num, k).0 <= 1,
        cells[member_spec(g, i, k2)].allows_spec(num),
    ensures
        hs_scan(cells, g, i, num, k).0 == 1,
        hs_scan(cells, g, i, num, k).1 == k2,
    decreases k,
{
    lemma_hs_scan(cells, g, i, num, k - 1);
    if k2 < k - 1 {
        lemma_hs_scan_unique(cells, g, i, num, k - 1, k2);
    }
}

/// A hidden single pins a cell to its own solution digit: the one
/// group cell that holds the digit in the solution still allows it, so
/// the unique allowing cell is that cell.
proof fn lemma_hs_apply_compat(cells: Seq<Cell>, g: Group, i: int, num: int, sol: Seq<usize>)
    requires
        cells.len() == 81,
        0 <= i < 9,
        1 <= num <= 9,
        valid_solution(sol),
        compatible(cells, sol),
    ensures
        compatible(hs_apply(cells, g, i, num), sol),
{
    lemma_group_facts(g, 0);
    let scan = hs_scan(cells, g, i, num, 9);
    if scan.0 == 1 {
        lemma_hs_scan(cells, g, i, num, 9);
        let m = member_spec(g, i, scan.1);
        assert(group_contains(sol, g, i, num));
        let k2 = choose|k: int| 0 <= k < 9 && #[trigger] sol[member_spec(g, i, k)] == num;
        let m2 = member_spec(g, i, k2);
        assert(0 <= m2 < 81);
        assert(cells[m2].allows_spec(sol[m2] as int));
        lemma_hs_scan_unique(cells, g, i, num, 9, k2);
        assert(k2 == scan.1 && m2 == m);
        assert(sol[m] == num);
        Cell::lemma_set(num);
        let next = cells.update(m, Cell::set_spec(num));
        assert(next[m].allows_spec(sol[m] as int));
        assert forall|j: int| 0 <= j < 81 implies #[trigger] next[j].allows_spec(sol[j] as int) by {
            if j != m {
                assert(next[j] == cells[j]);
            }
        }
        assert(compatible(next, sol));
    }
}

/// All nine digits of one group keep the grid compatible.
proof fn lemma_hs_nums_compat(cells: Seq<Cell>, g: Group, i: int, num: int, sol: Seq<usize>)
    requires
        cells.len() == 81,
        0 <= i < 9,
        num <= 10,
        valid_solution(sol),
        compatible(cells, sol),
    ensures
        compatible(hs_nums(cells, g, i, num), sol),
    decreases num,
{
    if num > 1 {
        lemma_hs_nums_compat(cells, g, i, num - 1, sol);
        lemma_hs_nums_le(cells, g, i, num - 1);
        lemma_hs_apply_compat(hs_nums(cells, g, i, num - 1), g, i, num - 1, sol);
    }
}

/// A full hidden-single pass keeps the grid compatible.
proof fn lemma_hs_prefix_compat(cells: Seq<Cell>, g: Group, n: int, sol: Seq<usize>)
    requires
        cells.len() == 81,
        0 <= n <= 9,
        valid_solution(sol),
        compatible(cells, sol),
    ensures
        compatible(hs_prefix(cells, g, n), sol),
    decreases n,
{
    if n > 0 {
        lemma_hs_prefix_compat(cells, g, n - 1, sol);
        lemma_hs_prefix_le(cells, g, n - 1);
        lemma_hs_nums_compat(hs_prefix(cells, g, n - 1), g, n - 1, 10, sol);
    }
}

/// Member `j` of cell `c`'s group of family `g` is a match (its
/// candidates fit inside `c`'s) and its solution digit is `e`.
pub open spec fn match_digit_at(
    frozen: Seq<Cell>,
    sol: Seq<usize>,
    c: int,
    g: Group,
    j: int,
    e: int,
) -> bool {
    &&& frozen[member_spec(g, instance_spec(g, c), j)].subset_of(frozen[c])
    &&& sol[member_spec(g, instance_spec(g, c), j)] == e
}

/// Some match among the first `k` members carries solution digit `e`.
pub open spec fn has_match_digit(
    frozen: Seq<Cell>,
    sol: Seq<usize>,
    c: int,
    g: Group,
    k: int,
    e: int,
) -> bool {
    exists|j: int| 0 <= j < k && #[trigger] match_digit_at(frozen, sol, c, g, j, e)
}

/// The set of solution digits of the matches among the first `k`
/// members, as a candidate set.
pub open spec fn matched_digits(
    frozen: Seq<Cell>,
    sol: Seq<usize>,
    c: int,
    g: Group,
    k: int,
) -> Cell
    decreases k,
{
    if k <= 0 {
        Cell::no_candidates()
    } else {
        let prev = matched_digits(frozen, sol, c, g, k - 1);
        let m = member_spec(g, instance_spec(g, c), k - 1);
        if frozen[m].subset_of(frozen[c]) {
            prev.with_digit(sol[m] as int)
        } else {
            prev
        }
    }
}

/// Matches carry pairwise distinct solution digits, each allowed by
/// `c`: collected as a candidate set they number exactly the match
/// count, sit inside `c`'s candidates, and are characterised by
/// `has_match_digit`.
proof fn lemma_matched_digits(frozen: Seq<Cell>, sol: Seq<usize>, c: int, g: Group, k: int)
    requires
        frozen.len() == 81,
        0 <= c < 81,
        0 <= k <= 9,
        valid_solution(sol),
        compatible(frozen, sol),
    ensures
        matched_digits(frozen, sol, c, g, k).count() == sub_match_count(frozen, c, g, k),
        matched_digits(frozen, sol, c, g, k).subset_of(frozen[c]),
        forall|e: int|
            #[trigger] matched_digits(frozen, sol, c, g, k).allows_spec(e) <==> has_match_digit(
                frozen,
                sol,
                c,
                g,
                k,
                e,
            ),
    decreases k,
{
    lemma_group_facts(g, c);
    let i = instance_spec(g, c);
    let acc = matched_digits(frozen, sol, c, g, k);
    if k <= 0 {
        Cell::lemma_no_candidates();
        assert forall|e: int| #[trigger] acc.allows_spec(e) <==> has_match_digit(
            frozen,
            sol,
            c,
            g,
            k,
            e,
        ) by {
            assert(!acc.allows_spec(e));
            if has_match_digit(frozen, sol, c, g, k, e) {
                let j = choose|j: int|
                    0 <= j < k && #[trigger] match_digit_at(frozen, sol, c, g, j, e);
                assert(false);
            }
        }
    } else {
        lemma_matched_digits(frozen, sol, c, g, k - 1);
        let prev = matched_digits(frozen, sol, c, g, k - 1);
        let m = member_spec(g, i, k - 1);
        if frozen[m].subset_of(frozen[c]) {
            let d = sol[m] as int;
            assert(frozen[m].allows_spec(d));
            assert(frozen[c].allows_spec(d));
            // d is fresh: an earlier match with the same digit would
            // contradict the distinctness of the solution's digits
            assert(!prev.allows_spec(d)) by {
                if prev.allows_spec(d) {
                    let j = choose|j: int|
                        0 <= j < k - 1 && #[trigger] match_digit_at(frozen, sol, c, g, j, d);
                    assert(sol[member_spec(g, i, j)] != sol[member_spec(g, i, k - 1)]);
                    assert(false);
                }
            }
            prev.lemma_with_digit(d);
            assert(acc == prev.with_digit(d));
            assert forall|e: int| acc.allows_spec(e) implies frozen[c].allows_spec(e) by {
                if e != d {
                    assert(prev.allows_spec(e));
                }
            }
            assert forall|e: int| #[trigger] acc.allows_spec(e) <==> has_match_digit(
                frozen,
                sol,
                c,
                g,
                k,
                e,
            ) by {
                if acc.allows_spec(e) {
                    if e == d {
                        assert(match_digit_at(frozen, sol, c, g, k - 1, e));
                    } else {
                        assert(prev.allows_spec(e));
                        let j = choose|j: int|
                            0 <= j < k - 1 && #[trigger] match_digit_at(frozen, sol, c, g, j, e);
                        assert(match_digit_at(frozen, sol, c, g, j, e));
                    }
                }
                if has_match_digit(frozen, sol, c, g, k, e) {
                    let j = choose|j: int|
                        0 <= j < k && #[trigger] match_digit_at(frozen, sol, c, g, j, e);
                    if j == k - 1 {
                        assert(e == d);
                    } else {
                        assert(has_match_digit(frozen, sol, c, g, k - 1, e));
                        assert(prev.allows_spec(e));
                    }
                }
            }
        } else {
            assert(acc == prev);
            assert forall|e: int| #[trigger] acc.allows_spec(e) <==> has_match_digit(
                frozen,
                sol,
                c,
                g,
                k,
                e,
            ) by {
                if acc.allows_spec(e) {
                    let j = choose|j: int|
                        0 <= j < k - 1 && #[trigger] match_digit_at(frozen, sol, c, g, j, e);
                    assert(match_digit_at(frozen, sol, c, g, j, e));
                }
                if has_match_digit(frozen, sol, c, g, k, e) {
                    let j = choose|j: int|
                        0 <= j < k && #[trigger] match_digit_at(frozen, sol, c, g, j, e);
                    assert(j < k - 1);
                    assert(has_match_digit(frozen, sol, c, g, k - 1, e));
                }
            }
        }
    }
}

/// The pigeonhole at the heart of the naked-subset rule: when the
/// matches are exactly as many as `c`'s candidates, every candidate of
/// `c` is the solution digit of some match.
proof fn lemma_subset_matches_exact(frozen: Seq<Cell>, sol: Seq<usize>, c: int, g: Group)
    requires
        frozen.len() == 81,
        0 <= c < 81,
        valid_solution(sol),
        compatible(frozen, sol),
        sub_match_count(frozen, c, g, 9) == frozen[c].count(),
    ensures
        forall|e: int|
            frozen[c].allows_spec(e) ==> #[trigger] has_match_digit(frozen, sol, c, g, 9, e),
{
    lemma_matched_digits(frozen, sol, c, g, 9);
    let acc = matched_digits(frozen, sol, c, g, 9);
    acc.lemma_subset_count(frozen[c]);
    assert(acc == frozen[c]);
}

/// Eliminating only digits that `p` allows spares a digit `p` does not
/// allow.
proof fn lemma_elim_digits_compat(cell: Cell, p: Cell, d: int, e: int)
    requires
        cell.allows_spec(e),
        !p.allows_spec(e),
    ensures
        elim_digits_step(cell, p, d).allows_spec(e),
    decreases d,
{
    if d > 1 {
        lemma_elim_digits_compat(cell, p, d - 1, e);
        let prev = elim_digits_step(cell, p, d - 1);
        if p.allows_spec(d - 1) {
            prev.lemma_eliminate(d - 1);
        }
    }
}

/// The elimination phase of the naked-subset rule keeps the grid
/// compatible: an unmatched member's solution digit is never one of
/// the matched digits.
proof fn lemma_sub_elim_compat(cells: Seq<Cell>, frozen: Seq<Cell>, c: int, g: Group, k: int, sol: Seq<usize>)
    requires
        cells.len() == 81,
        frozen.len() == 81,
        0 <= c < 81,
        0 <= k <= 9,
        valid_solution(sol),
        compatible(cells, sol),
        compatible(frozen, sol),
        sub_match_count(frozen, c, g, 9) == frozen[c].count(),
    ensures
        compatible(sub_elim_step(cells, frozen, c, g, k), sol),
    decreases k,
{
    lemma_group_facts(g, c);
    let i = instance_spec(g, c);
    if k > 0 {
        lemma_sub_elim_compat(cells, frozen, c, g, k - 1, sol);
        lemma_sub_elim_le(cells, frozen, c, g, k - 1);
        let prev = sub_elim_step(cells, frozen, c, g, k - 1);
        let m = member_spec(g, i, k - 1);
        if !frozen[m].subset_of(frozen[c]) {
            // the unmatched member's own digit is not among c's candidates
            assert(!frozen[c].allows_spec(sol[m] as int)) by {
                if frozen[c].allows_spec(sol[m] as int) {
                    lemma_subset_matches_exact(frozen, sol, c, g);
                    assert(has_match_digit(frozen, sol, c, g, 9, sol[m] as int));
                    let j = choose|j: int|
                        0 <= j < 9 && #[trigger] match_digit_at(frozen, sol, c, g, j, sol[m] as int);
                    assert(j != k - 1);
                    assert(sol[member_spec(g, i, j)] != sol[member_spec(g, i, k - 1)]);
                    assert(false);
                }
            }
            assert(prev[m].allows_spec(sol[m] as int));
            lemma_elim_digits_compat(prev[m], frozen[c], 10, sol[m] as int);
            let next = prev.update(m, elim_digits_step(prev[m], frozen[c], 10));
            assert(next[m].allows_spec(sol[m] as int));
            assert forall|j: int| 0 <= j < 81 implies #[trigger] next[j].allows_spec(
                sol[j] as int,
            ) by {
                if j != m {
                    assert(next[j] == prev[j]);
                }
            }
            assert(compatible(next, sol));
        }
    }
}

/// The naked-subset rule keeps the grid compatible, for one group of
/// one cell, for all three groups of one cell, and for a whole pass.
proof fn lemma_sub_group_compat(cells: Seq<Cell>, c: int, g: Group, sol: Seq<usize>)
    requires
        cells.len() == 81,
        0 <= c < 81,
        valid_solution(sol),
        compatible(cells, sol),
    ensures
        compatible(sub_group_spec(cells, c, g), sol),
{
    let n = sub_match_count(cells, c, g, 9);
    if n > 1 && n == cells[c].count() {
        lemma_sub_elim_compat(cells, cells, c, g, 9, sol);
    }
}

proof fn lemma_sub_cell_compat(cells: Seq<Cell>, c: int, sol: Seq<usize>)
    requires
        cells.len() == 81,
        0 <= c < 81,
        valid_solution(sol),
        compatible(cells, sol),
    ensures
        compatible(sub_cell_spec(cells, c), sol),
{
    lemma_sub_group_compat(cells, c, Group::Row, sol);
    lemma_sub_group_le(cells, c, Group::Row);
    let a = sub_group_spec(cells, c, Group::Row);
    lemma_sub_group_compat(a, c, Group::Column, sol);
    lemma_sub_group_le(a, c, Group::Column);
    let b = sub_group_spec(a, c, Group::Column);
    lemma_sub_group_compat(b, c, Group::Block, sol);
}

proof fn lemma_sub_prefix_compat(cells: Seq<Cell>, n: int, sol: Seq<usize>)
    requires
        cells.len() == 81,
        0 <= n <= 81,
        valid_solution(sol),
        compatible(cells, sol),
    ensures
        compatible(sub_prefix_spec(cells, n), sol),
    decreases n,
{
    if n > 0 {
        lemma_sub_prefix_compat(cells, n - 1, sol);
        lemma_sub_prefix_le(cells, n - 1);
        lemma_sub_cell_compat(sub_prefix_spec(cells, n - 1), n - 1, sol);
    }
}

/// Soundness of one full pass: no rule ever rules out a valid complete
/// solution that the grid still admits.
pub proof fn law_pass_sound(cells: Seq<Cell>, sol: Seq<usize>)
    requires
        cells.len() == 81,
        valid_solution(sol),
        compatible(cells, sol),
    ensures
        compatible(pass_spec(cells), sol),
{
    lemma_peer_prefix_compat(cells, 81, sol);
    lemma_peer_prefix_le(cells, 81);
    let a = peer_pass_spec(cells);
    lemma_hs_prefix_compat(a, Group::Column, 9, sol);
    lemma_hs_prefix_le(a, Group::Column, 9);
    let b = hidden_pass_spec(a, Group::Column);
    lemma_hs_prefix_compat(b, Group::Row, 9, sol);
    lemma_hs_prefix_le(b, Group::Row, 9);
    let c = hidden_pass_spec(b, Group::Row);
    lemma_hs_prefix_compat(c, Group::Block, 9, sol);
    lemma_hs_prefix_le(c, Group::Block, 9);
    let d = hidden_pass_spec(c, Group::Block);
    lemma_sub_prefix_compat(d, 81, sol);
}

/// Soundness of the whole propagation loop.
pub proof fn law_solve_sound(cells: Seq<Cell>, sol: Seq<usize>)
    requires
        cells.len() == 81,
        valid_solution(sol),
        compatible(cells, sol),
    ensures
        solve_rec(cells).1.len() == 81,
        compatible(solve_rec(cells).1, sol),
    decreases score_seq(cells),
{
    let next = pass_spec(cells);
    law_pass_sound(cells, sol);
    lemma_pass_le(cells);
    lemma_score_prefix_le(next, cells, 81);
    lemma_score_prefix_bounds(next, 81);
    if score_seq(next) != 81 && score_seq(next) != score_seq(cells) {
        law_solve_sound(next, sol);
    }
}

/// A fully solved compatible grid reads back the solution exactly:
/// score 81 with a candidate in every cell forces one candidate per
/// cell, and that candidate is the solution's digit.
proof fn lemma_compatible_solved_matches(cells: Seq<Cell>, sol: Seq<usize>)
    requires
        cells.len() == 81,
        valid_solution(sol),
        compatible(cells, sol),
        score_seq(cells) == 81,
    ensures
        grid_matches(cells, sol),
{
    assert forall|i: int| 0 <= i < 81 implies #[trigger] cells[i].count() >= 1 by {
        cells[i].lemma_allows_count(sol[i] as int);
    }
    law_score_81(cells);
    assert forall|i: int| 0 <= i < 81 implies #[trigger] cells[i].value_spec() == sol[i] by {
        assert(cells[i].count() == 1);
        assert(cells[i].value_spec() != 0);
        cells[i].lemma_value_unique(sol[i] as int);
    }
}

/// The provable heart of the end-to-end promise: when the embedded
/// reference solution is a valid complete solution and every non-blank
/// clue agrees with it, a propagation run that reaches `Solved` is
/// verified successfully — the record passes.
pub proof fn law_solved_record_verifies(s: Seq<char>)
    requires
        wf_record(s),
        valid_solution(loaded_solution(s)),
        forall|i: int|
            0 <= i < 81 && clue_digit(s, i) != 0 ==> clue_digit(s, i) == loaded_solution(s)[i],
        solve_rec(loaded_cells(s)).0,
    ensures
        record_solves(s),
{
    let cells = loaded_cells(s);
    let sol = loaded_solution(s);
    Cell::lemma_unconstrained();
    assert forall|c: int| 0 <= c < 81 implies #[trigger] cells[c].allows_spec(sol[c] as int) by {
        let d = clue_digit(s, c);
        assert(is_digit_char(s[c]));
        lemma_clue_mask(Cell::unconstrained(), d);
        assert(cells[c] == clue_mask(Cell::unconstrained(), d));
        assert(Cell::unconstrained().allows_spec(sol[c] as int));
    }
    law_solve_sound(cells, sol);
    law_solved_scores_81(cells);
    lemma_compatible_solved_matches(solve_rec(cells).1, sol);
}

} // verus!
