//! The elimination rules, each with a functional model of exactly what
//! one pass does to the 81 cells, and proofs that a pass only ever
//! removes candidates.

use vstd::prelude::*;
use crate::cell::Cell;
use crate::grid::{Game, grid_le, lemma_grid_le_refl, lemma_grid_le_trans, lemma_grid_le_update};
use crate::groups::{Group, member_spec, instance_spec, position_spec, lemma_group_facts};

verus! {

// ---------------------------------------------------------------------------
// Peer exclusion: for every cell, every resolved peer's value is
// removed from the cell's candidates.
// ---------------------------------------------------------------------------
/// The state after the first `k` members of cell `c`'s group of family
/// `g` have been inspected: each resolved member (other than `c`
/// itself) had its value eliminated from `c`'s candidates, in order.
pub open spec fn peer_group_step(cells: Seq<Cell>, c: int, g: Group, k: int) -> Seq<Cell>
    decreases k,
{
    if k <= 0 {
        cells
    } else {
        let prev = peer_group_step(cells, c, g, k - 1);
        if k - 1 == position_spec(g, c) {
            prev
        } else {
            let v = prev[member_spec(g, instance_spec(g, c), k - 1)].value_spec();
            if v != 0 {
                prev.update(c, prev[c].eliminate_spec(v))
            } else {
                prev
            }
        }
    }
}

/// The state after peer exclusion has run over cell `c`'s row, column
/// and block, in that order.
pub open spec fn peer_cell_spec(cells: Seq<Cell>, c: int) -> Seq<Cell> {
    peer_group_step(
        peer_group_step(peer_group_step(cells, c, Group::Row, 9), c, Group::Column, 9),
        c,
        Group::Block,
        9,
    )
}

/// The state after peer exclusion has run over the first `n` cells.
pub open spec fn peer_prefix_spec(cells: Seq<Cell>, n: int) -> Seq<Cell>
    decreases n,
{
    if n <= 0 {
        cells
    } else {
        peer_cell_spec(peer_prefix_spec(cells, n - 1), n - 1)
    }
}

/// One full peer-exclusion pass.
pub open spec fn peer_pass_spec(cells: Seq<Cell>) -> Seq<Cell> {
    peer_prefix_spec(cells, 81)
}

/// Peer exclusion only removes candidates.
pub proof fn lemma_peer_group_step_le(cells: Seq<Cell>, c: int, g: Group, k: int)
    requires
        cells.len() == 81,
        0 <= c < 81,
        0 <= k <= 9,
    ensures
        peer_group_step(cells, c, g, k).len() == 81,
        grid_le(peer_group_step(cells, c, g, k), cells),
    decreases k,
{
    lemma_group_facts(g, c);
    if k <= 0 {
        lemma_grid_le_refl(cells);
    } else {
        lemma_peer_group_step_le(cells, c, g, k - 1);
        let prev = peer_group_step(cells, c, g, k - 1);
        if k - 1 != position_spec(g, c) {
            let v = prev[member_spec(g, instance_spec(g, c), k - 1)].value_spec();
            if v != 0 {
                prev[member_spec(g, instance_spec(g, c), k - 1)].lemma_value();
                prev[c].lemma_eliminate(v);
                lemma_grid_le_update(prev, c, prev[c].eliminate_spec(v));
                lemma_grid_le_trans(peer_group_step(cells, c, g, k), prev, cells);
            }
        }
    }
}

/// A whole peer-exclusion pass only removes candidates.
pub proof fn lemma_peer_prefix_le(cells: Seq<Cell>, n: int)
    requires
        cells.len() == 81,
        0 <= n <= 81,
    ensures
        peer_prefix_spec(cells, n).len() == 81,
        grid_le(peer_prefix_spec(cells, n), cells),
    decreases n,
{
    if n <= 0 {
        lemma_grid_le_refl(cells);
    } else {
        lemma_peer_prefix_le(cells, n - 1);
        let prev = peer_prefix_spec(cells, n - 1);
        lemma_peer_group_step_le(prev, n - 1, Group::Row, 9);
        let a = peer_group_step(prev, n - 1, Group::Row, 9);
        lemma_peer_group_step_le(a, n - 1, Group::Column, 9);
        let b = peer_group_step(a, n - 1, Group::Column, 9);
        lemma_peer_group_step_le(b, n - 1, Group::Block, 9);
        lemma_grid_le_trans(peer_group_step(b, n - 1, Group::Block, 9), b, a);
        lemma_grid_le_trans(peer_cell_spec(prev, n - 1), a, prev);
        lemma_grid_le_trans(peer_prefix_spec(cells, n), prev, cells);
    }
}

impl Game {
    /// One group's worth of peer exclusion for cell `c`.
    #[verifier::loop_isolation(false)]
    fn peer_exclude_group(&mut self, c: usize, g: Group)
        requires
            old(self).wf(),
            c < 81,
        ensures
            final(self).wf(),
            final(self).cells@ == peer_group_step(old(self).cells@, c as int, g, 9),
            final(self).solution@ == old(self).solution@,
    {
        proof {
            lemma_group_facts(g, c as int);
        }
        let i = g.instance_of(c);
        let p = g.position_of(c);
        let mut k: usize = 0;
        while k < 9
            invariant
                self.wf(),
                k <= 9,
                self.cells@ == peer_group_step(old(self).cells@, c as int, g, k as int),
                self.solution@ == old(self).solution@,
            decreases 9 - k,
        {
            if k != p {
                let m = g.member(i, k);
                let x = m % 9;
                let y = m / 9;
                proof {
                    assert(x + y * 9 == m);
                }
                let current_val = self.get(&x, &y).get_current_val();
                if current_val != 0 {
                    proof {
                        self.cells@[m as int].lemma_value();
                    }
                    self.cells[c].eliminate(&current_val);
                }
            }
            k = k + 1;
        }
    }

    /// Rule family 1, peer exclusion: for every cell, remove from its
    /// candidates the resolved value of every other cell sharing its
    /// row, column or block.
    #[verifier::loop_isolation(false)]
    pub fn peer_exclusion(&mut self)
        requires
            old(self).wf(),
        ensures
            final(self).wf(),
            final(self).cells@ == peer_pass_spec(old(self).cells@),
            final(self).solution@ == old(self).solution@,
    {
        let mut c: usize = 0;
        while c < 81
            invariant
                self.wf(),
                c <= 81,
                self.cells@ == peer_prefix_spec(old(self).cells@, c as int),
                self.solution@ == old(self).solution@,
            decreases 81 - c,
        {
            self.peer_exclude_group(c, Group::Row);
            self.peer_exclude_group(c, Group::Column);
            self.peer_exclude_group(c, Group::Block);
            c = c + 1;
        }
    }
}

// ---------------------------------------------------------------------------
// Hidden singles: a digit that only one cell of a group still allows
// is forced into that cell.
// ---------------------------------------------------------------------------
/// Scan of the first `k` members of group `(g, i)` for digit `num`:
/// how many members allow it, and the position of the last one found
/// (10 when none was).
pub open spec fn hs_scan(cells: Seq<Cell>, g: Group, i: int, num: int, k: int) -> (int, int)
    decreases k,
{
    if k <= 0 {
        (0, 10)
    } else {
        let prev = hs_scan(cells, g, i, num, k - 1);
        if cells[member_spec(g, i, k - 1)].allows_spec(num) {
            (prev.0 + 1, k - 1)
        } else {
            prev
        }
    }
}

/// The state after the hidden-single rule for digit `num` in group
/// `(g, i)`: when exactly one member allows `num`, that member is
/// pinned to `num`.
pub open spec fn hs_apply(cells: Seq<Cell>, g: Group, i: int, num: int) -> Seq<Cell> {
    let scan = hs_scan(cells, g, i, num, 9);
    if scan.0 == 1 {
        cells.update(member_spec(g, i, scan.1), Cell::set_spec(num))
    } else {
        cells
    }
}

/// The state after digits below `num` have been handled in group
/// `(g, i)`.
pub open spec fn hs_nums(cells: Seq<Cell>, g: Group, i: int, num: int) -> Seq<Cell>
    decreases num,
{
    if num <= 1 {
        cells
    } else {
        hs_apply(hs_nums(cells, g, i, num - 1), g, i, num - 1)
    }
}

/// The state after the first `n` instances of family `g` have been
/// handled.
pub open spec fn hs_prefix(cells: Seq<Cell>, g: Group, n: int) -> Seq<Cell>
    decreases n,
{
    if n <= 0 {
        cells
    } else {
        hs_nums(hs_prefix(cells, g, n - 1), g, n - 1, 10)
    }
}

/// One full hidden-single pass over family `g`.
pub open spec fn hidden_pass_spec(cells: Seq<Cell>, g: Group) -> Seq<Cell> {
    hs_prefix(cells, g, 9)
}

/// What a scan reports: a non-negative count, and on a hit a valid
/// position whose member indeed allows the digit.
pub proof fn lemma_hs_scan(cells: Seq<Cell>, g: Group, i: int, num: int, k: int)
    requires
        0 <= k <= 9,
    ensures
        hs_scan(cells, g, i, num, k).0 >= 0,
        hs_scan(cells, g, i, num, k).0 >= 1 ==> 0 <= hs_scan(cells, g, i, num, k).1 < k && cells[
            member_spec(g, i, hs_scan(cells, g, i, num, k).1)
        ].allows_spec(num),
    decreases k,
{
    if k > 0 {
        lemma_hs_scan(cells, g, i, num, k - 1);
    }
}

/// The hidden-single rule only removes candidates: the pinned cell
/// allowed the digit already.
pub proof fn lemma_hs_apply_le(cells: Seq<Cell>, g: Group, i: int, num: int)
    requires
        cells.len() == 81,
        0 <= i < 9,
    ensures
        hs_apply(cells, g, i, num).len() == 81,
        grid_le(hs_apply(cells, g, i, num), cells),
{
    lemma_hs_scan(cells, g, i, num, 9);
    let scan = hs_scan(cells, g, i, num, 9);
    if scan.0 == 1 {
        let m = member_spec(g, i, scan.1);
        assert(0 <= m < 81) by {
            lemma_group_facts(g, 0);
        }
        cells[m].lemma_set_subset(num);
        lemma_grid_le_update(cells, m, Cell::set_spec(num));
    } else {
        lemma_grid_le_refl(cells);
    }
}

/// All digits of one group only remove candidates.
pub proof fn lemma_hs_nums_le(cells: Seq<Cell>, g: Group, i: int, num: int)
    requires
        cells.len() == 81,
        0 <= i < 9,
        num <= 10,
    ensures
        hs_nums(cells, g, i, num).len() == 81,
        grid_le(hs_nums(cells, g, i, num), cells),
    decreases num,
{
    if num <= 1 {
        lemma_grid_le_refl(cells);
    } else {
        lemma_hs_nums_le(cells, g, i, num - 1);
        let prev = hs_nums(cells, g, i, num - 1);
        lemma_hs_apply_le(prev, g, i, num - 1);
        lemma_grid_le_trans(hs_nums(cells, g, i, num), prev, cells);
    }
}

/// A whole hidden-single pass only removes candidates.
pub proof fn lemma_hs_prefix_le(cells: Seq<Cell>, g: Group, n: int)
    requires
        cells.len() == 81,
        0 <= n <= 9,
    ensures
        hs_prefix(cells, g, n).len() == 81,
        grid_le(hs_prefix(cells, g, n), cells),
    decreases n,
{
    if n <= 0 {
        lemma_grid_le_refl(cells);
    } else {
        lemma_hs_prefix_le(cells, g, n - 1);
        let prev = hs_prefix(cells, g, n - 1);
        lemma_hs_nums_le(prev, g, n - 1, 10);
        lemma_grid_le_trans(hs_prefix(cells, g, n), prev, cells);
    }
}

impl Game {
    /// Rule families 2 to 4, hidden singles: for every group of family
    /// `g` and every digit, when exactly one cell of the group still
    /// allows the digit, that cell is forced to it.
    #[verifier::loop_isolation(false)]
    pub fn hidden_singles(&mut self, g: Group)
        requires
            old(self).wf(),
        ensures
            final(self).wf(),
            final(self).cells@ == hidden_pass_spec(old(self).cells@, g),
            final(self).solution@ == old(self).solution@,
    {
        let mut i: usize = 0;
        while i < 9
            invariant
                self.wf(),
                i <= 9,
                self.cells@ == hs_prefix(old(self).cells@, g, i as int),
                self.solution@ == old(self).solution@,
            decreases 9 - i,
        {
            let mut num: usize = 1;
            while num < 10
                invariant
                    self.wf(),
                    i < 9,
                    1 <= num <= 10,
                    self.cells@ == hs_nums(hs_prefix(old(self).cells@, g, i as int), g, i as int, num as int),
                    self.solution@ == old(self).solution@,
                decreases 10 - num,
            {
                let ghost pre = self.cells@;
                let mut count: usize = 0;
                let mut hit: usize = 10;
                let mut k: usize = 0;
                while k < 9
                    invariant
                        self.wf(),
                        i < 9,
                        1 <= num <= 9,
                        k <= 9,
                        self.cells@ == pre,
                        count <= k,
                        (count as int, hit as int) == hs_scan(pre, g, i as int, num as int, k as int),
                    decreases 9 - k,
                {
                    let m = g.member(i, k);
                    let x = m % 9;
                    let y = m / 9;
                    proof {
                        assert(x + y * 9 == m);
                    }
                    if self.get(&x, &y).allows(&num) {
                        count = count + 1;
                        hit = k;
                    }
                    k = k + 1;
                }
                if count == 1 {
                    proof {
                        lemma_hs_scan(pre, g, i as int, num as int, 9);
                    }
                    let m = g.member(i, hit);
                    let x = m % 9;
                    let y = m / 9;
                    proof {
                        assert(x + y * 9 == m);
                    }
                    self.set(&x, &y, &num);
                }
                proof {
                    assert(self.cells@ == hs_apply(pre, g, i as int, num as int));
                }
                num = num + 1;
            }
            i = i + 1;
        }
    }
}

// ---------------------------------------------------------------------------
// Naked subsets: when the candidate set of a cell is shared (as a
// subset) by exactly as many cells of a group as it has candidates,
// those candidates can be removed from all other cells of the group.
// ---------------------------------------------------------------------------
/// `cell` after eliminating every digit below `d` that `p` allows.
pub open spec fn elim_digits_step(cell: Cell, p: Cell, d: int) -> Cell
    decreases d,
{
    if d <= 1 {
        cell
    } else {
        let prev = elim_digits_step(cell, p, d - 1);
        if p.allows_spec(d - 1) {
            prev.eliminate_spec(d - 1)
        } else {
            prev
        }
    }
}

/// How many of the first `k` members of cell `c`'s group of family `g`
/// have a candidate set included in `c`'s.
pub open spec fn sub_match_count(cells: Seq<Cell>, c: int, g: Group, k: int) -> int
    decreases k,
{
    if k <= 0 {
        0
    } else {
        sub_match_count(cells, c, g, k - 1) + if cells[member_spec(
            g,
            instance_spec(g, c),
            k - 1,
        )].subset_of(cells[c]) {
            1int
        } else {
            0int
        }
    }
}

/// The elimination phase over the first `k` members: every member that
/// was not a match in the `frozen` state loses all of `frozen[c]`'s
/// candidates.
pub open spec fn sub_elim_step(cells: Seq<Cell>, frozen: Seq<Cell>, c: int, g: Group, k: int) -> Seq<
    Cell,
>
    decreases k,
{
    if k <= 0 {
        cells
    } else {
        let prev = sub_elim_step(cells, frozen, c, g, k - 1);
        let m = member_spec(g, instance_spec(g, c), k - 1);
        if !frozen[m].subset_of(frozen[c]) {
            prev.update(m, elim_digits_step(prev[m], frozen[c], 10))
        } else {
            prev
        }
    }
}

/// The naked-subset rule for cell `c` within its group of family `g`.
pub open spec fn sub_group_spec(cells: Seq<Cell>, c: int, g: Group) -> Seq<Cell> {
    let n = sub_match_count(cells, c, g, 9);
    if n > 1 && n == cells[c].count() {
        sub_elim_step(cells, cells, c, g, 9)
    } else {
        cells
    }
}

/// The naked-subset rule for cell `c` over its row, column and block.
pub open spec fn sub_cell_spec(cells: Seq<Cell>, c: int) -> Seq<Cell> {
    sub_group_spec(
        sub_group_spec(sub_group_spec(cells, c, Group::Row), c, Group::Column),
        c,
        Group::Block,
    )
}

/// The state after the naked-subset rule has run over the first `n`
/// cells.
pub open spec fn sub_prefix_spec(cells: Seq<Cell>, n: int) -> Seq<Cell>
    decreases n,
{
    if n <= 0 {
        cells
    } else {
        sub_cell_spec(sub_prefix_spec(cells, n - 1), n - 1)
    }
}

/// One full naked-subset pass.
pub open spec fn subset_pass_spec(cells: Seq<Cell>) -> Seq<Cell> {
    sub_prefix_spec(cells, 81)
}

/// Eliminating a batch of digits only removes candidates.
pub proof fn lemma_elim_digits_le(cell: Cell, p: Cell, d: int)
    ensures
        elim_digits_step(cell, p, d).subset_of(cell),
    decreases d,
{
    if d > 1 {
        lemma_elim_digits_le(cell, p, d - 1);
        let prev = elim_digits_step(cell, p, d - 1);
        if p.allows_spec(d - 1) {
            prev.lemma_eliminate(d - 1);
        }
    }
}

/// The elimination phase only removes candidates.
pub proof fn lemma_sub_elim_le(cells: Seq<Cell>, frozen: Seq<Cell>, c: int, g: Group, k: int)
    requires
        cells.len() == 81,
        0 <= c < 81,
        0 <= k <= 9,
    ensures
        sub_elim_step(cells, frozen, c, g, k).len() == 81,
        grid_le(sub_elim_step(cells, frozen, c, g, k), cells),
    decreases k,
{
    lemma_group_facts(g, c);
    if k <= 0 {
        lemma_grid_le_refl(cells);
    } else {
        lemma_sub_elim_le(cells, frozen, c, g, k - 1);
        let prev = sub_elim_step(cells, frozen, c, g, k - 1);
        let m = member_spec(g, instance_spec(g, c), k - 1);
        if !frozen[m].subset_of(frozen[c]) {
            lemma_elim_digits_le(prev[m], frozen[c], 10);
            lemma_grid_le_update(prev, m, elim_digits_step(prev[m], frozen[c], 10));
            lemma_grid_le_trans(sub_elim_step(cells, frozen, c, g, k), prev, cells);
        }
    }
}

/// The naked-subset rule for one cell and one group only removes
/// candidates.
pub proof fn lemma_sub_group_le(cells: Seq<Cell>, c: int, g: Group)
    requires
        cells.len() == 81,
        0 <= c < 81,
    ensures
        sub_group_spec(cells, c, g).len() == 81,
        grid_le(sub_group_spec(cells, c, g), cells),
{
    let n = sub_match_count(cells, c, g, 9);
    if n > 1 && n == cells[c].count() {
        lemma_sub_elim_le(cells, cells, c, g, 9);
    } else {
        lemma_grid_le_refl(cells);
    }
}

/// The naked-subset rule for one cell only removes candidates.
pub proof fn lemma_sub_cell_le(cells: Seq<Cell>, c: int)
    requires
        cells.len() == 81,
        0 <= c < 81,
    ensures
        sub_cell_spec(cells, c).len() == 81,
        grid_le(sub_cell_spec(cells, c), cells),
{
    let a = sub_group_spec(cells, c, Group::Row);
    let b = sub_group_spec(a, c, Group::Column);
    lemma_sub_group_le(cells, c, Group::Row);
    lemma_sub_group_le(a, c, Group::Column);
    lemma_sub_group_le(b, c, Group::Block);
    lemma_grid_le_trans(sub_cell_spec(cells, c), b, a);
    lemma_grid_le_trans(sub_cell_spec(cells, c), a, cells);
}

/// A whole naked-subset pass only removes candidates.
pub proof fn lemma_sub_prefix_le(cells: Seq<Cell>, n: int)
    requires
        cells.len() == 81,
        0 <= n <= 81,
    ensures
        sub_prefix_spec(cells, n).len() == 81,
        grid_le(sub_prefix_spec(cells, n), cells),
    decreases n,
{
    if n <= 0 {
        lemma_grid_le_refl(cells);
    } else {
        lemma_sub_prefix_le(cells, n - 1);
        let prev = sub_prefix_spec(cells, n - 1);
        lemma_sub_cell_le(prev, n - 1);
        lemma_grid_le_trans(sub_prefix_spec(cells, n), prev, cells);
    }
}

impl Game {
    /// The naked-subset rule for cell `c` within its group of family
    /// `g`.
    #[verifier::loop_isolation(false)]
    fn subset_exclude_group(&mut self, c: usize, g: Group)
        requires
            old(self).wf(),
            c < 81,
        ensures
            final(self).wf(),
            final(self).cells@ == sub_group_spec(old(self).cells@, c as int, g),
            final(self).solution@ == old(self).solution@,
    {
        proof {
            lemma_group_facts(g, c as int);
        }
        let ghost frozen = self.cells@;
        let i = g.instance_of(c);
        let x = c % 9;
        let y = c / 9;
        proof {
            assert(x + y * 9 == c);
        }
        let pcell: Cell = *self.get(&x, &y);
        let possible_values = pcell.possible_values();
        let mut matches: [bool; 9] = [false; 9];
        let mut count: usize = 0;
        let mut k: usize = 0;
        while k < 9
            invariant
                self.wf(),
                self.cells@ == frozen,
                pcell == frozen[c as int],
                k <= 9,
                count <= k,
                count == sub_match_count(frozen, c as int, g, k as int),
                forall|j: int|
                    0 <= j < k ==> matches@[j] == frozen[member_spec(
                        g,
                        instance_spec(g, c as int),
                        j,
                    )].subset_of(frozen[c as int]),
            decreases 9 - k,
        {
            let m = g.member(i, k);
            let mx = m % 9;
            let my = m / 9;
            proof {
                assert(mx + my * 9 == m);
            }
            let hit = self.get(&mx, &my).is_subset_of(&pcell);
            matches[k] = hit;
            if hit {
                count = count + 1;
            }
            k = k + 1;
        }
        if count > 1 && count == possible_values.len() {
            let mut k: usize = 0;
            while k < 9
                invariant
                    self.wf(),
                    pcell == frozen[c as int],
                    k <= 9,
                    self.cells@ == sub_elim_step(frozen, frozen, c as int, g, k as int),
                    self.solution@ == old(self).solution@,
                    forall|j: int|
                        0 <= j < 9 ==> matches@[j] == frozen[member_spec(
                            g,
                            instance_spec(g, c as int),
                            j,
                        )].subset_of(frozen[c as int]),
                decreases 9 - k,
            {
                let m = g.member(i, k);
                if !matches[k] {
                    let ghost prev_cells = self.cells@;
                    let mut d: usize = 1;
                    while d < 10
                        invariant
                            self.wf(),
                            1 <= d <= 10,
                            m < 81,
                            self.cells@[m as int] == elim_digits_step(
                                prev_cells[m as int],
                                frozen[c as int],
                                d as int,
                            ),
                            forall|j: int|
                                0 <= j < 81 && j != m ==> self.cells@[j] == prev_cells[j],
                            self.solution@ == old(self).solution@,
                        decreases 10 - d,
                    {
                        if pcell.allows(&d) {
                            self.cells[m].eliminate(&d);
                        }
                        d = d + 1;
                    }
                    proof {
                        assert(self.cells@ =~= prev_cells.update(
                            m as int,
                            elim_digits_step(prev_cells[m as int], frozen[c as int], 10),
                        ));
                    }
                }
                k = k + 1;
            }
        }
    }

    /// Rule family 5, naked subsets: for every cell and each of its
    /// three groups, when the cells whose candidates fit inside its
    /// candidate set are exactly as many as those candidates (and more
    /// than one), every other cell of the group loses those candidates.
    #[verifier::loop_isolation(false)]
    pub fn subset_exclusion(&mut self)
        requires
            old(self).wf(),
        ensures
            final(self).wf(),
            final(self).cells@ == subset_pass_spec(old(self).cells@),
            final(self).solution@ == old(self).solution@,
    {
        let mut c: usize = 0;
        while c < 81
            invariant
                self.wf(),
                c <= 81,
                self.cells@ == sub_prefix_spec(old(self).cells@, c as int),
                self.solution@ == old(self).solution@,
            decreases 81 - c,
        {
            self.subset_exclude_group(c, Group::Row);
            self.subset_exclude_group(c, Group::Column);
            self.subset_exclude_group(c, Group::Block);
            c = c + 1;
        }
    }
}

// ---------------------------------------------------------------------------
// One full propagation pass.
// ---------------------------------------------------------------------------
/// One pass of all rule families, in the order they are applied: peer
/// exclusion, hidden singles by column, row and block, naked subsets.
pub open spec fn pass_spec(cells: Seq<Cell>) -> Seq<Cell> {
    subset_pass_spec(
        hidden_pass_spec(
            hidden_pass_spec(hidden_pass_spec(peer_pass_spec(cells), Group::Column), Group::Row),
            Group::Block,
        ),
    )
}

/// A full pass only removes candidates, and keeps 81 cells.
pub proof fn lemma_pass_le(cells: Seq<Cell>)
    requires
        cells.len() == 81,
    ensures
        pass_spec(cells).len() == 81,
        grid_le(pass_spec(cells), cells),
{
    lemma_peer_prefix_le(cells, 81);
    let a = peer_pass_spec(cells);
    lemma_hs_prefix_le(a, Group::Column, 9);
    let b = hidden_pass_spec(a, Group::Column);
    lemma_hs_prefix_le(b, Group::Row, 9);
    let c = hidden_pass_spec(b, Group::Row);
    lemma_hs_prefix_le(c, Group::Block, 9);
    let d = hidden_pass_spec(c, Group::Block);
    lemma_sub_prefix_le(d, 81);
    lemma_grid_le_trans(pass_spec(cells), d, c);
    lemma_grid_le_trans(pass_spec(cells), c, b);
    lemma_grid_le_trans(pass_spec(cells), b, a);
    lemma_grid_le_trans(pass_spec(cells), a, cells);
}

impl Game {
    /// One pass of every elimination rule, in the fixed order: peer
    /// exclusion, hidden singles over columns, rows and blocks, then
    /// naked subsets.
    pub fn iterate(&mut self)
        requires
            old(self).wf(),
        ensures
            final(self).wf(),
            final(self).cells@ == pass_spec(old(self).cells@),
            final(self).solution@ == old(self).solution@,
    {
        self.peer_exclusion();
        self.hidden_singles(Group::Column);
        self.hidden_singles(Group::Row);
        self.hidden_singles(Group::Block);
        self.subset_exclusion();
    }
}

} // verus!
