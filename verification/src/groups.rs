//! Peer groups: rows, columns and 3x3 blocks, each presented as nine
//! groups of nine cell indices over the flat 81-cell layout
//! (`index = x + y * 9`).

use vstd::prelude::*;

verus! {

/// One family of peer groups.  Every family splits the 81 cells into
/// nine groups of nine cells.
#[derive(Clone, Copy)]
pub enum Group {
    Row,
    Column,
    Block,
}

/// The flat index of the `k`-th cell of instance `i` of family `g`.
///
/// Rows are instanced by their y coordinate and walked by x; columns
/// the other way around.  Block instance `i` covers the 3x3 square
/// whose top-left corner is `x = (i / 3) * 3`, `y = (i % 3) * 3`, and
/// is walked column-first.
pub open spec fn member_spec(g: Group, i: int, k: int) -> int {
    match g {
        Group::Row => i * 9 + k,
        Group::Column => k * 9 + i,
        Group::Block => (i / 3) * 3 + k / 3 + ((i % 3) * 3 + k % 3) * 9,
    }
}

/// The instance of family `g` that cell `c` belongs to.
pub open spec fn instance_spec(g: Group, c: int) -> int {
    match g {
        Group::Row => c / 9,
        Group::Column => c % 9,
        Group::Block => ((c % 9) / 3) * 3 + (c / 9) / 3,
    }
}

/// The position of cell `c` inside its own group of family `g`.
pub open spec fn position_spec(g: Group, c: int) -> int {
    match g {
        Group::Row => c % 9,
        Group::Column => c / 9,
        Group::Block => ((c % 9) % 3) * 3 + (c / 9) % 3,
    }
}

/// Group members are valid cell indices, and every cell sits at its
/// own position inside its own group.
pub proof fn lemma_group_facts(g: Group, c: int)
    requires
        0 <= c < 81,
    ensures
        0 <= instance_spec(g, c) < 9,
        0 <= position_spec(g, c) < 9,
        member_spec(g, instance_spec(g, c), position_spec(g, c)) == c,
        forall|i: int, k: int| 0 <= i < 9 && 0 <= k < 9 ==> 0 <= #[trigger] member_spec(g, i, k)
            < 81,
{
    assert(c == (c / 9) * 9 + c % 9);
    assert(c % 9 == ((c % 9) / 3) * 3 + (c % 9) % 3);
    assert(c / 9 == ((c / 9) / 3) * 3 + (c / 9) % 3);
}

impl Group {
    /// The flat index of the `k`-th cell of instance `i` of this family.
    pub fn member(self, i: usize, k: usize) -> (m: usize)
        requires
            i < 9,
            k < 9,
        ensures
            m == member_spec(self, i as int, k as int),
            m < 81,
    {
        match self {
            Group::Row => i * 9 + k,
            Group::Column => k * 9 + i,
            Group::Block => (i / 3) * 3 + k / 3 + ((i % 3) * 3 + k % 3) * 9,
        }
    }

    /// The instance of this family that cell `c` belongs to.
    pub fn instance_of(self, c: usize) -> (i: usize)
        requires
            c < 81,
        ensures
            i == instance_spec(self, c as int),
            i < 9,
    {
        match self {
            Group::Row => c / 9,
            Group::Column => c % 9,
            Group::Block => ((c % 9) / 3) * 3 + (c / 9) / 3,
        }
    }

    /// The position of cell `c` inside its own group of this family.
    pub fn position_of(self, c: usize) -> (k: usize)
        requires
            c < 81,
        ensures
            k == position_spec(self, c as int),
            k < 9,
    {
        match self {
            Group::Row => c % 9,
            Group::Column => c / 9,
            Group::Block => ((c % 9) % 3) * 3 + (c / 9) % 3,
        }
    }
}

} // verus!
