//! One cell of the grid: a set of candidate digits, stored as one
//! boolean flag per digit 1..=9.

use vstd::prelude::*;

verus! {

/// The candidate set of a single cell.  Flag `i` says whether digit
/// `i + 1` is still considered possible for this cell.
#[derive(Clone, Copy)]
pub struct Cell {
    pub possible_values: [bool; 9],
}

/// 1 when the flag is on, 0 when it is off; used to count candidates.
pub open spec fn indicator(b: bool) -> int {
    if b {
        1
    } else {
        0
    }
}

/// An array holding the same flag in all nine positions.
pub open spec fn uniform_flags(b: bool) -> [bool; 9] {
    vstd::array::spec_array_fill_for_copy_type::<bool, 9>(b)
}

impl Cell {
    /// Digit `d` is still a candidate for this cell.
    pub open spec fn allows_spec(self, d: int) -> bool {
        1 <= d <= 9 && self.possible_values[d - 1]
    }

    /// How many digits are still candidates.
    pub open spec fn count(self) -> int {
        indicator(self.possible_values[0]) + indicator(self.possible_values[1])
            + indicator(self.possible_values[2]) + indicator(self.possible_values[3])
            + indicator(self.possible_values[4]) + indicator(self.possible_values[5])
            + indicator(self.possible_values[6]) + indicator(self.possible_values[7])
            + indicator(self.possible_values[8])
    }

    /// The smallest digit that is still a candidate, or 0 when none is.
    pub open spec fn first_candidate(self) -> int {
        if self.possible_values[0] {
            1
        } else if self.possible_values[1] {
            2
        } else if self.possible_values[2] {
            3
        } else if self.possible_values[3] {
            4
        } else if self.possible_values[4] {
            5
        } else if self.possible_values[5] {
            6
        } else if self.possible_values[6] {
            7
        } else if self.possible_values[7] {
            8
        } else if self.possible_values[8] {
            9
        } else {
            0
        }
    }

    /// The resolved value of the cell: its unique candidate when exactly
    /// one digit remains, and 0 otherwise.
    pub open spec fn value_spec(self) -> int {
        if self.count() == 1 {
            self.first_candidate()
        } else {
            0
        }
    }

    /// A cell with every digit still possible.
    pub open spec fn unconstrained() -> Cell {
        Cell { possible_values: uniform_flags(true) }
    }

    /// The cell after digit `d` is removed from the candidates.
    pub open spec fn eliminate_spec(self, d: int) -> Cell {
        Cell { possible_values: vstd::array::spec_array_update(self.possible_values, d - 1, false) }
    }

    /// A cell whose only candidate is `d`.
    pub open spec fn set_spec(d: int) -> Cell {
        Cell { possible_values: vstd::array::spec_array_update(uniform_flags(false), d - 1, true) }
    }

    /// The candidates of this cell form a subset of `other`'s.
    pub open spec fn subset_of(self, other: Cell) -> bool {
        forall|d: int| self.allows_spec(d) ==> other.allows_spec(d)
    }

    /// The candidates below digit `d`, in increasing order.
    pub open spec fn remaining_prefix(self, d: int) -> Seq<usize>
        decreases d,
    {
        if d <= 1 {
            Seq::empty()
        } else {
            self.remaining_prefix(d - 1) + digit_if(self.possible_values[d - 2], (d - 1) as usize)
        }
    }

    /// The candidates in increasing order.
    pub open spec fn remaining_seq(self) -> Seq<usize> {
        self.remaining_prefix(10)
    }

    pub fn new() -> (c: Cell)
        ensures
            c == Cell::unconstrained(),
    {
        let vals: [bool; 9] = [true; 9];
        Cell { possible_values: vals }
    }

    #[verifier::rlimit(80)]
    pub fn get_current_val(&self) -> (v: usize)
        ensures
            v == self.value_spec(),
    {
        let pv = &self.possible_values;
        let count: usize = (if pv[0] {
            1
        } else {
            0
        }) + (if pv[1] {
            1
        } else {
            0
        }) + (if pv[2] {
            1
        } else {
            0
        }) + (if pv[3] {
            1
        } else {
            0
        }) + (if pv[4] {
            1
        } else {
            0
        }) + (if pv[5] {
            1
        } else {
            0
        }) + (if pv[6] {
            1
        } else {
            0
        }) + (if pv[7] {
            1
        } else {
            0
        }) + (if pv[8] {
            1
        } else {
            0
        });
        if count == 1 {
            if pv[0] {
                1
            } else if pv[1] {
                2
            } else if pv[2] {
                3
            } else if pv[3] {
                4
            } else if pv[4] {
                5
            } else if pv[5] {
                6
            } else if pv[6] {
                7
            } else if pv[7] {
                8
            } else if pv[8] {
                9
            } else {
                0
            }
        } else {
            0
        }
    }

    pub fn eliminate(&mut self, val: &usize)
        requires
            1 <= *val <= 9,
        ensures
            *final(self) == old(self).eliminate_spec(*val as int),
    {
        self.possible_values[*val - 1] = false;
        proof {
            assert(self.possible_values =~= old(self).eliminate_spec(*val as int).possible_values);
        }
    }

    pub fn allows(&self, val: &usize) -> (r: bool)
        requires
            1 <= *val <= 9,
        ensures
            r == self.allows_spec(*val as int),
    {
        self.possible_values[*val - 1]
    }

    pub fn set(&mut self, val: &usize)
        requires
            1 <= *val <= 9,
        ensures
            *final(self) == Cell::set_spec(*val as int),
    {
        let vals: [bool; 9] = [false; 9];
        self.possible_values = vals;
        self.possible_values[*val - 1] = true;
        proof {
            assert(self.possible_values =~= Cell::set_spec(*val as int).possible_values);
        }
    }

    /// Every candidate of this cell is also a candidate of `other`.
    pub fn is_subset_of(&self, other: &Cell) -> (r: bool)
        ensures
            r == self.subset_of(*other),
    {
        let a = &self.possible_values;
        let b = &other.possible_values;
        let r = (!a[0] || b[0]) && (!a[1] || b[1]) && (!a[2] || b[2]) && (!a[3] || b[3]) && (!a[4]
            || b[4]) && (!a[5] || b[5]) && (!a[6] || b[6]) && (!a[7] || b[7]) && (!a[8] || b[8]);
        proof {
            if r {
                assert forall|d: int| self.allows_spec(d) implies other.allows_spec(d) by {}
            } else {
                if a[0] && !b[0] {
                    assert(self.allows_spec(1) && !other.allows_spec(1));
                } else if a[1] && !b[1] {
                    assert(self.allows_spec(2) && !other.allows_spec(2));
                } else if a[2] && !b[2] {
                    assert(self.allows_spec(3) && !other.allows_spec(3));
                } else if a[3] && !b[3] {
                    assert(self.allows_spec(4) && !other.allows_spec(4));
                } else if a[4] && !b[4] {
                    assert(self.allows_spec(5) && !other.allows_spec(5));
                } else if a[5] && !b[5] {
                    assert(self.allows_spec(6) && !other.allows_spec(6));
                } else if a[6] && !b[6] {
                    assert(self.allows_spec(7) && !other.allows_spec(7));
                } else if a[7] && !b[7] {
                    assert(self.allows_spec(8) && !other.allows_spec(8));
                } else {
                    assert(self.allows_spec(9) && !other.allows_spec(9));
                }
            }
        }
        r
    }

    pub fn possible_values(&self) -> (r: Vec<usize>)
        ensures
            r@ == self.remaining_seq(),
            r@.len() == self.count(),
    {
        let mut hs: Vec<usize> = Vec::new();
        let mut d: usize = 1;
        while d < 10
            invariant
                1 <= d <= 10,
                hs@ == self.remaining_prefix(d as int),
            decreases 10 - d,
        {
            if self.possible_values[d - 1] {
                hs.push(d);
            }
            assert(hs@ =~= self.remaining_prefix(d + 1));
            d = d + 1;
        }
        proof {
            self.lemma_remaining_len();
        }
        hs
    }
}

impl Cell {
    /// The list of remaining candidates is exactly as long as the
    /// candidate count.
    pub proof fn lemma_remaining_len(self)
        ensures
            self.remaining_seq().len() == self.count(),
    {
        reveal_with_fuel(Cell::remaining_prefix, 10);
    }

    /// A fresh cell allows every digit and counts nine candidates.
    pub proof fn lemma_unconstrained()
        ensures
            forall|d: int| Cell::unconstrained().allows_spec(d) <==> 1 <= d <= 9,
            Cell::unconstrained().count() == 9,
    {
    }

    /// A smaller candidate set never counts more candidates, and a
    /// subset with the same count is the same set.
    pub proof fn lemma_subset_count(self, other: Cell)
        requires
            self.subset_of(other),
        ensures
            self.count() <= other.count(),
            self.count() == other.count() ==> self == other,
    {
        assert(self.allows_spec(1) ==> other.allows_spec(1));
        assert(self.allows_spec(2) ==> other.allows_spec(2));
        assert(self.allows_spec(3) ==> other.allows_spec(3));
        assert(self.allows_spec(4) ==> other.allows_spec(4));
        assert(self.allows_spec(5) ==> other.allows_spec(5));
        assert(self.allows_spec(6) ==> other.allows_spec(6));
        assert(self.allows_spec(7) ==> other.allows_spec(7));
        assert(self.allows_spec(8) ==> other.allows_spec(8));
        assert(self.allows_spec(9) ==> other.allows_spec(9));
        assert(indicator(self.possible_values[0]) <= indicator(other.possible_values[0]));
        assert(indicator(self.possible_values[1]) <= indicator(other.possible_values[1]));
        assert(indicator(self.possible_values[2]) <= indicator(other.possible_values[2]));
        assert(indicator(self.possible_values[3]) <= indicator(other.possible_values[3]));
        assert(indicator(self.possible_values[4]) <= indicator(other.possible_values[4]));
        assert(indicator(self.possible_values[5]) <= indicator(other.possible_values[5]));
        assert(indicator(self.possible_values[6]) <= indicator(other.possible_values[6]));
        assert(indicator(self.possible_values[7]) <= indicator(other.possible_values[7]));
        assert(indicator(self.possible_values[8]) <= indicator(other.possible_values[8]));
        if self.count() == other.count() {
            assert forall|i: int| 0 <= i < 9 implies self.possible_values[i]
                == other.possible_values[i] by {
                assert(indicator(self.possible_values[i]) == indicator(other.possible_values[i]));
            }
            assert(self.possible_values =~= other.possible_values);
        }
    }

    /// Eliminating a digit removes that digit and keeps all others.
    pub proof fn lemma_eliminate(self, d: int)
        requires
            1 <= d <= 9,
        ensures
            forall|e: int|
                self.eliminate_spec(d).allows_spec(e) <==> (self.allows_spec(e) && e != d),
            self.eliminate_spec(d).subset_of(self),
    {
    }

    /// A cell set to `d` allows exactly `d`, and resolves to `d`.
    pub proof fn lemma_set(d: int)
        requires
            1 <= d <= 9,
        ensures
            forall|e: int| Cell::set_spec(d).allows_spec(e) <==> e == d,
            Cell::set_spec(d).count() == 1,
            Cell::set_spec(d).value_spec() == d,
    {
        assert forall|e: int| Cell::set_spec(d).allows_spec(e) <==> e == d by {
            assert(Cell::set_spec(d).possible_values[d - 1]);
        }
    }

    /// Setting a cell to one of its own candidates shrinks its set.
    pub proof fn lemma_set_subset(self, d: int)
        requires
            self.allows_spec(d),
        ensures
            Cell::set_spec(d).subset_of(self),
    {
        Cell::lemma_set(d);
    }

    /// A resolved value is always a digit the cell still allows, from a
    /// count of exactly one; 0 stands for an unresolved cell.
    pub proof fn lemma_value(self)
        ensures
            self.value_spec() == 0 || (1 <= self.value_spec() <= 9 && self.allows_spec(
                self.value_spec(),
            ) && self.count() == 1),
    {
    }

    /// A cell that allows some digit has at least one candidate.
    pub proof fn lemma_allows_count(self, d: int)
        requires
            self.allows_spec(d),
        ensures
            self.count() >= 1,
    {
        assert(indicator(self.possible_values[d - 1]) == 1);
    }

    /// A resolved cell allows no digit besides its value.
    pub proof fn lemma_value_unique(self, e: int)
        requires
            self.value_spec() != 0,
            self.allows_spec(e),
        ensures
            e == self.value_spec(),
    {
        self.lemma_value();
        if e != self.value_spec() {
            assert(self.possible_values[e - 1] && self.possible_values[self.value_spec() - 1]);
            assert(indicator(self.possible_values[e - 1]) + indicator(
                self.possible_values[self.value_spec() - 1],
            ) == 2);
            assert(self.count() >= 2);
            assert(false);
        }
    }

    /// The cell with digit `d` allowed in addition.
    pub open spec fn with_digit(self, d: int) -> Cell {
        Cell { possible_values: vstd::array::spec_array_update(self.possible_values, d - 1, true) }
    }

    /// A cell with no candidate at all.
    pub open spec fn no_candidates() -> Cell {
        Cell { possible_values: uniform_flags(false) }
    }

    /// Allowing one digit more grows the candidate set by that digit
    /// and raises the count by one.
    pub proof fn lemma_with_digit(self, d: int)
        requires
            1 <= d <= 9,
            !self.allows_spec(d),
        ensures
            self.with_digit(d).count() == self.count() + 1,
            forall|e: int| self.with_digit(d).allows_spec(e) <==> (self.allows_spec(e) || e == d),
    {
    }

    /// The empty candidate set: no digits, count zero.
    pub proof fn lemma_no_candidates()
        ensures
            Cell::no_candidates().count() == 0,
            forall|e: int| !Cell::no_candidates().allows_spec(e),
    {
    }

    /// Shrinking a resolved cell can only keep its value or empty it;
    /// it can never resolve to a different digit.
    pub proof fn lemma_value_subset(self, other: Cell)
        requires
            self.subset_of(other),
            other.value_spec() != 0,
        ensures
            self.value_spec() == other.value_spec() || self.value_spec() == 0,
    {
        other.lemma_value();
        self.lemma_subset_count(other);
    }
}

/// A one-element sequence holding `d` when the flag is on, else empty.
pub open spec fn digit_if(b: bool, d: usize) -> Seq<usize> {
    if b {
        seq![d]
    } else {
        Seq::empty()
    }
}

} // verus!
