use sudoku::cell::Cell;

#[test]
fn new_cell_allows_every_digit() {
    let c = Cell::new();
    for d in 1..10usize {
        assert!(c.allows(&d));
    }
    assert_eq!(c.possible_values().len(), 9);
    assert_eq!(c.get_current_val(), 0);
}

#[test]
fn eliminate_removes_only_that_digit() {
    let mut c = Cell::new();
    c.eliminate(&4);
    assert!(!c.allows(&4));
    for d in 1..10usize {
        if d != 4 {
            assert!(c.allows(&d));
        }
    }
    assert_eq!(c.possible_values(), vec![1, 2, 3, 5, 6, 7, 8, 9]);
}

#[test]
fn eliminate_is_a_no_op_when_already_clear() {
    let mut c = Cell::new();
    c.eliminate(&4);
    c.eliminate(&4);
    assert!(!c.allows(&4));
    assert_eq!(c.possible_values().len(), 8);
}

#[test]
fn set_then_current_value_yields_the_digit() {
    for d in 1..10usize {
        let mut c = Cell::new();
        c.set(&d);
        assert_eq!(c.get_current_val(), d);
        assert_eq!(c.possible_values(), vec![d]);
    }
}

#[test]
fn set_overrides_earlier_eliminations() {
    let mut c = Cell::new();
    c.eliminate(&7);
    c.set(&7);
    assert_eq!(c.get_current_val(), 7);
}

#[test]
fn ambiguous_cell_has_no_current_value() {
    let mut c = Cell::new();
    for d in 1..8usize {
        c.eliminate(&d);
    }
    // digits 8 and 9 remain
    assert_eq!(c.get_current_val(), 0);
    assert_eq!(c.possible_values(), vec![8, 9]);
}

#[test]
fn emptied_cell_has_no_current_value() {
    let mut c = Cell::new();
    for d in 1..10usize {
        c.eliminate(&d);
    }
    assert_eq!(c.get_current_val(), 0);
    assert_eq!(c.possible_values().len(), 0);
}

#[test]
fn subset_test_follows_the_candidate_sets() {
    let mut a = Cell::new();
    let mut b = Cell::new();
    a.eliminate(&1);
    a.eliminate(&2);
    assert!(a.is_subset_of(&b));
    assert!(!b.is_subset_of(&a));
    b.eliminate(&3);
    assert!(!a.is_subset_of(&b));
    assert!(b.is_subset_of(&Cell::new()));
}
