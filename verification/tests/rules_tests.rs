use sudoku::grid::Game;
use sudoku::groups::Group;

// Needs hidden singles: peer exclusion alone cannot finish this one.
const HIDDEN: &str = "000050709406700000080000000200500001560090000090004067045000900070002040000300000,123456789456789123789123456234567891567891234891234567345678912678912345912345678";

// Two clues of the same digit in one row: contradictory.
const CONTRADICTION: &str = "550000000000000000000000000000000000000000000000000000000000000000000000000000000,123456789456789123789123456234567891567891234891234567345678912678912345912345678";

#[test]
fn score_never_increases_across_passes() {
    let mut game = Game::new();
    assert!(game.load(HIDDEN).is_ok());
    let mut last = game.score();
    assert_eq!(last, 537);
    for _ in 0..6 {
        game.iterate();
        let s = game.score();
        assert!(s <= last);
        last = s;
    }
    assert_eq!(last, 81);
}

#[test]
fn pass_scores_of_the_hidden_single_puzzle() {
    let mut game = Game::new();
    assert!(game.load(HIDDEN).is_ok());
    let mut scores = vec![game.score()];
    for _ in 0..4 {
        game.iterate();
        scores.push(game.score());
    }
    assert_eq!(scores, vec![537, 175, 121, 93, 81]);
}

#[test]
fn peer_exclusion_is_idempotent_after_a_fixed_point() {
    let mut game = Game::new();
    assert!(game.load(CONTRADICTION).is_ok());
    // run to stagnation
    assert!(game.solve().is_err());
    let stuck = game.score();
    // a full extra pass finds nothing more
    game.iterate();
    assert_eq!(game.score(), stuck);
    // and peer exclusion alone certainly does not
    game.peer_exclusion();
    assert_eq!(game.score(), stuck);
    game.peer_exclusion();
    assert_eq!(game.score(), stuck);
}

#[test]
fn peer_exclusion_removes_resolved_peer_values() {
    let mut game = Game::new();
    let x0: usize = 0;
    let y0: usize = 0;
    let num: usize = 5;
    game.set(&x0, &y0, &num);
    game.peer_exclusion();
    // same row, same column, same block
    let x: usize = 8;
    assert!(!game.get(&x, &y0).allows(&5));
    let y: usize = 8;
    assert!(!game.get(&x0, &y).allows(&5));
    let x: usize = 2;
    let y: usize = 2;
    assert!(!game.get(&x, &y).allows(&5));
    // an unrelated cell keeps the candidate
    let x: usize = 3;
    let y: usize = 4;
    assert!(game.get(&x, &y).allows(&5));
}

#[test]
fn hidden_single_pins_the_only_possible_cell() {
    let mut game = Game::new();
    // remove digit 1 from every row-0 cell but the last
    for x in 0..8usize {
        let y: usize = 0;
        game.get_mut(&x, &y).eliminate(&1);
    }
    game.hidden_singles(Group::Row);
    let x: usize = 8;
    let y: usize = 0;
    assert_eq!(game.get(&x, &y).get_current_val(), 1);
}

#[test]
fn hidden_single_by_column_pins_too() {
    let mut game = Game::new();
    for y in 1..9usize {
        let x: usize = 4;
        game.get_mut(&x, &y).eliminate(&7);
    }
    game.hidden_singles(Group::Column);
    let x: usize = 4;
    let y: usize = 0;
    assert_eq!(game.get(&x, &y).get_current_val(), 7);
}

#[test]
fn naked_pair_clears_the_rest_of_the_group() {
    let mut game = Game::new();
    // cells (0,0) and (1,0) both hold exactly {1, 2}
    for x in 0..2usize {
        let y: usize = 0;
        for d in 3..10usize {
            game.get_mut(&x, &y).eliminate(&d);
        }
    }
    game.subset_exclusion();
    // every other cell of row 0 lost candidates 1 and 2
    for x in 2..9usize {
        let y: usize = 0;
        assert!(!game.get(&x, &y).allows(&1));
        assert!(!game.get(&x, &y).allows(&2));
    }
    // the pair itself kept them
    let x: usize = 0;
    let y: usize = 0;
    assert!(game.get(&x, &y).allows(&1) && game.get(&x, &y).allows(&2));
}

#[test]
fn a_clue_is_never_changed_to_a_different_value() {
    const EASY: &str = "123456789456789123789123456234000891567000234891000567345678912678912345912345678,123456789456789123789123456234567891567891234891234567345678912678912345912345678";
    let mut game = Game::new();
    assert!(game.load(EASY).is_ok());
    let x: usize = 0;
    let y: usize = 0;
    assert_eq!(game.get(&x, &y).get_current_val(), 1);
    let x8: usize = 8;
    let y8: usize = 8;
    assert_eq!(game.get(&x8, &y8).get_current_val(), 8);
    for _ in 0..3 {
        game.iterate();
        assert_eq!(game.get(&x, &y).get_current_val(), 1);
        assert_eq!(game.get(&x8, &y8).get_current_val(), 8);
    }
}
