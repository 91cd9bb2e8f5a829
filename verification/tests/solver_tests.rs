use sudoku::grid::Game;
use sudoku::solver::solve;

// A solved grid with the center 3x3 block blanked; everything else is
// a clue, so plain peer exclusion refills the block in one pass.
const EASY: &str = "123456789456789123789123456234000891567000234891000567345678912678912345912345678,123456789456789123789123456234567891567891234891234567345678912678912345912345678";

// Solvable only with hidden singles: peer exclusion alone stalls.
const HIDDEN: &str = "000050709406700000080000000200500001560090000090004067045000900070002040000300000,123456789456789123789123456234567891567891234891234567345678912678912345912345678";

// Two clues of the same digit in one row: contradictory, must get stuck.
const CONTRADICTION: &str = "550000000000000000000000000000000000000000000000000000000000000000000000000000000,123456789456789123789123456234567891567891234891234567345678912678912345912345678";

// 170 characters with one non-digit clue.
const MALFORMED: &str = "1234567894567891237891234562340008915670x0234891000567345678912678912345912345678,1234567894567891237891234562345678915678912348912345673456789126789123459123456781111111";

// The easy record, with one altered digit in its solution section.
const MISMATCH: &str = "123456789456789123789123456234000891567000234891000567345678912678912345912345678,123466789456789123789123456234567891567891234891234567345678912678912345912345678";

// Every cell given as a clue.
const FULL: &str = "123456789456789123789123456234567891567891234891234567345678912678912345912345678,123456789456789123789123456234567891567891234891234567345678912678912345912345678";

#[test]
fn easy_puzzle_solves_and_matches_its_solution() {
    let mut game = Game::new();
    assert!(game.load(EASY).is_ok());
    assert_eq!(game.solve(), Ok("success"));
    assert_eq!(game.score(), 81);
    assert_eq!(game.check(), Ok("Solution matches"));
    // spot-check the refilled center block
    let x: usize = 4;
    let y: usize = 4;
    assert_eq!(game.get(&x, &y).get_current_val(), 9);
    assert!(solve(EASY));
}

#[test]
fn hidden_single_puzzle_still_reaches_solved() {
    let mut game = Game::new();
    assert!(game.load(HIDDEN).is_ok());
    assert!(game.solve().is_ok());
    assert_eq!(game.score(), 81);
    assert!(game.check().is_ok());
    assert!(solve(HIDDEN));
}

#[test]
fn every_cell_matches_after_solving() {
    let mut game = Game::new();
    assert!(game.load(HIDDEN).is_ok());
    assert!(game.solve().is_ok());
    for y in 0..9usize {
        for x in 0..9usize {
            assert_eq!(game.get(&x, &y).get_current_val(), game.solution[x + y * 9]);
        }
    }
}

#[test]
fn contradictory_record_gets_stuck_not_solved() {
    let mut game = Game::new();
    assert!(game.load(CONTRADICTION).is_ok());
    let r = game.solve();
    assert_eq!(r, Err("failure"));
    assert_ne!(game.score(), 81);
    assert_eq!(game.score(), 693);
    assert!(!solve(CONTRADICTION));
}

#[test]
fn malformed_record_is_a_parse_error_not_a_panic() {
    assert_eq!(MALFORMED.len(), 170);
    assert!(!solve(MALFORMED));
    let mut game = Game::new();
    assert!(game.load(MALFORMED).is_err());
}

#[test]
fn wrong_reference_solution_fails_the_check() {
    let mut game = Game::new();
    assert!(game.load(MISMATCH).is_ok());
    // propagation still solves the puzzle itself
    assert!(game.solve().is_ok());
    let failure = match game.check() {
        Ok(_) => panic!("check should report the doctored cell"),
        Err(f) => f,
    };
    assert_eq!(failure.x, 4);
    assert_eq!(failure.y, 0);
    assert_eq!(failure.actual, 5);
    assert_eq!(failure.expected, 6);
    assert!(!solve(MISMATCH));
}

#[test]
fn puzzle_needing_naked_subsets_solves() {
    // peer exclusion and hidden singles alone stall on this one; the
    // naked-subset rule unlocks it
    const SUBSET: &str = "020406080006009003780000050000000001000000230800034060045008000000000300900005078,123456789456789123789123456234567891567891234891234567345678912678912345912345678";
    let mut game = Game::new();
    assert!(game.load(SUBSET).is_ok());
    assert_eq!(game.score(), 529);
    assert!(game.solve().is_ok());
    assert!(game.check().is_ok());
    assert!(solve(SUBSET));
}

#[test]
fn fully_given_grid_is_solved_immediately() {
    let mut game = Game::new();
    assert!(game.load(FULL).is_ok());
    assert_eq!(game.score(), 81);
    assert!(game.solve().is_ok());
    assert!(game.check().is_ok());
    assert!(solve(FULL));
}

#[test]
fn batch_of_records_counts_passes_and_failures() {
    // what the surrounding batch runner does with a record stream
    let records = vec![EASY, CONTRADICTION, HIDDEN, MALFORMED, MISMATCH];
    let mut passed: usize = 0;
    let mut total: usize = 0;
    let mut failures: Vec<&str> = Vec::new();
    for r in records {
        if solve(r) {
            passed += 1;
        } else {
            failures.push(r);
        }
        total += 1;
    }
    assert_eq!(total, 5);
    assert_eq!(passed, 2);
    assert_eq!(failures, vec![CONTRADICTION, MALFORMED, MISMATCH]);
}
