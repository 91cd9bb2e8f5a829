use sudoku::grid::Game;

// A solved grid with the center 3x3 block blanked out; the embedded
// solution is the full grid.
const EASY: &str = "123456789456789123789123456234000891567000234891000567345678912678912345912345678,123456789456789123789123456234567891567891234891234567345678912678912345912345678";

// 170 characters long but with one non-digit in the clue section.
const MALFORMED: &str = "1234567894567891237891234562340008915670x0234891000567345678912678912345912345678,1234567894567891237891234562345678915678912348912345673456789126789123459123456781111111";

#[test]
fn fresh_grid_scores_729() {
    let game = Game::new();
    assert_eq!(game.score(), 729);
}

#[test]
fn load_applies_clues_and_stores_the_solution() {
    let mut game = Game::new();
    assert!(game.load(EASY).is_ok());
    // 72 clues went from nine candidates to one: 729 - 72 * 8
    assert_eq!(game.score(), 153);
    // a clue cell is already resolved
    let x: usize = 0;
    let y: usize = 0;
    assert_eq!(game.get(&x, &y).get_current_val(), 1);
    let x: usize = 8;
    assert_eq!(game.get(&x, &y).get_current_val(), 9);
    // a blanked cell still allows everything
    let x: usize = 4;
    let y: usize = 4;
    assert_eq!(game.get(&x, &y).possible_values().len(), 9);
    // the solution digits were copied verbatim
    assert_eq!(game.solution[0], 1);
    assert_eq!(game.solution[4 + 4 * 9], 9);
    assert_eq!(game.solution[80], 8);
}

#[test]
fn malformed_record_is_rejected_without_change() {
    let mut game = Game::new();
    assert!(game.load(MALFORMED).is_err());
    assert_eq!(game.score(), 729);
}

#[test]
fn short_record_is_rejected() {
    let mut game = Game::new();
    assert!(game.load("123456789,123").is_err());
    assert!(game.load("").is_err());
    // exactly 162 characters: one short of a full record
    let clues = "0".repeat(81);
    let sol = "1".repeat(80);
    let record = format!("{},{}", clues, sol);
    assert_eq!(record.len(), 162);
    assert!(game.load(&record).is_err());
}

#[test]
fn non_digit_in_solution_section_is_rejected() {
    let mut game = Game::new();
    let clues = "0".repeat(81);
    let sol = format!("{}{}{}", "1".repeat(40), "0", "1".repeat(40));
    // a zero is no valid solution digit
    let record = format!("{},{}", clues, sol);
    assert!(game.load(&record).is_err());
    let record = format!("{},{}", clues, "9".repeat(81));
    assert!(game.load(&record).is_ok());
}

#[test]
fn separator_position_is_ignored() {
    let mut game = Game::new();
    let clues = "0".repeat(81);
    let record = format!("{}Z{}", clues, "5".repeat(81));
    assert!(game.load(&record).is_ok());
    assert_eq!(game.solution[17], 5);
}

#[test]
fn set_forces_a_cell() {
    let mut game = Game::new();
    let x: usize = 3;
    let y: usize = 7;
    let num: usize = 6;
    game.set(&x, &y, &num);
    assert_eq!(game.get(&x, &y).get_current_val(), 6);
    assert_eq!(game.score(), 729 - 8);
}

#[test]
fn get_mut_edits_the_cell_in_place() {
    let mut game = Game::new();
    let x: usize = 2;
    let y: usize = 5;
    game.get_mut(&x, &y).eliminate(&9);
    assert!(!game.get(&x, &y).allows(&9));
    assert_eq!(game.score(), 728);
}
