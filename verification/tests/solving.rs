use sudoku::{Pass, Sudoku};

fn board_of(line: &str) -> Sudoku {
    let digits: Vec<u8> = line.bytes().map(|b| b - b'0').collect();
    match Sudoku::from_digits(&digits) {
        Ok(board) => board,
        Err(e) => panic!("fixture does not build: {:?}", e),
    }
}

fn digits_of(board: &Sudoku) -> String {
    board.read_digits().iter().map(|d| (b'0' + d) as char).collect()
}

fn is_peer(a: usize, b: usize) -> bool {
    a != b
        && (a / 9 == b / 9
            || a % 9 == b % 9
            || (a / 27 == b / 27 && (a % 9) / 3 == (b % 9) / 3))
}

fn is_solution(grid: &[u8]) -> bool {
    grid.len() == 81
        && grid.iter().all(|d| (1..=9).contains(d))
        && (0..81).all(|a| (0..81).all(|b| !is_peer(a, b) || grid[a] != grid[b]))
}

fn keeps(grid: &[u8], line: &str) -> bool {
    line.bytes().zip(grid).all(|(ch, d)| ch == b'0' || ch - b'0' == *d)
}

/// A search of its own, cell by cell and digit by digit.
fn completable(grid: &mut Vec<u8>, from: usize) -> bool {
    let mut i = from;
    while i < 81 && grid[i] != 0 {
        i += 1;
    }
    if i == 81 {
        return true;
    }
    for d in 1..=9u8 {
        if (0..81).all(|j| !is_peer(i, j) || grid[j] != d) {
            grid[i] = d;
            if completable(grid, i + 1) {
                return true;
            }
            grid[i] = 0;
        }
    }
    false
}

const EASY: &str =
    "003020600900305001001806400008102900700000008006708200002609500800203009005010300";
const EASY_SOLVED: &str =
    "483921657967345821251876493548132976729564138136798245372689514814253769695417382";
const HARD: &str =
    "400000805030000000000700000020000060000080400000010000000603070500200000104000000";
const HARD_SOLVED: &str =
    "417369825632158947958724316825437169791586432346912758289643571573291684164875293";
const SPARSE: &str =
    "000000000000003085001020000000507000004000100090000000500000073002010000000040009";
const SPARSE_SOLVED: &str =
    "987654321246173985351928746128537694634892157795461832519286473472319568863745219";
const ONE_OPEN: &str =
    "483921657967345821251876493548132976729504138136798245372689514814253769695417382";
const HARD_SPOILT: &str =
    "400000805030000000001700000020000060000080400000010000000603070500200000104000000";
const EASY_SPOILT: &str =
    "503020600900305001001806400008102900700000008006708200002609500800203009005010300";
const NEARLY_FULL_SPOILT: &str =
    "483921657961345820250876493540132976729564138136798045370689514814253769695417382";
const ONES_AND_TWOS: &str =
    "000000000000100020000020100010000000020000000000000000001000000002000000000000000";

#[test]
fn empty_board_is_completed_to_a_valid_grid() {
    let mut board = Sudoku::new();
    assert!(board.solve());
    let grid = board.read_digits();
    assert!(is_solution(&grid));
    assert!(board.field().iter().all(|m| m.count_ones() == 1 && *m <= 0x100));
    assert_eq!(board.notes(), &[0; 81]);
}

#[test]
fn empty_line_is_completed_to_a_valid_grid() {
    let mut board = board_of(&"0".repeat(81));
    assert!(board.solve());
    assert!(is_solution(&board.read_digits()));
}

#[test]
fn one_open_cell_gets_its_only_digit() {
    let mut board = board_of(ONE_OPEN);
    assert_eq!(board.field()[40], 0);
    assert!(board.solve());
    assert_eq!(board.read_digits()[40], 6);
    assert_eq!(digits_of(&board), EASY_SOLVED);
}

#[test]
fn unique_solutions_are_found_exactly() {
    for (puzzle, solved) in [(EASY, EASY_SOLVED), (HARD, HARD_SOLVED), (SPARSE, SPARSE_SOLVED)] {
        let mut board = board_of(puzzle);
        assert!(board.solve());
        assert_eq!(digits_of(&board), solved);
        assert!(is_solution(&board.read_digits()));
        assert!(keeps(&board.read_digits(), puzzle));
    }
}

#[test]
fn a_solved_grid_stays_as_it_is() {
    let mut board = board_of(EASY_SOLVED);
    assert!(board.solve());
    assert_eq!(digits_of(&board), EASY_SOLVED);
}

#[test]
fn empty_board_gets_the_first_grid_in_search_order() {
    let mut board = Sudoku::new();
    assert!(board.solve());
    assert_eq!(
        digits_of(&board),
        "123456789456789123789123456231674895875912364694538217317265948542897631968341572"
    );
}

#[test]
fn solving_is_deterministic() {
    let mut first = Sudoku::new();
    let mut second = Sudoku::new();
    assert!(first.solve());
    assert!(second.solve());
    assert_eq!(first.field(), second.field());
}

#[test]
fn search_exhausts_an_unsatisfiable_puzzle() {
    let mut board = board_of(HARD_SPOILT);
    assert!(!board.solve());
}

#[test]
fn propagation_alone_refutes_a_spoilt_easy_puzzle() {
    let mut board = board_of(EASY_SPOILT);
    assert!(!board.solve());
}

#[test]
fn two_digits_for_one_cell_have_no_solution() {
    let mut board = board_of(ONES_AND_TWOS);
    assert!(!board.solve());
    let mut grid: Vec<u8> = ONES_AND_TWOS.bytes().map(|b| b - b'0').collect();
    assert!(!completable(&mut grid, 0));
}

#[test]
fn failure_agrees_with_exhaustive_search() {
    let mut board = board_of(NEARLY_FULL_SPOILT);
    assert!(!board.solve());
    let mut grid: Vec<u8> = NEARLY_FULL_SPOILT.bytes().map(|b| b - b'0').collect();
    assert!(!completable(&mut grid, 0));
}

#[test]
fn success_agrees_with_exhaustive_search() {
    let mut grid: Vec<u8> = ONE_OPEN.bytes().map(|b| b - b'0').collect();
    assert!(completable(&mut grid, 0));
    let mut board = board_of(ONE_OPEN);
    assert!(board.solve());
    assert_eq!(board.read_digits(), grid);
}

#[test]
fn branch_cell_is_the_first_with_the_fewest_candidates() {
    let hard = board_of(HARD);
    let cell = hard.branch_cell();
    assert_eq!(cell, Some(55));
    assert_eq!(hard.notes()[55].count_ones(), 2);
    for j in 0..81 {
        if hard.field()[j] == 0 {
            assert!(hard.notes()[j].count_ones() >= 2);
            if j < 55 {
                assert!(hard.notes()[j].count_ones() > 2);
            }
        }
    }
    assert_eq!(board_of(EASY).branch_cell(), Some(41));
    assert_eq!(Sudoku::new().branch_cell(), Some(0));
}

#[test]
fn branch_cell_is_none_on_a_full_board() {
    assert_eq!(board_of(EASY_SOLVED).branch_cell(), None);
}

#[test]
fn a_full_board_is_quiet() {
    let mut board = board_of(EASY_SOLVED);
    assert_eq!(board.singles(), Pass::Quiet);
    assert_eq!(board.hsingles(), Pass::Quiet);
    assert!(board.propagate());
}
