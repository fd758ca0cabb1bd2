use sudoku::{Pass, Sudoku};

fn board_of(line: &str) -> Sudoku {
    let digits: Vec<u8> = line.bytes().map(|b| b - b'0').collect();
    match Sudoku::from_digits(&digits) {
        Ok(board) => board,
        Err(e) => panic!("fixture does not build: {:?}", e),
    }
}

fn digits_of(board: &Sudoku) -> String {
    board.read_digits().iter().map(|d| (b'0' + d) as char).collect()
}

const ROW_OF_EIGHT: &str =
    "123456780000000000000000000000000000000000000000000000000000000000000000000000000";
const DEAD_CORNER: &str =
    "123456780000000000000000000000000009000000000000000000000000000000000000000000000";
const ONES: &str =
    "000000000000100000000000100010000000000000000000000000001000000000000000000000000";
const ONES_AND_TWOS: &str =
    "000000000000100020000020100010000000020000000000000000001000000002000000000000000";
const EASY: &str =
    "003020600900305001001806400008102900700000008006708200002609500800203009005010300";
const EASY_SOLVED: &str =
    "483921657967345821251876493548132976729564138136798245372689514814253769695417382";

#[test]
fn singles_places_a_naked_single() {
    let mut board = board_of(ROW_OF_EIGHT);
    assert_eq!(board.notes()[8], 0x100);
    assert_eq!(board.singles(), Pass::Progress);
    assert_eq!(board.field()[8], 0x100);
    assert_eq!(board.notes()[8], 0);
    assert_eq!(board.notes()[17], 0b000111111);
    assert_eq!(board.notes()[80], 0b011111111);
    assert_eq!(
        digits_of(&board),
        "123456789000000000000000000000000000000000000000000000000000000000000000000000000"
    );
}

#[test]
fn singles_is_quiet_without_a_naked_single() {
    let mut board = board_of(ONES);
    let before = board.clone();
    assert_eq!(board.singles(), Pass::Quiet);
    assert_eq!(board.field(), before.field());
    assert_eq!(board.notes(), before.notes());
}

#[test]
fn singles_reports_a_cell_without_candidates() {
    let mut board = board_of(DEAD_CORNER);
    assert_eq!(board.field()[8], 0);
    assert_eq!(board.notes()[8], 0);
    assert_eq!(board.singles(), Pass::Contradiction);
}

#[test]
fn hsinglesblock_places_a_hidden_single_in_a_row() {
    let mut board = board_of(ONES);
    assert_eq!(board.notes()[0], 0x1ff);
    assert_eq!(board.hsinglesblock(0, 1, 0), Pass::Progress);
    assert_eq!(board.field()[0], 1);
    assert_eq!(&board.notes()[0..9], &[0, 510, 510, 510, 510, 510, 510, 510, 510]);
    assert_eq!(board.notes()[9], 510);
    assert_eq!(board.notes()[72], 510);
}

#[test]
fn hsinglesblock_is_quiet_on_an_empty_board() {
    let mut board = Sudoku::new();
    for i in 0..9 {
        assert_eq!(board.hsinglesblock(i * 9, 1, 0), Pass::Quiet);
        assert_eq!(board.hsinglesblock(i, 9, 0), Pass::Quiet);
        assert_eq!(board.hsinglesblock((i / 3) * 27 + (i % 3) * 3, 1, 6), Pass::Quiet);
    }
    assert_eq!(board.field(), &[0; 81]);
    assert_eq!(board.notes(), &[0x1ff; 81]);
}

#[test]
fn hsinglesblock_walks_a_column_and_a_box() {
    // 1 is shut out of the column of cell 0 everywhere but in cell 0.
    let mut column = board_of(ONES);
    assert_eq!(column.hsinglesblock(0, 9, 0), Pass::Progress);
    assert_eq!(column.field()[0], 1);
    let mut boxed = board_of(ONES);
    assert_eq!(boxed.hsinglesblock(0, 1, 6), Pass::Progress);
    assert_eq!(boxed.field()[0], 1);
}

#[test]
fn hsinglesblock_finds_two_digits_for_one_cell() {
    let mut board = board_of(ONES_AND_TWOS);
    assert_eq!(board.singles(), Pass::Quiet);
    assert_eq!(board.hsinglesblock(0, 1, 0), Pass::Contradiction);
    assert_eq!(board.field()[0], 0);
}

#[test]
fn hsingles_stops_at_the_first_block_that_fires() {
    let mut board = board_of(ONES);
    assert_eq!(board.hsingles(), Pass::Progress);
    assert_eq!(
        digits_of(&board),
        "100000000000100000000000100010000000000000000000000000001000000000000000000000000"
    );
}

#[test]
fn hsingles_is_quiet_on_an_empty_board() {
    let mut board = Sudoku::new();
    assert_eq!(board.hsingles(), Pass::Quiet);
    assert_eq!(board.notes(), &[0x1ff; 81]);
}

#[test]
fn propagate_solves_an_easy_puzzle() {
    let mut board = board_of(EASY);
    assert!(board.propagate());
    assert_eq!(digits_of(&board), EASY_SOLVED);
    assert_eq!(board.notes(), &[0; 81]);
}

#[test]
fn propagate_reaches_a_fixed_point() {
    let mut board = board_of(ROW_OF_EIGHT);
    assert!(board.propagate());
    assert_eq!(
        digits_of(&board),
        "123456789000000000000000000000000000000000000000000000000000000000000000000000000"
    );
    let expected: [i32; 81] = [
        0, 0, 0, 0, 0, 0, 0, 0, 0, 504, 504, 504, 455, 455, 455, 63, 63, 63, 504, 504, 504, 455,
        455, 455, 63, 63, 63, 510, 509, 507, 503, 495, 479, 447, 383, 255, 510, 509, 507, 503, 495,
        479, 447, 383, 255, 510, 509, 507, 503, 495, 479, 447, 383, 255, 510, 509, 507, 503, 495,
        479, 447, 383, 255, 510, 509, 507, 503, 495, 479, 447, 383, 255, 510, 509, 507, 503, 495,
        479, 447, 383, 255,
    ];
    assert_eq!(board.notes(), &expected);
    assert_eq!(board.singles(), Pass::Quiet);
    assert_eq!(board.hsingles(), Pass::Quiet);
}

#[test]
fn propagate_twice_changes_nothing() {
    for line in [ROW_OF_EIGHT, ONES, EASY] {
        let mut board = board_of(line);
        assert!(board.propagate());
        let once = board.clone();
        assert!(board.propagate());
        assert_eq!(board.field(), once.field());
        assert_eq!(board.notes(), once.notes());
    }
    let mut empty = Sudoku::new();
    assert!(empty.propagate());
    assert_eq!(empty.field(), &[0; 81]);
    assert_eq!(empty.notes(), &[0x1ff; 81]);
}

#[test]
fn propagate_after_a_contradiction_may_go_on() {
    // Cell 8 has no candidate left. The scan fills cell 1 before it gets
    // there, which leaves cell 0 with a single candidate for the next scan.
    let mut board = board_of(
        "003456780000000000000000000020000001090000002000000009900000000000000000000000000",
    );
    assert_eq!(board.notes()[0], 0b000000011);
    assert_eq!(board.notes()[1], 0b000000001);
    assert_eq!(board.notes()[8], 0);
    assert!(!board.propagate());
    assert_eq!(&digits_of(&board)[..9], "013456780");
    assert!(!board.propagate());
    assert_eq!(&digits_of(&board)[..9], "213456780");
    assert!(!board.solve());
}

#[test]
fn propagate_reports_a_contradiction() {
    let mut dead = board_of(DEAD_CORNER);
    assert!(!dead.propagate());
    let mut crowded = board_of(ONES_AND_TWOS);
    assert!(!crowded.propagate());
}
