use sudoku::mask::bit;
use sudoku::sudoku::remove_adjacent;
use sudoku::Sudoku;

const PEERS_OF_40: [usize; 20] =
    [36, 37, 38, 39, 41, 42, 43, 44, 4, 13, 22, 31, 49, 58, 67, 76, 30, 32, 48, 50];

fn is_peer(a: usize, b: usize) -> bool {
    a != b
        && (a / 9 == b / 9
            || a % 9 == b % 9
            || (a / 27 == b / 27 && (a % 9) / 3 == (b % 9) / 3))
}

fn peers_differ(board: &Sudoku) -> bool {
    let field = board.field();
    for a in 0..81 {
        for b in 0..81 {
            if is_peer(a, b) && field[a] != 0 && field[a] == field[b] {
                return false;
            }
        }
    }
    true
}

#[test]
fn new_board_is_empty_with_all_candidates() {
    let board = Sudoku::new();
    assert_eq!(board.field(), &[0; 81]);
    assert_eq!(board.notes(), &[0x1ff; 81]);
    assert_eq!(board.read_digits(), vec![0u8; 81]);
}

#[test]
fn remove_adjacent_clears_row_column_and_box() {
    let mut notes = [0x1ff; 81];
    remove_adjacent(&mut notes, 40, 16);
    for j in 0..81 {
        let touched = j == 40 || PEERS_OF_40.contains(&j);
        assert_eq!(notes[j], if touched { 0x1ef } else { 0x1ff }, "cell {}", j);
    }
}

#[test]
fn remove_adjacent_in_a_corner() {
    let mut notes = [0x1ff; 81];
    remove_adjacent(&mut notes, 80, 0x100);
    let mut touched = 0;
    for j in 0..81 {
        if notes[j] == 0x0ff {
            touched += 1;
            assert!(j == 80 || is_peer(80, j));
        } else {
            assert_eq!(notes[j], 0x1ff);
            assert!(!is_peer(80, j));
        }
    }
    assert_eq!(touched, 21);
}

#[test]
fn remove_adjacent_takes_several_digits_at_once() {
    let mut notes = [0x1ff; 81];
    notes[3] = 0b000000110;
    remove_adjacent(&mut notes, 0, 0b000000011);
    assert_eq!(notes[0], 0x1fc);
    assert_eq!(notes[3], 0b000000100);
    assert_eq!(notes[20], 0x1fc);
    assert_eq!(notes[72], 0x1fc);
    assert_eq!(notes[30], 0x1ff);
}

#[test]
fn put_writes_the_cell_and_strikes_the_peers() {
    let mut board = Sudoku::new();
    board.put(40, bit(5));
    for j in 0..81 {
        if j == 40 {
            assert_eq!(board.field()[j], 16);
            assert_eq!(board.notes()[j], 0);
        } else if PEERS_OF_40.contains(&j) {
            assert_eq!(board.field()[j], 0);
            assert_eq!(board.notes()[j], 0x1ef);
        } else {
            assert_eq!(board.field()[j], 0);
            assert_eq!(board.notes()[j], 0x1ff);
        }
    }
    assert_eq!(board.read_digits()[40], 5);
}

#[test]
fn peers_differ_after_every_put() {
    let solution = "483921657967345821251876493548132976729564138136798245372689514814253769695417382";
    let mut board = Sudoku::new();
    for (i, ch) in solution.bytes().enumerate() {
        let mask = bit(ch - b'0');
        assert_ne!(board.notes()[i] & mask, 0);
        board.put(i, mask);
        assert!(peers_differ(&board));
        for j in 0..81 {
            if board.field()[j] != 0 {
                assert_eq!(board.notes()[j], 0);
            }
            if is_peer(i, j) {
                assert_eq!(board.notes()[j] & mask, 0);
            }
        }
    }
    assert_eq!(board.to_line(), format!("{}\n", solution).into_bytes());
}

#[test]
fn clone_is_a_snapshot() {
    let mut board = Sudoku::new();
    board.put(0, bit(7));
    let snapshot = board.clone();
    board.put(80, bit(3));
    assert_eq!(snapshot.field()[80], 0);
    assert_eq!(snapshot.notes()[80], 0x1ff);
    assert_eq!(snapshot.field()[0], 64);
    assert_eq!(board.field()[80], 4);
}
