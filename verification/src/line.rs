//! Puzzles as text: 81 characters from '0' to '9', '0' for an empty cell. A
//! line of input or output is such a text and a line feed.

use vstd::prelude::*;
use vstd::slice::slice_to_vec;
use vstd::string::StringSliceAdditionalSpecFns;
use vstd::utf8::encode_utf8;
use crate::board::{initial, lemma_saturated};
use crate::construct::{
    clash_at, clean_before, constructed, givens, lemma_constructed_unique, ConstructError,
};
use crate::grid::{completes, is_cell};
use crate::mask::digit;
use crate::search::search;
use crate::sudoku::Sudoku;

verus! {

/// The value that a character of a line stands for: the digit for '0' to '9',
/// and 10, which is no digit, for every other byte.
pub open spec fn value_of(b: u8) -> u8 {
    if 48 <= b <= 57 {
        (b - 48) as u8
    } else {
        10u8
    }
}

/// The values of the first 81 characters of a line.
pub open spec fn values_of(line: Seq<u8>) -> Seq<u8> {
    Seq::new(81, |i: int| value_of(line[i]))
}

/// The line that shows 81 digits: their characters and a line feed.
pub open spec fn line_of(digits: Seq<int>) -> Seq<u8> {
    Seq::new(
        82,
        |i: int|
            if i < 81 {
                (digits[i] + 48) as u8
            } else {
                10u8
            },
    )
}

/// What reading a line yields: a line of 82 bytes is built from the values of
/// its first 81, and any other is of the wrong length.
pub open spec fn line_read(line: Seq<u8>, r: Result<Sudoku, ConstructError>) -> bool {
    if line.len() == 82 {
        constructed(values_of(line), r)
    } else {
        r == Err::<Sudoku, ConstructError>(ConstructError::WrongLength)
    }
}

/// What reading a puzzle from a text yields: the values of its first 81
/// bytes build the board, whether or not one more byte follows them, and a
/// text of any other length is of the wrong length.
pub open spec fn text_read(text: Seq<u8>, r: Result<Sudoku, ConstructError>) -> bool {
    if text.len() == 81 || text.len() == 82 {
        constructed(values_of(text), r)
    } else {
        r == Err::<Sudoku, ConstructError>(ConstructError::WrongLength)
    }
}

/// The answer to one line of input.
#[derive(Debug, PartialEq, Eq)]
pub enum Answer {
    /// The line that shows the completed grid.
    Solved(Vec<u8>),
    /// Two peers were given the same digit.
    Unsolvable,
    /// The givens do not clash, yet no solution keeps them all.
    NoSolution,
    /// The line is not 82 bytes long or holds a character that is no digit;
    /// the fault says which.
    Malformed(ConstructError),
}

/// Which answer is due to a line.
pub open spec fn answers(line: Seq<u8>, a: Answer) -> bool {
    let v = values_of(line);
    match a {
        Answer::Malformed(ConstructError::WrongLength) => line.len() != 82,
        Answer::Malformed(ConstructError::IllegalDigit { at }) => line.len() == 82 && at < 81
            && clean_before(v, at as int) && v[at as int] > 9,
        Answer::Malformed(ConstructError::Contradiction { .. }) => false,
        Answer::Unsolvable => line.len() == 82 && exists|at: int|
            0 <= at < 81 && #[trigger] clean_before(v, at) && v[at] <= 9 && clash_at(v, at),
        Answer::NoSolution => {
            &&& line.len() == 82
            &&& clean_before(v, 81)
            &&& !search(initial(givens(v))).1
            &&& forall|g: Seq<int>| !#[trigger] completes(g, givens(v))
        },
        Answer::Solved(out) => {
            &&& line.len() == 82
            &&& clean_before(v, 81)
            &&& search(initial(givens(v))).1
            &&& out@ == line_of(search(initial(givens(v))).0.digits)
            &&& completes(search(initial(givens(v))).0.digits, givens(v))
        },
    }
}

/// The text printed when two peers were given the same digit.
pub open spec fn unsolvable_text() -> Seq<u8> {
    "Instance unsolveable\n".spec_bytes()
}

/// The text printed when the search found no solution.
pub open spec fn no_solution_text() -> Seq<u8> {
    "No solution found\n".spec_bytes()
}

impl Sudoku {
    /// Builds the board that a line describes. The line must be 82 bytes long;
    /// its first 81 bytes are read as by [`Sudoku::from_digits`], a byte that
    /// is no digit character counting as an illegal digit. The last byte is
    /// not looked at.
    pub fn from_line(line: &[u8]) -> (r: Result<Sudoku, ConstructError>)
        ensures
            line_read(line@, r),
    {
        if line.len() != 82 {
            return Err(ConstructError::WrongLength);
        }
        Sudoku::from_characters(line)
    }

    /// Builds the board from the first 81 bytes of a text, each read as a
    /// character: a digit character gives its value, any other byte a value
    /// that is no digit.
    fn from_characters(text: &[u8]) -> (r: Result<Sudoku, ConstructError>)
        requires
            text@.len() >= 81,
        ensures
            constructed(values_of(text@), r),
    {
        let mut values: Vec<u8> = Vec::new();
        let mut i: usize = 0;
        while i < 81
            invariant
                i <= 81,
                text@.len() >= 81,
                values@.len() == i,
                forall|j: int| 0 <= j < i ==> #[trigger] values@[j] == value_of(text@[j]),
            decreases 81 - i,
        {
            let ch = text[i];
            let value: u8 = if 48 <= ch && ch <= 57 {
                ch - 48
            } else {
                10
            };
            values.push(value);
            i += 1;
        }
        assert(values@ =~= values_of(text@));
        Sudoku::from_digits(values.as_slice())
    }

    /// The line that shows the board: the digit of each cell, '0' for an empty
    /// one, and a line feed.
    pub fn to_line(&self) -> (r: Vec<u8>)
        ensures
            r@ == line_of(self@.digits),
    {
        let mut out: Vec<u8> = Vec::new();
        let mut i: usize = 0;
        while i < 81
            invariant
                i <= 81,
                out@.len() == i,
                forall|j: int| 0 <= j < i ==> #[trigger] out@[j] == (self@.digits[j] + 48) as u8,
            decreases 81 - i,
        {
            let d = digit(self.field()[i]);
            out.push(d + 48);
            i += 1;
        }
        out.push(10);
        assert(out@ =~= line_of(self@.digits));
        out
    }
}

impl TryFrom<&String> for Sudoku {
    type Error = ConstructError;

    /// Builds the board that a text of 81 characters describes. One more
    /// byte may follow them, such as the line feed that ends a line; it is
    /// not looked at. A text of any other length is refused.
    fn try_from(line: &String) -> (r: Result<Sudoku, ConstructError>)
        ensures
            text_read(encode_utf8(line@), r),
    {
        let text = line.as_str().as_bytes();
        let r = if text.len() == 81 || text.len() == 82 {
            Sudoku::from_characters(text)
        } else {
            Err(ConstructError::WrongLength)
        };
        proof {
            let bytes = encode_utf8(line@);
            assert(text@ == bytes);
            assert(text_read(bytes, r));
            let other = choose|other: Result<Sudoku, ConstructError>| text_read(bytes, other);
            if bytes.len() == 81 || bytes.len() == 82 {
                lemma_constructed_unique(values_of(bytes), r, other);
            }
        }
        r
    }
}

impl vstd::std_specs::convert::TryFromSpecImpl<&String> for Sudoku {
    open spec fn obeys_try_from_spec() -> bool {
        true
    }

    open spec fn try_from_spec(line: &String) -> Result<Sudoku, ConstructError> {
        choose|r: Result<Sudoku, ConstructError>| text_read(encode_utf8(line@), r)
    }
}

/// Reads one line, solves the puzzle on it and gives the answer.
pub fn answer(line: &[u8]) -> (a: Answer)
    ensures
        answers(line@, a),
{
    let ghost v = values_of(line@);
    match Sudoku::from_line(line) {
        Err(ConstructError::WrongLength) => Answer::Malformed(ConstructError::WrongLength),
        Err(ConstructError::IllegalDigit { at }) => Answer::Malformed(
            ConstructError::IllegalDigit { at },
        ),
        Err(ConstructError::Contradiction { at }) => {
            assert(clean_before(v, at as int) && v[at as int] <= 9 && clash_at(v, at as int));
            Answer::Unsolvable
        },
        Ok(board) => {
            let mut board = board;
            let ghost start = board@;
            if board.solve() {
                let out = board.to_line();
                proof {
                    lemma_saturated(start, board@.digits);
                    assert(completes(board@.digits, givens(v)));
                }
                Answer::Solved(out)
            } else {
                proof {
                    assert forall|g: Seq<int>| !#[trigger] completes(g, givens(v)) by {
                        lemma_saturated(start, g);
                    }
                }
                Answer::NoSolution
            }
        },
    }
}

impl Answer {
    /// The bytes to print for an answer; nothing for a malformed line.
    pub fn text(&self) -> (r: Vec<u8>)
        ensures
            r@ == match *self {
                Answer::Solved(line) => line@,
                Answer::Unsolvable => unsolvable_text(),
                Answer::NoSolution => no_solution_text(),
                Answer::Malformed(_) => Seq::<u8>::empty(),
            },
    {
        match self {
            Answer::Solved(line) => slice_to_vec(line.as_slice()),
            Answer::Unsolvable => slice_to_vec("Instance unsolveable\n".as_bytes()),
            Answer::NoSolution => slice_to_vec("No solution found\n".as_bytes()),
            Answer::Malformed(_) => Vec::new(),
        }
    }
}

} // verus!
