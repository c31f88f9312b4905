//! Reading boards and trays written as text.

use vstd::prelude::*;

verus! {

use crate::solver::word_finder::TrayRemaining;
use crate::{Letter, LetterTile, Square};

pub open spec fn is_upper(b: u8) -> bool {
    65 <= b <= 90
}

pub open spec fn is_lower(b: u8) -> bool {
    97 <= b <= 122
}

/// The lower-case form of an ASCII letter.
pub open spec fn lower(b: u8) -> u8 {
    if is_upper(b) {
        (b + 32) as u8
    } else {
        b
    }
}

/// What a byte of a board puts on its square, as (letter, value): a
/// lower-case letter is that letter; an upper-case letter is a blank played
/// as that letter (it reads as the letter and scores nothing); `*` is a bare
/// blank; a space or `_` is an empty square; any other byte is skipped.
pub open spec fn board_cell(b: u8) -> Option<(Square, Square)> {
    if is_lower(b) {
        Some((Square::Filled(LetterTile::Letter(Letter(b))), Square::Filled(LetterTile::Letter(Letter(b)))))
    } else if is_upper(b) {
        Some((Square::Filled(LetterTile::Letter(Letter(lower(b)))), Square::Filled(LetterTile::Wildcard)))
    } else if b == 42 {
        Some((Square::Filled(LetterTile::Wildcard), Square::Filled(LetterTile::Wildcard)))
    } else if b == 32 || b == 95 {
        Some((Square::Empty, Square::Empty))
    } else {
        None
    }
}

/// The letter and value squares that byte `b` of a board stands for
/// (`None` for a byte that is neither a letter, a blank nor empty).
pub fn square_from_byte(b: u8) -> (r: Option<(Square, Square)>)
    ensures
        r == board_cell(b),
{
    if 97 <= b && b <= 122 {
        let t = LetterTile::Letter(Letter(b));
        Some((Square::Filled(t), Square::Filled(t)))
    } else if 65 <= b && b <= 90 {
        Some((Square::Filled(LetterTile::Letter(Letter(b + 32))), Square::Filled(LetterTile::Wildcard)))
    } else if b == 42 {
        Some((Square::Filled(LetterTile::Wildcard), Square::Filled(LetterTile::Wildcard)))
    } else if b == 32 || b == 95 {
        Some((Square::Empty, Square::Empty))
    } else {
        None
    }
}

/// How many bytes of `s` are the letter `l`, in either case.
pub open spec fn letter_count(s: Seq<u8>, l: u8) -> int
    decreases s.len(),
{
    if s.len() == 0 {
        0
    } else {
        letter_count(s.drop_last(), l) + if (is_lower(s.last()) || is_upper(s.last())) && lower(s.last()) == l {
            1int
        } else {
            0
        }
    }
}

/// How many bytes of `s` are `*`.
pub open spec fn blank_count(s: Seq<u8>) -> int
    decreases s.len(),
{
    if s.len() == 0 {
        0
    } else {
        blank_count(s.drop_last()) + if s.last() == 42 {
            1int
        } else {
            0
        }
    }
}

proof fn lemma_counts_nonneg(s: Seq<u8>, l: u8)
    ensures
        letter_count(s, l) >= 0,
        blank_count(s) >= 0,
    decreases s.len(),
{
    if s.len() > 0 {
        lemma_counts_nonneg(s.drop_last(), l);
    }
}

pub open spec fn at_most_255(x: int) -> u8 {
    if x > 255 {
        255
    } else {
        x as u8
    }
}

/// The tray written as `text`: letters in either case, `*` for a blank, other
/// bytes skipped; a count above 255 stays at 255.
pub fn tray_from_bytes(text: &[u8]) -> (r: TrayRemaining)
    ensures
        r@.wf(),
        forall|l: u8| #[trigger] r@.letters[l as int] == at_most_255(letter_count(text@, l)),
        r@.wildcards == at_most_255(blank_count(text@)),
{
    let mut letters = [0u8; 256];
    let mut blanks: u8 = 0;
    let mut i: usize = 0;
    while i < text.len()
        invariant
            i <= text@.len(),
            forall|l: u8| #[trigger] letters@[l as int] == at_most_255(letter_count(text@.take(i as int), l)),
            blanks == at_most_255(blank_count(text@.take(i as int))),
        decreases text@.len() - i,
    {
        let b = text[i];
        proof {
            assert(text@.take(i + 1).drop_last() =~= text@.take(i as int));
            assert(text@.take(i + 1).last() == b);
            assert(blank_count(text@.take(i + 1)) == blank_count(text@.take(i as int)) + if b == 42 { 1int } else { 0 });
            assert forall|m: u8| #[trigger] letter_count(text@.take(i + 1), m) == letter_count(text@.take(i as int), m) + if (is_lower(b) || is_upper(b)) && lower(b) == m { 1int } else { 0 } by {
                lemma_counts_nonneg(text@.take(i as int), m);
            }
            lemma_counts_nonneg(text@.take(i as int), 0);
        }
        if (97 <= b && b <= 122) || (65 <= b && b <= 90) {
            let l = if b <= 90 { b + 32 } else { b };
            let old_letters = letters;
            if letters[l as usize] < 255 {
                letters[l as usize] = letters[l as usize] + 1;
            }
            proof {
                assert(lower(b) == l);
                assert(b != 42);
                assert(old_letters@[l as int] == at_most_255(letter_count(text@.take(i as int), l)));
                assert forall|m: u8| #[trigger] letters@[m as int] == at_most_255(letter_count(text@.take(i + 1), m)) by {
                    assert(old_letters@[m as int] == at_most_255(letter_count(text@.take(i as int), m)));
                    lemma_counts_nonneg(text@.take(i as int), m);
                    if m != l {
                        assert(letters@[m as int] == old_letters@[m as int]);
                    }
                }
            }
        } else if b == 42 {
            if blanks < 255 {
                blanks = blanks + 1;
            }
        }
        i += 1;
    }
    proof {
        assert(text@.take(text@.len() as int) =~= text@);
    }
    TrayRemaining::new(letters, blanks)
}

} // verus!

verus! {

use crate::{Board, Position, BOARD_SIZE};

/// The byte at column `col` of line `row` of `text` (lines end at byte 10).
pub open spec fn text_byte(text: Seq<u8>, row: int, col: int) -> Option<u8>
    decreases text.len(),
{
    if text.len() == 0 {
        None
    } else if row == 0 {
        if col == 0 {
            if text[0] == 10 { None } else { Some(text[0]) }
        } else if text[0] == 10 {
            None
        } else {
            text_byte(text.drop_first(), 0, col - 1)
        }
    } else if text[0] == 10 {
        text_byte(text.drop_first(), row - 1, col)
    } else {
        text_byte(text.drop_first(), row, col)
    }
}

/// The squares the text gives a position of the board: what its byte stands
/// for; empty where the text has no such byte or a byte that stands for nothing.
pub open spec fn text_cell(text: Seq<u8>, p: Position) -> (Square, Square) {
    match text_byte(text, p.row as int, p.col as int) {
        Some(b) => match board_cell(b) {
            Some(c) => c,
            None => (Square::Empty, Square::Empty),
        },
        None => (Square::Empty, Square::Empty),
    }
}

/// The board written as `text`: one line per row, a byte per square (see
/// `board_cell`); a carriage return ending a line is skipped like any other
/// byte that stands for nothing, and what lies off the board is ignored.
pub fn board_from_text(text: &[u8]) -> (r: Board)
    ensures
        r.wf(),
        forall|p: Position| p.on_board() ==> (#[trigger] r.letter_table.at(p), r.value_table.at(p)) == text_cell(text@, p),
{
    let mut board = Board::empty();
    let mut row: usize = 0;
    let mut col: usize = 0;
    let mut i: usize = 0;
    proof {
        assert(text@.subrange(0, text@.len() as int) =~= text@);
    }
    while i < text.len()
        invariant
            board.wf(),
            i <= text@.len(),
            row <= i,
            col <= i,
            forall|p: Position| p.on_board() ==> (#[trigger] board.letter_table.at(p), board.value_table.at(p)) == (
                if p.row < row || (p.row == row && p.col < col) { text_cell(text@, p) } else { (Square::Empty, Square::Empty) }),
            forall|p: Position| p.row > row || (p.row == row && p.col >= col)
                ==> #[trigger] text_byte(text@, p.row as int, p.col as int) == text_byte(text@.subrange(i as int, text@.len() as int), p.row - row, if p.row == row { p.col - col } else { p.col as int }),
        decreases text@.len() - i,
    {
        let b = text[i];
        let ghost sfx = text@.subrange(i as int, text@.len() as int);
        proof {
            assert(sfx[0] == b);
            assert(sfx.drop_first() =~= text@.subrange(i + 1, text@.len() as int));
        }
        let ghost b0 = board;
        if b == 10 {
            proof {
                assert forall|p: Position| p.row > row + 1 || (p.row == row + 1 && p.col >= 0)
                    implies #[trigger] text_byte(text@, p.row as int, p.col as int) == text_byte(text@.subrange(i + 1, text@.len() as int), p.row - (row + 1), p.col as int) by {
                }
                assert forall|p: Position| p.on_board() implies (#[trigger] board.letter_table.at(p), board.value_table.at(p)) == (
                    if p.row < row + 1 { text_cell(text@, p) } else { (Square::Empty, Square::Empty) }) by {
                    if p.row == row && p.col >= col {
                        assert(text_byte(text@, p.row as int, p.col as int) == text_byte(sfx, 0, p.col - col));
                    }
                }
            }
            row = row + 1;
            col = 0;
        } else {
            match square_from_byte(b) {
                Some((letter, value)) => {
                    if row < BOARD_SIZE && col < BOARD_SIZE {
                        let pos = Position { row, col };
                        board.letter_table.set(pos, letter);
                        board.value_table.set(pos, value);
                    }
                },
                None => {},
            }
            proof {
                let here = Position { row, col };
                assert(text_byte(text@, here.row as int, here.col as int) == text_byte(sfx, 0, 0));
                assert(text_byte(sfx, 0, 0) == Some(b));
                assert forall|p: Position| p.row > row || (p.row == row && p.col >= col + 1)
                    implies #[trigger] text_byte(text@, p.row as int, p.col as int) == text_byte(text@.subrange(i + 1, text@.len() as int), p.row - row, if p.row == row { p.col - (col + 1) } else { p.col as int }) by {
                }
                assert forall|p: Position| p.on_board() implies (#[trigger] board.letter_table.at(p), board.value_table.at(p)) == (
                    if p.row < row || (p.row == row && p.col < col + 1) { text_cell(text@, p) } else { (Square::Empty, Square::Empty) }) by {
                    if p.row == row && p.col == col {
                        assert(text_cell(text@, p) == match board_cell(b) { Some(c) => c, None => (Square::Empty, Square::Empty) });
                    } else {
                        assert(board.letter_table.at(p) == b0.letter_table.at(p));
                        assert(board.value_table.at(p) == b0.value_table.at(p));
                    }
                }
            }
            col = col + 1;
        }
        i += 1;
    }
    proof {
        assert forall|p: Position| p.on_board() implies (#[trigger] board.letter_table.at(p), board.value_table.at(p)) == text_cell(text@, p) by {
            if !(p.row < row || (p.row == row && p.col < col)) {
                assert(text@.subrange(i as int, text@.len() as int).len() == 0);
                assert(text_byte(text@, p.row as int, p.col as int) == None::<u8>);
            }
        }
    }
    board
}

} // verus!
