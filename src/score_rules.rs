//! Letter values and premium squares.

use vstd::prelude::*;

verus! {

use crate::{Letter, LetterTile, Position, BOARD_SIZE};

/// Rules that influence the score.
pub struct ScoreRules<Scoring: LetterScoring, Bonuses: BoardBonus> {
    pub scoring: Scoring,
    pub bonuses: Bonuses,
    /// The bonus points for a move that plays all seven tiles of the tray.
    pub extra_bonus: u32,
}

/// The value of each tile.
pub trait LetterScoring {
    /// The value of `tile`.
    spec fn value_of(&self, tile: LetterTile) -> u32;

    fn score_for(&self, letter: &LetterTile) -> (r: u32)
        ensures
            r == self.value_of(*letter),
    ;
}

/// The premium of each square.
pub trait BoardBonus {
    /// The premium at `position`.
    spec fn bonus_of(&self, position: Position) -> Bonus;

    fn bonus_at(&self, position: Position) -> (r: Bonus)
        ensures
            r == self.bonus_of(position),
    ;
}

/// The letter and word multipliers of a square.
#[derive(Copy, Clone, PartialEq, Eq, Structural, Debug)]
pub struct Bonus {
    pub letter: u32,
    pub word: u32,
}

/// Tile values of the English edition of Scrabble (bytes 97 to 122 are `a`
/// to `z`); a blank is worth 0, a byte other than `a` to `z` too.
pub struct EnglishScrabbleScoring;

pub open spec fn english_scrabble_value(l: u8) -> u32 {
    if l == 97u8 || l == 101u8 || l == 105u8 || l == 108u8 || l == 110u8 || l == 111u8 || l == 114u8
        || l == 115u8 || l == 116u8 || l == 117u8 {
        1
    } else if l == 100u8 || l == 103u8 {
        2
    } else if l == 98u8 || l == 109u8 || l == 112u8 {
        3
    } else if l == 99u8 || l == 102u8 || l == 104u8 || l == 118u8 || l == 119u8 || l == 121u8 {
        4
    } else if l == 107u8 {
        5
    } else if l == 106u8 || l == 120u8 {
        8
    } else if l == 113u8 || l == 122u8 {
        10
    } else {
        0
    }
}

impl LetterScoring for EnglishScrabbleScoring {
    open spec fn value_of(&self, tile: LetterTile) -> u32 {
        match tile {
            LetterTile::Wildcard => 0,
            LetterTile::Letter(Letter(l)) => english_scrabble_value(l),
        }
    }

    fn score_for(&self, letter: &LetterTile) -> (r: u32) {
        match letter {
            LetterTile::Wildcard => 0,
            LetterTile::Letter(Letter(l)) => match *l {
                97u8 => 1,
                98u8 => 3,
                99u8 => 4,
                100u8 => 2,
                101u8 => 1,
                102u8 => 4,
                103u8 => 2,
                104u8 => 4,
                105u8 => 1,
                106u8 => 8,
                107u8 => 5,
                108u8 => 1,
                109u8 => 3,
                110u8 => 1,
                111u8 => 1,
                112u8 => 3,
                113u8 => 10,
                114u8 => 1,
                115u8 => 1,
                116u8 => 1,
                117u8 => 1,
                118u8 => 4,
                119u8 => 4,
                120u8 => 8,
                121u8 => 4,
                122u8 => 10,
                _ => 0,
            },
        }
    }
}

/// Tile values of the English edition of Words With Friends; a blank is
/// worth 0, a byte other than `a` to `z` too.
pub struct EnglishWordsWithFriendsScoring;

pub open spec fn english_wwf_value(l: u8) -> u32 {
    if l == 97u8 || l == 101u8 || l == 105u8 || l == 111u8 || l == 114u8 || l == 115u8 || l == 116u8 {
        1
    } else if l == 100u8 || l == 108u8 || l == 110u8 || l == 117u8 {
        2
    } else if l == 103u8 || l == 104u8 || l == 121u8 {
        3
    } else if l == 98u8 || l == 99u8 || l == 102u8 || l == 109u8 || l == 112u8 || l == 119u8 {
        4
    } else if l == 107u8 || l == 118u8 {
        5
    } else if l == 120u8 {
        8
    } else if l == 106u8 || l == 113u8 || l == 122u8 {
        10
    } else {
        0
    }
}

impl LetterScoring for EnglishWordsWithFriendsScoring {
    open spec fn value_of(&self, tile: LetterTile) -> u32 {
        match tile {
            LetterTile::Wildcard => 0,
            LetterTile::Letter(Letter(l)) => english_wwf_value(l),
        }
    }

    fn score_for(&self, letter: &LetterTile) -> (r: u32) {
        match letter {
            LetterTile::Wildcard => 0,
            LetterTile::Letter(Letter(l)) => match *l {
                97u8 => 1,
                98u8 => 4,
                99u8 => 4,
                100u8 => 2,
                101u8 => 1,
                102u8 => 4,
                103u8 => 3,
                104u8 => 3,
                105u8 => 1,
                106u8 => 10,
                107u8 => 5,
                108u8 => 2,
                109u8 => 4,
                110u8 => 2,
                111u8 => 1,
                112u8 => 4,
                113u8 => 10,
                114u8 => 1,
                115u8 => 1,
                116u8 => 1,
                117u8 => 2,
                118u8 => 5,
                119u8 => 4,
                120u8 => 8,
                121u8 => 3,
                122u8 => 10,
                _ => 0,
            },
        }
    }
}

/// Tile values given as a table: one value per letter byte, and one for a blank.
pub struct TableScoring {
    pub values: [u32; 256],
    pub wildcard: u32,
}

impl LetterScoring for TableScoring {
    open spec fn value_of(&self, tile: LetterTile) -> u32 {
        match tile {
            LetterTile::Wildcard => self.wildcard,
            LetterTile::Letter(Letter(l)) => self.values@[l as int],
        }
    }

    fn score_for(&self, letter: &LetterTile) -> (r: u32) {
        match letter {
            LetterTile::Wildcard => self.wildcard,
            LetterTile::Letter(Letter(l)) => self.values[*l as usize],
        }
    }
}

/// The premium squares of a Scrabble board.
pub struct ScrabbleBonus;

/// Distance of a coordinate from the middle line.
pub open spec fn fold_half(a: usize) -> usize {
    if a >= 7 {
        (a - 7) as usize
    } else {
        (7 - a) as usize
    }
}

/// The premium of a square, given its distances `r` and `c` from the middle
/// row and column: the board is symmetric about both middle lines, and the
/// centre triples the word.
pub open spec fn scrabble_bonus_folded(r: usize, c: usize) -> Bonus {
    if (r == 7 && c == 0) || (r == 0 && c == 7) || (r == 7 && c == 7) || (r == 0 && c == 0) {
        Bonus { letter: 1, word: 3 }
    } else if (r == 1 && c == 1) || (r == 4 && c == 0) || (r == 0 && c == 4) || (r == 5 && c == 1)
        || (r == 1 && c == 5) || (r == 7 && c == 4) || (r == 4 && c == 7) {
        Bonus { letter: 2, word: 1 }
    } else if (r == 2 && c == 2) || (r == 6 && c == 2) || (r == 2 && c == 6) {
        Bonus { letter: 3, word: 1 }
    } else if r == c {
        Bonus { letter: 1, word: 2 }
    } else {
        Bonus { letter: 1, word: 1 }
    }
}

impl BoardBonus for ScrabbleBonus {
    /// Off the board the premium is the largest value, a sentinel that no
    /// square of the board has.
    open spec fn bonus_of(&self, position: Position) -> Bonus {
        if position.row >= BOARD_SIZE || position.col >= BOARD_SIZE {
            Bonus { letter: u32::MAX, word: u32::MAX }
        } else {
            scrabble_bonus_folded(fold_half(position.row), fold_half(position.col))
        }
    }

    fn bonus_at(&self, position: Position) -> (r: Bonus) {
        let row = position.row;
        let col = position.col;
        if row >= BOARD_SIZE || col >= BOARD_SIZE {
            return Bonus { letter: u32::MAX, word: u32::MAX };
        }
        let r = if row >= 7 { row - 7 } else { 7 - row };
        let c = if col >= 7 { col - 7 } else { 7 - col };
        if (r == 7 && c == 0) || (r == 0 && c == 7) || (r == 7 && c == 7) || (r == 0 && c == 0) {
            Bonus { letter: 1, word: 3 }
        } else if (r == 1 && c == 1) || (r == 4 && c == 0) || (r == 0 && c == 4) || (r == 5 && c
            == 1) || (r == 1 && c == 5) || (r == 7 && c == 4) || (r == 4 && c == 7) {
            Bonus { letter: 2, word: 1 }
        } else if (r == 2 && c == 2) || (r == 6 && c == 2) || (r == 2 && c == 6) {
            Bonus { letter: 3, word: 1 }
        } else if r == c {
            Bonus { letter: 1, word: 2 }
        } else {
            Bonus { letter: 1, word: 1 }
        }
    }
}

} // verus!
