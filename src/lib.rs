//! Move generation for a crossword tile game: given a board, a tray of tiles
//! and a lexicon, find every legal placement and its score.

use vstd::prelude::*;

pub mod input;
pub mod score_rules;
pub mod solver;

pub use score_rules::{BoardBonus, Bonus, LetterScoring};

verus! {

use score_rules::ScoreRules;

/// Side length of the square board.
pub const BOARD_SIZE: usize = 15;

/// Rules that control which moves are allowed and how they score.
pub struct Rules<Scoring: LetterScoring, Bonuses: BoardBonus> {
    pub score_rules: ScoreRules<Scoring, Bonuses>,
    /// Whether a wildcard played now may stand for one letter in the main
    /// word and for another letter in the cross word.
    ///
    /// Wildcards already on the board always stand for any letter.
    pub wildcards_have_multi_meaning: bool,
    /// The words that can be played (words already on the board are not checked).
    pub dictionary: fst::Set<Vec<u8>>,
}

/// A letter, as one byte.
#[derive(Copy, Clone, PartialEq, Eq, Structural, Hash, Debug)]
pub struct Letter(pub u8);

#[derive(Copy, Clone, PartialEq, Eq, Structural, Hash, Debug)]
pub enum LetterTile {
    Wildcard,
    Letter(Letter),
}

#[derive(Copy, Clone, PartialEq, Eq, Structural, Hash, Debug)]
pub enum Square {
    Empty,
    Filled(LetterTile),
}

impl Square {
    pub fn tile(&self) -> (r: Option<&LetterTile>)
        ensures
            match *self {
                Square::Filled(t) => r == Some(&t),
                Square::Empty => r.is_none(),
            },
    {
        match self {
            Square::Filled(tile) => Some(tile),
            Square::Empty => None,
        }
    }

    pub fn tile_mut(&mut self) -> (r: Option<&mut LetterTile>)
        ensures
            match *old(self) {
                Square::Filled(t) => r matches Some(x) && *x == t && *final(self) == Square::Filled(
                    *final(x),
                ),
                Square::Empty => r.is_none() && *final(self) == Square::Empty,
            },
    {
        match self {
            Square::Filled(tile) => Some(tile),
            Square::Empty => None,
        }
    }
}

#[derive(Copy, Clone, PartialEq, Eq, Structural, Hash, Debug)]
pub enum Direction {
    Vertical,
    Horizontal,
}

impl Direction {
    pub open spec fn perp_spec(self) -> Direction {
        match self {
            Direction::Vertical => Direction::Horizontal,
            Direction::Horizontal => Direction::Vertical,
        }
    }

    #[verifier::when_used_as_spec(perp_spec)]
    pub fn perp(self) -> (r: Direction)
        ensures
            r == self.perp_spec(),
    {
        match self {
            Direction::Vertical => Direction::Horizontal,
            Direction::Horizontal => Direction::Vertical,
        }
    }
}

#[derive(Copy, Clone, PartialEq, Eq, Structural, Hash, Debug)]
pub struct Position {
    pub row: usize,
    pub col: usize,
}

impl Position {
    /// The coordinate that changes when moving in direction `dir`.
    pub open spec fn coord(self, dir: Direction) -> usize {
        match dir {
            Direction::Vertical => self.row,
            Direction::Horizontal => self.col,
        }
    }

    /// The same position with the coordinate along `dir` replaced by `v`.
    pub open spec fn with_coord(self, dir: Direction, v: usize) -> Position {
        match dir {
            Direction::Vertical => Position { row: v, col: self.col },
            Direction::Horizontal => Position { row: self.row, col: v },
        }
    }

    pub open spec fn on_board(self) -> bool {
        self.row < BOARD_SIZE && self.col < BOARD_SIZE
    }

    /// The coordinate that changes when moving in direction `dir`.
    pub fn index(&self, dir: Direction) -> (r: usize)
        ensures
            r == self.coord(dir),
    {
        match dir {
            Direction::Vertical => self.row,
            Direction::Horizontal => self.col,
        }
    }

    /// Replaces the coordinate along `dir` by `v`.
    pub fn set_index(&mut self, dir: Direction, v: usize)
        ensures
            *final(self) == old(self).with_coord(dir, v),
    {
        match dir {
            Direction::Vertical => self.row = v,
            Direction::Horizontal => self.col = v,
        }
    }
}

/// A position and a direction of play.
#[derive(Copy, Clone, PartialEq, Eq, Structural, Hash, Debug)]
pub struct Placement(pub Position, pub Direction);

impl Placement {
    pub open spec fn next_spec(self) -> Placement {
        let c = self.0.coord(self.1);
        Placement(
            self.0.with_coord(self.1, if c == usize::MAX { c } else { (c + 1) as usize }),
            self.1,
        )
    }

    pub open spec fn back_spec(self) -> Placement {
        let c = self.0.coord(self.1);
        Placement(self.0.with_coord(self.1, if c == 0 { usize::MAX } else { (c - 1) as usize }), self.1)
    }

    /// One square further along the direction (saturating).
    #[verifier::when_used_as_spec(next_spec)]
    pub fn next(self) -> (r: Placement)
        ensures
            r == self.next_spec(),
    {
        let mut s = self;
        let c = s.0.index(s.1);
        let n = if c == usize::MAX { c } else { c + 1 };
        s.0.set_index(s.1, n);
        s
    }

    /// One square back along the direction (wrapping below zero, which is off the board).
    #[verifier::when_used_as_spec(back_spec)]
    pub fn back(self) -> (r: Placement)
        ensures
            r == self.back_spec(),
    {
        let mut s = self;
        let c = s.0.index(s.1);
        let n = if c == 0 { usize::MAX } else { c - 1 };
        s.0.set_index(s.1, n);
        s
    }

    /// A placement at the same position, in the other direction.
    pub fn perp(self) -> (r: Placement)
        ensures
            r == Placement(self.0, self.1.perp()),
    {
        Placement(self.0, self.1.perp())
    }
}

/// The lowest coordinate along `dir` among `s`.
pub open spec fn min_along(s: Seq<Position>, dir: Direction) -> usize
    decreases s.len(),
{
    if s.len() <= 1 {
        if s.len() == 0 { usize::MAX } else { s[0].coord(dir) }
    } else {
        let m = min_along(s.drop_last(), dir);
        let c = s.last().coord(dir);
        if c < m { c } else { m }
    }
}

/// Every position of `s` lies on the line through `s[0]` along `dir`.
pub open spec fn all_on_line(s: Seq<Position>, dir: Direction) -> bool {
    forall|k: int| 0 <= k < s.len() ==> #[trigger] s[k].coord(dir.perp()) == s[0].coord(dir.perp())
}

/// The first position of the line that the positions `s` lie on, if any.
pub open spec fn alignment_of(s: Seq<Position>) -> Option<Result<Placement, Position>> {
    if s.len() == 0 {
        None
    } else if forall|k: int| 0 <= k < s.len() ==> #[trigger] s[k] == s[0] {
        Some(Err(s[0]))
    } else if all_on_line(s, Direction::Horizontal) {
        Some(Ok(Placement(s[0].with_coord(Direction::Horizontal, min_along(s, Direction::Horizontal)), Direction::Horizontal)))
    } else if all_on_line(s, Direction::Vertical) {
        Some(Ok(Placement(s[0].with_coord(Direction::Vertical, min_along(s, Direction::Vertical)), Direction::Vertical)))
    } else {
        None
    }
}

proof fn lemma_min_along_step(s: Seq<Position>, i: int, dir: Direction)
    requires
        1 <= i < s.len(),
    ensures
        min_along(s.take(i + 1), dir) == if s[i].coord(dir) < min_along(s.take(i), dir) {
            s[i].coord(dir)
        } else {
            min_along(s.take(i), dir)
        },
{
    assert(s.take(i + 1).drop_last() =~= s.take(i));
}

impl Placement {
    /// Finds the first position of the line that all `positions` lie on.
    ///
    /// `None` when `positions` is empty or holds two positions on no common
    /// row or column; `Some(Err(p))` when every position is `p`.
    pub fn find_alignment(positions: Vec<Position>) -> (r: Option<Result<Placement, Position>>)
        ensures
            r == alignment_of(positions@),
    {
        let s = Ghost(positions@);
        if positions.len() == 0 {
            return None;
        }
        let first = positions[0];
        let mut j: usize = 1;
        while j < positions.len() && positions[j] == first
            invariant
                1 <= j <= positions@.len(),
                first == positions@[0],
                forall|k: int| 0 <= k < j ==> positions@[k] == first,
            decreases positions@.len() - j,
        {
            j += 1;
        }
        if j == positions.len() {
            return Some(Err(first));
        }
        let second = positions[j];
        let dir = if second.row == first.row {
            Direction::Horizontal
        } else if second.col == first.col {
            Direction::Vertical
        } else {
            proof {
                assert(s@[j as int].coord(Direction::Horizontal.perp()) != s@[0].coord(Direction::Horizontal.perp()));
                assert(s@[j as int].coord(Direction::Vertical.perp()) != s@[0].coord(Direction::Vertical.perp()));
            }
            return None;
        };
        let pd = dir.perp();
        let mut m = first.index(dir);
        let mut k: usize = 1;
        proof {
            assert(s@.take(1).drop_last() =~= Seq::<Position>::empty());
        }
        while k < positions.len()
            invariant
                1 <= k <= positions@.len(),
                first == positions@[0],
                pd == dir.perp(),
                m == min_along(s@.take(k as int), dir),
                s@ == positions@,
                j < positions@.len(),
                positions@[j as int] != first,
                positions@[j as int].coord(pd) == first.coord(pd),
                forall|i: int| 0 <= i < k ==> #[trigger] positions@[i].coord(pd) == first.coord(pd),
            decreases positions@.len() - k,
        {
            let p = positions[k];
            if p.index(pd) != first.index(pd) {
                proof {
                    assert(!all_on_line(s@, dir));
                    let other = dir.perp();
                    assert(!all_on_line(s@, other)) by {
                        assert(s@[j as int].coord(other.perp()) != s@[0].coord(other.perp()));
                    }
                    assert(s@[k as int].coord(dir.perp()) != s@[0].coord(dir.perp()));
                    assert(!(forall|q: int| 0 <= q < s@.len() ==> #[trigger] s@[q] == s@[0]));
                }
                return None;
            }
            proof {
                lemma_min_along_step(s@, k as int, dir);
            }
            let c = p.index(dir);
            if c < m {
                m = c;
            }
            k += 1;
        }
        proof {
            assert(s@.take(k as int) =~= s@);
            assert(all_on_line(s@, dir));
            assert(positions@[j as int] != positions@[0]);
            assert(!(forall|q: int| 0 <= q < s@.len() ==> #[trigger] s@[q] == s@[0]));
            if dir == Direction::Vertical {
                assert(!all_on_line(s@, Direction::Horizontal)) by {
                    assert(s@[j as int].coord(Direction::Horizontal.perp()) != s@[0].coord(Direction::Horizontal.perp()));
                }
            }
        }
        let mut start = first;
        start.set_index(dir, m);
        Some(Ok(Placement(start, dir)))
    }
}

/// A move: tiles played from the tray.
#[derive(Debug, Eq, Hash)]
pub enum Move {
    /// One tile at a position.
    SingleLetter(Position, LetterTile),
    /// Two or more tiles: the first at the placement's position, then each
    /// further tile after the given number of board squares that it skips.
    MultiLetters(Placement, LetterTile, Vec<(usize, LetterTile)>),
}

/// A move as mathematical values.
pub enum MoveView {
    SingleLetter(Position, LetterTile),
    MultiLetters(Placement, LetterTile, Seq<(usize, LetterTile)>),
}

impl View for Move {
    type V = MoveView;

    open spec fn view(&self) -> MoveView {
        match *self {
            Move::SingleLetter(p, t) => MoveView::SingleLetter(p, t),
            Move::MultiLetters(p, t, others) => MoveView::MultiLetters(p, t, others@),
        }
    }
}

impl PartialEq for Move {
    fn eq(&self, other: &Move) -> (r: bool)
        ensures
            r == (self@ == other@),
    {
        match (self, other) {
            (Move::SingleLetter(p, t), Move::SingleLetter(q, u)) => *p == *q && *t == *u,
            (Move::MultiLetters(p, t, a), Move::MultiLetters(q, u, b)) => {
                if !(*p == *q && *t == *u && a.len() == b.len()) {
                    return false;
                }
                let mut i: usize = 0;
                while i < a.len()
                    invariant
                        a@.len() == b@.len(),
                        i <= a@.len(),
                        self@ == MoveView::MultiLetters(*p, *t, a@),
                        other@ == MoveView::MultiLetters(*q, *u, b@),
                        forall|k: int| 0 <= k < i ==> a@[k] == b@[k],
                    decreases a@.len() - i,
                {
                    if a[i].0 != b[i].0 || a[i].1 != b[i].1 {
                        proof {
                            assert(a@[i as int] != b@[i as int]);
                            assert(a@ != b@);
                        }
                        return false;
                    }
                    i += 1;
                }
                proof {
                    assert(a@ =~= b@);
                }
                true
            },
            _ => false,
        }
    }
}

impl vstd::std_specs::cmp::PartialEqSpecImpl for Move {
    open spec fn obeys_eq_spec() -> bool {
        true
    }

    open spec fn eq_spec(&self, other: &Move) -> bool {
        self@ == other@
    }
}

impl Clone for Move {
    fn clone(&self) -> (r: Move)
        ensures
            r@ == self@,
    {
        match self {
            Move::SingleLetter(p, t) => Move::SingleLetter(*p, *t),
            Move::MultiLetters(p, t, a) => {
                let mut b: Vec<(usize, LetterTile)> = Vec::new();
                let mut i: usize = 0;
                while i < a.len()
                    invariant
                        i <= a@.len(),
                        b@ == a@.take(i as int),
                    decreases a@.len() - i,
                {
                    b.push((a[i].0, a[i].1));
                    proof {
                        assert(a@.take(i as int + 1) =~= a@.take(i as int).push(a@[i as int]));
                    }
                    i += 1;
                }
                proof {
                    assert(a@.take(a@.len() as int) =~= a@);
                }
                Move::MultiLetters(*p, *t, b)
            },
        }
    }
}

/// A square grid of `BOARD_SIZE` rows of `BOARD_SIZE` values.
#[derive(Debug)]
pub struct Table<T> {
    squares: Vec<Vec<T>>,
}

impl<T> View for Table<T> {
    type V = Seq<Seq<T>>;

    closed spec fn view(&self) -> Seq<Seq<T>> {
        Seq::new(self.squares@.len(), |i: int| self.squares@[i]@)
    }
}

impl<T> Table<T> {
    /// `BOARD_SIZE` rows of `BOARD_SIZE` values.
    pub open spec fn wf(&self) -> bool {
        &&& self@.len() == BOARD_SIZE
        &&& forall|i: int| 0 <= i < BOARD_SIZE ==> #[trigger] self@[i].len() == BOARD_SIZE
    }

    /// The value at a position of the board.
    pub open spec fn at(&self, p: Position) -> T {
        self@[p.row as int][p.col as int]
    }

    pub fn fill_with(el: T) -> (r: Table<T>)
        where
            T: Copy,
        ensures
            r.wf(),
            forall|i: int, j: int| 0 <= i < BOARD_SIZE && 0 <= j < BOARD_SIZE ==> #[trigger] r@[i][j] == el,
    {
        let mut squares: Vec<Vec<T>> = Vec::new();
        let mut i: usize = 0;
        while i < BOARD_SIZE
            invariant
                i <= BOARD_SIZE,
                squares@.len() == i,
                forall|a: int| 0 <= a < i ==> (#[trigger] squares@[a])@.len() == BOARD_SIZE,
                forall|a: int, b: int| 0 <= a < i && 0 <= b < BOARD_SIZE ==> #[trigger] squares@[a]@[b] == el,
            decreases BOARD_SIZE - i,
        {
            let mut row: Vec<T> = Vec::new();
            let mut j: usize = 0;
            while j < BOARD_SIZE
                invariant
                    j <= BOARD_SIZE,
                    row@.len() == j,
                    forall|b: int| 0 <= b < j ==> #[trigger] row@[b] == el,
                decreases BOARD_SIZE - j,
            {
                row.push(el);
                j += 1;
            }
            squares.push(row);
            i += 1;
        }
        Table { squares }
    }

    pub fn get(&self, pos: Position) -> (r: Option<&T>)
        ensures
            match r {
                Some(x) => pos.row < self@.len() && pos.col < self@[pos.row as int].len() && *x == self@[pos.row as int][pos.col as int],
                None => !(pos.row < self@.len() && pos.col < self@[pos.row as int].len()),
            },
    {
        if pos.row < self.squares.len() && pos.col < self.squares[pos.row].len() {
            Some(&self.squares[pos.row][pos.col])
        } else {
            None
        }
    }

    pub fn get_mut(&mut self, pos: Position) -> (r: Option<&mut T>)
        ensures
            match r {
                Some(x) => pos.row < old(self)@.len() && pos.col < old(self)@[pos.row as int].len()
                    && *x == old(self)@[pos.row as int][pos.col as int]
                    && final(self)@ == old(self)@.update(pos.row as int, old(self)@[pos.row as int].update(pos.col as int, *final(x))),
                None => !(pos.row < old(self)@.len() && pos.col < old(self)@[pos.row as int].len())
                    && *final(self) == *old(self),
            },
    {
        if pos.row < self.squares.len() && pos.col < self.squares[pos.row].len() {
            Some(&mut self.squares[pos.row][pos.col])
        } else {
            None
        }
    }

    pub fn set(&mut self, pos: Position, val: T)
        requires
            old(self).wf(),
            pos.on_board(),
        ensures
            final(self).wf(),
            final(self)@ == old(self)@.update(pos.row as int, old(self)@[pos.row as int].update(pos.col as int, val)),
    {
        proof {
            assert(self@[pos.row as int].len() == BOARD_SIZE);
        }
        self.squares[pos.row][pos.col] = val;
        proof {
            assert(final(self)@ =~= old(self)@.update(pos.row as int, old(self)@[pos.row as int].update(pos.col as int, val)));
        }
    }
}

/// A board: what letter each square holds, and what each square scores
/// (a blank played earlier reads as its letter but scores as a blank).
#[derive(Debug)]
pub struct Board {
    pub letter_table: Table<Square>,
    pub value_table: Table<Square>,
}

impl Board {
    /// Both tables have the board's size.
    pub open spec fn wf(&self) -> bool {
        self.letter_table.wf() && self.value_table.wf()
    }

    pub fn empty() -> (r: Board)
        ensures
            r.wf(),
            forall|p: Position| p.on_board() ==> #[trigger] r.letter_table.at(p) == Square::Empty && r.value_table.at(p) == Square::Empty,
    {
        let b = Board { letter_table: Table::fill_with(Square::Empty), value_table: Table::fill_with(Square::Empty) };
        proof {
            assert forall|p: Position| p.on_board() implies #[trigger] b.letter_table.at(p) == Square::Empty && b.value_table.at(p) == Square::Empty by {
                assert(b.letter_table@[p.row as int][p.col as int] == Square::Empty);
                assert(b.value_table@[p.row as int][p.col as int] == Square::Empty);
            }
        }
        b
    }
}

} // verus!
