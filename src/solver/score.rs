//! The score of a move.

use vstd::prelude::*;

verus! {

use crate::score_rules::{BoardBonus, LetterScoring, ScoreRules};
use crate::{Direction, LetterTile, Move, MoveView, Placement, Position, Square, Table, BOARD_SIZE};

/// `x`, or `u32::MAX` when `x` does not fit.
pub open spec fn capped(x: int) -> u32 {
    if x > u32::MAX as int {
        u32::MAX
    } else if x < 0 {
        0
    } else {
        x as u32
    }
}

pub(crate) proof fn lemma_capped_add(x: int, y: int)
    requires
        x >= 0,
        y >= 0,
    ensures
        capped(capped(x) + capped(y)) == capped(x + y),
{
}

proof fn lemma_capped_mul(x: int, y: int)
    requires
        x >= 0,
        y >= 0,
    ensures
        capped(capped(x) * capped(y)) == capped(x * y),
{
    let m = u32::MAX as int;
    let cx = capped(x) as int;
    let cy = capped(y) as int;
    if x == 0 || y == 0 {
        assert(x * y == 0 && cx * cy == 0) by (nonlinear_arith)
            requires
                x == 0 || y == 0,
                x == 0 ==> cx == 0,
                y == 0 ==> cy == 0,
        ;
    } else if x > m || y > m {
        assert(x * y > m && cx * cy >= m) by (nonlinear_arith)
            requires
                x >= 1,
                y >= 1,
                x > m || y > m,
                cx >= 1,
                cy >= 1,
                x > m ==> cx == m,
                y > m ==> cy == m,
        ;
    } else {
        assert(cx == x && cy == y);
    }
}

pub(crate) fn sat_add(a: u32, b: u32) -> (r: u32)
    ensures
        r == capped(a + b),
{
    let s = a as u64 + b as u64;
    if s > u32::MAX as u64 {
        u32::MAX
    } else {
        s as u32
    }
}

fn sat_mul(a: u32, b: u32) -> (r: u32)
    ensures
        r == capped(a * b),
{
    proof {
        let x = a as int;
        let y = b as int;
        assert(x * y <= 0xffff_ffff * 0xffff_ffff) by (nonlinear_arith)
            requires
                0 <= x <= 0xffff_ffff,
                0 <= y <= 0xffff_ffff,
        ;
    }
    let s = a as u64 * b as u64;
    if s > u32::MAX as u64 {
        u32::MAX
    } else {
        s as u32
    }
}

/// The square at coordinate `c` along `d` on the line through `p`; empty off the board.
pub open spec fn square_on_line(t: Seq<Seq<Square>>, p: Position, d: Direction, c: int) -> Square {
    if 0 <= c < BOARD_SIZE && p.coord(d.perp()) < BOARD_SIZE {
        let q = p.with_coord(d, c as usize);
        t[q.row as int][q.col as int]
    } else {
        Square::Empty
    }
}

pub open spec fn filled_at(t: Seq<Seq<Square>>, p: Position, d: Direction, c: int) -> bool {
    square_on_line(t, p, d, c) is Filled
}

/// What the square at coordinate `c` scores (0 when empty).
pub open spec fn value_at<S: LetterScoring>(
    t: Seq<Seq<Square>>,
    sc: S,
    p: Position,
    d: Direction,
    c: int,
) -> int {
    match square_on_line(t, p, d, c) {
        Square::Filled(tile) => sc.value_of(tile) as int,
        Square::Empty => 0,
    }
}

/// The sum of the values of the run of filled squares that ends at coordinate `c`.
pub open spec fn sum_before<S: LetterScoring>(
    t: Seq<Seq<Square>>,
    sc: S,
    p: Position,
    d: Direction,
    c: int,
) -> int
    decreases c + 1,
{
    if c < 0 || !filled_at(t, p, d, c) {
        0
    } else {
        value_at(t, sc, p, d, c) + sum_before(t, sc, p, d, c - 1)
    }
}

/// The sum of the values of the run of filled squares that starts at coordinate `c`.
pub open spec fn sum_after<S: LetterScoring>(
    t: Seq<Seq<Square>>,
    sc: S,
    p: Position,
    d: Direction,
    c: int,
) -> int
    decreases BOARD_SIZE - c,
{
    if c >= BOARD_SIZE || !filled_at(t, p, d, c) {
        0
    } else {
        value_at(t, sc, p, d, c) + sum_after(t, sc, p, d, c + 1)
    }
}

/// The sum of the values of the filled squares that touch `p` along `d`, on both sides.
pub open spec fn around<S: LetterScoring>(t: Seq<Seq<Square>>, sc: S, p: Position, d: Direction) -> int {
    sum_before(t, sc, p, d, p.coord(d) - 1) + sum_after(t, sc, p, d, p.coord(d) + 1)
}

/// Whether a square next to `p` along `d` is filled.
pub open spec fn has_neighbor(t: Seq<Seq<Square>>, p: Position, d: Direction) -> bool {
    filled_at(t, p, d, p.coord(d) - 1) || filled_at(t, p, d, p.coord(d) + 1)
}

/// The score of a single tile: the value of the letters around it in both
/// directions plus twice the tile times the letter premium, times the word premium.
pub open spec fn single_letter_score<S: LetterScoring, B: BoardBonus>(
    t: Seq<Seq<Square>>,
    rules: ScoreRules<S, B>,
    pos: Position,
    tile: LetterTile,
) -> int {
    let b = rules.bonuses.bonus_of(pos);
    (around(t, rules.scoring, pos, Direction::Vertical) + around(
        t,
        rules.scoring,
        pos,
        Direction::Horizontal,
    ) + 2 * rules.scoring.value_of(tile) * b.letter) * b.word
}

/// The coordinate along the line of the `k`-th played tile.
pub open spec fn played_coord(place: Placement, others: Seq<(usize, LetterTile)>, k: int) -> int
    decreases k,
{
    if k <= 0 {
        place.0.coord(place.1) as int
    } else {
        played_coord(place, others, k - 1) + others[k - 1].0 + 1
    }
}

/// The `k`-th played tile.
pub open spec fn played_tile(first: LetterTile, others: Seq<(usize, LetterTile)>, k: int) -> LetterTile {
    if k <= 0 {
        first
    } else {
        others[k - 1].1
    }
}

/// The position at coordinate `c` on the line of `place` (meaningful for `0 <= c < BOARD_SIZE`).
pub open spec fn line_pos(place: Placement, c: int) -> Position {
    place.0.with_coord(place.1, c as usize)
}

/// Whether coordinate `c` of the line of `place` is on the board.
pub open spec fn on_line(place: Placement, c: int) -> bool {
    0 <= c < BOARD_SIZE && place.0.coord(place.1.perp()) < BOARD_SIZE
}

/// What the cross word of the `k`-th played tile scores (0 when it forms none).
pub open spec fn cross_term<S: LetterScoring, B: BoardBonus>(
    t: Seq<Seq<Square>>,
    rules: ScoreRules<S, B>,
    place: Placement,
    first: LetterTile,
    others: Seq<(usize, LetterTile)>,
    k: int,
) -> int {
    let c = played_coord(place, others, k);
    let p = line_pos(place, c);
    let e = place.1.perp();
    if on_line(place, c) && has_neighbor(t, p, e) {
        let b = rules.bonuses.bonus_of(p);
        (around(t, rules.scoring, p, e) + rules.scoring.value_of(played_tile(first, others, k))
            * b.letter) * b.word
    } else {
        0
    }
}

/// The sum of the cross terms of the first `n` played tiles.
pub open spec fn cross_total<S: LetterScoring, B: BoardBonus>(
    t: Seq<Seq<Square>>,
    rules: ScoreRules<S, B>,
    place: Placement,
    first: LetterTile,
    others: Seq<(usize, LetterTile)>,
    n: int,
) -> int
    decreases n,
{
    if n <= 0 {
        0
    } else {
        cross_total(t, rules, place, first, others, n - 1) + cross_term(
            t,
            rules,
            place,
            first,
            others,
            n - 1,
        )
    }
}

/// The index of the played tile at coordinate `q`, searching from `k`; -1 if none.
pub open spec fn played_at(place: Placement, others: Seq<(usize, LetterTile)>, k: int, q: int) -> int
    decreases others.len() + 1 - k,
{
    if k < 0 || k > others.len() {
        -1
    } else if played_coord(place, others, k) == q {
        k
    } else {
        played_at(place, others, k + 1, q)
    }
}

/// The start of the main word: back from `c` over filled squares.
pub open spec fn run_start(t: Seq<Seq<Square>>, place: Placement, c: int) -> int
    decreases c,
{
    if c > 0 && filled_at(t, place.0, place.1, c - 1) {
        run_start(t, place, c - 1)
    } else {
        c
    }
}

/// The end of the main word (exclusive): on from `c` over filled squares.
pub open spec fn run_end(t: Seq<Seq<Square>>, place: Placement, c: int) -> int
    decreases BOARD_SIZE - c,
{
    if c < BOARD_SIZE && filled_at(t, place.0, place.1, c) {
        run_end(t, place, c + 1)
    } else {
        c
    }
}

/// What square `q` of the main word adds to its sum: a played tile times its
/// letter premium, or the value of the tile already there.
pub open spec fn main_cell<S: LetterScoring, B: BoardBonus>(
    t: Seq<Seq<Square>>,
    rules: ScoreRules<S, B>,
    place: Placement,
    first: LetterTile,
    others: Seq<(usize, LetterTile)>,
    q: int,
) -> int {
    let k = played_at(place, others, 0, q);
    if !on_line(place, q) {
        0
    } else if k >= 0 {
        rules.scoring.value_of(played_tile(first, others, k)) * rules.bonuses.bonus_of(
            line_pos(place, q),
        ).letter
    } else {
        value_at(t, rules.scoring, place.0, place.1, q)
    }
}

/// The sum of the main-word squares from `q` up to `e` (exclusive).
pub open spec fn main_sum<S: LetterScoring, B: BoardBonus>(
    t: Seq<Seq<Square>>,
    rules: ScoreRules<S, B>,
    place: Placement,
    first: LetterTile,
    others: Seq<(usize, LetterTile)>,
    q: int,
    e: int,
) -> int
    decreases e - q,
{
    if q >= e {
        0
    } else {
        main_cell(t, rules, place, first, others, q) + main_sum(
            t,
            rules,
            place,
            first,
            others,
            q + 1,
            e,
        )
    }
}

/// The product of the word premiums of the first `n` played tiles that are on the board.
pub open spec fn word_multiplier<B: BoardBonus>(
    bonuses: B,
    place: Placement,
    others: Seq<(usize, LetterTile)>,
    n: int,
) -> int
    decreases n,
{
    if n <= 0 {
        1
    } else {
        let c = played_coord(place, others, n - 1);
        word_multiplier(bonuses, place, others, n - 1) * if on_line(place, c) {
            bonuses.bonus_of(line_pos(place, c)).word as int
        } else {
            1
        }
    }
}

/// The score of two or more tiles: the main word (its squares summed, times
/// the word premiums of the played squares) plus each cross word.
pub open spec fn multi_letter_score<S: LetterScoring, B: BoardBonus>(
    t: Seq<Seq<Square>>,
    rules: ScoreRules<S, B>,
    place: Placement,
    first: LetterTile,
    others: Seq<(usize, LetterTile)>,
) -> int {
    let n = others.len() as int + 1;
    let s = run_start(t, place, place.0.coord(place.1) as int);
    let e = run_end(t, place, played_coord(place, others, n - 1) + 1);
    main_sum(t, rules, place, first, others, s, e) * word_multiplier(rules.bonuses, place, others, n)
        + cross_total(t, rules, place, first, others, n)
}

/// The score of a move, before any bonus for playing the whole tray.
pub open spec fn move_score<S: LetterScoring, B: BoardBonus>(
    t: Seq<Seq<Square>>,
    rules: ScoreRules<S, B>,
    play: MoveView,
) -> int {
    match play {
        MoveView::SingleLetter(pos, tile) => single_letter_score(t, rules, pos, tile),
        MoveView::MultiLetters(place, first, others) => multi_letter_score(t, rules, place, first, others),
    }
}

proof fn lemma_played_coord_monotone(place: Placement, others: Seq<(usize, LetterTile)>, j: int, k: int)
    requires
        0 <= j < k <= others.len(),
    ensures
        played_coord(place, others, j) < played_coord(place, others, k),
    decreases k - j,
{
    if j + 1 < k {
        lemma_played_coord_monotone(place, others, j, k - 1);
    }
}

proof fn lemma_played_coord_lower(place: Placement, others: Seq<(usize, LetterTile)>, k: int)
    requires
        0 <= k <= others.len(),
    ensures
        played_coord(place, others, k) >= place.0.coord(place.1) + k,
    decreases k,
{
    if k > 0 {
        lemma_played_coord_lower(place, others, k - 1);
    }
}

proof fn lemma_played_at_found(place: Placement, others: Seq<(usize, LetterTile)>, i: int, k: int, q: int)
    requires
        0 <= i <= k <= others.len(),
        played_coord(place, others, k) == q,
    ensures
        played_at(place, others, i, q) == k,
    decreases k - i,
{
    if i < k {
        lemma_played_coord_monotone(place, others, i, k);
        lemma_played_at_found(place, others, i + 1, k, q);
    }
}

proof fn lemma_played_at_none(place: Placement, others: Seq<(usize, LetterTile)>, i: int, q: int)
    requires
        0 <= i,
        forall|j: int| i <= j <= others.len() ==> played_coord(place, others, j) != q,
    ensures
        played_at(place, others, i, q) == -1,
    decreases others.len() + 1 - i,
{
    if i <= others.len() {
        lemma_played_at_none(place, others, i + 1, q);
    }
}

proof fn lemma_tail_off_board<S: LetterScoring, B: BoardBonus>(
    t: Seq<Seq<Square>>,
    rules: ScoreRules<S, B>,
    place: Placement,
    first: LetterTile,
    others: Seq<(usize, LetterTile)>,
    k: int,
    n: int,
)
    requires
        0 <= k <= n <= others.len() + 1,
        k < n ==> played_coord(place, others, k) >= BOARD_SIZE,
    ensures
        cross_total(t, rules, place, first, others, n) == cross_total(t, rules, place, first, others, k),
        word_multiplier(rules.bonuses, place, others, n) == word_multiplier(rules.bonuses, place, others, k),
    decreases n - k,
{
    if k < n {
        lemma_tail_off_board(t, rules, place, first, others, k, n - 1);
        if k < n - 1 {
            lemma_played_coord_monotone(place, others, k, n - 1);
        }
    }
}

proof fn lemma_run_end_ge(t: Seq<Seq<Square>>, place: Placement, c: int)
    ensures
        run_end(t, place, c) >= c,
    decreases BOARD_SIZE - c,
{
    if c < BOARD_SIZE && filled_at(t, place.0, place.1, c) {
        lemma_run_end_ge(t, place, c + 1);
    }
}

proof fn lemma_main_sum_off_board<S: LetterScoring, B: BoardBonus>(
    t: Seq<Seq<Square>>,
    rules: ScoreRules<S, B>,
    place: Placement,
    first: LetterTile,
    others: Seq<(usize, LetterTile)>,
    q: int,
    e: int,
)
    requires
        q >= BOARD_SIZE,
    ensures
        main_sum(t, rules, place, first, others, q, e) == 0,
    decreases e - q,
{
    if q < e {
        lemma_main_sum_off_board(t, rules, place, first, others, q + 1, e);
    }
}

proof fn lemma_main_sum_nonneg<S: LetterScoring, B: BoardBonus>(
    t: Seq<Seq<Square>>,
    rules: ScoreRules<S, B>,
    place: Placement,
    first: LetterTile,
    others: Seq<(usize, LetterTile)>,
    q: int,
    e: int,
)
    ensures
        main_sum(t, rules, place, first, others, q, e) >= 0,
    decreases e - q,
{
    if q < e {
        lemma_main_sum_nonneg(t, rules, place, first, others, q + 1, e);
        let k = played_at(place, others, 0, q);
        let a = rules.scoring.value_of(played_tile(first, others, k)) as int;
        let b = rules.bonuses.bonus_of(line_pos(place, q)).letter as int;
        assert(a * b >= 0) by (nonlinear_arith)
            requires
                a >= 0,
                b >= 0,
        ;
    }
}

proof fn lemma_cross_nonneg<S: LetterScoring, B: BoardBonus>(
    t: Seq<Seq<Square>>,
    rules: ScoreRules<S, B>,
    place: Placement,
    first: LetterTile,
    others: Seq<(usize, LetterTile)>,
    n: int,
)
    ensures
        cross_total(t, rules, place, first, others, n) >= 0,
    decreases n,
{
    if n > 0 {
        lemma_cross_nonneg(t, rules, place, first, others, n - 1);
        let c = played_coord(place, others, n - 1);
        let p = line_pos(place, c);
        let e = place.1.perp();
        if on_line(place, c) && has_neighbor(t, p, e) {
            let b = rules.bonuses.bonus_of(p);
            lemma_around_nonneg(t, rules.scoring, p, e);
            let x = around(t, rules.scoring, p, e);
            let v = rules.scoring.value_of(played_tile(first, others, n - 1)) as int;
            let bl = b.letter as int;
            let bw = b.word as int;
            assert((x + v * bl) * bw >= 0) by (nonlinear_arith)
                requires
                    x >= 0,
                    v >= 0,
                    bl >= 0,
                    bw >= 0,
            ;
        }
    }
}

proof fn lemma_word_multiplier_nonneg<B: BoardBonus>(
    bonuses: B,
    place: Placement,
    others: Seq<(usize, LetterTile)>,
    n: int,
)
    ensures
        word_multiplier(bonuses, place, others, n) >= 0,
    decreases n,
{
    if n > 0 {
        lemma_word_multiplier_nonneg(bonuses, place, others, n - 1);
        let m = word_multiplier(bonuses, place, others, n - 1);
        let c = played_coord(place, others, n - 1);
        let f: int = if on_line(place, c) {
            bonuses.bonus_of(line_pos(place, c)).word as int
        } else {
            1
        };
        assert(m * f >= 0) by (nonlinear_arith)
            requires
                m >= 0,
                f >= 0,
        ;
    }
}

proof fn lemma_sum_before_nonneg<S: LetterScoring>(t: Seq<Seq<Square>>, sc: S, p: Position, d: Direction, c: int)
    ensures
        sum_before(t, sc, p, d, c) >= 0,
    decreases c + 1,
{
    if c >= 0 && filled_at(t, p, d, c) {
        lemma_sum_before_nonneg(t, sc, p, d, c - 1);
    }
}

proof fn lemma_sum_after_nonneg<S: LetterScoring>(t: Seq<Seq<Square>>, sc: S, p: Position, d: Direction, c: int)
    ensures
        sum_after(t, sc, p, d, c) >= 0,
    decreases BOARD_SIZE - c,
{
    if c < BOARD_SIZE && filled_at(t, p, d, c) {
        lemma_sum_after_nonneg(t, sc, p, d, c + 1);
    }
}

proof fn lemma_around_nonneg<S: LetterScoring>(t: Seq<Seq<Square>>, sc: S, p: Position, d: Direction)
    ensures
        around(t, sc, p, d) >= 0,
{
    lemma_sum_before_nonneg(t, sc, p, d, p.coord(d) - 1);
    lemma_sum_after_nonneg(t, sc, p, d, p.coord(d) + 1);
}

/// Scores are never negative.
pub(crate) proof fn lemma_move_score_nonneg<S: LetterScoring, B: BoardBonus>(t: Seq<Seq<Square>>, rules: ScoreRules<S, B>, m: MoveView)
    ensures
        move_score(t, rules, m) >= 0,
{
    match m {
        MoveView::SingleLetter(pos, tile) => {
            lemma_around_nonneg(t, rules.scoring, pos, Direction::Vertical);
            lemma_around_nonneg(t, rules.scoring, pos, Direction::Horizontal);
            let b = rules.bonuses.bonus_of(pos);
            let x = around(t, rules.scoring, pos, Direction::Vertical) + around(t, rules.scoring, pos, Direction::Horizontal);
            let l = rules.scoring.value_of(tile) as int;
            let bl = b.letter as int;
            let bw = b.word as int;
            assert((x + 2 * l * bl) * bw >= 0) by (nonlinear_arith)
                requires
                    x >= 0,
                    l >= 0,
                    bl >= 0,
                    bw >= 0,
            ;
        },
        MoveView::MultiLetters(place, first, others) => {
            let n = others.len() as int + 1;
            let s = run_start(t, place, place.0.coord(place.1) as int);
            let e = run_end(t, place, played_coord(place, others, n - 1) + 1);
            lemma_main_sum_nonneg(t, rules, place, first, others, s, e);
            lemma_word_multiplier_nonneg(rules.bonuses, place, others, n);
            lemma_cross_nonneg(t, rules, place, first, others, n);
            let a = main_sum(t, rules, place, first, others, s, e);
            let w = word_multiplier(rules.bonuses, place, others, n);
            assert(a * w >= 0) by (nonlinear_arith)
                requires
                    a >= 0,
                    w >= 0,
            ;
        },
    }
}

/// The square at coordinate `c` along `d` on the line through `p`.
fn square_on_line_at(table: &Table<Square>, p: Position, d: Direction, c: usize) -> (r: Square)
    requires
        table.wf(),
    ensures
        r == square_on_line(table@, p, d, c as int),
{
    if c < BOARD_SIZE && p.index(d.perp()) < BOARD_SIZE {
        let mut q = p;
        q.set_index(d, c);
        proof {
            assert(q.row < BOARD_SIZE && q.col < BOARD_SIZE);
            assert(table@[q.row as int].len() == BOARD_SIZE);
        }
        match table.get(q) {
            Some(s) => *s,
            None => Square::Empty,
        }
    } else {
        Square::Empty
    }
}

fn is_filled_at(table: &Table<Square>, p: Position, d: Direction, c: usize) -> (r: bool)
    requires
        table.wf(),
    ensures
        r == filled_at(table@, p, d, c as int),
{
    match square_on_line_at(table, p, d, c) {
        Square::Filled(_) => true,
        Square::Empty => false,
    }
}

fn value_on_line<S: LetterScoring>(table: &Table<Square>, sc: &S, p: Position, d: Direction, c: usize) -> (r: u32)
    requires
        table.wf(),
    ensures
        r == value_at(table@, *sc, p, d, c as int),
{
    match square_on_line_at(table, p, d, c) {
        Square::Filled(tile) => sc.score_for(&tile),
        Square::Empty => 0,
    }
}

/// The (capped) sum of the run of filled squares just before `p` along `d`,
/// and whether that run is not empty.
fn sum_back<S: LetterScoring>(table: &Table<Square>, sc: &S, p: Position, d: Direction) -> (r: (u32, bool))
    requires
        table.wf(),
    ensures
        r.0 == capped(sum_before(table@, *sc, p, d, p.coord(d) - 1)),
        r.1 == filled_at(table@, p, d, p.coord(d) - 1),
{
    let c0 = p.index(d);
    if c0 > BOARD_SIZE {
        return (0, false);
    }
    let mut c = c0;
    let mut acc: u32 = 0;
    let ghost mut ex: int = 0;
    while c > 0 && is_filled_at(table, p, d, c - 1)
        invariant
            table.wf(),
            c <= c0 <= BOARD_SIZE,
            c0 == p.coord(d),
            ex >= 0,
            acc == capped(ex),
            ex + sum_before(table@, *sc, p, d, c - 1) == sum_before(table@, *sc, p, d, c0 - 1),
            c < c0 ==> filled_at(table@, p, d, c0 - 1),
        decreases c,
    {
        let v = value_on_line(table, sc, p, d, c - 1);
        proof {
            lemma_capped_add(ex, v as int);
        }
        acc = sat_add(acc, v);
        proof {
            ex = ex + v;
        }
        c -= 1;
    }
    (acc, c < c0)
}

/// The (capped) sum of the run of filled squares just after `p` along `d`,
/// and whether that run is not empty.
fn sum_fwd<S: LetterScoring>(table: &Table<Square>, sc: &S, p: Position, d: Direction) -> (r: (u32, bool))
    requires
        table.wf(),
    ensures
        r.0 == capped(sum_after(table@, *sc, p, d, p.coord(d) + 1)),
        r.1 == filled_at(table@, p, d, p.coord(d) + 1),
{
    let c0 = p.index(d);
    if c0 >= BOARD_SIZE {
        return (0, false);
    }
    let mut c = c0 + 1;
    let mut acc: u32 = 0;
    let ghost mut ex: int = 0;
    while c < BOARD_SIZE && is_filled_at(table, p, d, c)
        invariant
            table.wf(),
            c0 < c <= BOARD_SIZE,
            c0 == p.coord(d),
            ex >= 0,
            acc == capped(ex),
            ex + sum_after(table@, *sc, p, d, c as int) == sum_after(table@, *sc, p, d, c0 + 1),
            c > c0 + 1 ==> filled_at(table@, p, d, c0 + 1),
        decreases BOARD_SIZE - c,
    {
        let v = value_on_line(table, sc, p, d, c);
        proof {
            lemma_capped_add(ex, v as int);
        }
        acc = sat_add(acc, v);
        proof {
            ex = ex + v;
        }
        c += 1;
    }
    (acc, c > c0 + 1)
}

/// The (capped) sum of the values of the filled squares that touch `p` along
/// `d`, and whether there is one.
fn sum_around<S: LetterScoring>(table: &Table<Square>, sc: &S, p: Position, d: Direction) -> (r: (u32, bool))
    requires
        table.wf(),
    ensures
        r.0 == capped(around(table@, *sc, p, d)),
        r.1 == has_neighbor(table@, p, d),
{
    let (b, hb) = sum_back(table, sc, p, d);
    let (f, hf) = sum_fwd(table, sc, p, d);
    proof {
        lemma_sum_before_nonneg(table@, *sc, p, d, p.coord(d) - 1);
        lemma_sum_after_nonneg(table@, *sc, p, d, p.coord(d) + 1);
        lemma_capped_add(sum_before(table@, *sc, p, d, p.coord(d) - 1), sum_after(table@, *sc, p, d, p.coord(d) + 1));
    }
    (sat_add(b, f), hb || hf)
}

fn single_score<S: LetterScoring, B: BoardBonus>(
    table: &Table<Square>,
    pos: Position,
    tile: LetterTile,
    rules: &ScoreRules<S, B>,
) -> (r: u32)
    requires
        table.wf(),
    ensures
        r == capped(single_letter_score(table@, *rules, pos, tile)),
{
    let sc = &rules.scoring;
    let (v, _) = sum_around(table, sc, pos, Direction::Vertical);
    let (h, _) = sum_around(table, sc, pos, Direction::Horizontal);
    let l = sc.score_for(&tile);
    let b = rules.bonuses.bonus_at(pos);
    let vh = sat_add(v, h);
    let l2 = sat_mul(2, l);
    let lb = sat_mul(l2, b.letter);
    let tot = sat_add(vh, lb);
    let res = sat_mul(tot, b.word);
    proof {
        let x = around(table@, *sc, pos, Direction::Vertical);
        let y = around(table@, *sc, pos, Direction::Horizontal);
        lemma_around_nonneg(table@, *sc, pos, Direction::Vertical);
        lemma_around_nonneg(table@, *sc, pos, Direction::Horizontal);
        lemma_capped_add(x, y);
        let li = l as int;
        let bl = b.letter as int;
        let bw = b.word as int;
        lemma_capped_mul(2, li);
        lemma_capped_mul(2 * li, bl);
        assert(2 * li * bl >= 0) by (nonlinear_arith)
            requires
                li >= 0,
                bl >= 0,
        ;
        lemma_capped_add(x + y, 2 * li * bl);
        lemma_capped_mul(x + y + 2 * li * bl, bw);
    }
    res
}

fn multi_score<S: LetterScoring, B: BoardBonus>(
    table: &Table<Square>,
    place: Placement,
    first: LetterTile,
    others: &Vec<(usize, LetterTile)>,
    rules: &ScoreRules<S, B>,
) -> (r: u32)
    requires
        table.wf(),
    ensures
        r == capped(multi_letter_score(table@, *rules, place, first, others@)),
{
    let sc = &rules.scoring;
    let bonuses = &rules.bonuses;
    let d = place.1;
    let e = d.perp();
    let ghost t = table@;
    let ghost os = others@;
    let last = others.len();
    let ghost n: int = last + 1;
    let line_ok = place.0.index(e) < BOARD_SIZE;
    let pc = place.0.index(d);
    // cross words
    let mut cross: u32 = 0;
    let ghost mut cross_ex: int = 0;
    let mut k: usize = 0;
    let mut kc: usize = if pc > BOARD_SIZE { BOARD_SIZE } else { pc };
    while k <= last && kc < BOARD_SIZE
        invariant
            table.wf(),
            t == table@,
            os == others@,
            last == os.len(),
            n == os.len() + 1,
            *sc == rules.scoring,
            *bonuses == rules.bonuses,
            pc == place.0.coord(place.1),
            d == place.1,
            e == d.perp(),
            line_ok == (place.0.coord(e) < BOARD_SIZE),
            k <= n,
            k < n ==> kc as int == if played_coord(place, os, k as int) > BOARD_SIZE { BOARD_SIZE as int } else { played_coord(place, os, k as int) },
            cross_ex >= 0,
            cross == capped(cross_ex),
            cross_ex == cross_total(t, *rules, place, first, os, k as int),
        decreases n - k,
    {
        let tile = if k == 0 { first } else { others[k - 1].1 };
        let mut p = place.0;
        p.set_index(d, kc);
        let (around_sum, has) = sum_around(table, sc, p, e);
        proof {
            lemma_played_coord_lower(place, os, k as int);
            assert(played_coord(place, os, k as int) == kc);
            assert(line_pos(place, played_coord(place, os, k as int)) == p);
            assert(played_tile(first, os, k as int) == tile);
        }
        if line_ok && has {
            let l = sc.score_for(&tile);
            let b = bonuses.bonus_at(p);
            let lb = sat_mul(l, b.letter);
            let s1 = sat_add(around_sum, lb);
            let term = sat_mul(s1, b.word);
            proof {
                let x = around(t, *sc, p, e);
                lemma_around_nonneg(t, *sc, p, e);
                let li = l as int;
                let bl = b.letter as int;
                let bw = b.word as int;
                assert(li * bl >= 0 && (x + li * bl) * bw >= 0) by (nonlinear_arith)
                    requires
                        li >= 0,
                        bl >= 0,
                        bw >= 0,
                        x >= 0,
                ;
                lemma_capped_mul(li, bl);
                lemma_capped_add(x, li * bl);
                lemma_capped_mul(x + li * bl, bw);
                lemma_capped_add(cross_ex, (x + li * bl) * bw);
                let c = played_coord(place, os, k as int);
                assert(on_line(place, c));
                assert(line_pos(place, c) == p);
                assert(has_neighbor(t, p, e));
                assert(rules.bonuses.bonus_of(p) == b);
                assert(rules.scoring.value_of(played_tile(first, os, k as int)) == l);
                assert(cross_term(t, *rules, place, first, os, k as int) == (x + li * bl) * bw);
            }
            cross = sat_add(cross, term);
            proof {
                cross_ex = cross_ex + cross_term(t, *rules, place, first, os, k as int);
            }
        }
        if k < last {
            let gap = others[k].0;
            kc = if gap >= BOARD_SIZE {
                BOARD_SIZE
            } else if kc + gap + 1 > BOARD_SIZE {
                BOARD_SIZE
            } else {
                kc + gap + 1
            };
        }
        k += 1;
    }
    proof {
        lemma_tail_off_board(t, *rules, place, first, os, k as int, n as int);
    }
    // main word: back to its start
    let mut s = pc;
    while s > 0 && is_filled_at(table, place.0, d, s - 1)
        invariant
            table.wf(),
            t == table@,
            d == place.1,
            s <= pc,
            pc == place.0.coord(d),
            run_start(t, place, s as int) == run_start(t, place, pc as int),
        decreases s,
    {
        s -= 1;
    }
    let ghost end = run_end(t, place, played_coord(place, os, n - 1) + 1);
    let mut q = s;
    let mut main: u32 = 0;
    let ghost mut main_ex: int = 0;
    let mut mult: u32 = 1;
    let ghost mut mult_ex: int = 1;
    let mut k: usize = 0;
    let mut kc: usize = if pc > BOARD_SIZE { BOARD_SIZE } else { pc };
    proof {
        lemma_run_end_ge(t, place, played_coord(place, os, n - 1) + 1);
        if n - 1 > 0 {
            lemma_played_coord_monotone(place, os, 0, n - 1);
        }
    }
    while q < BOARD_SIZE && (k <= last || is_filled_at(table, place.0, d, q))
        invariant
            table.wf(),
            t == table@,
            os == others@,
            last == os.len(),
            n == os.len() + 1,
            *sc == rules.scoring,
            *bonuses == rules.bonuses,
            pc == place.0.coord(place.1),
            d == place.1,
            e == d.perp(),
            line_ok == (place.0.coord(e) < BOARD_SIZE),
            k <= n,
            k < n ==> kc as int == if played_coord(place, os, k as int) > BOARD_SIZE { BOARD_SIZE as int } else { played_coord(place, os, k as int) },
            k < n ==> played_coord(place, os, k as int) >= q,
            k > 0 ==> played_coord(place, os, k - 1) < q,
            k == n ==> run_end(t, place, q as int) == end,
            end == run_end(t, place, played_coord(place, os, n - 1) + 1),
            s <= pc,
            run_start(t, place, s as int) == run_start(t, place, pc as int),
            s == 0 || !filled_at(t, place.0, place.1, s - 1),
            q <= end,
            main_ex >= 0,
            main == capped(main_ex),
            main_ex + main_sum(t, *rules, place, first, os, q as int, end) == main_sum(t, *rules, place, first, os, s as int, end),
            mult_ex >= 0,
            mult == capped(mult_ex),
            mult_ex == word_multiplier(rules.bonuses, place, os, k as int),
        decreases BOARD_SIZE - q,
    {
        proof {
            lemma_run_end_ge(t, place, played_coord(place, os, n - 1) + 1);
            assert(end >= played_coord(place, os, n - 1) + 1);
            if k < n {
                if k < n - 1 {
                    lemma_played_coord_monotone(place, os, k as int, n - 1);
                }
                assert(played_coord(place, os, k as int) <= played_coord(place, os, n - 1));
                assert(played_coord(place, os, k as int) >= q);
            } else {
                lemma_run_end_ge(t, place, q + 1);
                assert(filled_at(t, place.0, place.1, q as int));
                assert(run_end(t, place, q as int) == run_end(t, place, q + 1));
            }
            assert(q < end);
        }
        if k <= last && kc == q {
            let tile = if k == 0 { first } else { others[k - 1].1 };
            proof {
                lemma_played_coord_lower(place, os, k as int);
                lemma_played_at_found(place, os, 0, k as int, q as int);
                assert(played_tile(first, os, k as int) == tile);
            }
            if line_ok {
                let mut p = place.0;
                p.set_index(d, q);
                let l = sc.score_for(&tile);
                let b = bonuses.bonus_at(p);
                let cell = sat_mul(l, b.letter);
                proof {
                    assert(line_pos(place, q as int) == p);
                    let li = l as int;
                    let bl = b.letter as int;
                    let bw = b.word as int;
                    assert(li * bl >= 0 && mult_ex * bw >= 0) by (nonlinear_arith)
                        requires
                            li >= 0,
                            bl >= 0,
                            bw >= 0,
                            mult_ex >= 0,
                    ;
                    lemma_capped_mul(li, bl);
                    lemma_capped_add(main_ex, li * bl);
                    lemma_capped_mul(mult_ex, bw);
                }
                main = sat_add(main, cell);
                mult = sat_mul(mult, b.word);
                proof {
                    main_ex = main_ex + l * b.letter;
                    mult_ex = mult_ex * b.word;
                }
            }
            if k < last {
                let gap = others[k].0;
                kc = if gap >= BOARD_SIZE {
                    BOARD_SIZE
                } else if q + gap + 1 > BOARD_SIZE {
                    BOARD_SIZE
                } else {
                    q + gap + 1
                };
            }
            k += 1;
        } else {
            proof {
                assert forall|j: int| 0 <= j <= os.len() implies played_coord(place, os, j) != q by {
                    if j < k as int - 1 {
                        lemma_played_coord_monotone(place, os, j, k as int - 1);
                    }
                    if j > k {
                        lemma_played_coord_monotone(place, os, k as int, j);
                    }
                }
                lemma_played_at_none(place, os, 0, q as int);
            }
            let v = value_on_line(table, sc, place.0, d, q);
            proof {
                lemma_capped_add(main_ex, v as int);
            }
            main = sat_add(main, v);
            proof {
                main_ex = main_ex + v;
                if k == n {
                    assert(filled_at(t, place.0, place.1, q as int));
                    assert(run_end(t, place, q as int) == run_end(t, place, q + 1));
                }
            }
        }
        q += 1;
    }
    proof {
        if q >= BOARD_SIZE {
            lemma_main_sum_off_board(t, *rules, place, first, os, q as int, end);
            lemma_tail_off_board(t, *rules, place, first, os, k as int, n as int);
        }
        lemma_main_sum_nonneg(t, *rules, place, first, os, s as int, end);
        lemma_word_multiplier_nonneg(rules.bonuses, place, os, n as int);
        assert(main_ex * mult_ex >= 0) by (nonlinear_arith)
            requires
                main_ex >= 0,
                mult_ex >= 0,
        ;
        lemma_capped_mul(main_ex, mult_ex);
        lemma_capped_add(main_ex * mult_ex, cross_ex);
    }
    sat_add(sat_mul(main, mult), cross)
}

/// The score of a move, before any bonus for playing the whole tray.
///
/// Additions and products saturate: the result is the exact score, or
/// `u32::MAX` when that does not fit.
pub fn naive_score<S: LetterScoring, B: BoardBonus>(
    table: &Table<Square>,
    play: &Move,
    score_rules: &ScoreRules<S, B>,
) -> (r: u32)
    requires
        table.wf(),
    ensures
        r == capped(move_score(table@, *score_rules, play@)),
{
    match play {
        Move::SingleLetter(pos, tile) => single_score(table, *pos, *tile, score_rules),
        Move::MultiLetters(place, first, others) => multi_score(table, *place, *first, others, score_rules),
    }
}

} // verus!
