use scrabble::input::{board_from_text, square_from_byte, tray_from_bytes};
use scrabble::score_rules::{
    EnglishScrabbleScoring, EnglishWordsWithFriendsScoring, ScoreRules, ScrabbleBonus, TableScoring,
};
use scrabble::solver::score::naive_score;
use scrabble::solver::word_finder::TrayRemaining;
use scrabble::solver::{evaluate, generate_moves_for_word, ConstrainedBoard, RestrictedSquare};
use scrabble::solver::letter_set::LetterSet;
use scrabble::{
    BoardBonus, Board, Direction, Letter, LetterScoring, LetterTile, Move, Placement, Position,
    Rules, Square, Table,
};

fn letter(b: u8) -> LetterTile {
    LetterTile::Letter(Letter(b))
}

fn tray_of(s: &str) -> TrayRemaining {
    let mut letters = [0u8; 256];
    let mut blanks = 0u8;
    for b in s.bytes() {
        if b == b'*' {
            blanks += 1;
        } else {
            letters[b as usize] += 1;
        }
    }
    TrayRemaining::new(letters, blanks)
}

fn rules(words: Vec<&str>, extra_bonus: u32) -> Rules<EnglishScrabbleScoring, ScrabbleBonus> {
    let mut words = words;
    words.sort_unstable();
    Rules {
        score_rules: ScoreRules { scoring: EnglishScrabbleScoring, bonuses: ScrabbleBonus, extra_bonus },
        wildcards_have_multi_meaning: false,
        dictionary: fst::Set::from_iter(words).unwrap(),
    }
}

fn put(board: &mut Board, row: usize, col: usize, b: u8) {
    let pos = Position { row, col };
    board.letter_table.set(pos, Square::Filled(letter(b)));
    board.value_table.set(pos, Square::Filled(letter(b)));
}

fn score_rules() -> ScoreRules<EnglishScrabbleScoring, ScrabbleBonus> {
    ScoreRules { scoring: EnglishScrabbleScoring, bonuses: ScrabbleBonus, extra_bonus: 50 }
}

#[test]
fn letter_values_and_bonuses() {
    assert_eq!(EnglishScrabbleScoring.score_for(&letter(b'q')), 10);
    assert_eq!(EnglishScrabbleScoring.score_for(&letter(b'e')), 1);
    assert_eq!(EnglishScrabbleScoring.score_for(&LetterTile::Wildcard), 0);
    assert_eq!(EnglishScrabbleScoring.score_for(&letter(b'#')), 0);
    assert_eq!(EnglishWordsWithFriendsScoring.score_for(&letter(b'b')), 4);
    let mut values = [0u32; 256];
    values[b'x' as usize] = 7;
    let table = TableScoring { values, wildcard: 1 };
    assert_eq!(table.score_for(&letter(b'x')), 7);
    assert_eq!(table.score_for(&LetterTile::Wildcard), 1);
    let b = ScrabbleBonus.bonus_at(Position { row: 0, col: 0 });
    assert_eq!((b.letter, b.word), (1, 3));
    let b = ScrabbleBonus.bonus_at(Position { row: 7, col: 7 });
    assert_eq!((b.letter, b.word), (1, 3));
    let b = ScrabbleBonus.bonus_at(Position { row: 6, col: 6 });
    assert_eq!((b.letter, b.word), (2, 1));
    let b = ScrabbleBonus.bonus_at(Position { row: 4, col: 4 });
    assert_eq!((b.letter, b.word), (1, 2));
    let b = ScrabbleBonus.bonus_at(Position { row: 3, col: 7 });
    assert_eq!((b.letter, b.word), (2, 1));
    let b = ScrabbleBonus.bonus_at(Position { row: 5, col: 5 });
    assert_eq!((b.letter, b.word), (3, 1));
    let b = ScrabbleBonus.bonus_at(Position { row: 15, col: 0 });
    assert_eq!((b.letter, b.word), (u32::MAX, u32::MAX));
}

#[test]
fn single_letter_on_double_letter_square() {
    // Q on a double-letter square above an I: (1 + 0 + 2 * 10 * 2) * 1
    let mut board = Board::empty();
    put(&mut board, 4, 7, b'i');
    let play = Move::SingleLetter(Position { row: 3, col: 7 }, letter(b'q'));
    assert_eq!(naive_score(&board.value_table, &play, &score_rules()), 41);
}

#[test]
fn multi_letter_score_on_centre() {
    // c(4) a(1, on the centre, a triple word square) t(1): (4 + 1 + 1) * 3
    let board = Board::empty();
    let play = Move::MultiLetters(
        Placement(Position { row: 7, col: 6 }, Direction::Horizontal),
        letter(b'c'),
        vec![(0, letter(b'a')), (0, letter(b't'))],
    );
    assert_eq!(naive_score(&board.value_table, &play, &score_rules()), 18);
}

#[test]
fn multi_letter_score_with_cross_word_and_board_tile() {
    // "at" made into "hat": h played at (6,5) before the board's a(6,6) and t(6,7),
    // and "ho" across with o(7,5) below the h.
    let mut board = Board::empty();
    put(&mut board, 6, 6, b'a');
    put(&mut board, 6, 7, b't');
    put(&mut board, 7, 5, b'o');
    let play = Move::MultiLetters(
        Placement(Position { row: 6, col: 4 }, Direction::Horizontal),
        letter(b'c'),
        vec![(0, letter(b'h'))],
    );
    // main word c h a t from col 4: c(4) at (6,4): plain; h(4) at (6,5): plain; a, t on board
    // main = 4 + 4 + 1 + 1 = 10; cross through h: o below -> (1 + 4) * 1 = 5; c has no cross word
    assert_eq!(naive_score(&board.value_table, &play, &score_rules()), 15);
}

#[test]
fn blanked_board_tile_scores_nothing() {
    let mut board = Board::empty();
    let pos = Position { row: 4, col: 7 };
    board.letter_table.set(pos, Square::Filled(letter(b'i')));
    board.value_table.set(pos, Square::Filled(LetterTile::Wildcard));
    let play = Move::SingleLetter(Position { row: 3, col: 7 }, letter(b'q'));
    assert_eq!(naive_score(&board.value_table, &play, &score_rules()), 40);
}

#[test]
fn tray_removals() {
    let tray = tray_of("ab*");
    assert_eq!(tray.total(), 3);
    let t = tray.remove(b'a').unwrap();
    assert_eq!(t.total(), 2);
    assert!(t.remove(b'a').is_none());
    let t = t.remove_wildcard().unwrap();
    assert_eq!(t.total(), 1);
    assert!(t.remove_wildcard().is_none());
    assert!(tray_of("").remove(b'z').is_none());
}

#[test]
fn table_access() {
    let mut t: Table<u8> = Table::fill_with(0);
    t.set(Position { row: 2, col: 3 }, 9);
    assert_eq!(t.get(Position { row: 2, col: 3 }), Some(&9));
    assert_eq!(t.get(Position { row: 15, col: 3 }), None);
    if let Some(v) = t.get_mut(Position { row: 1, col: 1 }) {
        *v = 4;
    }
    assert_eq!(t.get(Position { row: 1, col: 1 }), Some(&4));
    let mut sq = Square::Filled(letter(b'a'));
    if let Some(tile) = sq.tile_mut() {
        *tile = letter(b'b');
    }
    assert_eq!(sq.tile(), Some(&letter(b'b')));
    assert_eq!(Square::Empty.tile(), None);
}

#[test]
fn placement_steps() {
    let p = Placement(Position { row: 3, col: 0 }, Direction::Horizontal);
    assert_eq!(p.next(), Placement(Position { row: 3, col: 1 }, Direction::Horizontal));
    assert_eq!(p.back().0.col, usize::MAX);
    assert_eq!(p.perp(), Placement(Position { row: 3, col: 0 }, Direction::Vertical));
    assert_eq!(Direction::Vertical.perp(), Direction::Horizontal);
}

#[test]
fn blank_minimisation_single_choice() {
    // b o o k with the second o on the board, one b in the tray, blanks for o and k
    let line = [
        RestrictedSquare::Empty(LetterSet::alphabet()),
        RestrictedSquare::Empty(LetterSet::alphabet()),
        RestrictedSquare::Filled(letter(b'o')),
        RestrictedSquare::Empty(LetterSet::alphabet()),
    ];
    let mut missing = [0u8; 256];
    missing[b'o' as usize] = 1;
    missing[b'k' as usize] = 1;
    let place = Placement(Position { row: 7, col: 5 }, Direction::Horizontal);
    let mut moves = Vec::new();
    generate_moves_for_word(place, &line, b"book", &[false; 4], &missing, &mut moves);
    assert_eq!(
        moves,
        vec![Move::MultiLetters(
            place,
            letter(b'b'),
            vec![(0, LetterTile::Wildcard), (1, LetterTile::Wildcard)],
        )]
    );
}

#[test]
fn blank_minimisation_each_choice() {
    // b o o k on four empty squares, blanks for one o and the k: either o may be the blank
    let line = [RestrictedSquare::Empty(LetterSet::alphabet()); 4];
    let mut missing = [0u8; 256];
    missing[b'o' as usize] = 1;
    missing[b'k' as usize] = 1;
    let place = Placement(Position { row: 7, col: 5 }, Direction::Horizontal);
    let mut moves = Vec::new();
    generate_moves_for_word(place, &line, b"book", &[false; 4], &missing, &mut moves);
    assert_eq!(moves.len(), 2);
    assert!(moves.contains(&Move::MultiLetters(
        place,
        letter(b'b'),
        vec![(0, LetterTile::Wildcard), (0, letter(b'o')), (0, LetterTile::Wildcard)],
    )));
    assert!(moves.contains(&Move::MultiLetters(
        place,
        letter(b'b'),
        vec![(0, letter(b'o')), (0, LetterTile::Wildcard), (0, LetterTile::Wildcard)],
    )));
    for m in &moves {
        if let Move::MultiLetters(_, _, others) = m {
            let blanks = others.iter().filter(|(_, t)| *t == LetterTile::Wildcard).count();
            assert_eq!(blanks, 2);
        }
    }
}

#[test]
fn intersection_blank_is_forced() {
    let line = [RestrictedSquare::Empty(LetterSet::alphabet()); 2];
    let missing = [0u8; 256];
    let place = Placement(Position { row: 0, col: 0 }, Direction::Vertical);
    let mut moves = Vec::new();
    generate_moves_for_word(place, &line, b"ab", &[false, true], &missing, &mut moves);
    assert_eq!(
        moves,
        vec![Move::MultiLetters(place, letter(b'a'), vec![(0, LetterTile::Wildcard)])]
    );
}

#[test]
fn empty_board_first_move() {
    let board = Board::empty();
    let r = rules(vec!["cat"], 50);
    let result = evaluate(&tray_of("cat****"), &board, &r);
    let cat = |row: usize, col: usize, dir: Direction| {
        Move::MultiLetters(
            Placement(Position { row, col }, dir),
            letter(b'c'),
            vec![(0, letter(b'a')), (0, letter(b't'))],
        )
    };
    let expected = vec![
        cat(7, 5, Direction::Horizontal),
        cat(7, 6, Direction::Horizontal),
        cat(7, 7, Direction::Horizontal),
        cat(5, 7, Direction::Vertical),
        cat(6, 7, Direction::Vertical),
        cat(7, 7, Direction::Vertical),
    ];
    for m in &expected {
        assert!(result.words.iter().any(|(n, _)| n == m), "missing {:?}", m);
    }
    // every move covers the centre
    for (m, _) in &result.words {
        if let Move::MultiLetters(Placement(p, d), _, others) = m {
            let len = 1 + others.iter().map(|(g, _)| g + 1).sum::<usize>();
            let covers = match d {
                Direction::Horizontal => p.row == 7 && p.col <= 7 && 7 < p.col + len,
                Direction::Vertical => p.col == 7 && p.row <= 7 && 7 < p.row + len,
            };
            assert!(covers, "{:?}", m);
        } else {
            panic!("a single tile cannot be played first");
        }
    }
    // words recorded and scores sorted
    for (_, words) in &result.words {
        assert_eq!(words.to_vec(), vec![b"cat".to_vec()]);
    }
    for w in result.score.windows(2) {
        assert!(w[0].1 <= w[1].1);
    }
    assert_eq!(result.score.len(), result.words.len());
    let top = result.score.last().unwrap();
    assert_eq!(top.1, 18);
}

#[test]
fn bingo_bonus_added_once() {
    let board = Board::empty();
    let r = rules(vec!["letters"], 50);
    let result = evaluate(&tray_of("letters"), &board, &r);
    assert!(!result.score.is_empty());
    for (m, s) in &result.score {
        let base = naive_score(&board.value_table, m, &r.score_rules);
        assert_eq!(*s, base + 50);
    }
    let r = rules(vec!["letters"], 35);
    let result = evaluate(&tray_of("letters"), &board, &r);
    for (m, s) in &result.score {
        let base = naive_score(&board.value_table, m, &r.score_rules);
        assert_eq!(*s, base + 35);
    }
}

#[test]
fn evaluation_is_deterministic_and_deduplicated() {
    let mut board = Board::empty();
    put(&mut board, 7, 6, b'a');
    put(&mut board, 7, 7, b't');
    let r = rules(vec!["at", "bat", "cat", "tab", "ab", "ta"], 50);
    let tray = tray_of("bc*");
    let first = evaluate(&tray, &board, &r);
    let second = evaluate(&tray, &board, &r);
    let mut a: Vec<String> = first.score.iter().map(|(m, s)| format!("{:?} {}", m, s)).collect();
    let mut b: Vec<String> = second.score.iter().map(|(m, s)| format!("{:?} {}", m, s)).collect();
    a.sort();
    b.sort();
    assert_eq!(a, b);
    assert!(!a.is_empty());
    for i in 0..first.words.len() {
        for j in (i + 1)..first.words.len() {
            assert_ne!(first.words[i].0, first.words[j].0);
        }
    }
    // "bat" made by playing b before the board's "at"
    let bat = Move::SingleLetter(Position { row: 7, col: 5 }, letter(b'b'));
    assert!(first.words.iter().any(|(m, _)| *m == bat));
}

#[test]
fn constraint_board_of_a_word() {
    let mut board = Board::empty();
    put(&mut board, 7, 6, b'a');
    put(&mut board, 7, 7, b't');
    let dict = fst::Set::from_iter(vec!["at", "bat", "cat"]).unwrap();
    let cb = ConstrainedBoard::build(&board.letter_table, Direction::Horizontal, &dict);
    assert!(!cb.is_empty());
    let anchors = cb.explore();
    // square (7,5) before "at" allows b and c
    let a = anchors
        .iter()
        .find(|(p, _, _)| p.0 == Position { row: 7, col: 5 })
        .expect("anchor before the word");
    match a.1[0] {
        RestrictedSquare::Empty(set) => {
            assert!(set.contains(Letter(b'b')) && set.contains(Letter(b'c')));
            assert!(!set.contains(Letter(b'a')));
        }
        _ => panic!("expected an empty square"),
    }
    assert_eq!(a.2, 2);
    let empty = ConstrainedBoard::build(&Board::empty().letter_table, Direction::Vertical, &dict);
    assert!(empty.is_empty());
}

#[test]
fn tray_and_board_bytes() {
    let tray = tray_from_bytes(b"CaT*-*");
    assert_eq!(tray.total(), 5);
    assert!(tray.remove(b'c').is_some());
    assert!(tray.remove(b'C').is_none());
    let t = tray.remove_wildcard().unwrap().remove_wildcard().unwrap();
    assert!(t.remove_wildcard().is_none());
    assert_eq!(
        square_from_byte(b'Q'),
        Some((Square::Filled(letter(b'q')), Square::Filled(LetterTile::Wildcard)))
    );
    assert_eq!(square_from_byte(b'e'), Some((Square::Filled(letter(b'e')), Square::Filled(letter(b'e')))));
    assert_eq!(square_from_byte(b'_'), Some((Square::Empty, Square::Empty)));
    assert_eq!(square_from_byte(b'#'), None);
}

#[test]
fn moves_fit_the_tray() {
    let mut board = Board::empty();
    put(&mut board, 7, 6, b'a');
    put(&mut board, 7, 7, b't');
    let r = rules(vec!["at", "bat", "cat", "tab", "ab", "ta", "bath", "chat"], 50);
    let result = evaluate(&tray_of("bc*"), &board, &r);
    assert!(!result.words.is_empty());
    for (m, words) in &result.words {
        let tiles: Vec<LetterTile> = match m {
            Move::SingleLetter(_, t) => vec![*t],
            Move::MultiLetters(_, t, others) => {
                let mut v = vec![*t];
                v.extend(others.iter().map(|(_, t)| *t));
                v
            }
        };
        let blanks = tiles.iter().filter(|t| **t == LetterTile::Wildcard).count();
        let bs = tiles.iter().filter(|t| **t == letter(b'b')).count();
        let cs = tiles.iter().filter(|t| **t == letter(b'c')).count();
        assert!(blanks <= 1 && bs <= 1 && cs <= 1 && tiles.len() == blanks + bs + cs, "{:?}", m);
        for w in words.to_vec() {
            assert!(r.dictionary.contains(&w));
        }
    }
}

#[test]
fn board_from_text_reads_rows() {
    let board = board_from_text(b"_a\r\n  Qt*\n#b");
    let at = |row: usize, col: usize| {
        let p = Position { row, col };
        (*board.letter_table.get(p).unwrap(), *board.value_table.get(p).unwrap())
    };
    assert_eq!(at(0, 0), (Square::Empty, Square::Empty));
    assert_eq!(at(0, 1), (Square::Filled(letter(b'a')), Square::Filled(letter(b'a'))));
    assert_eq!(at(0, 2), (Square::Empty, Square::Empty));
    assert_eq!(at(1, 2), (Square::Filled(letter(b'q')), Square::Filled(LetterTile::Wildcard)));
    assert_eq!(at(1, 3), (Square::Filled(letter(b't')), Square::Filled(letter(b't'))));
    assert_eq!(at(1, 4), (Square::Filled(LetterTile::Wildcard), Square::Filled(LetterTile::Wildcard)));
    assert_eq!(at(2, 0), (Square::Empty, Square::Empty));
    assert_eq!(at(2, 1), (Square::Filled(letter(b'b')), Square::Filled(letter(b'b'))));
    let long = [b'a'; 20];
    let b = board_from_text(&long);
    assert_eq!(b.letter_table.get(Position { row: 0, col: 14 }), Some(&Square::Filled(letter(b'a'))));
}

#[test]
fn empty_board_first_move_is_exact() {
    let board = Board::empty();
    let r = rules(vec!["cat"], 50);
    let result = evaluate(&tray_of("cat****"), &board, &r);
    assert_eq!(result.words.len(), 6);
    assert_eq!(result.score.len(), 6);
    for (_, s) in &result.score {
        assert_eq!(*s, 18);
    }
}

#[test]
fn no_move_gives_empty_result() {
    let board = Board::empty();
    let r = rules(vec!["dog"], 50);
    let result = evaluate(&tray_of("cat"), &board, &r);
    assert!(result.words.is_empty() && result.score.is_empty());
}
